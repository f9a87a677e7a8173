use std::collections::BTreeMap;
use std::sync::Arc;

use miden_assembly_syntax::ast::types::{CallConv, FunctionType, Type};
use miden_assembly_syntax::ast::{Path as AstPath, PathBuf as AstPathBuf};
use miden_assembly_syntax::library::{LibraryExport, ProcedureExport as LibraryProcedureExport};
use miden_assembly_syntax::Library;
use miden_core::mast::{
    BasicBlockNodeBuilder, MastForest, MastForestContributor, MastNodeExt, MastNodeId,
};
use miden_core::operations::Operation;
use miden_core::serde::{Deserializable, Serializable};
use miden_lsp::builder::{project_diagnostic, SnapshotBuilder};
use miden_lsp::document::Severity;
use miden_lsp::hints::{loaded_projects, workspace_symbols};
use miden_lsp::metadata::{read_package, ArtifactPath};
use miden_lsp::pipeline::{build_snapshot, DirectoryListing, FileText, Inputs};
use miden_lsp::position::{compute_line_offsets, offset_to_position, Position, Range};
use miden_lsp::project::{
    collect_target_files, primary_priority, target_contexts, PackageSource, SourceMode,
    TargetSource,
};
use miden_lsp::registry::{PackageFile, RegistryState};
use miden_lsp::server::InitializationOptions;
use miden_lsp::snapshot::ProjectSnapshot;
use miden_lsp::stack_effect::ItemKind;
use miden_lsp::tokens::{
    AbsoluteSemanticToken, SemanticToken, TOKEN_MODIFIER_DECLARATION, TOKEN_MODIFIER_DOCUMENTATION,
    TOKEN_MODIFIER_READONLY, TOKEN_TYPE_COMMENT, TOKEN_TYPE_FUNCTION, TOKEN_TYPE_TYPE,
    TOKEN_TYPE_VARIABLE,
};
use miden_mast_package::{
    Dependency, Package as MastPackage, PackageExport, PackageManifest,
    ProcedureExport as PackageProcedureExport, TargetType,
};

fn position_of(text: &str, needle: &str) -> Position {
    let offset = text.find(needle).unwrap();
    offset_to_position(text, &compute_line_offsets(text), offset)
}

fn position_after(text: &str, needle: &str) -> Position {
    let offset = text.find(needle).unwrap() + needle.len();
    offset_to_position(text, &compute_line_offsets(text), offset)
}

fn target(name: &str, executable: bool, namespace: &str, root_file: &str) -> TargetSource {
    TargetSource {
        name: name.to_string(),
        executable,
        namespace: namespace.to_string(),
        root_file: Some(root_file.to_string()),
    }
}

fn library(name: &str, dir: &str, namespace: &str, root_file: &str, mode: SourceMode) -> PackageSource {
    PackageSource {
        name: name.to_string(),
        manifest_path: Some(format!("{dir}/miden-project.toml")),
        library: Some(target(name, false, namespace, root_file)),
        executables: Vec::new(),
        mode,
    }
}

fn sources(builder: &mut SnapshotBuilder, packages: &[PackageSource], files: &[(&str, &str)]) {
    for package in packages {
        let contexts = target_contexts(package).unwrap();
        let mut listed = Vec::new();
        let mut all = Vec::new();
        for context in &contexts {
            let prefix = format!("{}/", context.root_dir);
            let found = files
                .iter()
                .filter(|(path, _)| path.starts_with(&prefix))
                .map(|(path, _)| path.to_string())
                .collect();
            let kept = collect_target_files(context, found);
            all.extend(kept.iter().cloned());
            listed.push(kept);
        }
        for (context, kept) in contexts.iter().zip(listed) {
            for path in kept {
                let priority = primary_priority(&context.target, &path, &all);
                let text = files.iter().find(|(other, _)| *other == path).unwrap().1;
                builder.add_source(context, &path, priority, Ok(text.to_string())).unwrap();
            }
        }
    }
}

fn load(packages: &[PackageSource], files: &[(&str, &str)]) -> ProjectSnapshot {
    let mut builder = SnapshotBuilder::new();
    sources(&mut builder, packages, files);
    builder.finish()
}

fn single(text: &str) -> ProjectSnapshot {
    let package = library("app", "/work", "::app", "/work/mod.masm", SourceMode::AllTargets);
    load(&[package], &[("/work/mod.masm", text)])
}

fn decode_semantic_tokens(tokens: Vec<SemanticToken>) -> Vec<AbsoluteSemanticToken> {
    let mut absolute = Vec::new();
    let mut line = 0u32;
    let mut start = 0u32;
    let mut first = true;
    for token in tokens {
        if first {
            line = token.delta_line;
            start = token.delta_start;
            first = false;
        } else {
            line += token.delta_line;
            if token.delta_line == 0 {
                start += token.delta_start;
            } else {
                start = token.delta_start;
            }
        }
        absolute.push(AbsoluteSemanticToken {
            line,
            start,
            length: token.length,
            token_type: token.token_type,
            token_modifiers_bitset: token.token_modifiers_bitset,
        });
    }
    absolute
}

fn assert_token_at(
    tokens: &[AbsoluteSemanticToken],
    position: Position,
    token_type: u32,
    token_modifiers_bitset: u32,
) {
    assert!(
        tokens.iter().any(|token| {
            token.line == position.line
                && token.start == position.character
                && token.token_type == token_type
                && token.token_modifiers_bitset == token_modifiers_bitset
        }),
        "missing semantic token at {:?} for type {} modifiers {}",
        position,
        token_type,
        token_modifiers_bitset,
    );
}

fn build_forest() -> (MastForest, MastNodeId) {
    let mut forest = MastForest::new();
    let node_id = BasicBlockNodeBuilder::new(vec![Operation::Add], Vec::new())
        .add_to_forest(&mut forest)
        .expect("failed to build basic block");
    forest.make_root(node_id);
    (forest, node_id)
}

fn absolute_export_path(name: &str) -> Arc<AstPath> {
    let path = AstPathBuf::new(name).expect("invalid test path");
    let path = path.as_path().to_absolute().into_owned();
    Arc::from(path.into_boxed_path())
}

fn build_package_bytes(name: &str, version: &str, export_path: &str) -> Vec<u8> {
    build_typed_package(name, version, export_path, None)
}

fn build_typed_package(
    name: &str,
    version: &str,
    export_path: &str,
    signature: Option<FunctionType>,
) -> Vec<u8> {
    let (forest, node_id) = build_forest();
    let path = absolute_export_path(export_path);
    let export = LibraryProcedureExport::new(node_id, Arc::clone(&path));

    let mut exports = BTreeMap::new();
    exports.insert(Arc::clone(&path), LibraryExport::Procedure(export));

    let library = Arc::new(Library::new(Arc::new(forest), exports).unwrap());
    let digest = library.mast_forest()[node_id].digest();
    let manifest = PackageManifest::new([PackageExport::Procedure(PackageProcedureExport {
        path,
        digest,
        signature,
        attributes: Default::default(),
    })])
    .unwrap();

    let package = MastPackage {
        name: name.into(),
        version: version.parse().unwrap(),
        description: None,
        kind: TargetType::Library,
        mast: library,
        manifest,
        sections: Vec::new(),
    };

    let mut bytes = Vec::new();
    package.write_into(&mut bytes);
    bytes
}

fn with_package(bytes: &[u8], artifact: &str, text: &str) -> ProjectSnapshot {
    let package = library("app", "/work/app", "::app", "/work/app/mod.masm", SourceMode::AllTargets);
    let mut builder = SnapshotBuilder::new();
    sources(&mut builder, &[package], &[("/work/app/mod.masm", text)]);
    let compiled = read_package(artifact, bytes).unwrap();
    let place = ArtifactPath { path: artifact.to_string(), normal: artifact.to_string() };
    builder.add_package(&compiled, &Some(place), &Vec::new());
    builder.finish()
}

#[test]
fn resolves_local_definition_and_hover() {
    let snapshot = single("pub proc foo\n    call.foo\nend\n");

    let definition = snapshot.definition_at("/work/mod.masm", Position::new(1, 9)).unwrap();
    assert_eq!(definition.uri, "file:///work/mod.masm");

    let hover = snapshot.hover_at("/work/mod.masm", Position::new(1, 9)).unwrap();
    assert!(hover.contents.contains("proc ::app::foo"));
}

#[test]
fn classifies_semantic_tokens_for_symbols_and_literals() {
    let text = "\
#! docs
pub const ERR_CODE = 1
type Value = felt
pub proc helper(value: Value)
    # note
    push.ERR_CODE
end
";
    let snapshot = single(text);
    let tokens = decode_semantic_tokens(snapshot.semantic_tokens("/work/mod.masm").unwrap());
    assert_token_at(
        &tokens,
        position_of(text, "#! docs"),
        TOKEN_TYPE_COMMENT,
        TOKEN_MODIFIER_DOCUMENTATION,
    );
    assert_token_at(
        &tokens,
        position_of(text, "ERR_CODE = 1"),
        TOKEN_TYPE_VARIABLE,
        TOKEN_MODIFIER_DECLARATION | TOKEN_MODIFIER_READONLY,
    );
    assert_token_at(
        &tokens,
        position_of(text, "Value = felt"),
        TOKEN_TYPE_TYPE,
        TOKEN_MODIFIER_DECLARATION,
    );
    assert_token_at(
        &tokens,
        position_of(text, "helper(value"),
        TOKEN_TYPE_FUNCTION,
        TOKEN_MODIFIER_DECLARATION,
    );
    assert_token_at(
        &tokens,
        position_after(text, "push."),
        TOKEN_TYPE_VARIABLE,
        TOKEN_MODIFIER_READONLY,
    );
    assert_token_at(&tokens, position_of(text, "# note"), TOKEN_TYPE_COMMENT, 0);
}

#[test]
fn indexes_workspace_members_for_workspace_symbols() {
    let util = library("util", "/work/util", "::util", "/work/util/mod.masm", SourceMode::AllTargets);
    let app = library("app", "/work/app", "::app", "/work/app/mod.masm", SourceMode::AllTargets);
    let snapshot = load(
        &[util, app],
        &[
            ("/work/util/mod.masm", "pub proc helper\n    push.1\nend\n"),
            ("/work/app/mod.masm", "pub proc main\n    push.1\nend\n"),
        ],
    );

    let symbols = workspace_symbols(&vec![snapshot], "helper");
    assert!(symbols.iter().any(|symbol| symbol.name == "helper"));
}

#[test]
fn finds_references_across_workspace_members() {
    let util_text = "pub proc helper\n    push.1\nend\n";
    let app_text = "use util\npub proc main\n    call.util::helper\n    call.util::helper\nend\n";
    let util = library("util", "/work/util", "::util", "/work/util/mod.masm", SourceMode::AllTargets);
    let app = library("app", "/work/app", "::app", "/work/app/mod.masm", SourceMode::AllTargets);
    let snapshot = load(
        &[util, app],
        &[("/work/util/mod.masm", util_text), ("/work/app/mod.masm", app_text)],
    );

    let references = snapshot
        .references_at("/work/util/mod.masm", position_of(util_text, "helper"), true)
        .unwrap();

    assert_eq!(references.len(), 3);
    assert!(references.iter().any(|location| location.uri == "file:///work/util/mod.masm"));
    assert_eq!(
        references.iter().filter(|location| location.uri == "file:///work/app/mod.masm").count(),
        2,
    );
}

#[test]
fn resolves_manifest_namespaces_and_prefers_executable_ownership_for_bin_roots() {
    let lib_text = "use helpers\npub proc root\n    call.helpers::helper\nend\n";
    let helpers_text = "pub proc helper\n    push.1\nend\n";
    let main_text = "begin\n    call.pkg::core::helpers::helper\nend\n";
    let package = PackageSource {
        name: "app".to_string(),
        manifest_path: Some("/work/miden-project.toml".to_string()),
        library: Some(target("app", false, "::pkg::core", "/work/asm/mod.masm")),
        executables: vec![target("cli", true, "::$exec", "/work/asm/main.masm")],
        mode: SourceMode::AllTargets,
    };
    let snapshot = load(
        &[package],
        &[
            ("/work/asm/mod.masm", lib_text),
            ("/work/asm/helpers.masm", helpers_text),
            ("/work/asm/main.masm", main_text),
        ],
    );

    let entrypoint_hover = snapshot.hover_at("/work/asm/main.masm", Position::new(0, 1)).unwrap();
    assert!(
        entrypoint_hover.contents.contains("proc ::$exec::$main"),
        "{}",
        entrypoint_hover.contents
    );

    let helper_hover = snapshot
        .hover_at("/work/asm/helpers.masm", position_of(helpers_text, "helper"))
        .unwrap();
    assert!(helper_hover.contents.contains("proc ::pkg::core::helpers::helper"));

    let definition = snapshot
        .definition_at(
            "/work/asm/main.masm",
            position_after(main_text, "call.pkg::core::helpers::"),
        )
        .unwrap();
    assert_eq!(definition.uri, "file:///work/asm/helpers.masm");
}

#[test]
fn parses_fixture_symbols_and_resolves_multi_file_references_inside_a_package() {
    let main_text = "\
use app::core::helpers->math
const ERR = 1
type Amount = felt
pub proc main(value: Amount)
    call.math::ext_helper
    push.ERR
end
";
    let helpers_text = "pub proc ext_helper\n    push.1\nend\n";
    let package =
        library("app", "/work", "::app::core", "/work/src/mod.masm", SourceMode::AllTargets);
    let snapshot = load(
        &[package],
        &[("/work/src/mod.masm", main_text), ("/work/src/helpers.masm", helpers_text)],
    );

    let symbols = snapshot.document_symbols("/work/src/mod.masm").unwrap();
    assert!(symbols.iter().any(|symbol| symbol.name == "ERR"));
    assert!(symbols.iter().any(|symbol| symbol.name == "Amount"));
    assert!(symbols.iter().any(|symbol| symbol.name == "main"));

    let definition = snapshot
        .definition_at("/work/src/mod.masm", position_after(main_text, "call.math::"))
        .unwrap();
    assert_eq!(definition.uri, "file:///work/src/helpers.masm");

    let references = snapshot
        .references_at("/work/src/helpers.masm", position_of(helpers_text, "ext_helper"), true)
        .unwrap();
    assert_eq!(references.len(), 2);
    assert!(references.iter().any(|location| location.uri == "file:///work/src/helpers.masm"));
    assert!(references.iter().any(|location| location.uri == "file:///work/src/mod.masm"));
}

#[test]
fn resolves_path_dependency_from_source() {
    let dep_text = "pub proc helper\n    push.1\nend\n";
    let app_text = "use dep\npub proc main\n    call.dep::helper\nend\n";
    let app = library("app", "/work/app", "::app", "/work/app/mod.masm", SourceMode::AllTargets);
    let dep = library("dep", "/work/dep", "::dep", "/work/dep/mod.masm", SourceMode::LibraryOnly);
    let snapshot = load(
        &[app, dep],
        &[("/work/app/mod.masm", app_text), ("/work/dep/mod.masm", dep_text)],
    );

    let definition = snapshot
        .definition_at("/work/app/mod.masm", position_after(app_text, "call.dep::"))
        .unwrap();
    assert_eq!(definition.uri, "file:///work/dep/mod.masm");
}

#[test]
fn resolves_git_dependency_from_source() {
    let dep_text = "pub proc helper\n    push.1\nend\n";
    let app_text = "use dep\npub proc main\n    call.dep::helper\nend\n";
    let app = library("app", "/work/app", "::app", "/work/app/mod.masm", SourceMode::AllTargets);
    let dep = library(
        "dep",
        "/work/git-cache/dep",
        "::dep",
        "/work/git-cache/dep/mod.masm",
        SourceMode::LibraryOnly,
    );
    let snapshot = load(
        &[app, dep],
        &[("/work/app/mod.masm", app_text), ("/work/git-cache/dep/mod.masm", dep_text)],
    );

    let definition = snapshot
        .definition_at("/work/app/mod.masm", position_after(app_text, "call.dep::"))
        .unwrap();
    assert!(definition.uri.ends_with("mod.masm"));
    assert_ne!(definition.uri, "file:///work/repo/mod.masm");

    let hover = snapshot
        .hover_at("/work/app/mod.masm", position_after(app_text, "call.dep::"))
        .unwrap();
    assert!(hover.contents.contains("proc ::dep::helper"));
}

#[test]
fn falls_back_to_preassembled_package_metadata_for_hover_and_definition() {
    let app_text = "use dep\npub proc main\n    call.dep::helper\nend\n";
    let bytes = build_package_bytes("dep", "1.0.0", "dep::helper");
    let snapshot = with_package(&bytes, "/work/dep.masp", app_text);

    let definition = snapshot
        .definition_at("/work/app/mod.masm", position_after(app_text, "call.dep::"))
        .unwrap();
    assert_eq!(definition.uri, "file:///work/dep.masp");
    assert_eq!(definition.range, Range::new(Position::new(0, 0), Position::new(0, 0)));

    let hover = snapshot
        .hover_at("/work/app/mod.masm", position_after(app_text, "call.dep::"))
        .unwrap();
    assert!(hover.contents.contains("proc ::dep::helper"));
    assert!(hover.contents.contains("package: dep@1.0.0"));
}

#[test]
fn resolves_registry_dependency_from_in_memory_registry_artifacts() {
    let artifact = "/work/registry/dep.masp";
    let bytes = build_package_bytes("dep", "1.2.3", "dep::helper");
    let digest = MastPackage::read_from_bytes(&bytes).unwrap().digest();
    let version = format!("1.2.3#{digest}");
    let options = InitializationOptions {
        registry_artifacts: vec![artifact.to_string()],
        git_cache_root: None,
    };
    let registry = RegistryState::from_options(&options, &vec![Ok(bytes.clone())]).unwrap();
    let path = registry.artifact_path("dep", &version).unwrap();
    assert_eq!(path, artifact);
    assert_eq!(registry.artifact("dep", &version).unwrap().bytes, bytes);
    assert!(registry.artifact_path("dep", "9.9.9").is_none());

    let app_text = "use dep\npub proc main\n    call.dep::helper\nend\n";
    let snapshot = with_package(&bytes, path, app_text);
    let definition = snapshot
        .definition_at("/work/app/mod.masm", position_after(app_text, "call.dep::"))
        .unwrap();
    assert_eq!(definition.uri, "file:///work/registry/dep.masp");
}

#[test]
fn refuses_a_package_that_is_published_twice() {
    let bytes = build_package_bytes("dep", "1.0.0", "dep::helper");
    let result = RegistryState::from_packages(vec![
        PackageFile { path: "/a.masp".to_string(), bytes: bytes.clone() },
        PackageFile { path: "/b.masp".to_string(), bytes },
    ]);
    match result {
        Err(message) => assert_eq!(
            message,
            "failed to publish registry artifacts due to unresolved dependencies: /b.masp (dep)"
        ),
        Ok(_) => panic!("expected the second package to be refused"),
    }
}

#[test]
fn reports_bytes_that_hold_no_package() {
    match read_package("/work/dep.masp", &[1, 2, 3]) {
        Err(message) => assert!(message.starts_with("failed to decode '/work/dep.masp': ")),
        Ok(_) => panic!("expected an error"),
    }
}

#[test]
fn renders_inlay_hints_for_resolved_call_signatures() {
    let text = "\
pub proc helper(value: felt)
    push.1
end
pub proc main
    call.helper
end
";
    let snapshot = single(text);
    let hints = snapshot
        .inlay_hints("/work/mod.masm", Range::new(Position::new(0, 0), Position::new(6, 0)))
        .unwrap();

    assert_eq!(hints.len(), 1);
    assert_eq!(hints[0].position, position_after(text, "call.helper"));
    assert!(hints[0].label.contains("(value: felt)"));
    assert_eq!(hints[0].label_location.as_ref().unwrap().uri, "file:///work/mod.masm");
    assert_eq!(hints[0].tooltip, "resolved to `::app::helper`");

    let outside = snapshot
        .inlay_hints("/work/mod.masm", Range::new(Position::new(0, 0), Position::new(1, 0)))
        .unwrap();
    assert!(outside.is_empty());
}

#[test]
fn emits_code_lenses_for_exports_and_entrypoints() {
    let package = PackageSource {
        name: "app".to_string(),
        manifest_path: Some("/work/miden-project.toml".to_string()),
        library: Some(target("app", false, "::app", "/work/lib/mod.masm")),
        executables: vec![target("cli", true, "::$exec", "/work/bin/main.masm")],
        mode: SourceMode::AllTargets,
    };
    let snapshot = load(
        &[package],
        &[
            (
                "/work/lib/mod.masm",
                "\
pub proc exported_helper
    push.1
end

proc internal_helper
    push.1
end
",
            ),
            (
                "/work/bin/main.masm",
                "\
begin
    call.app::exported_helper
end
",
            ),
        ],
    );

    let library_lenses = snapshot.code_lenses("/work/lib/mod.masm").unwrap();
    assert_eq!(library_lenses.len(), 1);
    assert!(library_lenses[0].title.contains("Exported as ::app::exported_helper"));
    assert_eq!(
        library_lenses[0].message,
        "::app::exported_helper is exported from this package."
    );

    let bin_lenses = snapshot.code_lenses("/work/bin/main.masm").unwrap();
    assert_eq!(bin_lenses.len(), 1);
    assert!(bin_lenses[0].title.starts_with("Entrypoint "));
    assert_eq!(
        bin_lenses[0].message,
        "::$exec::$main is the executable entrypoint for target `cli`."
    );
}

#[test]
fn renames_proc_const_and_type_symbols() {
    let text = "\
type Value = felt
const ERR_CODE = 1
pub proc helper(value: Value)
    push.ERR_CODE
end
pub proc main
    call.helper
end
";
    let snapshot = single(text);

    let proc_edit = snapshot
        .rename_edits("/work/mod.masm", position_of(text, "helper(value"), "renamed_helper")
        .unwrap();
    assert_eq!(proc_edit.len(), 1);
    assert_eq!(proc_edit[0].uri, "file:///work/mod.masm");
    assert_eq!(proc_edit[0].ranges.len(), 2);
    assert_eq!(proc_edit[0].ranges[0].start, position_of(text, "helper(value"));
    assert_eq!(proc_edit[0].ranges[1].end, position_after(text, "call.helper"));
    assert!(proc_edit.iter().all(|edit| edit.new_text == "renamed_helper"));

    let const_edit = snapshot
        .rename_edits("/work/mod.masm", position_of(text, "ERR_CODE"), "NEW_CODE")
        .unwrap();
    assert_eq!(const_edit[0].ranges.len(), 2);
    assert!(const_edit.iter().all(|edit| edit.new_text == "NEW_CODE"));

    let type_edit = snapshot
        .rename_edits("/work/mod.masm", position_of(text, "Value ="), "Amount")
        .unwrap();
    assert_eq!(type_edit[0].ranges.len(), 2);
    assert!(type_edit.iter().all(|edit| edit.new_text == "Amount"));
}

#[test]
fn refuses_renames_that_cannot_be_made() {
    let text = "\
const ERR_CODE = 1
type Value = felt
pub proc helper
    push.ERR_CODE
end
";
    let snapshot = single(text);
    let file = "/work/mod.masm";
    let at = |needle: &str| position_of(text, needle);

    let (range, placeholder) = snapshot.prepare_rename_at(file, at("helper")).unwrap();
    assert_eq!(placeholder, "helper");
    assert_eq!(range.start, at("helper"));

    let missing = snapshot.prepare_rename_at(file, Position::new(4, 1)).err().unwrap();
    assert_eq!(missing, "no symbol found at the requested position");
    let module = snapshot.rename_edits(file, Position::new(0, 0), "other").err().unwrap();
    assert_eq!(module, "the symbol at this position cannot be renamed");

    let lower = snapshot.rename_edits(file, at("ERR_CODE"), "lower").err().unwrap();
    assert_eq!(
        lower,
        "invalid constant name 'lower': constant names must use SCREAMING_CASE"
    );
    let constant = snapshot.rename_edits(file, at("ERR_CODE"), "A B").err().unwrap();
    assert!(constant.starts_with("invalid constant name 'A B': "));
    let ty = snapshot.rename_edits(file, at("Value"), "").err().unwrap();
    assert!(ty.starts_with("invalid type name '': "));
    let procedure = snapshot.rename_edits(file, at("helper"), "").err().unwrap();
    assert!(procedure.starts_with("invalid procedure name '': "));
}

#[test]
fn completes_local_and_imported_symbols() {
    let app_text = "\
use util
pub proc helper_local
    push.1
end
pub proc main
    call.helper_local
    call.util::helper
end
";
    let util = library("util", "/work/util", "::util", "/work/util/mod.masm", SourceMode::AllTargets);
    let app = library("app", "/work/app", "::app", "/work/app/mod.masm", SourceMode::AllTargets);
    let snapshot = load(
        &[util, app],
        &[
            ("/work/util/mod.masm", "pub proc helper\n    push.1\nend\n"),
            ("/work/app/mod.masm", app_text),
        ],
    );

    let local_items = snapshot.completion_items(
        "/work/app/mod.masm",
        app_text,
        position_after(app_text, "call.he"),
    );
    assert!(local_items.iter().any(|item| item.candidate.label == "helper_local"));

    let imported_items = snapshot.completion_items(
        "/work/app/mod.masm",
        app_text,
        position_after(app_text, "call.util::he"),
    );
    assert!(imported_items.iter().any(|item| item.candidate.label == "helper"));
    assert!(!imported_items.iter().any(|item| item.candidate.label == "helper_local"));
    assert_eq!(imported_items[0].sort_text, "01-helper");
    assert_eq!(imported_items[0].candidate.detail, "::util::helper");
    assert_eq!(imported_items[0].range.end, position_after(app_text, "call.util::helper"));

    let imports = snapshot.completion_items(
        "/work/app/mod.masm",
        app_text,
        position_after(app_text, "call.ut"),
    );
    assert_eq!(imports.len(), 1);
    assert_eq!(imports[0].candidate.label, "util");
    assert_eq!(imports[0].candidate.detail, "::util");
}

#[test]
fn serves_diagnostics_hover_definition_and_rename_for_one_file() {
    let text = "pub proc helper\n    push.1\nend\npub proc main\n    call.helper\nend\n";
    let snapshot = single(text);
    let hover = snapshot.hover_at("/work/mod.masm", Position::new(4, 9)).unwrap();
    assert!(hover.contents.contains("proc ::app::helper"));
    let definition = snapshot.definition_at("/work/mod.masm", Position::new(4, 9)).unwrap();
    assert_eq!(definition.range.start.line, 0);
    let edits = snapshot
        .rename_edits("/work/mod.masm", Position::new(0, 9), "renamed_helper")
        .unwrap();
    assert_eq!(edits[0].ranges.len(), 2);
}

#[test]
fn reports_sources_that_cannot_be_analyzed() {
    let package = library("app", "/work", "::app", "/work/mod.masm", SourceMode::AllTargets);
    let context = target_contexts(&package).unwrap().remove(0);
    let mut builder = SnapshotBuilder::new();

    let unread = builder.add_source(&context, "/work/mod.masm", 0, Err("no such file".to_string()));
    assert_eq!(unread, Err("no such file".to_string()));
    let outside = builder.add_source(&context, "/other/mod.masm", 0, Ok(String::new()));
    assert_eq!(outside, Err("prefix not found".to_string()));
    let snapshot = builder.finish();
    assert!(snapshot.files.is_empty());
    assert!(snapshot.definitions.is_empty());
}

#[test]
fn keeps_documentation_with_the_item_that_follows() {
    let text = "\
#! first line
#! second line
pub proc documented
    push.1
end
proc bare
    push.1
end
";
    let snapshot = single(text);
    let documented = snapshot
        .hover_at("/work/mod.masm", position_of(text, "documented"))
        .unwrap();
    assert_eq!(
        documented.contents,
        "```masm\nproc ::app::documented\n```\n\n#! first line\n#! second line"
    );
    let bare = snapshot.hover_at("/work/mod.masm", position_of(text, "bare")).unwrap();
    assert_eq!(bare.contents, "```masm\nproc ::app::bare\n```");
}

#[test]
fn follows_stack_effects_through_a_project() {
    let text = "\
proc one
    push.1
end
proc two
    exec.one
    exec.one
    add
end
proc uneven
    if.true
        push.1
    else
        push.1 push.2
    end
end
";
    let snapshot = single(text);
    let documents = snapshot.stack_effects();
    assert_eq!(documents.len(), 1);
    assert_eq!(documents[0].0, "/work/mod.masm");
    let analysis = &documents[0].1;
    let diagnostics = analysis.diagnostics();
    assert_eq!(diagnostics.len(), 1);
    assert_eq!(
        diagnostics[0].message,
        "conditional branches leave different stack states; stack effects are undetermined after \
         this `if.true`"
    );
    let (_, hover) = analysis.hover_markdown_at(position_of(text, "exec.one")).unwrap();
    assert_eq!(
        hover,
        "**Stack Effect**\n\nConsumes `0` felts and produces `1` felt.\n\nresolved call \
         `::app::one` from source body"
    );
    let hints = analysis.inlay_hints(Range::new(Position::new(0, 0), Position::new(30, 0)));
    let labels: Vec<&str> = hints.iter().map(|hint| hint.label.as_str()).collect();
    assert_eq!(labels, vec![" [0->1]", " [0->1]", " [?]"]);
}

#[test]
fn builds_projects_from_what_was_read() {
    let text = |path: &str, text: &str| FileText {
        path: path.to_string(),
        text: Ok(text.to_string()),
    };
    let package = || library("app", "/work", "::app", "/work/mod.masm", SourceMode::AllTargets);
    let mut inputs = Inputs {
        listings: vec![DirectoryListing {
            directory: "/work".to_string(),
            files: Ok(vec!["/work/mod.masm".to_string(), "/work/b.masm".to_string()]),
        }],
        files: vec![
            text("/work/mod.masm", "pub proc old\n    nop\nend\n"),
            text("/work/b.masm", "pub proc other\n    nop\nend\n"),
        ],
        overlays: vec![("/work/mod.masm".to_string(), "pub proc new\n    nop\nend\n".to_string())],
    };
    let snapshot = build_snapshot(&inputs, &vec![package()], &Vec::new()).unwrap();
    let paths: Vec<&str> = snapshot.files.iter().map(|file| file.path.as_str()).collect();
    assert_eq!(paths, vec!["/work/b.masm", "/work/mod.masm"]);
    let names: Vec<&str> =
        snapshot.definitions.iter().map(|definition| definition.path.as_str()).collect();
    assert_eq!(names, vec!["::app::b", "::app::b::other", "::app", "::app::new"]);

    inputs.files[1].text = Err("failed to read '/work/b.masm': gone".to_string());
    assert_eq!(
        build_snapshot(&inputs, &vec![package()], &Vec::new()).err().unwrap(),
        "failed to read '/work/b.masm': gone"
    );
    inputs.listings[0].files = Err("failed to read directory '/work': gone".to_string());
    assert_eq!(
        build_snapshot(&inputs, &vec![package()], &Vec::new()).err().unwrap(),
        "failed to read directory '/work': gone"
    );
    let mut lost = package();
    lost.manifest_path = None;
    assert_eq!(
        build_snapshot(&inputs, &vec![lost], &Vec::new()).err().unwrap(),
        "package 'app' has no manifest path"
    );
}

#[test]
fn reads_registry_artifacts_in_their_order() {
    let bytes = build_package_bytes("dep", "1.2.3", "dep::helper");
    let options = InitializationOptions {
        registry_artifacts: vec!["/a.masp".to_string(), "/b.masp".to_string()],
        git_cache_root: None,
    };
    let load = |first: Result<Vec<u8>, String>, second: Result<Vec<u8>, String>| {
        RegistryState::from_options(&options, &vec![first, second])
    };
    let other = build_package_bytes("other", "0.1.0", "other::helper");
    assert!(load(Ok(bytes.clone()), Ok(other)).is_ok());
    assert_eq!(
        load(Err("gone".to_string()), Ok(vec![1])).err().unwrap(),
        "failed to read '/a.masp': gone"
    );
    let message = load(Ok(bytes.clone()), Ok(vec![1])).err().unwrap();
    assert!(message.starts_with("failed to decode '/b.masp': "));
    let none = InitializationOptions { registry_artifacts: Vec::new(), git_cache_root: None };
    assert!(RegistryState::from_options(&none, &Vec::new()).is_ok());
}

#[test]
fn keeps_the_items_of_programs_to_themselves() {
    let lib_text = "pub proc root\n    push.1\nend\nproc hidden\n    exec.root\nend\n";
    let main_text = "const LIMIT = 3\nproc local\n    push.LIMIT\nend\nbegin\n    exec.local\n    exec.pkg::root\nend\n";
    let package = PackageSource {
        name: "app".to_string(),
        manifest_path: Some("/work/miden-project.toml".to_string()),
        library: Some(target("app", false, "::pkg", "/work/asm/mod.masm")),
        executables: vec![target("cli", true, "::$exec", "/work/asm/main.masm")],
        mode: SourceMode::AllTargets,
    };
    let snapshot = load(
        &[package],
        &[("/work/asm/mod.masm", lib_text), ("/work/asm/main.masm", main_text)],
    );

    let mut seen = Vec::new();
    for item in &snapshot.definitions {
        assert_eq!(item.visible_outside_context, item.exported);
        let fixed = item.entrypoint || item.kind == ItemKind::Module;
        assert_eq!(item.renamable, !fixed);
        seen.push((item.path.as_str(), item.exported));
    }
    seen.sort();
    assert!(seen.contains(&("::pkg::root", true)));
    assert!(seen.contains(&("::pkg::hidden", false)));
    assert!(seen.contains(&("::$exec::local", false)));
    assert!(seen.contains(&("::$exec::$main", false)));

    let mut references = 0;
    for file in &snapshot.files {
        for module in &file.modules {
            for occurrence in &module.resolved_occurrences {
                assert_eq!(occurrence.definitions.len(), 1);
                assert!(occurrence.definitions[0] < snapshot.definitions.len());
                references += 1;
            }
        }
    }
    assert_eq!(references, 5);
}

#[test]
fn publishes_packages_behind_their_dependencies() {
    let base = build_package_bytes("base", "1.0.0+first", "base::helper");
    let digest = MastPackage::read_from_bytes(&base).unwrap().digest();
    let user = |version: &str| {
        let bytes = build_package_bytes("user", "2.0.0", "user::helper");
        let mut package = MastPackage::read_from_bytes(&bytes).unwrap();
        let needed = Dependency {
            name: "base".into(),
            kind: TargetType::Library,
            version: version.parse().unwrap(),
            digest,
        };
        package.manifest = package.manifest.with_dependencies([needed]).unwrap();
        let mut bytes = Vec::new();
        package.write_into(&mut bytes);
        PackageFile { path: "/user.masp".to_string(), bytes }
    };
    let base_file = || PackageFile { path: "/base.masp".to_string(), bytes: base.clone() };

    let registry = RegistryState::from_packages(vec![user("1.0.0+first"), base_file()]).unwrap();
    let found = registry.artifact_path("user", &format!("2.0.0#{digest}")).unwrap();
    assert_eq!(found, "/user.masp");
    for version in ["1.0.0", "1.0.0+first", "1.0.0+second"] {
        let found = registry.artifact_path("base", &format!("{version}#{digest}")).unwrap();
        assert_eq!(found, "/base.masp");
    }
    assert!(registry.artifact_path("base", "1.0.0").is_none());
    assert!(registry.artifact_path("other", &format!("1.0.0#{digest}")).is_none());

    for version in ["1.0.0", "1.0.1+first"] {
        let refused = RegistryState::from_packages(vec![user(version), base_file()]);
        assert_eq!(
            refused.err().unwrap(),
            "failed to publish registry artifacts due to unresolved dependencies: /user.masp (user)"
        );
    }
    for files in [vec![base_file(), user("1.0.0+first")], vec![user("1.0.0+first"), base_file()]] {
        assert!(RegistryState::from_packages(files).is_ok());
    }
    let both = RegistryState::from_packages(vec![user("1.0.1"), base_file(), base_file()]);
    assert_eq!(
        both.err().unwrap(),
        "failed to publish registry artifacts due to unresolved dependencies: /user.masp (user), /base.masp (base)"
    );
}

#[test]
fn takes_stack_effects_of_compiled_procedures_from_their_types() {
    let signature = FunctionType::new(CallConv::Fast, [Type::Felt, Type::U64], [Type::Felt]);
    let bytes = build_typed_package("dep", "1.0.0", "dep::helper", Some(signature));
    let text = "pub proc main\n    exec.::dep::helper\nend\n";
    let snapshot = with_package(&bytes, "/work/dep.masp", text);
    let documents = snapshot.stack_effects();
    assert_eq!(documents.len(), 1);
    assert!(documents[0].1.diagnostics().is_empty());
    let (_, hover) = documents[0].1.hover_markdown_at(position_of(text, "exec.::dep")).unwrap();
    assert!(hover.contains("Consumes `3` felts and produces `1` felt."), "{hover}");

    let untyped = build_package_bytes("dep", "1.0.0", "dep::helper");
    let documents = with_package(&untyped, "/work/dep.masp", text).stack_effects();
    assert_eq!(documents[0].1.diagnostics().len(), 1);
}

#[test]
fn reports_projects_that_cannot_be_loaded() {
    assert!(project_diagnostic(&Ok(single("proc a\n    nop\nend\n"))).is_none());
    let diagnostic = project_diagnostic(&Err("no manifest".to_string())).unwrap();
    assert_eq!(diagnostic.message, "no manifest");
    assert_eq!(diagnostic.severity, Severity::Warning);
    assert_eq!(diagnostic.range, Range::new(Position::new(0, 0), Position::new(0, 1)));
}

#[test]
fn searches_what_could_be_loaded() {
    let results = vec![
        Err("no manifest".to_string()),
        Ok(single("proc Alpha\n    nop\nend\nproc beta\n    nop\nend\n")),
    ];
    let snapshots = loaded_projects(results);
    assert_eq!(snapshots.len(), 1);
    let names = |query: &str| -> Vec<String> {
        workspace_symbols(&snapshots, query).into_iter().map(|symbol| symbol.name).collect()
    };
    assert_eq!(names(""), ["Alpha", "beta"]);
    assert_eq!(names("alp"), ["Alpha"]);
    assert_eq!(names("ALP"), names("alp"));
    assert_eq!(names("BETA"), ["beta"]);
}
