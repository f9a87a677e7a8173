use miden_lsp::completion::{
    extract_completion_query, immediate_member_name, is_completion_ident_char, scan_left_while,
    scan_right_while,
};
use miden_lsp::hints::workspace_symbols;
use miden_lsp::masm_path::{canonicalize_path_text, names_constant, path_is_absolute};
use miden_lsp::model::AliasTarget;
use miden_lsp::position::{Position, Range};
use miden_lsp::project::{
    collect_target_files, describes_workspace, find_manifest_path, is_masm_file, join_directory,
    key_of_path, manifest_candidates, parent_directory, plan_of, primary_priority,
    target_contexts, workspace_manifests, DependencyOrigin, PackageSource, RootPlan, SourceMode, SourcePackage, TargetSource,
};
use miden_lsp::references::item_kind_tag;
use miden_lsp::rename::validate_rename_name;
use miden_lsp::resolve::{alias_target_to_path, resolve_import_target, resolve_path_reference};
use miden_lsp::builder::SnapshotBuilder;
use miden_lsp::source_module::{render_definition_block, take_docs};
use miden_lsp::source_path::{file_stem, module_path_for_file, split_components};
use miden_lsp::stack_effect::ItemKind;
use miden_lsp::tokens::{
    encode_semantic_tokens, insert_semantic_token, semantic_token_legend, AbsoluteSemanticToken,
    RankedToken, SemanticToken, TOKEN_TYPE_FUNCTION, TOKEN_TYPE_VARIABLE,
};
use miden_lsp::words::{
    has_part, has_prefix, join_lines, last_path_segment, strip_prefix, trim, trim_quotes,
};

fn token(line: u32, start: u32, length: u32, token_type: u32) -> AbsoluteSemanticToken {
    AbsoluteSemanticToken { line, start, length, token_type, token_modifiers_bitset: 0 }
}

fn path(text: &str) -> AliasTarget {
    AliasTarget::Path(text.to_string())
}

fn import(name: &str, target: &str) -> (String, AliasTarget) {
    (name.to_string(), path(target))
}

#[test]
fn takes_words_apart() {
    assert_eq!(trim(" \t a b\u{a0}\n"), "a b");
    assert_eq!(trim(" \n"), "");
    assert_eq!(trim_quotes("\"\"a\"b\""), "a\"b");
    assert_eq!(last_path_segment("a::b::c"), "c");
    assert_eq!(last_path_segment("a:::b"), "b");
    assert_eq!(last_path_segment("a::"), "");
    assert_eq!(last_path_segment("abc"), "abc");
    assert_eq!(strip_prefix("abc", "ab"), Some("c".to_string()));
    assert_eq!(strip_prefix("abc", "b"), None);
    assert!(has_prefix("abc", ""));
    assert!(has_part("abc", "bc") && !has_part("abc", "ac") && has_part("abc", ""));
    assert_eq!(join_lines(&vec!["a".to_string(), "b".to_string()]), "a\nb");
}

#[test]
fn takes_documentation_once() {
    let mut pending = vec!["a".to_string(), "b".to_string()];
    assert_eq!(take_docs(&mut pending), Some("a\nb".to_string()));
    assert_eq!(take_docs(&mut pending), None);
}

#[test]
fn renders_definitions() {
    let some = |text: &str| Some(text.to_string());
    assert_eq!(
        render_definition_block("proc", "::a::b", &some("(x)"), &some("docs")),
        "```masm\nproc ::a::b (x)\n```\n\ndocs"
    );
    assert_eq!(
        render_definition_block("const", "::a::B", &None, &some("")),
        "```masm\nconst ::a::B\n```"
    );
    assert_eq!(item_kind_tag(&ItemKind::Procedure), "proc");
    assert_eq!(item_kind_tag(&ItemKind::Module), "module");
    assert_eq!(item_kind_tag(&ItemKind::Constant), "const");
    assert_eq!(item_kind_tag(&ItemKind::Type), "type");
}

#[test]
fn canonicalizes_paths() {
    assert_eq!(canonicalize_path_text("a::\"b\"::c"), Ok("a::b::c".to_string()));
    assert_eq!(canonicalize_path_text("$kernel::a"), Ok("::$kernel::a".to_string()));
    let message = canonicalize_path_text("a b").err().unwrap();
    assert!(message.starts_with("invalid MASM path 'a b': "));
    assert!(path_is_absolute("::a") && !path_is_absolute("a::b"));
    assert!(names_constant("A_1") && !names_constant("a"));
}

#[test]
fn resolves_references_in_a_module() {
    let names = vec![("own".to_string(), "::m::own".to_string())];
    let imports = vec![
        import("own", "::x::own"),
        import("util", "::deep::util"),
        import("alias", "util"),
        import("nested", "util::inner"),
        ("root".to_string(), AliasTarget::MastRoot),
    ];
    let resolve = |raw: &str, invoke| resolve_path_reference(&names, &imports, "::m", raw, invoke);
    let some = |text: &str| Some(text.to_string());
    assert_eq!(resolve("own", true), some("::m::own"));
    assert_eq!(resolve("$main", true), some("::m::$main"));
    assert_eq!(resolve("::a::b", false), some("::a::b"));
    assert_eq!(resolve("util", false), some("::deep::util"));
    assert_eq!(resolve("alias", false), some("::deep::util"));
    assert_eq!(resolve("nested::item", false), some("::deep::util::inner::item"));
    assert_eq!(resolve("other", true), some("::m::other"));
    assert_eq!(resolve("other", false), None);
    assert_eq!(resolve("far::item", false), some("::far::item"));
    assert_eq!(resolve("root", false), None);
    assert_eq!(resolve("root::item", false), some("::root::item"));
    assert_eq!(resolve("a b", true), None);
}

#[test]
fn follows_imports_in_circles() {
    let imports = vec![import("a", "b"), import("b", "a"), import("c", "c::d")];
    assert_eq!(alias_target_to_path(&path("a"), &imports), Some("::a".to_string()));
    assert_eq!(alias_target_to_path(&path("c"), &imports), Some("::c::d".to_string()));
    assert_eq!(alias_target_to_path(&AliasTarget::MastRoot, &imports), None);
    assert_eq!(resolve_import_target(&imports, "a"), Some("::b".to_string()));
    assert_eq!(resolve_import_target(&imports, "x"), None);
    assert_eq!(resolve_import_target(&imports, "x::y"), Some("::x::y".to_string()));
    assert_eq!(resolve_import_target(&imports, "::x"), Some("::x".to_string()));
}

#[test]
fn maps_files_to_modules() {
    let module = |file: &str| module_path_for_file("/w/src/main.masm", "/w/src", "::app", file);
    assert_eq!(module("/w/src/main.masm"), Ok("::app".to_string()));
    assert_eq!(module("/w/src/mod.masm"), Ok("::app".to_string()));
    assert_eq!(module("/w/src/a/b.c.masm"), Ok("::app::a::\"b.c\"".to_string()));
    assert_eq!(module("/w/src/a/mod.masm"), Ok("::app::a".to_string()));
    assert_eq!(module("/w/src"), Ok("::app".to_string()));
    assert_eq!(module("/w/other.masm"), Err("prefix not found".to_string()));
    assert_eq!(
        module("/w/src/.."),
        Err("failed to derive module path for '/w/src/..'".to_string())
    );
    assert_eq!(file_stem(".masm"), Some(".masm".to_string()));
    assert_eq!(file_stem("plain"), Some("plain".to_string()));
    assert_eq!(split_components("a//./b/"), vec!["a".to_string(), "b".to_string()]);
}

#[test]
fn finds_the_nearest_manifest() {
    let existing = vec!["/miden-project.toml".to_string(), "/w/miden-project.toml".to_string()];
    let find = |path: &str, dir| find_manifest_path(path, dir, &existing);
    assert_eq!(find("/w/src/a.masm", false), Ok("/w/miden-project.toml".to_string()));
    assert_eq!(find("/other", true), Ok("/miden-project.toml".to_string()));
    assert_eq!(find("/x/miden-project.toml", false), Ok("/x/miden-project.toml".to_string()));
    assert_eq!(find("/", false), Err("'/' has no parent directory".to_string()));
    assert_eq!(
        find_manifest_path("/w/a.masm", false, &Vec::new()),
        Err("failed to locate miden-project.toml for '/w/a.masm'".to_string())
    );
    assert_eq!(
        manifest_candidates("/w/a", false).unwrap(),
        vec!["/w/miden-project.toml".to_string(), "/miden-project.toml".to_string()]
    );
    assert_eq!(parent_directory("a"), Some(String::new()));
    assert_eq!(parent_directory("/a"), Some("/".to_string()));
    assert_eq!(parent_directory(""), None);
    assert_eq!(join_directory("", "x"), "x");
    assert!(describes_workspace("[workspace]\n") && !describes_workspace("[package]"));
    assert!(is_masm_file("/w/a.masm") && !is_masm_file("/w/.masm") && !is_masm_file("/w.masm/a"));
}

#[test]
fn plans_each_package_once() {
    let some = |text: &str| Some(text.to_string());
    let mut plan = RootPlan::new();
    plan.remember_source_package(some("/a"), 0, SourceMode::AllTargets);
    plan.remember_members(vec![some("/a"), None, some("/b")], 1);
    plan.remember_source_package(some("/b"), 4, SourceMode::LibraryOnly);
    let all = SourceMode::AllTargets;
    assert_eq!(
        *plan.sources(),
        vec![SourcePackage { package: 0, mode: all }, SourcePackage { package: 3, mode: all }]
    );
    plan.remember_compiled_package("x".to_string(), 7);
    plan.remember_compiled_package("x".to_string(), 8);
    assert_eq!(*plan.compiled(), vec![7]);
    plan.forget_sources();
    assert!(plan.sources().is_empty());
    assert_eq!(*plan.compiled(), vec![7]);
}

#[test]
fn separates_the_files_of_targets() {
    let target = |name: &str, executable, root: Option<&str>| TargetSource {
        name: name.to_string(),
        executable,
        namespace: "::n".to_string(),
        root_file: root.map(str::to_string),
    };
    let mut package = PackageSource {
        name: "p".to_string(),
        manifest_path: Some("/w/miden-project.toml".to_string()),
        library: Some(target("lib", false, Some("/w/src/mod.masm"))),
        executables: vec![
            target("one", true, Some("/w/src/one.masm")),
            target("two", true, Some("/w/bin/two.masm")),
            target("none", true, None),
        ],
        mode: SourceMode::AllTargets,
    };
    let contexts = target_contexts(&package).unwrap();
    assert_eq!(contexts.len(), 3);
    assert_eq!(contexts[0].sibling_exec_roots, vec!["/w/src/one.masm".to_string()]);
    assert!(contexts[1].sibling_exec_roots.is_empty());
    let found = vec![
        "/w/src/one.masm".to_string(),
        "/w/src/a-b.masm".to_string(),
        "/w/src/a/b.masm".to_string(),
    ];
    assert_eq!(
        collect_target_files(&contexts[0], found),
        vec!["/w/src/a/b.masm".to_string(), "/w/src/a-b.masm".to_string()]
    );
    assert!(key_of_path("/a") < key_of_path("/a-"));

    let shared = vec!["/f".to_string(), "/f".to_string(), "/g".to_string()];
    assert_eq!(primary_priority("lib", "/f", &shared), 0);
    assert_eq!(primary_priority("one", "/f", &shared), 1);
    assert_eq!(primary_priority("one", "/g", &shared), 0);

    package.mode = SourceMode::LibraryOnly;
    let only = target_contexts(&package).unwrap();
    assert_eq!(only.len(), 1);
    assert!(!only[0].editable);
    package.library = Some(target("lib", false, Some("/")));
    assert_eq!(
        target_contexts(&package).err().unwrap(),
        "target root '/' has no parent"
    );
    package.manifest_path = Some("/".to_string());
    assert_eq!(target_contexts(&package).err().unwrap(), "manifest '/' has no parent");
    package.manifest_path = None;
    assert_eq!(target_contexts(&package).err().unwrap(), "package 'p' has no manifest path");
}

#[test]
fn reads_completion_queries() {
    let query = |text: &str, column| {
        extract_completion_query(text, Position::new(0, column)).unwrap()
    };
    let member = query("  call.util::he_lper.x", 15);
    assert_eq!(member.base_path, Some("util".to_string()));
    assert_eq!(member.prefix, "he");
    assert!(member.procedures_only);
    assert_eq!(
        member.replace_range,
        Range::new(Position::new(0, 13), Position::new(0, 20))
    );
    let plain = query("push.AB", 7);
    assert_eq!(plain.base_path, None);
    assert_eq!(plain.prefix, "AB");
    assert!(!plain.procedures_only);
    assert_eq!(query("::x", 3).base_path, None);
    assert!(extract_completion_query("a", Position::new(3, 0)).is_none());
    assert!(is_completion_ident_char('$') && !is_completion_ident_char(':'));
    assert_eq!(scan_left_while(b"a b::c", 6, true), 2);
    assert_eq!(scan_left_while(b"a b::c", 6, false), 5);
    assert_eq!(scan_right_while(b"ab c", 0), 2);
    assert_eq!(immediate_member_name("::a", "::a::b"), Some("b".to_string()));
    assert_eq!(immediate_member_name("::a", "::a::b::c"), None);
    assert_eq!(immediate_member_name("::a", "::ab"), None);
}

#[test]
fn encodes_tokens_relative_to_each_other() {
    let encoded = encode_semantic_tokens(vec![
        token(3, 4, 1, 2),
        token(1, 5, 2, 0),
        token(1, 2, 3, 1),
    ]);
    let relative = |delta_line, delta_start, length, token_type| SemanticToken {
        delta_line,
        delta_start,
        length,
        token_type,
        token_modifiers_bitset: 0,
    };
    assert_eq!(
        encoded,
        vec![relative(1, 2, 3, 1), relative(0, 3, 2, 0), relative(2, 4, 1, 2)]
    );
}

#[test]
fn keeps_the_token_of_the_lower_rank() {
    let mut tokens: Vec<RankedToken> = Vec::new();
    insert_semantic_token(&mut tokens, token(1, 2, 3, 4), 4);
    insert_semantic_token(&mut tokens, token(1, 2, 3, 5), 1);
    insert_semantic_token(&mut tokens, token(1, 2, 3, 6), 1);
    insert_semantic_token(&mut tokens, token(1, 2, 4, 7), 9);
    assert_eq!(tokens.len(), 2);
    assert_eq!((tokens[0].priority, tokens[0].token.token_type), (1, 5));
}

#[test]
fn validates_names_by_kind() {
    assert_eq!(validate_rename_name(ItemKind::Procedure, "good_name"), Ok(()));
    assert_eq!(validate_rename_name(ItemKind::Constant, "GOOD_1"), Ok(()));
    assert_eq!(validate_rename_name(ItemKind::Type, "Good"), Ok(()));
    assert_eq!(
        validate_rename_name(ItemKind::Module, "any"),
        Err("modules cannot be renamed".to_string())
    );
}

#[test]
fn searches_symbols_whatever_their_case() {
    let package = PackageSource {
        name: "app".to_string(),
        manifest_path: Some("/w/miden-project.toml".to_string()),
        library: Some(TargetSource {
            name: "lib".to_string(),
            executable: false,
            namespace: "::App".to_string(),
            root_file: Some("/w/mod.masm".to_string()),
        }),
        executables: Vec::new(),
        mode: SourceMode::AllTargets,
    };
    let context = target_contexts(&package).unwrap().remove(0);
    let mut builder = SnapshotBuilder::new();
    let text = "proc Helper\n    nop\nend\n".to_string();
    builder.add_source(&context, "/w/mod.masm", 0, Ok(text)).unwrap();
    let snapshots = vec![builder.finish()];
    let found = workspace_symbols(&snapshots, "HELP");
    assert_eq!(found.len(), 1);
    assert_eq!(found[0].container, "::App");
    assert_eq!(found[0].location.uri, "file:///w/mod.masm");
    assert_eq!(workspace_symbols(&snapshots, "app").len(), 1);
    assert!(workspace_symbols(&snapshots, "absent").is_empty());
}

#[test]
fn names_token_types_in_the_order_of_their_numbers() {
    let legend = semantic_token_legend();
    assert_eq!(legend.token_types.len(), 10);
    assert_eq!(legend.token_types[TOKEN_TYPE_FUNCTION as usize], "function");
    assert_eq!(legend.token_types[TOKEN_TYPE_VARIABLE as usize], "variable");
    assert_eq!(legend.token_modifiers, vec!["declaration", "readonly", "documentation"]);
}

#[test]
fn gives_up_on_paths_that_cannot_be_read_back() {
    let broken = "x::a\"b";
    assert_eq!(canonicalize_path_text(broken).unwrap(), "x::\"a\"b\"");
    let none: Vec<(String, AliasTarget)> = Vec::new();
    let imported = vec![import("x", "::lib::x"), import("y", broken)];
    let names: Vec<(String, String)> = Vec::new();
    for invoke in [false, true] {
        assert!(resolve_path_reference(&names, &none, "::m", broken, invoke).is_none());
        assert!(resolve_path_reference(&names, &imported, "::m", broken, invoke).is_none());
    }
    assert!(resolve_import_target(&none, broken).is_none());
    assert!(alias_target_to_path(&path(broken), &none).is_none());
    assert!(alias_target_to_path(&path(broken), &imported).is_none());
    assert_eq!(
        resolve_path_reference(&names, &imported, "::m", "x::\"a b\"", true).unwrap(),
        "::lib::x::\"a b\""
    );
}

#[test]
fn plans_owner_members_and_dependencies_in_order() {
    let manifest = |name: &str| Some(format!("/{name}/miden-project.toml"));
    let plan = plan_of(
        manifest("app"),
        vec![manifest("app"), manifest("tool"), None],
        vec![
            DependencyOrigin::Preassembled("pre".to_string()),
            DependencyOrigin::Source(manifest("tool")),
            DependencyOrigin::Source(manifest("dep")),
            DependencyOrigin::Registry { name: "reg".to_string(), version: "1".to_string() },
            DependencyOrigin::Preassembled("pre".to_string()),
        ],
    );
    let sources: Vec<(usize, SourceMode)> =
        plan.sources().iter().map(|source| (source.package, source.mode)).collect();
    assert_eq!(
        sources,
        [
            (0, SourceMode::AllTargets),
            (2, SourceMode::AllTargets),
            (5, SourceMode::LibraryOnly),
        ]
    );
    assert_eq!(plan.compiled(), &[0, 1]);
}

#[test]
fn loads_each_folder_of_a_workspace_once() {
    let list = |names: &[&str]| -> Vec<String> { names.iter().map(|name| name.to_string()).collect() };
    let existing = list(&["/b", "/a"]);
    assert_eq!(workspace_manifests(&list(&["/a", "/c", "/b", "/a"]), &existing), ["/a", "/b"]);
    assert!(workspace_manifests(&list(&["/c"]), &existing).is_empty());
}

#[test]
fn trims_all_white_space() {
    assert_eq!(trim("\u{9}\u{a0}\u{1680}\u{2003}a b\u{2028}\u{202f}\u{205f}\u{3000}\u{85}"), "a b");
    assert_eq!(trim("\u{200b}a\u{feff}"), "\u{200b}a\u{feff}");
}
