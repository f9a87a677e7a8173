//! Compiled packages: what they export, and where that was defined.
use miden_assembly_syntax::ast::types::FunctionType;
use miden_core::serde::Deserializable;
use miden_mast_package::debug_info::{DebugFunctionsSection, DebugSourcesSection};
use miden_mast_package::Package;
use miden_mast_package::PackageExport::{Constant, Procedure, Type};
use vstd::prelude::*;
use vstd::string::StringExecFns;
use vstd::utf8::encode_utf8;
use crate::model::{copy_place, defs, file_start, find_name, lookup, name_entries, place_view,
    start_of_file, text_view, Context, ContextKey, Def, Definition, DefinitionLocation, Place,
    SymbolKind};
use crate::order::{arrange, byte_key, key_of, key_views, law_stable_order, sort_by_keys,
    stable_order};
use crate::package_bytes::{can_be_decoded, has_fitting_texts, is_decodable, texts_fit};
use crate::position::{Position, Range};
use crate::source_module::{definition_block, module_block, render_definition_block};
use crate::signature::{function_signature, signature_from_function_type};
use crate::stack_effect::{ItemKind, StackSignature};
use crate::text::{join3, same_text};
use crate::words::{join_lines, joined_lines, last_path_segment, last_segment, texts};

verus! {

/// A package that another depends on: its name, its version and the hash of its code.
pub struct PackageDependency {
    pub name: String,
    pub version: String,
    pub digest: String,
}

/// The model of a dependency.
pub struct Needed {
    pub name: Seq<char>,
    pub version: Seq<char>,
    pub digest: Seq<char>,
}

impl View for PackageDependency {
    type V = Needed;

    open spec fn view(&self) -> Needed {
        Needed { name: self.name@, version: self.version@, digest: self.digest@ }
    }
}

/// What a package says of itself.
pub struct PackageHeader {
    pub name: String,
    pub version: String,
    pub digest: String,
    pub program: bool,
    pub dependencies: Vec<PackageDependency>,
}

/// The model of what a package says of itself.
pub struct Header {
    pub name: Seq<char>,
    pub version: Seq<char>,
    pub digest: Seq<char>,
    pub program: bool,
    pub dependencies: Seq<Needed>,
}

impl View for PackageHeader {
    type V = Header;

    open spec fn view(&self) -> Header {
        Header {
            name: self.name@,
            version: self.version@,
            digest: self.digest@,
            program: self.program,
            dependencies: Seq::new(
                self.dependencies@.len(),
                |i: int| self.dependencies@[i]@,
            ),
        }
    }
}

/// What the reader of packages finds a package to say of itself, or its message when the bytes hold
/// none.
pub uninterp spec fn decoded_header(bytes: Seq<u8>) -> Result<Header, Seq<char>>;

/// `Package::read_from_bytes`: of the package that the bytes hold, the name, the version and
/// `Package::digest` as they are written, `Package::is_program`, and the dependencies that its
/// manifest lists; or the message of the error when the bytes hold no package. The outside function
/// panics on some bytes, which are left out.
#[verifier::external_body]
fn decode_header(bytes: &[u8]) -> (result: Result<PackageHeader, String>)
    requires
        can_be_decoded(bytes@),
    ensures
        match result {
            Ok(header) => decoded_header(bytes@) == Ok::<Header, Seq<char>>(header@),
            Err(message) => decoded_header(bytes@) == Err::<Header, Seq<char>>(message@),
        },
{
    let package = Package::read_from_bytes(bytes).map_err(|error| error.to_string())?;
    Ok(PackageHeader {
        name: package.name.to_string(),
        version: package.version.to_string(),
        digest: package.digest().to_string(),
        program: package.is_program(),
        dependencies: package.manifest.dependencies().map(|needed| PackageDependency {
            name: needed.name.to_string(),
            version: needed.version.to_string(),
            digest: needed.digest.to_string(),
        }).collect(),
    })
}

/// What the package that bytes hold says of itself, or the message when they hold none.
pub open spec fn package_header(bytes: Seq<u8>) -> Result<Header, Seq<char>> {
    if can_be_decoded(bytes) {
        decoded_header(bytes)
    } else {
        Err("a length or a type does not fit"@)
    }
}

/// What the package that bytes hold says of itself, or the message when they hold none.
pub fn read_header(bytes: &[u8]) -> (result: Result<PackageHeader, String>)
    ensures
        match result {
            Ok(header) => package_header(bytes@) == Ok::<Header, Seq<char>>(header@),
            Err(message) => package_header(bytes@) == Err::<Header, Seq<char>>(message@),
        },
{
    if is_decodable(bytes) {
        decode_header(bytes)
    } else {
        Err("a length or a type does not fit".to_owned())
    }
}

/// What is exported: a procedure with its signature, its hash and its attributes, a constant or a
/// type.
pub enum ExportKind {
    Procedure {
        signature: Option<String>,
        function: Option<FunctionType>,
        digest: String,
        attributes: Vec<String>,
    },
    Constant,
    Type,
}

/// An item that a package exports.
pub struct MetadataExport {
    pub path: String,
    pub namespace: String,
    pub name: String,
    pub kind: ExportKind,
}

/// The model of what is exported.
pub enum Exported {
    Procedure {
        signature: Option<Seq<char>>,
        function: Option<FunctionType>,
        digest: Seq<char>,
        attributes: Seq<Seq<char>>,
    },
    Constant,
    Type,
}

/// The model of an exported item.
pub struct Export {
    pub path: Seq<char>,
    pub namespace: Seq<char>,
    pub name: Seq<char>,
    pub kind: Exported,
}

impl View for MetadataExport {
    type V = Export;

    open spec fn view(&self) -> Export {
        Export {
            path: self.path@,
            namespace: self.namespace@,
            name: self.name@,
            kind: match self.kind {
                ExportKind::Procedure {
                    signature,
                    function,
                    digest,
                    attributes,
                } => Exported::Procedure {
                    signature: text_view(signature),
                    function,
                    digest: digest@,
                    attributes: texts(attributes@),
                },
                ExportKind::Constant => Exported::Constant,
                ExportKind::Type => Exported::Type,
            },
        }
    }
}

/// The models of a list of exported items.
pub open spec fn export_views(exports: Seq<MetadataExport>) -> Seq<Export> {
    Seq::new(exports.len(), |i: int| exports[i]@)
}

/// The items that the package that bytes hold exports; none where they hold no package.
pub uninterp spec fn package_exports(bytes: Seq<u8>) -> Seq<Export>;

/// `PackageManifest::exports` of the package that the bytes hold: the exported items in their order,
/// with path, namespace and name, and of a procedure the signature, the digest and the attributes as
/// they are written, and the type of the function. A path of one component has an empty namespace.
#[verifier::external_body]
fn list_exports(bytes: &[u8]) -> (exports: Vec<MetadataExport>)
    requires
        package_header(bytes@) is Ok,
    ensures
        export_views(exports@) == package_exports(bytes@),
{
    let Ok(package) = Package::read_from_bytes(bytes) else { return vec![] };
    package.manifest.exports().map(|export| MetadataExport {
        path: export.path().as_str().to_string(),
        namespace: export.path().parent().map(ToString::to_string).unwrap_or_default(),
        name: export.path().last().map(ToString::to_string).unwrap_or_default(),
        kind: match export {
            Procedure(procedure) => ExportKind::Procedure {
                signature: procedure.signature.as_ref().map(ToString::to_string),
                function: procedure.signature.clone(), digest: procedure.digest.to_hex(),
                attributes: procedure.attributes.iter().map(ToString::to_string).collect(),
            },
            Constant(_) => ExportKind::Constant,
            Type(_) => ExportKind::Type,
        },
    }).collect()
}

/// A section of a package: its name and its bytes.
pub struct Section {
    pub id: String,
    pub data: Vec<u8>,
}

/// The models of a list of sections.
pub open spec fn section_views(sections: Seq<Section>) -> Seq<(Seq<char>, Seq<u8>)> {
    Seq::new(sections.len(), |i: int| (sections[i].id@, sections[i].data@))
}

/// The sections of the package that bytes hold; none where they hold no package.
pub uninterp spec fn package_sections(bytes: Seq<u8>) -> Seq<(Seq<char>, Seq<u8>)>;

/// The sections that `Package::sections` holds, of the package that the bytes hold, in their order.
#[verifier::external_body]
fn list_sections(bytes: &[u8]) -> (sections: Vec<Section>)
    requires
        package_header(bytes@) is Ok,
    ensures
        section_views(sections@) == package_sections(bytes@),
{
    let Ok(package) = Package::read_from_bytes(bytes) else { return vec![] };
    let sections = package.sections.iter();
    sections.map(|section| Section { id: section.id.to_string(), data: section.data.to_vec() }).collect()
}

/// The table of source files: for each file the number of its path among the strings.
pub struct SourceTable {
    pub files: Vec<u32>,
    pub strings: Vec<String>,
}

/// The model of a table of source files.
pub struct SourceNames {
    pub files: Seq<u32>,
    pub strings: Seq<Seq<char>>,
}

impl View for SourceTable {
    type V = SourceNames;

    open spec fn view(&self) -> SourceNames {
        SourceNames { files: self.files@, strings: texts(self.strings@) }
    }
}

/// The table of source files that bytes hold.
pub uninterp spec fn decoded_sources(bytes: Seq<u8>) -> Option<SourceNames>;

/// `DebugSourcesSection::read_from_bytes`: the table of source files that the bytes hold; `None`
/// where they hold none. The outside function panics on lengths that do not fit.
#[verifier::external_body]
fn decode_sources(bytes: &[u8]) -> (table: Option<SourceTable>)
    requires
        texts_fit(bytes@),
    ensures
        match table {
            Some(table) => decoded_sources(bytes@) == Some(table@),
            None => decoded_sources(bytes@) is None,
        },
{
    let section = DebugSourcesSection::read_from_bytes(bytes).ok()?;
    let files = section.files.iter().map(|file| file.path_idx).collect();
    let strings = section.strings.iter().map(|text| text.to_string()).collect();
    Some(SourceTable { files, strings })
}

/// Where a function was defined: the hash of its code, the number of its file, and line and column,
/// counted from one.
pub struct DebugFunction {
    pub root: Option<String>,
    pub file: u32,
    pub line: u32,
    pub column: u32,
}

/// The model of a function's origin.
pub struct FunctionOrigin {
    pub root: Option<Seq<char>>,
    pub file: u32,
    pub line: u32,
    pub column: u32,
}

impl View for DebugFunction {
    type V = FunctionOrigin;

    open spec fn view(&self) -> FunctionOrigin {
        FunctionOrigin {
            root: text_view(self.root),
            file: self.file,
            line: self.line,
            column: self.column,
        }
    }
}

/// The models of a list of functions.
pub open spec fn function_views(functions: Seq<DebugFunction>) -> Seq<FunctionOrigin> {
    Seq::new(functions.len(), |i: int| functions[i]@)
}

/// The functions that bytes hold.
pub uninterp spec fn decoded_functions(bytes: Seq<u8>) -> Option<Seq<FunctionOrigin>>;

/// `DebugFunctionsSection::read_from_bytes`: the functions that the bytes hold; `None` where they
/// hold none. The outside function panics on lengths that do not fit.
#[verifier::external_body]
fn decode_functions(bytes: &[u8]) -> (functions: Option<Vec<DebugFunction>>)
    requires
        texts_fit(bytes@),
    ensures
        match functions {
            Some(functions) => decoded_functions(bytes@) == Some(function_views(functions@)),
            None => decoded_functions(bytes@) is None,
        },
{
    let section = DebugFunctionsSection::read_from_bytes(bytes).ok()?;
    let functions = section.functions.iter().map(|function| DebugFunction {
        root: function.mast_root.map(|root| root.to_hex()),
        file: function.file_idx,
        line: function.line.to_u32(),
        column: function.column.to_u32(),
    });
    Some(functions.collect())
}

/// The bytes of the first section from `at` on with the given name.
pub open spec fn section_named(sections: Seq<(Seq<char>, Seq<u8>)>, id: Seq<char>, at: int) -> Option<
    Seq<u8>,
>
    decreases sections.len() - at,
{
    if at >= sections.len() {
        None
    } else if sections[at].0 == id {
        Some(sections[at].1)
    } else {
        section_named(sections, id, at + 1)
    }
}

/// The number of the first section with the given name.
fn find_section(sections: &Vec<Section>, id: &str) -> (found: Option<usize>)
    ensures
        match found {
            Some(at) => at < sections@.len() && section_named(section_views(sections@), id@, 0)
                == Some(sections@[at as int].data@),
            None => section_named(section_views(sections@), id@, 0) is None,
        },
{
    let ghost all = section_views(sections@);
    let mut i: usize = 0;
    while i < sections.len()
        invariant
            i <= sections.len(),
            all == section_views(sections@),
            section_named(all, id@, 0) == section_named(all, id@, i as int),
        decreases sections.len() - i,
    {
        assert(all[i as int] == (sections@[i as int].id@, sections@[i as int].data@));
        if same_text(&sections[i].id, id) {
            return Some(i);
        }
        i = i + 1;
    }
    None
}

/// The table of source files of a package.
pub open spec fn package_sources(sections: Seq<(Seq<char>, Seq<u8>)>) -> Option<SourceNames> {
    match section_named(sections, "debug_sources"@, 0) {
        Some(bytes) => if texts_fit(bytes) {
            decoded_sources(bytes)
        } else {
            None
        },
        None => None,
    }
}

/// The table of source files of a package.
pub fn read_debug_sources(sections: &Vec<Section>) -> (table: Option<SourceTable>)
    ensures
        match table {
            Some(table) => package_sources(section_views(sections@)) == Some(table@),
            None => package_sources(section_views(sections@)) is None,
        },
{
    match find_section(sections, "debug_sources") {
        Some(at) => if has_fitting_texts(sections[at].data.as_slice()) {
            decode_sources(sections[at].data.as_slice())
        } else {
            None
        },
        None => None,
    }
}

/// The functions of a package.
pub open spec fn package_functions(sections: Seq<(Seq<char>, Seq<u8>)>) -> Option<
    Seq<FunctionOrigin>,
> {
    match section_named(sections, "debug_functions"@, 0) {
        Some(bytes) => if texts_fit(bytes) {
            decoded_functions(bytes)
        } else {
            None
        },
        None => None,
    }
}

/// The functions of a package.
pub fn read_debug_functions(sections: &Vec<Section>) -> (functions: Option<Vec<DebugFunction>>)
    ensures
        match functions {
            Some(functions) => package_functions(section_views(sections@)) == Some(
                function_views(functions@),
            ),
            None => package_functions(section_views(sections@)) is None,
        },
{
    match find_section(sections, "debug_functions") {
        Some(at) => if has_fitting_texts(sections[at].data.as_slice()) {
            decode_functions(sections[at].data.as_slice())
        } else {
            None
        },
        None => None,
    }
}

/// All that is read of a compiled package.
pub struct MetadataPackage {
    pub header: PackageHeader,
    pub exports: Vec<MetadataExport>,
    pub sources: Option<SourceTable>,
    pub functions: Option<Vec<DebugFunction>>,
}

/// The model of a compiled package.
pub struct PackageModel {
    pub header: Header,
    pub exports: Seq<Export>,
    pub sources: Option<SourceNames>,
    pub functions: Option<Seq<FunctionOrigin>>,
}

impl View for MetadataPackage {
    type V = PackageModel;

    open spec fn view(&self) -> PackageModel {
        PackageModel {
            header: self.header@,
            exports: export_views(self.exports@),
            sources: match self.sources {
                Some(table) => Some(table@),
                None => None,
            },
            functions: match self.functions {
                Some(functions) => Some(function_views(functions@)),
                None => None,
            },
        }
    }
}

/// What is read of the package that the file at `path` holds, or what is reported where it holds
/// none.
pub open spec fn package_model(path: Seq<char>, bytes: Seq<u8>) -> Result<PackageModel, Seq<char>> {
    match package_header(bytes) {
        Ok(header) => Ok(
            PackageModel {
                header,
                exports: package_exports(bytes),
                sources: package_sources(package_sections(bytes)),
                functions: package_functions(package_sections(bytes)),
            },
        ),
        Err(message) => Err("failed to decode '"@ + path + "': "@ + message),
    }
}

/// Reads the package that the file at `path` holds, when `bytes` were read from it.
pub fn read_package(path: &str, bytes: &[u8]) -> (result: Result<MetadataPackage, String>)
    ensures
        match result {
            Ok(package) => package_model(path@, bytes@) == Ok::<PackageModel, Seq<char>>(package@),
            Err(message) => package_model(path@, bytes@) == Err::<PackageModel, Seq<char>>(
                message@,
            ),
        },
{
    match read_header(bytes) {
        Ok(header) => {
            let sections = list_sections(bytes);
            Ok(
                MetadataPackage {
                    header,
                    exports: list_exports(bytes),
                    sources: read_debug_sources(&sections),
                    functions: read_debug_functions(&sections),
                },
            )
        },
        Err(error) => {
            let mut message = join3("failed to decode '", path, "': ");
            message.append(&error);
            Err(message)
        },
    }
}

/// The first of the functions from `at` on with the given hash.
pub open spec fn function_at(functions: Seq<FunctionOrigin>, digest: Seq<char>, at: int) -> Option<
    FunctionOrigin,
>
    decreases functions.len() - at,
{
    if at >= functions.len() {
        None
    } else if functions[at].root == Some(digest) {
        Some(functions[at])
    } else {
        function_at(functions, digest, at + 1)
    }
}

/// The number before `n`, or zero.
pub open spec fn before_one(n: u32) -> u32 {
    if n > 0 {
        (n - 1) as u32
    } else {
        0
    }
}

/// Where a procedure was defined: the path of the file and a range of one column, counted from
/// zero.
pub open spec fn debug_origin(
    digest: Seq<char>,
    sources: Option<SourceNames>,
    functions: Option<Seq<FunctionOrigin>>,
) -> Option<(Seq<char>, Range)> {
    match (sources, functions) {
        (Some(sources), Some(functions)) => match function_at(functions, digest, 0) {
            Some(function) => if function.file < sources.files.len() && sources.files[function.file as int]
                < sources.strings.len() {
                Some(
                    (
                        sources.strings[sources.files[function.file as int] as int],
                        Range {
                            start: Position {
                                line: before_one(function.line),
                                character: before_one(function.column),
                            },
                            end: Position {
                                line: before_one(function.line),
                                character: function.column,
                            },
                        },
                    ),
                )
            } else {
                None
            },
            None => None,
        },
        _ => None,
    }
}

/// Where a procedure was defined.
pub fn debug_location_for_procedure(
    digest: &str,
    sources: &Option<SourceTable>,
    functions: &Option<Vec<DebugFunction>>,
) -> (origin: Option<(String, Range)>)
    ensures
        ({
            let expected = debug_origin(
                digest@,
                match *sources {
                    Some(table) => Some(table@),
                    None => None,
                },
                match *functions {
                    Some(functions) => Some(function_views(functions@)),
                    None => None,
                },
            );
            match origin {
                Some((path, range)) => expected == Some((path@, range)),
                None => expected is None,
            }
        }),
{
    let table = match sources {
        Some(table) => table,
        None => return None,
    };
    let list = match functions {
        Some(list) => list,
        None => return None,
    };
    let ghost all = function_views(list@);
    let mut i: usize = 0;
    while i < list.len()
        invariant
            i <= list.len(),
            *sources == Some(*table),
            *functions == Some(*list),
            all == function_views(list@),
            function_at(all, digest@, 0) == function_at(all, digest@, i as int),
        decreases list.len() - i,
    {
        let function = &list[i];
        assert(all[i as int] == function@);
        let same = match &function.root {
            Some(root) => same_text(root, digest),
            None => false,
        };
        if same {
            let file = function.file as usize;
            if file < table.files.len() {
                let name = table.files[file] as usize;
                if name < table.strings.len() {
                    assert(table@.strings[name as int] == table.strings@[name as int]@);
                    let line = function.line.saturating_sub(1);
                    let column = function.column.saturating_sub(1);
                    let range = Range::new(
                        Position::new(line, column),
                        Position::new(line, function.column),
                    );
                    return Some((table.strings[name].clone(), range));
                }
            }
            return None;
        }
        i = i + 1;
    }
    None
}

/// What is said of an exported item: the package, and the attributes of a procedure.
pub open spec fn export_notes(header: Header, export: Export) -> Seq<char> {
    let package = "package: "@ + header.name + "@"@ + header.version;
    match export.kind {
        Exported::Procedure { attributes, .. } => if attributes.len() > 0 {
            package + "\n\nattributes:\n"@ + joined_lines(attributes)
        } else {
            package
        },
        _ => package,
    }
}

/// What is said of an exported item.
pub fn metadata_hover_notes(header: &PackageHeader, export: &MetadataExport) -> (notes: String)
    ensures
        notes@ == export_notes(header@, export@),
{
    let mut notes = "package: ".to_owned();
    notes.append(&header.name);
    notes.append("@");
    notes.append(&header.version);
    if let ExportKind::Procedure { attributes, .. } = &export.kind {
        assert(texts(attributes@).len() == attributes@.len());
        if attributes.len() > 0 {
            notes.append("\n\nattributes:\n");
            notes.append(&join_lines(attributes));
        }
    }
    notes
}

/// The file of a compiled package, and its normal form.
pub struct ArtifactPath {
    pub path: String,
    pub normal: String,
}

/// The model of the place of a compiled package.
pub open spec fn artifact_place(artifact: Option<ArtifactPath>) -> Option<Place> {
    match artifact {
        Some(artifact) => Some(
            Place::Artifact { path: artifact.path@, normal: artifact.normal@ },
        ),
        None => None,
    }
}

/// The normal form of a path, where it is listed.
pub open spec fn normal_of(normals: Seq<(Seq<char>, Seq<char>)>, path: Seq<char>) -> Seq<char> {
    match lookup(normals, path) {
        Some(normal) => normal,
        None => path,
    }
}

/// Where an exported item is shown: where a procedure was defined, else in the package's file.
pub open spec fn export_place(
    package: PackageModel,
    export: Export,
    artifact: Option<Place>,
    normals: Seq<(Seq<char>, Seq<char>)>,
) -> Option<Place> {
    match export.kind {
        Exported::Procedure { digest, .. } => match debug_origin(
            digest,
            package.sources,
            package.functions,
        ) {
            Some((path, selection_range)) => Some(
                Place::Source { path, normal: normal_of(normals, path), selection_range },
            ),
            None => artifact,
        },
        _ => artifact,
    }
}

/// The context of a compiled package.
pub open spec fn metadata_context(header: Header) -> Context {
    Context { package: header.name, target: "metadata"@, executable: header.program }
}

/// What an exported procedure takes from the stack and gives, where its type says so.
pub open spec fn export_signature(export: Export) -> Option<StackSignature> {
    match export.kind {
        Exported::Procedure { function: Some(function), .. } => function_signature(function),
        _ => None,
    }
}

/// An exported item.
pub open spec fn export_def(
    package: PackageModel,
    export: Export,
    artifact: Option<Place>,
    normals: Seq<(Seq<char>, Seq<char>)>,
) -> Def {
    let (kind, symbol_kind, keyword, signature) = match export.kind {
        Exported::Procedure { signature, .. } => (
            ItemKind::Procedure,
            SymbolKind::Function,
            "proc"@,
            signature,
        ),
        Exported::Constant => (ItemKind::Constant, SymbolKind::Constant, "const"@, None),
        Exported::Type => (ItemKind::Type, SymbolKind::Class, "type"@, None),
    };
    Def {
        context: metadata_context(package.header),
        path: export.path,
        module: export.namespace,
        name: export.name,
        kind,
        symbol_kind,
        hover: definition_block(
            keyword,
            export.path,
            signature,
            Some(export_notes(package.header, export)),
        ),
        signature,
        stack_signature: export_signature(export),
        location: export_place(package, export, artifact, normals),
        editable: false,
        exported: true,
        entrypoint: false,
        renamable: false,
        visible_outside_context: true,
        selection_range: file_start(),
    }
}

/// The first `count` exported items.
pub open spec fn export_defs(
    package: PackageModel,
    artifact: Option<Place>,
    normals: Seq<(Seq<char>, Seq<char>)>,
    count: nat,
) -> Seq<Def> {
    Seq::new(count, |i: int| export_def(package, package.exports[i], artifact, normals))
}

/// Whether a list of places has one for a module.
pub open spec fn has_module(places: Seq<(Seq<char>, Place)>, module: Seq<char>) -> bool {
    exists|i: int| 0 <= i < places.len() && (#[trigger] places[i]).0 == module
}

/// The modules of the first `count` items that have a place, each with the place of its first item.
pub open spec fn module_places(items: Seq<Def>, count: nat) -> Seq<(Seq<char>, Place)>
    decreases count,
{
    if count == 0 {
        Seq::empty()
    } else {
        let before = module_places(items, (count - 1) as nat);
        match items[count - 1].location {
            Some(place) => if has_module(before, items[count - 1].module) {
                before
            } else {
                before.push((items[count - 1].module, place))
            },
            None => before,
        }
    }
}

/// The sorting keys of modules: their paths.
pub open spec fn module_keys(places: Seq<(Seq<char>, Place)>) -> Seq<Seq<u64>> {
    Seq::new(places.len(), |i: int| byte_key(encode_utf8(places[i].0)))
}

/// A module of a compiled package.
pub open spec fn metadata_module(context: Context, path: Seq<char>, place: Place) -> Def {
    Def {
        context,
        path,
        module: path,
        name: last_segment(path),
        kind: ItemKind::Module,
        symbol_kind: SymbolKind::Module,
        hover: module_block(path),
        signature: None,
        stack_signature: None,
        location: Some(place),
        editable: false,
        exported: true,
        entrypoint: false,
        renamable: false,
        visible_outside_context: true,
        selection_range: file_start(),
    }
}

/// The items that a compiled package adds: those that it exports, and then the modules that these
/// belong to, in the order of their paths.
pub open spec fn metadata_defs(
    package: PackageModel,
    artifact: Option<Place>,
    normals: Seq<(Seq<char>, Seq<char>)>,
) -> Seq<Def> {
    let items = export_defs(package, artifact, normals, package.exports.len());
    let places = module_places(items, items.len());
    let sorted = arrange(places, stable_order(module_keys(places)));
    items + Seq::new(
        sorted.len(),
        |i: int| metadata_module(metadata_context(package.header), sorted[i].0, sorted[i].1),
    )
}

/// Where an exported item is shown.
fn find_place(
    package: &MetadataPackage,
    export: &MetadataExport,
    artifact: &Option<ArtifactPath>,
    normals: &Vec<(String, String)>,
) -> (place: Option<DefinitionLocation>)
    ensures
        place_view(place) == export_place(
            package@,
            export@,
            artifact_place(*artifact),
            name_entries(normals@),
        ),
{
    if let ExportKind::Procedure { digest, .. } = &export.kind {
        if let Some((path, selection_range)) = debug_location_for_procedure(
            digest,
            &package.sources,
            &package.functions,
        ) {
            let normal = match find_name(normals, &path) {
                Some(normal) => normal.clone(),
                None => path.clone(),
            };
            return Some(DefinitionLocation::Source { path, normal, selection_range });
        }
    }
    match artifact {
        Some(artifact) => Some(
            DefinitionLocation::Artifact {
                path: artifact.path.clone(),
                normal: artifact.normal.clone(),
            },
        ),
        None => None,
    }
}

/// An exported item.
fn export_definition(
    package: &MetadataPackage,
    export: &MetadataExport,
    artifact: &Option<ArtifactPath>,
    normals: &Vec<(String, String)>,
) -> (definition: Definition)
    ensures
        definition@ == export_def(
            package@,
            export@,
            artifact_place(*artifact),
            name_entries(normals@),
        ),
{
    let (kind, symbol_kind, keyword, signature) = match &export.kind {
        ExportKind::Procedure { signature, .. } => (
            ItemKind::Procedure,
            SymbolKind::Function,
            "proc",
            crate::model::copy_text(signature),
        ),
        ExportKind::Constant => (ItemKind::Constant, SymbolKind::Constant, "const", None),
        ExportKind::Type => (ItemKind::Type, SymbolKind::Class, "type", None),
    };
    let stack_signature = match &export.kind {
        ExportKind::Procedure { function: Some(function), .. } => signature_from_function_type(
            function,
        ),
        _ => None,
    };
    let notes = Some(metadata_hover_notes(&package.header, export));
    let hover = render_definition_block(keyword, &export.path, &signature, &notes);
    Definition {
        context: ContextKey {
            package: package.header.name.clone(),
            target: "metadata".to_owned(),
            executable: package.header.program,
        },
        path: export.path.clone(),
        module: export.namespace.clone(),
        name: export.name.clone(),
        kind,
        symbol_kind,
        hover,
        signature,
        stack_signature,
        location: find_place(package, export, artifact, normals),
        editable: false,
        exported: true,
        entrypoint: false,
        renamable: false,
        visible_outside_context: true,
        selection_range: start_of_file(),
    }
}

/// The place of a module.
struct ModulePlace {
    path: String,
    place: DefinitionLocation,
}

/// The models of the places of modules.
spec fn place_views(places: Seq<ModulePlace>) -> Seq<(Seq<char>, Place)> {
    Seq::new(places.len(), |i: int| (places[i].path@, places[i].place@))
}

/// Adds the place of an item's module, unless the module has one.
fn push_place(places: &mut Vec<ModulePlace>, definition: &Definition)
    ensures
        place_views(final(places)@) == match definition@.location {
            Some(place) => if has_module(place_views(old(places)@), definition@.module) {
                place_views(old(places)@)
            } else {
                place_views(old(places)@).push((definition@.module, place))
            },
            None => place_views(old(places)@),
        },
{
    let ghost all = place_views(places@);
    let mut i: usize = 0;
    while i < places.len()
        invariant
            i <= places.len(),
            *places == *old(places),
            all == place_views(places@),
            forall|k: int| 0 <= k < i ==> (#[trigger] all[k]).0 != definition@.module,
        decreases places.len() - i,
    {
        assert(all[i as int].0 == places@[i as int].path@);
        if same_text(&places[i].path, &definition.module) {
            assert(has_module(all, definition@.module));
            return;
        }
        i = i + 1;
    }
    assert(!has_module(all, definition@.module));
    if let Some(place) = copy_place(&definition.location) {
        let next = ModulePlace { path: definition.module.clone(), place };
        places.push(next);
        assert(place_views(places@) =~= all.push((definition@.module, place@)));
    }
}

/// Sorts the places of modules by their paths.
fn sort_places(places: Vec<ModulePlace>) -> (sorted: Vec<ModulePlace>)
    ensures
        place_views(sorted@) == arrange(
            place_views(places@),
            stable_order(module_keys(place_views(places@))),
        ),
{
    let ghost all = place_views(places@);
    let mut keys: Vec<Vec<u64>> = Vec::new();
    let mut i: usize = 0;
    while i < places.len()
        invariant
            i <= places.len(),
            keys.len() == i,
            all == place_views(places@),
            forall|k: int| 0 <= k < i ==> (#[trigger] keys@[k])@ == module_keys(all)[k],
        decreases places.len() - i,
    {
        assert(all[i as int].0 == places@[i as int].path@);
        keys.push(key_of(&places[i].path));
        i = i + 1;
    }
    assert(key_views(keys@) =~= module_keys(all));
    let sorted = sort_by_keys(places, &keys);
    proof {
        law_stable_order(module_keys(all));
        assert(place_views(sorted@) =~= arrange(all, stable_order(module_keys(all))));
    }
    sorted
}

/// Adds the items of a compiled package.
pub fn index_metadata_package(
    definitions: &mut Vec<Definition>,
    package: &MetadataPackage,
    artifact: &Option<ArtifactPath>,
    normals: &Vec<(String, String)>,
)
    ensures
        defs(final(definitions)@) == defs(old(definitions)@) + metadata_defs(
            package@,
            artifact_place(*artifact),
            name_entries(normals@),
        ),
{
    let ghost start = defs(definitions@);
    let ghost model = package@;
    let ghost place = artifact_place(*artifact);
    let ghost names = name_entries(normals@);
    let ghost items = export_defs(model, place, names, model.exports.len());
    let mut places: Vec<ModulePlace> = Vec::new();
    let mut i: usize = 0;
    proof {
        assert(start + items.take(0) =~= start);
        assert(place_views(places@) =~= module_places(items, 0));
    }
    while i < package.exports.len()
        invariant
            i <= package.exports.len(),
            model == package@,
            place == artifact_place(*artifact),
            names == name_entries(normals@),
            items == export_defs(model, place, names, model.exports.len()),
            defs(definitions@) == start + items.take(i as int),
            place_views(places@) == module_places(items, i as nat),
        decreases package.exports.len() - i,
    {
        let export = &package.exports[i];
        assert(model.exports[i as int] == export@);
        let definition = export_definition(package, export, artifact, normals);
        assert(definition@ == items[i as int]);
        push_place(&mut places, &definition);
        let ghost before = defs(definitions@);
        definitions.push(definition);
        assert(defs(definitions@) =~= before.push(definition@));
        assert(start + items.take(i + 1) =~= (start + items.take(i as int)).push(items[i as int]));
        i = i + 1;
    }
    assert(items.take(i as int) =~= items);
    let ghost found = place_views(places@);
    let mut sorted = sort_places(places);
    let ghost order = place_views(sorted@);
    let ghost shown = sorted@;
    let ghost middle = defs(definitions@);
    let ghost context = metadata_context(model.header);
    let ghost modules = Seq::new(
        order.len(),
        |i: int| metadata_module(context, order[i].0, order[i].1),
    );
    let count = sorted.len();
    let mut j: usize = 0;
    assert(middle + modules.take(0) =~= middle);
    while j < count
        invariant
            j <= count,
            count == shown.len(),
            sorted@ == shown.skip(j as int),
            order == place_views(shown),
            model == package@,
            context == metadata_context(model.header),
            modules == Seq::new(
                order.len(),
                |i: int| metadata_module(context, order[i].0, order[i].1),
            ),
            defs(definitions@) == middle + modules.take(j as int),
        decreases count - j,
    {
        let next = sorted.remove(0);
        assert(sorted@ =~= shown.skip(j + 1));
        assert(order[j as int] == (next.path@, next.place@));
        let definition = Definition {
            context: ContextKey {
                package: package.header.name.clone(),
                target: "metadata".to_owned(),
                executable: package.header.program,
            },
            path: next.path.clone(),
            module: next.path.clone(),
            name: last_path_segment(&next.path),
            kind: ItemKind::Module,
            symbol_kind: SymbolKind::Module,
            hover: join3("```masm\nmodule ", &next.path, "\n```"),
            signature: None,
            stack_signature: None,
            location: Some(next.place),
            editable: false,
            exported: true,
            entrypoint: false,
            renamable: false,
            visible_outside_context: true,
            selection_range: start_of_file(),
        };
        assert(definition@ == modules[j as int]);
        let ghost before = defs(definitions@);
        definitions.push(definition);
        assert(defs(definitions@) =~= before.push(definition@));
        assert(middle + modules.take(j + 1) =~= (middle + modules.take(j as int)).push(
            modules[j as int],
        ));
        j = j + 1;
    }
    assert(modules.take(j as int) =~= modules);
    assert(start + items + modules =~= start + (items + modules));
}

/// Nothing that a compiled package adds can be edited or renamed, and all of it can be seen from
/// every context; its modules are shown as modules.
pub proof fn law_metadata_is_fixed(
    package: PackageModel,
    artifact: Option<Place>,
    normals: Seq<(Seq<char>, Seq<char>)>,
    i: int,
)
    requires
        0 <= i < metadata_defs(package, artifact, normals).len(),
    ensures
        !metadata_defs(package, artifact, normals)[i].editable,
        !metadata_defs(package, artifact, normals)[i].renamable,
        metadata_defs(package, artifact, normals)[i].visible_outside_context,
        (metadata_defs(package, artifact, normals)[i].symbol_kind is Module) == (metadata_defs(
            package,
            artifact,
            normals,
        )[i].kind is Module),
{
}

} // verus!
