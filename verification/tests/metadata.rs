use std::collections::BTreeMap;
use std::sync::Arc;

use miden_assembly_syntax::ast::types::{
    ArrayType, CallConv, EnumType, FunctionType, PointerType, StructType, Type, TypeRepr, Variant,
};
use miden_assembly_syntax::ast::{
    Attribute, AttributeSet, Ident, MetaExpr, MetaKeyValue, MetaList, Path as AstPath,
    PathBuf as AstPathBuf,
};
use miden_assembly_syntax::debuginfo::{ColumnNumber, LineNumber};
use miden_assembly_syntax::library::{LibraryExport, ProcedureExport as LibraryProcedureExport};
use miden_assembly_syntax::Library;
use miden_core::mast::{BasicBlockNodeBuilder, MastForest, MastForestContributor, MastNodeExt};
use miden_core::operations::Operation;
use miden_core::serde::Serializable;
use miden_lsp::builder::SnapshotBuilder;
use miden_lsp::metadata::{
    debug_location_for_procedure, read_debug_functions, read_debug_sources, read_package,
    ArtifactPath, DebugFunction, MetadataPackage, Section as PackageSection, SourceTable,
};
use miden_lsp::model::{Definition, DefinitionLocation};
use miden_lsp::package_bytes::is_decodable;
use miden_lsp::position::{Position, Range};
use miden_lsp::stack_effect::ItemKind;
use miden_mast_package::debug_info::{
    DebugFileInfo, DebugFunctionInfo, DebugFunctionsSection, DebugSourcesSection,
};
use miden_mast_package::{
    Package, PackageExport, PackageManifest, ProcedureExport, Section, SectionId, TargetType,
};

fn export_path(name: &str) -> Arc<AstPath> {
    let path = AstPathBuf::new(name).unwrap();
    Arc::from(path.as_path().to_absolute().into_owned().into_boxed_path())
}

fn package() -> MetadataPackage {
    let attributes = AttributeSet::new([Attribute::Marker(Ident::new("fast").unwrap())]);
    read_package("/dep.masp", &package_bytes(None, attributes)).unwrap()
}

fn package_bytes(signature: Option<FunctionType>, attributes: AttributeSet) -> Vec<u8> {
    let mut forest = MastForest::new();
    let node = BasicBlockNodeBuilder::new(vec![Operation::Add], Vec::new())
        .add_to_forest(&mut forest)
        .unwrap();
    forest.make_root(node);
    let path = export_path("dep::math::helper");
    let mut exports = BTreeMap::new();
    exports.insert(
        Arc::clone(&path),
        LibraryExport::Procedure(LibraryProcedureExport::new(node, Arc::clone(&path))),
    );
    let library = Arc::new(Library::new(Arc::new(forest), exports).unwrap());
    let digest = library.mast_forest()[node].digest();
    let manifest = PackageManifest::new([PackageExport::Procedure(ProcedureExport {
        path,
        digest,
        signature,
        attributes,
    })])
    .unwrap();

    let mut sources = DebugSourcesSection::new();
    let name = sources.add_string(Arc::from("/src/math.masm"));
    let file = sources.add_file(DebugFileInfo::new(name));
    let mut functions = DebugFunctionsSection::new();
    let line = LineNumber::new(7).unwrap();
    let column = ColumnNumber::new(3).unwrap();
    functions
        .add_function(DebugFunctionInfo::new(0, file, line, column).with_mast_root(digest));

    let package = Package {
        name: "dep".into(),
        version: "1.0.0".parse().unwrap(),
        description: None,
        kind: TargetType::Library,
        mast: library,
        manifest,
        sections: vec![
            Section::new(SectionId::DEBUG_SOURCES, sources.to_bytes()),
            Section::new(SectionId::DEBUG_FUNCTIONS, functions.to_bytes()),
        ],
    };
    package.to_bytes()
}

fn typed(params: Vec<Type>) -> Vec<u8> {
    let signature = FunctionType::new(CallConv::Fast, params, []);
    package_bytes(Some(signature), AttributeSet::default())
}

fn replaced(bytes: &[u8], from: &[u8], to: &[u8]) -> Vec<u8> {
    let places: Vec<usize> = (0..bytes.len()).filter(|at| bytes[*at..].starts_with(from)).collect();
    assert_eq!(places.len(), 1);
    let mut changed = bytes[..places[0]].to_vec();
    changed.extend_from_slice(to);
    changed.extend_from_slice(&bytes[places[0] + from.len()..]);
    changed
}

fn definitions() -> Vec<Definition> {
    let mut builder = SnapshotBuilder::new();
    let artifact =
        ArtifactPath { path: "/dep.masp".to_string(), normal: "/dep.masp".to_string() };
    let normals = vec![("/src/math.masm".to_string(), "/real/math.masm".to_string())];
    builder.add_package(&package(), &Some(artifact), &normals);
    builder.finish().definitions
}

#[test]
fn reads_headers_exports_and_debug_tables() {
    let package = package();
    assert_eq!(package.header.name, "dep");
    assert_eq!(package.header.version, "1.0.0");
    assert!(!package.header.program);
    assert_eq!(package.header.dependencies.len(), 0);
    assert_eq!(package.exports.len(), 1);
    assert_eq!(package.exports[0].path, "::dep::math::helper");
    assert_eq!(package.exports[0].namespace, "::dep::math");
    assert_eq!(package.exports[0].name, "helper");
    let sources = package.sources.unwrap();
    assert_eq!(sources.strings, vec!["/src/math.masm".to_string()]);
    assert_eq!(sources.files, vec![0]);
    let functions = package.functions.unwrap();
    assert_eq!((functions[0].line, functions[0].column), (7, 3));
}

#[test]
fn places_exports_where_they_were_defined() {
    let definitions = definitions();
    assert_eq!(definitions.len(), 2);
    let helper = &definitions[0];
    assert_eq!(helper.kind, ItemKind::Procedure);
    assert_eq!(
        helper.hover,
        "```masm\nproc ::dep::math::helper\n```\n\npackage: dep@1.0.0\n\nattributes:\n@fast"
    );
    assert!(!helper.editable && !helper.renamable && helper.visible_outside_context);
    match helper.location.as_ref().unwrap() {
        DefinitionLocation::Source { path, normal, selection_range } => {
            assert_eq!(path, "/src/math.masm");
            assert_eq!(normal, "/real/math.masm");
            assert_eq!(
                *selection_range,
                Range::new(Position::new(6, 2), Position::new(6, 3))
            );
        }
        _ => panic!("expected a source location"),
    }
    assert_eq!(helper.location().unwrap().uri, "file:///src/math.masm");

    let module = &definitions[1];
    assert_eq!(module.kind, ItemKind::Module);
    assert_eq!(module.path, "::dep::math");
    assert_eq!(module.name, "math");
    assert_eq!(module.hover, "```masm\nmodule ::dep::math\n```");
}

#[test]
fn looks_debug_locations_up() {
    let sources = Some(SourceTable {
        files: vec![1, 9],
        strings: vec!["a".to_string(), "b".to_string()],
    });
    let function = |root: Option<&str>, file| DebugFunction {
        root: root.map(str::to_string),
        file,
        line: 0,
        column: 0,
    };
    let functions = Some(vec![
        function(None, 0),
        function(Some("x"), 0),
        function(Some("x"), 1),
        function(Some("y"), 1),
        function(Some("z"), 5),
    ]);
    let zero = Range::new(Position::new(0, 0), Position::new(0, 0));
    assert_eq!(
        debug_location_for_procedure("x", &sources, &functions),
        Some(("b".to_string(), zero))
    );
    assert_eq!(debug_location_for_procedure("y", &sources, &functions), None);
    assert_eq!(debug_location_for_procedure("z", &sources, &functions), None);
    assert_eq!(debug_location_for_procedure("w", &sources, &functions), None);
    assert_eq!(debug_location_for_procedure("x", &None, &functions), None);
    assert_eq!(debug_location_for_procedure("x", &sources, &None), None);
}

#[test]
fn reads_packages_with_types_and_attributes() {
    let ident = |name: &str| Ident::new(name).unwrap();
    let attributes = AttributeSet::new([
        Attribute::List(MetaList::new(ident("list"), [MetaExpr::Ident(ident("a"))])),
        Attribute::KeyValue(MetaKeyValue::new(
            ident("pairs"),
            [(ident("key"), MetaExpr::Ident(ident("value")))],
        )),
    ]);
    let word = Type::from(ArrayType::new(Type::Felt, 4));
    let point = Type::from(StructType::from_parts(
        Some("Point".into()),
        TypeRepr::packed(2),
        [("x".into(), Type::U8), ("y".into(), word.clone())],
    ));
    let choice = EnumType::new(
        "Choice".into(),
        Type::U8,
        [Variant::c_like("None".into(), Some(3)), Variant::new("Some".into(), point.clone(), None)],
    )
    .unwrap();
    let choice = Type::Enum(Arc::new(choice));
    let both = [choice.clone(), point];
    let nested = Type::from(StructType::from_parts(None, TypeRepr::align(8), both));
    let callback = FunctionType::new(CallConv::C, [word], [Type::U256]);
    let params = vec![
        nested,
        Type::from(PointerType::new(Type::I1)),
        Type::List(Arc::new(Type::U32)),
        Type::Function(Arc::new(callback)),
        choice,
    ];
    let signature = FunctionType::new(CallConv::Fast, params, [Type::Felt]);
    let bytes = package_bytes(Some(signature), attributes);
    assert!(is_decodable(&bytes));
    let package = read_package("/dep.masp", &bytes).unwrap();
    assert_eq!(package.exports[0].name, "helper");
    assert!(package.sources.is_some() && package.functions.is_some());
    for size in 0..bytes.len() {
        assert!(read_package("/dep.masp", &bytes[..size]).is_err());
    }
}

#[test]
fn refuses_packages_whose_types_cannot_be_laid_out() {
    let pair = |repr, ty: Type| Type::from(StructType::from_parts(None, repr, [ty.clone(), ty]));
    let refused = |bytes: &[u8]| {
        assert!(!is_decodable(bytes));
        assert_eq!(
            read_package("/dep.masp", bytes).err().unwrap(),
            "failed to decode '/dep.masp': a length or a type does not fit"
        );
    };

    let felts = typed(vec![pair(TypeRepr::Default, Type::Felt)]);
    assert!(read_package("/dep.masp", &felts).is_ok());
    let fields = [2, 0, 15, 0, 15];
    let written = |repr: &[u8], fields: &[u8]| [&[17, 0], repr, fields].concat();
    refused(&replaced(&felts, &written(&[0], &fields), &written(&[3], &fields)));
    refused(&replaced(&felts, &written(&[0], &fields), &written(&[0], &[2, 0, 15, 0, 19, 15])));
    refused(&replaced(&felts, &written(&[0], &fields), &written(&[1, 5, 0], &fields)));

    let packed = typed(vec![pair(TypeRepr::packed(1), Type::U32)]);
    let fields = [2, 0, 8, 0, 8];
    refused(&replaced(&packed, &written(&[2, 1, 0], &fields), &written(&[2, 3, 0], &fields)));
    let invalid = replaced(&packed, &written(&[2, 1, 0], &fields), &written(&[2, 0, 0], &fields));
    assert!(is_decodable(&invalid));
    assert!(read_package("/dep.masp", &invalid).is_err());

    let variant = Variant::new("Only".into(), Type::U32, None);
    let choice = EnumType::new("Choice".into(), Type::U16, [variant]).unwrap();
    let choice = typed(vec![Type::Enum(Arc::new(choice))]);
    let named = b"\x09Only\x01".to_vec();
    let with = |tail: &[u8]| [named.as_slice(), tail].concat();
    refused(&replaced(&choice, &with(&[8, 0]), &with(&[19, 8, 0])));
    assert!(is_decodable(b"MASP"));
    assert!(is_decodable(&[1, 2, 3]));
}

#[test]
fn refuses_packages_that_claim_too_much() {
    let huge = [0, 255, 255, 255, 255, 255, 255, 255, 255];
    let bytes = typed(Vec::new());
    let path = b"::dep::math::helper";
    let start = [&[3, 1, path.len() as u8, 0], path.as_slice()].concat();
    let claimed = [huge.as_slice(), &start[1..]].concat();
    assert!(!is_decodable(&replaced(&bytes, &start, &claimed)));

    let section = b"debug_sources";
    let start = [&[(section.len() * 2 + 1) as u8], section.as_slice()].concat();
    let claimed = [huge.as_slice(), &start[1..]].concat();
    assert!(!is_decodable(&replaced(&bytes, &start, &claimed)));
    let long = [&[255], &start[1..]].concat();
    assert!(is_decodable(&replaced(&bytes, &start, &long)));
    assert!(read_package("/dep.masp", &replaced(&bytes, &start, &long)).is_err());

    let tables = |data: Vec<u8>| {
        let section = |id: &str| PackageSection { id: id.to_string(), data: data.clone() };
        let sections = vec![section("debug_sources"), section("debug_functions")];
        (read_debug_sources(&sections).is_some(), read_debug_functions(&sections).is_some())
    };
    assert_eq!(tables([&[1, 3], huge.as_slice()].concat()), (false, false));
    assert_eq!(tables([&[1], huge.as_slice()].concat()), (false, false));
    assert_eq!(tables(vec![1, 1, 1]), (true, true));
    assert_eq!(tables(vec![1, 3, 3, b'a', 1]), (true, true));
    assert_eq!(tables(vec![2, 1, 1]), (false, false));
    assert_eq!(tables(Vec::new()), (false, false));
}
