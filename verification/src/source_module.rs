//! Analysis of one source file as a module: its items, imports, references and symbols.
use vstd::prelude::*;
use vstd::string::StringExecFns;
use crate::masm_path::{canonicalize_path_text, main_procedure_name, path_of_text};
use crate::model::{file_start, start_of_file, symbols, text_view, Alias, AliasTarget, Context,
    ContextKey, Def, Definition, DefinitionLocation, DocumentSymbol, ModuleAnalysis, ModuleModel,
    Occurrence, Place, RawOccurrence, Symbol, SymbolKind};
use crate::parsed::{ParsedFile, ParsedText};
use crate::position::{byte_range_to_lsp_range, range_at, Range};
use crate::source_path::{module_of_file, module_path_for_file};
use crate::stack_effect::{ItemKind, ReferenceKind};
use crate::syntax::{ints, named_children, walk_order, Stop};
use crate::text::{join3, same_text};
use crate::words::{join_lines, joined_lines, last_path_segment, last_segment, texts, trim,
    trim_quotes, trimmed, unquoted_end, unquoted_start};

verus! {

/// A target of a package and where its modules are found.
pub struct TargetContext {
    pub package_name: String,
    pub target: String,
    pub executable: bool,
    pub editable: bool,
    pub root_file: String,
    pub root_dir: String,
    pub namespace: String,
    pub sibling_exec_roots: Vec<String>,
}

/// The model of a target.
pub struct TargetModel {
    pub context: Context,
    pub editable: bool,
    pub root_file: Seq<char>,
    pub root_dir: Seq<char>,
    pub namespace: Seq<char>,
    pub siblings: Seq<Seq<char>>,
}

impl View for TargetContext {
    type V = TargetModel;

    open spec fn view(&self) -> TargetModel {
        TargetModel {
            context: Context {
                package: self.package_name@,
                target: self.target@,
                executable: self.executable,
            },
            editable: self.editable,
            root_file: self.root_file@,
            root_dir: self.root_dir@,
            namespace: self.namespace@,
            siblings: texts(self.sibling_exec_roots@),
        }
    }
}

/// The markdown that shows an item: its declaration in a code block, and below it what is said of
/// it.
pub open spec fn definition_block(
    keyword: Seq<char>,
    path: Seq<char>,
    signature: Option<Seq<char>>,
    docs: Option<Seq<char>>,
) -> Seq<char> {
    let head = "```masm\n"@ + keyword + " "@ + path;
    let declared = match signature {
        Some(signature) => head + " "@ + signature,
        None => head,
    };
    let block = declared + "\n```"@;
    match docs {
        Some(docs) => if docs.len() > 0 {
            block + "\n\n"@ + docs
        } else {
            block
        },
        None => block,
    }
}

/// The markdown that shows an item.
pub fn render_definition_block(
    keyword: &str,
    path: &str,
    signature: &Option<String>,
    docs: &Option<String>,
) -> (value: String)
    ensures
        value@ == definition_block(keyword@, path@, text_view(*signature), text_view(*docs)),
{
    let mut value = "```masm\n".to_owned();
    value.append(keyword);
    value.append(" ");
    value.append(path);
    if let Some(signature) = signature {
        value.append(" ");
        value.append(signature);
    }
    value.append("\n```");
    if let Some(docs) = docs {
        if docs.as_str().unicode_len() > 0 {
            value.append("\n\n");
            value.append(docs);
        }
    }
    value
}

/// The documentation that the lines before an item make up.
pub open spec fn docs_of(pending: Seq<Seq<char>>) -> Option<Seq<char>> {
    if pending.len() == 0 {
        None
    } else {
        Some(joined_lines(pending))
    }
}

/// Takes the documentation that the lines before an item make up.
pub fn take_docs(pending_docs: &mut Vec<String>) -> (docs: Option<String>)
    ensures
        text_view(docs) == docs_of(texts(old(pending_docs)@)),
        final(pending_docs)@.len() == 0,
{
    assert(texts(pending_docs@).len() == pending_docs@.len());
    if pending_docs.len() == 0 {
        None
    } else {
        let docs = join_lines(pending_docs);
        pending_docs.clear();
        Some(docs)
    }
}

/// An item of a source module.
pub open spec fn source_def(
    module: ModuleModel,
    kind: ItemKind,
    symbol_kind: SymbolKind,
    name: Seq<char>,
    hover: Seq<char>,
    signature: Option<Seq<char>>,
    selection_range: Range,
    exported: bool,
    entrypoint: bool,
) -> Def {
    Def {
        context: module.context,
        path: module.path + "::"@ + name,
        module: module.path,
        name,
        kind,
        symbol_kind,
        hover,
        signature,
        stack_signature: None,
        location: Some(
            Place::Source { path: module.file, normal: module.file, selection_range },
        ),
        editable: module.editable,
        exported,
        entrypoint,
        renamable: module.editable && !entrypoint,
        visible_outside_context: exported,
        selection_range,
    }
}

/// A module with one more item, which is entered under its name and listed in the outline.
pub open spec fn with_item(module: ModuleModel, item: Def, range: Range) -> ModuleModel {
    ModuleModel {
        names: module.names.push((item.name, item.path)),
        definitions: module.definitions.push(item),
        symbols: module.symbols.push(
            Symbol {
                name: item.name,
                detail: item.signature,
                kind: item.symbol_kind,
                range,
                selection_range: item.selection_range,
            },
        ),
        ..module
    }
}

/// The references to types, or to constants, among the nodes that `nodes` lists.
pub open spec fn nested_references(parsed: ParsedText, nodes: Seq<int>, to_types: bool) -> Seq<
    Occurrence,
>
    decreases nodes.len(),
{
    if nodes.len() == 0 {
        Seq::empty()
    } else {
        let before = nested_references(parsed, nodes.drop_last(), to_types);
        let node = nodes.last();
        let wanted = if to_types {
            "path"@
        } else {
            "const_path"@
        };
        match parsed.node_text(node) {
            Ok(raw_path) => if parsed.rows[node].kind == wanted {
                before.push(
                    Occurrence {
                        range: parsed.node_range(node),
                        raw_path,
                        kind: if to_types {
                            ReferenceKind::Type
                        } else {
                            ReferenceKind::Constant
                        },
                    },
                )
            } else {
                before
            },
            Err(_) => before,
        }
    }
}

/// The calls and the references to constants among the nodes that `nodes` lists.
pub open spec fn body_references(parsed: ParsedText, nodes: Seq<int>) -> Seq<Occurrence>
    decreases nodes.len(),
{
    if nodes.len() == 0 {
        Seq::empty()
    } else {
        let before = body_references(parsed, nodes.drop_last());
        let node = nodes.last();
        let kind = parsed.rows[node].kind;
        let (at, reference) = if kind == "invoke"@ {
            (parsed.field(node, "path"@), ReferenceKind::Invoke)
        } else if kind == "const_path"@ || kind == "const_ident"@ {
            (Some(node), ReferenceKind::Constant)
        } else {
            (None, ReferenceKind::Constant)
        };
        match at {
            Some(at) => match parsed.node_text(at) {
                Ok(raw_path) => before.push(
                    Occurrence { range: parsed.node_range(at), raw_path, kind: reference },
                ),
                Err(_) => before,
            },
            None => before,
        }
    }
}

/// A module with more references.
pub open spec fn with_raw(module: ModuleModel, more: Seq<Occurrence>) -> ModuleModel {
    ModuleModel { raw: module.raw + more, ..module }
}

/// The name under which an import is known: its alias, or the last part of its path.
pub open spec fn import_name(parsed: ParsedText, node: int, target: Seq<char>) -> Result<
    Seq<char>,
    Seq<char>,
> {
    match parsed.field(node, "alias"@) {
        Some(alias) => match parsed.field(alias, "name"@) {
            Some(name) => parsed.node_text(name),
            None => Err("import alias without a name"@),
        },
        None => Ok(unquoted_end(unquoted_start(last_segment(target)))),
    }
}

/// What an import stands for.
pub open spec fn import_alias(parsed: ParsedText, node: int, target: Seq<char>) -> Result<
    Alias,
    Seq<char>,
> {
    if parsed.rows[node].kind == "mast_root"@ {
        Ok(Alias::MastRoot)
    } else {
        match path_of_text(target) {
            Ok(path) => Ok(Alias::Path(path)),
            Err(message) => Err(message),
        }
    }
}

/// The references that an import holds: to its target, and under its alias.
pub open spec fn import_references(
    parsed: ParsedText,
    node: int,
    target_node: int,
    target: Seq<char>,
    name: Seq<char>,
) -> Seq<Occurrence> {
    let first = seq![
        Occurrence {
            range: parsed.node_range(target_node),
            raw_path: target,
            kind: ReferenceKind::ImportTarget,
        },
    ];
    match parsed.field(node, "alias"@) {
        Some(alias) => match parsed.field(alias, "name"@) {
            Some(at) => first.push(
                Occurrence {
                    range: parsed.node_range(at),
                    raw_path: name,
                    kind: ReferenceKind::ImportAlias,
                },
            ),
            None => first,
        },
        None => first,
    }
}

/// A module with the import at `node`.
pub open spec fn with_import(module: ModuleModel, parsed: ParsedText, node: int) -> Result<
    ModuleModel,
    Seq<char>,
> {
    match parsed.field(node, "target"@) {
        None => Err("import without a target"@),
        Some(at) => match parsed.node_text(at) {
            Err(message) => Err(message),
            Ok(raw) => {
                let target = trimmed(raw);
                match import_name(parsed, node, target) {
                    Err(message) => Err(message),
                    Ok(name) => match import_alias(parsed, at, target) {
                        Err(message) => Err(message),
                        Ok(alias) => Ok(
                            with_raw(
                                ModuleModel {
                                    imports: module.imports.push((name, alias)),
                                    ..module
                                },
                                import_references(parsed, node, at, target, name),
                            ),
                        ),
                    },
                }
            },
        },
    }
}

/// Whether the item at `node` can be seen outside its module's context.
pub open spec fn is_exported(module: ModuleModel, parsed: ParsedText, node: int) -> bool {
    parsed.field(node, "visibility"@) is Some && !module.context.executable
}

/// A module with the constant at `node`.
pub open spec fn with_constant(
    module: ModuleModel,
    parsed: ParsedText,
    node: int,
    docs: Option<Seq<char>>,
) -> Result<ModuleModel, Seq<char>> {
    match parsed.field(node, "name"@) {
        None => Err("constant without a name"@),
        Some(at) => match parsed.node_text(at) {
            Err(message) => Err(message),
            Ok(name) => Ok(
                with_raw(
                    with_item(
                        module,
                        source_def(
                            module,
                            ItemKind::Constant,
                            SymbolKind::Constant,
                            name,
                            definition_block(
                                "const"@,
                                module.path + "::"@ + name,
                                None,
                                docs,
                            ),
                            None,
                            parsed.node_range(at),
                            is_exported(module, parsed, node),
                            false,
                        ),
                        parsed.node_range(node),
                    ),
                    nested_references(parsed, walk_order(parsed.rows, node, Stop::Nowhere), false),
                ),
            ),
        },
    }
}

/// A module with the type at `node`.
pub open spec fn with_type(
    module: ModuleModel,
    parsed: ParsedText,
    node: int,
    docs: Option<Seq<char>>,
    is_enum: bool,
) -> Result<ModuleModel, Seq<char>> {
    match parsed.field(node, "name"@) {
        None => Err("type definition without a name"@),
        Some(at) => match parsed.node_text(at) {
            Err(message) => Err(message),
            Ok(name) => Ok(
                with_raw(
                    with_item(
                        module,
                        source_def(
                            module,
                            ItemKind::Type,
                            SymbolKind::Class,
                            name,
                            definition_block(
                                if is_enum {
                                    "enum"@
                                } else {
                                    "type"@
                                },
                                module.path + "::"@ + name,
                                None,
                                docs,
                            ),
                            None,
                            parsed.node_range(at),
                            is_exported(module, parsed, node),
                            false,
                        ),
                        parsed.node_range(node),
                    ),
                    nested_references(parsed, walk_order(parsed.rows, node, Stop::Nowhere), true),
                ),
            ),
        },
    }
}

/// Where the name of the procedure at `node` stands: the first part of what the field holds, where
/// it has parts.
pub open spec fn name_node(parsed: ParsedText, node: int) -> Option<int> {
    match parsed.field(node, "name"@) {
        Some(at) => if named_children(parsed.rows, at).len() > 0 {
            Some(named_children(parsed.rows, at)[0])
        } else {
            Some(at)
        },
        None => None,
    }
}

/// The name of the procedure at `node`, and where it stands. An entrypoint has a fixed name, and
/// stands where its first keyword does.
pub open spec fn procedure_name(parsed: ParsedText, node: int, entrypoint: bool) -> Result<
    (Seq<char>, Range),
    Seq<char>,
> {
    if entrypoint {
        let row = parsed.rows[node];
        let end = if row.start + 5 < row.end {
            row.start + 5
        } else {
            row.end
        };
        Ok(("$main"@, range_at(parsed.bytes(), row.start, end)))
    } else {
        match name_node(parsed, node) {
            None => Err("procedure without a name"@),
            Some(at) => match parsed.node_text(at) {
                Ok(name) => Ok((name, parsed.node_range(at))),
                Err(message) => Err(message),
            },
        }
    }
}

/// The signature that is written for the procedure at `node`.
pub open spec fn procedure_signature(parsed: ParsedText, node: int) -> Result<
    Option<Seq<char>>,
    Seq<char>,
> {
    match parsed.field(node, "signature"@) {
        Some(at) => match parsed.node_text(at) {
            Ok(text) => Ok(Some(text)),
            Err(message) => Err(message),
        },
        None => Ok(None),
    }
}

/// The references in the signature and in the body of the procedure at `node`.
pub open spec fn procedure_references(parsed: ParsedText, node: int) -> Seq<Occurrence> {
    let in_signature = match parsed.field(node, "signature"@) {
        Some(at) => nested_references(parsed, walk_order(parsed.rows, at, Stop::Nowhere), true),
        None => Seq::empty(),
    };
    let in_body = match parsed.field(node, "body"@) {
        Some(at) => body_references(parsed, walk_order(parsed.rows, at, Stop::AtReferences)),
        None => Seq::empty(),
    };
    in_signature + in_body
}

/// A module with the procedure at `node`.
pub open spec fn with_procedure(
    module: ModuleModel,
    parsed: ParsedText,
    node: int,
    docs: Option<Seq<char>>,
    entrypoint: bool,
) -> Result<ModuleModel, Seq<char>> {
    match procedure_name(parsed, node, entrypoint) {
        Err(message) => Err(message),
        Ok((name, selection_range)) => match procedure_signature(parsed, node) {
            Err(message) => Err(message),
            Ok(signature) => Ok(
                with_raw(
                    with_item(
                        module,
                        source_def(
                            module,
                            ItemKind::Procedure,
                            SymbolKind::Function,
                            name,
                            definition_block(
                                "proc"@,
                                module.path + "::"@ + name,
                                signature,
                                docs,
                            ),
                            signature,
                            selection_range,
                            !entrypoint && is_exported(module, parsed, node),
                            entrypoint,
                        ),
                        parsed.node_range(node),
                    ),
                    procedure_references(parsed, node),
                ),
            ),
        },
    }
}

/// A module and the lines of documentation that wait for an item.
pub struct Reading {
    pub module: ModuleModel,
    pub pending: Seq<Seq<char>>,
}

/// A module with what stands at `node`. Lines of documentation belong to the item that follows
/// them; where anything else follows, they are dropped.
pub open spec fn with_node(reading: Reading, parsed: ParsedText, node: int) -> Result<
    Reading,
    Seq<char>,
> {
    let kind = parsed.rows[node].kind;
    let module = reading.module;
    let docs = docs_of(reading.pending);
    if kind == "doc_comment"@ {
        match parsed.node_text(node) {
            Ok(text) => Ok(Reading { module, pending: reading.pending.push(trimmed(text)) }),
            Err(message) => Err(message),
        }
    } else {
        let next = if kind == "import"@ {
            with_import(module, parsed, node)
        } else if kind == "constant"@ {
            with_constant(module, parsed, node, docs)
        } else if kind == "type_alias"@ || kind == "enum_declaration"@ {
            with_type(module, parsed, node, docs, kind == "enum_declaration"@)
        } else if kind == "procedure"@ {
            with_procedure(module, parsed, node, docs, false)
        } else if kind == "entrypoint"@ {
            with_procedure(module, parsed, node, docs, true)
        } else {
            Ok(module)
        };
        match next {
            Ok(module) => Ok(Reading { module, pending: Seq::empty() }),
            Err(message) => Err(message),
        }
    }
}

/// A module with what stands at the nodes that `nodes` lists.
pub open spec fn with_nodes(reading: Reading, parsed: ParsedText, nodes: Seq<int>) -> Result<
    Reading,
    Seq<char>,
>
    decreases nodes.len(),
{
    if nodes.len() == 0 {
        Ok(reading)
    } else {
        match with_nodes(reading, parsed, nodes.drop_last()) {
            Ok(before) => with_node(before, parsed, nodes.last()),
            Err(message) => Err(message),
        }
    }
}

/// The markdown that shows a module.
pub open spec fn module_block(path: Seq<char>) -> Seq<char> {
    "```masm\nmodule "@ + path + "\n```"@
}

/// A module of which nothing has been read.
pub open spec fn empty_module(
    target: TargetModel,
    file: Seq<char>,
    path: Seq<char>,
    priority: usize,
) -> ModuleModel {
    ModuleModel {
        context: target.context,
        file,
        path,
        priority,
        editable: target.editable,
        names: Seq::empty(),
        imports: Seq::empty(),
        definitions: seq![
            Def {
                context: target.context,
                path,
                module: path,
                name: last_segment(path),
                kind: ItemKind::Module,
                symbol_kind: SymbolKind::Module,
                hover: module_block(path),
                signature: None,
                stack_signature: None,
                location: Some(
                    Place::Source { path: file, normal: file, selection_range: file_start() },
                ),
                editable: target.editable,
                exported: !target.context.executable,
                entrypoint: false,
                renamable: false,
                visible_outside_context: !target.context.executable,
                selection_range: file_start(),
            },
        ],
        raw: Seq::empty(),
        resolved: Seq::empty(),
        symbols: Seq::empty(),
    }
}

/// The module that a file of a target holds, or what is reported for it.
pub open spec fn source_module(
    target: TargetModel,
    file: Seq<char>,
    priority: usize,
    parsed: ParsedText,
) -> Result<ModuleModel, Seq<char>> {
    match module_of_file(target.root_file, target.root_dir, target.namespace, file) {
        Err(message) => Err(message),
        Ok(path) => match with_nodes(
            Reading {
                module: empty_module(target, file, path, priority),
                pending: Seq::empty(),
            },
            parsed,
            named_children(parsed.rows, 0),
        ) {
            Ok(reading) => Ok(reading.module),
            Err(message) => Err(message),
        },
    }
}

/// What an outcome of the analysis is, as a model.
pub open spec fn outcome_view<T>(result: Result<T, String>, module: ModuleModel) -> Result<
    ModuleModel,
    Seq<char>,
> {
    match result {
        Ok(_) => Ok(module),
        Err(message) => Err(message@),
    }
}

/// Adds the references to types, or to constants, in the subtree at `root`.
fn record_nested_references(
    module: &mut ModuleAnalysis,
    root: usize,
    parsed: &ParsedFile,
    to_types: bool,
)
    requires
        parsed.well_formed(),
        root < parsed@.rows.len(),
    ensures
        final(module)@ == with_raw(
            old(module)@,
            nested_references(
                parsed@,
                walk_order(parsed@.rows, root as int, Stop::Nowhere),
                to_types,
            ),
        ),
{
    let visited = parsed.tree.walk(root, Stop::Nowhere);
    let ghost order = ints(visited@);
    let ghost before = module@;
    let mut i: usize = 0;
    proof {
        assert(order.take(0) =~= Seq::<int>::empty());
        assert(before.raw + Seq::<Occurrence>::empty() =~= before.raw);
    }
    while i < visited.len()
        invariant
            i <= visited.len(),
            parsed.well_formed(),
            order == ints(visited@),
            forall|k: int|
                0 <= k < visited@.len() ==> 0 <= #[trigger] visited@[k] < parsed@.rows.len(),
            module@ == with_raw(
                before,
                nested_references(parsed@, order.take(i as int), to_types),
            ),
        decreases visited.len() - i,
    {
        let node = visited[i];
        let kind = &parsed.tree.rows[node].kind;
        let ghost found = nested_references(parsed@, order.take(i as int), to_types);
        proof {
            assert(parsed@.rows[node as int].kind == kind@);
            assert(order.take(i + 1).drop_last() =~= order.take(i as int));
            assert(order.take(i + 1).last() == node as int);
        }
        let wanted = if to_types {
            same_text(kind, "path")
        } else {
            same_text(kind, "const_path")
        };
        if wanted {
            if let Ok(raw_path) = parsed.node_text(node) {
                push_occurrence(
                    module,
                    RawOccurrence {
                        range: parsed.node_range(node),
                        raw_path,
                        kind: if to_types {
                            ReferenceKind::Type
                        } else {
                            ReferenceKind::Constant
                        },
                    },
                    Ghost(before),
                    Ghost(found),
                );
            }
        }
        i = i + 1;
    }
    assert(order.take(i as int) =~= order);
}

/// Adds a reference to a module.
fn push_occurrence(
    module: &mut ModuleAnalysis,
    occurrence: RawOccurrence,
    Ghost(before): Ghost<ModuleModel>,
    Ghost(found): Ghost<Seq<Occurrence>>,
)
    requires
        old(module)@ == with_raw(before, found),
    ensures
        final(module)@ == with_raw(before, found.push(occurrence@)),
{
    let ghost shown = module@;
    module.raw_occurrences.push(occurrence);
    assert(module@.raw =~= shown.raw.push(occurrence@));
    assert(before.raw + found.push(occurrence@) =~= (before.raw + found).push(occurrence@));
    assert(module@.definitions =~= shown.definitions);
}

/// Adds the calls and the references to constants in the subtree at `root`.
fn record_body_references(module: &mut ModuleAnalysis, root: usize, parsed: &ParsedFile)
    requires
        parsed.well_formed(),
        root < parsed@.rows.len(),
    ensures
        final(module)@ == with_raw(
            old(module)@,
            body_references(
                parsed@,
                walk_order(parsed@.rows, root as int, Stop::AtReferences),
            ),
        ),
{
    let visited = parsed.tree.walk(root, Stop::AtReferences);
    let ghost order = ints(visited@);
    let ghost before = module@;
    let mut i: usize = 0;
    proof {
        assert(order.take(0) =~= Seq::<int>::empty());
        assert(before.raw + Seq::<Occurrence>::empty() =~= before.raw);
    }
    while i < visited.len()
        invariant
            i <= visited.len(),
            parsed.well_formed(),
            order == ints(visited@),
            forall|k: int|
                0 <= k < visited@.len() ==> 0 <= #[trigger] visited@[k] < parsed@.rows.len(),
            module@ == with_raw(before, body_references(parsed@, order.take(i as int))),
        decreases visited.len() - i,
    {
        let node = visited[i];
        let kind = &parsed.tree.rows[node].kind;
        let ghost found = body_references(parsed@, order.take(i as int));
        proof {
            assert(parsed@.rows[node as int].kind == kind@);
            assert(order.take(i + 1).drop_last() =~= order.take(i as int));
            assert(order.take(i + 1).last() == node as int);
        }
        let invoke = same_text(kind, "invoke");
        let at = if invoke {
            parsed.tree.child_with_field(node, "path")
        } else if same_text(kind, "const_path") || same_text(kind, "const_ident") {
            Some(node)
        } else {
            None
        };
        if let Some(at) = at {
            if let Ok(raw_path) = parsed.node_text(at) {
                push_occurrence(
                    module,
                    RawOccurrence {
                        range: parsed.node_range(at),
                        raw_path,
                        kind: if invoke {
                            ReferenceKind::Invoke
                        } else {
                            ReferenceKind::Constant
                        },
                    },
                    Ghost(before),
                    Ghost(found),
                );
            }
        }
        i = i + 1;
    }
    assert(order.take(i as int) =~= order);
}

/// Adds an item to a module.
fn push_item(
    module: &mut ModuleAnalysis,
    kind: ItemKind,
    symbol_kind: SymbolKind,
    name: String,
    hover: String,
    signature: Option<String>,
    selection_range: Range,
    exported: bool,
    entrypoint: bool,
    range: Range,
)
    ensures
        final(module)@ == with_item(
            old(module)@,
            source_def(
                old(module)@,
                kind,
                symbol_kind,
                name@,
                hover@,
                text_view(signature),
                selection_range,
                exported,
                entrypoint,
            ),
            range,
        ),
{
    let ghost before = module@;
    let path = join3(&module.path, "::", &name);
    let item = Definition {
        context: module.context.copy(),
        path: path.clone(),
        module: module.path.clone(),
        name: name.clone(),
        kind,
        symbol_kind,
        hover,
        signature: crate::model::copy_text(&signature),
        stack_signature: None,
        location: Some(
            DefinitionLocation::Source {
                path: module.file_path.clone(),
                normal: module.file_path.clone(),
                selection_range,
            },
        ),
        editable: module.editable,
        exported,
        entrypoint,
        renamable: module.editable && !entrypoint,
        visible_outside_context: exported,
        selection_range,
    };
    let symbol = DocumentSymbol {
        name: name.clone(),
        detail: signature,
        kind: symbol_kind,
        range,
        selection_range,
    };
    module.local_names.push((name, path));
    module.definitions.push(item);
    module.document_symbols.push(symbol);
    proof {
        let after = with_item(before, item@, range);
        assert(module@.names =~= after.names);
        assert(module@.definitions =~= after.definitions);
        assert(module@.symbols =~= after.symbols);
    }
}

/// Adds the import at `node`.
pub fn parse_import(module: &mut ModuleAnalysis, node: usize, parsed: &ParsedFile) -> (result: Result<
    (),
    String,
>)
    requires
        parsed.well_formed(),
        node < parsed@.rows.len(),
    ensures
        with_import(old(module)@, parsed@, node as int) == outcome_view(result, final(module)@),
{
    let target_node = match parsed.tree.child_with_field(node, "target") {
        Some(at) => at,
        None => return Err("import without a target".to_owned()),
    };
    let target = match parsed.node_text(target_node) {
        Ok(text) => trim(&text),
        Err(message) => return Err(message),
    };
    let alias_node = match parsed.tree.child_with_field(node, "alias") {
        Some(alias) => match parsed.tree.child_with_field(alias, "name") {
            Some(name) => Some(name),
            None => return Err("import alias without a name".to_owned()),
        },
        None => None,
    };
    let name = match alias_node {
        Some(at) => match parsed.node_text(at) {
            Ok(name) => name,
            Err(message) => return Err(message),
        },
        None => trim_quotes(&last_path_segment(&target)),
    };
    let kind = &parsed.tree.rows[target_node].kind;
    assert(parsed@.rows[target_node as int].kind == kind@);
    let alias = if same_text(kind, "mast_root") {
        AliasTarget::MastRoot
    } else {
        match canonicalize_path_text(&target) {
            Ok(path) => AliasTarget::Path(path),
            Err(message) => return Err(message),
        }
    };
    let ghost before = module@;
    module.imports.push((name.clone(), alias));
    let ghost middle = module@;
    proof {
        assert(middle.imports =~= before.imports.push((name@, alias@)));
        assert(middle == (ModuleModel {
            imports: before.imports.push((name@, alias@)),
            ..before
        }));
        assert(middle.raw + Seq::<Occurrence>::empty() =~= middle.raw);
    }
    let first = RawOccurrence {
        range: parsed.node_range(target_node),
        raw_path: target,
        kind: ReferenceKind::ImportTarget,
    };
    let ghost one = seq![first@];
    assert(Seq::<Occurrence>::empty().push(first@) =~= one);
    push_occurrence(module, first, Ghost(middle), Ghost(Seq::empty()));
    if let Some(at) = alias_node {
        push_occurrence(
            module,
            RawOccurrence {
                range: parsed.node_range(at),
                raw_path: name,
                kind: ReferenceKind::ImportAlias,
            },
            Ghost(middle),
            Ghost(one),
        );
    }
    Ok(())
}

/// Adds the constant at `node`.
pub fn parse_constant(
    module: &mut ModuleAnalysis,
    node: usize,
    parsed: &ParsedFile,
    docs: Option<String>,
) -> (result: Result<(), String>)
    requires
        parsed.well_formed(),
        node < parsed@.rows.len(),
    ensures
        with_constant(old(module)@, parsed@, node as int, text_view(docs)) == outcome_view(
            result,
            final(module)@,
        ),
{
    let at = match parsed.tree.child_with_field(node, "name") {
        Some(at) => at,
        None => return Err("constant without a name".to_owned()),
    };
    let name = match parsed.node_text(at) {
        Ok(name) => name,
        Err(message) => return Err(message),
    };
    let hover = render_definition_block(
        "const",
        &join3(&module.path, "::", &name),
        &None,
        &docs,
    );
    let exported = parsed.tree.child_with_field(node, "visibility").is_some()
        && !module.context.executable;
    push_item(
        module,
        ItemKind::Constant,
        SymbolKind::Constant,
        name,
        hover,
        None,
        parsed.node_range(at),
        exported,
        false,
        parsed.node_range(node),
    );
    record_nested_references(module, node, parsed, false);
    Ok(())
}

/// Adds the type at `node`.
pub fn parse_type_definition(
    module: &mut ModuleAnalysis,
    node: usize,
    parsed: &ParsedFile,
    docs: Option<String>,
    is_enum: bool,
) -> (result: Result<(), String>)
    requires
        parsed.well_formed(),
        node < parsed@.rows.len(),
    ensures
        with_type(old(module)@, parsed@, node as int, text_view(docs), is_enum) == outcome_view(
            result,
            final(module)@,
        ),
{
    let at = match parsed.tree.child_with_field(node, "name") {
        Some(at) => at,
        None => return Err("type definition without a name".to_owned()),
    };
    let name = match parsed.node_text(at) {
        Ok(name) => name,
        Err(message) => return Err(message),
    };
    let keyword = if is_enum {
        "enum"
    } else {
        "type"
    };
    let hover = render_definition_block(
        keyword,
        &join3(&module.path, "::", &name),
        &None,
        &docs,
    );
    let exported = parsed.tree.child_with_field(node, "visibility").is_some()
        && !module.context.executable;
    push_item(
        module,
        ItemKind::Type,
        SymbolKind::Class,
        name,
        hover,
        None,
        parsed.node_range(at),
        exported,
        false,
        parsed.node_range(node),
    );
    record_nested_references(module, node, parsed, true);
    Ok(())
}

/// The name of the procedure at `node`, and where it stands.
fn find_procedure_name(parsed: &ParsedFile, node: usize, entrypoint: bool) -> (result: Result<
    (String, Range),
    String,
>)
    requires
        parsed.well_formed(),
        node < parsed@.rows.len(),
    ensures
        match result {
            Ok((name, range)) => procedure_name(parsed@, node as int, entrypoint) == Ok::<
                (Seq<char>, Range),
                Seq<char>,
            >((name@, range)),
            Err(message) => procedure_name(parsed@, node as int, entrypoint) == Err::<
                (Seq<char>, Range),
                Seq<char>,
            >(message@),
        },
{
    if entrypoint {
        let row = &parsed.tree.rows[node];
        assert(parsed@.rows[node as int] == row@);
        let start = row.range.start;
        let end = if row.range.end - start > 5 {
            start + 5
        } else {
            row.range.end
        };
        let range = byte_range_to_lsp_range(&parsed.text, &parsed.line_offsets, start, end);
        return Ok((main_procedure_name(), range));
    }
    let field = match parsed.tree.child_with_field(node, "name") {
        Some(field) => field,
        None => return Err("procedure without a name".to_owned()),
    };
    let at = match parsed.first_named_child(field) {
        Some(child) => child,
        None => field,
    };
    match parsed.node_text(at) {
        Ok(name) => Ok((name, parsed.node_range(at))),
        Err(message) => Err(message),
    }
}

/// Adds the procedure at `node`.
pub fn parse_procedure(
    module: &mut ModuleAnalysis,
    node: usize,
    parsed: &ParsedFile,
    docs: Option<String>,
    entrypoint: bool,
) -> (result: Result<(), String>)
    requires
        parsed.well_formed(),
        node < parsed@.rows.len(),
    ensures
        with_procedure(old(module)@, parsed@, node as int, text_view(docs), entrypoint)
            == outcome_view(result, final(module)@),
{
    let (name, selection_range) = match find_procedure_name(parsed, node, entrypoint) {
        Ok(found) => found,
        Err(message) => return Err(message),
    };
    let signature_node = parsed.tree.child_with_field(node, "signature");
    let signature = match signature_node {
        Some(at) => match parsed.node_text(at) {
            Ok(text) => Some(text),
            Err(message) => return Err(message),
        },
        None => None,
    };
    let hover = render_definition_block(
        "proc",
        &join3(&module.path, "::", &name),
        &signature,
        &docs,
    );
    let exported = !entrypoint && parsed.tree.child_with_field(node, "visibility").is_some()
        && !module.context.executable;
    push_item(
        module,
        ItemKind::Procedure,
        SymbolKind::Function,
        name,
        hover,
        signature,
        selection_range,
        exported,
        entrypoint,
        parsed.node_range(node),
    );
    let ghost entered = module@;
    assert(entered.raw + Seq::<Occurrence>::empty() =~= entered.raw);
    if let Some(at) = signature_node {
        record_nested_references(module, at, parsed, true);
    }
    let ghost middle = module@;
    assert(middle.raw + Seq::<Occurrence>::empty() =~= middle.raw);
    if let Some(at) = parsed.tree.child_with_field(node, "body") {
        record_body_references(module, at, parsed);
    }
    proof {
        let all = procedure_references(parsed@, node as int);
        assert(module@.raw =~= entered.raw + all);
        assert(module@ == with_raw(entered, all));
    }
    Ok(())
}

/// Adds what stands at `node`.
fn read_node(
    module: &mut ModuleAnalysis,
    pending_docs: &mut Vec<String>,
    node: usize,
    parsed: &ParsedFile,
) -> (result: Result<(), String>)
    requires
        parsed.well_formed(),
        node < parsed@.rows.len(),
    ensures
        with_node(
            Reading { module: old(module)@, pending: texts(old(pending_docs)@) },
            parsed@,
            node as int,
        ) == match result {
            Ok(_) => Ok::<Reading, Seq<char>>(
                Reading { module: final(module)@, pending: texts(final(pending_docs)@) },
            ),
            Err(message) => Err::<Reading, Seq<char>>(message@),
        },
{
    let kind = &parsed.tree.rows[node].kind;
    assert(parsed@.rows[node as int].kind == kind@);
    let ghost pending = texts(pending_docs@);
    if same_text(kind, "doc_comment") {
        return match parsed.node_text(node) {
            Ok(text) => {
                let line = trim(&text);
                pending_docs.push(line);
                assert(texts(pending_docs@) =~= pending.push(line@));
                Ok(())
            },
            Err(message) => Err(message),
        };
    }
    let docs = take_docs(pending_docs);
    assert(texts(pending_docs@) =~= Seq::<Seq<char>>::empty());
    if same_text(kind, "import") {
        parse_import(module, node, parsed)
    } else if same_text(kind, "constant") {
        parse_constant(module, node, parsed, docs)
    } else if same_text(kind, "type_alias") || same_text(kind, "enum_declaration") {
        let is_enum = same_text(kind, "enum_declaration");
        parse_type_definition(module, node, parsed, docs, is_enum)
    } else if same_text(kind, "procedure") {
        parse_procedure(module, node, parsed, docs, false)
    } else if same_text(kind, "entrypoint") {
        parse_procedure(module, node, parsed, docs, true)
    } else {
        Ok(())
    }
}

/// A module of which nothing has been read.
fn start_module(target: &TargetContext, file_path: &str, path: String, priority: usize) -> (module:
    ModuleAnalysis)
    ensures
        module@ == empty_module(target@, file_path@, path@, priority),
{
    let context = ContextKey {
        package: target.package_name.clone(),
        target: target.target.clone(),
        executable: target.executable,
    };
    let item = Definition {
        context: context.copy(),
        path: path.clone(),
        module: path.clone(),
        name: last_path_segment(&path),
        kind: ItemKind::Module,
        symbol_kind: SymbolKind::Module,
        hover: join3("```masm\nmodule ", &path, "\n```"),
        signature: None,
        stack_signature: None,
        location: Some(
            DefinitionLocation::Source {
                path: file_path.to_owned(),
                normal: file_path.to_owned(),
                selection_range: start_of_file(),
            },
        ),
        editable: target.editable,
        exported: !target.executable,
        entrypoint: false,
        renamable: false,
        visible_outside_context: !target.executable,
        selection_range: start_of_file(),
    };
    let module = ModuleAnalysis {
        context,
        file_path: file_path.to_owned(),
        path,
        priority,
        editable: target.editable,
        local_names: Vec::new(),
        imports: Vec::new(),
        definitions: vec![item],
        raw_occurrences: Vec::new(),
        resolved_occurrences: Vec::new(),
        document_symbols: Vec::new(),
    };
    proof {
        let empty = empty_module(target@, file_path@, path@, priority);
        assert(module@.names =~= empty.names);
        assert(module@.imports =~= empty.imports);
        assert(module@.definitions[0] == empty.definitions[0]);
        assert(module@.definitions =~= empty.definitions);
        assert(module@.raw =~= empty.raw);
        assert(module@.resolved =~= empty.resolved);
        assert(module@.symbols =~= empty.symbols);
    }
    module
}

/// The module that a file of a target holds.
pub fn analyze_source_module(
    target: &TargetContext,
    file_path: &str,
    priority: usize,
    parsed: &ParsedFile,
) -> (result: Result<ModuleAnalysis, String>)
    requires
        parsed.well_formed(),
    ensures
        match result {
            Ok(module) => source_module(target@, file_path@, priority, parsed@) == Ok::<
                ModuleModel,
                Seq<char>,
            >(module@),
            Err(message) => source_module(target@, file_path@, priority, parsed@) == Err::<
                ModuleModel,
                Seq<char>,
            >(message@),
        },
{
    let path = match module_path_for_file(
        &target.root_file,
        &target.root_dir,
        &target.namespace,
        file_path,
    ) {
        Ok(path) => path,
        Err(message) => return Err(message),
    };
    let mut module = start_module(target, file_path, path, priority);
    let mut pending_docs: Vec<String> = Vec::new();
    let children = parsed.tree.named_children_of(0);
    let ghost nodes = ints(children@);
    let ghost start = Reading { module: module@, pending: Seq::empty() };
    let mut i: usize = 0;
    proof {
        assert(texts(pending_docs@) =~= Seq::<Seq<char>>::empty());
        assert(nodes.take(0) =~= Seq::<int>::empty());
    }
    while i < children.len()
        invariant
            i <= children.len(),
            parsed.well_formed(),
            nodes == ints(children@),
            nodes == named_children(parsed@.rows, 0),
            forall|k: int|
                0 <= k < children@.len() ==> 0 < #[trigger] children@[k] < parsed@.rows.len(),
            with_nodes(start, parsed@, nodes.take(i as int)) == Ok::<Reading, Seq<char>>(
                Reading { module: module@, pending: texts(pending_docs@) },
            ),
            start == (Reading {
                module: empty_module(target@, file_path@, path@, priority),
                pending: Seq::empty(),
            }),
            module_of_file(
                target@.root_file,
                target@.root_dir,
                target@.namespace,
                file_path@,
            ) == Ok::<Seq<char>, Seq<char>>(path@),
        decreases children.len() - i,
    {
        proof {
            assert(nodes.take(i + 1).drop_last() =~= nodes.take(i as int));
            assert(nodes.take(i + 1).last() == children@[i as int] as int);
            lemma_failure_stays(start, parsed@, nodes, i as int);
        }
        if let Err(message) = read_node(&mut module, &mut pending_docs, children[i], parsed) {
            return Err(message);
        }
        i = i + 1;
    }
    assert(nodes.take(i as int) =~= nodes);
    Ok(module)
}

/// What fails at one node fails as a whole.
proof fn lemma_failure_stays(reading: Reading, parsed: ParsedText, nodes: Seq<int>, at: int)
    requires
        0 <= at < nodes.len(),
    ensures
        with_nodes(reading, parsed, nodes.take(at + 1)) is Err ==> with_nodes(
            reading,
            parsed,
            nodes,
        ) == with_nodes(reading, parsed, nodes.take(at + 1)),
    decreases nodes.len(),
{
    if at + 1 == nodes.len() {
        assert(nodes.take(at + 1) =~= nodes);
    } else {
        lemma_failure_stays(reading, parsed, nodes.drop_last(), at);
        assert(nodes.drop_last().take(at + 1) =~= nodes.take(at + 1));
    }
}

/// What holds of every item of a source module: it belongs to the module's context and file, only
/// items of libraries can be seen from outside, only items other than modules and entrypoints can be
/// renamed, and only where the module can be edited; modules are shown as modules.
pub open spec fn is_sound_item(item: Def, target: TargetModel, file: Seq<char>, path: Seq<char>) -> bool {
    &&& item.context == target.context
    &&& item.module == path
    &&& item.editable == target.editable
    &&& item.visible_outside_context == item.exported
    &&& item.exported ==> !target.context.executable
    &&& item.renamable == (target.editable && !item.entrypoint && !(item.kind is Module))
    &&& (item.symbol_kind is Module) == (item.kind is Module)
    &&& item.location == Some(
        Place::Source { path: file, normal: file, selection_range: item.selection_range },
    )
}

/// Whether all items of a module are sound, and the module knows its target and its file.
pub open spec fn is_sound(module: ModuleModel, target: TargetModel, file: Seq<char>, path: Seq<char>) -> bool {
    &&& module.context == target.context
    &&& module.file == file
    &&& module.path == path
    &&& module.editable == target.editable
    &&& forall|i: int|
        0 <= i < module.definitions.len() ==> is_sound_item(
            #[trigger] module.definitions[i],
            target,
            file,
            path,
        )
}

/// Whether a module has the items of another and at most one more, which is sound.
spec fn adds_sound_item(
    before: ModuleModel,
    after: ModuleModel,
    target: TargetModel,
    file: Seq<char>,
    path: Seq<char>,
) -> bool {
    &&& after.context == before.context && after.file == before.file && after.path == before.path
        && after.editable == before.editable
    &&& after.definitions == before.definitions || (after.definitions.len() == before.definitions.len()
        + 1 && after.definitions.drop_last() == before.definitions && is_sound_item(
        after.definitions.last(),
        target,
        file,
        path,
    ))
}

proof fn lemma_items_are_sound(
    module: ModuleModel,
    parsed: ParsedText,
    node: int,
    docs: Option<Seq<char>>,
    flag: bool,
    target: TargetModel,
    file: Seq<char>,
    path: Seq<char>,
)
    requires
        is_sound(module, target, file, path),
    ensures
        match with_import(module, parsed, node) {
            Ok(after) => adds_sound_item(module, after, target, file, path),
            Err(_) => true,
        },
        match with_constant(module, parsed, node, docs) {
            Ok(after) => adds_sound_item(module, after, target, file, path),
            Err(_) => true,
        },
        match with_type(module, parsed, node, docs, flag) {
            Ok(after) => adds_sound_item(module, after, target, file, path),
            Err(_) => true,
        },
        match with_procedure(module, parsed, node, docs, flag) {
            Ok(after) => adds_sound_item(module, after, target, file, path),
            Err(_) => true,
        },
{
    if let Ok(after) = with_constant(module, parsed, node, docs) {
        assert(after.definitions.drop_last() =~= module.definitions);
    }
    if let Ok(after) = with_type(module, parsed, node, docs, flag) {
        assert(after.definitions.drop_last() =~= module.definitions);
    }
    if let Ok(after) = with_procedure(module, parsed, node, docs, flag) {
        assert(after.definitions.drop_last() =~= module.definitions);
    }
}

proof fn lemma_still_sound(
    before: ModuleModel,
    after: ModuleModel,
    target: TargetModel,
    file: Seq<char>,
    path: Seq<char>,
)
    requires
        is_sound(before, target, file, path),
        adds_sound_item(before, after, target, file, path),
    ensures
        is_sound(after, target, file, path),
{
    assert forall|i: int| 0 <= i < after.definitions.len() implies is_sound_item(
        #[trigger] after.definitions[i],
        target,
        file,
        path,
    ) by {
        if i < before.definitions.len() {
            assert(after.definitions[i] == before.definitions[i]) by {
                if after.definitions != before.definitions {
                    assert(after.definitions.drop_last()[i] == after.definitions[i]);
                }
            }
        }
    }
}

proof fn lemma_nodes_sound(
    reading: Reading,
    parsed: ParsedText,
    nodes: Seq<int>,
    target: TargetModel,
    file: Seq<char>,
    path: Seq<char>,
)
    requires
        is_sound(reading.module, target, file, path),
        with_nodes(reading, parsed, nodes) is Ok,
    ensures
        is_sound(with_nodes(reading, parsed, nodes)->Ok_0.module, target, file, path),
    decreases nodes.len(),
{
    if nodes.len() > 0 {
        lemma_nodes_sound(reading, parsed, nodes.drop_last(), target, file, path);
        let before = with_nodes(reading, parsed, nodes.drop_last())->Ok_0;
        let after = with_nodes(reading, parsed, nodes)->Ok_0.module;
        let docs = docs_of(before.pending);
        let node = nodes.last();
        lemma_items_are_sound(before.module, parsed, node, docs, true, target, file, path);
        lemma_items_are_sound(before.module, parsed, node, docs, false, target, file, path);
        lemma_still_sound(before.module, after, target, file, path);
    }
}

/// Every item of a source module belongs to its context and file; programs export nothing; modules
/// and entrypoints cannot be renamed, nor anything in a module that cannot be edited.
pub proof fn law_items_of_a_module(
    target: TargetModel,
    file: Seq<char>,
    priority: usize,
    parsed: ParsedText,
)
    requires
        source_module(target, file, priority, parsed) is Ok,
    ensures
        ({
            let module = source_module(target, file, priority, parsed)->Ok_0;
            is_sound(module, target, file, module.path)
        }),
{
    let path = module_of_file(
        target.root_file,
        target.root_dir,
        target.namespace,
        file,
    )->Ok_0;
    let start = Reading {
        module: empty_module(target, file, path, priority),
        pending: Seq::empty(),
    };
    lemma_nodes_sound(
        start,
        parsed,
        named_children(parsed.rows, 0),
        target,
        file,
        path,
    );
}

} // verus!
