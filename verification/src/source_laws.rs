//! What a file declares, imports and refers to: the laws of source modules.
use vstd::prelude::*;
use crate::masm_path::path_of_text;
use crate::meaning::{lemma_picks, picks};
use crate::model::{Alias, Def, ModuleModel, Occurrence, Place, Symbol};
use crate::parsed::ParsedText;
use crate::position::{position_at, Range};
use crate::snapshot_laws::{lemma_join_contains, lemma_push_contains};
use crate::source_module::{body_references, definition_block, docs_of, empty_module, import_name,
    import_references, nested_references, procedure_references, source_module, with_constant,
    with_import, with_node, with_nodes, with_procedure, with_type, Reading, TargetModel};
use crate::source_path::module_of_file;
use crate::stack_effect::ReferenceKind;
use crate::syntax::{named_children, walk_order, Stop};
use crate::words::{joined_lines, last_segment, trimmed, unquoted_end, unquoted_start};

verus! {

/// Whether a node of this kind declares an item.
pub open spec fn declares_item(kind: Seq<char>) -> bool {
    kind == "constant"@ || kind == "type_alias"@ || kind == "enum_declaration"@ || kind
        == "procedure"@ || kind == "entrypoint"@
}

/// The nodes of a list that declare items.
pub open spec fn declaring(parsed: ParsedText, nodes: Seq<int>) -> spec_fn(int) -> bool {
    |i: int| declares_item(parsed.rows[nodes[i]].kind)
}

/// The nodes of a list that are imports.
pub open spec fn importing(parsed: ParsedText, nodes: Seq<int>) -> spec_fn(int) -> bool {
    |i: int| parsed.rows[nodes[i]].kind == "import"@
}

/// Whether a node has a name at a range: what fills its field, or the first part of that where a
/// procedure's name has parts; an entrypoint has a fixed name, at its first keyword.
pub open spec fn is_named_as(
    parsed: ParsedText,
    node: int,
    name: Seq<char>,
    range: Range,
) -> bool {
    let kind = parsed.rows[node].kind;
    if kind == "entrypoint"@ {
        &&& name == "$main"@
        &&& range.start == position_at(parsed.bytes(), parsed.rows[node].start)
        &&& range.end == position_at(
            parsed.bytes(),
            if parsed.rows[node].start + 5 < parsed.rows[node].end {
                parsed.rows[node].start + 5
            } else {
                parsed.rows[node].end
            },
        )
    } else {
        match parsed.field(node, "name"@) {
            None => false,
            Some(at) => {
                let inner = named_children(parsed.rows, at);
                let place = if kind == "procedure"@ && inner.len() > 0 {
                    inner[0]
                } else {
                    at
                };
                parsed.node_text(place) == Ok::<Seq<char>, Seq<char>>(name) && range
                    == parsed.node_range(place)
            },
        }
    }
}

/// Whether a text is the documentation in front of a node: the lines of the comments right before it,
/// or none.
pub open spec fn is_documented(
    parsed: ParsedText,
    nodes: Seq<int>,
    at: int,
    docs: Option<Seq<char>>,
) -> bool {
    exists|first: int| #[trigger] documented_from(parsed, nodes, first, at, docs)
}

/// Whether the comments from one node up to another are all that stand right before it, and make up a
/// text.
pub open spec fn documented_from(
    parsed: ParsedText,
    nodes: Seq<int>,
    first: int,
    at: int,
    docs: Option<Seq<char>>,
) -> bool {
    &&& 0 <= first <= at
    &&& forall|i: int| first <= i < at ==> parsed.rows[#[trigger] nodes[i]].kind == "doc_comment"@
    &&& first > 0 ==> parsed.rows[nodes[first - 1]].kind != "doc_comment"@
    &&& exists|lines: Seq<Seq<char>>|
        {
            &&& lines.len() == at - first
            &&& forall|k: int|
                0 <= k < lines.len() ==> is_line_of(parsed, nodes[first + k], #[trigger] lines[k])
            &&& docs == if lines.len() == 0 {
                None
            } else {
                Some(joined_lines(lines))
            }
        }
}

/// Whether a line is what a comment says.
pub open spec fn is_line_of(parsed: ParsedText, node: int, line: Seq<char>) -> bool {
    parsed.node_text(node) is Ok && line == trimmed(parsed.node_text(node)->Ok_0)
}

/// The word that a declaration is shown with.
pub open spec fn keyword_of(kind: Seq<char>) -> Seq<char> {
    if kind == "constant"@ {
        "const"@
    } else if kind == "type_alias"@ {
        "type"@
    } else if kind == "enum_declaration"@ {
        "enum"@
    } else {
        "proc"@
    }
}

/// Whether a text is the signature that is written at a node.
pub open spec fn is_signature_of(parsed: ParsedText, node: int, signature: Option<Seq<char>>) -> bool {
    let kind = parsed.rows[node].kind;
    if kind == "procedure"@ || kind == "entrypoint"@ {
        match parsed.field(node, "signature"@) {
            Some(at) => parsed.node_text(at) is Ok && signature == Some(parsed.node_text(at)->Ok_0),
            None => signature is None,
        }
    } else {
        signature is None
    }
}

/// Whether an item is what a node of a module's file declares.
pub open spec fn is_declared_at(
    module: ModuleModel,
    parsed: ParsedText,
    nodes: Seq<int>,
    at: int,
    item: Def,
) -> bool {
    let node = nodes[at];
    let kind = parsed.rows[node].kind;
    &&& is_named_as(parsed, node, item.name, item.selection_range)
    &&& item.context == module.context
    &&& item.module == module.path
    &&& item.path == module.path + "::"@ + item.name
    &&& item.kind is Constant <==> kind == "constant"@
    &&& item.kind is Type <==> kind == "type_alias"@ || kind == "enum_declaration"@
    &&& item.kind is Procedure <==> kind == "procedure"@ || kind == "entrypoint"@
    &&& item.symbol_kind is Constant <==> kind == "constant"@
    &&& item.symbol_kind is Class <==> kind == "type_alias"@ || kind == "enum_declaration"@
    &&& item.symbol_kind is Function <==> kind == "procedure"@ || kind == "entrypoint"@
    &&& item.entrypoint <==> kind == "entrypoint"@
    &&& item.exported <==> kind != "entrypoint"@ && parsed.field(node, "visibility"@) is Some
        && !module.context.executable
    &&& item.visible_outside_context == item.exported
    &&& item.editable == module.editable
    &&& item.renamable <==> module.editable && kind != "entrypoint"@
    &&& is_signature_of(parsed, node, item.signature)
    &&& item.stack_signature is None
    &&& item.location == Some(
        Place::Source {
            path: module.file,
            normal: module.file,
            selection_range: item.selection_range,
        },
    )
    &&& exists|docs: Option<Seq<char>>|
        #[trigger] is_documented(parsed, nodes, at, docs) && item.hover == definition_block(
            keyword_of(kind),
            item.path,
            item.signature,
            docs,
        )
}

/// Whether an entry of the outline shows the item that a node declares.
pub open spec fn is_outlined(parsed: ParsedText, node: int, item: Def, symbol: Symbol) -> bool {
    &&& symbol.name == item.name
    &&& symbol.detail == item.signature
    &&& symbol.kind == item.symbol_kind
    &&& symbol.range.start == position_at(parsed.bytes(), parsed.rows[node].start)
    &&& symbol.range.end == position_at(parsed.bytes(), parsed.rows[node].end)
    &&& symbol.selection_range == item.selection_range
}

/// Whether an entry is what an import node imports, under its alias, or else under the last part of
/// its path.
pub open spec fn is_imported_at(
    parsed: ParsedText,
    node: int,
    entry: (Seq<char>, Alias),
) -> bool {
    match parsed.field(node, "target"@) {
        None => false,
        Some(at) => {
            &&& parsed.node_text(at) is Ok
            &&& {
                let target = trimmed(parsed.node_text(at)->Ok_0);
                &&& match parsed.field(node, "alias"@) {
                    Some(alias) => match parsed.field(alias, "name"@) {
                        Some(name) => parsed.node_text(name) == Ok::<Seq<char>, Seq<char>>(entry.0),
                        None => false,
                    },
                    None => entry.0 == unquoted_end(unquoted_start(last_segment(target))),
                }
                &&& match entry.1 {
                    Alias::MastRoot => parsed.rows[at].kind == "mast_root"@,
                    Alias::Path(path) => parsed.rows[at].kind != "mast_root"@ && path_of_text(target)
                        == Ok::<Seq<char>, Seq<char>>(path),
                }
            }
        },
    }
}

proof fn lemma_documented(
    parsed: ParsedText,
    nodes: Seq<int>,
    first: int,
    at: int,
    lines: Seq<Seq<char>>,
)
    requires
        waits(parsed, nodes, first, at, lines),
    ensures
        is_documented(parsed, nodes, at, docs_of(lines)),
{
    assert(documented_from(parsed, nodes, first, at, docs_of(lines)));
}

/// Whether lines of documentation wait for the node at `at`.
spec fn waits(
    parsed: ParsedText,
    nodes: Seq<int>,
    first: int,
    at: int,
    lines: Seq<Seq<char>>,
) -> bool {
    &&& 0 <= first <= at
    &&& forall|i: int| first <= i < at ==> parsed.rows[#[trigger] nodes[i]].kind == "doc_comment"@
    &&& first > 0 ==> parsed.rows[nodes[first - 1]].kind != "doc_comment"@
    &&& lines.len() == at - first
    &&& forall|k: int|
        0 <= k < lines.len() ==> is_line_of(parsed, nodes[first + k], #[trigger] lines[k])
}

/// Whether what has been read of a module is what its first nodes declare and import.
spec fn is_read(
    start: ModuleModel,
    module: ModuleModel,
    parsed: ParsedText,
    nodes: Seq<int>,
    count: int,
    items: Seq<int>,
    imports: Seq<int>,
) -> bool {
    &&& picks(items, count, declaring(parsed, nodes))
    &&& picks(imports, count, importing(parsed, nodes))
    &&& module.context == start.context && module.file == start.file && module.path == start.path
        && module.editable == start.editable && module.priority == start.priority
        && module.resolved == start.resolved
    &&& module.definitions.len() == items.len() + 1
    &&& module.definitions[0] == start.definitions[0]
    &&& module.names.len() == items.len()
    &&& module.symbols.len() == items.len()
    &&& forall|k: int|
        0 <= k < items.len() ==> {
            let item = module.definitions[k + 1];
            &&& is_declared_at(module, parsed, nodes, #[trigger] items[k], item)
            &&& is_outlined(parsed, nodes[items[k]], item, module.symbols[k])
            &&& module.names[k] == (item.name, item.path)
        }
    &&& module.imports.len() == imports.len()
    &&& forall|k: int|
        0 <= k < imports.len() ==> is_imported_at(
            parsed,
            nodes[#[trigger] imports[k]],
            module.imports[k],
        )
}

proof fn lemma_kinds()
    ensures
        !declares_item("import"@),
        !declares_item("doc_comment"@),
        "import"@ != "doc_comment"@,
        "constant"@ != "entrypoint"@,
        "constant"@ != "procedure"@,
        "constant"@ != "type_alias"@,
        "constant"@ != "enum_declaration"@,
        "type_alias"@ != "entrypoint"@,
        "type_alias"@ != "procedure"@,
        "type_alias"@ != "enum_declaration"@,
        "enum_declaration"@ != "entrypoint"@,
        "enum_declaration"@ != "procedure"@,
        "procedure"@ != "entrypoint"@,
{
    reveal_strlit("import");
    reveal_strlit("doc_comment");
    reveal_strlit("constant");
    reveal_strlit("entrypoint");
    reveal_strlit("procedure");
    reveal_strlit("type_alias");
    reveal_strlit("enum_declaration");
    assert("import"@.len() == 6);
    assert("doc_comment"@.len() == 11);
    assert("constant"@.len() == 8);
    assert("entrypoint"@.len() == 10);
    assert("procedure"@.len() == 9);
    assert("type_alias"@.len() == 10);
    assert("enum_declaration"@.len() == 16);
    assert("entrypoint"@[0] == 'e');
    assert("type_alias"@[0] == 't');
}

/// What one declaration adds to a module.
proof fn lemma_declaration(
    module: ModuleModel,
    after: ModuleModel,
    parsed: ParsedText,
    nodes: Seq<int>,
    at: int,
    docs: Option<Seq<char>>,
)
    requires
        declares_item(parsed.rows[nodes[at]].kind),
        is_documented(parsed, nodes, at, docs),
        ({
            let kind = parsed.rows[nodes[at]].kind;
            let next = if kind == "constant"@ {
                with_constant(module, parsed, nodes[at], docs)
            } else if kind == "type_alias"@ || kind == "enum_declaration"@ {
                with_type(module, parsed, nodes[at], docs, kind == "enum_declaration"@)
            } else if kind == "procedure"@ {
                with_procedure(module, parsed, nodes[at], docs, false)
            } else {
                with_procedure(module, parsed, nodes[at], docs, true)
            };
            next == Ok::<ModuleModel, Seq<char>>(after)
        }),
    ensures
        after.context == module.context && after.file == module.file && after.path == module.path
            && after.editable == module.editable && after.priority == module.priority
            && after.resolved == module.resolved && after.imports == module.imports,
        after.definitions.len() == module.definitions.len() + 1,
        after.definitions.drop_last() == module.definitions,
        is_declared_at(module, parsed, nodes, at, after.definitions.last()),
        after.symbols.len() == module.symbols.len() + 1,
        after.symbols.drop_last() == module.symbols,
        is_outlined(parsed, nodes[at], after.definitions.last(), after.symbols.last()),
        after.names == module.names.push(
            (after.definitions.last().name, after.definitions.last().path),
        ),
{
    lemma_kinds();
    assert(after.definitions.drop_last() =~= module.definitions);
    assert(after.symbols.drop_last() =~= module.symbols);
    assert(is_documented(parsed, nodes, at, docs));
}

#[verifier::rlimit(30)]
proof fn lemma_read(
    start: Reading,
    parsed: ParsedText,
    nodes: Seq<int>,
    count: nat,
) -> (found: (Seq<int>, Seq<int>, int))
    requires
        count <= nodes.len(),
        start.pending.len() == 0,
        start.module.definitions.len() == 1,
        start.module.names.len() == 0,
        start.module.symbols.len() == 0,
        start.module.imports.len() == 0,
        with_nodes(start, parsed, nodes.take(count as int)) is Ok,
    ensures
        ({
            let reading = with_nodes(start, parsed, nodes.take(count as int))->Ok_0;
            &&& is_read(
                start.module,
                reading.module,
                parsed,
                nodes,
                count as int,
                found.0,
                found.1,
            )
            &&& waits(parsed, nodes, found.2, count as int, reading.pending)
        }),
    decreases count,
{
    if count == 0 {
        (Seq::empty(), Seq::empty(), 0)
    } else {
        let last = count - 1;
        let part = nodes.take(count as int);
        assert(part.drop_last() =~= nodes.take(last));
        assert(part.last() == nodes[last]);
        let (items, imports, first) = lemma_read(start, parsed, nodes, last as nat);
        let before = with_nodes(start, parsed, nodes.take(last))->Ok_0;
        let reading = with_nodes(start, parsed, part)->Ok_0;
        let node = nodes[last];
        let kind = parsed.rows[node].kind;
        let docs = docs_of(before.pending);
        lemma_kinds();
        lemma_picks(items, last, declaring(parsed, nodes));
        lemma_picks(imports, last, importing(parsed, nodes));
        assert(declaring(parsed, nodes)(last) == declares_item(kind));
        assert(importing(parsed, nodes)(last) == (kind == "import"@));
        lemma_documented(parsed, nodes, first, last, before.pending);
        if kind == "doc_comment"@ {
            assert(waits(parsed, nodes, first, count as int, reading.pending));
            (items, imports, first)
        } else if kind == "import"@ {
            let after = reading.module;
            let more = imports.push(last);
            assert(is_imported_at(parsed, node, after.imports.last()));
            assert(after.imports.drop_last() =~= before.module.imports);
            assert forall|k: int| 0 <= k < more.len() implies is_imported_at(
                parsed,
                nodes[#[trigger] more[k]],
                after.imports[k],
            ) by {
                if k < imports.len() {
                    assert(more[k] == imports[k]);
                    assert(after.imports[k] == before.module.imports[k]);
                }
            }
            assert forall|k: int| 0 <= k < items.len() implies {
                let item = after.definitions[k + 1];
                &&& is_declared_at(after, parsed, nodes, #[trigger] items[k], item)
                &&& is_outlined(parsed, nodes[items[k]], item, after.symbols[k])
                &&& after.names[k] == (item.name, item.path)
            } by {
                assert(is_declared_at(
                    before.module,
                    parsed,
                    nodes,
                    items[k],
                    before.module.definitions[k + 1],
                ));
            }
            assert(waits(parsed, nodes, count as int, count as int, reading.pending));
            (items, more, count as int)
        } else if declares_item(kind) {
            let after = reading.module;
            let more = items.push(last);
            lemma_declaration(before.module, after, parsed, nodes, last, docs);
            assert forall|k: int| 0 <= k < more.len() implies {
                let item = after.definitions[k + 1];
                &&& is_declared_at(after, parsed, nodes, #[trigger] more[k], item)
                &&& is_outlined(parsed, nodes[more[k]], item, after.symbols[k])
                &&& after.names[k] == (item.name, item.path)
            } by {
                if k < items.len() {
                    assert(more[k] == items[k]);
                    assert(after.definitions.drop_last()[k + 1] == before.module.definitions[k + 1]);
                    assert(after.symbols.drop_last()[k] == before.module.symbols[k]);
                    assert(after.names[k] == before.module.names[k]);
                    assert(is_declared_at(
                        before.module,
                        parsed,
                        nodes,
                        items[k],
                        before.module.definitions[k + 1],
                    ));
                }
            }
            assert(after.definitions.drop_last()[0] == before.module.definitions[0]);
            assert(waits(parsed, nodes, count as int, count as int, reading.pending));
            (more, imports, count as int)
        } else {
            assert(reading.module == before.module);
            assert(waits(parsed, nodes, count as int, count as int, reading.pending));
            (items, imports, count as int)
        }
    }
}

/// A source module declares itself and, in their order, what the nodes at the top of its file declare:
/// each item with its name, its range, its signature and the comments in front of it. The outline lists
/// the same items, and so do the module's names. It imports what the import nodes import, in their
/// order.
pub proof fn law_source_module(
    target: TargetModel,
    file: Seq<char>,
    priority: usize,
    parsed: ParsedText,
)
    requires
        source_module(target, file, priority, parsed) is Ok,
    ensures
        ({
            let module = source_module(target, file, priority, parsed)->Ok_0;
            let nodes = named_children(parsed.rows, 0);
            &&& module.context == target.context
            &&& module.file == file
            &&& module_of_file(target.root_file, target.root_dir, target.namespace, file)
                == Ok::<Seq<char>, Seq<char>>(module.path)
            &&& module.priority == priority
            &&& module.editable == target.editable
            &&& module.resolved.len() == 0
            &&& exists|items: Seq<int>|
                {
                    &&& #[trigger] picks(items, nodes.len() as int, declaring(parsed, nodes))
                    &&& module.definitions.len() == items.len() + 1
                    &&& module.names.len() == items.len()
                    &&& module.symbols.len() == items.len()
                    &&& forall|k: int|
                        0 <= k < items.len() ==> {
                            let item = module.definitions[k + 1];
                            &&& is_declared_at(module, parsed, nodes, #[trigger] items[k], item)
                            &&& is_outlined(parsed, nodes[items[k]], item, module.symbols[k])
                            &&& module.names[k] == (item.name, item.path)
                        }
                }
            &&& exists|imports: Seq<int>|
                {
                    &&& #[trigger] picks(imports, nodes.len() as int, importing(parsed, nodes))
                    &&& module.imports.len() == imports.len()
                    &&& forall|k: int|
                        0 <= k < imports.len() ==> is_imported_at(
                            parsed,
                            nodes[#[trigger] imports[k]],
                            module.imports[k],
                        )
                }
            &&& is_module_item(module, module.definitions[0])
        }),
{
    let path = module_of_file(
        target.root_file,
        target.root_dir,
        target.namespace,
        file,
    )->Ok_0;
    let start = Reading {
        module: empty_module(target, file, path, priority),
        pending: Seq::empty(),
    };
    let nodes = named_children(parsed.rows, 0);
    assert(nodes.take(nodes.len() as int) =~= nodes);
    let (items, imports, first) = lemma_read(start, parsed, nodes, nodes.len());
    assert(picks(items, nodes.len() as int, declaring(parsed, nodes)));
    assert(picks(imports, nodes.len() as int, importing(parsed, nodes)));
}

/// Whether an item stands for a module itself: it is named by the last part of the module's path and
/// stands at the start of its file; programs hide it, and nobody can rename it.
pub open spec fn is_module_item(module: ModuleModel, item: Def) -> bool {
    &&& item.kind is Module
    &&& item.symbol_kind is Module
    &&& item.context == module.context
    &&& item.path == module.path
    &&& item.module == module.path
    &&& item.name == last_segment(module.path)
    &&& item.selection_range == crate::meaning::at_start()
    &&& item.location == Some(
        Place::Source {
            path: module.file,
            normal: module.file,
            selection_range: crate::meaning::at_start(),
        },
    )
    &&& item.signature is None
    &&& item.stack_signature is None
    &&& item.editable == module.editable
    &&& !item.entrypoint
    &&& !item.renamable
    &&& item.exported == !module.context.executable
    &&& item.visible_outside_context == !module.context.executable
    &&& item.hover == "```masm\nmodule "@ + module.path + "\n```"@
}

/// An item is shown by its declaration in a code block; a signature stands behind its path, and its
/// documentation, where it has any, below the block.
pub proof fn law_definition_block(
    keyword: Seq<char>,
    path: Seq<char>,
    signature: Seq<char>,
    docs: Seq<char>,
)
    ensures
        definition_block(keyword, path, None, None) == "```masm\n"@ + keyword + " "@ + path
            + "\n```"@,
        definition_block(keyword, path, Some(signature), None) == "```masm\n"@ + keyword + " "@
            + path + " "@ + signature + "\n```"@,
        docs.len() > 0 ==> definition_block(keyword, path, None, Some(docs)) == definition_block(
            keyword,
            path,
            None,
            None,
        ) + "\n\n"@ + docs,
        docs.len() > 0 ==> definition_block(keyword, path, Some(signature), Some(docs))
            == definition_block(keyword, path, Some(signature), None) + "\n\n"@ + docs,
        docs.len() == 0 ==> definition_block(keyword, path, None, Some(docs)) == definition_block(
            keyword,
            path,
            None,
            None,
        ),
        docs.len() == 0 ==> definition_block(keyword, path, Some(signature), Some(docs))
            == definition_block(keyword, path, Some(signature), None),
{
}

/// Whether a node can be read: an import has a target that is a path or a hash and, where it has an
/// alias, a name; a declaration has a name; and the texts of all these are texts.
pub open spec fn can_be_read(parsed: ParsedText, node: int) -> bool {
    let kind = parsed.rows[node].kind;
    if kind == "doc_comment"@ {
        parsed.node_text(node) is Ok
    } else if kind == "import"@ {
        exists|entry: (Seq<char>, Alias)| #[trigger] is_imported_at(parsed, node, entry)
    } else if declares_item(kind) {
        &&& exists|name: Seq<char>, range: Range| #[trigger] is_named_as(parsed, node, name, range)
        &&& exists|signature: Option<Seq<char>>| #[trigger]
            is_signature_of(parsed, node, signature)
    } else {
        true
    }
}

proof fn lemma_node_read(reading: Reading, parsed: ParsedText, node: int)
    ensures
        with_node(reading, parsed, node) is Ok <==> can_be_read(parsed, node),
{
    let kind = parsed.rows[node].kind;
    let docs = docs_of(reading.pending);
    lemma_kinds();
    if kind == "import"@ {
        if let Ok(after) = with_import(reading.module, parsed, node) {
            assert(is_imported_at(parsed, node, after.imports.last()));
        }
        if can_be_read(parsed, node) {
            let entry = choose|entry: (Seq<char>, Alias)| #[trigger]
                is_imported_at(parsed, node, entry);
            assert(is_imported_at(parsed, node, entry));
        }
    } else if declares_item(kind) {
        if with_node(reading, parsed, node) is Ok {
            let after = with_node(reading, parsed, node)->Ok_0.module;
            let item = after.definitions.last();
            assert(is_named_as(parsed, node, item.name, item.selection_range));
            assert(is_signature_of(parsed, node, item.signature));
        }
        if can_be_read(parsed, node) {
            let (name, range) = choose|name: Seq<char>, range: Range| #[trigger]
                is_named_as(parsed, node, name, range);
            let signature = choose|signature: Option<Seq<char>>| #[trigger]
                is_signature_of(parsed, node, signature);
            assert(is_named_as(parsed, node, name, range));
            assert(is_signature_of(parsed, node, signature));
        }
    }
}

proof fn lemma_nodes_read(reading: Reading, parsed: ParsedText, nodes: Seq<int>)
    ensures
        with_nodes(reading, parsed, nodes) is Ok <==> forall|i: int|
            0 <= i < nodes.len() ==> can_be_read(parsed, #[trigger] nodes[i]),
    decreases nodes.len(),
{
    if nodes.len() > 0 {
        let less = nodes.drop_last();
        lemma_nodes_read(reading, parsed, less);
        assert forall|i: int| 0 <= i < less.len() implies less[i] == nodes[i] by {}
        if let Ok(before) = with_nodes(reading, parsed, less) {
            lemma_node_read(before, parsed, nodes.last());
            assert forall|i: int|
                0 <= i < nodes.len() && can_be_read(parsed, nodes.last()) implies can_be_read(
                parsed,
                #[trigger] nodes[i],
            ) by {
                if i < less.len() {
                    assert(can_be_read(parsed, less[i]));
                }
            }
            if !can_be_read(parsed, nodes.last()) {
                assert(nodes[nodes.len() - 1] == nodes.last());
            }
        } else {
            let i = choose|i: int| 0 <= i < less.len() && !can_be_read(parsed, #[trigger] less[i]);
            assert(nodes[i] == less[i]);
        }
    }
}

/// A file makes up a module exactly where its path belongs to the target and every node at its top can
/// be read.
pub proof fn law_module_is_read(
    target: TargetModel,
    file: Seq<char>,
    priority: usize,
    parsed: ParsedText,
)
    ensures
        source_module(target, file, priority, parsed) is Ok <==> {
            &&& module_of_file(target.root_file, target.root_dir, target.namespace, file) is Ok
            &&& forall|i: int|
                0 <= i < named_children(parsed.rows, 0).len() ==> can_be_read(
                    parsed,
                    #[trigger] named_children(parsed.rows, 0)[i],
                )
        },
{
    if let Ok(path) = module_of_file(target.root_file, target.root_dir, target.namespace, file) {
        let start = Reading {
            module: empty_module(target, file, path, priority),
            pending: Seq::empty(),
        };
        lemma_nodes_read(start, parsed, named_children(parsed.rows, 0));
    }
}

/// Whether a node is a reference of a kind of node, as a reference of a kind.
pub open spec fn is_reference_node(
    parsed: ParsedText,
    nodes: Seq<int>,
    node: int,
    word: Seq<char>,
    kind: ReferenceKind,
    found: Occurrence,
) -> bool {
    &&& nodes.contains(node)
    &&& parsed.rows[node].kind == word
    &&& parsed.node_text(node) == Ok::<Seq<char>, Seq<char>>(found.raw_path)
    &&& found.range == parsed.node_range(node)
    &&& found.kind == kind
}

/// Whether a reference is the path of a call among some nodes.
pub open spec fn is_call_node(
    parsed: ParsedText,
    nodes: Seq<int>,
    node: int,
    found: Occurrence,
) -> bool {
    &&& nodes.contains(node)
    &&& parsed.rows[node].kind == "invoke"@
    &&& parsed.field(node, "path"@) is Some
    &&& parsed.node_text(parsed.field(node, "path"@).unwrap()) == Ok::<Seq<char>, Seq<char>>(
        found.raw_path,
    )
    &&& found.range == parsed.node_range(parsed.field(node, "path"@).unwrap())
    &&& found.kind is Invoke
}

proof fn lemma_nested(parsed: ParsedText, nodes: Seq<int>, to_types: bool, found: Occurrence)
    ensures
        to_types ==> (nested_references(parsed, nodes, to_types).contains(found) <==> exists|node: int|
            is_reference_node(parsed, nodes, node, "path"@, ReferenceKind::Type, found)),
        !to_types ==> (nested_references(parsed, nodes, to_types).contains(found) <==> exists|
            node: int,
        |
            is_reference_node(
                parsed,
                nodes,
                node,
                "const_path"@,
                ReferenceKind::Constant,
                found,
            )),
    decreases nodes.len(),
{
    let word = if to_types {
        "path"@
    } else {
        "const_path"@
    };
    let kind = if to_types {
        ReferenceKind::Type
    } else {
        ReferenceKind::Constant
    };
    if nodes.len() > 0 {
        let less = nodes.drop_last();
        let last = nodes.last();
        lemma_nested(parsed, less, to_types, found);
        assert(less.push(last) =~= nodes);
        let before = nested_references(parsed, less, to_types);
        assert forall|node: int| #[trigger]
            is_reference_node(parsed, nodes, node, word, kind, found) <==> is_reference_node(
                parsed,
                less,
                node,
                word,
                kind,
                found,
            ) || (node == last && parsed.rows[node].kind == word && parsed.node_text(node) == Ok::<
                Seq<char>,
                Seq<char>,
            >(found.raw_path) && found.range == parsed.node_range(node) && found.kind == kind) by {
            lemma_push_contains(less, last, node);
        }
        if exists|node: int| is_reference_node(parsed, less, node, word, kind, found) {
            let node = choose|node: int| is_reference_node(parsed, less, node, word, kind, found);
            assert(is_reference_node(parsed, nodes, node, word, kind, found));
        }
        if let Ok(raw_path) = parsed.node_text(last) {
            let own = Occurrence { range: parsed.node_range(last), raw_path, kind };
            lemma_push_contains(before, own, found);
            if parsed.rows[last].kind == word && found == own {
                lemma_push_contains(less, last, last);
                assert(is_reference_node(parsed, nodes, last, word, kind, found));
            }
        }
    }
}

/// Whether a reference is one to a constant among some nodes.
pub open spec fn is_constant_node(
    parsed: ParsedText,
    nodes: Seq<int>,
    node: int,
    found: Occurrence,
) -> bool {
    ||| is_reference_node(parsed, nodes, node, "const_path"@, ReferenceKind::Constant, found)
    ||| is_reference_node(parsed, nodes, node, "const_ident"@, ReferenceKind::Constant, found)
}

/// Whether a reference in a body is a call or one to a constant.
pub open spec fn is_body_node(
    parsed: ParsedText,
    nodes: Seq<int>,
    node: int,
    found: Occurrence,
) -> bool {
    is_call_node(parsed, nodes, node, found) || is_constant_node(parsed, nodes, node, found)
}

proof fn lemma_body(parsed: ParsedText, nodes: Seq<int>, found: Occurrence)
    ensures
        body_references(parsed, nodes).contains(found) <==> exists|node: int|
            is_body_node(parsed, nodes, node, found),
    decreases nodes.len(),
{
    if nodes.len() > 0 {
        let less = nodes.drop_last();
        let last = nodes.last();
        lemma_body(parsed, less, found);
        assert(less.push(last) =~= nodes);
        reveal_strlit("invoke");
        reveal_strlit("const_path");
        reveal_strlit("const_ident");
        assert("invoke"@.len() == 6 && "const_path"@.len() == 10 && "const_ident"@.len() == 11);
        let before = body_references(parsed, less);
        let all = body_references(parsed, nodes);
        assert forall|node: int| nodes.contains(node) <==> #[trigger] less.contains(node) || node
            == last by {
            lemma_push_contains(less, last, node);
        }
        assert(nodes.contains(last)) by {
            lemma_push_contains(less, last, last);
        }
        let kind = parsed.rows[last].kind;
        let (at, reference) = if kind == "invoke"@ {
            (parsed.field(last, "path"@), ReferenceKind::Invoke)
        } else if kind == "const_path"@ || kind == "const_ident"@ {
            (Some(last), ReferenceKind::Constant)
        } else {
            (None, ReferenceKind::Constant)
        };
        if let Some(at) = at {
            if let Ok(raw_path) = parsed.node_text(at) {
                let own = Occurrence { range: parsed.node_range(at), raw_path, kind: reference };
                lemma_push_contains(before, own, found);
                if found == own {
                    assert(is_body_node(parsed, nodes, last, found));
                }
            }
        }
        if exists|node: int|
            is_body_node(parsed, less, node, found) {
            let node = choose|node: int|
                is_body_node(parsed, less, node, found);
            assert(less.contains(node));
            assert(is_body_node(parsed, nodes, node, found));
        }
        if exists|node: int|
            is_body_node(parsed, nodes, node, found) {
            let node = choose|node: int|
                is_body_node(parsed, nodes, node, found);
            if less.contains(node) {
                assert(is_body_node(parsed, less, node, found));
            } else {
                assert(node == last);
            }
        }
    }
}

/// Whether a node at the top of a file refers to something: an import to its target, and to itself
/// under its alias; a constant to constants; a type to types; and a procedure to the types in its
/// signature, and to the procedures and the constants in its body.
pub open spec fn refers_at(parsed: ParsedText, node: int, found: Occurrence) -> bool {
    let kind = parsed.rows[node].kind;
    if kind == "import"@ {
        ||| {
            &&& parsed.field(node, "target"@) is Some
            &&& parsed.node_text(parsed.field(node, "target"@).unwrap()) is Ok
            &&& found.raw_path == trimmed(
                parsed.node_text(parsed.field(node, "target"@).unwrap())->Ok_0,
            )
            &&& found.range == parsed.node_range(parsed.field(node, "target"@).unwrap())
            &&& found.kind is ImportTarget
        }
        ||| {
            &&& parsed.field(node, "alias"@) is Some
            &&& parsed.field(parsed.field(node, "alias"@).unwrap(), "name"@) is Some
            &&& parsed.node_text(
                parsed.field(parsed.field(node, "alias"@).unwrap(), "name"@).unwrap(),
            ) == Ok::<Seq<char>, Seq<char>>(found.raw_path)
            &&& found.range == parsed.node_range(
                parsed.field(parsed.field(node, "alias"@).unwrap(), "name"@).unwrap(),
            )
            &&& found.kind is ImportAlias
        }
    } else if kind == "constant"@ {
        exists|n: int|
            is_reference_node(
                parsed,
                walk_order(parsed.rows, node, Stop::Nowhere),
                n,
                "const_path"@,
                ReferenceKind::Constant,
                found,
            )
    } else if kind == "type_alias"@ || kind == "enum_declaration"@ {
        exists|n: int|
            is_reference_node(
                parsed,
                walk_order(parsed.rows, node, Stop::Nowhere),
                n,
                "path"@,
                ReferenceKind::Type,
                found,
            )
    } else if kind == "procedure"@ || kind == "entrypoint"@ {
        ||| parsed.field(node, "signature"@) is Some && exists|n: int|
            is_reference_node(
                parsed,
                walk_order(
                    parsed.rows,
                    parsed.field(node, "signature"@).unwrap(),
                    Stop::Nowhere,
                ),
                n,
                "path"@,
                ReferenceKind::Type,
                found,
            )
        ||| parsed.field(node, "body"@) is Some && exists|n: int|
            is_body_node(
                parsed,
                walk_order(
                    parsed.rows,
                    parsed.field(node, "body"@).unwrap(),
                    Stop::AtReferences,
                ),
                n,
                found,
            )
    } else {
        false
    }
}

proof fn lemma_node_refers(reading: Reading, parsed: ParsedText, node: int, found: Occurrence)
    requires
        with_node(reading, parsed, node) is Ok,
    ensures
        with_node(reading, parsed, node)->Ok_0.module.raw.contains(found)
            <==> reading.module.raw.contains(found) || refers_at(parsed, node, found),
{
    let kind = parsed.rows[node].kind;
    let before = reading.module.raw;
    let after = with_node(reading, parsed, node)->Ok_0.module.raw;
    lemma_kinds();
    if kind == "import"@ {
        let at = parsed.field(node, "target"@).unwrap();
        let target = trimmed(parsed.node_text(at)->Ok_0);
        let name = import_name(parsed, node, target)->Ok_0;
        let more = import_references(parsed, node, at, target, name);
        lemma_join_contains(before, more, found);
        let first = Occurrence {
            range: parsed.node_range(at),
            raw_path: target,
            kind: ReferenceKind::ImportTarget,
        };
        assert(seq![first].contains(found) <==> found == first) by {
            if found == first {
                assert(seq![first][0] == found);
            }
        }
        if let Some(alias) = parsed.field(node, "alias"@) {
            if let Some(place) = parsed.field(alias, "name"@) {
                lemma_push_contains(
                    seq![first],
                    Occurrence {
                        range: parsed.node_range(place),
                        raw_path: name,
                        kind: ReferenceKind::ImportAlias,
                    },
                    found,
                );
            }
        }
    } else if kind == "constant"@ {
        let nodes = walk_order(parsed.rows, node, Stop::Nowhere);
        lemma_nested(parsed, nodes, false, found);
        lemma_join_contains(before, nested_references(parsed, nodes, false), found);
    } else if kind == "type_alias"@ || kind == "enum_declaration"@ {
        let nodes = walk_order(parsed.rows, node, Stop::Nowhere);
        lemma_nested(parsed, nodes, true, found);
        lemma_join_contains(before, nested_references(parsed, nodes, true), found);
    } else if kind == "procedure"@ || kind == "entrypoint"@ {
        let in_signature = match parsed.field(node, "signature"@) {
            Some(at) => nested_references(parsed, walk_order(parsed.rows, at, Stop::Nowhere), true),
            None => Seq::empty(),
        };
        let in_body = match parsed.field(node, "body"@) {
            Some(at) => body_references(parsed, walk_order(parsed.rows, at, Stop::AtReferences)),
            None => Seq::empty(),
        };
        lemma_join_contains(in_signature, in_body, found);
        lemma_join_contains(before, procedure_references(parsed, node), found);
        if let Some(at) = parsed.field(node, "signature"@) {
            lemma_nested(parsed, walk_order(parsed.rows, at, Stop::Nowhere), true, found);
        }
        if let Some(at) = parsed.field(node, "body"@) {
            lemma_body(parsed, walk_order(parsed.rows, at, Stop::AtReferences), found);
        }
    }
}

proof fn lemma_nodes_refer(reading: Reading, parsed: ParsedText, nodes: Seq<int>, found: Occurrence)
    requires
        with_nodes(reading, parsed, nodes) is Ok,
        reading.module.raw.len() == 0,
    ensures
        with_nodes(reading, parsed, nodes)->Ok_0.module.raw.contains(found) <==> exists|i: int|
            0 <= i < nodes.len() && refers_at(parsed, #[trigger] nodes[i], found),
    decreases nodes.len(),
{
    if nodes.len() > 0 {
        let less = nodes.drop_last();
        lemma_nodes_refer(reading, parsed, less, found);
        let before = with_nodes(reading, parsed, less)->Ok_0;
        lemma_node_refers(before, parsed, nodes.last(), found);
        assert(nodes.last() == nodes[nodes.len() - 1]);
        if exists|i: int| 0 <= i < less.len() && refers_at(parsed, #[trigger] less[i], found) {
            let i = choose|i: int|
                0 <= i < less.len() && refers_at(parsed, #[trigger] less[i], found);
            assert(nodes[i] == less[i]);
        }
        if exists|i: int| 0 <= i < nodes.len() && refers_at(parsed, #[trigger] nodes[i], found) {
            let i = choose|i: int|
                0 <= i < nodes.len() && refers_at(parsed, #[trigger] nodes[i], found);
            if i < less.len() {
                assert(less[i] == nodes[i]);
            }
        }
    }
}

/// A source module refers to exactly what the nodes at the top of its file refer to.
pub proof fn law_references_of_a_module(
    target: TargetModel,
    file: Seq<char>,
    priority: usize,
    parsed: ParsedText,
    found: Occurrence,
)
    requires
        source_module(target, file, priority, parsed) is Ok,
    ensures
        source_module(target, file, priority, parsed)->Ok_0.raw.contains(found) <==> exists|i: int|
            0 <= i < named_children(parsed.rows, 0).len() && refers_at(
                parsed,
                #[trigger] named_children(parsed.rows, 0)[i],
                found,
            ),
{
    let path = module_of_file(
        target.root_file,
        target.root_dir,
        target.namespace,
        file,
    )->Ok_0;
    let start = Reading {
        module: empty_module(target, file, path, priority),
        pending: Seq::empty(),
    };
    lemma_nodes_refer(start, parsed, named_children(parsed.rows, 0), found);
}

} // verus!
