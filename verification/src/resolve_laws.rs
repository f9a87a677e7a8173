//! What names stand for: the laws of imports and references.
use vstd::prelude::*;
use crate::masm_path::{attached, head_and_rest, is_absolute, path_of_text, rooted,
    single_component};
use crate::meaning::{is_item_of, law_items_at, lemma_picks, picks};
use crate::model::{entry, lookup, Alias, Def, ModuleModel, Occurrence, Resolution};
use crate::resolve::{alias_path, followed, import_path, import_target_path, items_at,
    occurrence_target, reference_target, resolved_items, resolved_references};
use crate::stack_effect::ReferenceKind;

verus! {

/// Whether an entry is the last one of a list under a key.
pub open spec fn is_last_entry<V>(entries: Seq<(Seq<char>, V)>, key: Seq<char>, i: int) -> bool {
    &&& 0 <= i < entries.len()
    &&& entries[i].0 == key
    &&& forall|j: int| i < j < entries.len() ==> (#[trigger] entries[j]).0 != key
}

/// Whether no entry of a list stands under a key.
pub open spec fn lacks<V>(entries: Seq<(Seq<char>, V)>, key: Seq<char>) -> bool {
    forall|j: int| 0 <= j < entries.len() ==> (#[trigger] entries[j]).0 != key
}

proof fn lemma_entry<V>(entries: Seq<(Seq<char>, V)>, key: Seq<char>, count: nat)
    requires
        count <= entries.len(),
    ensures
        match entry(entries, key, count) {
            Some(value) => exists|i: int|
                {
                    &&& 0 <= i < count
                    &&& (#[trigger] entries[i]).0 == key
                    &&& entries[i].1 == value
                    &&& forall|j: int| i < j < count ==> (#[trigger] entries[j]).0 != key
                },
            None => forall|j: int| 0 <= j < count ==> (#[trigger] entries[j]).0 != key,
        },
    decreases count,
{
    if count > 0 {
        if entries[count - 1].0 == key {
            assert(entries[count - 1].0 == key);
        } else {
            lemma_entry(entries, key, (count - 1) as nat);
        }
    }
}

/// A list holds under a key what the last of its entries with that key holds, and nothing where it has
/// none.
pub proof fn law_lookup<V>(entries: Seq<(Seq<char>, V)>, key: Seq<char>, i: int)
    ensures
        is_last_entry(entries, key, i) ==> lookup(entries, key) == Some(entries[i].1),
        lacks(entries, key) <==> lookup(entries, key) is None,
{
    lemma_entry(entries, key, entries.len());
    if is_last_entry(entries, key, i) {
        assert(entries[i].0 == key);
        let value = lookup(entries, key).unwrap();
        let k = choose|k: int|
            {
                &&& 0 <= k < entries.len()
                &&& (#[trigger] entries[k]).0 == key
                &&& entries[k].1 == value
                &&& forall|j: int| k < j < entries.len() ==> (#[trigger] entries[j]).0 != key
            };
        if k < i {
            assert(entries[i].0 != key);
        }
        if i < k {
            assert(entries[k].0 != key);
        }
    }
}

/// Whether a text is a path that starts at the root.
pub open spec fn is_from_root(text: Seq<char>, path: Seq<char>) -> bool {
    path_of_text(text) == Ok::<Seq<char>, Seq<char>>(path) && is_absolute(path)
}

/// Whether a text is a single name.
pub open spec fn is_name(text: Seq<char>, name: Seq<char>) -> bool {
    &&& path_of_text(text) is Ok
    &&& !is_absolute(path_of_text(text)->Ok_0)
    &&& single_component(path_of_text(text)->Ok_0) == Some(name)
}

/// Whether a text is a path of several names that does not start at the root.
pub open spec fn is_joined(text: Seq<char>, head: Seq<char>, rest: Seq<char>) -> bool {
    &&& path_of_text(text) is Ok
    &&& !is_absolute(path_of_text(text)->Ok_0)
    &&& single_component(path_of_text(text)->Ok_0) is None
    &&& head_and_rest(path_of_text(text)->Ok_0) == Some((head, rest))
}

/// A path from the root means the same everywhere: whatever the module, its items and its imports, and
/// whether it is called, referred to or imported.
pub proof fn law_root_paths(
    names: Seq<(Seq<char>, Seq<char>)>,
    imports: Seq<(Seq<char>, Alias)>,
    module: Seq<char>,
    raw: Seq<char>,
    path: Seq<char>,
)
    requires
        is_from_root(raw, path),
    ensures
        raw != "$main"@ ==> reference_target(names, imports, module, raw, true) == Some(path),
        reference_target(names, imports, module, raw, false) == Some(path),
        import_target_path(imports, raw) == Some(path),
        import_path(Alias::Path(raw), imports) == Some(path),
{
}

/// A single name means the item of the module with that name; else the import with that name; else,
/// where it is called, an item of the module of which nothing is known, and otherwise nothing.
pub proof fn law_single_names(
    names: Seq<(Seq<char>, Seq<char>)>,
    imports: Seq<(Seq<char>, Alias)>,
    module: Seq<char>,
    raw: Seq<char>,
    name: Seq<char>,
    own: int,
    import: int,
)
    requires
        is_name(raw, name),
        raw != "$main"@,
    ensures
        is_last_entry(names, name, own) ==> {
            &&& reference_target(names, imports, module, raw, true) == Some(names[own].1)
            &&& reference_target(names, imports, module, raw, false) == Some(names[own].1)
        },
        lacks(names, name) && is_last_entry(imports, name, import) ==> {
            &&& reference_target(names, imports, module, raw, true) == import_path(
                imports[import].1,
                imports,
            )
            &&& reference_target(names, imports, module, raw, false) == import_path(
                imports[import].1,
                imports,
            )
        },
        lacks(names, name) && lacks(imports, name) ==> {
            &&& reference_target(names, imports, module, raw, true) == Some(module + "::"@ + name)
            &&& reference_target(names, imports, module, raw, false) is None
        },
{
    law_lookup(names, name, own);
    law_lookup(imports, name, import);
    if is_last_entry(imports, name, import) {
        assert(imports[import].0 == name);
    }
    if is_last_entry(names, name, own) {
        assert(names[own].0 == name);
    }
}

/// A longer path goes on from what its first name is imported as; where that is not imported, or stands
/// for nothing, it goes on from the root.
pub proof fn law_joined_paths(
    names: Seq<(Seq<char>, Seq<char>)>,
    imports: Seq<(Seq<char>, Alias)>,
    module: Seq<char>,
    raw: Seq<char>,
    head: Seq<char>,
    rest: Seq<char>,
    invoke: bool,
    import: int,
)
    requires
        is_joined(raw, head, rest),
        raw != "$main"@,
    ensures
        is_last_entry(imports, head, import) && import_path(imports[import].1, imports) is Some
            ==> reference_target(names, imports, module, raw, invoke) == attached(
            import_path(imports[import].1, imports).unwrap(),
            rest,
        ),
        is_last_entry(imports, head, import) && import_path(imports[import].1, imports) is None
            ==> reference_target(names, imports, module, raw, invoke) == rooted(
            path_of_text(raw)->Ok_0,
        ),
        lacks(imports, head) ==> reference_target(names, imports, module, raw, invoke) == rooted(
            path_of_text(raw)->Ok_0,
        ),
        import_target_path(imports, raw) == rooted(path_of_text(raw)->Ok_0),
{
    law_lookup(imports, head, import);
}

/// A call of the entry point means that of the module, whatever is imported; a text that is no path
/// means nothing.
pub proof fn law_special_names(
    names: Seq<(Seq<char>, Seq<char>)>,
    imports: Seq<(Seq<char>, Alias)>,
    module: Seq<char>,
    raw: Seq<char>,
    invoke: bool,
)
    ensures
        reference_target(names, imports, module, "$main"@, true) == Some(module + "::"@ + "$main"@),
        path_of_text(raw) is Err && !(invoke && raw == "$main"@) ==> reference_target(
            names,
            imports,
            module,
            raw,
            invoke,
        ) is None,
        path_of_text(raw) is Err ==> import_target_path(imports, raw) is None && import_path(
            Alias::Path(raw),
            imports,
        ) is None,
        import_path(Alias::MastRoot, imports) is None,
{
}

/// What a reference means by its kind: calls, constants and types are looked up as paths, the name of
/// an import means what the import stands for, and so does a single name that is imported.
pub proof fn law_occurrences(module: ModuleModel, occurrence: Occurrence, name: Seq<char>, import: int)
    ensures
        ({
            let names = module.names;
            let imports = module.imports;
            let target = occurrence_target(names, imports, module.path, occurrence);
            let raw = occurrence.raw_path;
            match occurrence.kind {
                ReferenceKind::Invoke => target == reference_target(
                    names,
                    imports,
                    module.path,
                    raw,
                    true,
                ),
                ReferenceKind::Constant | ReferenceKind::Type => target == reference_target(
                    names,
                    imports,
                    module.path,
                    raw,
                    false,
                ),
                ReferenceKind::ImportAlias => {
                    &&& is_last_entry(imports, raw, import) ==> target == import_path(
                        imports[import].1,
                        imports,
                    )
                    &&& lacks(imports, raw) ==> target is None
                },
                ReferenceKind::ImportTarget => {
                    &&& is_name(raw, name) && is_last_entry(imports, name, import) ==> target
                        == import_path(imports[import].1, imports)
                    &&& is_name(raw, name) && lacks(imports, name) ==> target is None
                },
            }
        }),
{
    law_lookup(module.imports, occurrence.raw_path, import);
    law_lookup(module.imports, name, import);
}

/// Whether imports name each other one after another: each of the names is imported as the next one.
pub open spec fn is_chain(imports: Seq<(Seq<char>, Alias)>, names: Seq<Seq<char>>, texts: Seq<Seq<char>>) -> bool {
    &&& names.len() == texts.len()
    &&& forall|i: int|
        0 <= i < names.len() ==> lookup(imports, #[trigger] names[i]) == Some(Alias::Path(texts[i]))
    &&& forall|i: int, j: int|
        0 <= i && j == i + 1 && j < names.len() ==> is_name(#[trigger] texts[i], #[trigger] names[j])
    &&& forall|i: int, j: int| 0 <= i < j < names.len() ==> names[i] != names[j]
}

proof fn lemma_chain(
    imports: Seq<(Seq<char>, Alias)>,
    text: Seq<char>,
    names: Seq<Seq<char>>,
    texts: Seq<Seq<char>>,
    visited: Seq<Seq<char>>,
    path: Seq<char>,
)
    requires
        is_chain(imports, names, texts),
        names.len() > 0,
        is_name(text, names[0]),
        forall|i: int| 0 <= i < names.len() ==> !visited.contains(#[trigger] names[i]),
        alias_path(Alias::Path(texts.last()), imports, visited + names) == Some(path),
    ensures
        alias_path(Alias::Path(text), imports, visited) == Some(path),
    decreases names.len(),
{
    assert(!visited.contains(names[0]));
    let next = visited.push(names[0]);
    assert(lookup(imports, names[0]) == Some(Alias::Path(texts[0])));
    if names.len() == 1 {
        assert(visited + names =~= next);
    } else {
        let rest = names.skip(1);
        let targets = texts.skip(1);
        assert(is_chain(imports, rest, targets)) by {
            assert forall|i: int| 0 <= i < rest.len() implies lookup(imports, #[trigger] rest[i])
                == Some(Alias::Path(targets[i])) by {
                assert(rest[i] == names[i + 1]);
            }
            assert forall|i: int, j: int| 0 <= i && j == i + 1 && j < rest.len() implies is_name(
                #[trigger] targets[i],
                #[trigger] rest[j],
            ) by {
                assert(is_name(texts[i + 1], names[j + 1]));
            }
        }
        assert forall|i: int| 0 <= i < rest.len() implies !next.contains(#[trigger] rest[i]) by {
            assert(rest[i] == names[i + 1]);
            crate::snapshot_laws::lemma_push_contains(visited, names[0], rest[i]);
            assert(!visited.contains(names[i + 1]));
        }
        assert(next + rest =~= visited + names);
        assert(targets.last() == texts.last());
        assert(is_name(texts[0], names[1]));
        lemma_chain(imports, texts[0], rest, targets, next, path);
    }
    assert(followed(names[0], imports, visited) == Some(path));
}

/// Imports that name each other stand for the same: where the last of them names a path from the root,
/// all of them stand for it; where it names what is not imported, or closes a circle, all of them
/// stand for that name at the root.
pub proof fn law_import_chains(
    imports: Seq<(Seq<char>, Alias)>,
    text: Seq<char>,
    names: Seq<Seq<char>>,
    texts: Seq<Seq<char>>,
    path: Seq<char>,
    name: Seq<char>,
)
    requires
        is_chain(imports, names, texts),
        names.len() > 0,
        is_name(text, names[0]),
    ensures
        is_from_root(texts.last(), path) ==> import_path(Alias::Path(text), imports) == Some(path),
        is_name(texts.last(), name) && (lacks(imports, name) || names.contains(name)) && rooted(
            path_of_text(texts.last())->Ok_0,
        ) == Some(path) ==> import_path(Alias::Path(text), imports) == Some(path),
{
    let none = Seq::<Seq<char>>::empty();
    assert(none + names =~= names);
    if is_from_root(texts.last(), path) {
        assert(alias_path(Alias::Path(texts.last()), imports, names) == Some(path));
        lemma_chain(imports, text, names, texts, none, path);
    }
    if is_name(texts.last(), name) && (lacks(imports, name) || names.contains(name)) && rooted(
        path_of_text(texts.last())->Ok_0,
    ) == Some(path) {
        law_lookup(imports, name, 0);
        assert(followed(name, imports, names) is None);
        assert(alias_path(Alias::Path(texts.last()), imports, names) == Some(path));
        lemma_chain(imports, text, names, texts, none, path);
    }
}

/// An import of a path below another import goes on from what that stands for.
pub proof fn law_import_below_import(
    imports: Seq<(Seq<char>, Alias)>,
    text: Seq<char>,
    head: Seq<char>,
    rest: Seq<char>,
    base: Seq<char>,
    path: Seq<char>,
)
    requires
        is_joined(text, head, rest),
        lookup(imports, head) == Some(Alias::Path(base)),
        is_from_root(base, path),
    ensures
        import_path(Alias::Path(text), imports) == attached(path, rest),
{
    let none = Seq::<Seq<char>>::empty();
    assert(followed(head, imports, none) == Some(path));
}

/// Whether a reference of a module stands for some item.
pub open spec fn stands_for_some(
    module: ModuleModel,
    definitions: Seq<Def>,
    occurrence: Occurrence,
) -> bool {
    match occurrence_target(module.names, module.imports, module.path, occurrence) {
        Some(path) => exists|item: int| is_item_of(definitions, module.context, path, item),
        None => false,
    }
}

/// The references of a module that stand for some item.
pub open spec fn meaningful(module: ModuleModel, definitions: Seq<Def>) -> spec_fn(int) -> bool {
    |i: int| stands_for_some(module, definitions, module.raw[i])
}

/// Whether a reference is resolved: it keeps its range and its kind, and lists exactly the items that
/// its path stands for in the module's context, each once and in their order.
pub open spec fn is_resolved(
    module: ModuleModel,
    definitions: Seq<Def>,
    occurrence: Occurrence,
    resolution: Resolution,
) -> bool {
    let target = occurrence_target(module.names, module.imports, module.path, occurrence);
    &&& resolution.range == occurrence.range
    &&& resolution.kind == occurrence.kind
    &&& target is Some
    &&& forall|number: usize| #[trigger]
        resolution.definitions.contains(number) <==> is_item_of(
            definitions,
            module.context,
            target.unwrap(),
            number as int,
        )
    &&& forall|i: int, j: int|
        0 <= i < j < resolution.definitions.len() ==> #[trigger] resolution.definitions[i]
            < #[trigger] resolution.definitions[j]
}

proof fn lemma_resolved_items(module: ModuleModel, definitions: Seq<Def>, occurrence: Occurrence)
    requires
        definitions.len() <= usize::MAX,
    ensures
        resolved_items(module, occurrence, definitions).len() > 0 <==> stands_for_some(
            module,
            definitions,
            occurrence,
        ),
        resolved_items(module, occurrence, definitions).len() > 0 ==> is_resolved(
            module,
            definitions,
            occurrence,
            Resolution {
                range: occurrence.range,
                kind: occurrence.kind,
                definitions: resolved_items(module, occurrence, definitions),
            },
        ),
{
    if let Some(path) = occurrence_target(
        module.names,
        module.imports,
        module.path,
        occurrence,
    ) {
        law_items_at(definitions, module.context, path);
        let items = items_at(definitions, module.context, path);
        if items.len() > 0 {
            assert(items.contains(items[0]));
            assert(is_item_of(definitions, module.context, path, items[0] as int));
        }
        if exists|item: int| is_item_of(definitions, module.context, path, item) {
            let item = choose|item: int| is_item_of(definitions, module.context, path, item);
            assert(items.contains(item as usize));
        }
    }
}

proof fn lemma_resolved_references(module: ModuleModel, definitions: Seq<Def>, count: nat) -> (list: Seq<
    int,
>)
    requires
        definitions.len() <= usize::MAX,
        count <= module.raw.len(),
    ensures
        picks(list, count as int, meaningful(module, definitions)),
        resolved_references(module, definitions, count).len() == list.len(),
        forall|k: int|
            0 <= k < list.len() ==> is_resolved(
                module,
                definitions,
                module.raw[#[trigger] list[k]],
                resolved_references(module, definitions, count)[k],
            ),
    decreases count,
{
    if count == 0 {
        Seq::empty()
    } else {
        let last = count - 1;
        let list = lemma_resolved_references(module, definitions, last as nat);
        let wanted = meaningful(module, definitions);
        lemma_picks(list, last, wanted);
        lemma_resolved_items(module, definitions, module.raw[last]);
        assert(wanted(last) == stands_for_some(module, definitions, module.raw[last]));
        if wanted(last) {
            let more = list.push(last);
            let before = resolved_references(module, definitions, last as nat);
            let after = resolved_references(module, definitions, count);
            assert forall|k: int| 0 <= k < more.len() implies is_resolved(
                module,
                definitions,
                module.raw[#[trigger] more[k]],
                after[k],
            ) by {
                if k < list.len() {
                    assert(more[k] == list[k]);
                    assert(after[k] == before[k]);
                }
            }
            more
        } else {
            list
        }
    }
}

/// The references of a module that stand for some item are resolved, each of them and in their order;
/// those that stand for none are left out.
pub proof fn law_resolved_references(module: ModuleModel, definitions: Seq<Def>)
    requires
        definitions.len() <= usize::MAX,
    ensures
        exists|list: Seq<int>|
            {
                &&& #[trigger] picks(
                    list,
                    module.raw.len() as int,
                    meaningful(module, definitions),
                )
                &&& crate::resolve::with_references(module, definitions).resolved.len()
                    == list.len()
                &&& forall|k: int|
                    0 <= k < list.len() ==> is_resolved(
                        module,
                        definitions,
                        module.raw[#[trigger] list[k]],
                        crate::resolve::with_references(module, definitions).resolved[k],
                    )
            },
        crate::resolve::with_references(module, definitions) == (ModuleModel {
            resolved: crate::resolve::with_references(module, definitions).resolved,
            ..module
        }),
{
    let list = lemma_resolved_references(module, definitions, module.raw.len());
    assert(picks(list, module.raw.len() as int, meaningful(module, definitions)));
}

/// A text is a path exactly where the assembler takes it for one and its components can be read; else it
/// is reported why it is none. A path starts at the root where it begins with two colons. It is put at
/// the root, and behind another one, exactly where its components can be read.
pub proof fn law_paths(text: Seq<char>, base: Seq<char>)
    ensures
        match path_of_text(text) {
            Ok(path) => crate::masm_path::path_failure(text) is None
                && crate::masm_path::canonical_form(text) == Ok::<Seq<char>, Seq<char>>(path),
            Err(message) => {
                ||| crate::masm_path::path_failure(text) is Some && message
                    == "invalid MASM path '"@ + text + "': "@ + crate::masm_path::path_failure(
                    text,
                ).unwrap()
                ||| crate::masm_path::path_failure(text) is None
                    && crate::masm_path::canonical_form(text) is Err && message
                    == "invalid MASM path '"@ + text + "': "@ + crate::masm_path::canonical_form(
                    text,
                )->Err_0
            },
        },
        is_absolute(text) <==> text.len() >= 2 && text[0] == ':' && text[1] == ':',
        rooted(text) == if crate::masm_path::canonical_form(text) is Ok {
            Some(crate::masm_path::absolute_path(text))
        } else {
            None
        },
        attached(base, text) == if crate::masm_path::canonical_form(text) is Ok {
            Some(crate::masm_path::joined_path(base, text))
        } else {
            None
        },
{
    reveal_strlit("::");
    let colons = "::"@;
    assert(colons[0] == ':' && colons[1] == ':');
    crate::meaning::law_begins_with(text, colons);
    if text.len() >= 2 && text[0] == ':' && text[1] == ':' {
        assert(crate::meaning::begins_with(text, colons));
    }
    if is_absolute(text) {
        assert(text[0] == colons[0] && text[1] == colons[1]);
    }
}

} // verus!
