//! What completes a name: the laws of completion.
use vstd::prelude::*;
use vstd::utf8::encode_utf8;
use crate::completion::{candidate_for_import, candidates_for, completion_query, import_candidates,
    is_ident_byte, item_candidate, label_keys, labelled, labels_differ, law_candidates_fit,
    member_candidates, member_name, own_candidates, run_end, run_start, sort_text, with_candidate,
    Candidate, Query};
use crate::meaning::{begins_with, comes_before, is_item_of, is_member, law_begins_with,
    law_byte_keys};
use crate::model::{lookup, Alias, Context, Def, ModuleModel, SymbolKind};
use crate::order::{arrange, byte_key, in_order, key_le, law_stable_order, stable_order};
use crate::position::{offset_at, position_at, Position};
use crate::resolve::{import_path, items_at, reference_target};
use crate::snapshot::Snapshot;
use crate::text::{decimal, slice_text};
use crate::words::{contains_text, found_at, separator_at};

verus! {

/// Whether a candidate shows an item under a label: its path, its hover and its kind.
pub open spec fn is_candidate_of(
    candidate: Candidate,
    label: Seq<char>,
    item: Def,
    priority: u8,
) -> bool {
    &&& candidate.label == label
    &&& candidate.detail == item.path
    &&& candidate.documentation == Some(item.hover)
    &&& candidate.priority == priority
    &&& item.kind is Module <==> candidate.kind is Module
    &&& item.kind is Procedure <==> candidate.kind is Function
    &&& item.kind is Constant <==> candidate.kind is Constant
    &&& item.kind is Type <==> candidate.kind is Class
}

/// Whether an item of a module completes a query: it is no module, its name starts with what has been
/// typed, and it is a procedure where only procedures are asked for.
pub open spec fn own_completes(module: ModuleModel, query: Query, item: int) -> bool {
    &&& 0 <= item < module.definitions.len()
    &&& !(module.definitions[item].kind is Module)
    &&& query.procedures_only ==> module.definitions[item].kind is Procedure
    &&& begins_with(module.definitions[item].name, query.prefix)
}

/// Whether an import of a module completes a query: its name starts with what has been typed.
pub open spec fn import_completes(module: ModuleModel, query: Query, import: int) -> bool {
    0 <= import < module.imports.len() && begins_with(module.imports[import].0, query.prefix)
}

/// Whether an item completes a query behind a path: it stands directly below the path, the context
/// can see it, what follows the path starts with what has been typed, and it is a procedure where
/// only procedures are asked for.
pub open spec fn member_completes(
    definitions: Seq<Def>,
    context: Context,
    base: Seq<char>,
    query: Query,
    item: int,
    label: Seq<char>,
) -> bool {
    &&& 0 <= item < definitions.len()
    &&& is_member(base, definitions[item].path, label)
    &&& begins_with(label, query.prefix)
    &&& definitions[item].context == context || definitions[item].visible_outside_context
    &&& query.procedures_only ==> definitions[item].kind is Procedure
}

/// Whether a candidate shows an import: the first item that its path stands for, or, where none is
/// known, the bare name.
pub open spec fn is_candidate_of_import(
    definitions: Seq<Def>,
    module: ModuleModel,
    name: Seq<char>,
    candidate: Candidate,
) -> bool {
    match lookup(module.imports, name) {
        Some(target) => match import_path(target, module.imports) {
            Some(path) => shows_path(definitions, module.context, path, name, candidate),
            None => is_bare_import(candidate, name),
        },
        None => is_bare_import(candidate, name),
    }
}

/// Whether a candidate shows the first item that a path stands for, or the bare name where it stands
/// for none.
pub open spec fn shows_path(
    definitions: Seq<Def>,
    context: Context,
    path: Seq<char>,
    name: Seq<char>,
    candidate: Candidate,
) -> bool {
    ||| exists|item: int|
        {
            &&& #[trigger] is_item_of(definitions, context, path, item)
            &&& is_candidate_of(candidate, name, definitions[item], 1)
            &&& forall|i: int| i < item ==> !#[trigger] is_item_of(definitions, context, path, i)
        }
    ||| {
        &&& forall|item: int| !#[trigger] is_item_of(definitions, context, path, item)
        &&& is_bare_import(candidate, name)
    }
}

/// Whether a candidate shows an import by its name alone.
pub open spec fn is_bare_import(candidate: Candidate, name: Seq<char>) -> bool {
    &&& candidate.label == name
    &&& candidate.detail == "import"@
    &&& candidate.documentation is None
    &&& candidate.kind is Module
    &&& candidate.priority == 1
}

proof fn lemma_labelled(list: Seq<Candidate>, label: Seq<char>, at: int)
    requires
        0 <= at,
    ensures
        match labelled(list, label, at) {
            Some(found) => at <= found < list.len() && list[found].label == label,
            None => forall|i: int| at <= i < list.len() ==> (#[trigger] list[i]).label != label,
        },
    decreases list.len() - at,
{
    if at < list.len() && list[at].label != label {
        lemma_labelled(list, label, at + 1);
    }
}

/// Whether a list has a candidate with a label.
pub open spec fn has_label(list: Seq<Candidate>, label: Seq<char>) -> bool {
    exists|i: int| 0 <= i < list.len() && (#[trigger] list[i]).label == label
}

/// A candidate that is added stands in the list unless one with its label is there that comes no
/// later; of two with one label the one with the smaller priority number stays; all others stay.
pub proof fn law_with_candidate(list: Seq<Candidate>, more: Candidate, candidate: Candidate)
    requires
        labels_differ(list),
    ensures
        labels_differ(with_candidate(list, more)),
        has_label(with_candidate(list, more), more.label),
        candidate.label != more.label ==> (with_candidate(list, more).contains(candidate)
            <==> list.contains(candidate)),
        !has_label(list, more.label) ==> with_candidate(list, more).contains(more),
        forall|i: int|
            0 <= i < list.len() && (#[trigger] list[i]).label == more.label ==> with_candidate(
                list,
                more,
            ).contains(
                if more.priority < list[i].priority {
                    more
                } else {
                    list[i]
                },
            ),
{
    lemma_labelled(list, more.label, 0);
    let after = with_candidate(list, more);
    match labelled(list, more.label, 0) {
        Some(at) => {
            assert(after[at].label == more.label);
            if list.contains(candidate) && candidate.label != more.label {
                let i = choose|i: int| 0 <= i < list.len() && list[i] == candidate;
                assert(after[i] == candidate);
            }
            if after.contains(candidate) && candidate.label != more.label {
                let i = choose|i: int| 0 <= i < after.len() && after[i] == candidate;
                assert(list[i] == candidate);
            }
            assert forall|i: int|
                0 <= i < list.len() && (#[trigger] list[i]).label == more.label implies after.contains(
                if more.priority < list[i].priority {
                    more
                } else {
                    list[i]
                },
            ) by {
                if i < at {
                    assert(list[i].label != list[at].label);
                }
                if at < i {
                    assert(list[at].label != list[i].label);
                }
                assert(after[at] == if more.priority < list[i].priority {
                    more
                } else {
                    list[i]
                });
            }
        },
        None => {
            assert(after[list.len() as int] == more);
            if list.contains(candidate) {
                let i = choose|i: int| 0 <= i < list.len() && list[i] == candidate;
                assert(after[i] == candidate);
            }
            if after.contains(candidate) && candidate.label != more.label {
                let i = choose|i: int| 0 <= i < after.len() && after[i] == candidate;
                assert(list[i] == candidate);
            }
        },
    }
}

/// Adding a candidate that comes no earlier than those in the list.
proof fn lemma_later_candidate(list: Seq<Candidate>, more: Candidate, candidate: Candidate)
    requires
        labels_differ(list),
        forall|i: int| 0 <= i < list.len() ==> (#[trigger] list[i]).priority <= more.priority,
    ensures
        labels_differ(with_candidate(list, more)),
        with_candidate(list, more).contains(candidate) <==> list.contains(candidate) || (candidate
            == more && !has_label(list, more.label)),
        forall|label: Seq<char>| #[trigger]
            has_label(with_candidate(list, more), label) <==> has_label(list, label) || label
                == more.label,
        forall|i: int|
            0 <= i < with_candidate(list, more).len() ==> (#[trigger] with_candidate(
                list,
                more,
            )[i]).priority <= more.priority,
{
    lemma_labelled(list, more.label, 0);
    let after = with_candidate(list, more);
    match labelled(list, more.label, 0) {
        Some(at) => {
            assert(after == list);
            assert(list[at].label == more.label);
        },
        None => {
            crate::snapshot_laws::lemma_push_contains(list, more, candidate);
            assert(after[list.len() as int] == more);
            assert forall|label: Seq<char>| #[trigger]
                has_label(after, label) <==> has_label(list, label) || label == more.label by {
                if has_label(list, label) {
                    let i = choose|i: int| 0 <= i < list.len() && (#[trigger] list[i]).label == label;
                    assert(after[i].label == label);
                }
                if has_label(after, label) {
                    let i = choose|i: int|
                        0 <= i < after.len() && (#[trigger] after[i]).label == label;
                    if i < list.len() {
                        assert(list[i].label == label);
                    }
                }
            }
        },
    }
}

/// Whether the first of the first `count` items of a module that complete a query under a candidate's
/// label is the one that the candidate shows.
pub open spec fn shows_own(
    module: ModuleModel,
    query: Query,
    count: int,
    candidate: Candidate,
) -> bool {
    exists|item: int|
        {
            &&& item < count
            &&& #[trigger] own_completes(module, query, item)
            &&& is_candidate_of(
                candidate,
                module.definitions[item].name,
                module.definitions[item],
                0,
            )
            &&& forall|i: int|
                i < item && #[trigger] own_completes(module, query, i)
                    ==> module.definitions[i].name != candidate.label
        }
}

proof fn lemma_is_candidate_of(candidate: Candidate, label: Seq<char>, item: Def, priority: u8)
    ensures
        is_candidate_of(candidate, label, item, priority) && (candidate.kind is Module
            || candidate.kind is Function || candidate.kind is Constant || candidate.kind is Class)
            <==> candidate == item_candidate(label, item, priority),
{
}

proof fn lemma_own(module: ModuleModel, query: Query, count: nat, candidate: Candidate)
    requires
        count <= module.definitions.len(),
    ensures
        ({
            let list = own_candidates(module.definitions, query, count);
            &&& labels_differ(list)
            &&& forall|i: int| 0 <= i < list.len() ==> (#[trigger] list[i]).priority == 0
            &&& list.contains(candidate) <==> shows_own(module, query, count as int, candidate)
            &&& forall|label: Seq<char>| #[trigger]
                has_label(list, label) <==> exists|item: int|
                    {
                        &&& item < count
                        &&& #[trigger] own_completes(module, query, item)
                        &&& module.definitions[item].name == label
                    }
        }),
    decreases count,
{
    if count == 0 {
        assert forall|label: Seq<char>| !#[trigger] has_label(
            own_candidates(module.definitions, query, count),
            label,
        ) by {}
    } else {
        let last = count - 1;
        lemma_own(module, query, last as nat, candidate);
        let before = own_candidates(module.definitions, query, last as nat);
        let item = module.definitions[last];
        let more = item_candidate(item.name, item, 0);
        law_begins_with(item.name, query.prefix);
        lemma_is_candidate_of(candidate, item.name, item, 0);
        lemma_is_candidate_of(more, item.name, item, 0);
        if own_completes(module, query, last) {
            lemma_later_candidate(before, more, candidate);
            let list = own_candidates(module.definitions, query, count);
            assert(list == with_candidate(before, more));
            if candidate == more && !has_label(before, more.label) {
                assert forall|i: int|
                    i < last && #[trigger] own_completes(module, query, i) implies module.definitions[i].name
                    != candidate.label by {}
                assert(shows_own(module, query, count as int, candidate));
            }
            if shows_own(module, query, last, candidate) {
                let k = choose|k: int|
                    {
                        &&& k < last
                        &&& #[trigger] own_completes(module, query, k)
                        &&& is_candidate_of(
                            candidate,
                            module.definitions[k].name,
                            module.definitions[k],
                            0,
                        )
                        &&& forall|i: int|
                            i < k && #[trigger] own_completes(module, query, i)
                                ==> module.definitions[i].name != candidate.label
                    };
                assert(k < count && own_completes(module, query, k));
                assert(shows_own(module, query, count as int, candidate));
            }
        } else {
            assert(own_candidates(module.definitions, query, count) == before);
        }
    }
}

proof fn lemma_first_item(definitions: Seq<Def>, context: Context, path: Seq<char>)
    requires
        definitions.len() <= usize::MAX,
    ensures
        ({
            let items = items_at(definitions, context, path);
            &&& items.len() > 0 ==> is_item_of(definitions, context, path, items[0] as int)
            &&& items.len() > 0 ==> forall|i: int|
                i < items[0] ==> !#[trigger] is_item_of(definitions, context, path, i)
            &&& items.len() == 0 ==> forall|i: int|
                !#[trigger] is_item_of(definitions, context, path, i)
        }),
{
    crate::meaning::law_items_at(definitions, context, path);
    let items = items_at(definitions, context, path);
    if items.len() > 0 {
        assert(items.contains(items[0]));
        assert forall|i: int| i < items[0] implies !#[trigger] is_item_of(
            definitions,
            context,
            path,
            i,
        ) by {
            if is_item_of(definitions, context, path, i) {
                assert(items.contains(i as usize));
                let k = choose|k: int| 0 <= k < items.len() && items[k] == i as usize;
                if k > 0 {
                    assert(items[0] < items[k]);
                }
            }
        }
    } else {
        assert forall|i: int| !#[trigger] is_item_of(definitions, context, path, i) by {
            if is_item_of(definitions, context, path, i) {
                assert(items.contains(i as usize));
            }
        }
    }
}

proof fn lemma_import(
    definitions: Seq<Def>,
    module: ModuleModel,
    name: Seq<char>,
    candidate: Candidate,
)
    requires
        definitions.len() <= usize::MAX,
    ensures
        candidate_for_import(definitions, module.context, module.imports, name).label == name,
        candidate_for_import(definitions, module.context, module.imports, name).priority == 1,
        is_candidate_of_import(
            definitions,
            module,
            name,
            candidate_for_import(definitions, module.context, module.imports, name),
        ),
        is_candidate_of_import(definitions, module, name, candidate) && is_shown_kind(candidate.kind)
            ==> candidate == candidate_for_import(
            definitions,
            module.context,
            module.imports,
            name,
        ),
        is_shown_kind(
            candidate_for_import(definitions, module.context, module.imports, name).kind,
        ),
{
    let path = match lookup(module.imports, name) {
        Some(target) => import_path(target, module.imports),
        None => None,
    };
    let own = candidate_for_import(definitions, module.context, module.imports, name);
    if let Some(path) = path {
        lemma_first_item(definitions, module.context, path);
        let items = items_at(definitions, module.context, path);
        if items.len() > 0 {
            let item = items[0] as int;
            assert(own == item_candidate(name, definitions[item], 1));
            lemma_is_candidate_of(own, name, definitions[item], 1);
            assert(is_item_of(definitions, module.context, path, item));
            assert(shows_path(definitions, module.context, path, name, own));
            if is_candidate_of_import(definitions, module, name, candidate) && is_shown_kind(
                candidate.kind,
            ) {
                assert(shows_path(definitions, module.context, path, name, candidate));
                let other = choose|item: int|
                    {
                        &&& #[trigger] is_item_of(definitions, module.context, path, item)
                        &&& is_candidate_of(candidate, name, definitions[item], 1)
                        &&& forall|i: int|
                            i < item ==> !#[trigger] is_item_of(
                                definitions,
                                module.context,
                                path,
                                i,
                            )
                    };
                assert(other == item);
                lemma_is_candidate_of(candidate, name, definitions[item], 1);
            }
        }
    }
}

/// Whether a kind is one that candidates are shown with.
pub open spec fn is_shown_kind(kind: SymbolKind) -> bool {
    kind is Module || kind is Function || kind is Constant || kind is Class
}

proof fn lemma_imports(
    definitions: Seq<Def>,
    module: ModuleModel,
    query: Query,
    list: Seq<Candidate>,
    count: nat,
    candidate: Candidate,
)
    requires
        definitions.len() <= usize::MAX,
        count <= module.imports.len(),
        labels_differ(list),
        forall|i: int| 0 <= i < list.len() ==> (#[trigger] list[i]).priority == 0,
        is_shown_kind(candidate.kind),
    ensures
        ({
            let all = import_candidates(
                definitions,
                module.context,
                module.imports,
                query,
                list,
                count,
            );
            &&& labels_differ(all)
            &&& forall|i: int| 0 <= i < all.len() ==> (#[trigger] all[i]).priority <= 1
            &&& all.contains(candidate) <==> list.contains(candidate) || (!has_label(
                list,
                candidate.label,
            ) && exists|import: int|
                {
                    &&& import < count
                    &&& #[trigger] import_completes(module, query, import)
                    &&& module.imports[import].0 == candidate.label
                    &&& is_candidate_of_import(definitions, module, candidate.label, candidate)
                })
            &&& forall|label: Seq<char>| #[trigger]
                has_label(all, label) <==> has_label(list, label) || exists|import: int|
                    {
                        &&& import < count
                        &&& #[trigger] import_completes(module, query, import)
                        &&& module.imports[import].0 == label
                    }
        }),
    decreases count,
{
    if count > 0 {
        let last = count - 1;
        lemma_imports(definitions, module, query, list, last as nat, candidate);
        let before = import_candidates(
            definitions,
            module.context,
            module.imports,
            query,
            list,
            last as nat,
        );
        let all = import_candidates(
            definitions,
            module.context,
            module.imports,
            query,
            list,
            count,
        );
        let name = module.imports[last].0;
        let more = candidate_for_import(definitions, module.context, module.imports, name);
        law_begins_with(name, query.prefix);
        lemma_import(definitions, module, name, candidate);
        if import_completes(module, query, last) {
            lemma_later_candidate(before, more, candidate);
            assert(all == with_candidate(before, more));
            if all.contains(candidate) && !before.contains(candidate) {
                assert(candidate == more);
                assert(import_completes(module, query, last));
            }
            if !has_label(list, candidate.label) && name == candidate.label
                && is_candidate_of_import(definitions, module, candidate.label, candidate) {
                assert(candidate == more);
                if has_label(before, name) {
                    let earlier = choose|import: int|
                        {
                            &&& import < last
                            &&& #[trigger] import_completes(module, query, import)
                            &&& module.imports[import].0 == name
                        };
                    assert(import_completes(module, query, earlier));
                    assert(before.contains(candidate));
                }
                assert(all.contains(candidate));
            }
        } else {
            assert(all == before);
        }
    }
}

/// Where nothing but a name has been typed, exactly these complete it: each item of the module that
/// completes the query, the first of those with one name; and each import that completes it and is no
/// item's name, with the item that it stands for. Constants and types are among them unless only
/// procedures are asked for.
pub proof fn law_names_are_completed(
    definitions: Seq<Def>,
    module: ModuleModel,
    query: Query,
    candidate: Candidate,
)
    requires
        definitions.len() <= usize::MAX,
        query.base is None,
        is_shown_kind(candidate.kind),
    ensures
        candidates_for(definitions, module, query).contains(candidate) <==> {
            ||| shows_own(module, query, module.definitions.len() as int, candidate)
            ||| {
                &&& forall|item: int| #[trigger]
                    own_completes(module, query, item) ==> module.definitions[item].name
                        != candidate.label
                &&& exists|import: int| #[trigger]
                    import_completes(module, query, import) && module.imports[import].0
                        == candidate.label
                &&& is_candidate_of_import(definitions, module, candidate.label, candidate)
            }
        },
{
    let own = own_candidates(module.definitions, query, module.definitions.len());
    lemma_own(module, query, module.definitions.len(), candidate);
    lemma_imports(definitions, module, query, own, module.imports.len(), candidate);
    assert(has_label(own, candidate.label) <==> exists|item: int|
        {
            &&& item < module.definitions.len()
            &&& #[trigger] own_completes(module, query, item)
            &&& module.definitions[item].name == candidate.label
        });
    if exists|import: int| #[trigger]
        import_completes(module, query, import) && module.imports[import].0 == candidate.label {
        let import = choose|import: int| #[trigger]
            import_completes(module, query, import) && module.imports[import].0 == candidate.label;
        assert(import < module.imports.len() && import_completes(module, query, import));
    }
}

/// Every item of a module that completes a query is offered by its name, whatever its kind, and so
/// is every import that completes it; no other name is offered.
pub proof fn law_every_name_is_offered(
    definitions: Seq<Def>,
    module: ModuleModel,
    query: Query,
    label: Seq<char>,
)
    requires
        definitions.len() <= usize::MAX,
        query.base is None,
    ensures
        has_label(candidates_for(definitions, module, query), label) <==> {
            ||| exists|item: int| #[trigger]
                own_completes(module, query, item) && module.definitions[item].name == label
            ||| exists|import: int| #[trigger]
                import_completes(module, query, import) && module.imports[import].0 == label
        },
{
    let any = crate::completion::import_candidate(label);
    let own = own_candidates(module.definitions, query, module.definitions.len());
    lemma_own(module, query, module.definitions.len(), any);
    lemma_imports(definitions, module, query, own, module.imports.len(), any);
    let all = candidates_for(definitions, module, query);
    assert(has_label(own, label) <==> exists|item: int|
        {
            &&& item < module.definitions.len()
            &&& #[trigger] own_completes(module, query, item)
            &&& module.definitions[item].name == label
        });
    if exists|import: int| #[trigger]
        import_completes(module, query, import) && module.imports[import].0 == label {
        let import = choose|import: int| #[trigger]
            import_completes(module, query, import) && module.imports[import].0 == label;
        assert(import < module.imports.len() && import_completes(module, query, import));
        assert(has_label(all, label));
    }
    if exists|item: int| #[trigger]
        own_completes(module, query, item) && module.definitions[item].name == label {
        let item = choose|item: int| #[trigger]
            own_completes(module, query, item) && module.definitions[item].name == label;
        assert(item < module.definitions.len() && own_completes(module, query, item));
        assert(has_label(own, label));
    }
}

/// The name of a member is what follows the path and two colons.
pub proof fn law_member_name(base: Seq<char>, path: Seq<char>, name: Seq<char>)
    ensures
        member_name(base, path) == Some(name) <==> is_member(base, path, name),
{
    reveal_strlit("::");
    let colons = "::"@;
    assert(colons =~= seq![':', ':']);
    let rest = path.skip(base.len() as int);
    if member_name(base, path) == Some(name) {
        assert(path =~= base + colons + name) by {
            assert(path.take(base.len() as int) == base);
            assert(rest.take(2) == colons);
            assert forall|i: int| 0 <= i < path.len() implies path[i] == (base + colons + name)[i] by {
                if i < base.len() {
                    assert(path.take(base.len() as int)[i] == base[i]);
                } else if i < base.len() + 2 {
                    assert(rest.take(2)[i - base.len()] == colons[i - base.len()]);
                }
            }
        }
        assert forall|at: int| !#[trigger] separator_at(name, at) by {
            if separator_at(name, at) {
                assert(name.subrange(at, at + 2) =~= colons);
                assert(found_at(name, colons, at));
            }
        }
    }
    if is_member(base, path, name) {
        assert(path.take(base.len() as int) =~= base);
        assert(rest.take(2) =~= colons);
        assert(rest.skip(2) =~= name);
        if contains_text(name, colons) {
            let at = choose|at: int| #[trigger] found_at(name, colons, at);
            assert(name[at] == ':' && name[at + 1] == ':') by {
                assert(name.subrange(at, at + 2)[0] == colons[0]);
                assert(name.subrange(at, at + 2)[1] == colons[1]);
            }
            assert(separator_at(name, at));
        }
    }
}

/// Whether the first of the first `count` items that complete a query behind a path, under a
/// candidate's label, is the one that the candidate shows.
pub open spec fn shows_member(
    definitions: Seq<Def>,
    context: Context,
    base: Seq<char>,
    query: Query,
    count: int,
    candidate: Candidate,
) -> bool {
    exists|item: int|
        {
            &&& item < count
            &&& #[trigger] member_completes(
                definitions,
                context,
                base,
                query,
                item,
                candidate.label,
            )
            &&& is_candidate_of(candidate, candidate.label, definitions[item], 1)
            &&& forall|i: int|
                i < item ==> !#[trigger] member_completes(
                    definitions,
                    context,
                    base,
                    query,
                    i,
                    candidate.label,
                )
        }
}

proof fn lemma_members(
    definitions: Seq<Def>,
    context: Context,
    base: Seq<char>,
    query: Query,
    count: nat,
    candidate: Candidate,
)
    requires
        count <= definitions.len(),
        is_shown_kind(candidate.kind),
    ensures
        ({
            let list = member_candidates(definitions, context, query, base, count);
            &&& labels_differ(list)
            &&& forall|i: int| 0 <= i < list.len() ==> (#[trigger] list[i]).priority <= 1
            &&& list.contains(candidate) <==> shows_member(
                definitions,
                context,
                base,
                query,
                count as int,
                candidate,
            )
            &&& has_label(list, candidate.label) <==> exists|item: int|
                item < count && #[trigger] member_completes(
                    definitions,
                    context,
                    base,
                    query,
                    item,
                    candidate.label,
                )
        }),
    decreases count,
{
    if count > 0 {
        let last = count - 1;
        lemma_members(definitions, context, base, query, last as nat, candidate);
        let before = member_candidates(definitions, context, query, base, last as nat);
        let list = member_candidates(definitions, context, query, base, count);
        let item = definitions[last];
        law_member_name(base, item.path, candidate.label);
        match member_name(base, item.path) {
            Some(label) => {
                law_begins_with(label, query.prefix);
                law_member_name(base, item.path, label);
                let more = item_candidate(label, item, 1);
                lemma_is_candidate_of(candidate, label, item, 1);
                if member_completes(definitions, context, base, query, last, label) {
                    lemma_later_candidate(before, more, candidate);
                    assert(list == with_candidate(before, more));
                    assert(has_label(list, candidate.label) <==> has_label(before, candidate.label)
                        || candidate.label == label);
                    if candidate == more && !has_label(before, more.label) {
                        assert(member_completes(
                            definitions,
                            context,
                            base,
                            query,
                            last,
                            candidate.label,
                        ));
                        assert(shows_member(
                            definitions,
                            context,
                            base,
                            query,
                            count as int,
                            candidate,
                        ));
                    }
                } else {
                    assert(list == before);
                    assert(!member_completes(
                        definitions,
                        context,
                        base,
                        query,
                        last,
                        candidate.label,
                    ));
                }
            },
            None => {
                assert(list == before);
                assert(!member_completes(
                    definitions,
                    context,
                    base,
                    query,
                    last,
                    candidate.label,
                ));
            },
        }
    }
}

/// Behind a path exactly these complete a name: each item directly below what the path stands for
/// that the module's context can see and that completes the query, the first of those with one name.
/// Behind a path that stands for nothing, nothing does.
pub proof fn law_members_are_completed(
    definitions: Seq<Def>,
    module: ModuleModel,
    query: Query,
    candidate: Candidate,
)
    requires
        query.base is Some,
        is_shown_kind(candidate.kind),
    ensures
        match reference_target(
            module.names,
            module.imports,
            module.path,
            query.base.unwrap(),
            false,
        ) {
            Some(path) => {
                &&& candidates_for(definitions, module, query).contains(candidate) <==> shows_member(
                    definitions,
                    module.context,
                    path,
                    query,
                    definitions.len() as int,
                    candidate,
                )
                &&& has_label(candidates_for(definitions, module, query), candidate.label)
                    <==> exists|item: int|
                    member_completes(
                        definitions,
                        module.context,
                        path,
                        query,
                        item,
                        candidate.label,
                    )
            },
            None => candidates_for(definitions, module, query).len() == 0,
        },
{
    if let Some(path) = reference_target(
        module.names,
        module.imports,
        module.path,
        query.base.unwrap(),
        false,
    ) {
        lemma_members(
            definitions,
            module.context,
            path,
            query,
            definitions.len(),
            candidate,
        );
        if exists|item: int|
            member_completes(definitions, module.context, path, query, item, candidate.label) {
            let item = choose|item: int|
                member_completes(definitions, module.context, path, query, item, candidate.label);
            assert(item < definitions.len() && member_completes(
                definitions,
                module.context,
                path,
                query,
                item,
                candidate.label,
            ));
        }
    }
}

/// Whether a byte is one that a name is made of: a letter, a digit, an underscore, a dollar sign or a
/// quotation mark.
pub open spec fn is_name_byte(byte: u8) -> bool {
    97 <= byte <= 122 || 65 <= byte <= 90 || 48 <= byte <= 57 || byte == 95 || byte == 36 || byte
        == 34
}

/// Whether the bytes from `start` up to `end` are all such bytes, or colons where those count too, and
/// the byte in front of them is none.
pub open spec fn is_run_before(bytes: Seq<u8>, start: int, end: int, colons: bool) -> bool {
    &&& 0 <= start <= end
    &&& forall|i: int|
        start <= i < end ==> is_name_byte(#[trigger] bytes[i]) || (colons && bytes[i] == 58)
    &&& start > 0 ==> !(is_name_byte(bytes[start - 1]) || (colons && bytes[start - 1] == 58))
}

/// Whether the bytes from `start` up to `end` are all such bytes, and the byte behind them is none.
pub open spec fn is_run_behind(bytes: Seq<u8>, start: int, end: int) -> bool {
    &&& start <= end <= bytes.len()
    &&& forall|i: int| start <= i < end ==> is_name_byte(#[trigger] bytes[i])
    &&& end < bytes.len() ==> !is_name_byte(bytes[end])
}

proof fn lemma_name_byte(byte: u8, colons: bool)
    ensures
        is_ident_byte(byte, colons) <==> is_name_byte(byte) || (colons && byte == 58),
{
}

proof fn lemma_run_start(bytes: Seq<u8>, at: int, colons: bool)
    requires
        0 <= at <= bytes.len(),
    ensures
        is_run_before(bytes, run_start(bytes, at, colons), at, colons),
    decreases at,
{
    if at > 0 {
        lemma_name_byte(bytes[at - 1], colons);
        if is_ident_byte(bytes[at - 1], colons) {
            lemma_run_start(bytes, at - 1, colons);
        }
    }
}

proof fn lemma_run_end(bytes: Seq<u8>, at: int)
    requires
        0 <= at <= bytes.len(),
    ensures
        is_run_behind(bytes, at, run_end(bytes, at)),
    decreases bytes.len() - at,
{
    if at < bytes.len() {
        lemma_name_byte(bytes[at], false);
        if is_ident_byte(bytes[at], false) {
            lemma_run_end(bytes, at + 1);
        }
    }
}

/// Whether a text is a path with two colons behind it.
pub open spec fn is_base(text: Seq<char>, base: Seq<char>) -> bool {
    base.len() > 0 && text == base + seq![':', ':']
}

/// Whether a query is the one for an offset of a text. What has been typed runs from the start of the
/// name that the offset stands in up to the offset; the whole name is replaced. In front of the name
/// may stand a path that ends in two colons: the part before those is the base. Only procedures are
/// asked for where a dot and one of four words stand in front of all that.
pub open spec fn is_query_at(
    text: Seq<char>,
    offset: int,
    query: Query,
    start: int,
    end: int,
    path_start: int,
) -> bool {
    let bytes = encode_utf8(text);
    &&& is_run_before(bytes, start, offset, false)
    &&& is_run_behind(bytes, offset, end)
    &&& is_run_before(bytes, path_start, start, true)
    &&& query.prefix == slice_text(text, start, offset)
    &&& query.range.start == position_at(bytes, start)
    &&& query.range.end == position_at(bytes, end)
    &&& forall|base: Seq<char>|
        query.base == Some(base) <==> #[trigger] is_base(slice_text(text, path_start, start), base)
    &&& query.procedures_only <==> path_start > 0 && bytes[path_start - 1] == 46 && exists|word: int|
        {
            &&& #[trigger] is_run_before(bytes, word, path_start - 1, false)
            &&& {
                let called = slice_text(text, word, path_start - 1);
                called == "call"@ || called == "exec"@ || called == "syscall"@ || called
                    == "procref"@
            }
        }
}

proof fn lemma_base_of(text: Seq<char>, base: Seq<char>)
    ensures
        crate::completion::base_of(text) == Some(base) <==> is_base(text, base),
{
    let whole = base + seq![':', ':'];
    if crate::completion::base_of(text) == Some(base) {
        assert(text =~= whole);
    }
    if base.len() > 0 && text == whole {
        assert(text[text.len() - 2] == ':' && text[text.len() - 1] == ':');
        assert(separator_at(text, text.len() - 2));
        assert(text.take(text.len() - 2) =~= base);
    }
}

/// A position that names an offset of a text has the query for that offset, and another has none.
pub proof fn law_completion_query(text: Seq<char>, position: Position)
    requires
        encode_utf8(text).len() <= usize::MAX,
    ensures
        match (offset_at(encode_utf8(text), position), completion_query(text, position)) {
            (None, query) => query is None,
            (Some(offset), None) => false,
            (Some(offset), Some(query)) => exists|start: int, end: int, path_start: int| #[trigger]
                is_query_at(text, offset, query, start, end, path_start),
        },
{
    let bytes = encode_utf8(text);
    if let Some(offset) = offset_at(bytes, position) {
        vstd::utf8::encode_utf8_valid_utf8(text);
        crate::position::lemma_offset_on_boundary(bytes, position);
        let query = completion_query(text, position).unwrap();
        let start = run_start(bytes, offset, false);
        let end = run_end(bytes, offset);
        lemma_run_start(bytes, offset, false);
        lemma_run_end(bytes, offset);
        lemma_run_start(bytes, start, true);
        let path_start = run_start(bytes, start, true);
        assert forall|base: Seq<char>|
            query.base == Some(base) <==> #[trigger] is_base(
                slice_text(text, path_start, start),
                base,
            ) by {
            lemma_base_of(slice_text(text, path_start, start), base);
        }
        if path_start > 0 {
            let behind = path_start - 1;
            let first = run_start(bytes, behind, false);
            lemma_run_start(bytes, behind, false);
            assert(is_run_before(bytes, first, behind, false));
            assert forall|word: int| #[trigger] is_run_before(bytes, word, behind, false) implies word
                == first by {
                if word < first {
                    assert(is_name_byte(bytes[first - 1]));
                }
                if first < word {
                    assert(is_name_byte(bytes[word - 1]));
                }
            }
        }
        assert(is_query_at(text, offset, query, start, end, path_start));
    }
}

proof fn lemma_shown_kinds(definitions: Seq<Def>, module: ModuleModel, query: Query)
    ensures
        forall|i: int|
            0 <= i < candidates_for(definitions, module, query).len() ==> is_shown_kind(
                (#[trigger] candidates_for(definitions, module, query)[i]).kind,
            ),
{
    match query.base {
        Some(base) => {
            if let Some(path) = reference_target(
                module.names,
                module.imports,
                module.path,
                base,
                false,
            ) {
                lemma_member_kinds(
                    definitions,
                    module.context,
                    query,
                    path,
                    definitions.len(),
                );
            }
        },
        None => {
            lemma_own_kinds(module.definitions, query, module.definitions.len());
            lemma_import_kinds(
                definitions,
                module.context,
                module.imports,
                query,
                own_candidates(module.definitions, query, module.definitions.len()),
                module.imports.len(),
            );
        },
    }
}

proof fn lemma_with_kind(list: Seq<Candidate>, more: Candidate)
    requires
        forall|i: int| 0 <= i < list.len() ==> is_shown_kind((#[trigger] list[i]).kind),
        is_shown_kind(more.kind),
    ensures
        forall|i: int|
            0 <= i < with_candidate(list, more).len() ==> is_shown_kind(
                (#[trigger] with_candidate(list, more)[i]).kind,
            ),
{
    lemma_labelled(list, more.label, 0);
}

proof fn lemma_member_kinds(
    definitions: Seq<Def>,
    context: Context,
    query: Query,
    base: Seq<char>,
    count: nat,
)
    ensures
        forall|i: int|
            0 <= i < member_candidates(definitions, context, query, base, count).len()
                ==> is_shown_kind(
                (#[trigger] member_candidates(definitions, context, query, base, count)[i]).kind,
            ),
    decreases count,
{
    if count > 0 {
        let item = definitions[count - 1];
        lemma_member_kinds(definitions, context, query, base, (count - 1) as nat);
        if let Some(label) = member_name(base, item.path) {
            lemma_with_kind(
                member_candidates(definitions, context, query, base, (count - 1) as nat),
                item_candidate(label, item, 1),
            );
        }
    }
}

proof fn lemma_own_kinds(own: Seq<Def>, query: Query, count: nat)
    ensures
        forall|i: int|
            0 <= i < own_candidates(own, query, count).len() ==> is_shown_kind(
                (#[trigger] own_candidates(own, query, count)[i]).kind,
            ),
    decreases count,
{
    if count > 0 {
        let item = own[count - 1];
        lemma_own_kinds(own, query, (count - 1) as nat);
        lemma_with_kind(
            own_candidates(own, query, (count - 1) as nat),
            item_candidate(item.name, item, 0),
        );
    }
}

proof fn lemma_import_kinds(
    definitions: Seq<Def>,
    context: Context,
    imports: Seq<(Seq<char>, Alias)>,
    query: Query,
    list: Seq<Candidate>,
    count: nat,
)
    requires
        forall|i: int| 0 <= i < list.len() ==> is_shown_kind((#[trigger] list[i]).kind),
    ensures
        forall|i: int|
            0 <= i < import_candidates(definitions, context, imports, query, list, count).len()
                ==> is_shown_kind(
                (#[trigger] import_candidates(
                    definitions,
                    context,
                    imports,
                    query,
                    list,
                    count,
                )[i]).kind,
            ),
    decreases count,
{
    if count > 0 {
        let shorter = (count - 1) as nat;
        lemma_import_kinds(definitions, context, imports, query, list, shorter);
        lemma_with_kind(
            import_candidates(definitions, context, imports, query, list, shorter),
            candidate_for_import(definitions, context, imports, imports[count - 1].0),
        );
    }
}

/// The text by which clients sort a candidate: two digits, a dash, and the label.
pub proof fn law_sort_text(candidate: Candidate)
    requires
        candidate.priority < 100,
    ensures
        sort_text(candidate) == seq![
            ((48 + candidate.priority / 10) as u32) as char,
            ((48 + candidate.priority % 10) as u32) as char,
            '-',
        ] + candidate.label,
{
    reveal_strlit("0");
    reveal_strlit("-");
    reveal_with_fuel(decimal, 3);
    let priority = candidate.priority as nat;
    assert('0' as u32 == 48);
    let digits = seq![
        ((48 + candidate.priority / 10) as u32) as char,
        ((48 + candidate.priority % 10) as u32) as char,
    ];
    if priority < 10 {
        assert("0"@ + decimal(priority) =~= digits);
    } else {
        assert(decimal(priority) =~= digits);
    }
    assert(sort_text(candidate) =~= seq![
        ((48 + candidate.priority / 10) as u32) as char,
        ((48 + candidate.priority % 10) as u32) as char,
        '-',
    ] + candidate.label);
}

/// The entries at a position are those of the candidates for the query there, each once, in strictly
/// ascending order of their labels' bytes; each replaces the name that the position stands in. A file
/// without a module, and a position that names no offset, have none.
pub proof fn law_completion_items(
    snapshot: Snapshot,
    path: Seq<char>,
    text: Seq<char>,
    position: Position,
)
    ensures
        match (snapshot.primary(path), completion_query(text, position)) {
            (Some(module), Some(query)) => {
                let items = snapshot.completion_items(path, text, position);
                &&& forall|candidate: Candidate| #[trigger]
                    candidates_for(snapshot.definitions, module, query).contains(candidate)
                        <==> exists|i: int|
                        0 <= i < items.len() && (#[trigger] items[i]).candidate == candidate
                &&& forall|i: int|
                    0 <= i < items.len() ==> {
                        &&& (#[trigger] items[i]).range == query.range
                        &&& items[i].sort_text == sort_text(items[i].candidate)
                        &&& is_shown_kind(items[i].candidate.kind)
                    }
                &&& forall|i: int, j: int|
                    0 <= i < j < items.len() ==> comes_before(
                        encode_utf8((#[trigger] items[i]).candidate.label),
                        encode_utf8((#[trigger] items[j]).candidate.label),
                    )
            },
            _ => snapshot.completion_items(path, text, position).len() == 0,
        },
{
    if let (Some(module), Some(query)) = (snapshot.primary(path), completion_query(text, position)) {
        let list = candidates_for(snapshot.definitions, module, query);
        let keys = label_keys(list);
        let order = stable_order(keys);
        let sorted = arrange(list, order);
        let items = snapshot.completion_items(path, text, position);
        law_stable_order(keys);
        law_candidates_fit(snapshot.definitions, module, query);
        lemma_shown_kinds(snapshot.definitions, module, query);
        assert forall|i: int| 0 <= i < items.len() implies {
            &&& 0 <= order[i] < list.len()
            &&& (#[trigger] items[i]).candidate == list[order[i]]
        } by {}
        assert forall|candidate: Candidate| #[trigger]
            list.contains(candidate) <==> exists|i: int|
                0 <= i < items.len() && (#[trigger] items[i]).candidate == candidate by {
            if list.contains(candidate) {
                let k = choose|k: int| 0 <= k < list.len() && list[k] == candidate;
                assert(order.contains(k));
                let i = choose|i: int| 0 <= i < order.len() && order[i] == k;
                assert(items[i].candidate == candidate);
            }
            if exists|i: int| 0 <= i < items.len() && (#[trigger] items[i]).candidate == candidate {
                let i = choose|i: int|
                    0 <= i < items.len() && (#[trigger] items[i]).candidate == candidate;
                assert(list[order[i]] == candidate);
            }
        }
        assert forall|i: int, j: int| 0 <= i < j < items.len() implies comes_before(
            encode_utf8((#[trigger] items[i]).candidate.label),
            encode_utf8((#[trigger] items[j]).candidate.label),
        ) by {
            assert(in_order(keys, order[i], order[j]));
            let a = encode_utf8(list[order[i]].label);
            let b = encode_utf8(list[order[j]].label);
            assert(key_le(byte_key(a), byte_key(b)));
            law_byte_keys(a, b);
            if a == b {
                vstd::utf8::encode_utf8_decode_utf8(list[order[i]].label);
                vstd::utf8::encode_utf8_decode_utf8(list[order[j]].label);
                assert(list[order[i]].label == list[order[j]].label);
                assert(order[i] != order[j]) by {
                    if order[i] == order[j] {
                        law_byte_keys(a, a);
                    }
                }
                if order[i] < order[j] {
                    assert(list[order[i]].label != list[order[j]].label);
                } else {
                    assert(list[order[j]].label != list[order[i]].label);
                }
            }
        }
    }
}

} // verus!
