//! What is found at a position of a file: the laws of going to definitions, of hovering, and of
//! looking symbols up.
use vstd::prelude::*;
use crate::meaning::{found_at_place, has_place, inside, law_covers, law_spot};
use crate::model::{Context, Def, ModuleModel, Resolution};
use crate::position::{Position, Range};
use crate::resolve::in_context;
use crate::snapshot::{ascending, first_listed, gathered, gathered_definitions, gathered_references,
    hover_in_modules, hover_of_definition, hover_of_reference, spot_in_modules, spot_of_definition,
    spot_of_listed, spot_of_reference, Gathered, HoverText, Snapshot, Spot};

verus! {

/// Whether an item of a module is named at a position and can be found.
pub open spec fn names_item(module: ModuleModel, position: Position, item: int) -> bool {
    &&& 0 <= item < module.definitions.len()
    &&& inside(position, module.definitions[item].selection_range)
    &&& has_place(module.definitions[item])
}

/// Whether a reference of a module stands at a position, and lists an item that can be found.
pub open spec fn uses_item(
    definitions: Seq<Def>,
    module: ModuleModel,
    position: Position,
    reference: int,
    k: int,
) -> bool {
    &&& 0 <= reference < module.resolved.len()
    &&& inside(position, module.resolved[reference].range)
    &&& lists_item(definitions, module.resolved[reference], k)
}

/// Whether a reference lists an item that can be found.
pub open spec fn lists_item(definitions: Seq<Def>, reference: Resolution, k: int) -> bool {
    &&& 0 <= k < reference.definitions.len()
    &&& reference.definitions[k] < definitions.len()
    &&& has_place(definitions[reference.definitions[k] as int])
}

/// Whether a module knows of something to go to at a position.
pub open spec fn leads_somewhere(definitions: Seq<Def>, module: ModuleModel, position: Position) -> bool {
    ||| exists|item: int| names_item(module, position, item)
    ||| exists|reference: int, k: int| uses_item(definitions, module, position, reference, k)
}

/// Whether a place is the one that a module leads to: that of the first item that is named there,
/// or, where none is, of the first item that the first reference there lists.
pub open spec fn leads_to(
    definitions: Seq<Def>,
    module: ModuleModel,
    position: Position,
    spot: Spot,
) -> bool {
    ||| exists|item: int|
        {
            &&& #[trigger] names_item(module, position, item)
            &&& found_at_place(module.definitions[item], spot)
            &&& forall|i: int| 0 <= i < item ==> !#[trigger] names_item(module, position, i)
        }
    ||| {
        &&& forall|item: int| !#[trigger] names_item(module, position, item)
        &&& exists|reference: int, k: int|
            {
                &&& #[trigger] uses_item(definitions, module, position, reference, k)
                &&& found_at_place(
                    definitions[module.resolved[reference].definitions[k] as int],
                    spot,
                )
                &&& forall|r: int, l: int|
                    r < reference || (r == reference && l < k) ==> !#[trigger] uses_item(
                        definitions,
                        module,
                        position,
                        r,
                        l,
                    )
            }
    }
}

proof fn lemma_spot_of_definition(module: ModuleModel, position: Position, at: int)
    requires
        0 <= at,
    ensures
        match spot_of_definition(module.definitions, position, at) {
            Some(spot) => exists|item: int|
                {
                    &&& at <= item
                    &&& #[trigger] names_item(module, position, item)
                    &&& found_at_place(module.definitions[item], spot)
                    &&& forall|i: int| at <= i < item ==> !#[trigger] names_item(module, position, i)
                },
            None => forall|i: int| at <= i ==> !#[trigger] names_item(module, position, i),
        },
    decreases module.definitions.len() - at,
{
    if at < module.definitions.len() {
        let item = module.definitions[at];
        law_covers(item.selection_range, position);
        law_spot(item);
        if item.selection_range.covers(position) && item.spot() is Some {
            assert(names_item(module, position, at));
        } else {
            lemma_spot_of_definition(module, position, at + 1);
            assert(!names_item(module, position, at));
        }
    }
}

proof fn lemma_spot_of_listed(definitions: Seq<Def>, reference: Resolution, at: int)
    requires
        0 <= at,
    ensures
        match spot_of_listed(definitions, reference.definitions, at) {
            Some(spot) => exists|k: int|
                {
                    &&& at <= k
                    &&& #[trigger] lists_item(definitions, reference, k)
                    &&& found_at_place(definitions[reference.definitions[k] as int], spot)
                    &&& forall|l: int| at <= l < k ==> !#[trigger] lists_item(definitions, reference, l)
                },
            None => forall|l: int| at <= l ==> !#[trigger] lists_item(definitions, reference, l),
        },
    decreases reference.definitions.len() - at,
{
    if at < reference.definitions.len() {
        let number = reference.definitions[at];
        if number < definitions.len() {
            law_spot(definitions[number as int]);
        }
        if number < definitions.len() && definitions[number as int].spot() is Some {
            assert(lists_item(definitions, reference, at));
        } else {
            lemma_spot_of_listed(definitions, reference, at + 1);
            assert(!lists_item(definitions, reference, at));
        }
    }
}

proof fn lemma_spot_of_reference(
    definitions: Seq<Def>,
    module: ModuleModel,
    position: Position,
    at: int,
)
    requires
        0 <= at,
    ensures
        match spot_of_reference(definitions, module.resolved, position, at) {
            Some(spot) => exists|reference: int, k: int|
                {
                    &&& at <= reference
                    &&& #[trigger] uses_item(definitions, module, position, reference, k)
                    &&& found_at_place(
                        definitions[module.resolved[reference].definitions[k] as int],
                        spot,
                    )
                    &&& forall|r: int, l: int|
                        at <= r < reference || (r == reference && l < k) ==> !#[trigger] uses_item(
                            definitions,
                            module,
                            position,
                            r,
                            l,
                        )
                },
            None => forall|r: int, l: int|
                at <= r ==> !#[trigger] uses_item(definitions, module, position, r, l),
        },
    decreases module.resolved.len() - at,
{
    if at < module.resolved.len() {
        let reference = module.resolved[at];
        law_covers(reference.range, position);
        lemma_spot_of_listed(definitions, reference, 0);
        let found = spot_of_listed(definitions, reference.definitions, 0);
        if reference.range.covers(position) && found is Some {
            let k = choose|k: int|
                {
                    &&& 0 <= k
                    &&& #[trigger] lists_item(definitions, reference, k)
                    &&& found_at_place(definitions[reference.definitions[k] as int], found.unwrap())
                    &&& forall|l: int| 0 <= l < k ==> !#[trigger] lists_item(definitions, reference, l)
                };
            assert(uses_item(definitions, module, position, at, k));
            assert forall|r: int, l: int| at <= r < at || (r == at && l < k) implies !#[trigger] uses_item(
                definitions,
                module,
                position,
                r,
                l,
            ) by {
                assert(!lists_item(definitions, reference, l));
            }
        } else {
            lemma_spot_of_reference(definitions, module, position, at + 1);
            assert forall|l: int| !#[trigger] uses_item(definitions, module, position, at, l) by {
                if reference.range.covers(position) {
                    assert(!lists_item(definitions, reference, l));
                }
            }
        }
    }
}

proof fn lemma_spot_in_modules(
    definitions: Seq<Def>,
    modules: Seq<ModuleModel>,
    position: Position,
    at: int,
)
    requires
        0 <= at,
    ensures
        match spot_in_modules(definitions, modules, position, at) {
            Some(spot) => exists|m: int|
                {
                    &&& at <= m < modules.len()
                    &&& #[trigger] leads_to(definitions, modules[m], position, spot)
                    &&& forall|i: int|
                        at <= i < m ==> !#[trigger] leads_somewhere(definitions, modules[i], position)
                },
            None => forall|i: int|
                at <= i < modules.len() ==> !#[trigger] leads_somewhere(
                    definitions,
                    modules[i],
                    position,
                ),
        },
    decreases modules.len() - at,
{
    if at < modules.len() {
        let module = modules[at];
        lemma_spot_of_definition(module, position, 0);
        lemma_spot_of_reference(definitions, module, position, 0);
        match spot_of_definition(module.definitions, position, 0) {
            Some(spot) => {
                assert(leads_to(definitions, module, position, spot));
            },
            None => {
                assert forall|item: int| !#[trigger] names_item(module, position, item) by {}
                match spot_of_reference(definitions, module.resolved, position, 0) {
                    Some(spot) => {
                        let (reference, k) = choose|reference: int, k: int|
                            {
                                &&& 0 <= reference
                                &&& #[trigger] uses_item(definitions, module, position, reference, k)
                                &&& found_at_place(
                                    definitions[module.resolved[reference].definitions[k] as int],
                                    spot,
                                )
                                &&& forall|r: int, l: int|
                                    0 <= r < reference || (r == reference && l < k) ==> !
                                    #[trigger] uses_item(definitions, module, position, r, l)
                            };
                        assert forall|r: int, l: int|
                            r < reference || (r == reference && l < k) implies !#[trigger] uses_item(
                            definitions,
                            module,
                            position,
                            r,
                            l,
                        ) by {}
                        assert(uses_item(definitions, module, position, reference, k));
                        assert(leads_to(definitions, module, position, spot));
                    },
                    None => {
                        lemma_spot_in_modules(definitions, modules, position, at + 1);
                        assert(!leads_somewhere(definitions, module, position));
                    },
                }
            },
        }
    }
}

/// Going to a definition leads to what the first module leads to that knows of something at the
/// position: an item that is named there, or one that a reference there lists. Where no module knows
/// of anything at the position, it leads nowhere.
pub proof fn law_definition_at(snapshot: Snapshot, path: Seq<char>, position: Position)
    ensures
        match snapshot.definition_at(path, position) {
            Some(spot) => exists|m: int|
                {
                    &&& 0 <= m < snapshot.modules(path).len()
                    &&& #[trigger] leads_to(
                        snapshot.definitions,
                        snapshot.modules(path)[m],
                        position,
                        spot,
                    )
                    &&& forall|i: int|
                        0 <= i < m ==> !#[trigger] leads_somewhere(
                            snapshot.definitions,
                            snapshot.modules(path)[i],
                            position,
                        )
                },
            None => forall|i: int|
                0 <= i < snapshot.modules(path).len() ==> !#[trigger] leads_somewhere(
                    snapshot.definitions,
                    snapshot.modules(path)[i],
                    position,
                ),
        },
{
    lemma_spot_in_modules(snapshot.definitions, snapshot.modules(path), position, 0);
}

/// A place that going to a definition leads to is that of an item that is named at the position in
/// some module of the file, or of an item that a reference at the position lists; and where any module
/// of the file has such an item or reference, going there leads somewhere.
pub proof fn law_definitions_are_reached(
    snapshot: Snapshot,
    path: Seq<char>,
    position: Position,
    m: int,
)
    requires
        0 <= m < snapshot.modules(path).len(),
    ensures
        snapshot.definition_at(path, position) is Some ==> exists|n: int|
            0 <= n < snapshot.modules(path).len() && #[trigger] leads_to(
                snapshot.definitions,
                snapshot.modules(path)[n],
                position,
                snapshot.definition_at(path, position).unwrap(),
            ),
        (exists|item: int| names_item(snapshot.modules(path)[m], position, item))
            ==> snapshot.definition_at(path, position) is Some,
        (exists|reference: int, k: int|
            uses_item(snapshot.definitions, snapshot.modules(path)[m], position, reference, k))
            ==> snapshot.definition_at(path, position) is Some,
{
    law_definition_at(snapshot, path, position);
    if snapshot.definition_at(path, position) is None {
        assert(!leads_somewhere(snapshot.definitions, snapshot.modules(path)[m], position));
    }
}

/// Whether an item of a module is named at a position.
pub open spec fn is_named(module: ModuleModel, position: Position, item: int) -> bool {
    0 <= item < module.definitions.len() && inside(
        position,
        module.definitions[item].selection_range,
    )
}

/// Whether a reference of a module stands at a position, and lists an item.
pub open spec fn is_used(
    definitions: Seq<Def>,
    module: ModuleModel,
    position: Position,
    reference: int,
    k: int,
) -> bool {
    &&& 0 <= reference < module.resolved.len()
    &&& inside(position, module.resolved[reference].range)
    &&& 0 <= k < module.resolved[reference].definitions.len()
    &&& module.resolved[reference].definitions[k] < definitions.len()
}

/// Whether a module knows of something to show at a position.
pub open spec fn shows_something(definitions: Seq<Def>, module: ModuleModel, position: Position) -> bool {
    ||| exists|item: int| is_named(module, position, item)
    ||| exists|reference: int, k: int| is_used(definitions, module, position, reference, k)
}

/// Whether a hover shows an item: the text of its hover, at its name.
pub open spec fn is_hover_of(item: Def, hover: HoverText) -> bool {
    hover.contents == item.hover && hover.range == item.selection_range
}

/// Whether a hover is the one that a module shows: that of the first item that is named there, or,
/// where none is, of the first item that the first reference there lists.
pub open spec fn shows(
    definitions: Seq<Def>,
    module: ModuleModel,
    position: Position,
    hover: HoverText,
) -> bool {
    ||| exists|item: int|
        {
            &&& #[trigger] is_named(module, position, item)
            &&& is_hover_of(module.definitions[item], hover)
            &&& forall|i: int| 0 <= i < item ==> !#[trigger] is_named(module, position, i)
        }
    ||| {
        &&& forall|item: int| !#[trigger] is_named(module, position, item)
        &&& exists|reference: int, k: int|
            {
                &&& #[trigger] is_used(definitions, module, position, reference, k)
                &&& is_hover_of(
                    definitions[module.resolved[reference].definitions[k] as int],
                    hover,
                )
                &&& forall|r: int, l: int|
                    r < reference || (r == reference && l < k) ==> !#[trigger] is_used(
                        definitions,
                        module,
                        position,
                        r,
                        l,
                    )
            }
    }
}

proof fn lemma_hover_of_definition(module: ModuleModel, position: Position, at: int)
    requires
        0 <= at,
    ensures
        match hover_of_definition(module.definitions, position, at) {
            Some(hover) => exists|item: int|
                {
                    &&& at <= item
                    &&& #[trigger] is_named(module, position, item)
                    &&& is_hover_of(module.definitions[item], hover)
                    &&& forall|i: int| at <= i < item ==> !#[trigger] is_named(module, position, i)
                },
            None => forall|i: int| at <= i ==> !#[trigger] is_named(module, position, i),
        },
    decreases module.definitions.len() - at,
{
    if at < module.definitions.len() {
        let item = module.definitions[at];
        law_covers(item.selection_range, position);
        if item.selection_range.covers(position) {
            assert(is_named(module, position, at));
        } else {
            lemma_hover_of_definition(module, position, at + 1);
            assert(!is_named(module, position, at));
        }
    }
}

proof fn lemma_first_listed(definitions: Seq<Def>, listed: Seq<usize>, at: int)
    requires
        0 <= at,
    ensures
        match first_listed(definitions, listed, at) {
            Some(item) => exists|k: int|
                {
                    &&& at <= k < listed.len()
                    &&& (#[trigger] listed[k]) < definitions.len()
                    &&& item == definitions[listed[k] as int]
                    &&& forall|l: int| at <= l < k ==> (#[trigger] listed[l]) >= definitions.len()
                },
            None => forall|l: int| at <= l < listed.len() ==> (#[trigger] listed[l])
                >= definitions.len(),
        },
    decreases listed.len() - at,
{
    if at < listed.len() && listed[at] >= definitions.len() {
        lemma_first_listed(definitions, listed, at + 1);
    }
}

proof fn lemma_hover_of_reference(
    definitions: Seq<Def>,
    module: ModuleModel,
    position: Position,
    at: int,
)
    requires
        0 <= at,
    ensures
        match hover_of_reference(definitions, module.resolved, position, at) {
            Some(hover) => exists|reference: int, k: int|
                {
                    &&& at <= reference
                    &&& #[trigger] is_used(definitions, module, position, reference, k)
                    &&& is_hover_of(
                        definitions[module.resolved[reference].definitions[k] as int],
                        hover,
                    )
                    &&& forall|r: int, l: int|
                        at <= r < reference || (r == reference && l < k) ==> !#[trigger] is_used(
                            definitions,
                            module,
                            position,
                            r,
                            l,
                        )
                },
            None => forall|r: int, l: int|
                at <= r ==> !#[trigger] is_used(definitions, module, position, r, l),
        },
    decreases module.resolved.len() - at,
{
    if at < module.resolved.len() {
        let reference = module.resolved[at];
        let listed = reference.definitions;
        law_covers(reference.range, position);
        lemma_first_listed(definitions, listed, 0);
        let found = first_listed(definitions, listed, 0);
        if reference.range.covers(position) && found is Some {
            let k = choose|k: int|
                {
                    &&& 0 <= k < listed.len()
                    &&& (#[trigger] listed[k]) < definitions.len()
                    &&& found.unwrap() == definitions[listed[k] as int]
                    &&& forall|l: int| 0 <= l < k ==> (#[trigger] listed[l]) >= definitions.len()
                };
            assert(is_used(definitions, module, position, at, k));
            assert forall|r: int, l: int| at <= r < at || (r == at && l < k) implies !#[trigger] is_used(
                definitions,
                module,
                position,
                r,
                l,
            ) by {
                if 0 <= l {
                    assert(listed[l] >= definitions.len());
                }
            }
        } else {
            lemma_hover_of_reference(definitions, module, position, at + 1);
            assert forall|l: int| !#[trigger] is_used(definitions, module, position, at, l) by {
                if reference.range.covers(position) && 0 <= l < listed.len() {
                    assert(listed[l] >= definitions.len());
                }
            }
        }
    }
}

proof fn lemma_hover_in_modules(
    definitions: Seq<Def>,
    modules: Seq<ModuleModel>,
    position: Position,
    at: int,
)
    requires
        0 <= at,
    ensures
        match hover_in_modules(definitions, modules, position, at) {
            Some(hover) => exists|m: int|
                {
                    &&& at <= m < modules.len()
                    &&& #[trigger] shows(definitions, modules[m], position, hover)
                    &&& forall|i: int|
                        at <= i < m ==> !#[trigger] shows_something(definitions, modules[i], position)
                },
            None => forall|i: int|
                at <= i < modules.len() ==> !#[trigger] shows_something(
                    definitions,
                    modules[i],
                    position,
                ),
        },
    decreases modules.len() - at,
{
    if at < modules.len() {
        let module = modules[at];
        lemma_hover_of_definition(module, position, 0);
        lemma_hover_of_reference(definitions, module, position, 0);
        match hover_of_definition(module.definitions, position, 0) {
            Some(hover) => {
                assert(shows(definitions, module, position, hover));
            },
            None => {
                assert forall|item: int| !#[trigger] is_named(module, position, item) by {}
                match hover_of_reference(definitions, module.resolved, position, 0) {
                    Some(hover) => {
                        let (reference, k) = choose|reference: int, k: int|
                            {
                                &&& 0 <= reference
                                &&& #[trigger] is_used(definitions, module, position, reference, k)
                                &&& is_hover_of(
                                    definitions[module.resolved[reference].definitions[k] as int],
                                    hover,
                                )
                                &&& forall|r: int, l: int|
                                    0 <= r < reference || (r == reference && l < k) ==> !
                                    #[trigger] is_used(definitions, module, position, r, l)
                            };
                        assert forall|r: int, l: int|
                            r < reference || (r == reference && l < k) implies !#[trigger] is_used(
                            definitions,
                            module,
                            position,
                            r,
                            l,
                        ) by {}
                        assert(is_used(definitions, module, position, reference, k));
                        assert(shows(definitions, module, position, hover));
                    },
                    None => {
                        lemma_hover_in_modules(definitions, modules, position, at + 1);
                        assert(!shows_something(definitions, module, position));
                    },
                }
            },
        }
    }
}

/// Hovering shows what the first module shows that knows of something at the position: an item that
/// is named there, or one that a reference there lists. Where no module knows of anything at the
/// position, nothing is shown.
pub proof fn law_hover_at(snapshot: Snapshot, path: Seq<char>, position: Position)
    ensures
        match snapshot.hover_at(path, position) {
            Some(hover) => exists|m: int|
                {
                    &&& 0 <= m < snapshot.modules(path).len()
                    &&& #[trigger] shows(
                        snapshot.definitions,
                        snapshot.modules(path)[m],
                        position,
                        hover,
                    )
                    &&& forall|i: int|
                        0 <= i < m ==> !#[trigger] shows_something(
                            snapshot.definitions,
                            snapshot.modules(path)[i],
                            position,
                        )
                },
            None => forall|i: int|
                0 <= i < snapshot.modules(path).len() ==> !#[trigger] shows_something(
                    snapshot.definitions,
                    snapshot.modules(path)[i],
                    position,
                ),
        },
{
    lemma_hover_in_modules(snapshot.definitions, snapshot.modules(path), position, 0);
}

/// Whether a reference of a module stands at a position.
pub open spec fn is_used_at(module: ModuleModel, position: Position, reference: int) -> bool {
    0 <= reference < module.resolved.len() && inside(position, module.resolved[reference].range)
}

/// Whether a number is one that a module means at a position: that of an item with the context and
/// path of one that is named there, or one that a reference there lists.
pub open spec fn means(
    definitions: Seq<Def>,
    module: ModuleModel,
    position: Position,
    number: usize,
) -> bool {
    ||| {
        &&& number < definitions.len()
        &&& exists|item: int|
            {
                &&& #[trigger] is_named(module, position, item)
                &&& definitions[number as int].context == module.definitions[item].context
                &&& definitions[number as int].path == module.definitions[item].path
            }
    }
    ||| exists|reference: int|
        #[trigger] is_used_at(module, position, reference)
            && module.resolved[reference].definitions.contains(number)
}

/// Whether anything of a module stands at a position.
pub open spec fn has_something(module: ModuleModel, position: Position) -> bool {
    ||| exists|item: int| is_named(module, position, item)
    ||| exists|reference: int| is_used_at(module, position, reference)
}

/// Whether a range is the first that a module has at a position: that of its first item there, or,
/// where none is, of its first reference there.
pub open spec fn is_first_range(module: ModuleModel, position: Position, range: Range) -> bool {
    ||| exists|item: int|
        {
            &&& #[trigger] is_named(module, position, item)
            &&& module.definitions[item].selection_range == range
            &&& forall|i: int| i < item ==> !#[trigger] is_named(module, position, i)
        }
    ||| {
        &&& forall|item: int| !#[trigger] is_named(module, position, item)
        &&& exists|reference: int|
            {
                &&& #[trigger] is_used_at(module, position, reference)
                &&& module.resolved[reference].range == range
                &&& forall|r: int| r < reference ==> !#[trigger] is_used_at(module, position, r)
            }
    }
}

proof fn lemma_in_context_exact(
    definitions: Seq<Def>,
    context: Context,
    path: Seq<char>,
    count: nat,
    number: usize,
)
    requires
        count <= definitions.len() <= usize::MAX,
    ensures
        in_context(definitions, context, path, count).contains(number) <==> number < count
            && definitions[number as int].context == context && definitions[number as int].path
            == path,
    decreases count,
{
    if count > 0 {
        lemma_in_context_exact(definitions, context, path, (count - 1) as nat, number);
        let before = in_context(definitions, context, path, (count - 1) as nat);
        let last = (count - 1) as usize;
        lemma_push_contains(before, last, number);
    }
}

/// What a list holds with one more entry.
pub proof fn lemma_push_contains<T>(list: Seq<T>, more: T, entry: T)
    ensures
        list.push(more).contains(entry) <==> list.contains(entry) || entry == more,
{
    let longer = list.push(more);
    if list.contains(entry) {
        let i = choose|i: int| 0 <= i < list.len() && list[i] == entry;
        assert(longer[i] == entry);
    }
    if entry == more {
        assert(longer[list.len() as int] == entry);
    }
    if longer.contains(entry) {
        let i = choose|i: int| 0 <= i < longer.len() && longer[i] == entry;
        if i < list.len() {
            assert(list[i] == entry);
        }
    }
}

/// What two lists hold together.
pub proof fn lemma_join_contains<T>(left: Seq<T>, right: Seq<T>, entry: T)
    ensures
        (left + right).contains(entry) <==> left.contains(entry) || right.contains(entry),
{
    let both = left + right;
    if left.contains(entry) {
        let i = choose|i: int| 0 <= i < left.len() && left[i] == entry;
        assert(both[i] == entry);
    }
    if right.contains(entry) {
        let i = choose|i: int| 0 <= i < right.len() && right[i] == entry;
        assert(both[left.len() + i] == entry);
    }
    if both.contains(entry) {
        let i = choose|i: int| 0 <= i < both.len() && both[i] == entry;
        if i < left.len() {
            assert(left[i] == entry);
        } else {
            assert(right[i - left.len()] == entry);
        }
    }
}

proof fn lemma_gathered_definitions(
    definitions: Seq<Def>,
    module: ModuleModel,
    position: Position,
    found: Gathered,
    count: nat,
    number: usize,
)
    requires
        count <= module.definitions.len(),
        definitions.len() <= usize::MAX,
    ensures
        ({
            let all = gathered_definitions(
                definitions,
                module.definitions,
                position,
                found,
                count,
            );
            &&& all.listed.contains(number) <==> {
                ||| found.listed.contains(number)
                ||| number < definitions.len() && exists|item: int|
                    {
                        &&& item < count
                        &&& #[trigger] is_named(module, position, item)
                        &&& definitions[number as int].context == module.definitions[item].context
                        &&& definitions[number as int].path == module.definitions[item].path
                    }
            }
            &&& found.range is Some ==> all.range == found.range
            &&& all.range is None ==> forall|item: int|
                item < count ==> !#[trigger] is_named(module, position, item)
            &&& found.range is None && all.range is Some ==> exists|item: int|
                {
                    &&& item < count
                    &&& #[trigger] is_named(module, position, item)
                    &&& module.definitions[item].selection_range == all.range.unwrap()
                    &&& forall|i: int| i < item ==> !#[trigger] is_named(module, position, i)
                }
        }),
    decreases count,
{
    if count > 0 {
        let last = count - 1;
        lemma_gathered_definitions(
            definitions,
            module,
            position,
            found,
            last as nat,
            number,
        );
        let before = gathered_definitions(
            definitions,
            module.definitions,
            position,
            found,
            last as nat,
        );
        let item = module.definitions[last];
        law_covers(item.selection_range, position);
        if item.selection_range.covers(position) {
            assert(is_named(module, position, last));
            let more = in_context(definitions, item.context, item.path, definitions.len());
            lemma_in_context_exact(
                definitions,
                item.context,
                item.path,
                definitions.len(),
                number,
            );
            lemma_join_contains(before.listed, more, number);
        } else {
            assert(!is_named(module, position, last));
        }
    }
}

proof fn lemma_gathered_references(
    module: ModuleModel,
    position: Position,
    found: Gathered,
    count: nat,
    number: usize,
)
    requires
        count <= module.resolved.len(),
    ensures
        ({
            let all = gathered_references(module.resolved, position, found, count);
            &&& all.listed.contains(number) <==> {
                ||| found.listed.contains(number)
                ||| exists|reference: int|
                    {
                        &&& reference < count
                        &&& #[trigger] is_used_at(module, position, reference)
                        &&& module.resolved[reference].definitions.contains(number)
                    }
            }
            &&& found.range is Some ==> all.range == found.range
            &&& all.range is None ==> forall|reference: int|
                reference < count ==> !#[trigger] is_used_at(module, position, reference)
            &&& found.range is None && all.range is Some ==> exists|reference: int|
                {
                    &&& reference < count
                    &&& #[trigger] is_used_at(module, position, reference)
                    &&& module.resolved[reference].range == all.range.unwrap()
                    &&& forall|r: int| r < reference ==> !#[trigger] is_used_at(module, position, r)
                }
        }),
    decreases count,
{
    if count > 0 {
        let last = count - 1;
        lemma_gathered_references(module, position, found, last as nat, number);
        let before = gathered_references(module.resolved, position, found, last as nat);
        let reference = module.resolved[last];
        law_covers(reference.range, position);
        if reference.range.covers(position) {
            assert(is_used_at(module, position, last));
            lemma_join_contains(before.listed, reference.definitions, number);
        } else {
            assert(!is_used_at(module, position, last));
        }
    }
}

proof fn lemma_gathered(
    definitions: Seq<Def>,
    modules: Seq<ModuleModel>,
    position: Position,
    count: nat,
    number: usize,
)
    requires
        count <= modules.len(),
        definitions.len() <= usize::MAX,
    ensures
        ({
            let all = gathered(definitions, modules, position, count);
            &&& all.listed.contains(number) <==> exists|m: int|
                0 <= m < count && #[trigger] means(definitions, modules[m], position, number)
            &&& all.range is None ==> forall|m: int|
                0 <= m < count ==> !#[trigger] has_something(modules[m], position)
            &&& all.range is Some ==> exists|m: int|
                {
                    &&& 0 <= m < count
                    &&& #[trigger] is_first_range(modules[m], position, all.range.unwrap())
                    &&& forall|i: int| 0 <= i < m ==> !#[trigger] has_something(modules[i], position)
                }
        }),
    decreases count,
{
    if count == 0 {
        assert(!gathered(definitions, modules, position, count).listed.contains(number));
    } else {
        let last = count - 1;
        lemma_gathered(definitions, modules, position, last as nat, number);
        let module = modules[last];
        let before = gathered(definitions, modules, position, last as nat);
        let middle = gathered_definitions(
            definitions,
            module.definitions,
            position,
            before,
            module.definitions.len(),
        );
        let all = gathered(definitions, modules, position, count);
        lemma_gathered_definitions(
            definitions,
            module,
            position,
            before,
            module.definitions.len(),
            number,
        );
        lemma_gathered_references(module, position, middle, module.resolved.len(), number);
        assert(all.listed.contains(number) <==> before.listed.contains(number) || means(
            definitions,
            module,
            position,
            number,
        )) by {
            if number < definitions.len() {
                if exists|item: int|
                    {
                        &&& #[trigger] is_named(module, position, item)
                        &&& definitions[number as int].context == module.definitions[item].context
                        &&& definitions[number as int].path == module.definitions[item].path
                    } {
                    assert(middle.listed.contains(number));
                }
            }
        }
        if all.listed.contains(number) && !before.listed.contains(number) {
            assert(means(definitions, modules[last], position, number));
        }
        if before.range is None {
            if all.range is Some {
                assert(is_first_range(module, position, all.range.unwrap()));
            } else {
                assert(!has_something(modules[last], position));
            }
        }
    }
}

proof fn lemma_ascending(listed: Seq<usize>, count: nat, number: usize)
    requires
        count <= usize::MAX,
    ensures
        ascending(listed, count).contains(number) <==> number < count && listed.contains(number),
        forall|i: int, j: int|
            0 <= i < j < ascending(listed, count).len() ==> #[trigger] ascending(listed, count)[i]
                < #[trigger] ascending(listed, count)[j],
    decreases count,
{
    if count > 0 {
        lemma_ascending(listed, (count - 1) as nat, number);
        crate::references::lemma_ascending_below(listed, (count - 1) as nat);
        lemma_push_contains(
            ascending(listed, (count - 1) as nat),
            (count - 1) as usize,
            number,
        );
    }
}

/// The symbol at a position is made of the items that some module of the file means there, each once
/// and in their order, and it stands at the first range there. There is a symbol exactly where some
/// module means an item.
pub proof fn law_symbol_at(snapshot: Snapshot, path: Seq<char>, position: Position)
    requires
        snapshot.definitions.len() <= usize::MAX,
    ensures
        snapshot.symbol_at(path, position) is Some <==> exists|m: int, number: usize|
            0 <= m < snapshot.modules(path).len() && #[trigger] means(
                snapshot.definitions,
                snapshot.modules(path)[m],
                position,
                number,
            ),
        match snapshot.symbol_at(path, position) {
            Some((listed, range)) => {
                &&& forall|number: usize| #[trigger]
                    listed.contains(number) <==> number < snapshot.definitions.len() && exists|m: int|
                        0 <= m < snapshot.modules(path).len() && #[trigger] means(
                            snapshot.definitions,
                            snapshot.modules(path)[m],
                            position,
                            number,
                        )
                &&& forall|i: int, j: int|
                    0 <= i < j < listed.len() ==> #[trigger] listed[i] < #[trigger] listed[j]
                &&& exists|m: int|
                    {
                        &&& 0 <= m < snapshot.modules(path).len()
                        &&& #[trigger] is_first_range(snapshot.modules(path)[m], position, range)
                        &&& forall|i: int|
                            0 <= i < m ==> !#[trigger] has_something(
                                snapshot.modules(path)[i],
                                position,
                            )
                    }
            },
            None => true,
        },
{
    let definitions = snapshot.definitions;
    let modules = snapshot.modules(path);
    let found = gathered(definitions, modules, position, modules.len());
    assert forall|number: usize|
        {
            &&& #[trigger] found.listed.contains(number) <==> exists|m: int|
                0 <= m < modules.len() && #[trigger] means(definitions, modules[m], position, number)
            &&& ascending(found.listed, definitions.len()).contains(number) <==> number
                < definitions.len() && found.listed.contains(number)
        } by {
        lemma_gathered(definitions, modules, position, modules.len(), number);
        lemma_ascending(found.listed, definitions.len(), number);
    }
    lemma_gathered(definitions, modules, position, modules.len(), 0);
    lemma_ascending(found.listed, definitions.len(), 0);
    if found.listed.len() > 0 {
        assert(found.listed.contains(found.listed[0]));
        let m = choose|m: int|
            0 <= m < modules.len() && #[trigger] means(
                definitions,
                modules[m],
                position,
                found.listed[0],
            );
        assert(has_something(modules[m], position));
    }
    if exists|m: int, number: usize|
        0 <= m < modules.len() && #[trigger] means(definitions, modules[m], position, number) {
        let (m, number) = choose|m: int, number: usize|
            0 <= m < modules.len() && #[trigger] means(definitions, modules[m], position, number);
        assert(found.listed.contains(number));
        assert(has_something(modules[m], position));
    }
    if let Some((listed, range)) = snapshot.symbol_at(path, position) {
        assert forall|number: usize| #[trigger]
            listed.contains(number) <==> number < definitions.len() && exists|m: int|
                0 <= m < modules.len() && #[trigger] means(
                    definitions,
                    modules[m],
                    position,
                    number,
                ) by {
            assert(found.listed.contains(number) <==> exists|m: int|
                0 <= m < modules.len() && #[trigger] means(
                    definitions,
                    modules[m],
                    position,
                    number,
                ));
        }
    }
}

/// Where going to a definition leads somewhere, hovering shows something.
pub proof fn law_definitions_can_be_hovered(snapshot: Snapshot, path: Seq<char>, position: Position)
    ensures
        snapshot.definition_at(path, position) is Some ==> snapshot.hover_at(path, position) is Some,
{
    law_definition_at(snapshot, path, position);
    law_hover_at(snapshot, path, position);
    if let Some(spot) = snapshot.definition_at(path, position) {
        let modules = snapshot.modules(path);
        let m = choose|m: int|
            {
                &&& 0 <= m < modules.len()
                &&& #[trigger] leads_to(snapshot.definitions, modules[m], position, spot)
                &&& forall|i: int|
                    0 <= i < m ==> !#[trigger] leads_somewhere(
                        snapshot.definitions,
                        modules[i],
                        position,
                    )
            };
        let module = modules[m];
        if exists|item: int| names_item(module, position, item) {
            let item = choose|item: int| names_item(module, position, item);
            assert(is_named(module, position, item));
        } else {
            let (reference, k) = choose|reference: int, k: int|
                uses_item(snapshot.definitions, module, position, reference, k);
            assert(is_used(snapshot.definitions, module, position, reference, k));
        }
        assert(shows_something(snapshot.definitions, module, position));
    }
}

} // verus!
