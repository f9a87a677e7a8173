//! What is shown beside a text, and what a search finds: the laws of hints, lenses and symbols.
use vstd::prelude::*;
use crate::hints::{call_hint, call_hints, lenses_of, loaded, lowercase, symbols_found, symbols_in,
    FoundSymbol, HintText, LensText};
use crate::meaning::{found_at_place, has_place, inside, law_covers, law_intersects, law_spot,
    lemma_picks, number_of, picks};
use crate::model::{Context, Def, ModuleModel, Resolution};
use crate::position::{Position, Range};
use crate::snapshot::{first_listed, item_of_reference, visible_listed, ProjectSnapshot, Snapshot};
use crate::stack_effect::{overlay_at, stack_hints, Hint, PlacedOverlay};
use crate::words::{contains_text, found_at};

verus! {

/// Whether a reference lists an item.
pub open spec fn lists(definitions: Seq<Def>, reference: Resolution, k: int) -> bool {
    0 <= k < reference.definitions.len() && reference.definitions[k] < definitions.len()
}

/// Whether a reference lists an item that a context can see.
pub open spec fn lists_visible(
    definitions: Seq<Def>,
    context: Context,
    reference: Resolution,
    k: int,
) -> bool {
    &&& lists(definitions, reference, k)
    &&& definitions[reference.definitions[k] as int].context == context
        || definitions[reference.definitions[k] as int].visible_outside_context
}

/// Whether the entry `k` of a reference's list is the item that it stands for in a context: the first
/// one that the context can see, or the first one where it can see none.
pub open spec fn stands_for(
    definitions: Seq<Def>,
    context: Context,
    reference: Resolution,
    k: int,
) -> bool {
    ||| {
        &&& lists_visible(definitions, context, reference, k)
        &&& forall|l: int| l < k ==> !#[trigger] lists_visible(definitions, context, reference, l)
    }
    ||| {
        &&& lists(definitions, reference, k)
        &&& forall|l: int| !#[trigger] lists_visible(definitions, context, reference, l)
        &&& forall|l: int| l < k ==> !#[trigger] lists(definitions, reference, l)
    }
}

proof fn lemma_visible_listed(
    definitions: Seq<Def>,
    context: Context,
    reference: Resolution,
    at: int,
)
    requires
        0 <= at,
    ensures
        match visible_listed(definitions, context, reference.definitions, at) {
            Some(item) => exists|k: int|
                {
                    &&& at <= k
                    &&& #[trigger] lists_visible(definitions, context, reference, k)
                    &&& item == definitions[reference.definitions[k] as int]
                    &&& forall|l: int|
                        at <= l < k ==> !#[trigger] lists_visible(
                            definitions,
                            context,
                            reference,
                            l,
                        )
                },
            None => forall|l: int|
                at <= l ==> !#[trigger] lists_visible(definitions, context, reference, l),
        },
    decreases reference.definitions.len() - at,
{
    if at < reference.definitions.len() {
        if lists_visible(definitions, context, reference, at) {
            assert(lists_visible(definitions, context, reference, at));
        } else {
            lemma_visible_listed(definitions, context, reference, at + 1);
        }
    }
}

proof fn lemma_first_listed(definitions: Seq<Def>, reference: Resolution, at: int)
    requires
        0 <= at,
    ensures
        match first_listed(definitions, reference.definitions, at) {
            Some(item) => exists|k: int|
                {
                    &&& at <= k
                    &&& #[trigger] lists(definitions, reference, k)
                    &&& item == definitions[reference.definitions[k] as int]
                    &&& forall|l: int| at <= l < k ==> !#[trigger] lists(definitions, reference, l)
                },
            None => forall|l: int| at <= l ==> !#[trigger] lists(definitions, reference, l),
        },
    decreases reference.definitions.len() - at,
{
    if at < reference.definitions.len() {
        if lists(definitions, reference, at) {
            assert(lists(definitions, reference, at));
        } else {
            lemma_first_listed(definitions, reference, at + 1);
        }
    }
}

/// A reference stands for the first item in its list that the context can see, and for the first one
/// where it can see none; it stands for nothing exactly where it lists nothing.
pub proof fn law_item_of_reference(definitions: Seq<Def>, context: Context, reference: Resolution)
    ensures
        match item_of_reference(definitions, context, reference) {
            Some(item) => exists|k: int| #[trigger]
                stands_for(definitions, context, reference, k) && item
                    == definitions[reference.definitions[k] as int],
            None => forall|k: int| !#[trigger] lists(definitions, reference, k),
        },
{
    lemma_visible_listed(definitions, context, reference, 0);
    lemma_first_listed(definitions, reference, 0);
    match visible_listed(definitions, context, reference.definitions, 0) {
        Some(item) => {
            let k = choose|k: int|
                {
                    &&& 0 <= k
                    &&& #[trigger] lists_visible(definitions, context, reference, k)
                    &&& item == definitions[reference.definitions[k] as int]
                    &&& forall|l: int|
                        0 <= l < k ==> !#[trigger] lists_visible(
                            definitions,
                            context,
                            reference,
                            l,
                        )
                };
            assert forall|l: int| l < k implies !#[trigger] lists_visible(
                definitions,
                context,
                reference,
                l,
            ) by {}
            assert(stands_for(definitions, context, reference, k));
        },
        None => {
            assert forall|l: int| !#[trigger] lists_visible(definitions, context, reference, l) by {}
            match first_listed(definitions, reference.definitions, 0) {
                Some(item) => {
                    let k = choose|k: int|
                        {
                            &&& 0 <= k
                            &&& #[trigger] lists(definitions, reference, k)
                            &&& item == definitions[reference.definitions[k] as int]
                            &&& forall|l: int|
                                0 <= l < k ==> !#[trigger] lists(definitions, reference, l)
                        };
                    assert forall|l: int| l < k implies !#[trigger] lists(definitions, reference, l) by {}
                    assert(stands_for(definitions, context, reference, k));
                },
                None => {},
            }
        },
    }
}

/// Whether a reference is a call that is seen in a range and stands for an item with a signature.
pub open spec fn is_hinted(
    definitions: Seq<Def>,
    module: ModuleModel,
    visible: Range,
    reference: Resolution,
) -> bool {
    &&& reference.kind is Invoke
    &&& number_of(reference.range.start) <= number_of(visible.end)
    &&& number_of(visible.start) <= number_of(reference.range.end)
    &&& exists|k: int|
        #[trigger] stands_for(definitions, module.context, reference, k)
            && definitions[reference.definitions[k] as int].signature is Some
}

/// The calls of a module that are hinted.
pub open spec fn hinted_calls(definitions: Seq<Def>, module: ModuleModel, visible: Range) -> spec_fn(
    int,
) -> bool {
    |r: int| is_hinted(definitions, module, visible, module.resolved[r])
}

/// Whether a hint is the one for a call: it stands at the end of the call and shows the signature of
/// the item, with its hover, its place and its path.
pub open spec fn is_hint_for(
    definitions: Seq<Def>,
    module: ModuleModel,
    reference: Resolution,
    hint: HintText,
) -> bool {
    exists|k: int|
        {
            &&& #[trigger] stands_for(definitions, module.context, reference, k)
            &&& hint.position == reference.range.end
            &&& Some(hint.label) == match definitions[reference.definitions[k] as int].signature {
                Some(signature) => Some(" "@ + signature),
                None => None,
            }
            &&& hint.label_tooltip == definitions[reference.definitions[k] as int].hover
            &&& hint.label_location == definitions[reference.definitions[k] as int].spot()
            &&& hint.tooltip == "resolved to `"@ + definitions[reference.definitions[k] as int].path
                + "`"@
        }
}

proof fn lemma_stands_for_one(
    definitions: Seq<Def>,
    context: Context,
    reference: Resolution,
    k: int,
    l: int,
)
    requires
        stands_for(definitions, context, reference, k),
        stands_for(definitions, context, reference, l),
    ensures
        k == l,
{
    assert(lists(definitions, reference, k) && lists(definitions, reference, l));
    if lists_visible(definitions, context, reference, k) {
        assert(lists_visible(definitions, context, reference, l));
    }
}

proof fn lemma_call_hint(
    definitions: Seq<Def>,
    module: ModuleModel,
    visible: Range,
    reference: Resolution,
)
    ensures
        match call_hint(definitions, module, reference) {
            Some(hint) => {
                &&& is_hint_for(definitions, module, reference, hint)
                &&& is_hinted(definitions, module, visible, reference) <==> reference.kind is Invoke
                    && reference.range.touches(visible)
            },
            None => !is_hinted(definitions, module, visible, reference),
        },
{
    let context = module.context;
    law_item_of_reference(definitions, context, reference);
    match item_of_reference(definitions, context, reference) {
        Some(item) => {
            let k = choose|k: int| #[trigger]
                stands_for(definitions, context, reference, k) && item
                    == definitions[reference.definitions[k] as int];
            assert forall|l: int| #[trigger] stands_for(definitions, context, reference, l) implies l
                == k by {
                lemma_stands_for_one(definitions, context, reference, k, l);
            }
            assert(stands_for(definitions, context, reference, k));
        },
        None => {
            assert forall|l: int| !#[trigger] stands_for(definitions, context, reference, l) by {
                assert(!lists(definitions, reference, l));
            }
        },
    }
}

proof fn lemma_call_hints(
    definitions: Seq<Def>,
    module: ModuleModel,
    visible: Range,
    count: nat,
) -> (calls: Seq<int>)
    requires
        count <= module.resolved.len(),
    ensures
        picks(calls, count as int, hinted_calls(definitions, module, visible)),
        call_hints(definitions, module, visible, count).len() == calls.len(),
        forall|k: int|
            0 <= k < calls.len() ==> is_hint_for(
                definitions,
                module,
                module.resolved[#[trigger] calls[k]],
                call_hints(definitions, module, visible, count)[k],
            ),
    decreases count,
{
    if count == 0 {
        Seq::empty()
    } else {
        let last = count - 1;
        let calls = lemma_call_hints(definitions, module, visible, last as nat);
        let wanted = hinted_calls(definitions, module, visible);
        lemma_picks(calls, last, wanted);
        lemma_call_hint(definitions, module, visible, module.resolved[last]);
        assert(wanted(last) == is_hinted(definitions, module, visible, module.resolved[last]));
        if wanted(last) {
            let more = calls.push(last);
            let before = call_hints(definitions, module, visible, last as nat);
            let after = call_hints(definitions, module, visible, count);
            assert forall|k: int| 0 <= k < more.len() implies is_hint_for(
                definitions,
                module,
                module.resolved[#[trigger] more[k]],
                after[k],
            ) by {
                if k < calls.len() {
                    assert(more[k] == calls[k]);
                    assert(after[k] == before[k]);
                }
            }
            more
        } else {
            calls
        }
    }
}

/// The hints in a range are those of the calls there that stand for an item with a signature, one for
/// each and in their order.
pub proof fn law_call_hints(definitions: Seq<Def>, module: ModuleModel, visible: Range)
    ensures
        exists|calls: Seq<int>|
            {
                &&& #[trigger] picks(
                    calls,
                    module.resolved.len() as int,
                    hinted_calls(definitions, module, visible),
                )
                &&& call_hints(definitions, module, visible, module.resolved.len()).len()
                    == calls.len()
                &&& forall|k: int|
                    0 <= k < calls.len() ==> is_hint_for(
                        definitions,
                        module,
                        module.resolved[#[trigger] calls[k]],
                        call_hints(definitions, module, visible, module.resolved.len())[k],
                    )
            },
{
    let calls = lemma_call_hints(definitions, module, visible, module.resolved.len());
    assert(picks(
        calls,
        module.resolved.len() as int,
        hinted_calls(definitions, module, visible),
    ));
}

/// Whether an item has a lens: it is a procedure, and an entrypoint or exported.
pub open spec fn has_lens(item: Def) -> bool {
    item.kind is Procedure && (item.entrypoint || item.exported)
}

/// The items that have a lens.
pub open spec fn items_with_lens(definitions: Seq<Def>) -> spec_fn(int) -> bool {
    |i: int| has_lens(definitions[i])
}

/// Whether a lens is the one above an item: it stands at the start of its name and tells its path;
/// that of an entrypoint tells the target, and that of another item that it is exported.
pub open spec fn is_lens_of(item: Def, lens: LensText) -> bool {
    &&& lens.range.start == item.selection_range.start
    &&& lens.range.end == item.selection_range.start
    &&& item.entrypoint ==> lens.title == "Entrypoint "@ + item.path && lens.message == item.path
        + " is the executable entrypoint for target `"@ + item.context.target + "`."@
    &&& !item.entrypoint ==> lens.title == "Exported as "@ + item.path && lens.message == item.path
        + " is exported from this package."@
}

proof fn lemma_lenses(definitions: Seq<Def>, count: nat) -> (items: Seq<int>)
    requires
        count <= definitions.len(),
    ensures
        picks(items, count as int, items_with_lens(definitions)),
        lenses_of(definitions, count).len() == items.len(),
        forall|k: int|
            0 <= k < items.len() ==> is_lens_of(
                definitions[#[trigger] items[k]],
                lenses_of(definitions, count)[k],
            ),
    decreases count,
{
    if count == 0 {
        Seq::empty()
    } else {
        let last = count - 1;
        let items = lemma_lenses(definitions, last as nat);
        let wanted = items_with_lens(definitions);
        lemma_picks(items, last, wanted);
        assert(wanted(last) == has_lens(definitions[last]));
        if wanted(last) {
            let more = items.push(last);
            let before = lenses_of(definitions, last as nat);
            let after = lenses_of(definitions, count);
            assert forall|k: int| 0 <= k < more.len() implies is_lens_of(
                definitions[#[trigger] more[k]],
                after[k],
            ) by {
                if k < items.len() {
                    assert(more[k] == items[k]);
                    assert(after[k] == before[k]);
                }
            }
            more
        } else {
            items
        }
    }
}

/// The lenses of a file are those of its entrypoints and its exported procedures, one for each and in
/// their order.
pub proof fn law_lenses(definitions: Seq<Def>)
    ensures
        exists|items: Seq<int>|
            {
                &&& #[trigger] picks(
                    items,
                    definitions.len() as int,
                    items_with_lens(definitions),
                )
                &&& lenses_of(definitions, definitions.len()).len() == items.len()
                &&& forall|k: int|
                    0 <= k < items.len() ==> is_lens_of(
                        definitions[#[trigger] items[k]],
                        lenses_of(definitions, definitions.len())[k],
                    )
            },
{
    let items = lemma_lenses(definitions, definitions.len());
    assert(picks(items, definitions.len() as int, items_with_lens(definitions)));
}

/// Whether a text stands somewhere in another one.
pub open spec fn stands_in(part: Seq<char>, text: Seq<char>) -> bool {
    exists|at: int| #[trigger] stands_at(part, text, at)
}

/// Whether a text stands at a place of another one.
pub open spec fn stands_at(part: Seq<char>, text: Seq<char>, at: int) -> bool {
    &&& 0 <= at
    &&& at + part.len() <= text.len()
    &&& forall|i: int| 0 <= i < part.len() ==> #[trigger] part[i] == text[at + i]
}

/// A text holds another one exactly where that stands in it.
pub proof fn law_contains_text(text: Seq<char>, part: Seq<char>)
    ensures
        contains_text(text, part) <==> stands_in(part, text),
{
    if contains_text(text, part) {
        let at = choose|at: int| #[trigger] found_at(text, part, at);
        assert forall|i: int| 0 <= i < part.len() implies #[trigger] part[i] == text[at + i] by {
            assert(text.subrange(at, at + part.len() as int)[i] == part[i]);
        }
        assert(stands_at(part, text, at));
    }
    if stands_in(part, text) {
        let at = choose|at: int| #[trigger] stands_at(part, text, at);
        assert(text.subrange(at, at + part.len() as int) =~= part);
        assert(found_at(text, part, at));
    }
}

/// Whether a search finds an item: it is no module, it has a place, and the query stands in its name
/// and the path of its module, all in lower case.
pub open spec fn is_searched(item: Def, query: Seq<char>) -> bool {
    &&& !(item.kind is Module)
    &&& has_place(item)
    &&& stands_in(lowercase(query), lowercase(item.name + " "@ + item.module))
}

/// The items that a search finds.
pub open spec fn searched_items(definitions: Seq<Def>, query: Seq<char>) -> spec_fn(int) -> bool {
    |i: int| is_searched(definitions[i], query)
}

/// Whether a symbol shows an item.
pub open spec fn is_symbol_of(item: Def, symbol: FoundSymbol) -> bool {
    &&& symbol.name == item.name
    &&& symbol.kind == item.symbol_kind
    &&& symbol.container == item.module
    &&& found_at_place(item, symbol.location)
}

proof fn lemma_symbols(definitions: Seq<Def>, query: Seq<char>, count: nat) -> (items: Seq<int>)
    requires
        count <= definitions.len(),
    ensures
        picks(items, count as int, searched_items(definitions, query)),
        symbols_found(definitions, query, count).len() == items.len(),
        forall|k: int|
            0 <= k < items.len() ==> is_symbol_of(
                definitions[#[trigger] items[k]],
                symbols_found(definitions, query, count)[k],
            ),
    decreases count,
{
    if count == 0 {
        Seq::empty()
    } else {
        let last = count - 1;
        let items = lemma_symbols(definitions, query, last as nat);
        let wanted = searched_items(definitions, query);
        let item = definitions[last];
        lemma_picks(items, last, wanted);
        law_spot(item);
        law_contains_text(lowercase(item.name + " "@ + item.module), lowercase(query));
        assert(wanted(last) == is_searched(item, query));
        if wanted(last) {
            let more = items.push(last);
            let before = symbols_found(definitions, query, last as nat);
            let after = symbols_found(definitions, query, count);
            assert forall|k: int| 0 <= k < more.len() implies is_symbol_of(
                definitions[#[trigger] more[k]],
                after[k],
            ) by {
                if k < items.len() {
                    assert(more[k] == items[k]);
                    assert(after[k] == before[k]);
                }
            }
            more
        } else {
            items
        }
    }
}

/// A search gives the symbols of exactly those items that are found, one for each and in their order.
pub proof fn law_symbols_found(definitions: Seq<Def>, query: Seq<char>)
    ensures
        exists|items: Seq<int>|
            {
                &&& #[trigger] picks(
                    items,
                    definitions.len() as int,
                    searched_items(definitions, query),
                )
                &&& symbols_found(definitions, query, definitions.len()).len() == items.len()
                &&& forall|k: int|
                    0 <= k < items.len() ==> is_symbol_of(
                        definitions[#[trigger] items[k]],
                        symbols_found(definitions, query, definitions.len())[k],
                    )
            },
{
    let items = lemma_symbols(definitions, query, definitions.len());
    assert(picks(items, definitions.len() as int, searched_items(definitions, query)));
}

/// A search over several projects finds a symbol exactly where one of them has an item that is found.
pub proof fn law_every_project_is_searched(
    snapshots: Seq<Snapshot>,
    query: Seq<char>,
    count: nat,
    symbol: FoundSymbol,
)
    requires
        count <= snapshots.len(),
    ensures
        symbols_in(snapshots, query, count).contains(symbol) <==> exists|s: int, i: int|
            {
                &&& 0 <= s < count
                &&& 0 <= i < snapshots[s].definitions.len()
                &&& is_searched(#[trigger] snapshots[s].definitions[i], query)
                &&& is_symbol_of(snapshots[s].definitions[i], symbol)
            },
    decreases count,
{
    if count > 0 {
        let last = count - 1;
        law_every_project_is_searched(snapshots, query, last as nat, symbol);
        let definitions = snapshots[last].definitions;
        let before = symbols_in(snapshots, query, last as nat);
        let more = symbols_found(definitions, query, definitions.len());
        let all = symbols_in(snapshots, query, count);
        let items = lemma_symbols(definitions, query, definitions.len());
        let wanted = searched_items(definitions, query);
        assert(all == before + more);
        if before.contains(symbol) {
            let k = choose|k: int| 0 <= k < before.len() && before[k] == symbol;
            assert(all[k] == symbol);
        }
        if all.contains(symbol) && !before.contains(symbol) {
            let k = choose|k: int| 0 <= k < all.len() && all[k] == symbol;
            if k < before.len() {
                assert(before[k] == symbol);
            }
            let l = k - before.len();
            assert(more[l] == symbol);
            let i = items[l];
            assert(wanted(i));
            assert(is_searched(snapshots[last].definitions[i], query));
        }
        if exists|i: int|
            {
                &&& 0 <= i < definitions.len()
                &&& is_searched(#[trigger] definitions[i], query)
                &&& is_symbol_of(definitions[i], symbol)
            } {
            let i = choose|i: int|
                {
                    &&& 0 <= i < definitions.len()
                    &&& is_searched(#[trigger] definitions[i], query)
                    &&& is_symbol_of(definitions[i], symbol)
                };
            assert(wanted(i));
            assert(items.contains(i));
            let l = choose|l: int| 0 <= l < items.len() && items[l] == i;
            law_spot(definitions[i]);
            assert(is_symbol_of(definitions[items[l]], more[l]));
            assert(more[l] == symbol);
            assert(all[before.len() + l] == symbol);
        }
    }
}

/// The projects that could be loaded are searched, each of them, and no other.
pub proof fn law_loaded(results: Seq<Result<ProjectSnapshot, String>>, count: nat, snapshot: Snapshot)
    requires
        count <= results.len(),
    ensures
        loaded(results, count).contains(snapshot) <==> exists|i: int|
            {
                &&& 0 <= i < count
                &&& (#[trigger] results[i]) is Ok
                &&& results[i]->Ok_0@ == snapshot
            },
    decreases count,
{
    if count > 0 {
        law_loaded(results, (count - 1) as nat, snapshot);
        let before = loaded(results, (count - 1) as nat);
        if let Ok(last) = results[count - 1] {
            crate::snapshot_laws::lemma_push_contains(before, last@, snapshot);
        }
    }
}

/// Whether an overlay is shown as a hint: it asks for it, and it starts before the range ends and ends
/// behind its start.
pub open spec fn is_shown(overlays: Seq<PlacedOverlay>, visible: Range, i: int) -> bool {
    &&& overlays[i].overlay.show_inlay
    &&& number_of(overlays[i].range.start) < number_of(visible.end)
    &&& number_of(visible.start) < number_of(overlays[i].range.end)
}

/// The overlays that are shown as hints.
pub open spec fn shown_overlays(overlays: Seq<PlacedOverlay>, visible: Range) -> spec_fn(int) -> bool {
    |i: int| is_shown(overlays, visible, i)
}

/// Whether a hint is the one for an overlay: it stands behind it and shows its label and its text.
pub open spec fn is_hint_of(overlay: PlacedOverlay, hint: Hint) -> bool {
    &&& hint.position == overlay.range.end
    &&& hint.label == " "@ + overlay.overlay.inlay_label
    &&& hint.tooltip == overlay.overlay.hover_markdown
}

proof fn lemma_stack_hints(overlays: Seq<PlacedOverlay>, visible: Range, count: nat) -> (items: Seq<int>)
    requires
        count <= overlays.len(),
    ensures
        picks(items, count as int, shown_overlays(overlays, visible)),
        stack_hints(overlays.take(count as int), visible).len() == items.len(),
        forall|k: int|
            0 <= k < items.len() ==> is_hint_of(
                overlays[#[trigger] items[k]],
                stack_hints(overlays.take(count as int), visible)[k],
            ),
    decreases count,
{
    if count == 0 {
        Seq::empty()
    } else {
        let last = count - 1;
        let items = lemma_stack_hints(overlays, visible, last as nat);
        let wanted = shown_overlays(overlays, visible);
        lemma_picks(items, last, wanted);
        law_intersects(overlays[last].range, visible);
        assert(wanted(last) == is_shown(overlays, visible, last));
        let part = overlays.take(count as int);
        assert(part.drop_last() =~= overlays.take(last));
        assert(part.last() == overlays[last]);
        let before = stack_hints(overlays.take(last), visible);
        let after = stack_hints(part, visible);
        if wanted(last) {
            let more = items.push(last);
            assert forall|k: int| 0 <= k < more.len() implies is_hint_of(
                overlays[#[trigger] more[k]],
                after[k],
            ) by {
                if k < items.len() {
                    assert(more[k] == items[k]);
                    assert(after[k] == before[k]);
                }
            }
            more
        } else {
            items
        }
    }
}

/// The stack hints in a range are those of the overlays that are shown there, one for each and in
/// their order.
pub proof fn law_stack_hints(overlays: Seq<PlacedOverlay>, visible: Range)
    ensures
        exists|items: Seq<int>|
            {
                &&& #[trigger] picks(
                    items,
                    overlays.len() as int,
                    shown_overlays(overlays, visible),
                )
                &&& stack_hints(overlays, visible).len() == items.len()
                &&& forall|k: int|
                    0 <= k < items.len() ==> is_hint_of(
                        overlays[#[trigger] items[k]],
                        stack_hints(overlays, visible)[k],
                    )
            },
{
    let items = lemma_stack_hints(overlays, visible, overlays.len());
    assert(overlays.take(overlays.len() as int) =~= overlays);
    assert(picks(items, overlays.len() as int, shown_overlays(overlays, visible)));
}

/// The overlay at a position is the first one that the position stands in, and there is none exactly
/// where it stands in none.
pub proof fn law_overlay_at(overlays: Seq<PlacedOverlay>, position: Position, at: int)
    requires
        0 <= at,
    ensures
        match overlay_at(overlays, position, at) {
            Some(found) => at <= found < overlays.len() && inside(position, overlays[found].range)
                && forall|i: int|
                at <= i < found ==> !inside(position, (#[trigger] overlays[i]).range),
            None => forall|i: int|
                at <= i < overlays.len() ==> !inside(position, (#[trigger] overlays[i]).range),
        },
    decreases overlays.len() - at,
{
    if at < overlays.len() {
        law_covers(overlays[at].range, position);
        if !overlays[at].range.covers(position) {
            law_overlay_at(overlays, position, at + 1);
        }
    }
}

} // verus!
