//! What a rename changes: the laws of renaming.
use vstd::prelude::*;
use crate::meaning::{found_at_place, law_spot, number_of};
use crate::model::{Def, ModuleModel, Resolution};
use crate::order::{in_order, key_le, law_stable_order, stable_order};
use crate::position::{Position, Range};
use crate::reference_laws::lemma_single_identity;
use crate::references::refers_to;
use crate::rename::{can_be_renamed, change_of, declaration_edits, file_edits, first_renamable,
    is_changed, is_unambiguous, law_rename_ranges_are_distinct, module_edits, name_failure,
    range_keys, reference_edits, renamed_file, with_edit, FileChange, FileRename, Renamed};
use crate::snapshot::{file_uri, Snapshot, Spot};
use crate::snapshot_laws::lemma_push_contains;
use crate::stack_effect::ItemKind;

verus! {

/// Whether a listed item may be renamed: it stands in a file that can be edited, and it is of a kind
/// that has a name of its own.
pub open spec fn may_rename(definitions: Seq<Def>, listed: Seq<usize>, k: int) -> bool {
    &&& 0 <= k < listed.len()
    &&& listed[k] < definitions.len()
    &&& definitions[listed[k] as int].editable
    &&& definitions[listed[k] as int].renamable
}

proof fn lemma_first_renamable(definitions: Seq<Def>, listed: Seq<usize>, at: int)
    requires
        0 <= at,
    ensures
        match first_renamable(definitions, listed, at) {
            Some(item) => exists|k: int|
                {
                    &&& at <= k
                    &&& #[trigger] may_rename(definitions, listed, k)
                    &&& definitions[listed[k] as int] == item
                    &&& forall|l: int| at <= l < k ==> !#[trigger] may_rename(definitions, listed, l)
                },
            None => forall|k: int| at <= k ==> !#[trigger] may_rename(definitions, listed, k),
        },
    decreases listed.len() - at,
{
    if at < listed.len() {
        if listed[at] < definitions.len() && can_be_renamed(definitions[listed[at] as int]) {
            assert(may_rename(definitions, listed, at));
        } else {
            assert(!may_rename(definitions, listed, at));
            lemma_first_renamable(definitions, listed, at + 1);
        }
    }
}

/// A rename can be made where the symbol at the position has items that may be renamed and all of
/// those count as the same. It then renames the first of them, at the range of the symbol. Otherwise
/// it fails: without a symbol, without an item that may be renamed, or with two that differ.
pub proof fn law_rename_target(snapshot: Snapshot, path: Seq<char>, position: Position)
    ensures
        match (snapshot.symbol_at(path, position), snapshot.rename_target_at(path, position)) {
            (None, result) => result == Err::<Renamed, Seq<char>>(
                "no symbol found at the requested position"@,
            ),
            (Some((listed, range)), Ok(target)) => {
                &&& target.range == range
                &&& exists|k: int|
                    {
                        &&& #[trigger] may_rename(snapshot.definitions, listed, k)
                        &&& target.identity == snapshot.definitions[listed[k] as int].identity()
                        &&& target.kind == snapshot.definitions[listed[k] as int].kind
                        &&& target.placeholder == snapshot.definitions[listed[k] as int].name
                        &&& forall|l: int|
                            0 <= l < k ==> !#[trigger] may_rename(snapshot.definitions, listed, l)
                    }
                &&& forall|k: int| #[trigger]
                    may_rename(snapshot.definitions, listed, k)
                        ==> snapshot.definitions[listed[k] as int].identity() == target.identity
            },
            (Some((listed, _)), Err(message)) => {
                ||| message == "the symbol at this position cannot be renamed"@ && forall|k: int|
                    !#[trigger] may_rename(snapshot.definitions, listed, k)
                ||| message == "rename is ambiguous at this position"@ && exists|k: int, l: int|
                    {
                        &&& #[trigger] may_rename(snapshot.definitions, listed, k)
                        &&& #[trigger] may_rename(snapshot.definitions, listed, l)
                        &&& snapshot.definitions[listed[k] as int].identity()
                            != snapshot.definitions[listed[l] as int].identity()
                    }
            },
        },
{
    let definitions = snapshot.definitions;
    if let Some((listed, range)) = snapshot.symbol_at(path, position) {
        lemma_first_renamable(definitions, listed, 0);
        match first_renamable(definitions, listed, 0) {
            None => {
                assert forall|k: int| !#[trigger] may_rename(definitions, listed, k) by {}
            },
            Some(item) => {
                let k = choose|k: int|
                    {
                        &&& 0 <= k
                        &&& #[trigger] may_rename(definitions, listed, k)
                        &&& definitions[listed[k] as int] == item
                        &&& forall|l: int|
                            0 <= l < k ==> !#[trigger] may_rename(definitions, listed, l)
                    };
                assert(may_rename(definitions, listed, k));
                if is_unambiguous(definitions, listed, item.identity()) {
                    assert forall|l: int| #[trigger] may_rename(definitions, listed, l) implies definitions[listed[l] as int].identity()
                        == item.identity() by {
                        assert(listed[l] < definitions.len());
                    }
                } else {
                    let l = choose|i: int|
                        0 <= i < listed.len() && (#[trigger] listed[i]) < definitions.len()
                            && can_be_renamed(definitions[listed[i] as int])
                            && definitions[listed[i] as int].identity() != item.identity();
                    assert(may_rename(definitions, listed, l));
                }
            },
        }
    }
}

/// Whether an item that may be renamed has an identity and stands in a file, under a range.
pub open spec fn declares(
    definitions: Seq<Def>,
    identity: Seq<char>,
    uri: Seq<char>,
    range: Range,
    item: int,
) -> bool {
    &&& 0 <= item < definitions.len()
    &&& definitions[item].editable
    &&& definitions[item].renamable
    &&& definitions[item].identity() == identity
    &&& definitions[item].selection_range == range
    &&& exists|spot: Spot| #[trigger] found_at_place(definitions[item], spot) && spot.uri == uri
}

/// Whether a reference of a module that can be edited stands in a file, under a range, and lists an
/// item with an identity.
pub open spec fn mentions(
    definitions: Seq<Def>,
    module: ModuleModel,
    identity: Seq<char>,
    uri: Seq<char>,
    range: Range,
    reference: int,
) -> bool {
    &&& module.editable
    &&& file_uri(module.file) == Some(uri)
    &&& 0 <= reference < module.resolved.len()
    &&& module.resolved[reference].range == range
    &&& lists_identity(definitions, module.resolved[reference], identity)
}

/// Whether a reference lists an item with an identity.
pub open spec fn lists_identity(
    definitions: Seq<Def>,
    reference: Resolution,
    identity: Seq<char>,
) -> bool {
    exists|k: int|
        {
            &&& 0 <= k < reference.definitions.len()
            &&& #[trigger] reference.definitions[k] < definitions.len()
            &&& definitions[reference.definitions[k] as int].identity() == identity
        }
}

/// Whether a range of a file names an item: it is the name of one of its declarations, or that of a
/// reference to it.
pub open spec fn names_identity(
    snapshot: Snapshot,
    identity: Seq<char>,
    uri: Seq<char>,
    range: Range,
) -> bool {
    ||| exists|item: int| declares(snapshot.definitions, identity, uri, range, item)
    ||| exists|file: int, module: int, reference: int|
        {
            &&& 0 <= file < snapshot.files.len()
            &&& 0 <= module < snapshot.files[file].modules.len()
            &&& #[trigger] mentions(
                snapshot.definitions,
                snapshot.files[file].modules[module],
                identity,
                uri,
                range,
                reference,
            )
        }
}

proof fn lemma_change_of(list: Seq<FileChange>, uri: Seq<char>, at: int)
    requires
        0 <= at,
    ensures
        match change_of(list, uri, at) {
            Some(found) => at <= found < list.len() && list[found].uri == uri,
            None => forall|i: int| at <= i < list.len() ==> (#[trigger] list[i]).uri != uri,
        },
    decreases list.len() - at,
{
    if at < list.len() && list[at].uri != uri {
        lemma_change_of(list, uri, at + 1);
    }
}

/// Whether no file is listed without a range.
spec fn all_filled(list: Seq<FileChange>) -> bool {
    forall|i: int| 0 <= i < list.len() ==> (#[trigger] list[i]).ranges.len() > 0
}

proof fn lemma_with_edit(
    list: Seq<FileChange>,
    uri: Seq<char>,
    range: Range,
    other: Seq<char>,
    kept: Range,
)
    ensures
        is_changed(with_edit(list, uri, range), other, kept) <==> is_changed(list, other, kept) || (
        other == uri && kept == range),
        all_filled(list) ==> all_filled(with_edit(list, uri, range)),
{
    lemma_change_of(list, uri, 0);
    let after = with_edit(list, uri, range);
    match change_of(list, uri, 0) {
        Some(at) => {
            lemma_push_contains(list[at].ranges, range, kept);
            lemma_push_contains(list[at].ranges, range, range);
            if other == uri && kept == range {
                assert(after[at].uri == uri && after[at].ranges.contains(range));
            }
            if is_changed(list, other, kept) {
                let i = choose|i: int|
                    0 <= i < list.len() && (#[trigger] list[i]).uri == other
                        && list[i].ranges.contains(kept);
                assert(after[i].uri == other && after[i].ranges.contains(kept));
            }
            if is_changed(after, other, kept) {
                let i = choose|i: int|
                    0 <= i < after.len() && (#[trigger] after[i]).uri == other
                        && after[i].ranges.contains(kept);
                if i != at || list[at].ranges.contains(range) {
                    assert(list[i] == after[i]);
                } else if kept != range {
                    assert(list[i].uri == other && list[i].ranges.contains(kept));
                }
            }
        },
        None => {
            let last = list.len() as int;
            assert(after[last].ranges[0] == range);
            assert(after[last].uri == uri && after[last].ranges.contains(range));
            if is_changed(list, other, kept) {
                let i = choose|i: int|
                    0 <= i < list.len() && (#[trigger] list[i]).uri == other
                        && list[i].ranges.contains(kept);
                assert(after[i].uri == other && after[i].ranges.contains(kept));
            }
            if is_changed(after, other, kept) {
                let i = choose|i: int|
                    0 <= i < after.len() && (#[trigger] after[i]).uri == other
                        && after[i].ranges.contains(kept);
                if i < last {
                    assert(list[i] == after[i]);
                }
            }
        },
    }
}

proof fn lemma_declarations(
    definitions: Seq<Def>,
    identity: Seq<char>,
    count: nat,
    uri: Seq<char>,
    range: Range,
)
    requires
        count <= definitions.len(),
    ensures
        all_filled(declaration_edits(definitions, identity, count)),
        is_changed(declaration_edits(definitions, identity, count), uri, range) <==> exists|item: int|
            item < count && #[trigger] declares(definitions, identity, uri, range, item),
    decreases count,
{
    if count > 0 {
        let last = count - 1;
        lemma_declarations(definitions, identity, last as nat, uri, range);
        let before = declaration_edits(definitions, identity, last as nat);
        let item = definitions[last];
        law_spot(item);
        match item.spot() {
            Some(spot) => {
                assert(found_at_place(item, spot));
                lemma_with_edit(before, spot.uri, item.selection_range, uri, range);
                if can_be_renamed(item) && item.identity() == identity {
                    assert(declares(
                        definitions,
                        identity,
                        spot.uri,
                        item.selection_range,
                        last,
                    ));
                } else {
                    assert(!declares(definitions, identity, uri, range, last));
                }
            },
            None => {
                assert(!declares(definitions, identity, uri, range, last));
            },
        }
    }
}

proof fn lemma_references(
    definitions: Seq<Def>,
    identity: Seq<char>,
    module: ModuleModel,
    own: Seq<char>,
    list: Seq<FileChange>,
    count: nat,
    uri: Seq<char>,
    range: Range,
)
    requires
        all_filled(list),
        module.editable,
        file_uri(module.file) == Some(own),
        count <= module.resolved.len(),
    ensures
        all_filled(reference_edits(definitions, identity, own, module.resolved, list, count)),
        is_changed(
            reference_edits(definitions, identity, own, module.resolved, list, count),
            uri,
            range,
        ) <==> is_changed(list, uri, range) || exists|reference: int|
            reference < count && #[trigger] mentions(
                definitions,
                module,
                identity,
                uri,
                range,
                reference,
            ),
    decreases count,
{
    if count > 0 {
        let last = count - 1;
        lemma_references(
            definitions,
            identity,
            module,
            own,
            list,
            last as nat,
            uri,
            range,
        );
        let before = reference_edits(
            definitions,
            identity,
            own,
            module.resolved,
            list,
            last as nat,
        );
        let reference = module.resolved[last];
        lemma_single_identity(definitions, reference, identity);
        lemma_with_edit(before, own, reference.range, uri, range);
        if refers_to(definitions, reference.definitions, seq![identity]) {
            assert(mentions(definitions, module, identity, own, reference.range, last));
        } else {
            assert(!mentions(definitions, module, identity, uri, range, last));
        }
    }
}

proof fn lemma_modules(
    definitions: Seq<Def>,
    identity: Seq<char>,
    modules: Seq<ModuleModel>,
    list: Seq<FileChange>,
    count: nat,
    uri: Seq<char>,
    range: Range,
)
    requires
        all_filled(list),
        count <= modules.len(),
    ensures
        all_filled(module_edits(definitions, identity, modules, list, count)),
        is_changed(module_edits(definitions, identity, modules, list, count), uri, range)
            <==> is_changed(list, uri, range) || exists|module: int, reference: int|
            0 <= module < count && #[trigger] mentions(
                definitions,
                modules[module],
                identity,
                uri,
                range,
                reference,
            ),
    decreases count,
{
    if count > 0 {
        let last = count - 1;
        lemma_modules(definitions, identity, modules, list, last as nat, uri, range);
        let before = module_edits(definitions, identity, modules, list, last as nat);
        let module = modules[last];
        if module.editable && file_uri(module.file) is Some {
            lemma_references(
                definitions,
                identity,
                module,
                file_uri(module.file).unwrap(),
                before,
                module.resolved.len(),
                uri,
                range,
            );
            if exists|reference: int|
                reference < module.resolved.len() && #[trigger] mentions(
                    definitions,
                    module,
                    identity,
                    uri,
                    range,
                    reference,
                ) {
                let reference = choose|reference: int|
                    reference < module.resolved.len() && #[trigger] mentions(
                        definitions,
                        module,
                        identity,
                        uri,
                        range,
                        reference,
                    );
                assert(mentions(definitions, modules[last], identity, uri, range, reference));
            }
        }
    }
}

proof fn lemma_files(
    snapshot: Snapshot,
    identity: Seq<char>,
    list: Seq<FileChange>,
    count: nat,
    uri: Seq<char>,
    range: Range,
)
    requires
        all_filled(list),
        count <= snapshot.files.len(),
    ensures
        all_filled(file_edits(snapshot.definitions, identity, snapshot.files, list, count)),
        is_changed(
            file_edits(snapshot.definitions, identity, snapshot.files, list, count),
            uri,
            range,
        ) <==> is_changed(list, uri, range) || exists|file: int, module: int, reference: int|
            {
                &&& 0 <= file < count
                &&& 0 <= module < snapshot.files[file].modules.len()
                &&& #[trigger] mentions(
                    snapshot.definitions,
                    snapshot.files[file].modules[module],
                    identity,
                    uri,
                    range,
                    reference,
                )
            },
    decreases count,
{
    if count > 0 {
        let last = count - 1;
        lemma_files(snapshot, identity, list, last as nat, uri, range);
        let definitions = snapshot.definitions;
        let before = file_edits(definitions, identity, snapshot.files, list, last as nat);
        let modules = snapshot.files[last].modules;
        lemma_modules(definitions, identity, modules, before, modules.len(), uri, range);
        if exists|module: int, reference: int|
            0 <= module < modules.len() && #[trigger] mentions(
                definitions,
                modules[module],
                identity,
                uri,
                range,
                reference,
            ) {
            let (module, reference) = choose|module: int, reference: int|
                0 <= module < modules.len() && #[trigger] mentions(
                    definitions,
                    modules[module],
                    identity,
                    uri,
                    range,
                    reference,
                );
            assert(mentions(
                definitions,
                snapshot.files[last].modules[module],
                identity,
                uri,
                range,
                reference,
            ));
        }
    }
}

/// The ranges of files that name an item are those of its declarations that may be renamed and those
/// of the references to it in modules that can be edited, all of them and no other.
pub proof fn law_named_ranges(
    snapshot: Snapshot,
    identity: Seq<char>,
    uri: Seq<char>,
    range: Range,
)
    ensures
        is_changed(snapshot.named_ranges(identity), uri, range) <==> names_identity(
            snapshot,
            identity,
            uri,
            range,
        ),
        forall|i: int|
            0 <= i < snapshot.named_ranges(identity).len()
                ==> (#[trigger] snapshot.named_ranges(identity)[i]).ranges.len() > 0,
{
    let definitions = snapshot.definitions;
    let start = declaration_edits(definitions, identity, definitions.len());
    lemma_declarations(definitions, identity, definitions.len(), uri, range);
    lemma_files(snapshot, identity, start, snapshot.files.len(), uri, range);
    if exists|item: int| declares(definitions, identity, uri, range, item) {
        let item = choose|item: int| declares(definitions, identity, uri, range, item);
        assert(item < definitions.len() && declares(definitions, identity, uri, range, item));
    }
}

/// Whether some entry edits a range of a file.
pub open spec fn edits_range(edits: Seq<FileRename>, uri: Seq<char>, range: Range) -> bool {
    exists|e: int, k: int|
        {
            &&& 0 <= e < edits.len()
            &&& 0 <= k < edits[e].ranges.len()
            &&& edits[e].uri == uri
            &&& #[trigger] edits[e].ranges[k] == range
        }
}

/// Whether ranges stand in strictly ascending order: by their starts, and by their ends where they
/// start together.
pub open spec fn strictly_ascend(ranges: Seq<Range>) -> bool {
    forall|i: int, j: int|
        0 <= i < j < ranges.len() ==> {
            ||| number_of((#[trigger] ranges[i]).start) < number_of((#[trigger] ranges[j]).start)
            ||| ranges[i].start == ranges[j].start && number_of(ranges[i].end) < number_of(
                ranges[j].end,
            )
        }
}

proof fn lemma_renamed_file(change: FileChange, name: Seq<char>)
    requires
        change.ranges.no_duplicates(),
    ensures
        forall|range: Range| #[trigger]
            renamed_file(change, name).ranges.contains(range) <==> change.ranges.contains(range),
        renamed_file(change, name).ranges.len() == change.ranges.len(),
        strictly_ascend(renamed_file(change, name).ranges),
{
    let keys = range_keys(change.ranges);
    let order = stable_order(keys);
    let ranges = renamed_file(change, name).ranges;
    law_stable_order(keys);
    assert forall|range: Range| #[trigger] ranges.contains(range) <==> change.ranges.contains(
        range,
    ) by {
        if ranges.contains(range) {
            let k = choose|k: int| 0 <= k < ranges.len() && ranges[k] == range;
            assert(change.ranges[order[k]] == range);
        }
        if change.ranges.contains(range) {
            let i = choose|i: int| 0 <= i < change.ranges.len() && change.ranges[i] == range;
            assert(order.contains(i));
            let k = choose|k: int| 0 <= k < order.len() && order[k] == i;
            assert(ranges[k] == range);
        }
    }
    assert forall|i: int, j: int| 0 <= i < j < ranges.len() implies {
        ||| number_of((#[trigger] ranges[i]).start) < number_of((#[trigger] ranges[j]).start)
        ||| ranges[i].start == ranges[j].start && number_of(ranges[i].end) < number_of(
            ranges[j].end,
        )
    } by {
        assert(in_order(keys, order[i], order[j]));
        let a = keys[order[i]];
        let b = keys[order[j]];
        assert(key_le(a, b));
        assert(change.ranges[order[i]] != change.ranges[order[j]]) by {
            if order[i] == order[j] {
                assert(in_order(keys, order[i], order[j]));
            }
        }
        let a1 = a.drop_first();
        let b1 = b.drop_first();
        let a2 = a1.drop_first();
        let b2 = b1.drop_first();
        let a3 = a2.drop_first();
        let b3 = b2.drop_first();
        assert(a1[0] == a[1] && b1[0] == b[1] && a2[0] == a[2] && b2[0] == b[2] && a3[0] == a[3]
            && b3[0] == b[3]);
        assert(key_le(a, b) ==> a[0] < b[0] || (a[0] == b[0] && key_le(a1, b1)));
        assert(key_le(a1, b1) ==> a1[0] < b1[0] || (a1[0] == b1[0] && key_le(a2, b2)));
        assert(key_le(a2, b2) ==> a2[0] < b2[0] || (a2[0] == b2[0] && key_le(a3, b3)));
        assert(key_le(a3, b3) ==> a3[0] <= b3[0]);
    }
}

/// A rename edits exactly the ranges that name the item: every declaration of it that may be renamed
/// and every reference to it in a module that can be edited, in whatever file they stand. It lists
/// each of those files once, each with its ranges in ascending order, and puts the new name into all
/// of them. It fails where there is nothing to rename, where the name will not do, and where no range
/// names the item; and only there.
pub proof fn law_rename_edits(
    snapshot: Snapshot,
    path: Seq<char>,
    position: Position,
    name: Seq<char>,
)
    ensures
        match (
            snapshot.rename_target_at(path, position),
            snapshot.rename_edits(path, position, name),
        ) {
            (Err(message), result) => result == Err::<Seq<FileRename>, Seq<char>>(message),
            (Ok(target), Err(message)) => {
                ||| name_failure(target.kind, name) == Some(message)
                ||| {
                    &&& name_failure(target.kind, name) is None
                    &&& message == "no editable references found for rename target"@
                    &&& forall|uri: Seq<char>, range: Range|
                        !#[trigger] names_identity(snapshot, target.identity, uri, range)
                }
            },
            (Ok(target), Ok(edits)) => {
                &&& name_failure(target.kind, name) is None
                &&& forall|uri: Seq<char>, range: Range|
                    #[trigger] edits_range(edits, uri, range) <==> names_identity(
                        snapshot,
                        target.identity,
                        uri,
                        range,
                    )
                &&& forall|i: int, j: int|
                    0 <= i < j < edits.len() ==> (#[trigger] edits[i]).uri
                        != (#[trigger] edits[j]).uri
                &&& forall|i: int|
                    0 <= i < edits.len() ==> {
                        &&& (#[trigger] edits[i]).new_text == name
                        &&& edits[i].ranges.len() > 0
                        &&& strictly_ascend(edits[i].ranges)
                    }
            },
        },
{
    if let Ok(target) = snapshot.rename_target_at(path, position) {
        let list = snapshot.named_ranges(target.identity);
        law_rename_ranges_are_distinct(snapshot, target.identity);
        law_named_ranges(
            snapshot,
            target.identity,
            Seq::empty(),
            crate::meaning::at_start(),
        );
        match snapshot.rename_edits(path, position, name) {
            Err(message) => {
                if name_failure(target.kind, name) is None {
                    assert forall|uri: Seq<char>, range: Range| !#[trigger] names_identity(
                        snapshot,
                        target.identity,
                        uri,
                        range,
                    ) by {
                        law_named_ranges(snapshot, target.identity, uri, range);
                    }
                }
            },
            Ok(edits) => {
                assert forall|i: int| 0 <= i < edits.len() implies {
                    &&& (#[trigger] edits[i]).new_text == name
                    &&& edits[i].uri == list[i].uri
                    &&& edits[i].ranges.len() > 0
                    &&& strictly_ascend(edits[i].ranges)
                    &&& forall|range: Range| #[trigger]
                        edits[i].ranges.contains(range) <==> list[i].ranges.contains(range)
                } by {
                    assert(edits[i] == renamed_file(list[i], name));
                    lemma_renamed_file(list[i], name);
                }
                assert forall|uri: Seq<char>, range: Range|
                    #[trigger] edits_range(edits, uri, range) <==> names_identity(
                        snapshot,
                        target.identity,
                        uri,
                        range,
                    ) by {
                    law_named_ranges(snapshot, target.identity, uri, range);
                    if edits_range(edits, uri, range) {
                        let (e, k) = choose|e: int, k: int|
                            {
                                &&& 0 <= e < edits.len()
                                &&& 0 <= k < edits[e].ranges.len()
                                &&& edits[e].uri == uri
                                &&& #[trigger] edits[e].ranges[k] == range
                            };
                        assert(edits[e].ranges.contains(range));
                        assert(list[e].uri == uri && list[e].ranges.contains(range));
                    }
                    if is_changed(list, uri, range) {
                        let e = choose|i: int|
                            0 <= i < list.len() && (#[trigger] list[i]).uri == uri
                                && list[i].ranges.contains(range);
                        assert(edits[e].ranges.contains(range));
                        let k = choose|k: int|
                            0 <= k < edits[e].ranges.len() && edits[e].ranges[k] == range;
                        assert(edits[e].ranges[k] == range);
                    }
                }
                assert forall|i: int, j: int| 0 <= i < j < edits.len() implies (
                #[trigger] edits[i]).uri != (#[trigger] edits[j]).uri by {
                    assert(list[i].uri != list[j].uri);
                }
            },
        }
    }
}

/// A name is refused for a module whatever it is. For a procedure, and for a type, it is refused
/// exactly where it is no name of a procedure, or no identifier; for a constant also where one of its
/// characters is neither a capital letter, a digit nor an underscore.
pub proof fn law_names(name: Seq<char>)
    ensures
        name_failure(ItemKind::Module, name) is Some,
        name_failure(ItemKind::Procedure, name) is None
            <==> crate::masm_path::procedure_name_failure(name) is None,
        name_failure(ItemKind::Type, name) is None <==> crate::masm_path::ident_failure(name) is None,
        name_failure(ItemKind::Constant, name) is None <==> crate::masm_path::ident_failure(name) is None
            && forall|i: int|
            0 <= i < name.len() ==> 'A' <= #[trigger] name[i] <= 'Z' || '0' <= name[i] <= '9'
                || name[i] == '_',
        name_failure(ItemKind::Module, name) == Some("modules cannot be renamed"@),
        crate::masm_path::procedure_name_failure(name) is Some ==> name_failure(
            ItemKind::Procedure,
            name,
        ) == Some(
            "invalid procedure name '"@ + name + "': "@ + crate::masm_path::procedure_name_failure(
                name,
            ).unwrap(),
        ),
        crate::masm_path::ident_failure(name) is Some ==> name_failure(ItemKind::Type, name) == Some(
            "invalid type name '"@ + name + "': "@ + crate::masm_path::ident_failure(name).unwrap(),
        ),
        crate::masm_path::ident_failure(name) is Some ==> name_failure(ItemKind::Constant, name)
            == Some(
            "invalid constant name '"@ + name + "': "@ + crate::masm_path::ident_failure(
                name,
            ).unwrap(),
        ),
        crate::masm_path::ident_failure(name) is None && name_failure(ItemKind::Constant, name)
            is Some ==> name_failure(ItemKind::Constant, name) == Some(
            "invalid constant name '"@ + name + "': "@
                + "constant names must use SCREAMING_CASE"@,
        ),
{
    if name_failure(ItemKind::Constant, name) is None {
        assert forall|i: int| 0 <= i < name.len() implies 'A' <= #[trigger] name[i] <= 'Z' || '0'
            <= name[i] <= '9' || name[i] == '_' by {
            assert(crate::masm_path::is_constant_char(name[i]));
        }
    }
}

} // verus!
