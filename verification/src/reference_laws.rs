//! Which places refer to an item: the laws of finding references.
use vstd::prelude::*;
use crate::meaning::{found_at_place, law_spot};
use crate::model::{Def, ModuleModel, Resolution};
use crate::position::Position;
use crate::references::{declaration_spots, file_spots, identities, law_references_are_distinct,
    lemma_ascending_below, module_spots, reference_spots, refers_to, with_spot};
use crate::snapshot::{file_uri, gathered, Snapshot, Spot};
use crate::snapshot_laws::lemma_push_contains;

verus! {

/// Whether one of the wanted identities is that of an item that a reference lists.
pub open spec fn reference_names(
    definitions: Seq<Def>,
    reference: Resolution,
    wanted: Seq<Seq<char>>,
    k: int,
    j: int,
) -> bool {
    &&& 0 <= k < reference.definitions.len()
    &&& 0 <= j < wanted.len()
    &&& reference.definitions[k] < definitions.len()
    &&& definitions[reference.definitions[k] as int].identity() == wanted[j]
}

/// Whether a place is that of a reference in a module that can be edited, and the reference lists an
/// item with one of the identities.
pub open spec fn is_reference_in(
    definitions: Seq<Def>,
    module: ModuleModel,
    wanted: Seq<Seq<char>>,
    reference: int,
    spot: Spot,
) -> bool {
    &&& module.editable
    &&& file_uri(module.file) == Some(spot.uri)
    &&& 0 <= reference < module.resolved.len()
    &&& module.resolved[reference].range == spot.range
    &&& exists|k: int, j: int| reference_names(definitions, module.resolved[reference], wanted, k, j)
}

/// Whether a place is that of such a reference in one of the files.
pub open spec fn is_reference_place(
    snapshot: Snapshot,
    wanted: Seq<Seq<char>>,
    spot: Spot,
) -> bool {
    exists|file: int, module: int, reference: int|
        {
            &&& 0 <= file < snapshot.files.len()
            &&& 0 <= module < snapshot.files[file].modules.len()
            &&& #[trigger] is_reference_in(
                snapshot.definitions,
                snapshot.files[file].modules[module],
                wanted,
                reference,
                spot,
            )
        }
}

/// Whether a place is that of an item with one of the identities.
pub open spec fn is_declaration_place(
    snapshot: Snapshot,
    wanted: Seq<Seq<char>>,
    spot: Spot,
) -> bool {
    exists|item: int, j: int|
        {
            &&& 0 <= item < snapshot.definitions.len()
            &&& 0 <= j < wanted.len()
            &&& #[trigger] snapshot.definitions[item].identity() == #[trigger] wanted[j]
            &&& found_at_place(snapshot.definitions[item], spot)
        }
}

proof fn lemma_with_spot(spots: Seq<Spot>, more: Spot, spot: Spot)
    ensures
        with_spot(spots, more).contains(spot) <==> spots.contains(spot) || spot == more,
{
    lemma_push_contains(spots, more, spot);
}

proof fn lemma_refers_to(definitions: Seq<Def>, reference: Resolution, wanted: Seq<Seq<char>>)
    ensures
        refers_to(definitions, reference.definitions, wanted) <==> exists|k: int, j: int|
            reference_names(definitions, reference, wanted, k, j),
{
    let listed = reference.definitions;
    if refers_to(definitions, listed, wanted) {
        let k = choose|i: int|
            0 <= i < listed.len() && (#[trigger] listed[i]) < definitions.len() && wanted.contains(
                definitions[listed[i] as int].identity(),
            );
        let j = choose|j: int|
            0 <= j < wanted.len() && wanted[j] == definitions[listed[k] as int].identity();
        assert(reference_names(definitions, reference, wanted, k, j));
    }
    if exists|k: int, j: int| reference_names(definitions, reference, wanted, k, j) {
        let (k, j) = choose|k: int, j: int|
            reference_names(definitions, reference, wanted, k, j);
        assert(wanted.contains(definitions[listed[k] as int].identity()));
        assert(listed[k] < definitions.len());
    }
}

/// A reference stands for one identity exactly where it lists an item with it.
pub proof fn lemma_single_identity(
    definitions: Seq<Def>,
    reference: Resolution,
    identity: Seq<char>,
)
    ensures
        refers_to(definitions, reference.definitions, seq![identity]) <==> exists|k: int|
            {
                &&& 0 <= k < reference.definitions.len()
                &&& #[trigger] reference.definitions[k] < definitions.len()
                &&& definitions[reference.definitions[k] as int].identity() == identity
            },
{
    let wanted = seq![identity];
    assert(wanted[0] == identity);
    if refers_to(definitions, reference.definitions, wanted) {
        let k = choose|i: int|
            0 <= i < reference.definitions.len() && (#[trigger] reference.definitions[i])
                < definitions.len() && wanted.contains(
                definitions[reference.definitions[i] as int].identity(),
            );
        assert(reference.definitions[k] < definitions.len());
    }
    assert(wanted.contains(identity));
}

proof fn lemma_declarations(snapshot: Snapshot, wanted: Seq<Seq<char>>, count: nat, spot: Spot)
    requires
        count <= snapshot.definitions.len(),
    ensures
        declaration_spots(snapshot.definitions, wanted, count).contains(spot) <==> exists|
            item: int,
            j: int,
        |
            {
                &&& 0 <= item < count
                &&& 0 <= j < wanted.len()
                &&& #[trigger] snapshot.definitions[item].identity() == #[trigger] wanted[j]
                &&& found_at_place(snapshot.definitions[item], spot)
            },
    decreases count,
{
    if count > 0 {
        let last = count - 1;
        lemma_declarations(snapshot, wanted, last as nat, spot);
        let item = snapshot.definitions[last];
        law_spot(item);
        let before = declaration_spots(snapshot.definitions, wanted, last as nat);
        if item.spot() is Some && wanted.contains(item.identity()) {
            let j = choose|j: int| 0 <= j < wanted.len() && wanted[j] == item.identity();
            assert(snapshot.definitions[last].identity() == wanted[j]);
            lemma_with_spot(before, item.spot().unwrap(), spot);
        } else {
            assert forall|j: int| 0 <= j < wanted.len() && found_at_place(item, spot) implies (
            #[trigger] wanted[j]) != item.identity() by {
                if wanted[j] == item.identity() {
                    assert(wanted.contains(item.identity()));
                }
            }
        }
    }
}

proof fn lemma_references(
    definitions: Seq<Def>,
    wanted: Seq<Seq<char>>,
    module: ModuleModel,
    uri: Seq<char>,
    spots: Seq<Spot>,
    count: nat,
    spot: Spot,
)
    requires
        module.editable,
        file_uri(module.file) == Some(uri),
        count <= module.resolved.len(),
    ensures
        reference_spots(definitions, wanted, uri, module.resolved, spots, count).contains(spot)
            <==> spots.contains(spot) || exists|reference: int|
            reference < count && #[trigger] is_reference_in(
                definitions,
                module,
                wanted,
                reference,
                spot,
            ),
    decreases count,
{
    if count > 0 {
        let last = count - 1;
        lemma_references(definitions, wanted, module, uri, spots, last as nat, spot);
        let before = reference_spots(
            definitions,
            wanted,
            uri,
            module.resolved,
            spots,
            last as nat,
        );
        let reference = module.resolved[last];
        lemma_refers_to(definitions, reference, wanted);
        let place = Spot { uri, range: reference.range };
        if refers_to(definitions, reference.definitions, wanted) {
            lemma_with_spot(before, place, spot);
            assert(is_reference_in(definitions, module, wanted, last, place));
            if is_reference_in(definitions, module, wanted, last, spot) {
                assert(spot == place);
            }
        } else {
            assert(!is_reference_in(definitions, module, wanted, last, spot));
        }
    }
}

proof fn lemma_modules(
    definitions: Seq<Def>,
    wanted: Seq<Seq<char>>,
    modules: Seq<ModuleModel>,
    spots: Seq<Spot>,
    count: nat,
    spot: Spot,
)
    requires
        count <= modules.len(),
    ensures
        module_spots(definitions, wanted, modules, spots, count).contains(spot) <==> spots.contains(
            spot,
        ) || exists|module: int, reference: int|
            0 <= module < count && #[trigger] is_reference_in(
                definitions,
                modules[module],
                wanted,
                reference,
                spot,
            ),
    decreases count,
{
    if count > 0 {
        let last = count - 1;
        lemma_modules(definitions, wanted, modules, spots, last as nat, spot);
        let before = module_spots(definitions, wanted, modules, spots, last as nat);
        let module = modules[last];
        if module.editable && file_uri(module.file) is Some {
            lemma_references(
                definitions,
                wanted,
                module,
                file_uri(module.file).unwrap(),
                before,
                module.resolved.len(),
                spot,
            );
            if exists|reference: int|
                reference < module.resolved.len() && #[trigger] is_reference_in(
                    definitions,
                    module,
                    wanted,
                    reference,
                    spot,
                ) {
                let reference = choose|reference: int|
                    reference < module.resolved.len() && #[trigger] is_reference_in(
                        definitions,
                        module,
                        wanted,
                        reference,
                        spot,
                    );
                assert(is_reference_in(definitions, modules[last], wanted, reference, spot));
            }
        }
    }
}

proof fn lemma_files(
    snapshot: Snapshot,
    wanted: Seq<Seq<char>>,
    spots: Seq<Spot>,
    count: nat,
    spot: Spot,
)
    requires
        count <= snapshot.files.len(),
    ensures
        file_spots(snapshot.definitions, wanted, snapshot.files, spots, count).contains(spot)
            <==> spots.contains(spot) || exists|file: int, module: int, reference: int|
            {
                &&& 0 <= file < count
                &&& 0 <= module < snapshot.files[file].modules.len()
                &&& #[trigger] is_reference_in(
                    snapshot.definitions,
                    snapshot.files[file].modules[module],
                    wanted,
                    reference,
                    spot,
                )
            },
    decreases count,
{
    if count > 0 {
        let last = count - 1;
        lemma_files(snapshot, wanted, spots, last as nat, spot);
        let before = file_spots(snapshot.definitions, wanted, snapshot.files, spots, last as nat);
        let modules = snapshot.files[last].modules;
        lemma_modules(snapshot.definitions, wanted, modules, before, modules.len(), spot);
        if exists|module: int, reference: int|
            0 <= module < modules.len() && #[trigger] is_reference_in(
                snapshot.definitions,
                modules[module],
                wanted,
                reference,
                spot,
            ) {
            let (module, reference) = choose|module: int, reference: int|
                0 <= module < modules.len() && #[trigger] is_reference_in(
                    snapshot.definitions,
                    modules[module],
                    wanted,
                    reference,
                    spot,
                );
            assert(is_reference_in(
                snapshot.definitions,
                snapshot.files[last].modules[module],
                wanted,
                reference,
                spot,
            ));
        }
    }
}

/// The places that refer to items are those of the references that list an item with one of the
/// identities, in every module that can be edited, and, where they are asked for, those of the items
/// themselves. No other place is among them, and none of these is left out.
pub proof fn law_spots_of(
    snapshot: Snapshot,
    wanted: Seq<Seq<char>>,
    declarations: bool,
    spot: Spot,
)
    ensures
        snapshot.spots_of(wanted, declarations).contains(spot) <==> is_reference_place(
            snapshot,
            wanted,
            spot,
        ) || (declarations && is_declaration_place(snapshot, wanted, spot)),
{
    let start = if declarations {
        declaration_spots(snapshot.definitions, wanted, snapshot.definitions.len())
    } else {
        Seq::empty()
    };
    lemma_declarations(snapshot, wanted, snapshot.definitions.len(), spot);
    lemma_files(snapshot, wanted, start, snapshot.files.len(), spot);
}

/// Whether a place refers to one of the listed items: it is that of a reference in a module that can
/// be edited, and the reference lists an item that counts as the same; or, where declarations are
/// asked for, it is that of an item that counts as the same, whatever its kind.
pub open spec fn refers_to_listed(
    snapshot: Snapshot,
    listed: Seq<usize>,
    declarations: bool,
    spot: Spot,
) -> bool {
    ||| exists|file: int, module: int, reference: int, k: int, j: int| #[trigger]
        reference_lists_same(snapshot, listed, spot, file, module, reference, k, j)
    ||| declarations && exists|item: int, j: int|
        {
            &&& 0 <= item < snapshot.definitions.len()
            &&& 0 <= j < listed.len()
            &&& listed[j] < snapshot.definitions.len()
            &&& #[trigger] snapshot.definitions[item].identity()
                == snapshot.definitions[#[trigger] listed[j] as int].identity()
            &&& found_at_place(snapshot.definitions[item], spot)
        }
}

/// Whether a place is that of a reference in a module that can be edited, and the item with number
/// `k` in its list counts as the same as the one with number `j` in another list.
pub open spec fn reference_lists_same(
    snapshot: Snapshot,
    listed: Seq<usize>,
    spot: Spot,
    file: int,
    module: int,
    reference: int,
    k: int,
    j: int,
) -> bool {
    &&& 0 <= file < snapshot.files.len()
    &&& 0 <= module < snapshot.files[file].modules.len()
    &&& snapshot.files[file].modules[module].editable
    &&& file_uri(snapshot.files[file].modules[module].file) == Some(spot.uri)
    &&& 0 <= reference < snapshot.files[file].modules[module].resolved.len()
    &&& snapshot.files[file].modules[module].resolved[reference].range == spot.range
    &&& 0 <= k < snapshot.files[file].modules[module].resolved[reference].definitions.len()
    &&& 0 <= j < listed.len()
    &&& snapshot.files[file].modules[module].resolved[reference].definitions[k]
        < snapshot.definitions.len()
    &&& listed[j] < snapshot.definitions.len()
    &&& snapshot.definitions[snapshot.files[file].modules[module].resolved[reference].definitions[k] as int].identity()
        == snapshot.definitions[listed[j] as int].identity()
}

proof fn lemma_listed_places(
    snapshot: Snapshot,
    listed: Seq<usize>,
    declarations: bool,
    spot: Spot,
)
    requires
        forall|j: int| 0 <= j < listed.len() ==> (#[trigger] listed[j]) < snapshot.definitions.len(),
    ensures
        refers_to_listed(snapshot, listed, declarations, spot) <==> is_reference_place(
            snapshot,
            identities(snapshot.definitions, listed),
            spot,
        ) || (declarations && is_declaration_place(
            snapshot,
            identities(snapshot.definitions, listed),
            spot,
        )),
{
    let wanted = identities(snapshot.definitions, listed);
    let definitions = snapshot.definitions;
    if is_reference_place(snapshot, wanted, spot) {
        let (file, module, reference) = choose|file: int, module: int, reference: int|
            {
                &&& 0 <= file < snapshot.files.len()
                &&& 0 <= module < snapshot.files[file].modules.len()
                &&& #[trigger] is_reference_in(
                    definitions,
                    snapshot.files[file].modules[module],
                    wanted,
                    reference,
                    spot,
                )
            };
        let used = snapshot.files[file].modules[module].resolved[reference];
        let (k, j) = choose|k: int, j: int| reference_names(definitions, used, wanted, k, j);
        assert(listed[j] < definitions.len());
        assert(reference_lists_same(snapshot, listed, spot, file, module, reference, k, j));
    }
    if is_declaration_place(snapshot, wanted, spot) {
        let (item, j) = choose|item: int, j: int|
            {
                &&& 0 <= item < definitions.len()
                &&& 0 <= j < wanted.len()
                &&& #[trigger] definitions[item].identity() == #[trigger] wanted[j]
                &&& found_at_place(definitions[item], spot)
            };
        assert(definitions[item].identity() == definitions[listed[j] as int].identity());
    }
    if exists|file: int, module: int, reference: int, k: int, j: int| #[trigger]
        reference_lists_same(snapshot, listed, spot, file, module, reference, k, j) {
        let (file, module, reference, k, j) = choose|
            file: int,
            module: int,
            reference: int,
            k: int,
            j: int,
        | #[trigger]
            reference_lists_same(snapshot, listed, spot, file, module, reference, k, j);
        let used = snapshot.files[file].modules[module].resolved[reference];
        assert(reference_names(definitions, used, wanted, k, j));
        assert(is_reference_in(
            definitions,
            snapshot.files[file].modules[module],
            wanted,
            reference,
            spot,
        ));
    }
    if exists|item: int, j: int|
        {
            &&& 0 <= item < snapshot.definitions.len()
            &&& 0 <= j < listed.len()
            &&& listed[j] < snapshot.definitions.len()
            &&& #[trigger] snapshot.definitions[item].identity()
                == snapshot.definitions[#[trigger] listed[j] as int].identity()
            &&& found_at_place(snapshot.definitions[item], spot)
        } {
        let (item, j) = choose|item: int, j: int|
            {
                &&& 0 <= item < snapshot.definitions.len()
                &&& 0 <= j < listed.len()
                &&& listed[j] < snapshot.definitions.len()
                &&& #[trigger] snapshot.definitions[item].identity()
                    == snapshot.definitions[#[trigger] listed[j] as int].identity()
                &&& found_at_place(snapshot.definitions[item], spot)
            };
        assert(definitions[item].identity() == wanted[j]);
    }
}

/// Finding the references of a symbol gives each place that refers to one of its items, once, and no
/// other; it gives nothing exactly where there is no symbol, or no place refers to its items.
pub proof fn law_references_at(
    snapshot: Snapshot,
    path: Seq<char>,
    position: Position,
    declarations: bool,
)
    requires
        snapshot.definitions.len() <= usize::MAX,
    ensures
        match (
            snapshot.symbol_at(path, position),
            snapshot.references_at(path, position, declarations),
        ) {
            (None, found) => found is None,
            (Some((listed, _)), None) => forall|spot: Spot|
                !#[trigger] refers_to_listed(snapshot, listed, declarations, spot),
            (Some((listed, _)), Some(spots)) => {
                &&& forall|spot: Spot|
                    #[trigger] spots.contains(spot) <==> refers_to_listed(
                        snapshot,
                        listed,
                        declarations,
                        spot,
                    )
                &&& forall|i: int, j: int|
                    0 <= i < j < spots.len() ==> #[trigger] spots[i] != #[trigger] spots[j]
            },
        },
{
    if let Some((listed, _)) = snapshot.symbol_at(path, position) {
        let modules = snapshot.modules(path);
        let found = gathered(snapshot.definitions, modules, position, modules.len());
        lemma_ascending_below(found.listed, snapshot.definitions.len());
        let wanted = identities(snapshot.definitions, listed);
        let spots = snapshot.spots_of(wanted, declarations);
        law_references_are_distinct(snapshot, wanted, declarations);
        assert forall|spot: Spot|
            #[trigger] spots.contains(spot) <==> refers_to_listed(
                snapshot,
                listed,
                declarations,
                spot,
            ) by {
            law_spots_of(snapshot, wanted, declarations, spot);
            lemma_listed_places(snapshot, listed, declarations, spot);
        }
        if spots.len() == 0 {
            assert forall|spot: Spot| !#[trigger] refers_to_listed(
                snapshot,
                listed,
                declarations,
                spot,
            ) by {
                assert(!spots.contains(spot));
            }
        }
    }
}

/// Asking for declarations only adds places.
pub proof fn law_declarations_only_add(
    snapshot: Snapshot,
    path: Seq<char>,
    position: Position,
    spot: Spot,
)
    requires
        snapshot.definitions.len() <= usize::MAX,
        snapshot.references_at(path, position, false) is Some,
        snapshot.references_at(path, position, false).unwrap().contains(spot),
    ensures
        snapshot.references_at(path, position, true) is Some,
        snapshot.references_at(path, position, true).unwrap().contains(spot),
{
    law_references_at(snapshot, path, position, false);
    law_references_at(snapshot, path, position, true);
    let listed = snapshot.symbol_at(path, position).unwrap().0;
    assert(refers_to_listed(snapshot, listed, false, spot));
    assert(refers_to_listed(snapshot, listed, true, spot));
}

} // verus!
