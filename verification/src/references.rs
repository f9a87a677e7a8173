//! References to items, and renaming.
use vstd::prelude::*;
use vstd::string::StringExecFns;
use crate::model::{defs, resolutions, Def, Definition, DefinitionLocation, ModuleModel, Place,
    Resolution};
use crate::position::Position;
use crate::snapshot::{ascending, file_uri, gathered, file_views, module_views, uri_from_path,
    FileModel, Location, ProjectSnapshot, Snapshot, Spot};
use crate::stack_effect::ItemKind;
use crate::text::{decimal, push_decimal, same_text};
use crate::words::texts;

verus! {

/// A short word for what an item is.
pub open spec fn kind_tag(kind: ItemKind) -> Seq<char> {
    match kind {
        ItemKind::Module => "module"@,
        ItemKind::Procedure => "proc"@,
        ItemKind::Constant => "const"@,
        ItemKind::Type => "type"@,
    }
}

/// A short word for what an item is.
pub fn item_kind_tag(kind: &ItemKind) -> (tag: &'static str)
    ensures
        tag@ == kind_tag(*kind),
{
    match kind {
        ItemKind::Module => "module",
        ItemKind::Procedure => "proc",
        ItemKind::Constant => "const",
        ItemKind::Type => "type",
    }
}

impl Def {
    /// What tells items apart: their place in the sources, or their names where they have none. The
    /// same item of a file counts as one in all targets that the file belongs to.
    pub open spec fn identity(self) -> Seq<char> {
        match self.location {
            Some(Place::Source { normal, selection_range, .. }) => "source:"@ + normal + ":"@ + decimal(
                selection_range.start.line as nat,
            ) + ":"@ + decimal(selection_range.start.character as nat) + ":"@ + decimal(
                selection_range.end.line as nat,
            ) + ":"@ + decimal(selection_range.end.character as nat) + ":"@ + kind_tag(self.kind),
            Some(Place::Artifact { normal, .. }) => "artifact:"@ + normal + ":"@
                + self.context.package + ":"@ + self.context.target + ":"@ + self.path,
            None => "logical:"@ + self.context.package + ":"@ + self.context.target + ":"@ + (
            if self.context.executable {
                "1"@
            } else {
                "0"@
            }) + ":"@ + self.path,
        }
    }
}

/// What tells an item apart from others.
pub fn definition_identity(definition: &Definition) -> (identity: String)
    ensures
        identity@ == definition@.identity(),
{
    match &definition.location {
        Some(DefinitionLocation::Source { normal, selection_range, .. }) => {
            let mut identity = "source:".to_owned();
            identity.append(normal);
            identity.append(":");
            push_decimal(&mut identity, selection_range.start.line as u64);
            identity.append(":");
            push_decimal(&mut identity, selection_range.start.character as u64);
            identity.append(":");
            push_decimal(&mut identity, selection_range.end.line as u64);
            identity.append(":");
            push_decimal(&mut identity, selection_range.end.character as u64);
            identity.append(":");
            identity.append(item_kind_tag(&definition.kind));
            identity
        },
        Some(DefinitionLocation::Artifact { normal, .. }) => {
            let mut identity = "artifact:".to_owned();
            identity.append(normal);
            identity.append(":");
            identity.append(&definition.context.package);
            identity.append(":");
            identity.append(&definition.context.target);
            identity.append(":");
            identity.append(&definition.path);
            identity
        },
        None => {
            let mut identity = "logical:".to_owned();
            identity.append(&definition.context.package);
            identity.append(":");
            identity.append(&definition.context.target);
            identity.append(":");
            identity.append(
                if definition.context.executable {
                    "1"
                } else {
                    "0"
                },
            );
            identity.append(":");
            identity.append(&definition.path);
            identity
        },
    }
}

/// The identities of the items with the given numbers.
pub open spec fn identities(definitions: Seq<Def>, listed: Seq<usize>) -> Seq<Seq<char>> {
    Seq::new(listed.len(), |i: int| definitions[listed[i] as int].identity())
}

/// Whether one of the listed items has one of the identities.
pub open spec fn refers_to(definitions: Seq<Def>, listed: Seq<usize>, wanted: Seq<Seq<char>>) -> bool {
    exists|i: int|
        0 <= i < listed.len() && (#[trigger] listed[i]) < definitions.len() && wanted.contains(
            definitions[listed[i] as int].identity(),
        )
}

/// A list of places with one more, unless it is listed already.
pub open spec fn with_spot(spots: Seq<Spot>, spot: Spot) -> Seq<Spot> {
    if spots.contains(spot) {
        spots
    } else {
        spots.push(spot)
    }
}

/// The places of those of the first `count` items that have one of the identities.
pub open spec fn declaration_spots(
    definitions: Seq<Def>,
    wanted: Seq<Seq<char>>,
    count: nat,
) -> Seq<Spot>
    decreases count,
{
    if count == 0 {
        Seq::empty()
    } else {
        let before = declaration_spots(definitions, wanted, (count - 1) as nat);
        let item = definitions[count - 1];
        match item.spot() {
            Some(spot) => if wanted.contains(item.identity()) {
                with_spot(before, spot)
            } else {
                before
            },
            None => before,
        }
    }
}

/// Adds the places of those of the first `count` references that stand for one of the items.
pub open spec fn reference_spots(
    definitions: Seq<Def>,
    wanted: Seq<Seq<char>>,
    uri: Seq<char>,
    references: Seq<Resolution>,
    spots: Seq<Spot>,
    count: nat,
) -> Seq<Spot>
    decreases count,
{
    if count == 0 {
        spots
    } else {
        let before = reference_spots(
            definitions,
            wanted,
            uri,
            references,
            spots,
            (count - 1) as nat,
        );
        let reference = references[count - 1];
        if refers_to(definitions, reference.definitions, wanted) {
            with_spot(before, Spot { uri, range: reference.range })
        } else {
            before
        }
    }
}

/// Adds the places of the references in the first `count` modules of a file; only modules that can
/// be edited count.
pub open spec fn module_spots(
    definitions: Seq<Def>,
    wanted: Seq<Seq<char>>,
    modules: Seq<ModuleModel>,
    spots: Seq<Spot>,
    count: nat,
) -> Seq<Spot>
    decreases count,
{
    if count == 0 {
        spots
    } else {
        let before = module_spots(definitions, wanted, modules, spots, (count - 1) as nat);
        let module = modules[count - 1];
        match file_uri(module.file) {
            Some(uri) => if module.editable {
                reference_spots(
                    definitions,
                    wanted,
                    uri,
                    module.resolved,
                    before,
                    module.resolved.len(),
                )
            } else {
                before
            },
            None => before,
        }
    }
}

/// Adds the places of the references in the first `count` files.
pub open spec fn file_spots(
    definitions: Seq<Def>,
    wanted: Seq<Seq<char>>,
    files: Seq<FileModel>,
    spots: Seq<Spot>,
    count: nat,
) -> Seq<Spot>
    decreases count,
{
    if count == 0 {
        spots
    } else {
        let before = file_spots(definitions, wanted, files, spots, (count - 1) as nat);
        let modules = files[count - 1].modules;
        module_spots(definitions, wanted, modules, before, modules.len())
    }
}

impl Snapshot {
    /// All places that refer to the items with the given identities, the declarations first where
    /// they are asked for.
    pub open spec fn spots_of(self, wanted: Seq<Seq<char>>, declarations: bool) -> Seq<Spot> {
        let start = if declarations {
            declaration_spots(self.definitions, wanted, self.definitions.len())
        } else {
            Seq::empty()
        };
        file_spots(self.definitions, wanted, self.files, start, self.files.len())
    }

    /// All places that refer to what stands at a position.
    pub open spec fn references_at(
        self,
        path: Seq<char>,
        position: Position,
        declarations: bool,
    ) -> Option<Seq<Spot>> {
        match self.symbol_at(path, position) {
            Some((listed, _)) => {
                let spots = self.spots_of(identities(self.definitions, listed), declarations);
                if spots.len() > 0 {
                    Some(spots)
                } else {
                    None
                }
            },
            None => None,
        }
    }
}

/// The models of a list of places.
pub open spec fn spots(locations: Seq<Location>) -> Seq<Spot> {
    Seq::new(locations.len(), |i: int| locations[i]@)
}

/// Adds a place, unless it is listed already.
pub fn push_unique_location(locations: &mut Vec<Location>, location: Location)
    ensures
        spots(final(locations)@) == with_spot(spots(old(locations)@), location@),
{
    let ghost all = spots(locations@);
    let mut i: usize = 0;
    while i < locations.len()
        invariant
            i <= locations.len(),
            *locations == *old(locations),
            all == spots(locations@),
            forall|k: int| 0 <= k < i ==> all[k] != location@,
        decreases locations.len() - i,
    {
        assert(all[i as int] == locations@[i as int]@);
        if locations[i].range == location.range && same_text(&locations[i].uri, &location.uri) {
            assert(all.contains(location@));
            return;
        }
        i = i + 1;
    }
    assert(!all.contains(location@)) by {
        if all.contains(location@) {
            let k = choose|k: int| 0 <= k < all.len() && all[k] == location@;
            assert(all[k] != location@);
        }
    }
    locations.push(location);
    assert(spots(locations@) =~= all.push(location@));
}

/// Whether `wanted` holds `identity`.
fn is_wanted(wanted: &Vec<String>, identity: &str) -> (result: bool)
    ensures
        result == texts(wanted@).contains(identity@),
{
    let ghost all = texts(wanted@);
    let mut i: usize = 0;
    while i < wanted.len()
        invariant
            i <= wanted.len(),
            all == texts(wanted@),
            forall|k: int| 0 <= k < i ==> all[k] != identity@,
        decreases wanted.len() - i,
    {
        assert(all[i as int] == wanted@[i as int]@);
        if same_text(&wanted[i], identity) {
            assert(all.contains(identity@));
            return true;
        }
        i = i + 1;
    }
    assert(!all.contains(identity@)) by {
        if all.contains(identity@) {
            let k = choose|k: int| 0 <= k < all.len() && all[k] == identity@;
            assert(all[k] != identity@);
        }
    }
    false
}

/// Whether one of the listed items has one of the identities.
pub fn lists_wanted(definitions: &Vec<Definition>, listed: &Vec<usize>, wanted: &Vec<String>) -> (result: bool)
    ensures
        result == refers_to(defs(definitions@), listed@, texts(wanted@)),
{
    let ghost all = defs(definitions@);
    let mut i: usize = 0;
    while i < listed.len()
        invariant
            i <= listed.len(),
            all == defs(definitions@),
            forall|k: int|
                0 <= k < i ==> !((#[trigger] listed@[k]) < all.len() && texts(wanted@).contains(
                    all[listed@[k] as int].identity(),
                )),
        decreases listed.len() - i,
    {
        if listed[i] < definitions.len() {
            let definition = &definitions[listed[i]];
            assert(all[listed@[i as int] as int] == definition@);
            if is_wanted(wanted, &definition_identity(definition)) {
                assert(listed@[i as int] < all.len());
                return true;
            }
        }
        i = i + 1;
    }
    false
}

/// The identities of the items with the given numbers.
fn identities_of(definitions: &Vec<Definition>, listed: &Vec<usize>) -> (wanted: Vec<String>)
    requires
        forall|i: int| 0 <= i < listed@.len() ==> (#[trigger] listed@[i]) < definitions@.len(),
    ensures
        texts(wanted@) == identities(defs(definitions@), listed@),
{
    let ghost all = identities(defs(definitions@), listed@);
    let mut wanted: Vec<String> = Vec::new();
    let mut i: usize = 0;
    while i < listed.len()
        invariant
            i <= listed.len(),
            forall|k: int| 0 <= k < listed@.len() ==> (#[trigger] listed@[k]) < definitions@.len(),
            all == identities(defs(definitions@), listed@),
            texts(wanted@) == all.take(i as int),
        decreases listed.len() - i,
    {
        let definition = &definitions[listed[i]];
        assert(defs(definitions@)[listed@[i as int] as int] == definition@);
        let identity = definition_identity(definition);
        let ghost before = texts(wanted@);
        wanted.push(identity);
        assert(texts(wanted@) =~= before.push(identity@));
        assert(texts(wanted@) =~= all.take(i + 1));
        i = i + 1;
    }
    assert(all.take(i as int) =~= all);
    wanted
}

/// The numbers in an ascending list are below its bound.
pub proof fn lemma_ascending_below(listed: Seq<usize>, count: nat)
    requires
        count <= usize::MAX,
    ensures
        forall|i: int|
            0 <= i < ascending(listed, count).len() ==> (
            #[trigger] ascending(listed, count)[i]) < count,
    decreases count,
{
    if count > 0 {
        lemma_ascending_below(listed, (count - 1) as nat);
        let before = ascending(listed, (count - 1) as nat);
        let all = ascending(listed, count);
        assert forall|i: int| 0 <= i < all.len() implies (#[trigger] all[i]) < count by {
            if i < before.len() {
                assert(all[i] == before[i]);
            }
        }
    }
}

impl ProjectSnapshot {
    /// All places that refer to the items with the given identities.
    fn locations_of(&self, wanted: &Vec<String>, declarations: bool) -> (locations: Vec<Location>)
        ensures
            spots(locations@) == self@.spots_of(texts(wanted@), declarations),
    {
        let ghost all = self@.definitions;
        let ghost ids = texts(wanted@);
        let mut locations: Vec<Location> = Vec::new();
        assert(spots(locations@) =~= Seq::<Spot>::empty());
        if declarations {
            let mut i: usize = 0;
            while i < self.definitions.len()
                invariant
                    i <= self.definitions.len(),
                    all == defs(self.definitions@),
                    ids == texts(wanted@),
                    spots(locations@) == declaration_spots(all, ids, i as nat),
                decreases self.definitions.len() - i,
            {
                let definition = &self.definitions[i];
                assert(all[i as int] == definition@);
                if is_wanted(wanted, &definition_identity(definition)) {
                    if let Some(location) = definition.location() {
                        push_unique_location(&mut locations, location);
                    }
                }
                i = i + 1;
            }
        }
        let ghost start = spots(locations@);
        let ghost files = self@.files;
        let mut f: usize = 0;
        while f < self.files.len()
            invariant
                f <= self.files.len(),
                all == defs(self.definitions@),
                ids == texts(wanted@),
                files == file_views(self.files@),
                spots(locations@) == file_spots(all, ids, files, start, f as nat),
            decreases self.files.len() - f,
        {
            let file = &self.files[f];
            assert(files[f as int] == file@);
            let ghost modules = module_views(file.modules@);
            let ghost before = spots(locations@);
            let mut m: usize = 0;
            while m < file.modules.len()
                invariant
                    m <= file.modules.len(),
                    all == defs(self.definitions@),
                    ids == texts(wanted@),
                    modules == module_views(file.modules@),
                    spots(locations@) == module_spots(all, ids, modules, before, m as nat),
                decreases file.modules.len() - m,
            {
                let module = &file.modules[m];
                assert(modules[m as int] == module@);
                if module.editable {
                    if let Some(uri) = uri_from_path(&module.file_path) {
                        let ghost shown = spots(locations@);
                        let ghost used = resolutions(module.resolved_occurrences@);
                        let mut r: usize = 0;
                        while r < module.resolved_occurrences.len()
                            invariant
                                r <= module.resolved_occurrences.len(),
                                all == defs(self.definitions@),
                                ids == texts(wanted@),
                                used == resolutions(module.resolved_occurrences@),
                                spots(locations@) == reference_spots(
                                    all,
                                    ids,
                                    uri@,
                                    used,
                                    shown,
                                    r as nat,
                                ),
                            decreases module.resolved_occurrences.len() - r,
                        {
                            let reference = &module.resolved_occurrences[r];
                            assert(used[r as int] == reference@);
                            if lists_wanted(&self.definitions, &reference.definitions, wanted) {
                                push_unique_location(
                                    &mut locations,
                                    Location { uri: uri.clone(), range: reference.range },
                                );
                            }
                            r = r + 1;
                        }
                    }
                }
                m = m + 1;
            }
            f = f + 1;
        }
        locations
    }

    /// All places that refer to what stands at a position.
    pub fn references_at(
        &self,
        document_path: &str,
        position: Position,
        include_declaration: bool,
    ) -> (references: Option<Vec<Location>>)
        ensures
            match references {
                Some(references) => self@.references_at(
                    document_path@,
                    position,
                    include_declaration,
                ) == Some(spots(references@)),
                None => self@.references_at(document_path@, position, include_declaration) is None,
            },
    {
        let symbol = match self.symbol_at(document_path, position) {
            Some(symbol) => symbol,
            None => return None,
        };
        let count = self.definitions.len();
        proof {
            let modules = self@.modules(document_path@);
            let found = gathered(
                self@.definitions,
                modules,
                position,
                modules.len(),
            );
            lemma_ascending_below(found.listed, count as nat);
        }
        let wanted = identities_of(&self.definitions, &symbol.definition_indexes);
        let locations = self.locations_of(&wanted, include_declaration);
        assert(spots(locations@).len() == locations@.len());
        if locations.len() > 0 {
            Some(locations)
        } else {
            None
        }
    }
}

/// No place is listed twice among the places that refer to an item.
pub proof fn law_references_are_distinct(
    snapshot: Snapshot,
    wanted: Seq<Seq<char>>,
    declarations: bool,
)
    ensures
        snapshot.spots_of(wanted, declarations).no_duplicates(),
{
    lemma_declarations_distinct(snapshot.definitions, wanted, snapshot.definitions.len());
    let start = if declarations {
        declaration_spots(snapshot.definitions, wanted, snapshot.definitions.len())
    } else {
        Seq::empty()
    };
    lemma_files_distinct(
        snapshot.definitions,
        wanted,
        snapshot.files,
        start,
        snapshot.files.len(),
    );
}

proof fn lemma_with_spot_distinct(spots: Seq<Spot>, spot: Spot)
    requires
        spots.no_duplicates(),
    ensures
        with_spot(spots, spot).no_duplicates(),
{
    if !spots.contains(spot) {
        let longer = spots.push(spot);
        assert forall|i: int, j: int|
            0 <= i < longer.len() && 0 <= j < longer.len() && i != j implies longer[i] != longer[j] by {
            if i < spots.len() {
                assert(spots.contains(longer[i]));
            }
            if j < spots.len() {
                assert(spots.contains(longer[j]));
            }
        }
    }
}

proof fn lemma_declarations_distinct(definitions: Seq<Def>, wanted: Seq<Seq<char>>, count: nat)
    ensures
        declaration_spots(definitions, wanted, count).no_duplicates(),
    decreases count,
{
    if count > 0 {
        lemma_declarations_distinct(definitions, wanted, (count - 1) as nat);
        if let Some(spot) = definitions[count - 1].spot() {
            lemma_with_spot_distinct(
                declaration_spots(definitions, wanted, (count - 1) as nat),
                spot,
            );
        }
    }
}

proof fn lemma_references_distinct(
    definitions: Seq<Def>,
    wanted: Seq<Seq<char>>,
    uri: Seq<char>,
    references: Seq<Resolution>,
    spots: Seq<Spot>,
    count: nat,
)
    requires
        spots.no_duplicates(),
    ensures
        reference_spots(definitions, wanted, uri, references, spots, count).no_duplicates(),
    decreases count,
{
    if count > 0 {
        lemma_references_distinct(
            definitions,
            wanted,
            uri,
            references,
            spots,
            (count - 1) as nat,
        );
        lemma_with_spot_distinct(
            reference_spots(definitions, wanted, uri, references, spots, (count - 1) as nat),
            Spot { uri, range: references[count - 1].range },
        );
    }
}

proof fn lemma_modules_distinct(
    definitions: Seq<Def>,
    wanted: Seq<Seq<char>>,
    modules: Seq<ModuleModel>,
    spots: Seq<Spot>,
    count: nat,
)
    requires
        spots.no_duplicates(),
    ensures
        module_spots(definitions, wanted, modules, spots, count).no_duplicates(),
    decreases count,
{
    if count > 0 {
        lemma_modules_distinct(definitions, wanted, modules, spots, (count - 1) as nat);
        let module = modules[count - 1];
        if let Some(uri) = file_uri(module.file) {
            lemma_references_distinct(
                definitions,
                wanted,
                uri,
                module.resolved,
                module_spots(definitions, wanted, modules, spots, (count - 1) as nat),
                module.resolved.len(),
            );
        }
    }
}

proof fn lemma_files_distinct(
    definitions: Seq<Def>,
    wanted: Seq<Seq<char>>,
    files: Seq<FileModel>,
    spots: Seq<Spot>,
    count: nat,
)
    requires
        spots.no_duplicates(),
    ensures
        file_spots(definitions, wanted, files, spots, count).no_duplicates(),
    decreases count,
{
    if count > 0 {
        lemma_files_distinct(definitions, wanted, files, spots, (count - 1) as nat);
        let modules = files[count - 1].modules;
        lemma_modules_distinct(
            definitions,
            wanted,
            modules,
            file_spots(definitions, wanted, files, spots, (count - 1) as nat),
            modules.len(),
        );
    }
}

/// A place that is listed stays listed.
proof fn lemma_with_spot_keeps(spots: Seq<Spot>, spot: Spot, other: Spot)
    requires
        spots.contains(other) || other == spot,
    ensures
        with_spot(spots, spot).contains(other),
{
    if !spots.contains(spot) {
        let longer = spots.push(spot);
        if spots.contains(other) {
            let k = spots.index_of(other);
            assert(longer[k] == other);
        } else {
            assert(longer[spots.len() as int] == other);
        }
    }
}

proof fn lemma_reference_spots_keep(
    definitions: Seq<Def>,
    wanted: Seq<Seq<char>>,
    uri: Seq<char>,
    references: Seq<Resolution>,
    spots: Seq<Spot>,
    count: nat,
    other: Spot,
)
    requires
        count <= references.len(),
        spots.contains(other) || exists|r: int|
            0 <= r < count && other == (Spot { uri, range: (#[trigger] references[r]).range })
                && refers_to(definitions, references[r].definitions, wanted),
    ensures
        reference_spots(definitions, wanted, uri, references, spots, count).contains(other),
    decreases count,
{
    if count > 0 {
        let shorter = (count - 1) as nat;
        let last = references[count - 1];
        let spot = Spot { uri, range: last.range };
        let before = reference_spots(definitions, wanted, uri, references, spots, shorter);
        if !(other == spot && refers_to(definitions, last.definitions, wanted)) {
            if !spots.contains(other) {
                let r = choose|r: int|
                    0 <= r < count && other == (Spot { uri, range: (#[trigger] references[r]).range })
                        && refers_to(definitions, references[r].definitions, wanted);
                assert(r < shorter);
            }
            lemma_reference_spots_keep(
                definitions,
                wanted,
                uri,
                references,
                spots,
                shorter,
                other,
            );
        }
        lemma_with_spot_keeps_if(before, spot, other);
    }
}

proof fn lemma_with_spot_keeps_if(spots: Seq<Spot>, spot: Spot, other: Spot)
    ensures
        spots.contains(other) || other == spot ==> with_spot(spots, spot).contains(other),
{
    if spots.contains(other) || other == spot {
        lemma_with_spot_keeps(spots, spot, other);
    }
}

proof fn lemma_module_spots_keep(
    definitions: Seq<Def>,
    wanted: Seq<Seq<char>>,
    modules: Seq<ModuleModel>,
    spots: Seq<Spot>,
    from: nat,
    count: nat,
    other: Spot,
)
    requires
        from <= count <= modules.len(),
        module_spots(definitions, wanted, modules, spots, from).contains(other),
    ensures
        module_spots(definitions, wanted, modules, spots, count).contains(other),
    decreases count,
{
    if from < count {
        let shorter = (count - 1) as nat;
        lemma_module_spots_keep(definitions, wanted, modules, spots, from, shorter, other);
        let module = modules[count - 1];
        if let Some(uri) = file_uri(module.file) {
            lemma_reference_spots_keep(
                definitions,
                wanted,
                uri,
                module.resolved,
                module_spots(definitions, wanted, modules, spots, shorter),
                module.resolved.len(),
                other,
            );
        }
    }
}

proof fn lemma_file_spots_keep(
    definitions: Seq<Def>,
    wanted: Seq<Seq<char>>,
    files: Seq<FileModel>,
    spots: Seq<Spot>,
    from: nat,
    count: nat,
    other: Spot,
)
    requires
        from <= count <= files.len(),
        file_spots(definitions, wanted, files, spots, from).contains(other),
    ensures
        file_spots(definitions, wanted, files, spots, count).contains(other),
    decreases count,
{
    if from < count {
        let shorter = (count - 1) as nat;
        lemma_file_spots_keep(definitions, wanted, files, spots, from, shorter, other);
        let modules = files[count - 1].modules;
        let before = file_spots(definitions, wanted, files, spots, shorter);
        lemma_module_spots_keep(
            definitions,
            wanted,
            modules,
            before,
            0,
            modules.len(),
            other,
        );
    }
}

/// Every reference to an item in a module that can be edited is listed among the places that refer
/// to it.
pub proof fn law_references_are_complete(
    snapshot: Snapshot,
    wanted: Seq<Seq<char>>,
    declarations: bool,
    file: int,
    module: int,
    reference: int,
)
    requires
        0 <= file < snapshot.files.len(),
        0 <= module < snapshot.files[file].modules.len(),
        snapshot.files[file].modules[module].editable,
        file_uri(snapshot.files[file].modules[module].file) is Some,
        0 <= reference < snapshot.files[file].modules[module].resolved.len(),
        refers_to(
            snapshot.definitions,
            snapshot.files[file].modules[module].resolved[reference].definitions,
            wanted,
        ),
    ensures
        snapshot.spots_of(wanted, declarations).contains(
            Spot {
                uri: file_uri(snapshot.files[file].modules[module].file).unwrap(),
                range: snapshot.files[file].modules[module].resolved[reference].range,
            },
        ),
{
    let definitions = snapshot.definitions;
    let files = snapshot.files;
    let modules = files[file].modules;
    let uri = file_uri(modules[module].file).unwrap();
    let used = modules[module].resolved;
    let spot = Spot { uri, range: used[reference].range };
    let start = if declarations {
        declaration_spots(definitions, wanted, definitions.len())
    } else {
        Seq::empty()
    };
    let before_file = file_spots(definitions, wanted, files, start, file as nat);
    let before_module = module_spots(definitions, wanted, modules, before_file, module as nat);
    assert(spot == (Spot { uri, range: used[reference].range }));
    lemma_reference_spots_keep(
        definitions,
        wanted,
        uri,
        used,
        before_module,
        used.len(),
        spot,
    );
    lemma_module_spots_keep(
        definitions,
        wanted,
        modules,
        before_file,
        (module + 1) as nat,
        modules.len(),
        spot,
    );
    lemma_file_spots_keep(
        definitions,
        wanted,
        files,
        start,
        (file + 1) as nat,
        files.len(),
        spot,
    );
}

} // verus!
