//! Renaming.
use vstd::prelude::*;
use vstd::string::StringExecFns;
use crate::masm_path::{check_ident, check_procedure_name, ident_failure, is_constant_name,
    names_constant, procedure_name_failure};
use crate::model::{defs, resolutions, Def, ModuleModel, Resolution};
use crate::order::{arrange, in_order, key_le, key_views, law_stable_order, sort_by_keys,
    stable_order};
use crate::position::{Position, Range};
use crate::references::{definition_identity, refers_to};
use crate::snapshot::{ascending, file_uri, file_views, module_views, uri_from_path, FileModel,
    ProjectSnapshot, Snapshot};
use crate::stack_effect::ItemKind;
use crate::text::same_text;

verus! {

/// What a rename at a position would change.
pub struct RenameTarget {
    pub identity: String,
    pub kind: ItemKind,
    pub placeholder: String,
    pub range: Range,
}

/// The model of what a rename would change.
pub struct Renamed {
    pub identity: Seq<char>,
    pub kind: ItemKind,
    pub placeholder: Seq<char>,
    pub range: Range,
}

impl View for RenameTarget {
    type V = Renamed;

    open spec fn view(&self) -> Renamed {
        Renamed {
            identity: self.identity@,
            kind: self.kind,
            placeholder: self.placeholder@,
            range: self.range,
        }
    }
}

/// Whether an item can be renamed.
pub open spec fn can_be_renamed(definition: Def) -> bool {
    definition.editable && definition.renamable
}

/// The first of the listed items from `at` on that can be renamed.
pub open spec fn first_renamable(definitions: Seq<Def>, listed: Seq<usize>, at: int) -> Option<Def>
    decreases listed.len() - at,
{
    if at >= listed.len() {
        None
    } else if listed[at] < definitions.len() && can_be_renamed(definitions[listed[at] as int]) {
        Some(definitions[listed[at] as int])
    } else {
        first_renamable(definitions, listed, at + 1)
    }
}

/// Whether all listed items that can be renamed are one and the same.
pub open spec fn is_unambiguous(definitions: Seq<Def>, listed: Seq<usize>, identity: Seq<char>) -> bool {
    forall|i: int|
        0 <= i < listed.len() && (#[trigger] listed[i]) < definitions.len() && can_be_renamed(
            definitions[listed[i] as int],
        ) ==> definitions[listed[i] as int].identity() == identity
}

impl Snapshot {
    /// What a rename at a position would change, or why it cannot be made.
    pub open spec fn rename_target_at(self, path: Seq<char>, position: Position) -> Result<
        Renamed,
        Seq<char>,
    > {
        match self.symbol_at(path, position) {
            None => Err("no symbol found at the requested position"@),
            Some((listed, range)) => match first_renamable(self.definitions, listed, 0) {
                None => Err("the symbol at this position cannot be renamed"@),
                Some(item) => if is_unambiguous(self.definitions, listed, item.identity()) {
                    Ok(
                        Renamed {
                            identity: item.identity(),
                            kind: item.kind,
                            placeholder: item.name,
                            range,
                        },
                    )
                } else {
                    Err("rename is ambiguous at this position"@)
                },
            },
        }
    }
}

/// Why a name cannot be given to an item of a kind.
pub open spec fn name_failure(kind: ItemKind, name: Seq<char>) -> Option<Seq<char>> {
    match kind {
        ItemKind::Procedure => match procedure_name_failure(name) {
            Some(message) => Some("invalid procedure name '"@ + name + "': "@ + message),
            None => None,
        },
        ItemKind::Constant => match ident_failure(name) {
            Some(message) => Some("invalid constant name '"@ + name + "': "@ + message),
            None => if is_constant_name(name) {
                None
            } else {
                Some(
                    "invalid constant name '"@ + name + "': "@
                        + "constant names must use SCREAMING_CASE"@,
                )
            },
        },
        ItemKind::Type => match ident_failure(name) {
            Some(message) => Some("invalid type name '"@ + name + "': "@ + message),
            None => None,
        },
        ItemKind::Module => Some("modules cannot be renamed"@),
    }
}

fn name_message(start: &str, name: &str, message: &str) -> (text: String)
    ensures
        text@ == start@ + name@ + "': "@ + message@,
{
    let mut text = start.to_owned();
    text.append(name);
    text.append("': ");
    text.append(message);
    text
}

/// Whether a name can be given to an item of a kind.
pub fn validate_rename_name(kind: ItemKind, new_name: &str) -> (result: Result<(), String>)
    ensures
        match result {
            Ok(_) => name_failure(kind, new_name@) is None,
            Err(message) => name_failure(kind, new_name@) == Some(message@),
        },
{
    match kind {
        ItemKind::Procedure => match check_procedure_name(new_name) {
            Some(message) => Err(name_message("invalid procedure name '", new_name, &message)),
            None => Ok(()),
        },
        ItemKind::Constant => match check_ident(new_name) {
            Some(message) => Err(name_message("invalid constant name '", new_name, &message)),
            None => if names_constant(new_name) {
                Ok(())
            } else {
                Err(
                    name_message(
                        "invalid constant name '",
                        new_name,
                        "constant names must use SCREAMING_CASE",
                    ),
                )
            },
        },
        ItemKind::Type => match check_ident(new_name) {
            Some(message) => Err(name_message("invalid type name '", new_name, &message)),
            None => Ok(()),
        },
        ItemKind::Module => Err("modules cannot be renamed".to_owned()),
    }
}

/// The ranges of a file that are changed.
pub struct FileRanges {
    pub uri: String,
    pub ranges: Vec<Range>,
}

/// The model of the changes of a file.
pub struct FileChange {
    pub uri: Seq<char>,
    pub ranges: Seq<Range>,
}

impl View for FileRanges {
    type V = FileChange;

    open spec fn view(&self) -> FileChange {
        FileChange { uri: self.uri@, ranges: self.ranges@ }
    }
}

/// The changes of a file: the ranges in which `new_text` is put.
pub struct FileEdits {
    pub uri: String,
    pub ranges: Vec<Range>,
    pub new_text: String,
}

/// The model of the changes of a file with the text that is put in.
pub struct FileRename {
    pub uri: Seq<char>,
    pub ranges: Seq<Range>,
    pub new_text: Seq<char>,
}

impl View for FileEdits {
    type V = FileRename;

    open spec fn view(&self) -> FileRename {
        FileRename { uri: self.uri@, ranges: self.ranges@, new_text: self.new_text@ }
    }
}

/// The models of changes of several files with the text that is put in.
pub open spec fn renames(edits: Seq<FileEdits>) -> Seq<FileRename> {
    Seq::new(edits.len(), |i: int| edits[i]@)
}

/// The models of changes of several files.
pub open spec fn changes(edits: Seq<FileRanges>) -> Seq<FileChange> {
    Seq::new(edits.len(), |i: int| edits[i]@)
}

/// The first of the files from `at` on with the given address.
pub open spec fn change_of(list: Seq<FileChange>, uri: Seq<char>, at: int) -> Option<int>
    decreases list.len() - at,
{
    if at >= list.len() {
        None
    } else if list[at].uri == uri {
        Some(at)
    } else {
        change_of(list, uri, at + 1)
    }
}

/// Adds a range of a file, unless it is changed already.
pub open spec fn with_edit(list: Seq<FileChange>, uri: Seq<char>, range: Range) -> Seq<FileChange> {
    match change_of(list, uri, 0) {
        Some(at) => if list[at].ranges.contains(range) {
            list
        } else {
            list.update(at, FileChange { uri, ranges: list[at].ranges.push(range) })
        },
        None => list.push(FileChange { uri, ranges: seq![range] }),
    }
}

/// Adds the names of those of the first `count` items that have an identity and can be renamed.
pub open spec fn declaration_edits(definitions: Seq<Def>, identity: Seq<char>, count: nat) -> Seq<
    FileChange,
>
    decreases count,
{
    if count == 0 {
        Seq::empty()
    } else {
        let before = declaration_edits(definitions, identity, (count - 1) as nat);
        let item = definitions[count - 1];
        match item.spot() {
            Some(spot) => if can_be_renamed(item) && item.identity() == identity {
                with_edit(before, spot.uri, item.selection_range)
            } else {
                before
            },
            None => before,
        }
    }
}

/// Adds those of the first `count` references that stand for the item.
pub open spec fn reference_edits(
    definitions: Seq<Def>,
    identity: Seq<char>,
    uri: Seq<char>,
    references: Seq<Resolution>,
    list: Seq<FileChange>,
    count: nat,
) -> Seq<FileChange>
    decreases count,
{
    if count == 0 {
        list
    } else {
        let before = reference_edits(
            definitions,
            identity,
            uri,
            references,
            list,
            (count - 1) as nat,
        );
        let reference = references[count - 1];
        if refers_to(definitions, reference.definitions, seq![identity]) {
            with_edit(before, uri, reference.range)
        } else {
            before
        }
    }
}

/// Adds the references in the first `count` modules of a file; only modules that can be edited
/// count.
pub open spec fn module_edits(
    definitions: Seq<Def>,
    identity: Seq<char>,
    modules: Seq<ModuleModel>,
    list: Seq<FileChange>,
    count: nat,
) -> Seq<FileChange>
    decreases count,
{
    if count == 0 {
        list
    } else {
        let before = module_edits(definitions, identity, modules, list, (count - 1) as nat);
        let module = modules[count - 1];
        match file_uri(module.file) {
            Some(uri) => if module.editable {
                reference_edits(
                    definitions,
                    identity,
                    uri,
                    module.resolved,
                    before,
                    module.resolved.len(),
                )
            } else {
                before
            },
            None => before,
        }
    }
}

/// Adds the references in the first `count` files.
pub open spec fn file_edits(
    definitions: Seq<Def>,
    identity: Seq<char>,
    files: Seq<FileModel>,
    list: Seq<FileChange>,
    count: nat,
) -> Seq<FileChange>
    decreases count,
{
    if count == 0 {
        list
    } else {
        let before = file_edits(definitions, identity, files, list, (count - 1) as nat);
        let modules = files[count - 1].modules;
        module_edits(definitions, identity, modules, before, modules.len())
    }
}

/// The sorting keys of ranges.
pub open spec fn range_keys(ranges: Seq<Range>) -> Seq<Seq<u64>> {
    Seq::new(
        ranges.len(),
        |i: int|
            seq![
                ranges[i].start.line as u64,
                ranges[i].start.character as u64,
                ranges[i].end.line as u64,
                ranges[i].end.character as u64,
            ],
    )
}

/// The changes of a file with the ranges in their order and the text that is put in.
pub open spec fn renamed_file(change: FileChange, name: Seq<char>) -> FileRename {
    FileRename {
        uri: change.uri,
        ranges: arrange(change.ranges, stable_order(range_keys(change.ranges))),
        new_text: name,
    }
}

impl Snapshot {
    /// The ranges of files that name an item: its declarations and the references to it.
    pub open spec fn named_ranges(self, identity: Seq<char>) -> Seq<FileChange> {
        file_edits(
            self.definitions,
            identity,
            self.files,
            declaration_edits(self.definitions, identity, self.definitions.len()),
            self.files.len(),
        )
    }

    /// The ranges of files that a rename at a position puts a new name in, or why it cannot be made.
    pub open spec fn rename_edits(self, path: Seq<char>, position: Position, name: Seq<char>) -> Result<
        Seq<FileRename>,
        Seq<char>,
    > {
        match self.rename_target_at(path, position) {
            Err(message) => Err(message),
            Ok(target) => match name_failure(target.kind, name) {
                Some(message) => Err(message),
                None => {
                    let list = self.named_ranges(target.identity);
                    if list.len() == 0 {
                        Err("no editable references found for rename target"@)
                    } else {
                        Ok(Seq::new(list.len(), |i: int| renamed_file(list[i], name)))
                    }
                },
            },
        }
    }
}

/// Whether `ranges` holds `range`.
fn holds_range(ranges: &Vec<Range>, range: Range) -> (holds: bool)
    ensures
        holds == ranges@.contains(range),
{
    let mut i: usize = 0;
    while i < ranges.len()
        invariant
            i <= ranges.len(),
            forall|k: int| 0 <= k < i ==> ranges@[k] != range,
        decreases ranges.len() - i,
    {
        if ranges[i] == range {
            return true;
        }
        i = i + 1;
    }
    false
}

/// Adds a range of a file, unless it is changed already.
pub fn push_unique_text_edit(edits: &mut Vec<FileRanges>, uri: String, range: Range)
    ensures
        changes(final(edits)@) == with_edit(changes(old(edits)@), uri@, range),
{
    let ghost all = changes(edits@);
    let mut i: usize = 0;
    while i < edits.len()
        invariant
            i <= edits.len(),
            *edits == *old(edits),
            all == changes(edits@),
            change_of(all, uri@, 0) == change_of(all, uri@, i as int),
        decreases edits.len() - i,
    {
        assert(all[i as int] == edits@[i as int]@);
        if same_text(&edits[i].uri, &uri) {
            if !holds_range(&edits[i].ranges, range) {
                edits[i].ranges.push(range);
                assert(changes(edits@) =~= all.update(
                    i as int,
                    FileChange { uri: uri@, ranges: all[i as int].ranges.push(range) },
                ));
            }
            return;
        }
        i = i + 1;
    }
    let next = FileRanges { uri, ranges: vec![range] };
    assert(next.ranges@ =~= seq![range]);
    edits.push(next);
    assert(changes(edits@) =~= all.push(next@));
}

/// Puts the ranges of a file in their order.
fn sort_ranges(ranges: Vec<Range>) -> (sorted: Vec<Range>)
    ensures
        sorted@ == arrange(ranges@, stable_order(range_keys(ranges@))),
{
    let ghost list = ranges@;
    let mut keys: Vec<Vec<u64>> = Vec::new();
    let mut i: usize = 0;
    while i < ranges.len()
        invariant
            i <= ranges.len(),
            keys.len() == i,
            list == ranges@,
            forall|k: int| 0 <= k < i ==> (#[trigger] keys@[k])@ == range_keys(list)[k],
        decreases ranges.len() - i,
    {
        let range = ranges[i];
        let key: Vec<u64> = vec![
            range.start.line as u64,
            range.start.character as u64,
            range.end.line as u64,
            range.end.character as u64,
        ];
        assert(key@ =~= range_keys(list)[i as int]);
        keys.push(key);
        i = i + 1;
    }
    assert(key_views(keys@) =~= range_keys(list));
    sort_by_keys(ranges, &keys)
}

impl ProjectSnapshot {
    /// What a rename at a position would change.
    pub fn rename_target_at(&self, document_path: &str, position: Position) -> (result: Result<
        RenameTarget,
        String,
    >)
        ensures
            match result {
                Ok(target) => self@.rename_target_at(document_path@, position) == Ok::<
                    Renamed,
                    Seq<char>,
                >(target@),
                Err(message) => self@.rename_target_at(document_path@, position) == Err::<
                    Renamed,
                    Seq<char>,
                >(message@),
            },
    {
        let ghost all = self@.definitions;
        let symbol = match self.symbol_at(document_path, position) {
            Some(symbol) => symbol,
            None => return Err("no symbol found at the requested position".to_owned()),
        };
        let listed = &symbol.definition_indexes;
        let mut target: Option<RenameTarget> = None;
        let mut unambiguous = true;
        let mut i: usize = 0;
        while i < listed.len()
            invariant
                i <= listed.len(),
                all == defs(self.definitions@),
                self@.symbol_at(document_path@, position) == Some((listed@, symbol.range)),
                match target {
                    Some(target) => {
                        &&& first_renamable(all, listed@, 0) is Some
                        &&& ({
                            let item = first_renamable(all, listed@, 0).unwrap();
                            target@ == (Renamed {
                                identity: item.identity(),
                                kind: item.kind,
                                placeholder: item.name,
                                range: symbol.range,
                            })
                        })
                        &&& unambiguous == (forall|k: int|
                            0 <= k < i && (#[trigger] listed@[k]) < all.len() && can_be_renamed(
                                all[listed@[k] as int],
                            ) ==> all[listed@[k] as int].identity() == target.identity@)
                    },
                    None => {
                        &&& unambiguous
                        &&& first_renamable(all, listed@, 0) == first_renamable(
                            all,
                            listed@,
                            i as int,
                        )
                        &&& forall|k: int|
                            0 <= k < i && (#[trigger] listed@[k]) < all.len() ==> !can_be_renamed(
                                all[listed@[k] as int],
                            )
                    },
                },
            decreases listed.len() - i,
        {
            if listed[i] < self.definitions.len() {
                let definition = &self.definitions[listed[i]];
                assert(all[listed@[i as int] as int] == definition@);
                if definition.editable && definition.renamable {
                    let identity = definition_identity(definition);
                    match &target {
                        Some(first) => {
                            if !same_text(&first.identity, &identity) {
                                assert(listed@[i as int] < all.len());
                                unambiguous = false;
                            }
                        },
                        None => {
                            target = Some(
                                RenameTarget {
                                    identity,
                                    kind: definition.kind,
                                    placeholder: definition.name.clone(),
                                    range: symbol.range,
                                },
                            );
                        },
                    }
                }
            }
            i = i + 1;
        }
        match target {
            Some(target) => if unambiguous {
                Ok(target)
            } else {
                Err("rename is ambiguous at this position".to_owned())
            },
            None => Err("the symbol at this position cannot be renamed".to_owned()),
        }
    }

    /// The range that a rename at a position would start from, and the present name.
    pub fn prepare_rename_at(&self, document_path: &str, position: Position) -> (result: Result<
        (Range, String),
        String,
    >)
        ensures
            match (result, self@.rename_target_at(document_path@, position)) {
                (Ok((range, placeholder)), Ok(target)) => range == target.range && placeholder@
                    == target.placeholder,
                (Err(message), Err(expected)) => message@ == expected,
                _ => false,
            },
    {
        match self.rename_target_at(document_path, position) {
            Ok(target) => Ok((target.range, target.placeholder)),
            Err(message) => Err(message),
        }
    }

    /// The ranges of files that name an item.
    fn ranges_of(&self, identity: &str) -> (edits: Vec<FileRanges>)
        ensures
            changes(edits@) == self@.named_ranges(identity@),
    {
        let ghost all = self@.definitions;
        let ghost only = seq![identity@];
        let mut edits: Vec<FileRanges> = Vec::new();
        let mut i: usize = 0;
        assert(changes(edits@) =~= Seq::<FileChange>::empty());
        while i < self.definitions.len()
            invariant
                i <= self.definitions.len(),
                all == defs(self.definitions@),
                changes(edits@) == declaration_edits(all, identity@, i as nat),
            decreases self.definitions.len() - i,
        {
            let definition = &self.definitions[i];
            assert(all[i as int] == definition@);
            if definition.editable && definition.renamable {
                if same_text(&definition_identity(definition), identity) {
                    if let Some(location) = definition.location() {
                        push_unique_text_edit(&mut edits, location.uri, definition.selection_range);
                    }
                }
            }
            i = i + 1;
        }
        let wanted: Vec<String> = vec![identity.to_owned()];
        assert(crate::words::texts(wanted@) =~= only);
        let ghost start = changes(edits@);
        let ghost files = self@.files;
        let mut f: usize = 0;
        while f < self.files.len()
            invariant
                f <= self.files.len(),
                all == defs(self.definitions@),
                only == seq![identity@],
                crate::words::texts(wanted@) == only,
                files == file_views(self.files@),
                changes(edits@) == file_edits(all, identity@, files, start, f as nat),
            decreases self.files.len() - f,
        {
            let file = &self.files[f];
            assert(files[f as int] == file@);
            let ghost modules = module_views(file.modules@);
            let ghost before = changes(edits@);
            let mut m: usize = 0;
            while m < file.modules.len()
                invariant
                    m <= file.modules.len(),
                    all == defs(self.definitions@),
                    only == seq![identity@],
                    crate::words::texts(wanted@) == only,
                    modules == module_views(file.modules@),
                    changes(edits@) == module_edits(all, identity@, modules, before, m as nat),
                decreases file.modules.len() - m,
            {
                let module = &file.modules[m];
                assert(modules[m as int] == module@);
                if module.editable {
                    if let Some(uri) = uri_from_path(&module.file_path) {
                        let ghost shown = changes(edits@);
                        let ghost used = resolutions(module.resolved_occurrences@);
                        let mut r: usize = 0;
                        while r < module.resolved_occurrences.len()
                            invariant
                                r <= module.resolved_occurrences.len(),
                                all == defs(self.definitions@),
                                only == seq![identity@],
                                crate::words::texts(wanted@) == only,
                                used == resolutions(module.resolved_occurrences@),
                                changes(edits@) == reference_edits(
                                    all,
                                    identity@,
                                    uri@,
                                    used,
                                    shown,
                                    r as nat,
                                ),
                            decreases module.resolved_occurrences.len() - r,
                        {
                            let reference = &module.resolved_occurrences[r];
                            assert(used[r as int] == reference@);
                            if crate::references::lists_wanted(
                                &self.definitions,
                                &reference.definitions,
                                &wanted,
                            ) {
                                push_unique_text_edit(&mut edits, uri.clone(), reference.range);
                            }
                            r = r + 1;
                        }
                    }
                }
                m = m + 1;
            }
            f = f + 1;
        }
        edits
    }

    /// The ranges of files that a rename at a position puts `new_name` in.
    pub fn rename_edits(&self, document_path: &str, position: Position, new_name: &str) -> (result: Result<
        Vec<FileEdits>,
        String,
    >)
        ensures
            match result {
                Ok(edits) => self@.rename_edits(document_path@, position, new_name@) == Ok::<
                    Seq<FileRename>,
                    Seq<char>,
                >(renames(edits@)),
                Err(message) => self@.rename_edits(document_path@, position, new_name@) == Err::<
                    Seq<FileRename>,
                    Seq<char>,
                >(message@),
            },
    {
        let target = match self.rename_target_at(document_path, position) {
            Ok(target) => target,
            Err(message) => return Err(message),
        };
        if let Err(message) = validate_rename_name(target.kind, new_name) {
            return Err(message);
        }
        let mut edits = self.ranges_of(&target.identity);
        let ghost list = changes(edits@);
        assert(list.len() == edits@.len());
        if edits.len() == 0 {
            return Err("no editable references found for rename target".to_owned());
        }
        let ghost wanted = Seq::new(list.len(), |i: int| renamed_file(list[i], new_name@));
        let ghost given = edits@;
        let mut sorted: Vec<FileEdits> = Vec::new();
        let count = edits.len();
        let mut i: usize = 0;
        while i < count
            invariant
                i <= count,
                count == given.len(),
                edits@ == given.skip(i as int),
                list == changes(given),
                wanted == Seq::new(list.len(), |i: int| renamed_file(list[i], new_name@)),
                renames(sorted@) == wanted.take(i as int),
            decreases count - i,
        {
            let edit = edits.remove(0);
            assert(edits@ =~= given.skip(i + 1));
            assert(list[i as int] == edit@);
            let next = FileEdits {
                uri: edit.uri,
                ranges: sort_ranges(edit.ranges),
                new_text: new_name.to_owned(),
            };
            let ghost before = renames(sorted@);
            sorted.push(next);
            i = i + 1;
            assert(renames(sorted@) =~= before.push(next@));
            assert(renames(sorted@) =~= wanted.take(i as int));
        }
        assert(wanted.take(i as int) =~= wanted);
        Ok(sorted)
    }
}

/// Whether each file is listed once, and none of its ranges twice.
pub open spec fn are_distinct(list: Seq<FileChange>) -> bool {
    &&& forall|i: int, j: int|
        0 <= i < j < list.len() ==> (#[trigger] list[i]).uri != (#[trigger] list[j]).uri
    &&& forall|i: int| 0 <= i < list.len() ==> (#[trigger] list[i]).ranges.no_duplicates()
}

proof fn lemma_change_of(list: Seq<FileChange>, uri: Seq<char>, at: int)
    requires
        0 <= at,
    ensures
        match change_of(list, uri, at) {
            Some(found) => at <= found < list.len() && list[found].uri == uri,
            None => forall|i: int| at <= i < list.len() ==> (#[trigger] list[i]).uri != uri,
        },
    decreases list.len() - at,
{
    if at < list.len() && list[at].uri != uri {
        lemma_change_of(list, uri, at + 1);
    }
}

proof fn lemma_with_edit_distinct(list: Seq<FileChange>, uri: Seq<char>, range: Range)
    requires
        are_distinct(list),
    ensures
        are_distinct(with_edit(list, uri, range)),
{
    lemma_change_of(list, uri, 0);
    let after = with_edit(list, uri, range);
    match change_of(list, uri, 0) {
        Some(at) => {
            if !list[at].ranges.contains(range) {
                let ranges = list[at].ranges;
                let longer = ranges.push(range);
                assert forall|i: int, j: int|
                    0 <= i < longer.len() && 0 <= j < longer.len() && i != j implies longer[i]
                    != longer[j] by {
                    if i < ranges.len() {
                        assert(ranges.contains(longer[i]));
                    }
                    if j < ranges.len() {
                        assert(ranges.contains(longer[j]));
                    }
                }
                assert(after[at].ranges.no_duplicates());
            }
        },
        None => {
            assert(after[list.len() as int].ranges.no_duplicates());
        },
    }
}

proof fn lemma_declaration_edits_distinct(definitions: Seq<Def>, identity: Seq<char>, count: nat)
    ensures
        are_distinct(declaration_edits(definitions, identity, count)),
    decreases count,
{
    if count > 0 {
        lemma_declaration_edits_distinct(definitions, identity, (count - 1) as nat);
        let item = definitions[count - 1];
        if let Some(spot) = item.spot() {
            lemma_with_edit_distinct(
                declaration_edits(definitions, identity, (count - 1) as nat),
                spot.uri,
                item.selection_range,
            );
        }
    }
}

proof fn lemma_reference_edits_distinct(
    definitions: Seq<Def>,
    identity: Seq<char>,
    uri: Seq<char>,
    references: Seq<Resolution>,
    list: Seq<FileChange>,
    count: nat,
)
    requires
        are_distinct(list),
    ensures
        are_distinct(reference_edits(definitions, identity, uri, references, list, count)),
    decreases count,
{
    if count > 0 {
        let shorter = (count - 1) as nat;
        lemma_reference_edits_distinct(definitions, identity, uri, references, list, shorter);
        lemma_with_edit_distinct(
            reference_edits(definitions, identity, uri, references, list, shorter),
            uri,
            references[count - 1].range,
        );
    }
}

proof fn lemma_module_edits_distinct(
    definitions: Seq<Def>,
    identity: Seq<char>,
    modules: Seq<ModuleModel>,
    list: Seq<FileChange>,
    count: nat,
)
    requires
        are_distinct(list),
    ensures
        are_distinct(module_edits(definitions, identity, modules, list, count)),
    decreases count,
{
    if count > 0 {
        let shorter = (count - 1) as nat;
        lemma_module_edits_distinct(definitions, identity, modules, list, shorter);
        let module = modules[count - 1];
        if let Some(uri) = file_uri(module.file) {
            lemma_reference_edits_distinct(
                definitions,
                identity,
                uri,
                module.resolved,
                module_edits(definitions, identity, modules, list, shorter),
                module.resolved.len(),
            );
        }
    }
}

proof fn lemma_file_edits_distinct(
    definitions: Seq<Def>,
    identity: Seq<char>,
    files: Seq<FileModel>,
    list: Seq<FileChange>,
    count: nat,
)
    requires
        are_distinct(list),
    ensures
        are_distinct(file_edits(definitions, identity, files, list, count)),
    decreases count,
{
    if count > 0 {
        let shorter = (count - 1) as nat;
        lemma_file_edits_distinct(definitions, identity, files, list, shorter);
        let modules = files[count - 1].modules;
        lemma_module_edits_distinct(
            definitions,
            identity,
            modules,
            file_edits(definitions, identity, files, list, shorter),
            modules.len(),
        );
    }
}

/// A rename lists each file once and changes no range of it twice.
pub proof fn law_rename_ranges_are_distinct(snapshot: Snapshot, identity: Seq<char>)
    ensures
        are_distinct(snapshot.named_ranges(identity)),
{
    lemma_declaration_edits_distinct(snapshot.definitions, identity, snapshot.definitions.len());
    lemma_file_edits_distinct(
        snapshot.definitions,
        identity,
        snapshot.files,
        declaration_edits(snapshot.definitions, identity, snapshot.definitions.len()),
        snapshot.files.len(),
    );
}

/// The ranges that a rename changes in a file stand in ascending order of their starts.
pub proof fn law_rename_ranges_ascend(change: FileChange, name: Seq<char>, i: int, j: int)
    requires
        0 <= i < j < change.ranges.len(),
    ensures
        renamed_file(change, name).ranges.len() == change.ranges.len(),
        !renamed_file(change, name).ranges[j].start.before(
            renamed_file(change, name).ranges[i].start,
        ),
{
    let keys = range_keys(change.ranges);
    let order = stable_order(keys);
    law_stable_order(keys);
    assert(in_order(keys, order[i], order[j]));
    let a = keys[order[i]];
    let b = keys[order[j]];
    assert(key_le(a, b));
    if a[0] == b[0] {
        assert(key_le(a.drop_first(), b.drop_first()));
        assert(a.drop_first()[0] == a[1] && b.drop_first()[0] == b[1]);
    }
}

/// Whether a range of a file is among those that are changed.
pub open spec fn is_changed(list: Seq<FileChange>, uri: Seq<char>, range: Range) -> bool {
    exists|i: int|
        0 <= i < list.len() && (#[trigger] list[i]).uri == uri && list[i].ranges.contains(range)
}

proof fn lemma_with_edit_keeps(
    list: Seq<FileChange>,
    uri: Seq<char>,
    range: Range,
    other: Seq<char>,
    kept: Range,
)
    ensures
        is_changed(with_edit(list, uri, range), uri, range),
        is_changed(list, other, kept) ==> is_changed(with_edit(list, uri, range), other, kept),
{
    lemma_change_of(list, uri, 0);
    let after = with_edit(list, uri, range);
    match change_of(list, uri, 0) {
        Some(at) => {
            if list[at].ranges.contains(range) {
                assert(after[at].uri == uri);
            } else {
                let longer = list[at].ranges.push(range);
                assert(longer[list[at].ranges.len() as int] == range);
                assert(after[at].uri == uri && after[at].ranges.contains(range));
            }
        },
        None => {
            let last = list.len() as int;
            assert(after[last].ranges[0] == range);
            assert(after[last].uri == uri && after[last].ranges.contains(range));
        },
    }
    if is_changed(list, other, kept) {
        let i = choose|i: int|
            0 <= i < list.len() && (#[trigger] list[i]).uri == other && list[i].ranges.contains(
                kept,
            );
        let k = list[i].ranges.index_of(kept);
        assert(after[i].ranges[k] == kept);
        assert(after[i].uri == other && after[i].ranges.contains(kept));
    }
}

proof fn lemma_reference_edits_keep(
    definitions: Seq<Def>,
    identity: Seq<char>,
    uri: Seq<char>,
    references: Seq<Resolution>,
    list: Seq<FileChange>,
    count: nat,
    other: Seq<char>,
    kept: Range,
)
    requires
        count <= references.len(),
        is_changed(list, other, kept) || (other == uri && exists|r: int|
            0 <= r < count && (#[trigger] references[r]).range == kept && refers_to(
                definitions,
                references[r].definitions,
                seq![identity],
            )),
    ensures
        is_changed(
            reference_edits(definitions, identity, uri, references, list, count),
            other,
            kept,
        ),
    decreases count,
{
    if count > 0 {
        let shorter = (count - 1) as nat;
        let last = references[count - 1];
        let before = reference_edits(definitions, identity, uri, references, list, shorter);
        lemma_with_edit_keeps(before, uri, last.range, other, kept);
        if !(other == uri && last.range == kept && refers_to(
            definitions,
            last.definitions,
            seq![identity],
        )) {
            if !is_changed(list, other, kept) {
                let r = choose|r: int|
                    0 <= r < count && (#[trigger] references[r]).range == kept && refers_to(
                        definitions,
                        references[r].definitions,
                        seq![identity],
                    );
                assert(r < shorter);
            }
            lemma_reference_edits_keep(
                definitions,
                identity,
                uri,
                references,
                list,
                shorter,
                other,
                kept,
            );
        }
    }
}

proof fn lemma_module_edits_keep(
    definitions: Seq<Def>,
    identity: Seq<char>,
    modules: Seq<ModuleModel>,
    list: Seq<FileChange>,
    from: nat,
    count: nat,
    other: Seq<char>,
    kept: Range,
)
    requires
        from <= count <= modules.len(),
        is_changed(module_edits(definitions, identity, modules, list, from), other, kept),
    ensures
        is_changed(module_edits(definitions, identity, modules, list, count), other, kept),
    decreases count,
{
    if from < count {
        let shorter = (count - 1) as nat;
        lemma_module_edits_keep(
            definitions,
            identity,
            modules,
            list,
            from,
            shorter,
            other,
            kept,
        );
        let module = modules[count - 1];
        if let Some(uri) = file_uri(module.file) {
            lemma_reference_edits_keep(
                definitions,
                identity,
                uri,
                module.resolved,
                module_edits(definitions, identity, modules, list, shorter),
                module.resolved.len(),
                other,
                kept,
            );
        }
    }
}

proof fn lemma_file_edits_keep(
    definitions: Seq<Def>,
    identity: Seq<char>,
    files: Seq<FileModel>,
    list: Seq<FileChange>,
    from: nat,
    count: nat,
    other: Seq<char>,
    kept: Range,
)
    requires
        from <= count <= files.len(),
        is_changed(file_edits(definitions, identity, files, list, from), other, kept),
    ensures
        is_changed(file_edits(definitions, identity, files, list, count), other, kept),
    decreases count,
{
    if from < count {
        let shorter = (count - 1) as nat;
        lemma_file_edits_keep(definitions, identity, files, list, from, shorter, other, kept);
        let modules = files[count - 1].modules;
        lemma_module_edits_keep(
            definitions,
            identity,
            modules,
            file_edits(definitions, identity, files, list, shorter),
            0,
            modules.len(),
            other,
            kept,
        );
    }
}

proof fn lemma_declaration_edits_keep(
    definitions: Seq<Def>,
    identity: Seq<char>,
    item: int,
    count: nat,
)
    requires
        0 <= item < count <= definitions.len(),
        can_be_renamed(definitions[item]),
        definitions[item].identity() == identity,
        definitions[item].spot() is Some,
    ensures
        is_changed(
            declaration_edits(definitions, identity, count),
            definitions[item].spot().unwrap().uri,
            definitions[item].selection_range,
        ),
    decreases count,
{
    let shorter = (count - 1) as nat;
    let before = declaration_edits(definitions, identity, shorter);
    let uri = definitions[item].spot().unwrap().uri;
    let range = definitions[item].selection_range;
    if let Some(spot) = definitions[count - 1].spot() {
        lemma_with_edit_keeps(
            before,
            spot.uri,
            definitions[count - 1].selection_range,
            uri,
            range,
        );
    }
    if item < count - 1 {
        lemma_declaration_edits_keep(definitions, identity, item, shorter);
    }
}

/// A rename changes every reference to its item in a module that can be edited.
pub proof fn law_rename_reaches_references(
    snapshot: Snapshot,
    identity: Seq<char>,
    file: int,
    module: int,
    reference: int,
)
    requires
        0 <= file < snapshot.files.len(),
        0 <= module < snapshot.files[file].modules.len(),
        snapshot.files[file].modules[module].editable,
        file_uri(snapshot.files[file].modules[module].file) is Some,
        0 <= reference < snapshot.files[file].modules[module].resolved.len(),
        refers_to(
            snapshot.definitions,
            snapshot.files[file].modules[module].resolved[reference].definitions,
            seq![identity],
        ),
    ensures
        is_changed(
            snapshot.named_ranges(identity),
            file_uri(snapshot.files[file].modules[module].file).unwrap(),
            snapshot.files[file].modules[module].resolved[reference].range,
        ),
{
    let definitions = snapshot.definitions;
    let files = snapshot.files;
    let modules = files[file].modules;
    let uri = file_uri(modules[module].file).unwrap();
    let used = modules[module].resolved;
    let range = used[reference].range;
    let start = declaration_edits(definitions, identity, definitions.len());
    let before_file = file_edits(definitions, identity, files, start, file as nat);
    let before_module = module_edits(definitions, identity, modules, before_file, module as nat);
    assert(used[reference].range == range);
    lemma_reference_edits_keep(
        definitions,
        identity,
        uri,
        used,
        before_module,
        used.len(),
        uri,
        range,
    );
    lemma_module_edits_keep(
        definitions,
        identity,
        modules,
        before_file,
        (module + 1) as nat,
        modules.len(),
        uri,
        range,
    );
    lemma_file_edits_keep(
        definitions,
        identity,
        files,
        start,
        (file + 1) as nat,
        files.len(),
        uri,
        range,
    );
}

/// A rename changes every declaration of its item.
pub proof fn law_rename_reaches_declarations(snapshot: Snapshot, identity: Seq<char>, item: int)
    requires
        0 <= item < snapshot.definitions.len(),
        can_be_renamed(snapshot.definitions[item]),
        snapshot.definitions[item].identity() == identity,
        snapshot.definitions[item].spot() is Some,
    ensures
        is_changed(
            snapshot.named_ranges(identity),
            snapshot.definitions[item].spot().unwrap().uri,
            snapshot.definitions[item].selection_range,
        ),
{
    let definitions = snapshot.definitions;
    lemma_declaration_edits_keep(definitions, identity, item, definitions.len());
    lemma_file_edits_keep(
        definitions,
        identity,
        snapshot.files,
        declaration_edits(definitions, identity, definitions.len()),
        0,
        snapshot.files.len(),
        definitions[item].spot().unwrap().uri,
        definitions[item].selection_range,
    );
}

} // verus!
