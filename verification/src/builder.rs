//! Building what is known of a project from its sources and from compiled packages.
use vstd::prelude::*;
use vstd::utf8::encode_utf8;
use crate::document::{Diagnostic, Finding, Severity};
use crate::hints::shows_its_kind;
use crate::metadata::{artifact_place, index_metadata_package, law_metadata_is_fixed, metadata_defs,
    ArtifactPath, MetadataPackage, PackageModel};
use crate::model::{defs, name_entries, Def, Definition, ModuleAnalysis, ModuleModel, Place};
use crate::order::{arrange, in_order, key_le, key_views, law_stable_order, sort_by_keys,
    stable_order};
use crate::parsed::{ParsedFile, ParsedText};
use crate::position::{Position, Range};
use crate::project::{key_of_path, path_key};
use crate::resolve::{law_resolved_items, resolved_references, with_references};
use crate::snapshot::{by_priority, file_at, file_views, module_views, FileEntry, FileModel,
    ProjectSnapshot, Snapshot};
use crate::source_module::{analyze_source_module, law_items_of_a_module, source_module, TargetContext,
    TargetModel};
use crate::syntax::{parse_failure, tree_rows};
use crate::text::same_text;

verus! {

/// A list of files with one more module; a file that is listed keeps its text and its tree.
pub open spec fn with_module(files: Seq<FileModel>, parsed: ParsedText, module: ModuleModel) -> Seq<
    FileModel,
> {
    match file_at(files, module.file, 0) {
        Some(at) => files.update(
            at,
            FileModel { modules: files[at].modules.push(module), ..files[at] },
        ),
        None => files.push(FileModel { path: module.file, parsed, modules: seq![module] }),
    }
}

/// A project with one more source file of a target, or what is reported for the file.
pub open spec fn with_source(
    project: Snapshot,
    target: TargetModel,
    file: Seq<char>,
    priority: usize,
    text: Seq<char>,
) -> Result<Snapshot, Seq<char>> {
    match tree_rows(text) {
        None => Err(parse_failure(text)),
        Some(rows) => {
            let parsed = ParsedText { text, rows };
            match source_module(target, file, priority, parsed) {
                Err(message) => Err(message),
                Ok(module) => Ok(
                    Snapshot {
                        files: with_module(project.files, parsed, module),
                        definitions: project.definitions + module.definitions,
                    },
                ),
            }
        },
    }
}

/// The sorting keys of modules: their priorities.
pub open spec fn priority_keys(modules: Seq<ModuleModel>) -> Seq<Seq<u64>> {
    Seq::new(modules.len(), |i: int| seq![modules[i].priority as u64])
}

/// A file with the references of its modules resolved, and the modules in the order of their
/// priorities.
pub open spec fn finished_file(file: FileModel, definitions: Seq<Def>) -> FileModel {
    let resolved = Seq::new(
        file.modules.len(),
        |i: int| with_references(file.modules[i], definitions),
    );
    FileModel { modules: arrange(resolved, stable_order(priority_keys(resolved))), ..file }
}

/// The sorting keys of files: their paths.
pub open spec fn file_keys(files: Seq<FileModel>) -> Seq<Seq<u64>> {
    Seq::new(files.len(), |i: int| path_key(encode_utf8(files[i].path)))
}

/// A project with all references resolved, and its files in the order of their paths.
pub open spec fn finished(project: Snapshot) -> Snapshot {
    let files = Seq::new(
        project.files.len(),
        |i: int| finished_file(project.files[i], project.definitions),
    );
    Snapshot {
        files: arrange(files, stable_order(file_keys(files))),
        definitions: project.definitions,
    }
}

/// A project that is being built.
pub struct SnapshotBuilder {
    files: Vec<FileEntry>,
    definitions: Vec<Definition>,
}

impl View for SnapshotBuilder {
    type V = Snapshot;

    closed spec fn view(&self) -> Snapshot {
        Snapshot { files: file_views(self.files@), definitions: defs(self.definitions@) }
    }
}

/// Appends copies of items to a list.
fn append_definitions(definitions: &mut Vec<Definition>, more: &Vec<Definition>)
    ensures
        defs(final(definitions)@) == defs(old(definitions)@) + defs(more@),
{
    let ghost start = defs(definitions@);
    let ghost all = defs(more@);
    let mut i: usize = 0;
    assert(start + all.take(0) =~= start);
    while i < more.len()
        invariant
            i <= more.len(),
            all == defs(more@),
            defs(definitions@) == start + all.take(i as int),
        decreases more.len() - i,
    {
        let copy = more[i].copy();
        let ghost before = defs(definitions@);
        definitions.push(copy);
        assert(defs(definitions@) =~= before.push(copy@));
        assert(start + all.take(i + 1) =~= (start + all.take(i as int)).push(all[i as int]));
        i = i + 1;
    }
    assert(all.take(i as int) =~= all);
}

impl SnapshotBuilder {
    /// All files are parsed.
    pub closed spec fn well_formed(self) -> bool {
        forall|i: int|
            0 <= i < self.files@.len() ==> (#[trigger] self.files@[i]).parsed.well_formed()
    }

    /// Nothing is known yet.
    pub fn new() -> (builder: SnapshotBuilder)
        ensures
            builder.well_formed(),
            builder@ == (Snapshot { files: Seq::empty(), definitions: Seq::empty() }),
    {
        let builder = SnapshotBuilder { files: Vec::new(), definitions: Vec::new() };
        assert(builder@.files =~= Seq::<FileModel>::empty());
        assert(builder@.definitions =~= Seq::<Def>::empty());
        builder
    }

    /// Adds a module to the file that it belongs to.
    fn push_module(&mut self, parsed: ParsedFile, module: ModuleAnalysis)
        requires
            old(self).well_formed(),
            parsed.well_formed(),
        ensures
            final(self).well_formed(),
            final(self)@.files == with_module(old(self)@.files, parsed@, module@),
            final(self)@.definitions == old(self)@.definitions,
    {
        let ghost files = self@.files;
        let mut i: usize = 0;
        while i < self.files.len()
            invariant
                i <= self.files.len(),
                *self == *old(self),
                old(self).well_formed(),
                files == file_views(self.files@),
                file_at(files, module@.file, 0) == file_at(files, module@.file, i as int),
            decreases self.files.len() - i,
        {
            assert(files[i as int] == self.files@[i as int]@);
            if same_text(&self.files[i].path, &module.file_path) {
                self.files[i].modules.push(module);
                proof {
                    let expected = with_module(files, parsed@, module@);
                    assert(self.files@[i as int]@.modules =~= files[i as int].modules.push(
                        module@,
                    ));
                    assert(self@.files =~= expected);
                }
                return;
            }
            i = i + 1;
        }
        let path = module.file_path.clone();
        let entry = FileEntry { path, parsed, modules: vec![module] };
        assert(entry@.modules =~= seq![module@]);
        self.files.push(entry);
        assert(self@.files =~= files.push(entry@));
    }

    /// Adds a source file of a target; `text` is what was read of the file, or what is reported
    /// where it could not be read.
    pub fn add_source(
        &mut self,
        target: &TargetContext,
        file_path: &str,
        priority: usize,
        text: Result<String, String>,
    ) -> (result: Result<(), String>)
        requires
            old(self).well_formed(),
        ensures
            final(self).well_formed(),
            match text {
                Err(message) => {
                    &&& result matches Err(error) && error@ == message@
                    &&& final(self)@ == old(self)@
                },
                Ok(text) => match with_source(
                    old(self)@,
                    target@,
                    file_path@,
                    priority,
                    text@,
                ) {
                    Ok(project) => result is Ok && final(self)@ == project,
                    Err(message) => {
                        &&& result matches Err(error) && error@ == message
                        &&& final(self)@ == old(self)@
                    },
                },
            },
    {
        let text = match text {
            Ok(text) => text,
            Err(message) => return Err(message),
        };
        let parsed = match ParsedFile::parse(text) {
            Ok(parsed) => parsed,
            Err(message) => return Err(message),
        };
        let module = match analyze_source_module(target, file_path, priority, &parsed) {
            Ok(module) => module,
            Err(message) => return Err(message),
        };
        append_definitions(&mut self.definitions, &module.definitions);
        self.push_module(parsed, module);
        Ok(())
    }

    /// Adds a compiled package.
    pub fn add_package(
        &mut self,
        package: &MetadataPackage,
        artifact: &Option<ArtifactPath>,
        normals: &Vec<(String, String)>,
    )
        requires
            old(self).well_formed(),
        ensures
            final(self).well_formed(),
            final(self)@.files == old(self)@.files,
            final(self)@.definitions == old(self)@.definitions + metadata_defs(
                package@,
                artifact_place(*artifact),
                name_entries(normals@),
            ),
    {
        index_metadata_package(&mut self.definitions, package, artifact, normals);
    }

    /// Resolves all references and puts files and modules in their order.
    pub fn finish(self) -> (snapshot: ProjectSnapshot)
        requires
            self.well_formed(),
        ensures
            snapshot.well_formed(),
            snapshot@ == finished(self@),
    {
        let ghost all = defs(self.definitions@);
        let ghost given = self.files@;
        let ghost wanted = Seq::new(
            given.len(),
            |i: int| finished_file(file_views(given)[i], all),
        );
        let mut rest = self.files;
        let definitions = self.definitions;
        let mut files: Vec<FileEntry> = Vec::new();
        let count = rest.len();
        let mut i: usize = 0;
        while i < count
            invariant
                i <= count,
                count == given.len(),
                rest@ == given.skip(i as int),
                all == defs(definitions@),
                wanted == Seq::new(
                    given.len(),
                    |i: int| finished_file(file_views(given)[i], all),
                ),
                forall|k: int|
                    0 <= k < given.len() ==> (#[trigger] given[k]).parsed.well_formed(),
                files@.len() == i,
                forall|k: int|
                    0 <= k < i ==> (#[trigger] files@[k])@ == wanted[k]
                        && files@[k].parsed.well_formed() && by_priority(files@[k]@.modules),
            decreases count - i,
        {
            let file = rest.remove(0);
            assert(file == given[i as int]);
            assert(rest@ =~= given.skip(i + 1));
            assert(file_views(given)[i as int] == file@);
            files.push(finish_file(file, &definitions));
            i = i + 1;
        }
        let ghost before = files@;
        let files = sort_files(files);
        proof {
            assert(file_views(before) =~= wanted);
            law_stable_order(file_keys(wanted));
            assert forall|k: int| 0 <= k < files@.len() implies (#[trigger] files@[k]).parsed.well_formed()
                && by_priority(files@[k]@.modules) by {
                let from = stable_order(file_keys(wanted))[k];
                assert(files@[k] == before[from]);
            }
        }
        ProjectSnapshot { files, definitions }
    }
}

/// Resolves the references of a file's modules and puts the modules in the order of their
/// priorities.
fn finish_file(file: FileEntry, definitions: &Vec<Definition>) -> (finished: FileEntry)
    requires
        file.parsed.well_formed(),
    ensures
        finished@ == finished_file(file@, defs(definitions@)),
        finished.parsed.well_formed(),
        by_priority(finished@.modules),
{
    let ghost all = defs(definitions@);
    let ghost given = file.modules@;
    let ghost resolved = Seq::new(
        given.len(),
        |i: int| with_references(module_views(given)[i], all),
    );
    let mut rest = file.modules;
    let mut modules: Vec<ModuleAnalysis> = Vec::new();
    let mut keys: Vec<Vec<u64>> = Vec::new();
    let count = rest.len();
    let mut i: usize = 0;
    while i < count
        invariant
            i <= count,
            count == given.len(),
            rest@ == given.skip(i as int),
            all == defs(definitions@),
            resolved == Seq::new(
                given.len(),
                |i: int| with_references(module_views(given)[i], all),
            ),
            modules@.len() == i,
            keys@.len() == i,
            forall|k: int| 0 <= k < i ==> (#[trigger] modules@[k])@ == resolved[k],
            forall|k: int| 0 <= k < i ==> (#[trigger] keys@[k])@ == priority_keys(resolved)[k],
        decreases count - i,
    {
        let mut module = rest.remove(0);
        assert(rest@ =~= given.skip(i + 1));
        assert(module_views(given)[i as int] == module@);
        module.resolve_occurrences(definitions);
        let key: Vec<u64> = vec![module.priority as u64];
        assert(key@ =~= priority_keys(resolved)[i as int]);
        modules.push(module);
        keys.push(key);
        i = i + 1;
    }
    let ghost before = modules@;
    assert(module_views(before) =~= resolved);
    assert(key_views(keys@) =~= priority_keys(resolved));
    let modules = sort_by_keys(modules, &keys);
    proof {
        let order = stable_order(priority_keys(resolved));
        law_stable_order(priority_keys(resolved));
        let sorted = module_views(modules@);
        assert(sorted =~= arrange(resolved, order));
        assert(module_views(given) == file@.modules);
        assert(finished_file(file@, all).modules == arrange(resolved, order));
        assert forall|a: int, b: int| 0 <= a < b < sorted.len() implies (#[trigger] sorted[a]).priority
            <= (#[trigger] sorted[b]).priority by {
            assert(in_order(priority_keys(resolved), order[a], order[b]));
            let left = priority_keys(resolved)[order[a]];
            let right = priority_keys(resolved)[order[b]];
            assert(key_le(left, right));
            assert(left[0] == sorted[a].priority as u64);
            assert(right[0] == sorted[b].priority as u64);
        }
    }
    FileEntry { path: file.path, parsed: file.parsed, modules }
}

/// Sorts files by their paths.
fn sort_files(files: Vec<FileEntry>) -> (sorted: Vec<FileEntry>)
    ensures
        file_views(sorted@) == arrange(
            file_views(files@),
            stable_order(file_keys(file_views(files@))),
        ),
        sorted@ == arrange(files@, stable_order(file_keys(file_views(files@)))),
{
    let ghost list = file_views(files@);
    let mut keys: Vec<Vec<u64>> = Vec::new();
    let mut i: usize = 0;
    while i < files.len()
        invariant
            i <= files.len(),
            keys.len() == i,
            list == file_views(files@),
            forall|k: int| 0 <= k < i ==> (#[trigger] keys@[k])@ == file_keys(list)[k],
        decreases files.len() - i,
    {
        assert(list[i as int] == files@[i as int]@);
        keys.push(key_of_path(&files[i].path));
        i = i + 1;
    }
    assert(key_views(keys@) =~= file_keys(list));
    let sorted = sort_by_keys(files, &keys);
    proof {
        law_stable_order(file_keys(list));
        assert(file_views(sorted@) =~= arrange(list, stable_order(file_keys(list))));
    }
    sorted
}

/// What is reported at the start of a document whose project cannot be loaded.
pub open spec fn load_finding(message: Seq<char>) -> Finding {
    Finding {
        range: Range {
            start: Position { line: 0, character: 0 },
            end: Position { line: 0, character: 1 },
        },
        severity: Severity::Warning,
        message,
    }
}

/// What is reported of a document's project: nothing where it could be loaded, and else why not.
pub fn project_diagnostic(loaded: &Result<ProjectSnapshot, String>) -> (diagnostic: Option<Diagnostic>)
    ensures
        match (diagnostic, *loaded) {
            (None, Ok(_)) => true,
            (Some(diagnostic), Err(message)) => diagnostic@ == load_finding(message@),
            _ => false,
        },
{
    match loaded {
        Ok(_) => None,
        Err(message) => Some(
            Diagnostic {
                range: Range::new(Position::new(0, 0), Position::new(0, 1)),
                severity: Severity::Warning,
                message: message.clone(),
            },
        ),
    }
}

/// A file that is read does not change what was known of other files, and the items that were known
/// keep their numbers.
pub proof fn law_source_adds(
    project: Snapshot,
    target: TargetModel,
    file: Seq<char>,
    priority: usize,
    text: Seq<char>,
)
    requires
        with_source(project, target, file, priority, text) is Ok,
    ensures
        ({
            let after = with_source(project, target, file, priority, text)->Ok_0;
            &&& forall|i: int|
                0 <= i < project.definitions.len() ==> i < after.definitions.len()
                    && after.definitions[i] == #[trigger] project.definitions[i]
            &&& project.files.len() <= after.files.len()
            &&& forall|i: int|
                0 <= i < project.files.len() ==> (#[trigger] after.files[i]).path
                    == project.files[i].path && after.files[i].parsed == project.files[i].parsed
                    && (project.files[i].path != file ==> after.files[i] == project.files[i])
        }),
{
    let rows = tree_rows(text).unwrap();
    let parsed = ParsedText { text, rows };
    let module = source_module(target, file, priority, parsed)->Ok_0;
    law_items_of_a_module(target, file, priority, parsed);
    lemma_file_at(project.files, file, 0);
}

proof fn lemma_file_at(files: Seq<FileModel>, path: Seq<char>, at: int)
    requires
        0 <= at,
    ensures
        match file_at(files, path, at) {
            Some(found) => at <= found < files.len() && files[found].path == path,
            None => true,
        },
    decreases files.len() - at,
{
    if at < files.len() && files[at].path != path {
        lemma_file_at(files, path, at + 1);
    }
}

/// Sources and compiled packages keep what is shown of items: modules are shown as modules, and
/// nothing else is.
pub proof fn law_kinds_are_shown(
    project: Snapshot,
    target: TargetModel,
    file: Seq<char>,
    priority: usize,
    text: Seq<char>,
    package: PackageModel,
    artifact: Option<Place>,
    normals: Seq<(Seq<char>, Seq<char>)>,
)
    requires
        forall|i: int|
            0 <= i < project.definitions.len() ==> shows_its_kind(
                #[trigger] project.definitions[i],
            ),
    ensures
        match with_source(project, target, file, priority, text) {
            Ok(after) => forall|i: int|
                0 <= i < after.definitions.len() ==> shows_its_kind(#[trigger] after.definitions[i]),
            Err(_) => true,
        },
        ({
            let after = project.definitions + metadata_defs(package, artifact, normals);
            forall|i: int| 0 <= i < after.len() ==> shows_its_kind(#[trigger] after[i])
        }),
{
    if let Ok(after) = with_source(project, target, file, priority, text) {
        let parsed = ParsedText { text, rows: tree_rows(text)->0 };
        law_items_of_a_module(target, file, priority, parsed);
        let module = source_module(target, file, priority, parsed)->Ok_0;
        assert forall|i: int| 0 <= i < after.definitions.len() implies shows_its_kind(
            #[trigger] after.definitions[i],
        ) by {
            if i < project.definitions.len() {
                assert(after.definitions[i] == project.definitions[i]);
            } else {
                assert(after.definitions[i] == module.definitions[i - project.definitions.len()]);
            }
        }
    }
    let more = metadata_defs(package, artifact, normals);
    let after = project.definitions + more;
    assert forall|i: int| 0 <= i < after.len() implies shows_its_kind(#[trigger] after[i]) by {
        if i < project.definitions.len() {
            assert(after[i] == project.definitions[i]);
        } else {
            law_metadata_is_fixed(package, artifact, normals, i - project.definitions.len());
            assert(after[i] == more[i - project.definitions.len()]);
        }
    }
}

/// Whether the numbers of items in all references of a project are those of items that it has.
pub open spec fn references_exist(project: Snapshot) -> bool {
    forall|f: int, m: int, r: int, k: int|
        0 <= f < project.files.len() && 0 <= m < project.files[f].modules.len() && 0 <= r
            < project.files[f].modules[m].resolved.len() && 0 <= k
            < project.files[f].modules[m].resolved[r].definitions.len() ==> (
        #[trigger] project.files[f].modules[m].resolved[r].definitions[k])
            < project.definitions.len()
}

proof fn lemma_resolved_exist(module: ModuleModel, definitions: Seq<Def>, count: nat)
    requires
        count <= module.raw.len(),
        definitions.len() <= usize::MAX,
    ensures
        forall|r: int, k: int|
            0 <= r < resolved_references(module, definitions, count).len() && 0 <= k
                < resolved_references(module, definitions, count)[r].definitions.len() ==> (
            #[trigger] resolved_references(module, definitions, count)[r].definitions[k])
                < definitions.len(),
    decreases count,
{
    if count > 0 {
        lemma_resolved_exist(module, definitions, (count - 1) as nat);
        let before = resolved_references(module, definitions, (count - 1) as nat);
        let after = resolved_references(module, definitions, count);
        let occurrence = module.raw[count - 1];
        assert forall|r: int, k: int|
            0 <= r < after.len() && 0 <= k < after[r].definitions.len() implies (
        #[trigger] after[r].definitions[k]) < definitions.len() by {
            if r < before.len() {
                assert(after[r] == before[r]);
                assert(before[r].definitions[k] < definitions.len());
            } else {
                law_resolved_items(module, occurrence, definitions, k);
            }
        }
    }
}

/// In a finished project every reference stands for items that exist.
pub proof fn law_references_exist(project: Snapshot)
    requires
        project.definitions.len() <= usize::MAX,
    ensures
        references_exist(finished(project)),
{
    let definitions = project.definitions;
    let files = Seq::new(
        project.files.len(),
        |i: int| finished_file(project.files[i], definitions),
    );
    law_stable_order(file_keys(files));
    let after = finished(project);
    assert forall|f: int, m: int, r: int, k: int|
        0 <= f < after.files.len() && 0 <= m < after.files[f].modules.len() && 0 <= r
            < after.files[f].modules[m].resolved.len() && 0 <= k
            < after.files[f].modules[m].resolved[r].definitions.len() implies (
    #[trigger] after.files[f].modules[m].resolved[r].definitions[k]) < after.definitions.len() by {
        let from = stable_order(file_keys(files))[f];
        assert(after.files[f] == files[from]);
        let given = project.files[from];
        let resolved = Seq::new(
            given.modules.len(),
            |i: int| with_references(given.modules[i], definitions),
        );
        law_stable_order(priority_keys(resolved));
        let which = stable_order(priority_keys(resolved))[m];
        assert(after.files[f].modules[m] == resolved[which]);
        let module = given.modules[which];
        lemma_resolved_exist(module, definitions, module.raw.len());
        assert(resolved_references(module, definitions, module.raw.len())[r].definitions[k]
            < definitions.len());
    }
}

} // verus!
