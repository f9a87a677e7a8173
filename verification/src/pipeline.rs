//! From packages and what was read of their files to what is known of the project.
use vstd::prelude::*;
use crate::builder::{finished, with_source, SnapshotBuilder};
use crate::metadata::{artifact_place, metadata_defs, ArtifactPath, MetadataPackage, PackageModel};
use crate::model::{find_name, lookup, name_entries, Place};
use crate::project::{collect_target_files, occurrence_count, package_contexts, primary_priority,
    priority_of, target_contexts, target_files, target_models, PackagePart, PackageSource};
use crate::snapshot::{ProjectSnapshot, Snapshot};
use crate::source_module::{TargetContext, TargetModel};
use crate::text::{join3, same_text};
use crate::words::texts;

verus! {

/// The files that hold Miden Assembly in a directory and below it, or what is reported where they
/// could not be listed.
pub struct DirectoryListing {
    pub directory: String,
    pub files: Result<Vec<String>, String>,
}

/// What was read of a file, or what is reported where it could not be read.
pub struct FileText {
    pub path: String,
    pub text: Result<String, String>,
}

/// A compiled package, its file, and the normal forms of the paths that it names.
pub struct CompiledPackage {
    pub package: MetadataPackage,
    pub artifact: Option<ArtifactPath>,
    pub normals: Vec<(String, String)>,
}

/// The model of a compiled package.
pub struct Compiled {
    pub package: PackageModel,
    pub artifact: Option<Place>,
    pub normals: Seq<(Seq<char>, Seq<char>)>,
}

impl View for CompiledPackage {
    type V = Compiled;

    open spec fn view(&self) -> Compiled {
        Compiled {
            package: self.package@,
            artifact: artifact_place(self.artifact),
            normals: name_entries(self.normals@),
        }
    }
}

/// All that was read from disk, and the texts of open documents.
pub struct Inputs {
    pub listings: Vec<DirectoryListing>,
    pub files: Vec<FileText>,
    pub overlays: Vec<(String, String)>,
}

/// The model of a result that holds texts.
pub open spec fn listing_view(files: Result<Vec<String>, String>) -> Result<
    Seq<Seq<char>>,
    Seq<char>,
> {
    match files {
        Ok(files) => Ok(texts(files@)),
        Err(message) => Err(message@),
    }
}

/// The model of a result that holds a text.
pub open spec fn reading_view(text: Result<String, String>) -> Result<Seq<char>, Seq<char>> {
    match text {
        Ok(text) => Ok(text@),
        Err(message) => Err(message@),
    }
}

/// The model of what was read.
pub struct Read {
    pub listings: Seq<(Seq<char>, Result<Seq<Seq<char>>, Seq<char>>)>,
    pub files: Seq<(Seq<char>, Result<Seq<char>, Seq<char>>)>,
    pub overlays: Seq<(Seq<char>, Seq<char>)>,
}

impl View for Inputs {
    type V = Read;

    open spec fn view(&self) -> Read {
        Read {
            listings: Seq::new(
                self.listings@.len(),
                |i: int| (self.listings@[i].directory@, listing_view(self.listings@[i].files)),
            ),
            files: Seq::new(
                self.files@.len(),
                |i: int| (self.files@[i].path@, reading_view(self.files@[i].text)),
            ),
            overlays: name_entries(self.overlays@),
        }
    }
}

impl Read {
    /// The files that were found in a directory.
    pub open spec fn listed(self, directory: Seq<char>) -> Result<Seq<Seq<char>>, Seq<char>> {
        match lookup(self.listings, directory) {
            Some(listing) => listing,
            None => Err("failed to read directory '"@ + directory + "'"@),
        }
    }

    /// The text of a file: that of an open document counts before what was read.
    pub open spec fn text_of(self, path: Seq<char>) -> Result<Seq<char>, Seq<char>> {
        match lookup(self.overlays, path) {
            Some(text) => Ok(text),
            None => match lookup(self.files, path) {
                Some(text) => text,
                None => Err("failed to read '"@ + path + "'"@),
            },
        }
    }
}

/// The files of the first `count` targets, one list after another.
pub open spec fn context_files(read: Read, targets: Seq<TargetModel>, count: nat) -> Result<
    Seq<Seq<Seq<char>>>,
    Seq<char>,
>
    decreases count,
{
    if count == 0 {
        Ok(Seq::empty())
    } else {
        match context_files(read, targets, (count - 1) as nat) {
            Err(message) => Err(message),
            Ok(before) => match read.listed(targets[count - 1].root_dir) {
                Err(message) => Err(message),
                Ok(found) => Ok(before.push(target_files(targets[count - 1], found))),
            },
        }
    }
}

/// The first `count` lists, put together.
pub open spec fn all_files(lists: Seq<Seq<Seq<char>>>, count: nat) -> Seq<Seq<char>>
    decreases count,
{
    if count == 0 {
        Seq::empty()
    } else {
        all_files(lists, (count - 1) as nat) + lists[count - 1]
    }
}

/// A project with the first `count` files of a target; `all` lists the files of all targets of the
/// package.
pub open spec fn with_files(
    read: Read,
    project: Snapshot,
    target: TargetModel,
    files: Seq<Seq<char>>,
    all: Seq<Seq<char>>,
    count: nat,
) -> Result<Snapshot, Seq<char>>
    decreases count,
{
    if count == 0 {
        Ok(project)
    } else {
        match with_files(read, project, target, files, all, (count - 1) as nat) {
            Err(message) => Err(message),
            Ok(before) => {
                let file = files[count - 1];
                match read.text_of(file) {
                    Err(message) => Err(message),
                    Ok(text) => with_source(
                        before,
                        target,
                        file,
                        priority_of(
                            target.context.target,
                            occurrence_count(all, file, all.len()),
                        ),
                        text,
                    ),
                }
            },
        }
    }
}

/// A project with the files of the first `count` targets of a package.
pub open spec fn with_targets(
    read: Read,
    project: Snapshot,
    targets: Seq<TargetModel>,
    lists: Seq<Seq<Seq<char>>>,
    count: nat,
) -> Result<Snapshot, Seq<char>>
    decreases count,
{
    if count == 0 {
        Ok(project)
    } else {
        match with_targets(read, project, targets, lists, (count - 1) as nat) {
            Err(message) => Err(message),
            Ok(before) => with_files(
                read,
                before,
                targets[count - 1],
                lists[count - 1],
                all_files(lists, lists.len()),
                lists[count - 1].len(),
            ),
        }
    }
}

/// A project with one more package of sources.
pub open spec fn with_package(read: Read, project: Snapshot, package: PackagePart) -> Result<
    Snapshot,
    Seq<char>,
> {
    match package_contexts(package) {
        Err(message) => Err(message),
        Ok(targets) => match context_files(read, targets, targets.len()) {
            Err(message) => Err(message),
            Ok(lists) => with_targets(read, project, targets, lists, targets.len()),
        },
    }
}

/// A project with the first `count` packages of sources.
pub open spec fn with_packages(read: Read, packages: Seq<PackagePart>, count: nat) -> Result<
    Snapshot,
    Seq<char>,
>
    decreases count,
{
    if count == 0 {
        Ok(Snapshot { files: Seq::empty(), definitions: Seq::empty() })
    } else {
        match with_packages(read, packages, (count - 1) as nat) {
            Err(message) => Err(message),
            Ok(before) => with_package(read, before, packages[count - 1]),
        }
    }
}

/// A project with the first `count` compiled packages.
pub open spec fn with_compiled(project: Snapshot, compiled: Seq<Compiled>, count: nat) -> Snapshot
    decreases count,
{
    if count == 0 {
        project
    } else {
        let before = with_compiled(project, compiled, (count - 1) as nat);
        let next = compiled[count - 1];
        Snapshot {
            definitions: before.definitions + metadata_defs(
                next.package,
                next.artifact,
                next.normals,
            ),
            ..before
        }
    }
}

/// What is known of a project, or the first failure that is met.
pub open spec fn built(read: Read, packages: Seq<PackagePart>, compiled: Seq<Compiled>) -> Result<
    Snapshot,
    Seq<char>,
> {
    match with_packages(read, packages, packages.len()) {
        Err(message) => Err(message),
        Ok(project) => Ok(finished(with_compiled(project, compiled, compiled.len()))),
    }
}

/// The models of a list of packages.
pub open spec fn package_parts(packages: Seq<PackageSource>) -> Seq<PackagePart> {
    Seq::new(packages.len(), |i: int| packages[i]@)
}

/// The models of a list of compiled packages.
pub open spec fn compiled_views(compiled: Seq<CompiledPackage>) -> Seq<Compiled> {
    Seq::new(compiled.len(), |i: int| compiled[i]@)
}

/// The models of lists of files.
pub open spec fn list_views(lists: Seq<Vec<String>>) -> Seq<Seq<Seq<char>>> {
    Seq::new(lists.len(), |i: int| texts(lists[i]@))
}

/// A copy of a list of texts.
fn copy_texts(list: &Vec<String>) -> (copy: Vec<String>)
    ensures
        texts(copy@) == texts(list@),
{
    let mut copy: Vec<String> = Vec::new();
    append_texts(&mut copy, list);
    assert(texts(copy@) =~= texts(list@));
    copy
}

/// Appends copies of texts.
fn append_texts(list: &mut Vec<String>, more: &Vec<String>)
    ensures
        texts(final(list)@) == texts(old(list)@) + texts(more@),
{
    let ghost start = texts(list@);
    let ghost all = texts(more@);
    let mut i: usize = 0;
    assert(start + all.take(0) =~= start);
    while i < more.len()
        invariant
            i <= more.len(),
            all == texts(more@),
            texts(list@) == start + all.take(i as int),
        decreases more.len() - i,
    {
        let ghost before = texts(list@);
        list.push(more[i].clone());
        assert(texts(list@) =~= before.push(all[i as int]));
        assert(start + all.take(i + 1) =~= (start + all.take(i as int)).push(all[i as int]));
        i = i + 1;
    }
    assert(all.take(i as int) =~= all);
}

impl Inputs {
    /// The files that were found in a directory.
    fn listed(&self, directory: &str) -> (files: Result<Vec<String>, String>)
        ensures
            listing_view(files) == self@.listed(directory@),
    {
        let ghost all = self@.listings;
        let mut i: usize = self.listings.len();
        while i > 0
            invariant
                i <= self.listings.len(),
                all == self@.listings,
                lookup(all, directory@) == crate::model::entry(all, directory@, i as nat),
            decreases i,
        {
            i = i - 1;
            let listing = &self.listings[i];
            assert(all[i as int] == (listing.directory@, listing_view(listing.files)));
            if same_text(&listing.directory, directory) {
                return match &listing.files {
                    Ok(files) => Ok(copy_texts(files)),
                    Err(message) => Err(message.clone()),
                };
            }
        }
        Err(join3("failed to read directory '", directory, "'"))
    }

    /// The text of a file.
    pub fn text_of(&self, path: &str) -> (text: Result<String, String>)
        ensures
            reading_view(text) == self@.text_of(path@),
    {
        if let Some(text) = find_name(&self.overlays, path) {
            return Ok(text.clone());
        }
        let ghost all = self@.files;
        let mut i: usize = self.files.len();
        while i > 0
            invariant
                i <= self.files.len(),
                all == self@.files,
                lookup(self@.overlays, path@) is None,
                lookup(all, path@) == crate::model::entry(all, path@, i as nat),
            decreases i,
        {
            i = i - 1;
            let file = &self.files[i];
            assert(all[i as int] == (file.path@, reading_view(file.text)));
            if same_text(&file.path, path) {
                return match &file.text {
                    Ok(text) => Ok(text.clone()),
                    Err(message) => Err(message.clone()),
                };
            }
        }
        Err(join3("failed to read '", path, "'"))
    }
}

/// The files of the targets of a package.
fn list_context_files(inputs: &Inputs, contexts: &Vec<TargetContext>) -> (result: Result<
    Vec<Vec<String>>,
    String,
>)
    ensures
        match result {
            Ok(lists) => context_files(inputs@, target_models(contexts@), contexts@.len()) == Ok::<
                Seq<Seq<Seq<char>>>,
                Seq<char>,
            >(list_views(lists@)) && lists@.len() == contexts@.len(),
            Err(message) => context_files(inputs@, target_models(contexts@), contexts@.len())
                == Err::<Seq<Seq<Seq<char>>>, Seq<char>>(message@),
        },
{
    let ghost targets = target_models(contexts@);
    let mut lists: Vec<Vec<String>> = Vec::new();
    let mut i: usize = 0;
    assert(list_views(lists@) =~= Seq::<Seq<Seq<char>>>::empty());
    while i < contexts.len()
        invariant
            i <= contexts.len(),
            targets == target_models(contexts@),
            lists@.len() == i,
            context_files(inputs@, targets, i as nat) == Ok::<Seq<Seq<Seq<char>>>, Seq<char>>(
                list_views(lists@),
            ),
        decreases contexts.len() - i,
    {
        let context = &contexts[i];
        assert(targets[i as int] == context@);
        proof {
            lemma_lists_fail(inputs@, targets, (i + 1) as nat, targets.len());
        }
        match inputs.listed(&context.root_dir) {
            Ok(found) => {
                let files = collect_target_files(context, found);
                let ghost before = list_views(lists@);
                lists.push(files);
                assert(list_views(lists@) =~= before.push(texts(files@)));
            },
            Err(message) => return Err(message),
        }
        i = i + 1;
    }
    Ok(lists)
}

proof fn lemma_lists_fail(read: Read, targets: Seq<TargetModel>, from: nat, to: nat)
    requires
        from <= to,
    ensures
        context_files(read, targets, from) is Err ==> context_files(read, targets, to)
            == context_files(read, targets, from),
    decreases to,
{
    if from < to {
        lemma_lists_fail(read, targets, from, (to - 1) as nat);
    }
}

proof fn lemma_files_fail(
    read: Read,
    project: Snapshot,
    target: TargetModel,
    files: Seq<Seq<char>>,
    all: Seq<Seq<char>>,
    from: nat,
    to: nat,
)
    requires
        from <= to,
    ensures
        with_files(read, project, target, files, all, from) is Err ==> with_files(
            read,
            project,
            target,
            files,
            all,
            to,
        ) == with_files(read, project, target, files, all, from),
    decreases to,
{
    if from < to {
        lemma_files_fail(read, project, target, files, all, from, (to - 1) as nat);
    }
}

proof fn lemma_targets_fail(
    read: Read,
    project: Snapshot,
    targets: Seq<TargetModel>,
    lists: Seq<Seq<Seq<char>>>,
    from: nat,
    to: nat,
)
    requires
        from <= to,
    ensures
        with_targets(read, project, targets, lists, from) is Err ==> with_targets(
            read,
            project,
            targets,
            lists,
            to,
        ) == with_targets(read, project, targets, lists, from),
    decreases to,
{
    if from < to {
        lemma_targets_fail(read, project, targets, lists, from, (to - 1) as nat);
    }
}

proof fn lemma_packages_fail(read: Read, packages: Seq<PackagePart>, from: nat, to: nat)
    requires
        from <= to,
    ensures
        with_packages(read, packages, from) is Err ==> with_packages(read, packages, to)
            == with_packages(read, packages, from),
    decreases to,
{
    if from < to {
        lemma_packages_fail(read, packages, from, (to - 1) as nat);
    }
}

/// Adds the files of a target.
fn add_files(
    builder: &mut SnapshotBuilder,
    inputs: &Inputs,
    context: &TargetContext,
    files: &Vec<String>,
    all: &Vec<String>,
) -> (result: Result<(), String>)
    requires
        old(builder).well_formed(),
    ensures
        final(builder).well_formed(),
        match result {
            Ok(_) => with_files(
                inputs@,
                old(builder)@,
                context@,
                texts(files@),
                texts(all@),
                files@.len(),
            ) == Ok::<Snapshot, Seq<char>>(final(builder)@),
            Err(message) => with_files(
                inputs@,
                old(builder)@,
                context@,
                texts(files@),
                texts(all@),
                files@.len(),
            ) == Err::<Snapshot, Seq<char>>(message@),
        },
{
    let ghost start = builder@;
    let ghost listed = texts(files@);
    let ghost every = texts(all@);
    let mut i: usize = 0;
    while i < files.len()
        invariant
            i <= files.len(),
            builder.well_formed(),
            start == old(builder)@,
            listed == texts(files@),
            every == texts(all@),
            with_files(inputs@, start, context@, listed, every, i as nat) == Ok::<
                Snapshot,
                Seq<char>,
            >(builder@),
        decreases files.len() - i,
    {
        let path = &files[i];
        assert(listed[i as int] == path@);
        proof {
            lemma_files_fail(
                inputs@,
                start,
                context@,
                listed,
                every,
                (i + 1) as nat,
                listed.len(),
            );
        }
        let priority = primary_priority(&context.target, path, all);
        let text = inputs.text_of(path);
        if let Err(message) = builder.add_source(context, path, priority, text) {
            return Err(message);
        }
        i = i + 1;
    }
    Ok(())
}

/// Adds a package of sources.
fn add_sources(builder: &mut SnapshotBuilder, inputs: &Inputs, package: &PackageSource) -> (result: Result<
    (),
    String,
>)
    requires
        old(builder).well_formed(),
    ensures
        final(builder).well_formed(),
        match result {
            Ok(_) => with_package(inputs@, old(builder)@, package@) == Ok::<Snapshot, Seq<char>>(
                final(builder)@,
            ),
            Err(message) => with_package(inputs@, old(builder)@, package@) == Err::<
                Snapshot,
                Seq<char>,
            >(message@),
        },
{
    let contexts = match target_contexts(package) {
        Ok(contexts) => contexts,
        Err(message) => return Err(message),
    };
    let lists = match list_context_files(inputs, &contexts) {
        Ok(lists) => lists,
        Err(message) => return Err(message),
    };
    let ghost start = builder@;
    let ghost targets = target_models(contexts@);
    let ghost views = list_views(lists@);
    let mut all: Vec<String> = Vec::new();
    let mut k: usize = 0;
    assert(texts(all@) =~= all_files(views, 0));
    while k < lists.len()
        invariant
            k <= lists.len(),
            views == list_views(lists@),
            texts(all@) == all_files(views, k as nat),
        decreases lists.len() - k,
    {
        assert(views[k as int] == texts(lists@[k as int]@));
        append_texts(&mut all, &lists[k]);
        k = k + 1;
    }
    let mut i: usize = 0;
    while i < contexts.len()
        invariant
            i <= contexts.len(),
            lists@.len() == contexts@.len(),
            builder.well_formed(),
            start == old(builder)@,
            targets == target_models(contexts@),
            views == list_views(lists@),
            texts(all@) == all_files(views, views.len()),
            package_contexts(package@) == Ok::<Seq<TargetModel>, Seq<char>>(targets),
            context_files(inputs@, targets, targets.len()) == Ok::<
                Seq<Seq<Seq<char>>>,
                Seq<char>,
            >(views),
            with_targets(inputs@, start, targets, views, i as nat) == Ok::<Snapshot, Seq<char>>(
                builder@,
            ),
        decreases contexts.len() - i,
    {
        proof {
            assert(targets[i as int] == contexts@[i as int]@);
            assert(views[i as int] == texts(lists@[i as int]@));
            assert(views[i as int].len() == lists@[i as int]@.len());
            lemma_targets_fail(inputs@, start, targets, views, (i + 1) as nat, targets.len());
        }
        if let Err(message) = add_files(builder, inputs, &contexts[i], &lists[i], &all) {
            return Err(message);
        }
        i = i + 1;
    }
    Ok(())
}

/// Builds what is known of a project from its packages of sources and its compiled packages. The
/// first failure that is met is reported.
pub fn build_snapshot(
    inputs: &Inputs,
    packages: &Vec<PackageSource>,
    compiled: &Vec<CompiledPackage>,
) -> (result: Result<ProjectSnapshot, String>)
    ensures
        match result {
            Ok(snapshot) => snapshot.well_formed() && built(
                inputs@,
                package_parts(packages@),
                compiled_views(compiled@),
            ) == Ok::<Snapshot, Seq<char>>(snapshot@),
            Err(message) => built(
                inputs@,
                package_parts(packages@),
                compiled_views(compiled@),
            ) == Err::<Snapshot, Seq<char>>(message@),
        },
{
    let ghost parts = package_parts(packages@);
    let ghost metadata = compiled_views(compiled@);
    let mut builder = SnapshotBuilder::new();
    let mut i: usize = 0;
    while i < packages.len()
        invariant
            i <= packages.len(),
            builder.well_formed(),
            parts == package_parts(packages@),
            metadata == compiled_views(compiled@),
            with_packages(inputs@, parts, i as nat) == Ok::<Snapshot, Seq<char>>(builder@),
        decreases packages.len() - i,
    {
        proof {
            assert(parts[i as int] == packages@[i as int]@);
            lemma_packages_fail(inputs@, parts, (i + 1) as nat, parts.len());
        }
        if let Err(message) = add_sources(&mut builder, inputs, &packages[i]) {
            return Err(message);
        }
        i = i + 1;
    }
    let ghost project = builder@;
    let mut j: usize = 0;
    while j < compiled.len()
        invariant
            j <= compiled.len(),
            builder.well_formed(),
            metadata == compiled_views(compiled@),
            builder@ == with_compiled(project, metadata, j as nat),
        decreases compiled.len() - j,
    {
        let next = &compiled[j];
        assert(metadata[j as int] == next@);
        builder.add_package(&next.package, &next.artifact, &next.normals);
        j = j + 1;
    }
    Ok(builder.finish())
}

/// The text of an open document counts, whatever was read from disk.
pub proof fn law_open_documents_come_first(read: Read, path: Seq<char>, text: Seq<char>)
    requires
        lookup(read.overlays, path) == Some(text),
    ensures
        read.text_of(path) == Ok::<Seq<char>, Seq<char>>(text),
{
}

} // verus!
