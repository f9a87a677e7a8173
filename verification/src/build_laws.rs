//! What a project is made of: the laws of building one.
use vstd::prelude::*;
use vstd::utf8::encode_utf8;
use crate::builder::{file_keys, finished, finished_file, priority_keys, with_module, with_source};
use crate::metadata::metadata_defs;
use crate::model::{Def, ModuleModel};
use crate::order::{in_order, key_le, law_stable_order, stable_order};
use crate::parsed::ParsedText;
use crate::pipeline::{all_files, built, context_files, with_compiled, with_files, with_package,
    with_packages, with_targets, Compiled, Read};
use crate::project::{occurrence_count, package_contexts, path_key, priority_of, target_files,
    PackagePart};
use crate::resolve::with_references;
use crate::snapshot::{file_at, FileModel, Snapshot};
use crate::snapshot_laws::lemma_join_contains;
use crate::source_module::{source_module, TargetModel};
use crate::syntax::tree_rows;

verus! {

/// Whether one of a project's files has a module.
pub open spec fn has_module(project: Snapshot, module: ModuleModel) -> bool {
    exists|f: int, m: int|
        {
            &&& 0 <= f < project.files.len()
            &&& 0 <= m < project.files[f].modules.len()
            &&& #[trigger] project.files[f].modules[m] == module
        }
}

/// Whether every module of a project stands in the entry of its file, and every file has one entry.
pub open spec fn is_filed(project: Snapshot) -> bool {
    &&& forall|f: int, m: int|
        0 <= f < project.files.len() && 0 <= m < project.files[f].modules.len() ==> (
        #[trigger] project.files[f].modules[m]).file == project.files[f].path
    &&& forall|f: int, g: int|
        0 <= f < g < project.files.len() ==> (#[trigger] project.files[f]).path != (
        #[trigger] project.files[g]).path
}

proof fn lemma_file_at(files: Seq<FileModel>, path: Seq<char>, at: int)
    requires
        0 <= at,
    ensures
        match file_at(files, path, at) {
            Some(found) => at <= found < files.len() && files[found].path == path,
            None => forall|i: int| at <= i < files.len() ==> (#[trigger] files[i]).path != path,
        },
    decreases files.len() - at,
{
    if at < files.len() && files[at].path != path {
        lemma_file_at(files, path, at + 1);
    }
}

proof fn lemma_with_module(
    project: Snapshot,
    parsed: ParsedText,
    module: ModuleModel,
    definitions: Seq<Def>,
    other: ModuleModel,
)
    requires
        is_filed(project),
    ensures
        ({
            let after = Snapshot {
                files: with_module(project.files, parsed, module),
                definitions,
            };
            &&& is_filed(after)
            &&& has_module(after, other) <==> has_module(project, other) || other == module
        }),
{
    let files = project.files;
    let after = Snapshot { files: with_module(files, parsed, module), definitions };
    lemma_file_at(files, module.file, 0);
    match file_at(files, module.file, 0) {
        Some(at) => {
            let more = files[at].modules.push(module);
            assert(after.files[at].modules == more);
            assert(more[files[at].modules.len() as int] == module);
            assert(after.files[at].modules[files[at].modules.len() as int] == module);
            if has_module(project, other) {
                let (f, m) = choose|f: int, m: int|
                    {
                        &&& 0 <= f < files.len()
                        &&& 0 <= m < files[f].modules.len()
                        &&& #[trigger] files[f].modules[m] == other
                    };
                assert(after.files[f].modules[m] == other);
            }
            if has_module(after, other) {
                let (f, m) = choose|f: int, m: int|
                    {
                        &&& 0 <= f < after.files.len()
                        &&& 0 <= m < after.files[f].modules.len()
                        &&& #[trigger] after.files[f].modules[m] == other
                    };
                if f != at || m < files[at].modules.len() {
                    assert(files[f].modules[m] == other);
                }
            }
            assert forall|f: int, m: int|
                0 <= f < after.files.len() && 0 <= m < after.files[f].modules.len() implies (
            #[trigger] after.files[f].modules[m]).file == after.files[f].path by {
                if f != at || m < files[at].modules.len() {
                    assert(files[f].modules[m].file == files[f].path);
                }
            }
        },
        None => {
            let last = files.len() as int;
            assert(after.files[last].modules[0] == module);
            if has_module(project, other) {
                let (f, m) = choose|f: int, m: int|
                    {
                        &&& 0 <= f < files.len()
                        &&& 0 <= m < files[f].modules.len()
                        &&& #[trigger] files[f].modules[m] == other
                    };
                assert(after.files[f].modules[m] == other);
            }
            if has_module(after, other) {
                let (f, m) = choose|f: int, m: int|
                    {
                        &&& 0 <= f < after.files.len()
                        &&& 0 <= m < after.files[f].modules.len()
                        &&& #[trigger] after.files[f].modules[m] == other
                    };
                if f < last {
                    assert(files[f].modules[m] == other);
                }
            }
            assert forall|f: int, m: int|
                0 <= f < after.files.len() && 0 <= m < after.files[f].modules.len() implies (
            #[trigger] after.files[f].modules[m]).file == after.files[f].path by {
                if f < last {
                    assert(files[f].modules[m].file == files[f].path);
                }
            }
        },
    }
}

/// Whether a module is what a file of a target holds, with its text as it was read or as it is open,
/// and a rank by its target and by how many targets have the file.
#[verifier::opaque]
pub open spec fn is_read_from(
    read: Read,
    target: TargetModel,
    file: Seq<char>,
    all: Seq<Seq<char>>,
    module: ModuleModel,
) -> bool {
    &&& read.text_of(file) is Ok
    &&& tree_rows(read.text_of(file)->Ok_0) is Some
    &&& source_module(
        target,
        file,
        priority_of(target.context.target, occurrence_count(all, file, all.len())),
        ParsedText {
            text: read.text_of(file)->Ok_0,
            rows: tree_rows(read.text_of(file)->Ok_0).unwrap(),
        },
    ) == Ok::<ModuleModel, Seq<char>>(module)
}

proof fn lemma_with_files(
    read: Read,
    project: Snapshot,
    target: TargetModel,
    files: Seq<Seq<char>>,
    all: Seq<Seq<char>>,
    count: nat,
    other: ModuleModel,
    item: Def,
)
    requires
        is_filed(project),
        count <= files.len(),
        with_files(read, project, target, files, all, count) is Ok,
    ensures
        ({
            let after = with_files(read, project, target, files, all, count)->Ok_0;
            &&& is_filed(after)
            &&& has_module(after, other) <==> has_module(project, other) || exists|i: int|
                0 <= i < count && is_read_from(read, target, #[trigger] files[i], all, other)
            &&& after.definitions.contains(item) <==> project.definitions.contains(item) || exists|
                i: int,
                module: ModuleModel,
            |
                {
                    &&& 0 <= i < count
                    &&& #[trigger] is_read_from(read, target, files[i], all, module)
                    &&& module.definitions.contains(item)
                }
        }),
    decreases count,
{
    if count > 0 {
        let last = count - 1;
        lemma_with_files(read, project, target, files, all, last as nat, other, item);
        let before = with_files(read, project, target, files, all, last as nat)->Ok_0;
        let after = with_files(read, project, target, files, all, count)->Ok_0;
        let (module, parsed) = lemma_one_file(read, before, target, files[last], all, after);
        lemma_with_module(before, parsed, module, after.definitions, other);
        lemma_join_contains(before.definitions, module.definitions, item);
        lemma_last_file(read, target, files, all, count, module, other, item);
    }
}

/// What the last of several files adds.
proof fn lemma_last_file(
    read: Read,
    target: TargetModel,
    files: Seq<Seq<char>>,
    all: Seq<Seq<char>>,
    count: nat,
    module: ModuleModel,
    other: ModuleModel,
    item: Def,
)
    requires
        0 < count <= files.len(),
        is_read_from(read, target, files[count - 1], all, module),
        forall|third: ModuleModel| #[trigger]
            is_read_from(read, target, files[count - 1], all, third) ==> third == module,
    ensures
        (exists|i: int|
            0 <= i < count && is_read_from(read, target, #[trigger] files[i], all, other)) <==> (
        exists|i: int|
            0 <= i < count - 1 && is_read_from(read, target, #[trigger] files[i], all, other))
            || other == module,
        (exists|i: int, third: ModuleModel|
            {
                &&& 0 <= i < count
                &&& #[trigger] is_read_from(read, target, files[i], all, third)
                &&& third.definitions.contains(item)
            }) <==> (exists|i: int, third: ModuleModel|
            {
                &&& 0 <= i < count - 1
                &&& #[trigger] is_read_from(read, target, files[i], all, third)
                &&& third.definitions.contains(item)
            }) || module.definitions.contains(item),
{
    let last = count - 1;
    assert(is_read_from(read, target, files[last], all, module));
    if exists|i: int| 0 <= i < count && is_read_from(read, target, #[trigger] files[i], all, other) {
        let i = choose|i: int|
            0 <= i < count && is_read_from(read, target, #[trigger] files[i], all, other);
        if i < last {
            assert(0 <= i < last && is_read_from(read, target, files[i], all, other));
        }
    }
    if exists|i: int| 0 <= i < last && is_read_from(read, target, #[trigger] files[i], all, other) {
        let i = choose|i: int|
            0 <= i < last && is_read_from(read, target, #[trigger] files[i], all, other);
        assert(0 <= i < count && is_read_from(read, target, files[i], all, other));
    }
    if exists|i: int, third: ModuleModel|
        {
            &&& 0 <= i < count
            &&& #[trigger] is_read_from(read, target, files[i], all, third)
            &&& third.definitions.contains(item)
        } {
        let (i, third) = choose|i: int, third: ModuleModel|
            {
                &&& 0 <= i < count
                &&& #[trigger] is_read_from(read, target, files[i], all, third)
                &&& third.definitions.contains(item)
            };
        if i < last {
            assert(0 <= i < last && is_read_from(read, target, files[i], all, third));
        }
    }
    if exists|i: int, third: ModuleModel|
        {
            &&& 0 <= i < last
            &&& #[trigger] is_read_from(read, target, files[i], all, third)
            &&& third.definitions.contains(item)
        } {
        let (i, third) = choose|i: int, third: ModuleModel|
            {
                &&& 0 <= i < last
                &&& #[trigger] is_read_from(read, target, files[i], all, third)
                &&& third.definitions.contains(item)
            };
        assert(0 <= i < count && is_read_from(read, target, files[i], all, third));
    }
}

/// What one file adds to a project.
proof fn lemma_one_file(
    read: Read,
    before: Snapshot,
    target: TargetModel,
    file: Seq<char>,
    all: Seq<Seq<char>>,
    after: Snapshot,
) -> (found: (ModuleModel, ParsedText))
    requires
        read.text_of(file) is Ok,
        with_source(
            before,
            target,
            file,
            priority_of(target.context.target, occurrence_count(all, file, all.len())),
            read.text_of(file)->Ok_0,
        ) == Ok::<Snapshot, Seq<char>>(after),
    ensures
        is_read_from(read, target, file, all, found.0),
        forall|third: ModuleModel| #[trigger]
            is_read_from(read, target, file, all, third) ==> third == found.0,
        after == (Snapshot {
            files: with_module(before.files, found.1, found.0),
            definitions: before.definitions + found.0.definitions,
        }),
{
    reveal(is_read_from);
    let text = read.text_of(file)->Ok_0;
    let parsed = ParsedText { text, rows: tree_rows(text).unwrap() };
    let priority = priority_of(target.context.target, occurrence_count(all, file, all.len()));
    (source_module(target, file, priority, parsed)->Ok_0, parsed)
}

/// Whether a module is what one of a package's files holds: one of the files of one of its targets.
pub open spec fn is_in_package(read: Read, package: PackagePart, t: int, i: int, module: ModuleModel) -> bool {
    match package_contexts(package) {
        Err(_) => false,
        Ok(targets) => match context_files(read, targets, targets.len()) {
            Err(_) => false,
            Ok(lists) => {
                &&& 0 <= t < targets.len()
                &&& 0 <= t < lists.len()
                &&& 0 <= i < lists[t].len()
                &&& is_read_from(
                    read,
                    targets[t],
                    lists[t][i],
                    all_files(lists, lists.len()),
                    module,
                )
            },
        },
    }
}

/// Whether a module is what one of the files of the first targets holds.
spec fn is_in_targets(
    read: Read,
    targets: Seq<TargetModel>,
    lists: Seq<Seq<Seq<char>>>,
    t: int,
    i: int,
    module: ModuleModel,
) -> bool {
    &&& 0 <= t < targets.len()
    &&& 0 <= t < lists.len()
    &&& 0 <= i < lists[t].len()
    &&& is_read_from(read, targets[t], lists[t][i], all_files(lists, lists.len()), module)
}

proof fn lemma_with_targets(
    read: Read,
    project: Snapshot,
    targets: Seq<TargetModel>,
    lists: Seq<Seq<Seq<char>>>,
    count: nat,
    other: ModuleModel,
    item: Def,
)
    requires
        is_filed(project),
        count <= targets.len(),
        count <= lists.len(),
        with_targets(read, project, targets, lists, count) is Ok,
    ensures
        ({
            let after = with_targets(read, project, targets, lists, count)->Ok_0;
            &&& is_filed(after)
            &&& has_module(after, other) <==> has_module(project, other) || exists|t: int, i: int|
                t < count && #[trigger] is_in_targets(read, targets, lists, t, i, other)
            &&& after.definitions.contains(item) <==> project.definitions.contains(item) || exists|
                t: int,
                i: int,
                module: ModuleModel,
            |
                {
                    &&& t < count
                    &&& #[trigger] is_in_targets(read, targets, lists, t, i, module)
                    &&& module.definitions.contains(item)
                }
        }),
    decreases count,
{
    if count > 0 {
        let last = count - 1;
        lemma_with_targets(read, project, targets, lists, last as nat, other, item);
        let before = with_targets(read, project, targets, lists, last as nat)->Ok_0;
        let all = all_files(lists, lists.len());
        let files = lists[last];
        lemma_with_files(
            read,
            before,
            targets[last],
            files,
            all,
            files.len(),
            other,
            item,
        );
        if exists|i: int|
            0 <= i < files.len() && is_read_from(
                read,
                targets[last],
                #[trigger] files[i],
                all,
                other,
            ) {
            let i = choose|i: int|
                0 <= i < files.len() && is_read_from(
                    read,
                    targets[last],
                    #[trigger] files[i],
                    all,
                    other,
                );
            assert(is_in_targets(read, targets, lists, last, i, other));
        }
        if exists|t: int, i: int|
            t < count && #[trigger] is_in_targets(read, targets, lists, t, i, other) {
            let (t, i) = choose|t: int, i: int|
                t < count && #[trigger] is_in_targets(read, targets, lists, t, i, other);
            if t == last {
                assert(is_read_from(read, targets[last], files[i], all, other));
            } else {
                assert(t < last && is_in_targets(read, targets, lists, t, i, other));
            }
        }
        if exists|i: int, module: ModuleModel|
            {
                &&& 0 <= i < files.len()
                &&& #[trigger] is_read_from(read, targets[last], files[i], all, module)
                &&& module.definitions.contains(item)
            } {
            let (i, module) = choose|i: int, module: ModuleModel|
                {
                    &&& 0 <= i < files.len()
                    &&& #[trigger] is_read_from(read, targets[last], files[i], all, module)
                    &&& module.definitions.contains(item)
                };
            assert(is_in_targets(read, targets, lists, last, i, module));
        }
        if exists|t: int, i: int, module: ModuleModel|
            {
                &&& t < count
                &&& #[trigger] is_in_targets(read, targets, lists, t, i, module)
                &&& module.definitions.contains(item)
            } {
            let (t, i, module) = choose|t: int, i: int, module: ModuleModel|
                {
                    &&& t < count
                    &&& #[trigger] is_in_targets(read, targets, lists, t, i, module)
                    &&& module.definitions.contains(item)
                };
            if t == last {
                assert(is_read_from(read, targets[last], files[i], all, module));
            } else {
                assert(t < last && is_in_targets(read, targets, lists, t, i, module));
            }
        }
    }
}

proof fn lemma_context_files(read: Read, targets: Seq<TargetModel>, count: nat)
    requires
        count <= targets.len(),
        context_files(read, targets, count) is Ok,
    ensures
        context_files(read, targets, count)->Ok_0.len() == count,
        forall|t: int|
            0 <= t < count ==> {
                &&& read.listed((#[trigger] targets[t]).root_dir) is Ok
                &&& context_files(read, targets, count)->Ok_0[t] == target_files(
                    targets[t],
                    read.listed(targets[t].root_dir)->Ok_0,
                )
            },
    decreases count,
{
    if count > 0 {
        lemma_context_files(read, targets, (count - 1) as nat);
    }
}

/// The files of a package's targets are known exactly where the directory of each target could be
/// listed; each target then has the files that are its own among those in its directory.
pub proof fn law_files_of_targets(read: Read, targets: Seq<TargetModel>, count: nat)
    requires
        count <= targets.len(),
    ensures
        match context_files(read, targets, count) {
            Ok(lists) => {
                &&& lists.len() == count
                &&& forall|t: int|
                    0 <= t < count ==> {
                        &&& read.listed((#[trigger] targets[t]).root_dir) is Ok
                        &&& lists[t] == target_files(
                            targets[t],
                            read.listed(targets[t].root_dir)->Ok_0,
                        )
                    }
            },
            Err(message) => exists|t: int|
                0 <= t < count && read.listed((#[trigger] targets[t]).root_dir) == Err::<
                    Seq<Seq<char>>,
                    Seq<char>,
                >(message),
        },
    decreases count,
{
    if context_files(read, targets, count) is Ok {
        lemma_context_files(read, targets, count);
    } else if count > 0 {
        law_files_of_targets(read, targets, (count - 1) as nat);
        if context_files(read, targets, (count - 1) as nat) is Ok {
            assert(read.listed(targets[count - 1].root_dir) is Err);
        }
    }
}

proof fn lemma_with_packages(
    read: Read,
    packages: Seq<PackagePart>,
    count: nat,
    other: ModuleModel,
    item: Def,
)
    requires
        count <= packages.len(),
        with_packages(read, packages, count) is Ok,
    ensures
        ({
            let after = with_packages(read, packages, count)->Ok_0;
            &&& is_filed(after)
            &&& has_module(after, other) <==> exists|p: int, t: int, i: int|
                0 <= p < count && #[trigger] is_in_package(read, packages[p], t, i, other)
            &&& after.definitions.contains(item) <==> exists|
                p: int,
                t: int,
                i: int,
                module: ModuleModel,
            |
                {
                    &&& 0 <= p < count
                    &&& #[trigger] is_in_package(read, packages[p], t, i, module)
                    &&& module.definitions.contains(item)
                }
        }),
    decreases count,
{
    if count > 0 {
        let last = count - 1;
        lemma_with_packages(read, packages, last as nat, other, item);
        let before = with_packages(read, packages, last as nat)->Ok_0;
        let package = packages[last];
        let targets = package_contexts(package)->Ok_0;
        let lists = context_files(read, targets, targets.len())->Ok_0;
        lemma_context_files(read, targets, targets.len());
        lemma_with_targets(read, before, targets, lists, targets.len(), other, item);
        assert forall|t: int, i: int, module: ModuleModel| #[trigger]
            is_in_targets(read, targets, lists, t, i, module) <==> is_in_package(
                read,
                packages[last],
                t,
                i,
                module,
            ) by {}
        if exists|t: int, i: int|
            t < targets.len() && #[trigger] is_in_targets(read, targets, lists, t, i, other) {
            let (t, i) = choose|t: int, i: int|
                t < targets.len() && #[trigger] is_in_targets(read, targets, lists, t, i, other);
            assert(is_in_package(read, packages[last], t, i, other));
        }
        if exists|p: int, t: int, i: int|
            0 <= p < count && #[trigger] is_in_package(read, packages[p], t, i, other) {
            let (p, t, i) = choose|p: int, t: int, i: int|
                0 <= p < count && #[trigger] is_in_package(read, packages[p], t, i, other);
            if p == last {
                assert(is_in_targets(read, targets, lists, t, i, other));
            } else {
                assert(0 <= p < last && is_in_package(read, packages[p], t, i, other));
            }
        }
        if exists|t: int, i: int, module: ModuleModel|
            {
                &&& t < targets.len()
                &&& #[trigger] is_in_targets(read, targets, lists, t, i, module)
                &&& module.definitions.contains(item)
            } {
            let (t, i, module) = choose|t: int, i: int, module: ModuleModel|
                {
                    &&& t < targets.len()
                    &&& #[trigger] is_in_targets(read, targets, lists, t, i, module)
                    &&& module.definitions.contains(item)
                };
            assert(is_in_package(read, packages[last], t, i, module));
        }
        if exists|p: int, t: int, i: int, module: ModuleModel|
            {
                &&& 0 <= p < count
                &&& #[trigger] is_in_package(read, packages[p], t, i, module)
                &&& module.definitions.contains(item)
            } {
            let (p, t, i, module) = choose|p: int, t: int, i: int, module: ModuleModel|
                {
                    &&& 0 <= p < count
                    &&& #[trigger] is_in_package(read, packages[p], t, i, module)
                    &&& module.definitions.contains(item)
                };
            if p == last {
                assert(is_in_targets(read, targets, lists, t, i, module));
            } else {
                assert(0 <= p < last && is_in_package(read, packages[p], t, i, module));
            }
        }
    }
}

proof fn lemma_with_compiled(project: Snapshot, compiled: Seq<Compiled>, count: nat, item: Def)
    requires
        count <= compiled.len(),
    ensures
        with_compiled(project, compiled, count).files == project.files,
        with_compiled(project, compiled, count).definitions.contains(item)
            <==> project.definitions.contains(item) || exists|c: int|
            0 <= c < count && metadata_defs(
                (#[trigger] compiled[c]).package,
                compiled[c].artifact,
                compiled[c].normals,
            ).contains(item),
    decreases count,
{
    if count > 0 {
        lemma_with_compiled(project, compiled, (count - 1) as nat, item);
        let before = with_compiled(project, compiled, (count - 1) as nat);
        let next = compiled[count - 1];
        lemma_join_contains(
            before.definitions,
            metadata_defs(next.package, next.artifact, next.normals),
            item,
        );
    }
}

/// Whether a list of numbers names each below a count once.
pub open spec fn is_permutation(list: Seq<int>, count: int) -> bool {
    &&& list.len() == count
    &&& forall|k: int| 0 <= k < count ==> 0 <= #[trigger] list[k] < count
    &&& forall|i: int| 0 <= i < count ==> #[trigger] list.contains(i)
}

/// Whether a file is another one with its modules resolved and put in the order of their ranks, those
/// of one rank in the order in which they stood.
pub open spec fn is_finished_file(file: FileModel, after: FileModel, definitions: Seq<Def>) -> bool {
    &&& after.path == file.path
    &&& after.parsed == file.parsed
    &&& exists|order: Seq<int>|
        {
            &&& #[trigger] is_permutation(order, file.modules.len() as int)
            &&& after.modules.len() == order.len()
            &&& forall|k: int|
                0 <= k < order.len() ==> after.modules[k] == with_references(
                    file.modules[#[trigger] order[k]],
                    definitions,
                )
            &&& forall|k: int, l: int|
                0 <= k < l < order.len() ==> {
                    let first = file.modules[#[trigger] order[k]].priority;
                    let second = file.modules[#[trigger] order[l]].priority;
                    first < second || (first == second && order[k] < order[l])
                }
        }
}

proof fn lemma_finished_file(file: FileModel, definitions: Seq<Def>)
    ensures
        is_finished_file(file, finished_file(file, definitions), definitions),
{
    let resolved = Seq::new(
        file.modules.len(),
        |i: int| with_references(file.modules[i], definitions),
    );
    let keys = priority_keys(resolved);
    let order = stable_order(keys);
    law_stable_order(keys);
    let after = finished_file(file, definitions);
    assert(is_permutation(order, file.modules.len() as int));
    assert forall|k: int, l: int| 0 <= k < l < order.len() implies {
        let first = file.modules[#[trigger] order[k]].priority;
        let second = file.modules[#[trigger] order[l]].priority;
        first < second || (first == second && order[k] < order[l])
    } by {
        assert(in_order(keys, order[k], order[l]));
        let a = keys[order[k]];
        let b = keys[order[l]];
        assert(key_le(a, b));
        assert(a[0] == file.modules[order[k]].priority && b[0]
            == file.modules[order[l]].priority);
        if a[0] == b[0] {
            assert(b.drop_first().len() == 0);
            assert(key_le(b.drop_first(), a.drop_first()));
            assert(key_le(b, a));
        }
    }
}

/// A finished project has the files of the project, each with its modules resolved and in the order of
/// their ranks, and the same items under the same numbers. The files stand in the order of their paths.
pub proof fn law_finished(project: Snapshot)
    ensures
        finished(project).definitions == project.definitions,
        exists|order: Seq<int>|
            {
                &&& #[trigger] is_permutation(order, project.files.len() as int)
                &&& finished(project).files.len() == order.len()
                &&& forall|k: int|
                    0 <= k < order.len() ==> is_finished_file(
                        project.files[#[trigger] order[k]],
                        finished(project).files[k],
                        project.definitions,
                    )
            },
        forall|k: int, l: int|
            0 <= k < l < finished(project).files.len() ==> key_le(
                path_key(encode_utf8((#[trigger] finished(project).files[k]).path)),
                path_key(encode_utf8((#[trigger] finished(project).files[l]).path)),
            ),
{
    let files = Seq::new(
        project.files.len(),
        |i: int| finished_file(project.files[i], project.definitions),
    );
    let keys = file_keys(files);
    let order = stable_order(keys);
    law_stable_order(keys);
    assert(is_permutation(order, project.files.len() as int));
    assert forall|k: int| 0 <= k < order.len() implies is_finished_file(
        project.files[#[trigger] order[k]],
        finished(project).files[k],
        project.definitions,
    ) by {
        lemma_finished_file(project.files[order[k]], project.definitions);
    }
    assert forall|k: int, l: int| 0 <= k < l < finished(project).files.len() implies key_le(
        path_key(encode_utf8((#[trigger] finished(project).files[k]).path)),
        path_key(encode_utf8((#[trigger] finished(project).files[l]).path)),
    ) by {
        assert(in_order(keys, order[k], order[l]));
    }
}

proof fn lemma_finished_modules(project: Snapshot, module: ModuleModel)
    requires
        has_module(project, module),
    ensures
        has_module(finished(project), with_references(module, project.definitions)),
{
    law_finished(project);
    let (f, m) = choose|f: int, m: int|
        {
            &&& 0 <= f < project.files.len()
            &&& 0 <= m < project.files[f].modules.len()
            &&& #[trigger] project.files[f].modules[m] == module
        };
    let order = choose|order: Seq<int>|
        {
            &&& #[trigger] is_permutation(order, project.files.len() as int)
            &&& finished(project).files.len() == order.len()
            &&& forall|k: int|
                0 <= k < order.len() ==> is_finished_file(
                    project.files[#[trigger] order[k]],
                    finished(project).files[k],
                    project.definitions,
                )
        };
    assert(order.contains(f));
    let k = choose|k: int| 0 <= k < order.len() && order[k] == f;
    let after = finished(project).files[k];
    assert(is_finished_file(project.files[order[k]], after, project.definitions));
    let inner = choose|inner: Seq<int>|
        {
            &&& #[trigger] is_permutation(inner, project.files[f].modules.len() as int)
            &&& after.modules.len() == inner.len()
            &&& forall|k: int|
                0 <= k < inner.len() ==> after.modules[k] == with_references(
                    project.files[f].modules[#[trigger] inner[k]],
                    project.definitions,
                )
            &&& forall|k: int, l: int|
                0 <= k < l < inner.len() ==> {
                    let first = project.files[f].modules[#[trigger] inner[k]].priority;
                    let second = project.files[f].modules[#[trigger] inner[l]].priority;
                    first < second || (first == second && inner[k] < inner[l])
                }
        };
    assert(inner.contains(m));
    let l = choose|l: int| 0 <= l < inner.len() && inner[l] == m;
    assert(after.modules[l] == with_references(
        project.files[f].modules[inner[l]],
        project.definitions,
    ));
    assert(finished(project).files[k].modules[l] == with_references(module, project.definitions));
}

proof fn lemma_unfinished_modules(project: Snapshot, module: ModuleModel)
    requires
        has_module(finished(project), module),
    ensures
        exists|other: ModuleModel| #[trigger]
            has_module(project, other) && module == with_references(other, project.definitions),
{
    law_finished(project);
    let done = finished(project);
    let (k, l) = choose|k: int, l: int|
        {
            &&& 0 <= k < done.files.len()
            &&& 0 <= l < done.files[k].modules.len()
            &&& #[trigger] done.files[k].modules[l] == module
        };
    let order = choose|order: Seq<int>|
        {
            &&& #[trigger] is_permutation(order, project.files.len() as int)
            &&& done.files.len() == order.len()
            &&& forall|k: int|
                0 <= k < order.len() ==> is_finished_file(
                    project.files[#[trigger] order[k]],
                    done.files[k],
                    project.definitions,
                )
        };
    let f = order[k];
    let after = done.files[k];
    assert(is_finished_file(project.files[order[k]], after, project.definitions));
    let inner = choose|inner: Seq<int>|
        {
            &&& #[trigger] is_permutation(inner, project.files[f].modules.len() as int)
            &&& after.modules.len() == inner.len()
            &&& forall|k: int|
                0 <= k < inner.len() ==> after.modules[k] == with_references(
                    project.files[f].modules[#[trigger] inner[k]],
                    project.definitions,
                )
            &&& forall|k: int, l: int|
                0 <= k < l < inner.len() ==> {
                    let first = project.files[f].modules[#[trigger] inner[k]].priority;
                    let second = project.files[f].modules[#[trigger] inner[l]].priority;
                    first < second || (first == second && inner[k] < inner[l])
                }
        };
    let m = inner[l];
    let other = project.files[f].modules[m];
    assert(after.modules[l] == with_references(
        project.files[f].modules[inner[l]],
        project.definitions,
    ));
    assert(project.files[f].modules[m] == other);
    assert(has_module(project, other));
}

/// A project that is built has the modules of all files of all targets of its packages, with their
/// references resolved, and no other; and its items are those of these modules and those of its
/// compiled packages.
pub proof fn law_built(
    read: Read,
    packages: Seq<PackagePart>,
    compiled: Seq<Compiled>,
    module: ModuleModel,
    item: Def,
)
    requires
        built(read, packages, compiled) is Ok,
    ensures
        ({
            let project = built(read, packages, compiled)->Ok_0;
            &&& (exists|p: int, t: int, i: int|
                0 <= p < packages.len() && #[trigger] is_in_package(
                    read,
                    packages[p],
                    t,
                    i,
                    module,
                )) ==> has_module(project, with_references(module, project.definitions))
            &&& has_module(project, module) ==> exists|
                p: int,
                t: int,
                i: int,
                other: ModuleModel,
            |
                {
                    &&& 0 <= p < packages.len()
                    &&& #[trigger] is_in_package(read, packages[p], t, i, other)
                    &&& module == with_references(other, project.definitions)
                }
            &&& project.definitions.contains(item) <==> {
                ||| exists|p: int, t: int, i: int, other: ModuleModel|
                    {
                        &&& 0 <= p < packages.len()
                        &&& #[trigger] is_in_package(read, packages[p], t, i, other)
                        &&& other.definitions.contains(item)
                    }
                ||| exists|c: int|
                    0 <= c < compiled.len() && metadata_defs(
                        (#[trigger] compiled[c]).package,
                        compiled[c].artifact,
                        compiled[c].normals,
                    ).contains(item)
            }
        }),
{
    let sources = with_packages(read, packages, packages.len())->Ok_0;
    let all = with_compiled(sources, compiled, compiled.len());
    let project = finished(all);
    lemma_with_packages(read, packages, packages.len(), module, item);
    lemma_with_compiled(sources, compiled, compiled.len(), item);
    assert forall|other: ModuleModel| #[trigger] has_module(all, other) <==> has_module(
        sources,
        other,
    ) by {
        assert(all.files == sources.files);
    }
    if has_module(sources, module) {
        lemma_finished_modules(all, module);
    }
    if has_module(project, module) {
        lemma_unfinished_modules(all, module);
        let other = choose|other: ModuleModel| #[trigger]
            has_module(all, other) && module == with_references(other, all.definitions);
        assert(has_module(sources, other));
        lemma_with_packages(read, packages, packages.len(), other, item);
        let (p, t, i) = choose|p: int, t: int, i: int|
            0 <= p < packages.len() && #[trigger] is_in_package(read, packages[p], t, i, other);
        assert(is_in_package(read, packages[p], t, i, other));
    }
}

/// Whether a file of a target can be read: it has a text, the text has a tree, and the tree makes up a
/// module.
pub open spec fn can_be_read(
    read: Read,
    target: TargetModel,
    file: Seq<char>,
    all: Seq<Seq<char>>,
) -> bool {
    exists|module: ModuleModel| is_read_from(read, target, file, all, module)
}

proof fn lemma_one_file_reads(
    read: Read,
    before: Snapshot,
    target: TargetModel,
    file: Seq<char>,
    all: Seq<Seq<char>>,
)
    ensures
        can_be_read(read, target, file, all) <==> read.text_of(file) is Ok && with_source(
            before,
            target,
            file,
            priority_of(target.context.target, occurrence_count(all, file, all.len())),
            read.text_of(file)->Ok_0,
        ) is Ok,
{
    reveal(is_read_from);
    if read.text_of(file) is Ok && tree_rows(read.text_of(file)->Ok_0) is Some {
        let text = read.text_of(file)->Ok_0;
        let parsed = ParsedText { text, rows: tree_rows(text).unwrap() };
        let priority = priority_of(target.context.target, occurrence_count(all, file, all.len()));
        if let Ok(module) = source_module(target, file, priority, parsed) {
            assert(is_read_from(read, target, file, all, module));
        }
    }
}

proof fn lemma_files_read(
    read: Read,
    project: Snapshot,
    target: TargetModel,
    files: Seq<Seq<char>>,
    all: Seq<Seq<char>>,
    count: nat,
)
    requires
        count <= files.len(),
    ensures
        with_files(read, project, target, files, all, count) is Ok <==> forall|i: int|
            0 <= i < count ==> can_be_read(read, target, #[trigger] files[i], all),
    decreases count,
{
    if count > 0 {
        let last = count - 1;
        lemma_files_read(read, project, target, files, all, last as nat);
        if let Ok(before) = with_files(read, project, target, files, all, last as nat) {
            lemma_one_file_reads(read, before, target, files[last], all);
            if can_be_read(read, target, files[last], all) {
                assert forall|i: int| 0 <= i < count implies can_be_read(
                    read,
                    target,
                    #[trigger] files[i],
                    all,
                ) by {}
            }
        } else {
            let i = choose|i: int|
                0 <= i < last && !can_be_read(read, target, #[trigger] files[i], all);
            assert(0 <= i < count && !can_be_read(read, target, files[i], all));
        }
    }
}

/// Whether all files of a target can be read.
pub open spec fn target_can_be_read(
    read: Read,
    target: TargetModel,
    files: Seq<Seq<char>>,
    all: Seq<Seq<char>>,
) -> bool {
    forall|i: int| 0 <= i < files.len() ==> can_be_read(read, target, #[trigger] files[i], all)
}

proof fn lemma_targets_read(
    read: Read,
    project: Snapshot,
    targets: Seq<TargetModel>,
    lists: Seq<Seq<Seq<char>>>,
    count: nat,
)
    requires
        count <= targets.len(),
        count <= lists.len(),
    ensures
        with_targets(read, project, targets, lists, count) is Ok <==> forall|t: int|
            0 <= t < count ==> #[trigger] target_can_be_read(
                read,
                targets[t],
                lists[t],
                all_files(lists, lists.len()),
            ),
    decreases count,
{
    let all = all_files(lists, lists.len());
    if count > 0 {
        let last = count - 1;
        lemma_targets_read(read, project, targets, lists, last as nat);
        if let Ok(before) = with_targets(read, project, targets, lists, last as nat) {
            lemma_files_read(
                read,
                before,
                targets[last],
                lists[last],
                all,
                lists[last].len(),
            );
            assert(target_can_be_read(read, targets[last], lists[last], all) <==> with_files(
                read,
                before,
                targets[last],
                lists[last],
                all,
                lists[last].len(),
            ) is Ok);
        } else {
            let t = choose|t: int|
                0 <= t < last && !#[trigger] target_can_be_read(read, targets[t], lists[t], all);
            assert(0 <= t < count && !target_can_be_read(read, targets[t], lists[t], all));
        }
    }
}

/// Whether a package can be read: its targets are known, their directories could be listed, and all
/// their files can be read.
pub open spec fn package_can_be_read(read: Read, package: PackagePart) -> bool {
    match package_contexts(package) {
        Err(_) => false,
        Ok(targets) => match context_files(read, targets, targets.len()) {
            Err(_) => false,
            Ok(lists) => forall|t: int|
                0 <= t < targets.len() ==> #[trigger] target_can_be_read(
                    read,
                    targets[t],
                    lists[t],
                    all_files(lists, lists.len()),
                ),
        },
    }
}

proof fn lemma_package_reads(read: Read, project: Snapshot, package: PackagePart)
    ensures
        with_package(read, project, package) is Ok <==> package_can_be_read(read, package),
{
    if let Ok(targets) = package_contexts(package) {
        if let Ok(lists) = context_files(read, targets, targets.len()) {
            lemma_context_files(read, targets, targets.len());
            lemma_targets_read(read, project, targets, lists, targets.len());
        }
    }
}

proof fn lemma_packages_read(read: Read, packages: Seq<PackagePart>, count: nat)
    requires
        count <= packages.len(),
    ensures
        with_packages(read, packages, count) is Ok <==> forall|p: int|
            0 <= p < count ==> package_can_be_read(read, #[trigger] packages[p]),
    decreases count,
{
    if count > 0 {
        let last = count - 1;
        lemma_packages_read(read, packages, last as nat);
        if let Ok(before) = with_packages(read, packages, last as nat) {
            lemma_package_reads(read, before, packages[last]);
        } else {
            let p = choose|p: int|
                0 <= p < last && !package_can_be_read(read, #[trigger] packages[p]);
            assert(0 <= p < count && !package_can_be_read(read, packages[p]));
        }
    }
}

/// A project is built exactly where all its packages can be read.
pub proof fn law_build_succeeds(read: Read, packages: Seq<PackagePart>, compiled: Seq<Compiled>)
    ensures
        built(read, packages, compiled) is Ok <==> forall|p: int|
            0 <= p < packages.len() ==> package_can_be_read(read, #[trigger] packages[p]),
{
    lemma_packages_read(read, packages, packages.len());
}

/// The text of a file is that of the open document with its path; else the one that was read last from
/// disk, or why it could not be read. A file of which nothing is known cannot be read, and neither can a
/// directory.
pub proof fn law_texts(read: Read, path: Seq<char>, i: int)
    ensures
        crate::resolve_laws::is_last_entry(read.overlays, path, i) ==> read.text_of(path) == Ok::<
            Seq<char>,
            Seq<char>,
        >(read.overlays[i].1),
        crate::resolve_laws::lacks(read.overlays, path) && crate::resolve_laws::is_last_entry(
            read.files,
            path,
            i,
        ) ==> read.text_of(path) == read.files[i].1,
        crate::resolve_laws::lacks(read.overlays, path) && crate::resolve_laws::lacks(
            read.files,
            path,
        ) ==> read.text_of(path) is Err,
        crate::resolve_laws::is_last_entry(read.listings, path, i) ==> read.listed(path)
            == read.listings[i].1,
        crate::resolve_laws::lacks(read.listings, path) ==> read.listed(path) is Err,
{
    crate::resolve_laws::law_lookup(read.overlays, path, i);
    crate::resolve_laws::law_lookup(read.files, path, i);
    crate::resolve_laws::law_lookup(read.listings, path, i);
}

/// The files of a package's targets are put together from those of each target; a file of two targets
/// is among them twice.
pub proof fn law_all_files(
    lists: Seq<Seq<Seq<char>>>,
    count: nat,
    file: Seq<char>,
    first: int,
    second: int,
)
    requires
        count <= lists.len(),
    ensures
        all_files(lists, count).contains(file) <==> exists|t: int|
            0 <= t < count && (#[trigger] lists[t]).contains(file),
        0 <= first < second < count && lists[first].contains(file) && lists[second].contains(file)
            ==> exists|i: int, j: int|
            0 <= i < j < all_files(lists, count).len() && #[trigger] all_files(lists, count)[i]
                == file && #[trigger] all_files(lists, count)[j] == file,
    decreases count,
{
    if count > 0 {
        let last = count - 1;
        law_all_files(lists, last as nat, file, first, second);
        let before = all_files(lists, last as nat);
        let more = lists[last];
        let all = all_files(lists, count);
        lemma_join_contains(before, more, file);
        if 0 <= first < second < count && lists[first].contains(file) && lists[second].contains(
            file,
        ) {
            if second < last {
                let (i, j) = choose|i: int, j: int|
                    0 <= i < j < before.len() && #[trigger] before[i] == file && #[trigger] before[j]
                        == file;
                assert(all[i] == file && all[j] == file);
            } else {
                assert(before.contains(file));
                let i = choose|i: int| 0 <= i < before.len() && before[i] == file;
                let k = choose|k: int| 0 <= k < more.len() && more[k] == file;
                assert(all[i] == file && all[before.len() + k] == file);
            }
        }
    }
}

} // verus!
