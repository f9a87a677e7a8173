//! Where a project's files are, and what belongs to it: the laws of paths, packages and plans.
use vstd::prelude::*;
use vstd::utf8::encode_utf8;
use crate::order::{arrange, in_order, key_le, law_stable_order, stable_order};
use crate::project::{contexts_of, file_name, first_existing, has_masm_extension, kept_files,
    last_slash, law_nearest_manifest, manifest_of, manifest_places, manifests_above,
    occurrence_count, package_contexts, parent_of, path_in, path_key, path_keys, priority_of,
    root_files, siblings, sources_among, target_context, target_files, targets_of, with_root_file,
    Origin, PackagePart, Plan, SourceMode, SourcePackage, TargetPart};
use crate::snapshot_laws::lemma_push_contains;
use crate::source_module::TargetModel;
use crate::source_path::{component_start, components, components_until, directory_prefix,
    extended_by, last_component, last_dot, module_of_file, relative_path, stem};

verus! {

/// Whether a slash stands at a place of a path, and none behind it.
pub open spec fn is_last_slash(path: Seq<char>, at: int) -> bool {
    &&& 0 <= at < path.len()
    &&& path[at] == '/'
    &&& forall|i: int| at < i < path.len() ==> #[trigger] path[i] != '/'
}

/// Whether a path has no slash.
pub open spec fn has_no_slash(path: Seq<char>) -> bool {
    forall|i: int| 0 <= i < path.len() ==> #[trigger] path[i] != '/'
}

proof fn lemma_last_slash(path: Seq<char>, end: int)
    requires
        0 <= end <= path.len(),
    ensures
        match last_slash(path, end) {
            Some(at) => 0 <= at < end && path[at] == '/' && forall|i: int|
                at < i < end ==> #[trigger] path[i] != '/',
            None => forall|i: int| 0 <= i < end ==> #[trigger] path[i] != '/',
        },
    decreases end,
{
    if end > 0 && path[end - 1] != '/' {
        lemma_last_slash(path, end - 1);
    }
}

/// What holds a file is what comes before the last slash of its path, and its name is what follows: the
/// root holds what stands right below it, nothing holds the root, and a bare name stands in the
/// current directory.
pub proof fn law_parent(path: Seq<char>, at: int)
    ensures
        parent_of(path) is None <==> path.len() == 0 || path == seq!['/'],
        is_last_slash(path, at) && at > 0 ==> parent_of(path) == Some(path.take(at)),
        is_last_slash(path, 0) && path.len() > 1 ==> parent_of(path) == Some(seq!['/']),
        is_last_slash(path, at) ==> file_name(path) == path.skip(at + 1),
        has_no_slash(path) && path.len() > 0 ==> parent_of(path) == Some(Seq::<char>::empty()),
        has_no_slash(path) ==> file_name(path) == path,
{
    lemma_last_slash(path, path.len() as int);
    let root = seq!['/'];
    assert(root[0] == '/');
    if let Some(found) = last_slash(path, path.len() as int) {
        assert(path[found] == '/');
        if is_last_slash(path, at) {
            if found < at {
                assert(path[at] != '/');
            }
            if at < found {
                assert(path[found] != '/');
            }
            assert(found == at);
        }
        if is_last_slash(path, 0) {
            assert(found == 0);
        }
        if path == root {
            assert(path.len() == 1);
        }
        if is_last_slash(path, at) && at > 0 {
            assert(path.len() > 1);
            assert(path != root);
        }
    } else {
        if is_last_slash(path, at) {
            assert(path[at] == '/');
        }
        if is_last_slash(path, 0) {
            assert(path[0] == '/');
        }
        if path == root {
            assert(path[0] == '/');
        }
    }
}

proof fn lemma_last_dot(name: Seq<char>, end: int)
    requires
        0 <= end <= name.len(),
    ensures
        match last_dot(name, end) {
            Some(at) => 0 <= at < end && name[at] == '.' && forall|i: int|
                at < i < end ==> #[trigger] name[i] != '.',
            None => forall|i: int| 0 <= i < end ==> #[trigger] name[i] != '.',
        },
    decreases end,
{
    if end > 0 && name[end - 1] != '.' {
        lemma_last_dot(name, end - 1);
    }
}

/// Whether a text has no dot.
pub open spec fn has_no_dot(text: Seq<char>) -> bool {
    forall|i: int| 0 <= i < text.len() ==> #[trigger] text[i] != '.'
}

proof fn lemma_dotted(front: Seq<char>, back: Seq<char>)
    requires
        has_no_dot(back),
    ensures
        last_dot(front + seq!['.'] + back, (front + seq!['.'] + back).len() as int) == Some(
            front.len() as int,
        ),
{
    let name = front + seq!['.'] + back;
    lemma_last_dot(name, name.len() as int);
    let at = front.len() as int;
    assert(name[at] == '.');
    assert forall|i: int| at < i < name.len() implies #[trigger] name[i] != '.' by {
        assert(name[i] == back[i - at - 1]);
    }
    if let Some(found) = last_dot(name, name.len() as int) {
        if found < at {
            assert(name[at] != '.');
        }
    }
}

/// A file is one of the assembler's exactly where its name is something with `.masm` behind it.
pub proof fn law_masm_files(path: Seq<char>)
    ensures
        has_masm_extension(path) <==> exists|front: Seq<char>|
            front.len() > 0 && file_name(path) == front + #[trigger] with_masm(front),
{
    reveal_strlit("masm");
    let name = file_name(path);
    let word = "masm"@;
    assert(has_no_dot(word));
    lemma_last_dot(name, name.len() as int);
    if has_masm_extension(path) {
        let at = last_dot(name, name.len() as int).unwrap();
        let front = name.take(at);
        assert(name =~= front + with_masm(front));
    }
    if exists|front: Seq<char>|
        front.len() > 0 && name == front + #[trigger] with_masm(front) {
        let front = choose|front: Seq<char>|
            front.len() > 0 && name == front + #[trigger] with_masm(front);
        assert(name =~= front + seq!['.'] + word);
        lemma_dotted(front, word);
        assert(name.skip(front.len() as int + 1) =~= word);
    }
}

/// What follows the name of a file of the assembler.
pub open spec fn with_masm(front: Seq<char>) -> Seq<char> {
    seq!['.'] + "masm"@
}

/// The name of a file without what follows its last dot, unless that dot comes first.
pub proof fn law_stem(front: Seq<char>, back: Seq<char>)
    requires
        has_no_dot(back),
    ensures
        front.len() > 0 && front + seq!['.'] + back != seq!['.', '.'] ==> stem(
            front + seq!['.'] + back,
        ) == Some(front),
        stem(back) == Some(back),
        stem(seq!['.'] + back) == Some(seq!['.'] + back) || back.len() == 0,
        stem(seq!['.', '.']) is None,
{
    let name = front + seq!['.'] + back;
    lemma_dotted(front, back);
    assert(name.take(front.len() as int) =~= front);
    lemma_last_dot(back, back.len() as int);
    let two = seq!['.', '.'];
    assert(two[0] == '.' && two[1] == '.');
    if let Some(at) = last_dot(back, back.len() as int) {
        assert(back[at] == '.');
    }
    if back == two {
        assert(back[0] == '.');
    }
    if back.len() > 0 {
        let hidden = seq!['.'] + back;
        let none = Seq::<char>::empty();
        assert(none + seq!['.'] + back =~= hidden);
        lemma_dotted(none, back);
        assert(hidden[1] == back[0]);
        assert(hidden != two);
    }
}

/// Whether directories hold one another: each is held by the next one.
pub open spec fn hold_each_other(dirs: Seq<Seq<char>>) -> bool {
    forall|i: int, j: int|
        0 <= i && j == i + 1 && j < dirs.len() ==> parent_of(#[trigger] dirs[i]) == Some(
            #[trigger] dirs[j],
        )
}

/// Manifests are looked for in a directory and in all those that hold it, from the inside out.
pub proof fn law_manifest_places(dir: Seq<char>)
    ensures
        exists|dirs: Seq<Seq<char>>|
            {
                &&& #[trigger] hold_each_other(dirs)
                &&& dirs.len() > 0
                &&& dirs[0] == dir
                &&& dirs.last().len() == 0 || parent_of(dirs.last()) is None
                &&& manifests_above(dir).len() == dirs.len()
                &&& forall|i: int|
                    0 <= i < dirs.len() ==> #[trigger] manifests_above(dir)[i] == path_in(
                        dirs[i],
                        "miden-project.toml"@,
                    )
            },
    decreases dir.len(),
{
    let here = seq![path_in(dir, "miden-project.toml"@)];
    lemma_parent_is_shorter(dir);
    match parent_of(dir) {
        Some(parent) => {
            law_manifest_places(parent);
            let rest = choose|dirs: Seq<Seq<char>>|
                {
                    &&& #[trigger] hold_each_other(dirs)
                    &&& dirs.len() > 0
                    &&& dirs[0] == parent
                    &&& dirs.last().len() == 0 || parent_of(dirs.last()) is None
                    &&& manifests_above(parent).len() == dirs.len()
                    &&& forall|i: int|
                        0 <= i < dirs.len() ==> #[trigger] manifests_above(parent)[i] == path_in(
                            dirs[i],
                            "miden-project.toml"@,
                        )
                };
            let dirs = seq![dir] + rest;
            assert forall|i: int, j: int| 0 <= i && j == i + 1 && j < dirs.len() implies parent_of(
                #[trigger] dirs[i],
            ) == Some(#[trigger] dirs[j]) by {
                if i > 0 {
                    assert(dirs[i] == rest[i - 1] && dirs[j] == rest[j - 1]);
                    assert(parent_of(rest[i - 1]) == Some(rest[j - 1]));
                }
            }
            assert(hold_each_other(dirs));
            assert(dirs.last() == rest.last());
            let places = manifests_above(dir);
            assert(places == here + manifests_above(parent));
            assert forall|i: int| 0 <= i < dirs.len() implies #[trigger] places[i] == path_in(
                dirs[i],
                "miden-project.toml"@,
            ) by {
                if i > 0 {
                    assert(places[i] == manifests_above(parent)[i - 1]);
                    assert(dirs[i] == rest[i - 1]);
                }
            }
        },
        None => {
            let dirs = seq![dir];
            assert(hold_each_other(dirs));
        },
    }
}

proof fn lemma_parent_is_shorter(path: Seq<char>)
    ensures
        match parent_of(path) {
            Some(parent) => parent.len() < path.len(),
            None => true,
        },
{
    lemma_last_slash(path, path.len() as int);
    if let Some(at) = last_slash(path, path.len() as int) {
        if at == 0 && path.len() == 1 {
            assert(path =~= seq!['/']);
        }
    }
}

/// Whether a manifest exists, and none of those before it that are looked for from a directory does.
pub open spec fn is_nearest(dir: Seq<char>, existing: Seq<Seq<char>>, place: Seq<char>) -> bool {
    exists|k: int|
        {
            &&& 0 <= k < manifests_above(dir).len()
            &&& #[trigger] manifests_above(dir)[k] == place
            &&& existing.contains(place)
            &&& forall|j: int| 0 <= j < k ==> !existing.contains(#[trigger] manifests_above(dir)[j])
        }
}

/// The manifest of a file or a directory is the file itself where it has a manifest's name, and else
/// the first one that exists, from the inside out; it is not found exactly where none exists.
pub proof fn law_manifest(path: Seq<char>, is_directory: bool, existing: Seq<Seq<char>>)
    ensures
        file_name(path) == "miden-project.toml"@ ==> manifest_of(path, is_directory, existing)
            == Ok::<Seq<char>, Seq<char>>(path),
        file_name(path) != "miden-project.toml"@ ==> {
            let dir = if is_directory {
                Some(path)
            } else {
                parent_of(path)
            };
            match (dir, manifest_of(path, is_directory, existing)) {
                (None, found) => found is Err,
                (Some(dir), Ok(place)) => is_nearest(dir, existing, place),
                (Some(dir), Err(_)) => forall|place: Seq<char>|
                    !#[trigger] is_nearest(dir, existing, place),
            }
        },
{
    if file_name(path) != "miden-project.toml"@ {
        if let Some(places) = manifest_places(path, is_directory) {
            law_nearest_manifest(places, existing, 0);
            let dir = if is_directory {
                path
            } else {
                parent_of(path).unwrap()
            };
            assert(places == manifests_above(dir));
            if let Some(place) = first_existing(places, existing, 0) {
                let k = choose|k: int|
                    0 <= k < places.len() && #[trigger] places[k] == place && existing.contains(
                        place,
                    ) && forall|j: int| 0 <= j < k ==> !existing.contains(#[trigger] places[j]);
                assert(manifests_above(dir)[k] == place);
                assert(is_nearest(dir, existing, place));
            }
        }
    }
}

proof fn lemma_with_root_file(targets: Seq<TargetPart>, count: nat, target: TargetPart)
    requires
        count <= targets.len(),
    ensures
        with_root_file(targets, count).contains(target) <==> target.root_file is Some && exists|i: int|
            0 <= i < count && #[trigger] targets[i] == target,
        count > 0 && targets[0].root_file is Some ==> with_root_file(targets, count).len() > 0
            && with_root_file(targets, count)[0] == targets[0],
    decreases count,
{
    if count > 0 {
        lemma_with_root_file(targets, (count - 1) as nat, target);
        let before = with_root_file(targets, (count - 1) as nat);
        lemma_push_contains(before, targets[count - 1], target);
        if targets[count - 1] == target {
            assert(targets[count - 1] == target);
        }
    }
}

/// The targets of a package that are read are those that name a file: its library, which comes first,
/// and, unless only the library is wanted, its programs.
pub proof fn law_targets(package: PackagePart, target: TargetPart)
    ensures
        targets_of(package).contains(target) <==> target.root_file is Some && (package.library
            == Some(target) || (package.mode == SourceMode::AllTargets
            && package.executables.contains(target))),
        package.library == Some(target) && target.root_file is Some ==> targets_of(package).len() > 0
            && targets_of(package)[0] == target,
{
    let library = match package.library {
        Some(target) => seq![target],
        None => Seq::empty(),
    };
    let all = if package.mode == SourceMode::AllTargets {
        library + package.executables
    } else {
        library
    };
    lemma_with_root_file(all, all.len(), target);
    if package.library == Some(target) {
        assert(all[0] == target);
    }
    if package.mode == SourceMode::AllTargets && package.executables.contains(target) {
        let i = choose|i: int| 0 <= i < package.executables.len() && package.executables[i] == target;
        assert(all[library.len() + i] == target);
    }
    if exists|i: int| 0 <= i < all.len() && #[trigger] all[i] == target {
        let i = choose|i: int| 0 <= i < all.len() && #[trigger] all[i] == target;
        if i >= library.len() {
            assert(package.executables[i - library.len()] == target);
        }
    }
}

proof fn lemma_root_files(targets: Seq<TargetPart>, count: nat, file: Seq<char>)
    requires
        count <= targets.len(),
    ensures
        root_files(targets, count).contains(file) <==> exists|i: int|
            0 <= i < count && (#[trigger] targets[i]).root_file == Some(file),
    decreases count,
{
    if count > 0 {
        lemma_root_files(targets, (count - 1) as nat, file);
        let before = root_files(targets, (count - 1) as nat);
        if let Some(last) = targets[count - 1].root_file {
            lemma_push_contains(before, last, file);
        }
    }
}

proof fn lemma_siblings(
    files: Seq<Seq<char>>,
    root_file: Seq<char>,
    root_dir: Seq<char>,
    count: nat,
    file: Seq<char>,
)
    requires
        count <= files.len(),
    ensures
        siblings(files, root_file, root_dir, count).contains(file) <==> file != root_file
            && parent_of(file) == Some(root_dir) && exists|i: int|
            0 <= i < count && #[trigger] files[i] == file,
    decreases count,
{
    if count > 0 {
        lemma_siblings(files, root_file, root_dir, (count - 1) as nat, file);
        let before = siblings(files, root_file, root_dir, (count - 1) as nat);
        lemma_push_contains(before, files[count - 1], file);
    }
}

/// Whether a target is read under a package: its own directory is the one that holds its root file,
/// and the root files of the package's other programs there are not its own.
pub open spec fn is_context_of(package: PackagePart, target: TargetPart, context: TargetModel) -> bool {
    &&& context.context.package == package.name
    &&& context.context.target == target.name
    &&& context.context.executable == target.executable
    &&& context.editable <==> package.mode == SourceMode::AllTargets
    &&& target.root_file == Some(context.root_file)
    &&& parent_of(context.root_file) == Some(context.root_dir)
    &&& context.namespace == target.namespace
    &&& forall|file: Seq<char>| #[trigger]
        context.siblings.contains(file) <==> {
            &&& file != context.root_file
            &&& parent_of(file) == Some(context.root_dir)
            &&& exists|i: int|
                0 <= i < package.executables.len() && (#[trigger] package.executables[i]).root_file
                    == Some(file)
        }
}

proof fn lemma_target_context(package: PackagePart, target: TargetPart)
    requires
        target_context(
            package.name,
            target,
            root_files(package.executables, package.executables.len()),
            package.mode == SourceMode::AllTargets,
        ) is Ok,
    ensures
        is_context_of(
            package,
            target,
            target_context(
                package.name,
                target,
                root_files(package.executables, package.executables.len()),
                package.mode == SourceMode::AllTargets,
            )->Ok_0,
        ),
{
    let roots = root_files(package.executables, package.executables.len());
    let context = target_context(
        package.name,
        target,
        roots,
        package.mode == SourceMode::AllTargets,
    )->Ok_0;
    assert forall|file: Seq<char>| #[trigger] context.siblings.contains(file) <==> {
        &&& file != context.root_file
        &&& parent_of(file) == Some(context.root_dir)
        &&& exists|i: int|
            0 <= i < package.executables.len() && (#[trigger] package.executables[i]).root_file
                == Some(file)
    } by {
        lemma_siblings(roots, context.root_file, context.root_dir, roots.len(), file);
        lemma_root_files(package.executables, package.executables.len(), file);
        if roots.contains(file) {
            let i = choose|i: int| 0 <= i < roots.len() && roots[i] == file;
            assert(roots[i] == file);
        }
    }
}

proof fn lemma_contexts(package: PackagePart, targets: Seq<TargetPart>, count: nat)
    requires
        count <= targets.len(),
    ensures
        match contexts_of(
            package.name,
            targets,
            root_files(package.executables, package.executables.len()),
            package.mode == SourceMode::AllTargets,
            count,
        ) {
            Ok(contexts) => {
                &&& contexts.len() == count
                &&& forall|i: int|
                    0 <= i < count ==> is_context_of(
                        package,
                        #[trigger] targets[i],
                        contexts[i],
                    )
            },
            Err(_) => exists|i: int|
                0 <= i < count && ((#[trigger] targets[i]).root_file is None || parent_of(
                    targets[i].root_file.unwrap(),
                ) is None),
        },
    decreases count,
{
    if count > 0 {
        lemma_contexts(package, targets, (count - 1) as nat);
        let roots = root_files(package.executables, package.executables.len());
        let editable = package.mode == SourceMode::AllTargets;
        if target_context(package.name, targets[count - 1], roots, editable) is Ok {
            lemma_target_context(package, targets[count - 1]);
        } else {
            assert(targets[count - 1].root_file is None || parent_of(
                targets[count - 1].root_file.unwrap(),
            ) is None);
        }
    }
}

/// The targets of a package are read one by one, in their order. A package without a manifest, with a
/// manifest that nothing holds, or with a target whose root file nothing holds, cannot be read.
pub proof fn law_package_contexts(package: PackagePart)
    ensures
        match package_contexts(package) {
            Ok(contexts) => {
                &&& package.manifest_path is Some
                &&& parent_of(package.manifest_path.unwrap()) is Some
                &&& contexts.len() == targets_of(package).len()
                &&& forall|i: int|
                    0 <= i < contexts.len() ==> is_context_of(
                        package,
                        #[trigger] targets_of(package)[i],
                        contexts[i],
                    )
            },
            Err(_) => {
                ||| package.manifest_path is None
                ||| parent_of(package.manifest_path.unwrap()) is None
                ||| exists|i: int|
                    0 <= i < targets_of(package).len() && ((
                    #[trigger] targets_of(package)[i]).root_file is None || parent_of(
                        targets_of(package)[i].root_file.unwrap(),
                    ) is None)
            },
        },
{
    lemma_contexts(package, targets_of(package), targets_of(package).len());
}

proof fn lemma_kept(files: Seq<Seq<char>>, left_out: Seq<Seq<char>>, count: nat, file: Seq<char>)
    requires
        count <= files.len(),
    ensures
        kept_files(files, left_out, count).contains(file) <==> !left_out.contains(file) && exists|i: int|
            0 <= i < count && #[trigger] files[i] == file,
        forall|k: int|
            0 <= k < kept_files(files, left_out, count).len() ==> exists|i: int|
                0 <= i < count && #[trigger] files[i] == #[trigger] kept_files(
                    files,
                    left_out,
                    count,
                )[k],
    decreases count,
{
    if count > 0 {
        lemma_kept(files, left_out, (count - 1) as nat, file);
        let before = kept_files(files, left_out, (count - 1) as nat);
        let all = kept_files(files, left_out, count);
        lemma_push_contains(before, files[count - 1], file);
        assert forall|k: int| 0 <= k < all.len() implies exists|i: int|
            0 <= i < count && #[trigger] files[i] == #[trigger] all[k] by {
            if k < before.len() {
                let i = choose|i: int| 0 <= i < count - 1 && #[trigger] files[i] == before[k];
                assert(files[i] == all[k]);
            } else {
                assert(files[count - 1] == all[k]);
            }
        }
    }
}

proof fn lemma_kept_in_order(
    files: Seq<Seq<char>>,
    left_out: Seq<Seq<char>>,
    keys: Seq<Seq<u64>>,
    count: nat,
) -> (kept: Seq<int>)
    requires
        count <= files.len(),
        keys.len() == files.len(),
    ensures
        kept.len() == kept_files(files, left_out, count).len(),
        forall|k: int|
            0 <= k < kept.len() ==> 0 <= #[trigger] kept[k] < count && files[kept[k]] == kept_files(
                files,
                left_out,
                count,
            )[k],
        forall|k: int, l: int| 0 <= k < l < kept.len() ==> #[trigger] kept[k] < #[trigger] kept[l],
    decreases count,
{
    if count == 0 {
        Seq::empty()
    } else {
        let before = lemma_kept_in_order(files, left_out, keys, (count - 1) as nat);
        if left_out.contains(files[count - 1]) {
            before
        } else {
            let more = before.push(count - 1);
            let list = kept_files(files, left_out, (count - 1) as nat);
            let longer = kept_files(files, left_out, count);
            assert forall|k: int| 0 <= k < more.len() implies 0 <= #[trigger] more[k] < count
                && files[more[k]] == longer[k] by {
                if k < before.len() {
                    assert(more[k] == before[k] && longer[k] == list[k]);
                }
            }
            more
        }
    }
}

/// The files of a target are all that were found in its directory, except for the root files of other
/// programs there; they stand in the order of their paths.
pub proof fn law_target_files(target: TargetModel, found: Seq<Seq<char>>, file: Seq<char>)
    ensures
        target_files(target, found).contains(file) <==> found.contains(file)
            && !target.siblings.contains(file),
        forall|k: int, l: int|
            0 <= k < l < target_files(target, found).len() ==> {
                let left = encode_utf8(#[trigger] target_files(target, found)[k]);
                let right = encode_utf8(#[trigger] target_files(target, found)[l]);
                left == right || path_comes_before(left, right)
            },
{
    let keys = path_keys(found);
    let order = stable_order(keys);
    law_stable_order(keys);
    let sorted = arrange(found, order);
    lemma_kept(sorted, target.siblings, sorted.len(), file);
    let files = target_files(target, found);
    let kept = lemma_kept_in_order(sorted, target.siblings, keys, sorted.len());
    assert forall|k: int, l: int| 0 <= k < l < files.len() implies {
        let left = encode_utf8(#[trigger] files[k]);
        let right = encode_utf8(#[trigger] files[l]);
        left == right || path_comes_before(left, right)
    } by {
        assert(kept[k] < kept[l]);
        assert(files[k] == sorted[kept[k]] && files[l] == sorted[kept[l]]);
        assert(in_order(keys, order[kept[k]], order[kept[l]]));
        law_path_keys(encode_utf8(files[k]), encode_utf8(files[l]));
    }
    if found.contains(file) {
        let i = choose|i: int| 0 <= i < found.len() && found[i] == file;
        assert(order.contains(i));
        let k = choose|k: int| 0 <= k < order.len() && order[k] == i;
        assert(sorted[k] == file);
    }
    if exists|i: int| 0 <= i < sorted.len() && #[trigger] sorted[i] == file {
        let k = choose|i: int| 0 <= i < sorted.len() && #[trigger] sorted[i] == file;
        assert(found[order[k]] == file);
    }
}

/// Whether a path comes before another one: at the first difference it ends, or a directory ends in it,
/// or it has the smaller byte.
pub open spec fn path_comes_before(left: Seq<u8>, right: Seq<u8>) -> bool {
    exists|k: int| #[trigger] paths_differ_at(left, right, k)
}

/// Whether two paths agree up to a place, and there the left one comes first.
pub open spec fn paths_differ_at(left: Seq<u8>, right: Seq<u8>, k: int) -> bool {
    &&& 0 <= k <= left.len()
    &&& k < right.len()
    &&& forall|i: int| 0 <= i < k ==> #[trigger] left[i] == right[i]
    &&& k < left.len() ==> left[k] != right[k] && (left[k] == 47 || (right[k] != 47 && left[k]
        < right[k]))
}

/// Paths are sorted by directories: what stands in a directory comes before what has its name and more.
pub proof fn law_path_keys(left: Seq<u8>, right: Seq<u8>)
    ensures
        key_le(path_key(left), path_key(right)) <==> left == right || path_comes_before(left, right),
    decreases left.len(),
{
    let a = path_key(left);
    let b = path_key(right);
    if left.len() == 0 {
        if right.len() == 0 {
            assert(left =~= right);
        } else {
            assert(paths_differ_at(left, right, 0));
        }
    } else if right.len() == 0 {
        assert forall|k: int| !#[trigger] paths_differ_at(left, right, k) by {}
    } else {
        let rest = left.drop_first();
        let other = right.drop_first();
        law_path_keys(rest, other);
        assert(a.drop_first() =~= path_key(rest));
        assert(b.drop_first() =~= path_key(other));
        if left[0] != right[0] {
            if a[0] < b[0] {
                assert(paths_differ_at(left, right, 0));
            } else {
                assert forall|k: int| !#[trigger] paths_differ_at(left, right, k) by {}
            }
        } else {
            if path_comes_before(rest, other) {
                let k = choose|k: int| #[trigger] paths_differ_at(rest, other, k);
                assert forall|i: int| 0 <= i < k + 1 implies #[trigger] left[i] == right[i] by {
                    if i > 0 {
                        assert(rest[i - 1] == other[i - 1]);
                    }
                }
                assert(paths_differ_at(left, right, k + 1));
            }
            if path_comes_before(left, right) {
                let k = choose|k: int| #[trigger] paths_differ_at(left, right, k);
                assert(k > 0);
                assert forall|i: int| 0 <= i < k - 1 implies #[trigger] rest[i] == other[i] by {
                    assert(left[i + 1] == right[i + 1]);
                }
                assert(paths_differ_at(rest, other, k - 1));
            }
            if rest == other {
                assert(left =~= right) by {
                    assert forall|i: int| 0 <= i < left.len() implies left[i] == right[i] by {
                        if i > 0 {
                            assert(rest[i - 1] == other[i - 1]);
                        }
                    }
                }
            }
        }
    }
}

proof fn lemma_occurrences(files: Seq<Seq<char>>, file: Seq<char>, count: nat)
    requires
        count <= files.len(),
    ensures
        occurrence_count(files, file, count) >= 1 <==> exists|i: int|
            0 <= i < count && #[trigger] files[i] == file,
        occurrence_count(files, file, count) >= 2 <==> exists|i: int, j: int|
            0 <= i < j < count && #[trigger] files[i] == file && #[trigger] files[j] == file,
    decreases count,
{
    if count > 0 {
        let last = count - 1;
        lemma_occurrences(files, file, last as nat);
        if files[last] == file {
            assert(files[last] == file);
            if occurrence_count(files, file, last as nat) >= 1 {
                let i = choose|i: int| 0 <= i < last && #[trigger] files[i] == file;
                assert(files[i] == file && files[last] == file);
            }
        }
        if exists|i: int, j: int|
            0 <= i < j < count && #[trigger] files[i] == file && #[trigger] files[j] == file {
            let (i, j) = choose|i: int, j: int|
                0 <= i < j < count && #[trigger] files[i] == file && #[trigger] files[j] == file;
            if j == last {
                assert(files[i] == file);
            }
        }
    }
}

/// A module comes first among those of its file where no other target has the file, or where its own
/// target is the library; every other comes second.
pub proof fn law_priorities(target: Seq<char>, files: Seq<Seq<char>>, file: Seq<char>)
    ensures
        priority_of(target, occurrence_count(files, file, files.len())) == if target != "lib"@
            && exists|i: int, j: int|
            0 <= i < j < files.len() && #[trigger] files[i] == file && #[trigger] files[j] == file {
            1usize
        } else {
            0usize
        },
{
    lemma_occurrences(files, file, files.len());
}

proof fn lemma_component_start(path: Seq<char>, end: int)
    requires
        0 <= end <= path.len(),
    ensures
        0 <= component_start(path, end) <= end,
        forall|i: int| component_start(path, end) <= i < end ==> #[trigger] path[i] != '/',
        component_start(path, end) > 0 ==> path[component_start(path, end) - 1] == '/',
    decreases end,
{
    if end > 0 && path[end - 1] != '/' {
        lemma_component_start(path, end - 1);
    }
}

proof fn lemma_components_front(path: Seq<char>, more: Seq<char>, end: int)
    requires
        0 <= end <= path.len(),
    ensures
        components_until(path + more, end) == components_until(path, end),
    decreases end,
{
    lemma_component_start(path, end);
    lemma_component_start(path + more, end);
    let start = component_start(path, end);
    let other = component_start(path + more, end);
    if start < other {
        assert((path + more)[other - 1] == path[other - 1]);
    }
    if other < start {
        assert((path + more)[start - 1] == path[start - 1]);
    }
    assert((path + more).subrange(start, end) =~= path.subrange(start, end));
    if start > 0 {
        lemma_components_front(path, more, start - 1);
    }
}

proof fn lemma_components_back(front: Seq<char>, back: Seq<char>, end: int)
    requires
        0 <= end <= back.len(),
    ensures
        components_until(front + seq!['/'] + back, front.len() + 1 + end) == components(front)
            + components_until(back, end),
    decreases end,
{
    let whole = front + seq!['/'] + back;
    let shift = front.len() + 1;
    let at = shift + end;
    lemma_component_start(whole, at);
    lemma_component_start(back, end);
    let start = component_start(back, end);
    let other = component_start(whole, at);
    assert forall|i: int| 0 <= i < back.len() implies whole[shift + i] == back[i] by {}
    assert(whole[shift - 1] == '/');
    if other < shift {
        assert(whole[shift - 1] != '/');
    }
    if other < shift + start {
        assert(whole[shift + (start - 1)] != '/');
    }
    if shift + start < other {
        assert(back[other - 1 - shift] != '/');
    }
    assert(other == shift + start);
    assert(whole.subrange(other, at) =~= back.subrange(start, end));
    if start > 0 {
        lemma_components_back(front, back, start - 1);
        assert(components_until(whole, other - 1) == components(front) + components_until(
            back,
            start - 1,
        ));
        let part = last_component(back, end);
        assert(components_until(whole, at) =~= components(front) + components_until(back, end));
    } else {
        assert(other - 1 == front.len());
        assert(whole =~= front + (seq!['/'] + back));
        lemma_components_front(front, seq!['/'] + back, front.len() as int);
        assert(components_until(whole, other - 1) == components(front));
        if end == 0 {
            assert(last_component(whole, at) =~= Seq::<Seq<char>>::empty());
            assert(components_until(back, end) =~= Seq::<Seq<char>>::empty());
        }
        assert(components_until(whole, at) =~= components(front) + components_until(back, end));
    }
}

/// The components of a path are those before and those behind any of its slashes; a part without a
/// slash is one, unless it is empty or a single dot.
pub proof fn law_components(front: Seq<char>, back: Seq<char>)
    ensures
        components(front + seq!['/'] + back) == components(front) + components(back),
        has_no_slash(back) ==> components(back) == if back.len() == 0 || back == seq!['.'] {
            Seq::empty()
        } else {
            seq![back]
        },
{
    lemma_components_back(front, back, back.len() as int);
    lemma_component_start(back, back.len() as int);
    if has_no_slash(back) {
        let start = component_start(back, back.len() as int);
        if start > 0 {
            assert(back[start - 1] == '/');
        }
        assert(back.subrange(0, back.len() as int) =~= back);
        if back.len() == 0 {
            assert(components(back) =~= Seq::<Seq<char>>::empty());
        }
    }
}

/// Where a file stands below a directory.
pub proof fn law_relative_path(file: Seq<char>, dir: Seq<char>, rest: Seq<char>)
    ensures
        dir.len() > 0 && dir.last() != '/' && file == dir + seq!['/'] + rest ==> relative_path(
            file,
            dir,
        ) == Some(rest),
        dir.len() > 0 && dir.last() == '/' && file == dir + rest && rest.len() > 0
            ==> relative_path(file, dir) == Some(rest),
        relative_path(file, dir) == Some(rest) && file != dir ==> file == directory_prefix(dir)
            + rest,
{
    reveal_strlit("/");
    assert("/"@ =~= seq!['/']);
    let prefix = directory_prefix(dir);
    if dir.len() > 0 && dir.last() != '/' && file == dir + seq!['/'] + rest {
        assert(file.take(prefix.len() as int) =~= prefix);
        assert(file.skip(prefix.len() as int) =~= rest);
        assert(file.len() > dir.len());
    }
    if dir.len() > 0 && dir.last() == '/' && file == dir + rest && rest.len() > 0 {
        assert(file.take(prefix.len() as int) =~= prefix);
        assert(file.skip(prefix.len() as int) =~= rest);
        assert(file.len() > dir.len());
    }
    if relative_path(file, dir) == Some(rest) && file != dir {
        assert(file =~= prefix + rest) by {
            assert(file.take(prefix.len() as int) == prefix);
            assert(file =~= file.take(prefix.len() as int) + file.skip(prefix.len() as int));
        }
    }
}

/// The root file holds the root module; a file outside the root directory holds none.
pub proof fn law_root_module(
    root_file: Seq<char>,
    root_dir: Seq<char>,
    namespace: Seq<char>,
    file: Seq<char>,
)
    ensures
        module_of_file(root_file, root_dir, namespace, root_file) == Ok::<Seq<char>, Seq<char>>(
            namespace,
        ),
        file != root_file && relative_path(file, root_dir) is None ==> module_of_file(
            root_file,
            root_dir,
            namespace,
            file,
        ) is Err,
{
}

/// A file below the root directory holds the module that its directories and its name make up.
pub proof fn law_module_below(
    root_file: Seq<char>,
    root_dir: Seq<char>,
    namespace: Seq<char>,
    file: Seq<char>,
    dirs: Seq<char>,
    name: Seq<char>,
    back: Seq<char>,
)
    requires
        file != root_file,
        relative_path(file, root_dir) == Some(dirs + seq!['/'] + (name + seq!['.'] + back)),
        name.len() > 0,
        has_no_slash(name),
        has_no_slash(back),
        has_no_dot(back),
        back.len() > 0,
    ensures
        name != "mod"@ ==> module_of_file(root_file, root_dir, namespace, file) == Ok::<
            Seq<char>,
            Seq<char>,
        >(
            crate::masm_path::extended_path(extended_by(namespace, components(dirs)), name),
        ),
        name == "mod"@ ==> module_of_file(root_file, root_dir, namespace, file) == Ok::<
            Seq<char>,
            Seq<char>,
        >(extended_by(namespace, components(dirs))),
{
    let last = name + seq!['.'] + back;
    assert(last.len() >= 3);
    assert(has_no_slash(last));
    law_components(dirs, last);
    let one = seq!['.'];
    assert(last != one);
    let parts = components(dirs) + seq![last];
    assert(components(dirs + seq!['/'] + last) == parts);
    assert(parts.drop_last() =~= components(dirs));
    assert(parts.last() == last);
    let two = seq!['.', '.'];
    assert(last != two) by {
        assert(two.len() == 2);
    }
    law_stem(name, back);
}

/// A file named `mod` holds the module of its directory: the same as a file beside the directory that
/// has its name.
pub proof fn law_mod_files(
    root_file: Seq<char>,
    root_dir: Seq<char>,
    namespace: Seq<char>,
    inner: Seq<char>,
    beside: Seq<char>,
    dirs: Seq<char>,
    dir: Seq<char>,
    back: Seq<char>,
)
    requires
        inner != root_file,
        beside != root_file,
        relative_path(inner, root_dir) == Some(
            (dirs + seq!['/'] + dir) + seq!['/'] + ("mod"@ + seq!['.'] + back),
        ),
        relative_path(beside, root_dir) == Some(dirs + seq!['/'] + (dir + seq!['.'] + back)),
        dir.len() > 0,
        dir != seq!['.'],
        dir != "mod"@,
        has_no_slash(dir),
        has_no_slash(back),
        has_no_dot(back),
        back.len() > 0,
    ensures
        module_of_file(root_file, root_dir, namespace, inner) == module_of_file(
            root_file,
            root_dir,
            namespace,
            beside,
        ),
{
    reveal_strlit("mod");
    assert(has_no_slash("mod"@)) by {
        assert("mod"@[0] == 'm' && "mod"@[1] == 'o' && "mod"@[2] == 'd');
    }
    law_module_below(
        root_file,
        root_dir,
        namespace,
        inner,
        dirs + seq!['/'] + dir,
        "mod"@,
        back,
    );
    law_module_below(root_file, root_dir, namespace, beside, dirs, dir, back);
    law_components(dirs, dir);
    let parts = components(dirs).push(dir);
    assert(components(dirs) + seq![dir] =~= parts);
    assert(parts.drop_last() =~= components(dirs));
}

/// Whether a plan reads the package of a manifest in a way.
pub open spec fn reads(plan: Plan, manifest: Seq<char>, source: SourcePackage) -> bool {
    exists|k: int|
        {
            &&& 0 <= k < plan.manifests.len()
            &&& k < plan.sources.len()
            &&& #[trigger] plan.manifests[k] == manifest
            &&& plan.sources[k] == source
        }
}

/// Whether a plan takes a compiled package under a name.
pub open spec fn takes(plan: Plan, name: Seq<char>, package: usize) -> bool {
    exists|k: int|
        {
            &&& 0 <= k < plan.names.len()
            &&& k < plan.compiled.len()
            &&& #[trigger] plan.names[k] == name
            &&& plan.compiled[k] == package
        }
}

/// Whether a plan lists as many packages as manifests, and as many compiled packages as names.
spec fn is_even(plan: Plan) -> bool {
    plan.sources.len() == plan.manifests.len() && plan.compiled.len() == plan.names.len()
}

/// Whether a plan has a manifest.
pub open spec fn has_manifest(plan: Plan, manifest: Seq<char>) -> bool {
    plan.manifests.contains(manifest)
}

proof fn lemma_with_source(
    plan: Plan,
    added: Seq<char>,
    package: usize,
    mode: SourceMode,
    manifest: Seq<char>,
    source: SourcePackage,
)
    requires
        is_even(plan),
    ensures
        ({
            let after = plan.with_source(Some(added), package, mode);
            &&& is_even(after)
            &&& reads(after, manifest, source) <==> reads(plan, manifest, source) || (manifest
                == added && !has_manifest(plan, added) && source == (SourcePackage {
                package,
                mode,
            }))
            &&& has_manifest(after, manifest) <==> has_manifest(plan, manifest) || manifest == added
            &&& after.names == plan.names && after.compiled == plan.compiled
        }),
{
    let after = plan.with_source(Some(added), package, mode);
    lemma_push_contains(plan.manifests, added, manifest);
    if !has_manifest(plan, added) {
        let last = plan.manifests.len() as int;
        assert(after.manifests[last] == added);
        if reads(plan, manifest, source) {
            let k = choose|k: int|
                {
                    &&& 0 <= k < plan.manifests.len()
                    &&& k < plan.sources.len()
                    &&& #[trigger] plan.manifests[k] == manifest
                    &&& plan.sources[k] == source
                };
            assert(after.manifests[k] == manifest && after.sources[k] == source);
        }
        if reads(after, manifest, source) {
            let k = choose|k: int|
                {
                    &&& 0 <= k < after.manifests.len()
                    &&& k < after.sources.len()
                    &&& #[trigger] after.manifests[k] == manifest
                    &&& after.sources[k] == source
                };
            if k < last {
                assert(plan.manifests[k] == manifest && plan.sources[k] == source);
            }
        }
    }
}

/// Whether a member of a workspace is the first one with a manifest.
pub open spec fn is_first_member(
    members: Seq<Option<Seq<char>>>,
    count: int,
    manifest: Seq<char>,
    i: int,
) -> bool {
    &&& 0 <= i < count
    &&& members[i] == Some(manifest)
    &&& forall|j: int| 0 <= j < i ==> #[trigger] members[j] != Some(manifest)
}

proof fn lemma_with_members(
    plan: Plan,
    members: Seq<Option<Seq<char>>>,
    count: nat,
    manifest: Seq<char>,
    source: SourcePackage,
)
    requires
        is_even(plan),
        count <= members.len() < usize::MAX,
    ensures
        ({
            let after = plan.with_members(members, 1, count);
            &&& is_even(after)
            &&& reads(after, manifest, source) <==> reads(plan, manifest, source) || (!has_manifest(
                plan,
                manifest,
            ) && exists|i: int|
                #[trigger] is_first_member(members, count as int, manifest, i) && source == (
                SourcePackage { package: (i + 1) as usize, mode: SourceMode::AllTargets }))
            &&& has_manifest(after, manifest) <==> has_manifest(plan, manifest) || exists|i: int|
                0 <= i < count && #[trigger] members[i] == Some(manifest)
            &&& after.names == plan.names && after.compiled == plan.compiled
        }),
    decreases count,
{
    if count > 0 {
        let last = count - 1;
        lemma_with_members(plan, members, last as nat, manifest, source);
        let before = plan.with_members(members, 1, last as nat);
        let after = plan.with_members(members, 1, count);
        let package = (1usize + count - 1) as usize;
        assert(package == last + 1);
        if let Some(added) = members[last] {
            lemma_with_source(before, added, package, SourceMode::AllTargets, manifest, source);
        }
        assert forall|i: int| #[trigger]
            is_first_member(members, count as int, manifest, i) <==> is_first_member(
                members,
                last,
                manifest,
                i,
            ) || (i == last && members[last] == Some(manifest) && forall|j: int|
                0 <= j < last ==> #[trigger] members[j] != Some(manifest)) by {}
        if exists|i: int|
            #[trigger] is_first_member(members, last, manifest, i) && source == (SourcePackage {
                package: (i + 1) as usize,
                mode: SourceMode::AllTargets,
            }) {
            let i = choose|i: int|
                #[trigger] is_first_member(members, last, manifest, i) && source == (
                SourcePackage { package: (i + 1) as usize, mode: SourceMode::AllTargets });
            assert(is_first_member(members, count as int, manifest, i));
        }
        if members[last] == Some(manifest) && !has_manifest(before, manifest) {
            assert(is_first_member(members, count as int, manifest, last));
        }
        if exists|i: int|
            #[trigger] is_first_member(members, count as int, manifest, i) && source == (
            SourcePackage { package: (i + 1) as usize, mode: SourceMode::AllTargets }) {
            let i = choose|i: int|
                #[trigger] is_first_member(members, count as int, manifest, i) && source == (
                SourcePackage { package: (i + 1) as usize, mode: SourceMode::AllTargets });
            if i < last {
                assert(is_first_member(members, last, manifest, i));
            }
        }
    }
}

/// The manifest of a dependency that is read from its sources.
pub open spec fn source_manifest(origin: Origin) -> Option<Seq<char>> {
    match origin {
        Origin::Source(manifest) => manifest,
        _ => None,
    }
}

/// The name of a dependency that is taken as it was compiled; one from a registry is told apart by its
/// version.
pub open spec fn compiled_name(origin: Origin) -> Option<Seq<char>> {
    match origin {
        Origin::Source(_) => None,
        Origin::Preassembled(name) => Some(name),
        Origin::Registry { name, version } => Some(name + "@"@ + version),
    }
}

/// Whether a dependency is the first one with a manifest.
pub open spec fn is_first_source(
    origins: Seq<Origin>,
    count: int,
    manifest: Seq<char>,
    i: int,
) -> bool {
    &&& 0 <= i < count
    &&& source_manifest(origins[i]) == Some(manifest)
    &&& forall|j: int| 0 <= j < i ==> source_manifest(#[trigger] origins[j]) != Some(manifest)
}

/// Whether a dependency is the first one with a name.
pub open spec fn is_first_compiled(
    origins: Seq<Origin>,
    count: int,
    name: Seq<char>,
    i: int,
) -> bool {
    &&& 0 <= i < count
    &&& compiled_name(origins[i]) == Some(name)
    &&& forall|j: int| 0 <= j < i ==> compiled_name(#[trigger] origins[j]) != Some(name)
}

proof fn lemma_sources_among(origins: Seq<Origin>, count: nat)
    requires
        count <= origins.len(),
    ensures
        sources_among(origins, count) <= count,
    decreases count,
{
    if count > 0 {
        lemma_sources_among(origins, (count - 1) as nat);
    }
}

proof fn lemma_dependency_sources(
    plan: Plan,
    origins: Seq<Origin>,
    first: nat,
    count: nat,
    manifest: Seq<char>,
    source: SourcePackage,
)
    requires
        is_even(plan),
        count <= origins.len(),
        first + origins.len() <= usize::MAX,
    ensures
        ({
            let after = plan.with_dependencies(origins, first, count);
            &&& is_even(after)
            &&& reads(after, manifest, source) <==> reads(plan, manifest, source) || (!has_manifest(
                plan,
                manifest,
            ) && exists|i: int|
                #[trigger] is_first_source(origins, count as int, manifest, i) && source == (
                SourcePackage {
                    package: (first + sources_among(origins, i as nat)) as usize,
                    mode: SourceMode::LibraryOnly,
                }))
            &&& has_manifest(after, manifest) <==> has_manifest(plan, manifest) || exists|i: int|
                0 <= i < count && source_manifest(#[trigger] origins[i]) == Some(manifest)
        }),
    decreases count,
{
    if count > 0 {
        let last = count - 1;
        lemma_dependency_sources(plan, origins, first, last as nat, manifest, source);
        lemma_sources_among(origins, last as nat);
        let before = plan.with_dependencies(origins, first, last as nat);
        let after = plan.with_dependencies(origins, first, count);
        let package = (first + sources_among(origins, last as nat)) as usize;
        if let Origin::Source(Some(added)) = origins[last] {
            lemma_with_source(before, added, package, SourceMode::LibraryOnly, manifest, source);
            assert(after == before.with_source(Some(added), package, SourceMode::LibraryOnly));
        } else {
            assert(after.manifests == before.manifests && after.sources == before.sources);
            assert(reads(after, manifest, source) == reads(before, manifest, source));
            assert(source_manifest(origins[last]) is None);
        }
        assert forall|i: int| #[trigger]
            is_first_source(origins, count as int, manifest, i) <==> is_first_source(
                origins,
                last,
                manifest,
                i,
            ) || (i == last && source_manifest(origins[last]) == Some(manifest) && forall|j: int|
                0 <= j < last ==> source_manifest(#[trigger] origins[j]) != Some(manifest)) by {}
        if exists|i: int|
            #[trigger] is_first_source(origins, last, manifest, i) && source == (SourcePackage {
                package: (first + sources_among(origins, i as nat)) as usize,
                mode: SourceMode::LibraryOnly,
            }) {
            let i = choose|i: int|
                #[trigger] is_first_source(origins, last, manifest, i) && source == (
                SourcePackage {
                    package: (first + sources_among(origins, i as nat)) as usize,
                    mode: SourceMode::LibraryOnly,
                });
            assert(is_first_source(origins, count as int, manifest, i));
        }
        if source_manifest(origins[last]) == Some(manifest) && !has_manifest(before, manifest) {
            assert(is_first_source(origins, count as int, manifest, last));
        }
        if exists|i: int|
            #[trigger] is_first_source(origins, count as int, manifest, i) && source == (
            SourcePackage {
                package: (first + sources_among(origins, i as nat)) as usize,
                mode: SourceMode::LibraryOnly,
            }) {
            let i = choose|i: int|
                #[trigger] is_first_source(origins, count as int, manifest, i) && source == (
                SourcePackage {
                    package: (first + sources_among(origins, i as nat)) as usize,
                    mode: SourceMode::LibraryOnly,
                });
            if i < last {
                assert(is_first_source(origins, last, manifest, i));
            }
        }
    }
}

proof fn lemma_with_compiled(plan: Plan, added: Seq<char>, number: usize, name: Seq<char>, package: usize)
    requires
        is_even(plan),
    ensures
        ({
            let after = plan.with_compiled(added, number);
            &&& is_even(after)
            &&& takes(after, name, package) <==> takes(plan, name, package) || (name == added
                && !plan.names.contains(added) && package == number)
            &&& after.names.contains(name) <==> plan.names.contains(name) || name == added
        }),
{
    let after = plan.with_compiled(added, number);
    lemma_push_contains(plan.names, added, name);
    if !plan.names.contains(added) {
        let last = plan.names.len() as int;
        assert(after.names[last] == added);
        if takes(plan, name, package) {
            let k = choose|k: int|
                {
                    &&& 0 <= k < plan.names.len()
                    &&& k < plan.compiled.len()
                    &&& #[trigger] plan.names[k] == name
                    &&& plan.compiled[k] == package
                };
            assert(after.names[k] == name && after.compiled[k] == package);
        }
        if takes(after, name, package) {
            let k = choose|k: int|
                {
                    &&& 0 <= k < after.names.len()
                    &&& k < after.compiled.len()
                    &&& #[trigger] after.names[k] == name
                    &&& after.compiled[k] == package
                };
            if k < last {
                assert(plan.names[k] == name && plan.compiled[k] == package);
            }
        }
    }
}

proof fn lemma_dependency_names(
    plan: Plan,
    origins: Seq<Origin>,
    first: nat,
    count: nat,
    name: Seq<char>,
    package: usize,
)
    requires
        is_even(plan),
        plan.names.len() == 0,
        count <= origins.len(),
        first + origins.len() <= usize::MAX,
    ensures
        ({
            let after = plan.with_dependencies(origins, first, count);
            &&& is_even(after)
            &&& takes(after, name, package) <==> exists|i: int|
                #[trigger] is_first_compiled(origins, count as int, name, i) && package == i
                    - sources_among(origins, i as nat)
            &&& after.names.contains(name) <==> exists|i: int|
                0 <= i < count && compiled_name(#[trigger] origins[i]) == Some(name)
        }),
    decreases count,
{
    if count > 0 {
        let last = count - 1;
        lemma_dependency_names(plan, origins, first, last as nat, name, package);
        lemma_sources_among(origins, last as nat);
        let before = plan.with_dependencies(origins, first, last as nat);
        let after = plan.with_dependencies(origins, first, count);
        let number = last - sources_among(origins, last as nat);
        if let Some(added) = compiled_name(origins[last]) {
            lemma_with_compiled(before, added, number as usize, name, package);
            assert(after == before.with_compiled(added, number as usize));
        } else {
            assert(origins[last] is Source);
            assert(after.names == before.names && after.compiled == before.compiled);
            assert(takes(after, name, package) == takes(before, name, package));
        }
        assert forall|i: int| #[trigger]
            is_first_compiled(origins, count as int, name, i) <==> is_first_compiled(
                origins,
                last,
                name,
                i,
            ) || (i == last && compiled_name(origins[last]) == Some(name) && forall|j: int|
                0 <= j < last ==> compiled_name(#[trigger] origins[j]) != Some(name)) by {}
        if exists|i: int|
            #[trigger] is_first_compiled(origins, last, name, i) && package == i - sources_among(
                origins,
                i as nat,
            ) {
            let i = choose|i: int|
                #[trigger] is_first_compiled(origins, last, name, i) && package == i
                    - sources_among(origins, i as nat);
            assert(is_first_compiled(origins, count as int, name, i));
        }
        if compiled_name(origins[last]) == Some(name) && !before.names.contains(name) {
            assert(is_first_compiled(origins, count as int, name, last));
        }
        if exists|i: int|
            #[trigger] is_first_compiled(origins, count as int, name, i) && package == i
                - sources_among(origins, i as nat) {
            let i = choose|i: int|
                #[trigger] is_first_compiled(origins, count as int, name, i) && package == i
                    - sources_among(origins, i as nat);
            if i < last {
                assert(is_first_compiled(origins, last, name, i));
            }
        }
    }
}

/// A project is made up of the package that a file belongs to and of the members of its workspace, all
/// their targets; of the libraries of the dependencies that are read from their sources; and of the
/// compiled packages of all others. Each manifest counts where it is met first, and so does each name.
pub proof fn law_plan(
    owner: Option<Seq<char>>,
    members: Seq<Option<Seq<char>>>,
    dependencies: Seq<Origin>,
    manifest: Seq<char>,
    source: SourcePackage,
    name: Seq<char>,
    package: usize,
)
    requires
        members.len() + dependencies.len() < usize::MAX,
    ensures
        ({
            let plan = Plan::of(owner, members, dependencies);
            let is_member = exists|i: int|
                0 <= i < members.len() && #[trigger] members[i] == Some(manifest);
            &&& reads(plan, manifest, source) <==> {
                ||| owner == Some(manifest) && source == (SourcePackage {
                    package: 0,
                    mode: SourceMode::AllTargets,
                })
                ||| owner != Some(manifest) && exists|i: int|
                    #[trigger] is_first_member(members, members.len() as int, manifest, i) && source
                        == (SourcePackage {
                        package: (i + 1) as usize,
                        mode: SourceMode::AllTargets,
                    })
                ||| owner != Some(manifest) && !is_member && exists|i: int|
                    #[trigger] is_first_source(
                        dependencies,
                        dependencies.len() as int,
                        manifest,
                        i,
                    ) && source == (SourcePackage {
                        package: (members.len() + 1 + sources_among(dependencies, i as nat)) as usize,
                        mode: SourceMode::LibraryOnly,
                    })
            }
            &&& takes(plan, name, package) <==> exists|i: int|
                #[trigger] is_first_compiled(dependencies, dependencies.len() as int, name, i)
                    && package == i - sources_among(dependencies, i as nat)
        }),
{
    let start = Plan::empty();
    let own = start.with_source(owner, 0, SourceMode::AllTargets);
    let with = own.with_members(members, 1, members.len());
    let plan = Plan::of(owner, members, dependencies);
    if let Some(added) = owner {
        lemma_with_source(start, added, 0, SourceMode::AllTargets, manifest, source);
    }
    assert(!reads(start, manifest, source));
    assert(!has_manifest(start, manifest));
    assert(is_even(own));
    assert(own.names.len() == 0);
    lemma_with_members(own, members, members.len(), manifest, source);
    lemma_dependency_sources(
        with,
        dependencies,
        members.len() + 1,
        dependencies.len(),
        manifest,
        source,
    );
    lemma_dependency_names(
        with,
        dependencies,
        members.len() + 1,
        dependencies.len(),
        name,
        package,
    );
}

/// A path is extended by several components one after another.
pub proof fn law_extended_by(base: Seq<char>, first: Seq<Seq<char>>, second: Seq<Seq<char>>)
    ensures
        extended_by(base, first + second) == extended_by(extended_by(base, first), second),
        first.len() == 1 ==> extended_by(base, first) == crate::masm_path::extended_path(
            base,
            first[0],
        ),
        extended_by(base, Seq::empty()) == base,
    decreases second.len(),
{
    if first.len() == 1 {
        reveal_with_fuel(extended_by, 2);
        assert(first.drop_last() =~= Seq::<Seq<char>>::empty());
    }
    if second.len() == 0 {
        assert(first + second =~= first);
    } else {
        law_extended_by(base, first, second.drop_last());
        assert((first + second).drop_last() =~= first + second.drop_last());
        assert((first + second).last() == second.last());
    }
}

/// A project that cannot be loaded is reported as a warning, at the first character of a document.
pub proof fn law_load_finding(message: Seq<char>)
    ensures
        ({
            let finding = crate::builder::load_finding(message);
            &&& finding.message == message
            &&& finding.severity is Warning
            &&& finding.range.start == crate::meaning::at_start().start
            &&& finding.range.end.line == 0
            &&& finding.range.end.character == 1
        }),
{
}

/// What stands in a directory is held by it, under its name.
pub proof fn law_path_in(dir: Seq<char>, name: Seq<char>)
    requires
        name.len() > 0,
        has_no_slash(name),
        dir.len() > 0 ==> dir == seq!['/'] || dir.last() != '/',
    ensures
        parent_of(path_in(dir, name)) == Some(dir),
        file_name(path_in(dir, name)) == name,
{
    reveal_strlit("/");
    assert("/"@ =~= seq!['/']);
    let path = path_in(dir, name);
    let root = seq!['/'];
    if dir.len() == 0 {
        law_parent(path, 0);
        assert(dir =~= Seq::<char>::empty());
    } else {
        let at = if dir == root {
            0
        } else {
            dir.len() as int
        };
        assert(root.last() == '/');
        assert(path =~= if dir == root {
            root + name
        } else {
            dir + root + name
        });
        assert(path[at] == '/');
        assert forall|i: int| at < i < path.len() implies #[trigger] path[i] != '/' by {
            assert(path[i] == name[i - at - 1]);
        }
        assert(is_last_slash(path, at));
        law_parent(path, at);
        assert(path.take(at) =~= if dir == root {
            Seq::empty()
        } else {
            dir
        });
        assert(path.skip(at + 1) =~= name);
    }
}

} // verus!
