//! Paths of source files, written with slashes, and the module paths that belong to them.
use vstd::prelude::*;
use crate::masm_path::{extend_path, extended_path};
use crate::text::{chars_of, join3, same_text, string_of};
use crate::words::{starts_with, strip_prefix, texts};

verus! {

/// The path of a directory as it starts the paths of what is inside.
pub open spec fn directory_prefix(dir: Seq<char>) -> Seq<char> {
    if dir.len() > 0 && dir.last() == '/' {
        dir
    } else {
        dir + "/"@
    }
}

/// The path of a file as seen from a directory that holds it.
pub open spec fn relative_path(file: Seq<char>, dir: Seq<char>) -> Option<Seq<char>> {
    if file == dir {
        Some(Seq::empty())
    } else if starts_with(file, directory_prefix(dir)) {
        Some(file.skip(directory_prefix(dir).len() as int))
    } else {
        None
    }
}

/// Whether a part of a path counts as a component: empty parts and single dots do not.
pub open spec fn is_component(part: Seq<char>) -> bool {
    part.len() > 0 && part != seq!['.']
}

/// Where the component that ends before `end` starts.
pub open spec fn component_start(path: Seq<char>, end: int) -> int
    decreases end,
{
    if end <= 0 || path[end - 1] == '/' {
        end
    } else {
        component_start(path, end - 1)
    }
}

/// The component that ends before `end`, if what stands there counts as one.
pub open spec fn last_component(path: Seq<char>, end: int) -> Seq<Seq<char>> {
    let part = path.subrange(component_start(path, end), end);
    if is_component(part) {
        seq![part]
    } else {
        Seq::empty()
    }
}

/// The components of the first `end` characters of a path.
pub open spec fn components_until(path: Seq<char>, end: int) -> Seq<Seq<char>>
    decreases end,
{
    let start = component_start(path, end);
    if end <= 0 {
        Seq::empty()
    } else if 0 < start <= end {
        components_until(path, start - 1) + last_component(path, end)
    } else {
        last_component(path, end)
    }
}

/// The components of a path.
pub open spec fn components(path: Seq<char>) -> Seq<Seq<char>> {
    components_until(path, path.len() as int)
}

/// The components of `path`.
pub fn split_components(path: &str) -> (parts: Vec<String>)
    ensures
        texts(parts@) == components(path@),
{
    let chars = chars_of(path);
    let mut parts: Vec<String> = Vec::new();
    let mut end: usize = chars.len();
    let ghost all = components(path@);
    assert(components_until(path@, end as int) + texts(parts@) =~= all);
    while end > 0
        invariant
            end <= chars.len(),
            chars@ == path@,
            components_until(path@, end as int) + texts(parts@) == all,
        decreases end,
    {
        let mut start: usize = end;
        while start > 0 && chars[start - 1] != '/'
            invariant
                start <= end <= chars.len(),
                chars@ == path@,
                component_start(path@, end as int) == component_start(path@, start as int),
            decreases start,
        {
            start = start - 1;
        }
        let part = string_of(&chars, start, end);
        let counts = end > start && !(end - start == 1 && chars[start] == '.');
        let ghost before = texts(parts@);
        proof {
            assert(part@ == path@.subrange(component_start(path@, end as int), end as int));
            if part@.len() == 1 && part@[0] == '.' {
                assert(part@ =~= seq!['.']);
            }
            if part@ == seq!['.'] {
                assert(part@[0] == '.');
            }
            assert(counts == is_component(part@));
        }
        if counts {
            parts.insert(0, part);
            assert(texts(parts@) =~= seq![part@] + before);
        }
        proof {
            let last = last_component(path@, end as int);
            assert(texts(parts@) =~= last + before);
            if start > 0 {
                assert(components_until(path@, start - 1) + last + before =~= components_until(
                    path@,
                    start - 1,
                ) + texts(parts@));
            } else {
                assert(components_until(path@, 0) + texts(parts@) =~= texts(parts@));
            }
        }
        end = if start > 0 {
            start - 1
        } else {
            0
        };
    }
    assert(components_until(path@, 0) + texts(parts@) =~= texts(parts@));
    parts
}

/// The last dot among the first `end` characters.
pub open spec fn last_dot(name: Seq<char>, end: int) -> Option<int>
    decreases end,
{
    if end <= 0 {
        None
    } else if name[end - 1] == '.' {
        Some(end - 1)
    } else {
        last_dot(name, end - 1)
    }
}

/// The name of a file without its extension: what comes before the last dot, unless that dot comes
/// first. Two dots are no name of a file.
pub open spec fn stem(name: Seq<char>) -> Option<Seq<char>> {
    if name == seq!['.', '.'] {
        None
    } else {
        match last_dot(name, name.len() as int) {
            Some(at) => if at > 0 {
                Some(name.take(at))
            } else {
                Some(name)
            },
            None => Some(name),
        }
    }
}

/// The name of a file without its extension.
pub fn file_stem(name: &str) -> (result: Option<String>)
    ensures
        match result {
            Some(text) => stem(name@) == Some(text@),
            None => stem(name@) is None,
        },
{
    let chars = chars_of(name);
    if chars.len() == 2 && chars[0] == '.' && chars[1] == '.' {
        assert(name@ =~= seq!['.', '.']);
        return None;
    }
    proof {
        if name@ == seq!['.', '.'] {
            assert(name@[0] == '.' && name@[1] == '.');
        }
    }
    let mut end: usize = chars.len();
    while end > 0
        invariant
            end <= chars.len(),
            chars@ == name@,
            name@ != seq!['.', '.'],
            last_dot(name@, name@.len() as int) == last_dot(name@, end as int),
        decreases end,
    {
        if chars[end - 1] == '.' {
            if end - 1 > 0 {
                assert(chars@.subrange(0, end - 1) =~= name@.take(end - 1));
                return Some(string_of(&chars, 0, end - 1));
            }
            return Some(name.to_owned());
        }
        end = end - 1;
    }
    Some(name.to_owned())
}

/// A path with several more components.
pub open spec fn extended_by(base: Seq<char>, parts: Seq<Seq<char>>) -> Seq<char>
    decreases parts.len(),
{
    if parts.len() == 0 {
        base
    } else {
        extended_path(extended_by(base, parts.drop_last()), parts.last())
    }
}

/// The path of the module in a file: the root file holds the root module, and every other file
/// below the root directory the module that its directories and its name make up, where a file
/// named `mod` stands for its directory.
pub open spec fn module_of_file(
    root_file: Seq<char>,
    root_dir: Seq<char>,
    namespace: Seq<char>,
    file: Seq<char>,
) -> Result<Seq<char>, Seq<char>> {
    if file == root_file {
        Ok(namespace)
    } else {
        match relative_path(file, root_dir) {
            None => Err("prefix not found"@),
            Some(relative) => {
                let parts = components(relative);
                if parts.len() == 0 {
                    Ok(namespace)
                } else {
                    let base = extended_by(namespace, parts.drop_last());
                    match stem(parts.last()) {
                        None => Err("failed to derive module path for '"@ + file + "'"@),
                        Some(name) => if name == "mod"@ {
                            Ok(base)
                        } else {
                            Ok(extended_path(base, name))
                        },
                    }
                }
            },
        }
    }
}

/// The path of a file as seen from a directory that holds it.
pub fn path_below(file: &str, dir: &str) -> (relative: Option<String>)
    ensures
        match relative {
            Some(relative) => relative_path(file@, dir@) == Some(relative@),
            None => relative_path(file@, dir@) is None,
        },
{
    if same_text(file, dir) {
        let empty = String::new();
        assert(empty@ =~= Seq::<char>::empty());
        return Some(empty);
    }
    let chars = chars_of(dir);
    if chars.len() > 0 && chars[chars.len() - 1] == '/' {
        strip_prefix(file, dir)
    } else {
        strip_prefix(file, &crate::text::join(dir, "/"))
    }
}

/// The path of the module in the file `file_path`.
pub fn module_path_for_file(root_file: &str, root_dir: &str, namespace: &str, file_path: &str) -> (
    result: Result<String, String>)
    ensures
        match result {
            Ok(path) => module_of_file(root_file@, root_dir@, namespace@, file_path@) == Ok::<
                Seq<char>,
                Seq<char>,
            >(path@),
            Err(message) => module_of_file(root_file@, root_dir@, namespace@, file_path@) == Err::<
                Seq<char>,
                Seq<char>,
            >(message@),
        },
{
    if same_text(file_path, root_file) {
        return Ok(namespace.to_owned());
    }
    let relative = match path_below(file_path, root_dir) {
        Some(relative) => relative,
        None => return Err("prefix not found".to_owned()),
    };
    let parts = split_components(&relative);
    let ghost all = texts(parts@);
    if parts.len() == 0 {
        assert(all.len() == 0);
        return Ok(namespace.to_owned());
    }
    let last = parts.len() - 1;
    let mut path = namespace.to_owned();
    let mut i: usize = 0;
    assert(all.take(0) =~= Seq::<Seq<char>>::empty());
    while i < last
        invariant
            i <= last,
            last == parts.len() - 1,
            all == texts(parts@),
            path@ == extended_by(namespace@, all.take(i as int)),
        decreases last - i,
    {
        assert(all.take(i + 1).drop_last() =~= all.take(i as int));
        assert(all.take(i + 1).last() == parts@[i as int]@);
        path = extend_path(&path, &parts[i]);
        i = i + 1;
    }
    assert(all.take(last as int) =~= all.drop_last());
    assert(all.last() == parts@[last as int]@);
    match file_stem(&parts[last]) {
        None => Err(join3("failed to derive module path for '", file_path, "'")),
        Some(name) => if same_text(&name, "mod") {
            Ok(path)
        } else {
            Ok(extend_path(&path, &name))
        },
    }
}

} // verus!
