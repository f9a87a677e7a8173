//! What places and ranges mean, in numbers: the words in which the laws of this library speak.
use vstd::prelude::*;
use crate::model::{Context, Def, Place};
use crate::order::{byte_key, key_le};
use crate::position::{Position, Range};
use crate::resolve::{in_context, in_public, items_at};
use crate::snapshot::{file_uri, FileModel, Snapshot, Spot};
use crate::snapshot_laws::lemma_push_contains;
use crate::words::{separator_at, starts_with};

verus! {

/// A position as one number: positions of later lines are larger, and so are later ones of a line.
pub open spec fn number_of(position: Position) -> int {
    position.line as int * 0x1_0000_0000 + position.character as int
}

/// Whether a position stands between the ends of a range, or at one of them.
pub open spec fn inside(position: Position, range: Range) -> bool {
    number_of(range.start) <= number_of(position) <= number_of(range.end)
}

/// Whether some position stands in both ranges.
pub open spec fn share_position(left: Range, right: Range) -> bool {
    exists|position: Position| #[trigger] inside(position, left) && inside(position, right)
}

/// The start of a file.
pub open spec fn at_start() -> Range {
    Range {
        start: Position { line: 0, character: 0 },
        end: Position { line: 0, character: 0 },
    }
}

/// Where an item is found: at its name, or at the start of the package that holds it.
pub open spec fn found_at_place(item: Def, spot: Spot) -> bool {
    match item.location {
        Some(Place::Source { path, selection_range, .. }) => file_uri(path) == Some(spot.uri)
            && spot.range == selection_range,
        Some(Place::Artifact { path, .. }) => file_uri(path) == Some(spot.uri) && spot.range
            == at_start(),
        None => false,
    }
}

/// Whether an item can be found at all.
pub open spec fn has_place(item: Def) -> bool {
    match item.location {
        Some(Place::Source { path, .. }) => file_uri(path) is Some,
        Some(Place::Artifact { path, .. }) => file_uri(path) is Some,
        None => false,
    }
}

/// Whether the file with the given number is the one with the given path.
pub open spec fn is_file(snapshot: Snapshot, path: Seq<char>, file: int) -> bool {
    &&& 0 <= file < snapshot.files.len()
    &&& snapshot.files[file].path == path
    &&& forall|i: int| 0 <= i < file ==> (#[trigger] snapshot.files[i]).path != path
}

/// Whether a text begins with another, character by character.
pub open spec fn begins_with(text: Seq<char>, prefix: Seq<char>) -> bool {
    prefix.len() <= text.len() && forall|i: int|
        0 <= i < prefix.len() ==> #[trigger] text[i] == prefix[i]
}

/// Whether a path is another one, two colons, and a single name.
pub open spec fn is_member(base: Seq<char>, path: Seq<char>, name: Seq<char>) -> bool {
    &&& path == base + seq![':', ':'] + name
    &&& name.len() > 0
    &&& forall|at: int| !#[trigger] separator_at(name, at)
}

/// Whether an item has a context and a path.
pub open spec fn is_own(definitions: Seq<Def>, context: Context, path: Seq<char>, item: int) -> bool {
    &&& 0 <= item < definitions.len()
    &&& definitions[item].context == context
    &&& definitions[item].path == path
}

/// Whether an item is one that a path stands for in a context: one of that context, or, where it has
/// none, one that every context can see.
pub open spec fn is_item_of(
    definitions: Seq<Def>,
    context: Context,
    path: Seq<char>,
    item: int,
) -> bool {
    &&& 0 <= item < definitions.len()
    &&& definitions[item].path == path
    &&& definitions[item].context == context || (definitions[item].visible_outside_context && forall|
        other: int,
    |
        !#[trigger] is_own(definitions, context, path, other))
}

/// Two colons stand where they are read, and nowhere else.
pub proof fn law_separators(text: Seq<char>, at: int)
    ensures
        separator_at(text, at) <==> 0 <= at && at + 2 <= text.len() && text[at] == ':' && text[at + 1]
            == ':',
{
}

/// A text starts with another exactly where it begins with it.
pub proof fn law_begins_with(text: Seq<char>, prefix: Seq<char>)
    ensures
        starts_with(text, prefix) <==> begins_with(text, prefix),
{
    if starts_with(text, prefix) {
        assert forall|i: int| 0 <= i < prefix.len() implies #[trigger] text[i] == prefix[i] by {
            assert(text.take(prefix.len() as int)[i] == prefix[i]);
        }
    }
    if begins_with(text, prefix) {
        assert(text.take(prefix.len() as int) =~= prefix);
    }
}

proof fn lemma_in_context(
    definitions: Seq<Def>,
    context: Context,
    path: Seq<char>,
    count: nat,
    number: usize,
)
    requires
        count <= definitions.len() <= usize::MAX,
    ensures
        in_context(definitions, context, path, count).contains(number) <==> number < count
            && definitions[number as int].context == context && definitions[number as int].path
            == path,
        in_public(definitions, path, count).contains(number) <==> number < count
            && definitions[number as int].visible_outside_context
            && definitions[number as int].path == path,
        forall|i: int|
            0 <= i < in_context(definitions, context, path, count).len() ==> (#[trigger] in_context(
                definitions,
                context,
                path,
                count,
            )[i]) < count,
        forall|i: int|
            0 <= i < in_public(definitions, path, count).len() ==> (#[trigger] in_public(
                definitions,
                path,
                count,
            )[i]) < count,
        forall|i: int, j: int|
            0 <= i < j < in_context(definitions, context, path, count).len()
                ==> #[trigger] in_context(definitions, context, path, count)[i]
                < #[trigger] in_context(definitions, context, path, count)[j],
        forall|i: int, j: int|
            0 <= i < j < in_public(definitions, path, count).len() ==> #[trigger] in_public(
                definitions,
                path,
                count,
            )[i] < #[trigger] in_public(definitions, path, count)[j],
    decreases count,
{
    if count > 0 {
        lemma_in_context(definitions, context, path, (count - 1) as nat, number);
        let last = (count - 1) as usize;
        lemma_push_contains(
            in_context(definitions, context, path, (count - 1) as nat),
            last,
            number,
        );
        lemma_push_contains(in_public(definitions, path, (count - 1) as nat), last, number);
    }
}

/// A path stands in a context for the items of that context with that path, and where there are none
/// for those with that path that every context can see; each is listed once, in their order.
pub proof fn law_items_at(definitions: Seq<Def>, context: Context, path: Seq<char>)
    requires
        definitions.len() <= usize::MAX,
    ensures
        forall|number: usize| #[trigger]
            items_at(definitions, context, path).contains(number) <==> is_item_of(
                definitions,
                context,
                path,
                number as int,
            ),
        forall|i: int, j: int|
            0 <= i < j < items_at(definitions, context, path).len() ==> #[trigger] items_at(
                definitions,
                context,
                path,
            )[i] < #[trigger] items_at(definitions, context, path)[j],
{
    let count = definitions.len();
    let own = in_context(definitions, context, path, count);
    lemma_in_context(definitions, context, path, count, 0);
    if own.len() > 0 {
        assert(own.contains(own[0]));
        lemma_in_context(definitions, context, path, count, own[0]);
        assert(is_own(definitions, context, path, own[0] as int));
    } else {
        assert forall|other: int| !#[trigger] is_own(definitions, context, path, other) by {
            if is_own(definitions, context, path, other) {
                lemma_in_context(definitions, context, path, count, other as usize);
                assert(own.contains(other as usize));
            }
        }
    }
    assert forall|number: usize| #[trigger]
        items_at(definitions, context, path).contains(number) <==> is_item_of(
            definitions,
            context,
            path,
            number as int,
        ) by {
        lemma_in_context(definitions, context, path, count, number);
        if own.len() == 0 && number < count && definitions[number as int].context == context
            && definitions[number as int].path == path {
            assert(is_own(definitions, context, path, number as int));
        }
    }
}

/// Whether a list of bytes comes before another one: at the first difference it has the smaller byte,
/// or it ends there.
pub open spec fn comes_before(left: Seq<u8>, right: Seq<u8>) -> bool {
    exists|k: int| #[trigger] differs_at(left, right, k)
}

/// Whether two lists of bytes agree up to `k`, and there the left one ends or has the smaller byte.
pub open spec fn differs_at(left: Seq<u8>, right: Seq<u8>, k: int) -> bool {
    &&& 0 <= k <= left.len()
    &&& k < right.len()
    &&& forall|i: int| 0 <= i < k ==> #[trigger] left[i] == right[i]
    &&& k < left.len() ==> left[k] < right[k]
}

/// Keys made of bytes are sorted as the bytes are.
pub proof fn law_byte_keys(left: Seq<u8>, right: Seq<u8>)
    ensures
        key_le(byte_key(left), byte_key(right)) <==> left == right || comes_before(left, right),
    decreases left.len(),
{
    let a = byte_key(left);
    let b = byte_key(right);
    if left.len() == 0 {
        if right.len() == 0 {
            assert(left =~= right);
        } else {
            assert(differs_at(left, right, 0));
        }
    } else if right.len() == 0 {
        assert forall|k: int| !#[trigger] differs_at(left, right, k) by {}
    } else {
        let rest = left.drop_first();
        let other = right.drop_first();
        law_byte_keys(rest, other);
        assert(a.drop_first() =~= byte_key(rest));
        assert(b.drop_first() =~= byte_key(other));
        if left[0] < right[0] {
            assert(differs_at(left, right, 0));
        } else if left[0] > right[0] {
            assert forall|k: int| !#[trigger] differs_at(left, right, k) by {}
        } else {
            if comes_before(rest, other) {
                let k = choose|k: int| #[trigger] differs_at(rest, other, k);
                assert forall|i: int| 0 <= i < k + 1 implies #[trigger] left[i] == right[i] by {
                    if i > 0 {
                        assert(rest[i - 1] == other[i - 1]);
                    }
                }
                assert(differs_at(left, right, k + 1));
            }
            if comes_before(left, right) {
                let k = choose|k: int| #[trigger] differs_at(left, right, k);
                assert(k > 0);
                assert forall|i: int| 0 <= i < k - 1 implies #[trigger] rest[i] == other[i] by {
                    assert(left[i + 1] == right[i + 1]);
                }
                assert(differs_at(rest, other, k - 1));
            }
            if rest == other {
                assert(left =~= right) by {
                    assert forall|i: int| 0 <= i < left.len() implies left[i] == right[i] by {
                        if i > 0 {
                            assert(rest[i - 1] == other[i - 1]);
                        }
                    }
                }
            }
        }
    }
}

/// Whether a list holds exactly the numbers below a count that are wanted, each once and in their
/// order.
pub open spec fn picks(list: Seq<int>, count: int, wanted: spec_fn(int) -> bool) -> bool {
    &&& forall|i: int| 0 <= i < count && #[trigger] wanted(i) ==> list.contains(i)
    &&& forall|k: int| 0 <= k < list.len() ==> 0 <= #[trigger] list[k] < count && wanted(list[k])
    &&& forall|k: int, l: int| 0 <= k < l < list.len() ==> #[trigger] list[k] < #[trigger] list[l]
}

/// Nothing is picked below zero, and one more number is picked exactly where it is wanted.
pub proof fn lemma_picks(list: Seq<int>, count: int, wanted: spec_fn(int) -> bool)
    requires
        0 <= count,
        picks(list, count, wanted),
    ensures
        wanted(count) ==> picks(list.push(count), count + 1, wanted),
        !wanted(count) ==> picks(list, count + 1, wanted),
{
    let more = list.push(count);
    if wanted(count) {
        assert forall|i: int| 0 <= i < count + 1 && #[trigger] wanted(i) implies more.contains(i) by {
            lemma_push_contains(list, count, i);
        }
    }
}

/// Whether a position stands in a range exactly where it stands neither before nor behind it.
pub proof fn law_covers(range: Range, position: Position)
    ensures
        range.covers(position) <==> inside(position, range),
        range.start.before(range.end) <==> number_of(range.start) < number_of(range.end),
{
}

/// Ranges with ends in their order touch exactly where they share a position.
pub proof fn law_touches(left: Range, right: Range)
    requires
        number_of(left.start) <= number_of(left.end),
        number_of(right.start) <= number_of(right.end),
    ensures
        left.touches(right) <==> share_position(left, right),
{
    law_covers(left, right.start);
    law_covers(right, left.start);
    if left.touches(right) {
        if number_of(left.start) <= number_of(right.start) {
            assert(inside(right.start, left) && inside(right.start, right));
        } else {
            assert(inside(left.start, left) && inside(left.start, right));
        }
    }
    if share_position(left, right) {
        let position = choose|position: Position| #[trigger]
            inside(position, left) && inside(position, right);
        law_covers(left, position);
        law_covers(right, position);
    }
}

/// Ranges intersect exactly where each starts before the other ends.
pub proof fn law_intersects(left: Range, right: Range)
    ensures
        left.intersects(right) <==> number_of(left.start) < number_of(right.end) && number_of(
            right.start,
        ) < number_of(left.end),
{
}

/// An item is shown where it is found, and only there.
pub proof fn law_spot(item: Def)
    ensures
        item.spot() is Some <==> has_place(item),
        item.spot() is Some ==> found_at_place(item, item.spot().unwrap()),
        forall|spot: Spot| #[trigger] found_at_place(item, spot) ==> item.spot() == Some(spot),
{
}

/// The modules of a file are those of the first file with that path; another has none.
pub proof fn law_modules(snapshot: Snapshot, path: Seq<char>)
    ensures
        forall|file: int| #[trigger]
            is_file(snapshot, path, file) ==> snapshot.modules(path)
                == snapshot.files[file].modules,
        (forall|file: int| 0 <= file < snapshot.files.len() ==> (#[trigger] snapshot.files[file]).path
            != path) ==> snapshot.modules(path).len() == 0,
        snapshot.primary(path) == if snapshot.modules(path).len() > 0 {
            Some(snapshot.modules(path)[0])
        } else {
            None
        },
{
    lemma_file_at(snapshot.files, path, 0);
    assert forall|file: int| #[trigger] is_file(snapshot, path, file) implies snapshot.modules(path)
        == snapshot.files[file].modules by {
        let found = crate::snapshot::file_at(snapshot.files, path, 0);
        assert(snapshot.files[file].path == path);
        if let Some(at) = found {
            if at < file {
                assert(snapshot.files[at].path != path);
            }
            if file < at {
                assert(snapshot.files[file].path != path);
            }
        }
    }
}

/// The first file with a path is found by it.
pub proof fn lemma_is_file(snapshot: Snapshot, path: Seq<char>, file: int)
    requires
        is_file(snapshot, path, file),
    ensures
        crate::snapshot::file_at(snapshot.files, path, 0) == Some(file),
{
    lemma_file_at(snapshot.files, path, 0);
    assert(snapshot.files[file].path == path);
    let found = crate::snapshot::file_at(snapshot.files, path, 0);
    if let Some(at) = found {
        if at < file {
            assert(snapshot.files[at].path != path);
        }
        if file < at {
            assert(snapshot.files[file].path != path);
        }
    }
}

proof fn lemma_file_at(files: Seq<FileModel>, path: Seq<char>, at: int)
    requires
        0 <= at,
    ensures
        match crate::snapshot::file_at(files, path, at) {
            Some(found) => at <= found < files.len() && files[found].path == path && forall|i: int|
                at <= i < found ==> (#[trigger] files[i]).path != path,
            None => forall|i: int| at <= i < files.len() ==> (#[trigger] files[i]).path != path,
        },
    decreases files.len() - at,
{
    if at < files.len() && files[at].path != path {
        lemma_file_at(files, path, at + 1);
    }
}

} // verus!
