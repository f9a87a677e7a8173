//! Where things stand in a text, what changes do to it, and what is reported of it.
use vstd::prelude::*;
use vstd::utf8::*;
use crate::document::{edited, finding_keys, row_finding, row_findings, syntax_findings,
    without_repeats, Edit, Finding, TextChange};
use crate::order::{arrange, law_stable_order, stable_order};
use crate::position::{lemma_line_starts, lemma_offset_on_boundary, lemma_seek_column,
    lemma_utf16_len_split, line_end, line_of, line_starts, offset_at, on_boundary, position_at,
    utf16_len, Position};
use crate::syntax::{walk_order, Row, Stop};
use crate::text::{law_splice, lemma_boundary, lemma_encode_concat, splice};

verus! {

/// The number of line feeds in a text.
pub open spec fn line_feeds(text: Seq<char>) -> nat
    decreases text.len(),
{
    if text.len() == 0 {
        0
    } else {
        line_feeds(text.drop_last()) + if text.last() == '\n' {
            1nat
        } else {
            0nat
        }
    }
}

/// What follows the last line feed of a text.
pub open spec fn last_line(text: Seq<char>) -> Seq<char>
    decreases text.len(),
{
    if text.len() == 0 || text.last() == '\n' {
        Seq::empty()
    } else {
        last_line(text.drop_last()).push(text.last())
    }
}

/// How many code units a text has in UTF-16: a character from outside the basic plane has two.
pub open spec fn code_units(text: Seq<char>) -> nat
    decreases text.len(),
{
    if text.len() == 0 {
        0
    } else {
        code_units(text.drop_last()) + if text.last() as u32 >= 0x10000 {
            2nat
        } else {
            1nat
        }
    }
}

proof fn lemma_continuations(scalar: u32)
    ensures
        0x80 <= last_continuation_byte(scalar) <= 0xbf,
        0x80 <= second_last_continuation_byte(scalar) <= 0xbf,
        0x80 <= third_last_continuation_byte(scalar) <= 0xbf,
        0xc0 <= leading_byte_width_2(scalar) <= 0xdf,
        0xe0 <= leading_byte_width_3(scalar) <= 0xef,
        0xf0 <= leading_byte_width_4(scalar) <= 0xf7,
        scalar <= 0x7f ==> leading_byte_width_1(scalar) == scalar,
{
    assert(0x80 <= (0x80u8 | (scalar & 0x3F) as u8) <= 0xbf) by (bit_vector);
    assert(0x80 <= (0x80u8 | ((scalar >> 6) & 0x3F) as u8) <= 0xbf) by (bit_vector);
    assert(0x80 <= (0x80u8 | ((scalar >> 12) & 0x3F) as u8) <= 0xbf) by (bit_vector);
    assert(0xc0 <= (0xC0u8 | ((scalar >> 6) & 0x1F) as u8) <= 0xdf) by (bit_vector);
    assert(0xe0 <= (0xE0u8 | ((scalar >> 12) & 0x0F) as u8) <= 0xef) by (bit_vector);
    assert(0xf0 <= (0xF0u8 | ((scalar >> 18) & 0x7) as u8) <= 0xf7) by (bit_vector);
    assert(scalar <= 0x7f ==> (scalar & 0x7F) as u8 == scalar) by (bit_vector);
}

/// The bytes of one character: how much they weigh, and that only a line feed has the byte of one.
proof fn lemma_character(ch: char)
    ensures
        encode_scalar(ch as u32).len() >= 1,
        ch == '\n' <==> encode_scalar(ch as u32) == seq![10u8],
        ch != '\n' ==> forall|i: int|
            0 <= i < encode_scalar(ch as u32).len() ==> #[trigger] encode_scalar(ch as u32)[i] != 10,
        utf16_len(encode_scalar(ch as u32), 0, encode_scalar(ch as u32).len() as int) == if ch as u32
            >= 0x10000 {
            2nat
        } else {
            1nat
        },
{
    let scalar = ch as u32;
    let bytes = encode_scalar(scalar);
    char_is_scalar(ch);
    lemma_continuations(scalar);
    reveal_with_fuel(utf16_len, 5);
    assert('\n' as u32 == 10);
    if scalar == 10 {
        assert(bytes =~= seq![10u8]);
        assert(ch == '\n');
    } else {
        assert(ch != '\n');
        assert(bytes.len() >= 1 && bytes[0] != 10);
        assert(seq![10u8][0] == 10);
    }
}

proof fn lemma_same_weight(left: Seq<u8>, right: Seq<u8>, from: int, to: int, shift: int)
    requires
        forall|i: int| from <= i < to ==> #[trigger] left[i] == right[i + shift],
    ensures
        utf16_len(left, from, to) == utf16_len(right, from + shift, to + shift),
    decreases to - from,
{
    if from < to {
        lemma_same_weight(left, right, from, to - 1, shift);
        assert(left[to - 1] == right[to - 1 + shift]);
    }
}

proof fn lemma_no_more_lines(bytes: Seq<u8>, more: Seq<u8>)
    requires
        forall|i: int| 0 <= i < more.len() ==> #[trigger] more[i] != 10,
    ensures
        line_starts(bytes + more) == line_starts(bytes),
    decreases more.len(),
{
    if more.len() == 0 {
        assert(bytes + more =~= bytes);
    } else {
        let less = more.drop_last();
        assert((bytes + more).drop_last() =~= bytes + less);
        assert((bytes + more).last() == more[more.len() - 1]);
        lemma_no_more_lines(bytes, less);
    }
}

/// How the lines of a text and its last line are counted in its bytes.
proof fn lemma_lines_of_text(text: Seq<char>)
    requires
        encode_utf8(text).len() <= usize::MAX,
    ensures
        line_starts(encode_utf8(text)).len() == line_feeds(text) + 1,
        line_starts(encode_utf8(text)).last() <= encode_utf8(text).len(),
        utf16_len(
            encode_utf8(text),
            line_starts(encode_utf8(text)).last() as int,
            encode_utf8(text).len() as int,
        ) == code_units(last_line(text)),
    decreases text.len(),
{
    let bytes = encode_utf8(text);
    if text.len() > 0 {
        let less = text.drop_last();
        let ch = text.last();
        let one = seq![ch];
        let head = encode_utf8(less);
        let tail = encode_scalar(ch as u32);
        assert(text =~= less + one);
        lemma_encode_concat(less, one);
        assert(encode_utf8(one) =~= tail) by {
            assert(one.drop_first() =~= Seq::<char>::empty());
            assert(encode_utf8(Seq::<char>::empty()) =~= Seq::<u8>::empty());
        }
        assert(bytes == head + tail);
        lemma_lines_of_text(less);
        lemma_character(ch);
        if ch == '\n' {
            assert(bytes.drop_last() =~= head);
            assert(bytes.last() == 10);
            assert(line_starts(bytes) == line_starts(head).push(bytes.len() as usize));
        } else {
            lemma_no_more_lines(head, tail);
            let start = line_starts(head).last() as int;
            lemma_utf16_len_split(bytes, start, head.len() as int, bytes.len() as int);
            lemma_same_weight(head, bytes, start, head.len() as int, 0);
            lemma_same_weight(tail, bytes, 0, tail.len() as int, head.len() as int);
            let line = last_line(less);
            assert(line.push(ch).drop_last() =~= line);
        }
    } else {
        assert(bytes =~= Seq::<u8>::empty());
    }
}

proof fn lemma_line_of_prefix(bytes: Seq<u8>, offset: int)
    requires
        0 <= offset <= bytes.len() <= usize::MAX,
    ensures
        line_of(bytes, offset) == line_starts(bytes.take(offset)).len() - 1,
        line_starts(bytes.take(offset)).len() <= line_starts(bytes).len(),
        forall|i: int|
            0 <= i < line_starts(bytes.take(offset)).len() ==> #[trigger] line_starts(bytes)[i]
                == line_starts(bytes.take(offset))[i],
    decreases bytes.len(),
{
    if offset == bytes.len() {
        assert(bytes.take(offset) =~= bytes);
    } else {
        let less = bytes.drop_last();
        lemma_line_of_prefix(less, offset);
        assert(less.take(offset) =~= bytes.take(offset));
        if offset == 0 {
            assert(bytes.take(0) =~= Seq::<u8>::empty());
        }
        assert forall|i: int| 0 <= i < line_starts(bytes.take(offset)).len() implies #[trigger] line_starts(
            bytes,
        )[i] == line_starts(bytes.take(offset))[i] by {
            assert(line_starts(less)[i] == line_starts(less.take(offset))[i]);
        }
    }
}

/// The position behind a part of a text counts the line feeds in it, and the code units behind the
/// last of them; what follows the part does not matter.
pub proof fn law_positions_count(head: Seq<char>, tail: Seq<char>)
    requires
        encode_utf8(head + tail).len() <= u32::MAX,
    ensures
        position_at(encode_utf8(head + tail), encode_utf8(head).len() as int).line == line_feeds(head),
        position_at(encode_utf8(head + tail), encode_utf8(head).len() as int).character == code_units(
            last_line(head),
        ),
{
    let bytes = encode_utf8(head + tail);
    let part = encode_utf8(head);
    let offset = part.len() as int;
    lemma_encode_concat(head, tail);
    assert(bytes.take(offset) =~= part);
    lemma_lines_of_text(head);
    lemma_line_of_prefix(bytes, offset);
    let line = line_of(bytes, offset);
    let start = line_starts(bytes)[line] as int;
    assert(start == line_starts(part).last());
    lemma_same_weight(part, bytes, start, offset, 0);
    lemma_line_starts(part);
    encode_utf8_valid_utf8(head + tail);
    crate::position::lemma_utf16_len_bound(bytes, start, offset);
}

/// The offset that a position names is found by counting: behind a part of a text with so many line
/// feeds, and so many code units behind the last of them, stands the position.
pub proof fn law_offsets_count(head: Seq<char>, tail: Seq<char>, position: Position)
    requires
        encode_utf8(head + tail).len() <= u32::MAX,
        position.line == line_feeds(head),
        position.character == code_units(last_line(head)),
    ensures
        offset_at(encode_utf8(head + tail), position) == Some(encode_utf8(head).len() as int),
{
    let bytes = encode_utf8(head + tail);
    let offset = encode_utf8(head).len() as int;
    lemma_encode_concat(head, tail);
    law_positions_count(head, tail);
    assert(position_at(bytes, offset) == position);
    encode_utf8_valid_utf8(head + tail);
    assert(on_boundary(bytes, offset)) by {
        if offset < bytes.len() {
            assert(tail.len() > 0) by {
                if tail.len() == 0 {
                    assert(encode_utf8(tail) =~= Seq::<u8>::empty());
                }
            }
            let first = encode_scalar(tail[0] as u32);
            char_is_scalar(tail[0]);
            lemma_continuations(tail[0] as u32);
            lemma_character(tail[0]);
            assert(bytes[offset] == first[0]);
        }
    }
    crate::position::law_offset_round_trip(bytes, offset);
}

/// A position names an offset only on a line that the text has, and only as far as the line goes: the
/// first character with no fewer code units in front of it on its line, or the end of the line where
/// it has exactly that many.
pub proof fn law_offset_at(bytes: Seq<u8>, position: Position)
    requires
        bytes.len() <= usize::MAX,
    ensures
        ({
            let line = position.line as int;
            let starts = line_starts(bytes);
            match offset_at(bytes, position) {
                Some(offset) => {
                    let start = starts[line] as int;
                    let end = if line + 1 < starts.len() {
                        starts[line + 1] as int
                    } else {
                        bytes.len() as int
                    };
                    &&& line < starts.len()
                    &&& start <= offset <= end
                    &&& offset < end ==> !is_continuation_byte(bytes[offset])
                    &&& offset < end ==> utf16_len(bytes, start, offset) >= position.character
                    &&& offset == end ==> utf16_len(bytes, start, offset) == position.character
                    &&& forall|p: int|
                        start <= p < offset && !is_continuation_byte(#[trigger] bytes[p])
                            ==> utf16_len(bytes, start, p) < position.character
                },
                None => {
                    ||| line >= starts.len()
                    ||| {
                        let start = starts[line] as int;
                        let end = if line + 1 < starts.len() {
                            starts[line + 1] as int
                        } else {
                            bytes.len() as int
                        };
                        &&& utf16_len(bytes, start, end) != position.character
                        &&& forall|p: int|
                            start <= p < end && !is_continuation_byte(#[trigger] bytes[p])
                                ==> utf16_len(bytes, start, p) < position.character
                    }
                },
            }
        }),
{
    let line = position.line as int;
    let starts = line_starts(bytes);
    lemma_line_starts(bytes);
    if line < starts.len() {
        let start = starts[line] as int;
        let end = line_end(bytes, line);
        if line + 1 < starts.len() {
            assert(starts[line] < starts[line + 1]);
        }
        assert(utf16_len(bytes, start, start) == 0);
        lemma_seek_column(bytes, start, start, end, position.character as nat);
    }
}

/// The lines of a text start at its start and behind each line feed, and nowhere else.
pub proof fn law_line_starts(bytes: Seq<u8>, offset: int)
    requires
        0 <= offset <= bytes.len() <= usize::MAX,
    ensures
        line_starts(bytes).contains(offset as usize) <==> offset == 0 || bytes[offset - 1] == 10,
        forall|i: int, j: int|
            0 <= i < j < line_starts(bytes).len() ==> #[trigger] line_starts(bytes)[i]
                < #[trigger] line_starts(bytes)[j],
{
    crate::position::lemma_line_starts_follow_line_feeds(bytes, offset);
    lemma_line_starts(bytes);
}

/// A change of a range puts its text in place of the bytes between the two offsets that the range
/// names, and leaves all others; it is refused, with the text as it was, where one of the ends names no
/// offset.
pub proof fn law_range_is_replaced(text: Seq<char>, change: TextChange)
    requires
        change.range is Some,
        encode_utf8(text).len() <= usize::MAX,
    ensures
        ({
            let bytes = encode_utf8(text);
            let range = change.range.unwrap();
            match (offset_at(bytes, range.start), offset_at(bytes, range.end)) {
                (Some(start), Some(end)) => if start <= end {
                    &&& edited(text, seq![change]) is Applied
                    &&& encode_utf8(edited(text, seq![change])->Applied_text) == bytes.take(start)
                        + encode_utf8(change.text@) + bytes.skip(end)
                } else {
                    edited(text, seq![change]) is Reversed
                },
                _ => edited(text, seq![change]) is Refused && edited(
                    text,
                    seq![change],
                )->Refused_text == text,
            }
        }),
{
    let bytes = encode_utf8(text);
    let range = change.range.unwrap();
    let one = seq![change];
    assert(one.drop_first() =~= Seq::<TextChange>::empty());
    if let (Some(start), Some(end)) = (offset_at(bytes, range.start), offset_at(bytes, range.end)) {
        encode_utf8_valid_utf8(text);
        lemma_offset_on_boundary(bytes, range.start);
        lemma_offset_on_boundary(bytes, range.end);
        lemma_boundary(bytes, start);
        lemma_boundary(bytes, end);
        if start <= end {
            law_splice(text, start, end, change.text@);
            reveal_with_fuel(edited, 2);
            assert(edited(text, one) == (Edit::Applied {
                text: splice(text, start, end, change.text@),
            }));
        }
    }
}

/// Changes are made one after another: what the first ones make is what the others change, and behind
/// the first one that cannot be made none is.
pub proof fn law_changes_follow_each_other(
    text: Seq<char>,
    first: Seq<TextChange>,
    second: Seq<TextChange>,
)
    ensures
        edited(text, first + second) == match edited(text, first) {
            Edit::Applied { text: next } => edited(next, second),
            Edit::Refused { text: next, message } => Edit::Refused { text: next, message },
            Edit::Reversed => Edit::Reversed,
        },
    decreases first.len(),
{
    let all = first + second;
    if first.len() == 0 {
        assert(all =~= second);
    } else {
        assert(all[0] == first[0]);
        let rest = first.drop_first();
        assert(all.drop_first() =~= rest + second);
        let bytes = encode_utf8(text);
        let insert = first[0].text@;
        match first[0].range {
            None => law_changes_follow_each_other(insert, rest, second),
            Some(range) => {
                if let (Some(start), Some(end)) = (
                    offset_at(bytes, range.start),
                    offset_at(bytes, range.end),
                ) {
                    if start <= end {
                        law_changes_follow_each_other(
                            splice(text, start, end, insert),
                            rest,
                            second,
                        );
                    }
                }
            },
        }
    }
}

/// Whether a message is the one about a node: an error at the node, or at the byte behind its start
/// where it is empty, that tells what is missing.
pub open spec fn is_about(bytes: Seq<u8>, row: Row, finding: Finding) -> bool {
    &&& finding.severity is Error
    &&& finding.range.start == position_at(bytes, row.start)
    &&& row.start < row.end ==> finding.range.end == position_at(bytes, row.end)
    &&& row.start >= row.end && row.start + 1 < bytes.len() ==> finding.range.end == position_at(
        bytes,
        row.start + 1,
    )
    &&& row.start >= row.end && row.start + 1 >= bytes.len() ==> finding.range.end == position_at(
        bytes,
        bytes.len() as int,
    )
    &&& row.missing ==> finding.message == "missing "@ + row.kind
    &&& !row.missing ==> finding.message == "syntax error"@
}

/// Whether a node is one of several and stands for an error.
pub open spec fn is_faulty(rows: Seq<Row>, nodes: Seq<int>, node: int) -> bool {
    nodes.contains(node) && (rows[node].kind == "ERROR"@ || rows[node].missing)
}

proof fn lemma_row_findings(bytes: Seq<u8>, rows: Seq<Row>, nodes: Seq<int>, finding: Finding)
    ensures
        row_findings(bytes, rows, nodes).contains(finding) <==> exists|node: int|
            #[trigger] is_faulty(rows, nodes, node) && is_about(bytes, rows[node], finding),
    decreases nodes.len(),
{
    if nodes.len() > 0 {
        let less = nodes.drop_last();
        let last = nodes.last();
        let row = rows[last];
        lemma_row_findings(bytes, rows, less, finding);
        assert(less.push(last) =~= nodes);
        let before = row_findings(bytes, rows, less);
        let own = row_finding(bytes, row);
        crate::snapshot_laws::lemma_push_contains(before, own, finding);
        assert(is_about(bytes, row, finding) <==> finding == own);
        assert forall|node: int| #[trigger] is_faulty(rows, nodes, node) <==> is_faulty(
            rows,
            less,
            node,
        ) || (node == last && (row.kind == "ERROR"@ || row.missing)) by {
            crate::snapshot_laws::lemma_push_contains(less, last, node);
        }
        if exists|node: int|
            #[trigger] is_faulty(rows, less, node) && is_about(bytes, rows[node], finding) {
            let node = choose|node: int|
                #[trigger] is_faulty(rows, less, node) && is_about(bytes, rows[node], finding);
            assert(is_faulty(rows, nodes, node));
        }
        if row.is_error() || row.missing {
            assert(is_faulty(rows, nodes, last));
        }
    }
}

proof fn lemma_without_repeats(list: Seq<Finding>, finding: Finding)
    requires
        forall|i: int| 0 <= i < list.len() ==> (#[trigger] list[i]).severity is Error,
    ensures
        without_repeats(list).contains(finding) <==> list.contains(finding),
        forall|i: int|
            0 <= i < without_repeats(list).len() ==> (#[trigger] without_repeats(list)[i]).severity
                is Error,
    decreases list.len(),
{
    if list.len() > 0 {
        let less = list.drop_last();
        let last = list.last();
        assert(last == list[list.len() - 1]);
        assert forall|i: int| 0 <= i < less.len() implies (#[trigger] less[i]).severity is Error by {
            assert(less[i] == list[i]);
        }
        lemma_without_repeats(less, finding);
        let before = without_repeats(less);
        assert(less.push(last) =~= list);
        crate::snapshot_laws::lemma_push_contains(less, last, finding);
        crate::snapshot_laws::lemma_push_contains(before, last, finding);
        if before.len() > 0 && before.last().range == last.range && before.last().message
            == last.message {
            assert(before[before.len() - 1].severity is Error);
            assert(before.last() == last);
            assert(before.contains(last));
        }
    }
}

/// The messages about a text are those about the nodes of its tree that stand for an error or for
/// something missing, all of them and no other.
pub proof fn law_syntax_findings(bytes: Seq<u8>, rows: Seq<Row>, finding: Finding)
    ensures
        syntax_findings(bytes, rows).contains(finding) <==> exists|node: int|
            #[trigger] is_faulty(rows, walk_order(rows, 0, Stop::Nowhere), node) && is_about(
                bytes,
                rows[node],
                finding,
            ),
{
    let nodes = walk_order(rows, 0, Stop::Nowhere);
    let found = row_findings(bytes, rows, nodes);
    let keys = finding_keys(found);
    let order = stable_order(keys);
    law_stable_order(keys);
    let sorted = arrange(found, order);
    lemma_row_findings(bytes, rows, nodes, finding);
    assert forall|i: int| 0 <= i < sorted.len() implies (#[trigger] sorted[i]).severity is Error by {
        assert(sorted[i] == found[order[i]]);
        assert(found.contains(found[order[i]]));
        lemma_row_findings(bytes, rows, nodes, found[order[i]]);
    }
    lemma_without_repeats(sorted, finding);
    if sorted.contains(finding) {
        let k = choose|k: int| 0 <= k < sorted.len() && sorted[k] == finding;
        assert(found[order[k]] == finding);
    }
    if found.contains(finding) {
        let i = choose|i: int| 0 <= i < found.len() && found[i] == finding;
        assert(order.contains(i));
        let k = choose|k: int| 0 <= k < order.len() && order[k] == i;
        assert(sorted[k] == finding);
    }
}

/// A position that names no offset is reported by its line where the text has no such line, and else by
/// its character.
pub proof fn law_position_error(bytes: Seq<u8>, position: Position)
    ensures
        position.line >= line_starts(bytes).len() ==> crate::position::position_error(bytes, position)
            == "line "@ + crate::text::decimal(position.line as nat) + " out of bounds"@,
        position.line < line_starts(bytes).len() ==> crate::position::position_error(bytes, position)
            == "character offset "@ + crate::text::decimal(position.character as nat)
            + " out of bounds for line "@ + crate::text::decimal(position.line as nat),
{
}

/// A change that cannot be made is reported by the first of its two positions that names no offset.
pub proof fn law_refused_change(text: Seq<char>, change: TextChange)
    requires
        change.range is Some,
    ensures
        ({
            let bytes = encode_utf8(text);
            let range = change.range.unwrap();
            &&& offset_at(bytes, range.start) is None ==> edited(text, seq![change])
                == (Edit::Refused {
                text,
                message: crate::position::position_error(bytes, range.start),
            })
            &&& offset_at(bytes, range.start) is Some && offset_at(bytes, range.end) is None
                ==> edited(text, seq![change]) == (Edit::Refused {
                text,
                message: crate::position::position_error(bytes, range.end),
            })
        }),
{
}

} // verus!
