//! Places in a text: byte offsets, lines, and columns counted in UTF-16 code units.
use vstd::prelude::*;
use vstd::string::StringExecFns;
use vstd::utf8::*;

use crate::text::{decimal, push_decimal};

verus! {

/// The byte that ends a line.
pub const LINE_FEED: u8 = 10;

/// A zero-based line and a column in UTF-16 code units.
#[derive(Clone, Copy, Debug, PartialEq, Eq, Structural)]
pub struct Position {
    pub line: u32,
    pub character: u32,
}

/// The part of a text from `start` up to `end`.
#[derive(Clone, Copy, Debug, PartialEq, Eq, Structural)]
pub struct Range {
    pub start: Position,
    pub end: Position,
}

impl Position {
    pub fn new(line: u32, character: u32) -> (position: Position)
        ensures
            position == (Position { line, character }),
    {
        Position { line, character }
    }

    /// Whether `self` comes strictly before `other`.
    pub open spec fn before(self, other: Position) -> bool {
        self.line < other.line || (self.line == other.line && self.character < other.character)
    }
}

impl Range {
    pub fn new(start: Position, end: Position) -> (range: Range)
        ensures
            range == (Range { start, end }),
    {
        Range { start, end }
    }

    /// Whether `position` lies in the range, its end included.
    pub open spec fn covers(self, position: Position) -> bool {
        !position.before(self.start) && !self.end.before(position)
    }

    /// Whether the two ranges have a position in common, their ends included.
    pub open spec fn touches(self, other: Range) -> bool {
        !self.end.before(other.start) && !other.end.before(self.start)
    }

    /// Whether the two ranges have a common part that is more than one shared border.
    pub open spec fn intersects(self, other: Range) -> bool {
        self.start.before(other.end) && other.start.before(self.end)
    }
}

/// Whether `left` comes strictly before `right`.
pub fn position_before(left: Position, right: Position) -> (before: bool)
    ensures
        before == left.before(right),
{
    left.line < right.line || (left.line == right.line && left.character < right.character)
}

/// Whether `position` lies in `range`, its end included.
pub fn contains_position(range: Range, position: Position) -> (inside: bool)
    ensures
        inside == range.covers(position),
{
    (position.line > range.start.line || (position.line == range.start.line && position.character
        >= range.start.character)) && (position.line < range.end.line || (position.line
        == range.end.line && position.character <= range.end.character))
}

/// Whether two ranges have a position in common, their ends included.
pub fn ranges_overlap(left: Range, right: Range) -> (overlap: bool)
    ensures
        overlap == left.touches(right),
{
    !position_before(left.end, right.start) && !position_before(right.end, left.start)
}

/// The UTF-16 code units that a character contributes, counted at its first byte: two for a
/// character of four bytes, one for every other; the further bytes of a character count nothing.
pub open spec fn unit_weight(byte: u8) -> nat {
    if is_continuation_byte(byte) {
        0
    } else if is_leading_byte_width_4(byte) {
        2
    } else {
        1
    }
}

/// Whether two ranges have more than an end in common.
pub fn ranges_intersect(left: Range, right: Range) -> (intersect: bool)
    ensures
        intersect == left.intersects(right),
{
    !(left.end.line < right.start.line || right.end.line < left.start.line || (left.end.line
        == right.start.line && left.end.character <= right.start.character) || (right.end.line
        == left.start.line && right.end.character <= left.start.character))
}

/// The UTF-16 length of the bytes from `from` up to `to`.
pub open spec fn utf16_len(bytes: Seq<u8>, from: int, to: int) -> nat
    decreases to - from,
{
    if from >= to {
        0
    } else {
        utf16_len(bytes, from, to - 1) + unit_weight(bytes[to - 1])
    }
}

/// Whether a character starts at `offset`, or the text ends there.
pub open spec fn on_boundary(bytes: Seq<u8>, offset: int) -> bool {
    offset == bytes.len() || (0 <= offset < bytes.len() && !is_continuation_byte(bytes[offset]))
}

/// The offsets at which the lines of a text start: zero, and the offset after each line feed.
pub open spec fn line_starts(bytes: Seq<u8>) -> Seq<usize>
    decreases bytes.len(),
{
    if bytes.len() == 0 {
        seq![0usize]
    } else if bytes.last() == LINE_FEED {
        line_starts(bytes.drop_last()).push(bytes.len() as usize)
    } else {
        line_starts(bytes.drop_last())
    }
}

/// Where line `line` ends: at the start of the next line, or at the end of the text.
pub open spec fn line_end(bytes: Seq<u8>, line: int) -> int {
    if line + 1 < line_starts(bytes).len() {
        line_starts(bytes)[line + 1] as int
    } else {
        bytes.len() as int
    }
}

/// Looks from `at` up to `end` for the first character that has at least `target` code units
/// before it, where `units` of them come before `at`; the end itself counts only on an exact
/// match.
pub open spec fn seek_column(bytes: Seq<u8>, at: int, end: int, units: nat, target: nat) -> Option<
    int,
>
    decreases end - at,
{
    if at >= end {
        if units == target {
            Some(end)
        } else {
            None
        }
    } else if !is_continuation_byte(bytes[at]) && units >= target {
        Some(at)
    } else {
        seek_column(bytes, at + 1, end, units + unit_weight(bytes[at]), target)
    }
}

/// The byte offset that a position names, if there is one.
pub open spec fn offset_at(bytes: Seq<u8>, position: Position) -> Option<int> {
    let line = position.line as int;
    if line < line_starts(bytes).len() {
        seek_column(
            bytes,
            line_starts(bytes)[line] as int,
            line_end(bytes, line),
            0,
            position.character as nat,
        )
    } else {
        None
    }
}

/// What is reported for a position that names no offset.
pub open spec fn position_error(bytes: Seq<u8>, position: Position) -> Seq<char> {
    if position.line < line_starts(bytes).len() {
        "character offset "@ + decimal(position.character as nat) + " out of bounds for line "@
            + decimal(position.line as nat)
    } else {
        "line "@ + decimal(position.line as nat) + " out of bounds"@
    }
}

/// The number of the line that holds `offset`.
pub open spec fn line_of(bytes: Seq<u8>, offset: int) -> int
    decreases bytes.len(),
{
    if bytes.len() == 0 || offset <= 0 {
        0
    } else if offset < bytes.len() {
        line_of(bytes.drop_last(), offset)
    } else {
        line_starts(bytes).len() - 1
    }
}

/// The part of a count that a position has room for: its remainder modulo two to the 32.
pub open spec fn low_word(count: nat) -> u32 {
    (count % 0x1_0000_0000) as u32
}

/// The position of a byte offset; an offset past the end stands for the end.
pub open spec fn position_at(bytes: Seq<u8>, offset: int) -> Position {
    let bounded = if offset < bytes.len() {
        offset
    } else {
        bytes.len() as int
    };
    let line = line_of(bytes, bounded);
    Position {
        line: low_word(line as nat),
        character: low_word(utf16_len(bytes, line_starts(bytes)[line] as int, bounded)),
    }
}

/// Every text has a first line, which starts at zero; the line starts ascend and lie
/// within the text.
pub proof fn lemma_line_starts(bytes: Seq<u8>)
    requires
        bytes.len() <= usize::MAX,
    ensures
        line_starts(bytes).len() >= 1,
        line_starts(bytes).len() <= bytes.len() + 1,
        line_starts(bytes)[0] == 0,
        forall|i: int, j: int|
            0 <= i < j < line_starts(bytes).len() ==> line_starts(bytes)[i] < line_starts(bytes)[j],
        forall|i: int| 0 <= i < line_starts(bytes).len() ==> line_starts(bytes)[i] <= bytes.len(),
    decreases bytes.len(),
{
    if bytes.len() > 0 {
        lemma_line_starts(bytes.drop_last());
    }
}

/// A line starts exactly at offset zero and after each line feed.
pub proof fn lemma_line_starts_follow_line_feeds(bytes: Seq<u8>, offset: int)
    requires
        bytes.len() <= usize::MAX,
        0 <= offset <= bytes.len(),
    ensures
        line_starts(bytes).contains(offset as usize) <==> (offset == 0 || bytes[offset - 1] == LINE_FEED),
    decreases bytes.len(),
{
    lemma_line_starts(bytes);
    if bytes.len() > 0 {
        let rest = bytes.drop_last();
        if offset < bytes.len() {
            lemma_line_starts_follow_line_feeds(rest, offset);
            if line_starts(rest).contains(offset as usize) {
                let k = choose|k: int|
                    0 <= k < line_starts(rest).len() && line_starts(rest)[k] == offset as usize;
                assert(line_starts(bytes)[k] == offset as usize);
            }
            if line_starts(bytes).contains(offset as usize) {
                let k = choose|k: int|
                    0 <= k < line_starts(bytes).len() && line_starts(bytes)[k] == offset as usize;
                assert(k < line_starts(rest).len());
                assert(line_starts(rest)[k] == offset as usize);
            }
        } else {
            lemma_line_starts(rest);
            if bytes.last() == LINE_FEED {
                let k = line_starts(bytes).len() - 1;
                assert(line_starts(bytes)[k] == offset as usize);
            }
        }
    } else {
        assert(line_starts(bytes)[0] == 0);
    }
}

/// The line of an offset is the last one that starts at or before it.
pub proof fn lemma_line_of(bytes: Seq<u8>, offset: int)
    requires
        bytes.len() <= usize::MAX,
        0 <= offset <= bytes.len(),
    ensures
        0 <= line_of(bytes, offset) < line_starts(bytes).len(),
        line_starts(bytes)[line_of(bytes, offset)] <= offset,
        line_of(bytes, offset) + 1 < line_starts(bytes).len() ==> offset < line_starts(
            bytes,
        )[line_of(bytes, offset) + 1],
    decreases bytes.len(),
{
    lemma_line_starts(bytes);
    if bytes.len() > 0 && 0 < offset < bytes.len() {
        let rest = bytes.drop_last();
        lemma_line_of(rest, offset);
        lemma_line_starts(rest);
    }
}

/// The offsets at which the lines of `text` start.
pub fn compute_line_offsets(text: &str) -> (offsets: Vec<usize>)
    ensures
        offsets@ == line_starts(encode_utf8(text@)),
{
    let bytes = text.as_bytes();
    let mut offsets: Vec<usize> = vec![0];
    let mut index: usize = 0;
    assert(bytes@.take(0) =~= Seq::<u8>::empty());
    assert(offsets@ =~= line_starts(bytes@.take(0)));
    while index < bytes.len()
        invariant
            bytes@ == encode_utf8(text@),
            index <= bytes.len(),
            offsets@ == line_starts(bytes@.take(index as int)),
        decreases bytes.len() - index,
    {
        assert(bytes@.take(index + 1).drop_last() =~= bytes@.take(index as int));
        if bytes[index] == LINE_FEED {
            offsets.push(index + 1);
        }
        index = index + 1;
    }
    assert(bytes@.take(index as int) =~= bytes@);
    offsets
}

/// The UTF-16 units of two neighbouring parts add up.
pub proof fn lemma_utf16_len_split(bytes: Seq<u8>, from: int, middle: int, to: int)
    requires
        from <= middle <= to,
    ensures
        utf16_len(bytes, from, to) == utf16_len(bytes, from, middle) + utf16_len(bytes, middle, to),
    decreases to - middle,
{
    if middle < to {
        lemma_utf16_len_split(bytes, from, middle, to - 1);
    }
}

/// Between two boundaries there is at least one code unit.
pub proof fn lemma_utf16_len_positive(bytes: Seq<u8>, from: int, to: int)
    requires
        0 <= from < to <= bytes.len(),
        !is_continuation_byte(bytes[from]),
    ensures
        utf16_len(bytes, from, to) >= 1,
{
    lemma_utf16_len_split(bytes, from, from + 1, to);
    assert(utf16_len(bytes, from, from + 1) == utf16_len(bytes, from, from) + unit_weight(bytes[from]));
}

/// The first byte of a character of four bytes has a further byte behind it.
proof fn lemma_wide_character_continues(bytes: Seq<u8>, index: int)
    requires
        valid_utf8(bytes),
        0 <= index < bytes.len(),
        is_leading_byte_width_4(bytes[index]),
    ensures
        index + 1 < bytes.len(),
        is_continuation_byte(bytes[index + 1]),
    decreases bytes.len(),
{
    if index >= length_of_first_scalar(bytes) {
        lemma_wide_character_continues(
            pop_first_scalar(bytes),
            index - length_of_first_scalar(bytes),
        );
    }
}

/// A part of a text has at most one code unit for each of its bytes, and one more where it breaks
/// off behind the first byte of a character of four bytes.
pub proof fn lemma_utf16_len_bound(bytes: Seq<u8>, from: int, to: int)
    requires
        valid_utf8(bytes),
        0 <= from <= to <= bytes.len(),
    ensures
        utf16_len(bytes, from, to) <= to - from + (if to > from && is_leading_byte_width_4(
            bytes[to - 1],
        ) {
            1int
        } else {
            0int
        }),
        utf16_len(bytes, from, to) <= bytes.len(),
    decreases to - from,
{
    if from < to {
        lemma_utf16_len_bound(bytes, from, to - 1);
        if is_leading_byte_width_4(bytes[to - 1]) {
            lemma_wide_character_continues(bytes, to - 1);
        }
        if from < to - 1 && is_leading_byte_width_4(bytes[to - 2]) {
            lemma_wide_character_continues(bytes, to - 2);
        }
    }
}

/// Whether every character from `start` up to `at` has fewer than `target` units before it.
pub open spec fn none_reaches(bytes: Seq<u8>, start: int, at: int, target: nat) -> bool {
    forall|p: int|
        start <= p < at && !is_continuation_byte(#[trigger] bytes[p]) ==> utf16_len(bytes, start, p)
            < target
}

/// What a search for a column finds: the first character with at least `target` units before it,
/// or the end, when all units together are exactly `target`.
pub proof fn lemma_seek_column(bytes: Seq<u8>, start: int, at: int, end: int, target: nat)
    requires
        0 <= start <= at <= end <= bytes.len(),
        none_reaches(bytes, start, at, target),
    ensures
        match seek_column(bytes, at, end, utf16_len(bytes, start, at), target) {
            Some(offset) => {
                &&& start <= offset <= end
                &&& offset < end ==> !is_continuation_byte(bytes[offset])
                &&& offset < end ==> utf16_len(bytes, start, offset) >= target
                &&& offset == end ==> utf16_len(bytes, start, end) == target
                &&& none_reaches(bytes, start, offset, target)
            },
            None => {
                &&& utf16_len(bytes, start, end) != target
                &&& none_reaches(bytes, start, end, target)
            },
        },
    decreases end - at,
{
    if at < end && (is_continuation_byte(bytes[at]) || utf16_len(bytes, start, at) < target) {
        assert(utf16_len(bytes, start, at + 1) == utf16_len(bytes, start, at) + unit_weight(
            bytes[at],
        ));
        assert(none_reaches(bytes, start, at + 1, target)) by {
            assert forall|p: int|
                start <= p < at + 1 && !is_continuation_byte(#[trigger] bytes[p]) implies utf16_len(
                bytes,
                start,
                p,
            ) < target by {
                if p < at {
                    assert(none_reaches(bytes, start, at, target));
                }
            }
        }
        lemma_seek_column(bytes, start, at + 1, end, target);
    }
}

/// The byte offset that `position` names in `text`, whose lines start at `line_offsets`.
pub fn position_to_offset(text: &str, line_offsets: &[usize], position: Position) -> (result: Result<
    usize,
    String,
>)
    requires
        line_offsets@ == line_starts(encode_utf8(text@)),
    ensures
        match result {
            Ok(offset) => offset_at(encode_utf8(text@), position) == Some(offset as int),
            Err(message) => {
                &&& offset_at(encode_utf8(text@), position) is None
                &&& message@ == position_error(encode_utf8(text@), position)
            },
        },
{
    let bytes = text.as_bytes();
    let size = bytes.len();
    proof {
        lemma_line_starts(bytes@);
    }
    let line = position.line as usize;
    if line >= line_offsets.len() {
        let mut message = "line ".to_owned();
        push_decimal(&mut message, position.line as u64);
        message.append(" out of bounds");
        return Err(message);
    }
    let line_start = line_offsets[line];
    let line_end = if line + 1 < line_offsets.len() {
        line_offsets[line + 1]
    } else {
        size
    };
    let target_units = position.character as u64;
    let mut utf16_units: u64 = 0;
    let mut offset: usize = line_start;
    while offset < line_end
        invariant
            line_start <= offset <= line_end <= bytes.len(),
            bytes@ == encode_utf8(text@),
            utf16_units <= target_units + 1,
            target_units == position.character,
            offset_at(bytes@, position) == seek_column(
                bytes@,
                offset as int,
                line_end as int,
                utf16_units as nat,
                target_units as nat,
            ),
        decreases line_end - offset,
    {
        let byte = bytes[offset];
        if !(0x80 <= byte && byte <= 0xbf) {
            if utf16_units >= target_units {
                return Ok(offset);
            }
            if 0xf0 <= byte && byte <= 0xf7 {
                utf16_units = utf16_units + 2;
            } else {
                utf16_units = utf16_units + 1;
            }
        }
        offset = offset + 1;
    }
    if utf16_units == target_units {
        Ok(line_end)
    } else {
        let mut message = "character offset ".to_owned();
        push_decimal(&mut message, position.character as u64);
        message.append(" out of bounds for line ");
        push_decimal(&mut message, position.line as u64);
        Err(message)
    }
}

/// The index of the last of the ascending `line_offsets` that is at most `offset`.
fn search_line(line_offsets: &[usize], offset: usize) -> (line: usize)
    requires
        line_offsets.len() >= 1,
        line_offsets[0] <= offset,
        forall|i: int, j: int|
            0 <= i < j < line_offsets.len() ==> line_offsets[i] < line_offsets[j],
    ensures
        line < line_offsets.len(),
        line_offsets[line as int] <= offset,
        line + 1 < line_offsets.len() ==> offset < line_offsets[line + 1],
{
    let mut low: usize = 0;
    let mut high: usize = line_offsets.len();
    while high - low > 1
        invariant
            0 <= low < high <= line_offsets.len(),
            line_offsets[low as int] <= offset,
            high < line_offsets.len() ==> offset < line_offsets[high as int],
            forall|i: int, j: int|
                0 <= i < j < line_offsets.len() ==> line_offsets[i] < line_offsets[j],
        decreases high - low,
    {
        let middle = low + (high - low) / 2;
        if line_offsets[middle] <= offset {
            low = middle;
        } else {
            high = middle;
        }
    }
    low
}

/// The position of the byte `offset` in `text`, whose lines start at `line_offsets`; an offset
/// past the end stands for the end.
pub fn offset_to_position(text: &str, line_offsets: &[usize], offset: usize) -> (position: Position)
    requires
        line_offsets@ == line_starts(encode_utf8(text@)),
    ensures
        position == position_at(encode_utf8(text@), offset as int),
{
    let bytes = text.as_bytes();
    let bounded = if offset < bytes.len() {
        offset
    } else {
        bytes.len()
    };
    proof {
        lemma_line_starts(bytes@);
        lemma_line_of(bytes@, bounded as int);
        encode_utf8_valid_utf8(text@);
    }
    let line = search_line(line_offsets, bounded);
    assert(line as int == line_of(bytes@, bounded as int)) by {
        let expected = line_of(bytes@, bounded as int);
        let starts = line_starts(bytes@);
        if expected < line {
            assert(starts[expected + 1] <= starts[line as int]);
        }
        if line < expected {
            assert(starts[line + 1] <= starts[expected]);
        }
    }
    let line_start = line_offsets[line];
    let mut character: usize = 0;
    let mut at: usize = line_start;
    while at < bounded
        invariant
            line_start <= at <= bounded <= bytes.len(),
            valid_utf8(bytes@),
            character == utf16_len(bytes@, line_start as int, at as int),
        decreases bounded - at,
    {
        let byte = bytes[at];
        proof {
            lemma_utf16_len_bound(bytes@, line_start as int, at + 1);
        }
        if 0x80 <= byte && byte <= 0xbf {
        } else if 0xf0 <= byte && byte <= 0xf7 {
            character = character + 2;
        } else {
            character = character + 1;
        }
        at = at + 1;
    }
    Position {
        line: (line as u64 % 0x1_0000_0000) as u32,
        character: (character as u64 % 0x1_0000_0000) as u32,
    }
}

/// A zero-based row and a column in bytes.
#[derive(Clone, Copy, Debug, PartialEq, Eq, Structural)]
pub struct Point {
    pub row: usize,
    pub column: usize,
}

/// The position with the row and the column of `point`.
pub fn point_to_position(point: Point) -> (position: Position)
    ensures
        position == (Position {
            line: low_word(point.row as nat),
            character: low_word(point.column as nat),
        }),
{
    Position {
        line: (point.row as u64 % 0x1_0000_0000) as u32,
        character: (point.column as u64 % 0x1_0000_0000) as u32,
    }
}

/// The range of the bytes from `start` up to `end`.
pub open spec fn range_at(bytes: Seq<u8>, start: int, end: int) -> Range {
    Range { start: position_at(bytes, start), end: position_at(bytes, end) }
}

/// The range of the bytes from `start` up to `end` in `text`, whose lines start at
/// `line_offsets`.
pub fn byte_range_to_lsp_range(
    text: &str,
    line_offsets: &[usize],
    start: usize,
    end: usize,
) -> (range: Range)
    requires
        line_offsets@ == line_starts(encode_utf8(text@)),
    ensures
        range == range_at(encode_utf8(text@), start as int, end as int),
{
    Range {
        start: offset_to_position(text, line_offsets, start),
        end: offset_to_position(text, line_offsets, end),
    }
}

/// An offset on a character boundary is found again from its position.
pub proof fn law_offset_round_trip(bytes: Seq<u8>, offset: int)
    requires
        valid_utf8(bytes),
        bytes.len() <= u32::MAX,
        0 <= offset <= bytes.len(),
        on_boundary(bytes, offset),
    ensures
        offset_at(bytes, position_at(bytes, offset)) == Some(offset),
{
    lemma_line_starts(bytes);
    lemma_line_of(bytes, offset);
    let line = line_of(bytes, offset);
    let start = line_starts(bytes)[line] as int;
    let end = line_end(bytes, line);
    lemma_utf16_len_bound(bytes, start, offset);
    let target = utf16_len(bytes, start, offset);
    assert(low_word(line as nat) == line as u32);
    assert(low_word(target) == target as u32);
    assert(position_at(bytes, offset) == Position { line: line as u32, character: target as u32 });
    assert(utf16_len(bytes, start, start) == 0);
    lemma_seek_column(bytes, start, start, end, target);
    assert(offset_at(bytes, position_at(bytes, offset)) == seek_column(bytes, start, end, 0, target));
    match seek_column(bytes, start, end, 0, target) {
        Some(found) => {
            if found < offset {
                if found < end {
                    lemma_utf16_len_split(bytes, start, found, offset);
                    lemma_utf16_len_positive(bytes, found, offset);
                }
            }
            if offset < found {
                assert(!is_continuation_byte(bytes[offset]));
            }
        },
        None => {
            if offset < end {
                assert(!is_continuation_byte(bytes[offset]));
            }
        },
    }
}

/// The offset that a position names lies on a character boundary of the text.
pub proof fn lemma_offset_on_boundary(bytes: Seq<u8>, position: Position)
    requires
        valid_utf8(bytes),
        bytes.len() <= usize::MAX,
        offset_at(bytes, position) is Some,
    ensures
        0 <= offset_at(bytes, position).unwrap() <= bytes.len(),
        on_boundary(bytes, offset_at(bytes, position).unwrap()),
{
    lemma_line_starts(bytes);
    let line = position.line as int;
    let start = line_starts(bytes)[line] as int;
    let end = line_end(bytes, line);
    assert(utf16_len(bytes, start, start) == 0);
    lemma_seek_column(bytes, start, start, end, position.character as nat);
    if end < bytes.len() {
        lemma_line_feed_before_line(bytes, line + 1);
        lemma_ascii_then_boundary(bytes, end - 1);
    }
}

/// Before every line but the first there is a line feed.
proof fn lemma_line_feed_before_line(bytes: Seq<u8>, line: int)
    requires
        bytes.len() <= usize::MAX,
        0 < line < line_starts(bytes).len(),
    ensures
        0 < line_starts(bytes)[line] <= bytes.len(),
        bytes[line_starts(bytes)[line] - 1] == LINE_FEED,
{
    lemma_line_starts(bytes);
    let offset = line_starts(bytes)[line] as int;
    assert(line_starts(bytes).contains(offset as usize));
    lemma_line_starts_follow_line_feeds(bytes, offset);
    assert(line_starts(bytes)[0] < line_starts(bytes)[line]);
}

/// A character of one byte ends right behind that byte.
proof fn lemma_ascii_then_boundary(bytes: Seq<u8>, index: int)
    requires
        valid_utf8(bytes),
        0 <= index < bytes.len(),
        is_leading_byte_width_1(bytes[index]),
    ensures
        on_boundary(bytes, index + 1),
    decreases bytes.len(),
{
    let first = length_of_first_scalar(bytes);
    if index == 0 {
        if bytes.len() > 1 {
            let rest = pop_first_scalar(bytes);
            assert(valid_utf8(rest));
            assert(rest[0] == bytes[1]);
        }
    } else if index >= first {
        lemma_ascii_then_boundary(pop_first_scalar(bytes), index - first);
    }
}

/// Of two positions in order, the first names no later offset than the second.
pub proof fn law_offsets_follow_positions(bytes: Seq<u8>, first: Position, second: Position)
    requires
        bytes.len() <= usize::MAX,
        !second.before(first),
        offset_at(bytes, first) is Some,
        offset_at(bytes, second) is Some,
    ensures
        offset_at(bytes, first).unwrap() <= offset_at(bytes, second).unwrap(),
{
    lemma_line_starts(bytes);
    let starts = line_starts(bytes);
    let start1 = starts[first.line as int] as int;
    let start2 = starts[second.line as int] as int;
    let end1 = line_end(bytes, first.line as int);
    let end2 = line_end(bytes, second.line as int);
    assert(utf16_len(bytes, start1, start1) == 0);
    assert(utf16_len(bytes, start2, start2) == 0);
    lemma_seek_column(bytes, start1, start1, end1, first.character as nat);
    lemma_seek_column(bytes, start2, start2, end2, second.character as nat);
    let offset1 = offset_at(bytes, first).unwrap();
    let offset2 = offset_at(bytes, second).unwrap();
    if first.line == second.line {
        if offset2 < offset1 {
            assert(!is_continuation_byte(bytes[offset2]));
            assert(utf16_len(bytes, start1, offset2) < first.character);
        }
    } else {
        assert(starts[first.line + 1] <= starts[second.line as int]);
    }
}

} // verus!
