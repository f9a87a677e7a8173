//! Words and separators in strings.
use vstd::prelude::*;
use vstd::string::StringExecFns;
use crate::text::{chars_of, string_of};

verus! {

/// Whether a character counts as white space: it has the property White_Space of Unicode.
pub open spec fn is_white(ch: char) -> bool {
    ||| '\u{9}' <= ch && ch <= '\u{d}'
    ||| ch == ' '
    ||| ch == '\u{85}'
    ||| ch == '\u{a0}'
    ||| ch == '\u{1680}'
    ||| '\u{2000}' <= ch && ch <= '\u{200a}'
    ||| ch == '\u{2028}'
    ||| ch == '\u{2029}'
    ||| ch == '\u{202f}'
    ||| ch == '\u{205f}'
    ||| ch == '\u{3000}'
}

/// `char::is_whitespace`: whether the character has the property White_Space of Unicode.
#[verifier::external_body]
pub(crate) fn is_whitespace(ch: char) -> (white: bool)
    ensures
        white == is_white(ch),
{
    ch.is_whitespace()
}

/// A text without the white space at its start.
pub open spec fn trim_start(text: Seq<char>) -> Seq<char>
    decreases text.len(),
{
    if text.len() > 0 && is_white(text[0]) {
        trim_start(text.drop_first())
    } else {
        text
    }
}

/// A text without the white space at its end.
pub open spec fn trim_end(text: Seq<char>) -> Seq<char>
    decreases text.len(),
{
    if text.len() > 0 && is_white(text.last()) {
        trim_end(text.drop_last())
    } else {
        text
    }
}

/// A text without the white space at its two ends.
pub open spec fn trimmed(text: Seq<char>) -> Seq<char> {
    trim_end(trim_start(text))
}

/// The text without the white space at its two ends.
pub fn trim(text: &str) -> (result: String)
    ensures
        result@ == trimmed(text@),
{
    let chars = chars_of(text);
    let mut start: usize = 0;
    assert(chars@.skip(0) =~= chars@);
    while start < chars.len() && is_whitespace(chars[start])
        invariant
            start <= chars.len(),
            trim_start(chars@) == trim_start(chars@.skip(start as int)),
        decreases chars.len() - start,
    {
        assert(chars@.skip(start as int).drop_first() =~= chars@.skip(start + 1));
        start = start + 1;
    }
    assert(trim_start(chars@) == chars@.skip(start as int));
    let mut end: usize = chars.len();
    assert(chars@.subrange(start as int, end as int) =~= chars@.skip(start as int));
    while end > start && is_whitespace(chars[end - 1])
        invariant
            start <= end <= chars.len(),
            trim_end(chars@.skip(start as int)) == trim_end(
                chars@.subrange(start as int, end as int),
            ),
        decreases end,
    {
        assert(chars@.subrange(start as int, end as int).drop_last() =~= chars@.subrange(
            start as int,
            end - 1,
        ));
        end = end - 1;
    }
    string_of(&chars, start, end)
}

/// A text without the double quotes at its start.
pub open spec fn unquoted_start(text: Seq<char>) -> Seq<char>
    decreases text.len(),
{
    if text.len() > 0 && text[0] == '"' {
        unquoted_start(text.drop_first())
    } else {
        text
    }
}

/// A text without the double quotes at its end.
pub open spec fn unquoted_end(text: Seq<char>) -> Seq<char>
    decreases text.len(),
{
    if text.len() > 0 && text.last() == '"' {
        unquoted_end(text.drop_last())
    } else {
        text
    }
}

/// The text without the double quotes at its two ends.
pub fn trim_quotes(text: &str) -> (result: String)
    ensures
        result@ == unquoted_end(unquoted_start(text@)),
{
    let chars = chars_of(text);
    let mut start: usize = 0;
    assert(chars@.skip(0) =~= chars@);
    while start < chars.len() && chars[start] == '"'
        invariant
            start <= chars.len(),
            unquoted_start(chars@) == unquoted_start(chars@.skip(start as int)),
        decreases chars.len() - start,
    {
        assert(chars@.skip(start as int).drop_first() =~= chars@.skip(start + 1));
        start = start + 1;
    }
    assert(unquoted_start(chars@) == chars@.skip(start as int));
    let mut end: usize = chars.len();
    assert(chars@.subrange(start as int, end as int) =~= chars@.skip(start as int));
    while end > start && chars[end - 1] == '"'
        invariant
            start <= end <= chars.len(),
            unquoted_end(chars@.skip(start as int)) == unquoted_end(
                chars@.subrange(start as int, end as int),
            ),
        decreases end,
    {
        assert(chars@.subrange(start as int, end as int).drop_last() =~= chars@.subrange(
            start as int,
            end - 1,
        ));
        end = end - 1;
    }
    string_of(&chars, start, end)
}

/// Whether the separator of path segments, two colons, stands at `at`.
pub open spec fn separator_at(text: Seq<char>, at: int) -> bool {
    0 <= at && at + 1 < text.len() && text[at] == ':' && text[at + 1] == ':'
}

/// What follows the last separator that starts before `before`; the whole text where there is none.
pub open spec fn segment_behind(text: Seq<char>, before: int) -> Seq<char>
    decreases before,
{
    if before <= 0 {
        text
    } else if separator_at(text, before - 1) {
        text.skip(before + 1)
    } else {
        segment_behind(text, before - 1)
    }
}

/// What follows the last separator of a text; the whole text where it has none.
pub open spec fn last_segment(text: Seq<char>) -> Seq<char> {
    segment_behind(text, text.len() as int)
}

/// What follows the last separator of `text`.
pub fn last_path_segment(text: &str) -> (segment: String)
    ensures
        segment@ == last_segment(text@),
{
    let chars = chars_of(text);
    let len = chars.len();
    let mut before: usize = len;
    while before > 0
        invariant
            before <= len,
            len == chars.len(),
            chars@ == text@,
            last_segment(chars@) == segment_behind(chars@, before as int),
        decreases before,
    {
        if before < len && chars[before - 1] == ':' && chars[before] == ':' {
            assert(chars@.subrange(before + 1, len as int) =~= chars@.skip(before + 1));
            return string_of(&chars, before + 1, len);
        }
        before = before - 1;
    }
    assert(chars@.subrange(0, len as int) =~= chars@);
    string_of(&chars, 0, len)
}

/// Whether a text starts with another.
pub open spec fn starts_with(text: Seq<char>, prefix: Seq<char>) -> bool {
    prefix.len() <= text.len() && text.take(prefix.len() as int) == prefix
}

/// What follows `prefix` in a text that starts with it.
pub fn strip_prefix(text: &str, prefix: &str) -> (rest: Option<String>)
    ensures
        match rest {
            Some(rest) => starts_with(text@, prefix@) && rest@ == text@.skip(prefix@.len() as int),
            None => !starts_with(text@, prefix@),
        },
{
    let chars = chars_of(text);
    let head = chars_of(prefix);
    if head.len() > chars.len() {
        return None;
    }
    let mut i: usize = 0;
    while i < head.len()
        invariant
            i <= head.len() <= chars.len(),
            chars@ == text@,
            head@ == prefix@,
            forall|k: int| 0 <= k < i ==> chars@[k] == head@[k],
        decreases head.len() - i,
    {
        if chars[i] != head[i] {
            assert(chars@.take(head@.len() as int)[i as int] != head@[i as int]);
            assert(text@.take(prefix@.len() as int) != prefix@);
            return None;
        }
        i = i + 1;
    }
    assert(text@.take(prefix@.len() as int) =~= prefix@);
    assert(chars@.subrange(head@.len() as int, chars@.len() as int) =~= text@.skip(
        prefix@.len() as int,
    ));
    Some(string_of(&chars, head.len(), chars.len()))
}

/// Whether `text` starts with `prefix`.
pub fn has_prefix(text: &str, prefix: &str) -> (result: bool)
    ensures
        result == starts_with(text@, prefix@),
{
    strip_prefix(text, prefix).is_some()
}

/// Whether a text holds another one at `at`.
pub open spec fn found_at(text: Seq<char>, part: Seq<char>, at: int) -> bool {
    0 <= at && at + part.len() <= text.len() && text.subrange(at, at + part.len() as int) == part
}

/// Whether a text holds another one.
pub open spec fn contains_text(text: Seq<char>, part: Seq<char>) -> bool {
    exists|at: int| #[trigger] found_at(text, part, at)
}

/// Whether `text` holds `part`.
pub fn has_part(text: &str, part: &str) -> (result: bool)
    ensures
        result == contains_text(text@, part@),
{
    let chars = chars_of(text);
    let wanted = chars_of(part);
    if wanted.len() > chars.len() {
        return false;
    }
    let last = chars.len() - wanted.len();
    let mut at: usize = 0;
    loop
        invariant
            chars@ == text@,
            wanted@ == part@,
            wanted.len() <= chars.len(),
            last == chars.len() - wanted.len(),
            at <= last,
            forall|k: int| 0 <= k < at ==> !#[trigger] found_at(text@, part@, k),
        decreases last - at,
    {
        let mut i: usize = 0;
        while i < wanted.len() && chars[at + i] == wanted[i]
            invariant
                i <= wanted.len(),
                at + wanted.len() <= chars.len(),
                forall|k: int| 0 <= k < i ==> chars@[at + k] == wanted@[k],
            decreases wanted.len() - i,
        {
            i = i + 1;
        }
        let ghost here = text@.subrange(at as int, at + part@.len() as int);
        if i == wanted.len() {
            assert(here =~= part@);
            assert(found_at(text@, part@, at as int));
            return true;
        }
        assert(here[i as int] != part@[i as int]);
        assert(!found_at(text@, part@, at as int));
        if at == last {
            return false;
        }
        at = at + 1;
    }
}

/// Lines put together, with line feeds between them.
pub open spec fn joined_lines(lines: Seq<Seq<char>>) -> Seq<char>
    decreases lines.len(),
{
    if lines.len() == 0 {
        Seq::empty()
    } else if lines.len() == 1 {
        lines[0]
    } else {
        joined_lines(lines.drop_last()) + "\n"@ + lines.last()
    }
}

/// The models of a list of strings.
pub open spec fn texts(strings: Seq<String>) -> Seq<Seq<char>> {
    Seq::new(strings.len(), |i: int| strings[i]@)
}

/// Puts lines together, with line feeds between them.
pub fn join_lines(lines: &Vec<String>) -> (text: String)
    ensures
        text@ == joined_lines(texts(lines@)),
{
    let ghost all = texts(lines@);
    let mut text = String::new();
    let mut i: usize = 0;
    assert(text@ =~= joined_lines(all.take(0)));
    while i < lines.len()
        invariant
            i <= lines.len(),
            all == texts(lines@),
            text@ == joined_lines(all.take(i as int)),
        decreases lines.len() - i,
    {
        assert(all.take(i + 1).drop_last() =~= all.take(i as int));
        assert(all.take(i + 1).last() == lines@[i as int]@);
        let ghost before = text@;
        if i > 0 {
            text.append("\n");
        } else {
            assert(before =~= Seq::<char>::empty());
        }
        text.append(&lines[i]);
        if i == 0 {
            assert(text@ =~= lines@[0]@);
        }
        i = i + 1;
    }
    assert(all.take(i as int) =~= all);
    text
}

} // verus!
