//! Strings: the few operations on text that the analyses need.
use vstd::prelude::*;
use vstd::string::StringExecFns;
use vstd::utf8::*;

verus! {

/// `String::push` appends one character to the end of the string.
pub assume_specification[ String::push ](string: &mut String, ch: char)
    ensures
        final(string)@ == old(string)@.push(ch),
;

/// The characters of `text`, in order.
pub fn chars_of(text: &str) -> (chars: Vec<char>)
    ensures
        chars@ == text@,
{
    let mut chars: Vec<char> = Vec::new();
    for ch in it: text.chars()
        invariant
            chars@ == it.seq().take(it.index()),
            it.seq() == text@,
    {
        chars.push(ch);
    }
    chars
}

/// The string made of `chars[start..end]`.
pub fn string_of(chars: &Vec<char>, start: usize, end: usize) -> (text: String)
    requires
        start <= end <= chars.len(),
    ensures
        text@ == chars@.subrange(start as int, end as int),
{
    let mut text = String::new();
    let mut i: usize = start;
    while i < end
        invariant
            start <= i <= end <= chars.len(),
            text@ == chars@.subrange(start as int, i as int),
        decreases end - i,
    {
        text.push(chars[i]);
        i = i + 1;
        assert(text@ =~= chars@.subrange(start as int, i as int));
    }
    text
}

/// Whether two strings hold the same characters.
pub fn same_text(left: &str, right: &str) -> (same: bool)
    ensures
        same == (left@ == right@),
{
    let a = left.as_bytes();
    let b = right.as_bytes();
    proof {
        encode_utf8_decode_utf8(left@);
        encode_utf8_decode_utf8(right@);
    }
    if a.len() != b.len() {
        return false;
    }
    let mut i: usize = 0;
    while i < a.len()
        invariant
            a@ == encode_utf8(left@),
            b@ == encode_utf8(right@),
            a.len() == b.len(),
            i <= a.len(),
            a@.take(i as int) == b@.take(i as int),
        decreases a.len() - i,
    {
        if a[i] != b[i] {
            assert(a@[i as int] != b@[i as int]);
            return false;
        }
        i = i + 1;
        assert(a@.take(i as int) =~= a@.take(i - 1).push(a@[i - 1]));
        assert(b@.take(i as int) =~= b@.take(i - 1).push(b@[i - 1]));
    }
    assert(a@.take(i as int) =~= a@);
    assert(b@.take(i as int) =~= b@);
    true
}

/// The decimal digits of `n`, without leading zeros.
pub open spec fn decimal(n: nat) -> Seq<char>
    decreases n,
{
    if n < 10 {
        seq![(('0' as u32 + n) as u32) as char]
    } else {
        decimal(n / 10) + decimal(n % 10)
    }
}

/// One decimal digit as a character.
fn digit(n: u64) -> (ch: char)
    requires
        n < 10,
    ensures
        ch == (('0' as u32 + n) as u32) as char,
{
    match n {
        0 => '0',
        1 => '1',
        2 => '2',
        3 => '3',
        4 => '4',
        5 => '5',
        6 => '6',
        7 => '7',
        8 => '8',
        _ => '9',
    }
}

/// Appends `n` in decimal to `text`.
pub fn push_decimal(text: &mut String, n: u64)
    ensures
        final(text)@ == old(text)@ + decimal(n as nat),
    decreases n,
{
    if n < 10 {
        text.push(digit(n));
        assert(text@ =~= old(text)@ + decimal(n as nat));
    } else {
        push_decimal(text, n / 10);
        push_decimal(text, n % 10);
        assert(text@ =~= old(text)@ + decimal(n as nat));
    }
}

/// The encoding of a concatenation is the concatenation of the encodings.
pub proof fn lemma_encode_concat(a: Seq<char>, b: Seq<char>)
    ensures
        encode_utf8(a + b) == encode_utf8(a) + encode_utf8(b),
    decreases a.len(),
{
    if a.len() == 0 {
        assert(a + b =~= b);
        assert(encode_utf8(a) =~= Seq::<u8>::empty());
        assert(encode_utf8(a) + encode_utf8(b) =~= encode_utf8(b));
    } else {
        lemma_encode_concat(a.drop_first(), b);
        assert((a + b).drop_first() =~= a.drop_first() + b);
        assert((a + b)[0] == a[0]);
        assert(encode_utf8(a + b) =~= encode_utf8(a) + encode_utf8(b));
    }
}

/// The characters between two byte offsets of a text.
pub open spec fn slice_text(text: Seq<char>, start: int, end: int) -> Seq<char> {
    decode_utf8(encode_utf8(text).subrange(start, end))
}

/// The part of `text` between two character boundaries.
pub fn slice(text: &str, start: usize, end: usize) -> (part: &str)
    requires
        start <= end,
        is_char_boundary(encode_utf8(text@), start as int),
        is_char_boundary(encode_utf8(text@), end as int),
    ensures
        part@ == slice_text(text@, start as int, end as int),
        encode_utf8(part@) == encode_utf8(text@).subrange(start as int, end as int),
{
    let ghost bytes = encode_utf8(text@);
    proof {
        lemma_split_boundary(text@, start as int, end as int);
    }
    let (head, _) = text.split_at(end);
    assert(encode_utf8(head@) == bytes.subrange(0, end as int));
    let (_, part) = head.split_at(start);
    proof {
        assert(encode_utf8(part@) =~= bytes.subrange(start as int, end as int));
        encode_utf8_decode_utf8(part@);
    }
    part
}

/// The boundaries of an encoded text are its two ends and the bytes that continue no character.
pub proof fn lemma_boundary(bytes: Seq<u8>, index: int)
    requires
        valid_utf8(bytes),
    ensures
        is_char_boundary(bytes, index) <==> (index == bytes.len() || (0 <= index < bytes.len()
            && !is_continuation_byte(bytes[index]))),
{
    is_char_boundary_start_end_of_seq(bytes);
    if 0 <= index < bytes.len() {
        is_char_boundary_iff_not_is_continuation_byte(bytes, index);
    }
}

/// A boundary of a text is a boundary of each longer part that starts where the text does.
proof fn lemma_split_boundary(text: Seq<char>, start: int, end: int)
    requires
        start <= end,
        is_char_boundary(encode_utf8(text), start),
        is_char_boundary(encode_utf8(text), end),
    ensures
        0 <= start,
        end <= encode_utf8(text).len(),
        is_char_boundary(encode_utf8(text).subrange(0, end), start),
{
    let bytes = encode_utf8(text);
    let head = bytes.subrange(0, end);
    encode_utf8_valid_utf8(text);
    valid_utf8_split(bytes, end);
    lemma_boundary(bytes, start);
    lemma_boundary(bytes, end);
    lemma_boundary(head, start);
}

/// Replaces the bytes from `start` up to `end` of `text`.
pub open spec fn splice(text: Seq<char>, start: int, end: int, insert: Seq<char>) -> Seq<char> {
    slice_text(text, 0, start) + insert + slice_text(
        text,
        end,
        encode_utf8(text).len() as int,
    )
}

/// The text that results when the part between two character boundaries is replaced.
pub fn replace_part(text: &str, start: usize, end: usize, insert: &str) -> (result: String)
    requires
        start <= end,
        is_char_boundary(encode_utf8(text@), start as int),
        is_char_boundary(encode_utf8(text@), end as int),
    ensures
        result@ == splice(text@, start as int, end as int, insert@),
{
    let len = text.as_bytes().len();
    proof {
        encode_utf8_valid_utf8(text@);
        is_char_boundary_start_end_of_seq(encode_utf8(text@));
        lemma_boundary(encode_utf8(text@), end as int);
    }
    let mut result = slice(text, 0, start).to_owned();
    result.append(insert);
    result.append(slice(text, end, len));
    result
}

/// Replacing a part of a text leaves the bytes before and behind it as they were.
pub proof fn law_splice(text: Seq<char>, start: int, end: int, insert: Seq<char>)
    requires
        start <= end,
        is_char_boundary(encode_utf8(text), start),
        is_char_boundary(encode_utf8(text), end),
    ensures
        encode_utf8(splice(text, start, end, insert)) == encode_utf8(text).take(start)
            + encode_utf8(insert) + encode_utf8(text).skip(end),
{
    let bytes = encode_utf8(text);
    let len = bytes.len() as int;
    lemma_split_boundary(text, start, end);
    encode_utf8_valid_utf8(text);
    valid_utf8_split(bytes, start);
    valid_utf8_split(bytes, end);
    assert(bytes.subrange(0, start) =~= bytes.take(start));
    assert(bytes.subrange(end, len) =~= bytes.skip(end));
    decode_utf8_encode_utf8(bytes.subrange(0, start));
    decode_utf8_encode_utf8(bytes.subrange(end, len));
    let head = slice_text(text, 0, start);
    let tail = slice_text(text, end, len);
    lemma_encode_concat(head + insert, tail);
    lemma_encode_concat(head, insert);
}

/// Two texts one after the other.
pub fn join(first: &str, second: &str) -> (text: String)
    ensures
        text@ == first@ + second@,
{
    let mut text = first.to_owned();
    text.append(second);
    text
}

/// Three texts one after another.
pub fn join3(first: &str, second: &str, third: &str) -> (text: String)
    ensures
        text@ == first@ + second@ + third@,
{
    let mut text = first.to_owned();
    text.append(second);
    text.append(third);
    text
}

} // verus!
