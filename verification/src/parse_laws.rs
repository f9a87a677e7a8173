//! Which texts are handed to the assembler's parser.
use vstd::prelude::*;
use vstd::utf8::encode_utf8;
use crate::lexing::{comment_end, run_end, token_at, tokens_from, tokens_of, Class, Token};
use crate::metadata::{decoded_header, package_header};
use crate::package_bytes::{can_be_decoded, texts_fit};
use crate::parseable::{are_parseable, call_leads_out, component, depth_behind, head_of, imports_in,
    is_parseable, is_plain, is_shallow, item_count, leads_out, Link};
use crate::stack_modules::{parsed_module, readable_module, ModuleSource};
use crate::wire::{little_endian, number_at};

verus! {

proof fn lemma_item_count(tokens: Seq<Token>, count: nat)
    ensures
        item_count(tokens, count) <= count,
    decreases count,
{
    if count > 0 {
        lemma_item_count(tokens, (count - 1) as nat);
    }
}

proof fn lemma_depth(tokens: Seq<Token>, count: nat)
    ensures
        depth_behind(tokens, count).blocks <= count,
        depth_behind(tokens, count).brackets <= count,
        depth_behind(tokens, count).operators <= count,
    decreases count,
{
    if count > 0 {
        lemma_depth(tokens, (count - 1) as nat);
    }
}

proof fn lemma_head_of(imports: Seq<Link>, name: Seq<char>, at: int)
    requires
        0 <= at,
    ensures
        match head_of(imports, name, at) {
            Some(head) => exists|i: int|
                at <= i < imports.len() && (#[trigger] imports[i]).name == name && imports[i].head
                    == head,
            None => forall|i: int| at <= i < imports.len() ==> (#[trigger] imports[i]).name != name,
        },
    decreases imports.len() - at,
{
    if at < imports.len() {
        if imports[at].name == name {
            assert(imports[at].name == name);
        } else {
            lemma_head_of(imports, name, at + 1);
        }
    }
}

/// Whether no import is taken from another one: each is taken from what is not imported, or hides what
/// it is taken from.
pub open spec fn stand_alone(imports: Seq<Link>) -> bool {
    forall|i: int, j: int|
        0 <= i < imports.len() && 0 <= j < imports.len() && (#[trigger] imports[i]).head == (
        #[trigger] imports[j]).name ==> imports[i].name == imports[i].head
}

/// Imports that are not taken from each other never lead into a circle.
pub proof fn law_imports_lead_out(imports: Seq<Link>, name: Seq<char>, steps: nat)
    requires
        stand_alone(imports),
        steps > 0,
    ensures
        leads_out(imports, name, steps),
{
    reveal_with_fuel(leads_out, 3);
    lemma_head_of(imports, name, 0);
    if let Some(head) = head_of(imports, name, 0) {
        let i = choose|i: int|
            0 <= i < imports.len() && (#[trigger] imports[i]).name == name && imports[i].head
                == head;
        if head != name {
            lemma_head_of(imports, head, 0);
            if let Some(next) = head_of(imports, head, 0) {
                let j = choose|j: int|
                    0 <= j < imports.len() && (#[trigger] imports[j]).name == head
                        && imports[j].head == next;
                assert(imports[i].head == imports[j].name);
            }
        }
    }
}

/// A text with no more than so many lexemes, each of them plain, and with imports that are not taken
/// from each other, is handed to the parser.
pub proof fn law_plain_lexemes_are_parsed(tokens: Seq<Token>)
    requires
        tokens.len() <= 256,
        forall|i: int| 0 <= i < tokens.len() ==> #[trigger] is_plain(tokens, i),
        stand_alone(imports_in(tokens, tokens.len())),
    ensures
        are_parseable(tokens),
{
    let imports = imports_in(tokens, tokens.len());
    lemma_item_count(tokens, tokens.len());
    assert forall|i: int| 0 <= i <= tokens.len() implies is_shallow(
        #[trigger] depth_behind(tokens, i as nat),
    ) by {
        lemma_depth(tokens, i as nat);
    }
    assert forall|i: int| 0 <= i < tokens.len() implies #[trigger] call_leads_out(
        tokens,
        imports,
        i,
    ) by {
        if let Some(first) = crate::parseable::call_head(tokens, i) {
            law_imports_lead_out(imports, component(tokens[first]).unwrap(), 1024);
        }
    }
}

/// Whether a lexeme is one that a simple text may have: a word that is a part of the text, a number
/// with digits, or a sign.
spec fn is_simple(text: Seq<char>, token: Token) -> bool {
    match token {
        Token::Word(word) => exists|i: int, j: int|
            0 <= i <= j <= text.len() && #[trigger] text.subrange(i, j) == word,
        Token::Quoted(_) => false,
        Token::Number(valid) => valid,
        _ => true,
    }
}

/// Whether a text has neither quotation marks nor zeros, and the word for an import stands nowhere in
/// it.
pub open spec fn is_simple_text(text: Seq<char>) -> bool {
    &&& forall|i: int| 0 <= i < text.len() ==> #[trigger] text[i] != '"' && text[i] != '0'
    &&& forall|i: int, j: int|
        0 <= i <= j <= text.len() ==> #[trigger] text.subrange(i, j) != "use"@
}

proof fn lemma_comment_end(text: Seq<char>, at: int)
    requires
        0 <= at <= text.len(),
    ensures
        at <= comment_end(text, at) <= text.len(),
    decreases text.len() - at,
{
    if at < text.len() && text[at] != '\n' && text[at] != '\0' {
        lemma_comment_end(text, at + 1);
    }
}

proof fn lemma_run_end(text: Seq<char>, class: Class, at: int)
    requires
        0 <= at <= text.len(),
    ensures
        at <= run_end(text, class, at) <= text.len(),
    decreases text.len() - at,
{
    if at < text.len() && crate::lexing::fits(class, text[at]) {
        lemma_run_end(text, class, at + 1);
    }
}

proof fn lemma_simple_token(text: Seq<char>, at: int)
    requires
        is_simple_text(text),
        0 <= at < text.len(),
    ensures
        at < token_at(text, at).1 <= text.len(),
        match token_at(text, at).0 {
            Some(token) => is_simple(text, token),
            None => true,
        },
{
    lemma_comment_end(text, at + 1);
    lemma_run_end(text, Class::Decimal, at + 1);
    lemma_run_end(text, Class::Special, at + 1);
    lemma_run_end(text, Class::Word, at + 1);
    assert(text[at] != '"' && text[at] != '0');
    let special = run_end(text, Class::Special, at + 1);
    let word = run_end(text, Class::Word, at + 1);
    assert(text.subrange(at, special) == text.subrange(at, special));
    assert(text.subrange(at, word) == text.subrange(at, word));
}

proof fn lemma_simple_tokens(text: Seq<char>, at: int)
    requires
        is_simple_text(text),
        0 <= at <= text.len(),
    ensures
        tokens_from(text, at).len() <= text.len() - at,
        forall|k: int|
            0 <= k < tokens_from(text, at).len() ==> is_simple(
                text,
                #[trigger] tokens_from(text, at)[k],
            ),
    decreases text.len() - at,
{
    if at < text.len() {
        lemma_simple_token(text, at);
        let (token, next) = token_at(text, at);
        lemma_simple_tokens(text, next);
        let rest = tokens_from(text, next);
        if let Some(token) = token {
            let all = tokens_from(text, at);
            assert(all == seq![token] + rest);
            assert forall|k: int| 0 <= k < all.len() implies is_simple(text, #[trigger] all[k]) by {
                if k > 0 {
                    assert(all[k] == rest[k - 1]);
                }
            }
        }
    }
}

proof fn lemma_no_imports(tokens: Seq<Token>, count: nat)
    requires
        count <= tokens.len(),
        forall|k: int| 0 <= k < tokens.len() ==> #[trigger] tokens[k] != Token::Word("use"@),
    ensures
        imports_in(tokens, count).len() == 0,
    decreases count,
{
    if count > 0 {
        lemma_no_imports(tokens, (count - 1) as nat);
        assert(tokens[count - 1] != Token::Word("use"@));
    }
}

/// A short and simple text is handed to the parser under every path.
pub proof fn law_short_texts_are_parsed(text: Seq<char>)
    requires
        text.len() <= 256,
        is_simple_text(text),
    ensures
        is_parseable(text),
{
    let tokens = tokens_of(text);
    lemma_simple_tokens(text, 0);
    assert forall|i: int| 0 <= i < tokens.len() implies #[trigger] is_plain(tokens, i) by {
        assert(is_simple(text, tokens[i]));
    }
    assert forall|k: int| 0 <= k < tokens.len() implies #[trigger] tokens[k] != Token::Word("use"@) by {
        assert(is_simple(text, tokens[k]));
    }
    lemma_no_imports(tokens, tokens.len());
    law_plain_lexemes_are_parsed(tokens);
}

/// A module is read by the parser exactly where it has a path and its text is not too long and can be
/// parsed; then it is what the parser reads.
pub proof fn law_readable_module(input: ModuleSource)
    ensures
        encode_utf8(input.text).len() < u32::MAX && input.path.len() > 0 && is_parseable(input.text)
            ==> readable_module(input) == parsed_module(input.text, input.path, input.executable),
        !(encode_utf8(input.text).len() < u32::MAX && input.path.len() > 0 && is_parseable(
            input.text,
        )) ==> readable_module(input) is None,
{
}

/// Bytes are handed to the reader of packages unless it would not come to an end on them; bytes that do
/// not start as packages do are always handed to it. So it is with the readers of debug tables, which
/// start with their version.
pub proof fn law_packages_are_read(bytes: Seq<u8>)
    ensures
        can_be_decoded(bytes) ==> package_header(bytes) == decoded_header(bytes),
        !can_be_decoded(bytes) ==> package_header(bytes) is Err,
        bytes.len() < 8 || bytes[0] != 77 || bytes[1] != 65 || bytes[2] != 83 || bytes[3] != 80
            ==> can_be_decoded(bytes),
        bytes.len() == 0 || bytes[0] != 1 ==> texts_fit(bytes),
{
    reveal(can_be_decoded);
    reveal(texts_fit);
    if bytes.len() >= 8 {
        let first = bytes.take(8);
        let wanted = seq![77u8, 65, 83, 80, 0, 4, 0, 0];
        assert(wanted[0] == 77 && wanted[1] == 65 && wanted[2] == 83 && wanted[3] == 80);
        assert(first[0] == bytes[0] && first[1] == bytes[1] && first[2] == bytes[2] && first[3]
            == bytes[3]);
    }
}

/// A number of up to eight bytes is written above a single bit, which stands as high as the number has
/// bytes; one of nine bytes is written behind an empty byte.
pub proof fn law_numbers(bytes: Seq<u8>, at: int)
    requires
        0 <= at < bytes.len(),
    ensures
        match number_at(bytes, at) {
            Some((value, next)) => {
                let size = (next - at) as nat;
                &&& at < next <= bytes.len()
                &&& value <= usize::MAX
                &&& 1 <= size <= 9
                &&& size == 1 ==> little_endian(bytes, at, size) == value * 2 + 1
                &&& size == 2 ==> little_endian(bytes, at, size) == value * 4 + 2
                &&& size == 3 ==> little_endian(bytes, at, size) == value * 8 + 4
                &&& size == 4 ==> little_endian(bytes, at, size) == value * 16 + 8
                &&& size == 5 ==> little_endian(bytes, at, size) == value * 32 + 16
                &&& size == 6 ==> little_endian(bytes, at, size) == value * 64 + 32
                &&& size == 7 ==> little_endian(bytes, at, size) == value * 128 + 64
                &&& size == 8 ==> little_endian(bytes, at, size) == value * 256 + 128
                &&& size == 9 ==> bytes[at] == 0 && little_endian(bytes, at + 1, 8) == value
            },
            None => true,
        },
        bytes[at] % 2 == 1 ==> number_at(bytes, at) == Some((bytes[at] as nat / 2, at + 1)),
{
    let first = bytes[at];
    let size = crate::wire::number_size(first);
    if size < 9 {
        let rest = little_endian(bytes, at + 1, (size - 1) as nat);
        let whole = little_endian(bytes, at, size);
        let value = whole / crate::wire::small_power(size);
        assert(whole == first as nat + 256 * rest);
        assert(size == 1 ==> whole == value * 2 + 1);
        assert(size == 2 ==> whole == value * 4 + 2);
        assert(size == 3 ==> whole == value * 8 + 4);
        assert(size == 4 ==> whole == value * 16 + 8);
        assert(size == 5 ==> whole == value * 32 + 16);
        assert(size == 6 ==> whole == value * 64 + 32);
        assert(size == 7 ==> whole == value * 128 + 64);
        assert(size == 8 ==> whole == value * 256 + 128);
    } else {
        assert(first % 4 == 0);
        assert(first % 8 == 0);
        assert(first % 16 == 0);
        assert(first % 32 == 0);
        assert(first % 64 == 0);
        assert(first % 128 == 0);
    }
    if first % 2 == 1 {
        assert(little_endian(bytes, at + 1, 0) == 0);
        assert(little_endian(bytes, at, 1) == first as nat);
    }
}

/// The bytes of a number follow each other, the lowest first.
pub proof fn law_little_endian(bytes: Seq<u8>, at: int, count: nat)
    ensures
        little_endian(bytes, at, 0) == 0,
        little_endian(bytes, at, 1) == bytes[at],
        little_endian(bytes, at, 2) == bytes[at] + 256 * bytes[at + 1],
        little_endian(bytes, at, count + 1) == bytes[at] + 256 * little_endian(bytes, at + 1, count),
{
    reveal_with_fuel(little_endian, 3);
}

} // verus!
