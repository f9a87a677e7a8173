//! The lexemes of Miden Assembly, as far as they decide whether a text is handed to the assembler's
//! parser.
use vstd::prelude::*;
use crate::text::{chars_of, same_text, string_of};
use crate::words::{is_white, is_whitespace};

verus! {

/// A lexeme.
pub enum Lexeme {
    /// An identifier, a keyword or a special name.
    Word(String),
    /// What stands between quotes.
    Quoted(String),
    /// A number, and whether it has digits.
    Number(bool),
    /// Two colons.
    Separator,
    /// A minus and a greater-than sign.
    Arrow,
    /// Any other character.
    Sign(char),
}

/// The model of a lexeme.
pub enum Token {
    Word(Seq<char>),
    Quoted(Seq<char>),
    Number(bool),
    Separator,
    Arrow,
    Sign(char),
}

impl View for Lexeme {
    type V = Token;

    open spec fn view(&self) -> Token {
        match self {
            Lexeme::Word(text) => Token::Word(text@),
            Lexeme::Quoted(text) => Token::Quoted(text@),
            Lexeme::Number(valid) => Token::Number(*valid),
            Lexeme::Separator => Token::Separator,
            Lexeme::Arrow => Token::Arrow,
            Lexeme::Sign(ch) => Token::Sign(*ch),
        }
    }
}

/// The models of a list of lexemes.
pub open spec fn token_views(lexemes: Seq<Lexeme>) -> Seq<Token> {
    Seq::new(lexemes.len(), |i: int| lexemes[i]@)
}

/// The characters that words and numbers go on with.
#[derive(Clone, Copy, PartialEq, Eq, Structural)]
pub enum Class {
    Word,
    Special,
    Decimal,
    Hexadecimal,
    Binary,
}

pub open spec fn is_lower(ch: char) -> bool {
    'a' <= ch && ch <= 'z'
}

pub open spec fn is_upper(ch: char) -> bool {
    'A' <= ch && ch <= 'Z'
}

pub open spec fn is_digit(ch: char) -> bool {
    '0' <= ch && ch <= '9'
}

/// Whether a word or a number of the given class goes on with a character.
pub open spec fn fits(class: Class, ch: char) -> bool {
    match class {
        Class::Word => is_lower(ch) || is_upper(ch) || is_digit(ch) || ch == '_',
        Class::Special => is_lower(ch) || is_digit(ch) || ch == '_',
        Class::Decimal => is_digit(ch),
        Class::Hexadecimal => is_digit(ch) || ('a' <= ch && ch <= 'f') || ('A' <= ch && ch <= 'F'),
        Class::Binary => ch == '0' || ch == '1',
    }
}

/// Where a run of characters of a class ends that goes on at `at`.
pub open spec fn run_end(text: Seq<char>, class: Class, at: int) -> int
    decreases text.len() - at,
{
    if at < text.len() && fits(class, text[at]) {
        run_end(text, class, at + 1)
    } else {
        at
    }
}

/// Where a comment ends that goes on at `at`: before the next line feed or the end.
pub open spec fn comment_end(text: Seq<char>, at: int) -> int
    decreases text.len() - at,
{
    if at < text.len() && text[at] != '\n' && text[at] != '\0' {
        comment_end(text, at + 1)
    } else {
        at
    }
}

/// The closing quote of a quotation that goes on at `at`; a quotation ends on its line. A backslash
/// takes a quote or a line feed behind it into the quotation.
pub open spec fn quote_end(text: Seq<char>, at: int) -> Option<int>
    decreases text.len() - at,
{
    if at >= text.len() || text[at] == '\n' || text[at] == '\0' {
        None
    } else if text[at] == '"' {
        Some(at)
    } else if text[at] == '\\' && at + 1 < text.len() && (text[at + 1] == '"' || text[at + 1] == '\n') {
        quote_end(text, at + 2)
    } else {
        quote_end(text, at + 1)
    }
}

/// Whether the character at `at` is `wanted`.
pub open spec fn has_char(text: Seq<char>, at: int, wanted: char) -> bool {
    at < text.len() && text[at] == wanted
}

/// The lexeme at `at`, if one starts there, and where to go on. A null character or a quotation
/// that is not closed ends the text.
pub open spec fn token_at(text: Seq<char>, at: int) -> (Option<Token>, int) {
    let ch = text[at];
    if ch == '\0' {
        (None, text.len() as int)
    } else if is_white(ch) {
        (None, at + 1)
    } else if ch == '#' {
        (None, comment_end(text, at + 1))
    } else if ch == '"' {
        match quote_end(text, at + 1) {
            Some(end) => (Some(Token::Quoted(text.subrange(at + 1, end))), end + 1),
            None => (None, text.len() as int),
        }
    } else if ch == '0' && has_char(text, at + 1, 'x') {
        let end = run_end(text, Class::Hexadecimal, at + 2);
        (Some(Token::Number(end > at + 2)), end)
    } else if ch == '0' && has_char(text, at + 1, 'b') {
        let end = run_end(text, Class::Binary, at + 2);
        (Some(Token::Number(end > at + 2)), end)
    } else if is_digit(ch) {
        (Some(Token::Number(true)), run_end(text, Class::Decimal, at + 1))
    } else if ch == '$' {
        let end = run_end(text, Class::Special, at + 1);
        (Some(Token::Word(text.subrange(at, end))), end)
    } else if fits(Class::Word, ch) {
        let end = run_end(text, Class::Word, at + 1);
        let word = text.subrange(at, end);
        let next = if word == "exp"@ && has_char(text, end, '.') && has_char(text, end + 1, 'u') {
            end + 2
        } else {
            end
        };
        (Some(Token::Word(word)), next)
    } else if ch == ':' && has_char(text, at + 1, ':') {
        (Some(Token::Separator), at + 2)
    } else if ch == '-' && has_char(text, at + 1, '>') {
        (Some(Token::Arrow), at + 2)
    } else {
        (Some(Token::Sign(ch)), at + 1)
    }
}

/// Scanning goes forward and stays within the text.
proof fn lemma_forward(text: Seq<char>, at: int)
    requires
        0 <= at < text.len(),
    ensures
        at < token_at(text, at).1 <= text.len(),
{
    lemma_comment_end(text, at + 1);
    lemma_quote_end(text, at + 1);
    lemma_run_end(text, Class::Decimal, at + 1);
    lemma_run_end(text, Class::Special, at + 1);
    lemma_run_end(text, Class::Word, at + 1);
    if at + 2 <= text.len() {
        lemma_run_end(text, Class::Hexadecimal, at + 2);
        lemma_run_end(text, Class::Binary, at + 2);
    }
}

proof fn lemma_run_end(text: Seq<char>, class: Class, at: int)
    requires
        0 <= at <= text.len(),
    ensures
        at <= run_end(text, class, at) <= text.len(),
    decreases text.len() - at,
{
    if at < text.len() && fits(class, text[at]) {
        lemma_run_end(text, class, at + 1);
    }
}

proof fn lemma_comment_end(text: Seq<char>, at: int)
    requires
        0 <= at <= text.len(),
    ensures
        at <= comment_end(text, at) <= text.len(),
    decreases text.len() - at,
{
    if at < text.len() && text[at] != '\n' && text[at] != '\0' {
        lemma_comment_end(text, at + 1);
    }
}

proof fn lemma_quote_end(text: Seq<char>, at: int)
    requires
        0 <= at <= text.len(),
    ensures
        match quote_end(text, at) {
            Some(end) => at <= end < text.len(),
            None => true,
        },
    decreases text.len() - at,
{
    if at >= text.len() || text[at] == '\n' || text[at] == '\0' || text[at] == '"' {
    } else if text[at] == '\\' && at + 1 < text.len() && (text[at + 1] == '"' || text[at + 1] == '\n') {
        lemma_quote_end(text, at + 2);
    } else {
        lemma_quote_end(text, at + 1);
    }
}

/// The lexemes of a text from `at` on.
pub open spec fn tokens_from(text: Seq<char>, at: int) -> Seq<Token>
    decreases text.len() - at,
    via tokens_from_terminates
{
    if 0 <= at < text.len() {
        let (token, next) = token_at(text, at);
        match token {
            Some(token) => seq![token] + tokens_from(text, next),
            None => tokens_from(text, next),
        }
    } else {
        Seq::empty()
    }
}

#[via_fn]
proof fn tokens_from_terminates(text: Seq<char>, at: int) {
    if 0 <= at < text.len() {
        lemma_forward(text, at);
    }
}

/// The lexemes of a text.
pub open spec fn tokens_of(text: Seq<char>) -> Seq<Token> {
    tokens_from(text, 0)
}

/// Whether `ch` continues a word or a number.
fn continues(class: Class, ch: char) -> (result: bool)
    ensures
        result == fits(class, ch),
{
    let lower = 'a' <= ch && ch <= 'z';
    let upper = 'A' <= ch && ch <= 'Z';
    let digit = '0' <= ch && ch <= '9';
    match class {
        Class::Word => lower || upper || digit || ch == '_',
        Class::Special => lower || digit || ch == '_',
        Class::Decimal => digit,
        Class::Hexadecimal => digit || ('a' <= ch && ch <= 'f') || ('A' <= ch && ch <= 'F'),
        Class::Binary => ch == '0' || ch == '1',
    }
}

/// Where a run of characters of a class ends.
fn find_run_end(chars: &Vec<char>, class: Class, at: usize) -> (end: usize)
    requires
        at <= chars.len(),
    ensures
        end == run_end(chars@, class, at as int),
        at <= end <= chars.len(),
{
    let mut end: usize = at;
    while end < chars.len() && continues(class, chars[end])
        invariant
            at <= end <= chars.len(),
            run_end(chars@, class, at as int) == run_end(chars@, class, end as int),
        decreases chars.len() - end,
    {
        end = end + 1;
    }
    end
}

/// Where a comment ends.
fn find_comment_end(chars: &Vec<char>, at: usize) -> (end: usize)
    requires
        at <= chars.len(),
    ensures
        end == comment_end(chars@, at as int),
        at <= end <= chars.len(),
{
    let mut end: usize = at;
    while end < chars.len() && chars[end] != '\n' && chars[end] != '\0'
        invariant
            at <= end <= chars.len(),
            comment_end(chars@, at as int) == comment_end(chars@, end as int),
        decreases chars.len() - end,
    {
        end = end + 1;
    }
    end
}

/// The closing quote of a quotation.
fn find_quote_end(chars: &Vec<char>, at: usize) -> (end: Option<usize>)
    requires
        at <= chars.len(),
    ensures
        match end {
            Some(end) => quote_end(chars@, at as int) == Some(end as int) && at <= end < chars.len(),
            None => quote_end(chars@, at as int) is None,
        },
{
    let mut i: usize = at;
    while i < chars.len() && chars[i] != '\n' && chars[i] != '\0'
        invariant
            at <= i <= chars.len(),
            quote_end(chars@, at as int) == quote_end(chars@, i as int),
        decreases chars.len() - i,
    {
        let ch = chars[i];
        if ch == '"' {
            return Some(i);
        }
        if ch == '\\' && chars.len() - i > 1 && (chars[i + 1] == '"' || chars[i + 1] == '\n') {
            i = i + 2;
        } else {
            i = i + 1;
        }
    }
    None
}

/// Whether the character at `at` is `wanted`.
fn stands_at(chars: &Vec<char>, at: usize, wanted: char) -> (result: bool)
    ensures
        result == has_char(chars@, at as int, wanted),
{
    at < chars.len() && chars[at] == wanted
}

/// The lexeme at `at`, if one starts there, and where to go on.
fn read_lexeme(chars: &Vec<char>, at: usize) -> (result: (Option<Lexeme>, usize))
    requires
        at < chars.len(),
    ensures
        (match result.0 {
            Some(lexeme) => Some(lexeme@),
            None => None,
        }, result.1 as int) == token_at(chars@, at as int),
{
    proof {
        lemma_forward(chars@, at as int);
    }
    let ch = chars[at];
    let len = chars.len();
    if ch == '\0' {
        (None, len)
    } else if is_whitespace(ch) {
        (None, at + 1)
    } else if ch == '#' {
        (None, find_comment_end(chars, at + 1))
    } else if ch == '"' {
        match find_quote_end(chars, at + 1) {
            Some(end) => (Some(Lexeme::Quoted(string_of(chars, at + 1, end))), end + 1),
            None => (None, len),
        }
    } else if ch == '0' && stands_at(chars, at + 1, 'x') {
        let end = find_run_end(chars, Class::Hexadecimal, at + 2);
        (Some(Lexeme::Number(end > at + 2)), end)
    } else if ch == '0' && stands_at(chars, at + 1, 'b') {
        let end = find_run_end(chars, Class::Binary, at + 2);
        (Some(Lexeme::Number(end > at + 2)), end)
    } else if '0' <= ch && ch <= '9' {
        (Some(Lexeme::Number(true)), find_run_end(chars, Class::Decimal, at + 1))
    } else if ch == '$' {
        let end = find_run_end(chars, Class::Special, at + 1);
        (Some(Lexeme::Word(string_of(chars, at, end))), end)
    } else if continues(Class::Word, ch) {
        let end = find_run_end(chars, Class::Word, at + 1);
        let word = string_of(chars, at, end);
        let next = if same_text(&word, "exp") && stands_at(chars, end, '.') && stands_at(
            chars,
            end + 1,
            'u',
        ) {
            end + 2
        } else {
            end
        };
        (Some(Lexeme::Word(word)), next)
    } else if ch == ':' && stands_at(chars, at + 1, ':') {
        (Some(Lexeme::Separator), at + 2)
    } else if ch == '-' && stands_at(chars, at + 1, '>') {
        (Some(Lexeme::Arrow), at + 2)
    } else {
        (Some(Lexeme::Sign(ch)), at + 1)
    }
}

/// The lexemes of a text.
pub fn lexemes_of(text: &str) -> (lexemes: Vec<Lexeme>)
    ensures
        token_views(lexemes@) == tokens_of(text@),
{
    let chars = chars_of(text);
    let mut lexemes: Vec<Lexeme> = Vec::new();
    let mut at: usize = 0;
    assert(token_views(lexemes@) + tokens_from(chars@, 0) =~= tokens_of(text@));
    while at < chars.len()
        invariant
            at <= chars.len(),
            token_views(lexemes@) + tokens_from(chars@, at as int) == tokens_of(text@),
        decreases chars.len() - at,
    {
        let ghost before = token_views(lexemes@);
        let ghost here = at as int;
        let (lexeme, next) = read_lexeme(&chars, at);
        proof {
            lemma_forward(chars@, here);
        }
        match lexeme {
            Some(lexeme) => {
                let ghost token = lexeme@;
                lexemes.push(lexeme);
                proof {
                    assert(token_views(lexemes@) =~= before.push(token));
                    assert(tokens_from(chars@, here) == seq![token] + tokens_from(
                        chars@,
                        next as int,
                    ));
                    assert(token_views(lexemes@) + tokens_from(chars@, next as int) =~= before
                        + tokens_from(chars@, here));
                }
            },
            None => {},
        }
        at = next;
    }
    assert(token_views(lexemes@) + tokens_from(chars@, at as int) =~= token_views(lexemes@));
    lexemes
}

} // verus!
