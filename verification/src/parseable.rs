//! Which texts the assembler's parser is called on: it does not come to an end where a call leads
//! into imports that name each other in a circle, it follows nested text by calling itself, and it
//! panics on a few texts that no module needs.
use vstd::prelude::*;
use crate::lexing::{is_upper, lexemes_of, token_views, tokens_of, Lexeme, Token};
use crate::text::{chars_of, same_text};
use crate::words::{is_white, is_whitespace};

verus! {

/// The text of a lexeme that can be a component of a path.
pub open spec fn component(token: Token) -> Option<Seq<char>> {
    match token {
        Token::Word(text) | Token::Quoted(text) => Some(text),
        _ => None,
    }
}

/// Whether the lexeme at `at` can be a component of a path.
pub open spec fn is_component(tokens: Seq<Token>, at: int) -> bool {
    at < tokens.len() && component(tokens[at]) is Some
}

/// The last component of the path whose first component stands at `at`.
pub open spec fn path_last(tokens: Seq<Token>, at: int) -> int
    decreases tokens.len() - at,
{
    if at + 2 < tokens.len() && tokens[at + 1] is Separator && is_component(tokens, at + 2) {
        path_last(tokens, at + 2)
    } else {
        at
    }
}

/// The name of an import, and the first component of the path that it stands for.
pub struct Link {
    pub name: Seq<char>,
    pub head: Seq<char>,
}

/// The import whose target starts at `at`. It has the last component of the target as its name,
/// unless another one is given.
pub open spec fn import_at(tokens: Seq<Token>, at: int) -> Option<Link> {
    let first = if at < tokens.len() && tokens[at] is Separator {
        at + 1
    } else {
        at
    };
    if is_component(tokens, first) {
        let last = path_last(tokens, first);
        let name = if last + 2 < tokens.len() && tokens[last + 1] is Arrow && is_component(
            tokens,
            last + 2,
        ) {
            last + 2
        } else {
            last
        };
        Some(
            Link {
                name: component(tokens[name]).unwrap(),
                head: component(tokens[first]).unwrap(),
            },
        )
    } else {
        None
    }
}

/// The imports among the first `count` lexemes.
pub open spec fn imports_in(tokens: Seq<Token>, count: nat) -> Seq<Link>
    decreases count,
{
    if count == 0 {
        Seq::empty()
    } else {
        let before = imports_in(tokens, (count - 1) as nat);
        if tokens[count - 1] == Token::Word("use"@) {
            match import_at(tokens, count as int) {
                Some(link) => before.push(link),
                None => before,
            }
        } else {
            before
        }
    }
}

/// The head of the first import with the given name, from `at` on.
pub open spec fn head_of(imports: Seq<Link>, name: Seq<char>, at: int) -> Option<Seq<char>>
    decreases imports.len() - at,
{
    if at >= imports.len() {
        None
    } else if imports[at].name == name {
        Some(imports[at].head)
    } else {
        head_of(imports, name, at + 1)
    }
}

/// Whether following imports from a name comes to an end within so many steps: at a name that is
/// not imported, or at an import that hides the module it is taken from.
pub open spec fn leads_out(imports: Seq<Link>, name: Seq<char>, steps: nat) -> bool
    decreases steps,
{
    match head_of(imports, name, 0) {
        None => true,
        Some(head) => head == name || (steps > 0 && leads_out(imports, head, (steps - 1) as nat)),
    }
}

/// The most imports that are followed one after another.
pub const MAX_CHAIN: usize = 1024;

/// The first component of the path that is called at `at`. A call of a single name is one of the
/// module's own procedures.
pub open spec fn call_head(tokens: Seq<Token>, at: int) -> Option<int> {
    let first = if at + 2 < tokens.len() && tokens[at + 2] is Separator {
        at + 3
    } else {
        at + 2
    };
    if starts_call(tokens, at) && is_component(tokens, first) && (first == at + 3 || (first + 1
        < tokens.len() && tokens[first + 1] is Separator)) {
        Some(first)
    } else {
        None
    }
}

/// Whether a call starts at `at`.
pub open spec fn starts_call(tokens: Seq<Token>, at: int) -> bool {
    &&& at + 1 < tokens.len()
    &&& tokens[at] == Token::Word("exec"@) || tokens[at] == Token::Word("call"@) || tokens[at]
        == Token::Word("procref"@)
    &&& tokens[at + 1] == Token::Sign('.')
}

/// Whether the call at `at`, if there is one, does not lead into a circle of imports.
pub open spec fn call_leads_out(tokens: Seq<Token>, imports: Seq<Link>, at: int) -> bool {
    match call_head(tokens, at) {
        Some(first) => leads_out(
            imports,
            component(tokens[first]).unwrap(),
            MAX_CHAIN as nat,
        ),
        None => true,
    }
}

/// Whether no call leads into a circle of imports.
pub open spec fn calls_lead_out(tokens: Seq<Token>) -> bool {
    forall|i: int|
        0 <= i < tokens.len() ==> #[trigger] call_leads_out(
            tokens,
            imports_in(tokens, tokens.len()),
            i,
        )
}

/// The most characters that a component of a path may have.
pub const MAX_COMPONENT: usize = 65533;

/// The most items that a module may have.
pub const MAX_ITEMS: usize = 65535;

/// Whether a quotation cannot be a name.
pub open spec fn is_phrase(text: Seq<char>) -> bool {
    exists|i: int| 0 <= i < text.len() && (is_white(#[trigger] text[i]) || text[i] == '\\')
}

/// Whether the lexeme at `at` is one that the parser is sure to take or to refuse: names are not too
/// long, no component of a path is empty or a separator, and numbers have digits.
pub open spec fn is_plain(tokens: Seq<Token>, at: int) -> bool {
    match tokens[at] {
        Token::Word(text) => text.len() <= MAX_COMPONENT,
        Token::Quoted(text) => if text.len() == 0 || text == "::"@ {
            !in_path(tokens, at)
        } else {
            text.len() <= MAX_COMPONENT || is_phrase(text)
        },
        Token::Number(valid) => valid,
        _ => true,
    }
}

/// Whether a path may go on or start at the lexeme at `at`.
pub open spec fn in_path(tokens: Seq<Token>, at: int) -> bool {
    ||| at > 0 && (tokens[at - 1] is Separator || tokens[at - 1] == Token::Sign('.') || tokens[at - 1]
        == Token::Word("use"@))
    ||| at + 1 < tokens.len() && tokens[at + 1] is Separator
}

/// Whether a word starts an item.
pub open spec fn starts_item(word: Seq<char>) -> bool {
    word == "proc"@ || word == "use"@ || word == "const"@ || word == "type"@ || word == "enum"@ || word
        == "begin"@ || word == "adv_map"@
}

/// Whether an item may start at the lexeme at `at`; variants of enumerations are items.
pub open spec fn may_start_item(tokens: Seq<Token>, at: int) -> bool {
    match tokens[at] {
        Token::Word(word) => starts_item(word) || (at > 0 && (tokens[at - 1] == Token::Sign('{')
            || tokens[at - 1] == Token::Sign(',')) && word.len() > 0 && (is_upper(word[0]) || word[0]
            == '_')),
        _ => false,
    }
}

/// How many items may start among the first `count` lexemes.
pub open spec fn item_count(tokens: Seq<Token>, count: nat) -> nat
    decreases count,
{
    if count == 0 {
        0
    } else {
        item_count(tokens, (count - 1) as nat) + if may_start_item(tokens, count - 1) {
            1nat
        } else {
            0nat
        }
    }
}

/// How far blocks, brackets and expressions may go.
pub const MAX_NESTED: usize = 256;

/// How deep a text is nested behind some of its lexemes.
pub struct Depth {
    /// How many blocks are open.
    pub blocks: nat,
    /// How many brackets are open.
    pub brackets: nat,
    /// How many operators stand behind the start of the last item.
    pub operators: nat,
}

/// One less, but not below zero.
pub open spec fn one_less(n: nat) -> nat {
    if n > 0 {
        (n - 1) as nat
    } else {
        0
    }
}

/// How the lexeme at `at` changes the depth. Words that stand in paths are names.
pub open spec fn deepened(depth: Depth, tokens: Seq<Token>, at: int) -> Depth {
    match tokens[at] {
        Token::Word(word) => if in_path(tokens, at) {
            depth
        } else if word == "end"@ {
            Depth { blocks: one_less(depth.blocks), ..depth }
        } else {
            Depth {
                blocks: if opens_block(word) {
                    depth.blocks + 1
                } else {
                    depth.blocks
                },
                operators: if starts_item(word) {
                    0
                } else {
                    depth.operators
                },
                ..depth
            }
        },
        Token::Sign(sign) => if sign == '(' || sign == '[' || sign == '{' || sign == '<' {
            Depth { brackets: depth.brackets + 1, ..depth }
        } else if sign == ')' || sign == ']' || sign == '}' || sign == '>' {
            Depth { brackets: one_less(depth.brackets), ..depth }
        } else if sign == '+' || sign == '-' || sign == '*' || sign == '/' {
            Depth { operators: depth.operators + 1, ..depth }
        } else {
            depth
        },
        _ => depth,
    }
}

/// Whether a word opens a block.
pub open spec fn opens_block(word: Seq<char>) -> bool {
    word == "proc"@ || word == "begin"@ || word == "if"@ || word == "while"@ || word == "repeat"@
}

/// How deep a text is nested behind its first `count` lexemes.
pub open spec fn depth_behind(tokens: Seq<Token>, count: nat) -> Depth
    decreases count,
{
    if count == 0 {
        Depth { blocks: 0, brackets: 0, operators: 0 }
    } else {
        deepened(depth_behind(tokens, (count - 1) as nat), tokens, count - 1)
    }
}

/// Whether a depth is not too much for a parser that calls itself.
pub open spec fn is_shallow(depth: Depth) -> bool {
    depth.blocks <= MAX_NESTED && depth.brackets <= MAX_NESTED && depth.operators <= MAX_NESTED
}

/// Whether the assembler's parser is called on a text with the given lexemes.
pub open spec fn are_parseable(tokens: Seq<Token>) -> bool {
    &&& forall|i: int| 0 <= i < tokens.len() ==> #[trigger] is_plain(tokens, i)
    &&& item_count(tokens, tokens.len()) <= MAX_ITEMS
    &&& forall|i: int| 0 <= i <= tokens.len() ==> is_shallow(#[trigger] depth_behind(tokens, i as nat))
    &&& calls_lead_out(tokens)
}

/// Whether the assembler's parser is called on a text.
pub open spec fn is_parseable(text: Seq<char>) -> bool {
    are_parseable(tokens_of(text))
}

/// The name of an import, and the first component of the path that it stands for, by the places of
/// their lexemes.
struct Places {
    name: usize,
    head: usize,
}

spec fn link_at(tokens: Seq<Token>, places: Places) -> Link {
    Link {
        name: component(tokens[places.name as int]).unwrap(),
        head: component(tokens[places.head as int]).unwrap(),
    }
}

spec fn links(tokens: Seq<Token>, imports: Seq<Places>) -> Seq<Link> {
    Seq::new(imports.len(), |i: int| link_at(tokens, imports[i]))
}

spec fn are_components(tokens: Seq<Token>, imports: Seq<Places>) -> bool {
    forall|i: int|
        0 <= i < imports.len() ==> is_component(tokens, (#[trigger] imports[i]).name as int)
            && is_component(tokens, imports[i].head as int)
}

/// Whether the lexeme at `at` is a given word.
fn is_word(lexemes: &Vec<Lexeme>, at: usize, word: &str) -> (result: bool)
    requires
        at < lexemes.len(),
    ensures
        result == (token_views(lexemes@)[at as int] == Token::Word(word@)),
{
    match &lexemes[at] {
        Lexeme::Word(text) => same_text(text, word),
        _ => false,
    }
}

/// Whether the lexeme at `at` is a given sign.
fn is_sign(lexemes: &Vec<Lexeme>, at: usize, sign: char) -> (result: bool)
    requires
        at < lexemes.len(),
    ensures
        result == (token_views(lexemes@)[at as int] == Token::Sign(sign)),
{
    match &lexemes[at] {
        Lexeme::Sign(ch) => *ch == sign,
        _ => false,
    }
}

/// Whether the lexeme at `at` can be a component of a path.
fn component_stands(lexemes: &Vec<Lexeme>, at: usize) -> (result: bool)
    ensures
        result == is_component(token_views(lexemes@), at as int),
{
    at < lexemes.len() && match &lexemes[at] {
        Lexeme::Word(_) | Lexeme::Quoted(_) => true,
        _ => false,
    }
}

/// Whether two colons stand at `at`.
fn separator_stands(lexemes: &Vec<Lexeme>, at: usize) -> (result: bool)
    ensures
        result == (at < lexemes.len() && token_views(lexemes@)[at as int] is Separator),
{
    at < lexemes.len() && match &lexemes[at] {
        Lexeme::Separator => true,
        _ => false,
    }
}

/// Whether an arrow stands at `at`.
fn arrow_stands(lexemes: &Vec<Lexeme>, at: usize) -> (result: bool)
    ensures
        result == (at < lexemes.len() && token_views(lexemes@)[at as int] is Arrow),
{
    at < lexemes.len() && match &lexemes[at] {
        Lexeme::Arrow => true,
        _ => false,
    }
}

/// The import whose target starts at `at`.
fn find_import(lexemes: &Vec<Lexeme>, at: usize) -> (import: Option<Places>)
    requires
        at <= lexemes.len(),
    ensures
        match import {
            Some(places) => {
                &&& is_component(token_views(lexemes@), places.name as int)
                &&& is_component(token_views(lexemes@), places.head as int)
                &&& import_at(token_views(lexemes@), at as int) == Some(
                    link_at(token_views(lexemes@), places),
                )
            },
            None => import_at(token_views(lexemes@), at as int) is None,
        },
{
    let ghost tokens = token_views(lexemes@);
    let first: usize = if separator_stands(lexemes, at) {
        at + 1
    } else {
        at
    };
    if !component_stands(lexemes, first) {
        return None;
    }
    let mut last: usize = first;
    while lexemes.len() - last > 2 && separator_stands(lexemes, last + 1) && component_stands(
        lexemes,
        last + 2,
    )
        invariant
            tokens == token_views(lexemes@),
            first <= last < lexemes.len(),
            is_component(tokens, last as int),
            path_last(tokens, first as int) == path_last(tokens, last as int),
        decreases lexemes.len() - last,
    {
        last = last + 2;
    }
    if lexemes.len() - last > 2 && arrow_stands(lexemes, last + 1) && component_stands(
        lexemes,
        last + 2,
    ) {
        Some(Places { name: last + 2, head: first })
    } else {
        Some(Places { name: last, head: first })
    }
}

/// The imports of a text with the given lexemes.
fn find_imports(lexemes: &Vec<Lexeme>) -> (imports: Vec<Places>)
    ensures
        are_components(token_views(lexemes@), imports@),
        links(token_views(lexemes@), imports@) == imports_in(
            token_views(lexemes@),
            lexemes@.len(),
        ),
{
    let ghost tokens = token_views(lexemes@);
    let mut imports: Vec<Places> = Vec::new();
    let mut i: usize = 0;
    assert(links(tokens, imports@) =~= Seq::<Link>::empty());
    while i < lexemes.len()
        invariant
            i <= lexemes.len(),
            tokens == token_views(lexemes@),
            are_components(tokens, imports@),
            links(tokens, imports@) == imports_in(tokens, i as nat),
        decreases lexemes.len() - i,
    {
        let ghost before = links(tokens, imports@);
        if is_word(lexemes, i, "use") {
            if let Some(places) = find_import(lexemes, i + 1) {
                let ghost link = link_at(tokens, places);
                imports.push(places);
                assert(links(tokens, imports@) =~= before.push(link));
            }
        }
        i = i + 1;
    }
    imports
}

/// Whether two lexemes are components with the same text.
fn same_component(lexemes: &Vec<Lexeme>, a: usize, b: usize) -> (same: bool)
    requires
        is_component(token_views(lexemes@), a as int),
        is_component(token_views(lexemes@), b as int),
    ensures
        same == (component(token_views(lexemes@)[a as int]) == component(
            token_views(lexemes@)[b as int],
        )),
{
    let ghost tokens = token_views(lexemes@);
    assert(tokens[a as int] == lexemes@[a as int]@ && tokens[b as int] == lexemes@[b as int]@);
    match (&lexemes[a], &lexemes[b]) {
        (Lexeme::Word(left), Lexeme::Word(right)) => same_text(left, right),
        (Lexeme::Word(left), Lexeme::Quoted(right)) => same_text(left, right),
        (Lexeme::Quoted(left), Lexeme::Word(right)) => same_text(left, right),
        (Lexeme::Quoted(left), Lexeme::Quoted(right)) => same_text(left, right),
        _ => false,
    }
}

/// The head of the first import with the name that stands at `name`.
fn find_head(lexemes: &Vec<Lexeme>, imports: &Vec<Places>, name: usize) -> (head: Option<usize>)
    requires
        are_components(token_views(lexemes@), imports@),
        is_component(token_views(lexemes@), name as int),
    ensures
        ({
            let tokens = token_views(lexemes@);
            let wanted = component(tokens[name as int]).unwrap();
            match head {
                Some(head) => is_component(tokens, head as int) && head_of(
                    links(tokens, imports@),
                    wanted,
                    0,
                ) == component(tokens[head as int]),
                None => head_of(links(tokens, imports@), wanted, 0) is None,
            }
        }),
{
    let ghost tokens = token_views(lexemes@);
    let ghost all = links(tokens, imports@);
    let ghost wanted = component(tokens[name as int]).unwrap();
    let mut i: usize = 0;
    while i < imports.len()
        invariant
            i <= imports.len(),
            tokens == token_views(lexemes@),
            all == links(tokens, imports@),
            wanted == component(tokens[name as int]).unwrap(),
            are_components(tokens, imports@),
            is_component(tokens, name as int),
            head_of(all, wanted, 0) == head_of(all, wanted, i as int),
        decreases imports.len() - i,
    {
        assert(all[i as int] == link_at(tokens, imports@[i as int]));
        if same_component(lexemes, imports[i].name, name) {
            return Some(imports[i].head);
        }
        i = i + 1;
    }
    None
}

/// Whether following imports from a name comes to an end.
fn comes_to_an_end(lexemes: &Vec<Lexeme>, imports: &Vec<Places>, name: usize) -> (result: bool)
    requires
        are_components(token_views(lexemes@), imports@),
        is_component(token_views(lexemes@), name as int),
    ensures
        ({
            let tokens = token_views(lexemes@);
            result == leads_out(
                links(tokens, imports@),
                component(tokens[name as int]).unwrap(),
                MAX_CHAIN as nat,
            )
        }),
{
    let ghost tokens = token_views(lexemes@);
    let ghost all = links(tokens, imports@);
    let ghost start = component(tokens[name as int]).unwrap();
    let mut current: usize = name;
    let mut steps: usize = MAX_CHAIN;
    loop
        invariant
            tokens == token_views(lexemes@),
            all == links(tokens, imports@),
            are_components(tokens, imports@),
            is_component(tokens, current as int),
            leads_out(all, start, MAX_CHAIN as nat) == leads_out(
                all,
                component(tokens[current as int]).unwrap(),
                steps as nat,
            ),
            start == component(tokens[name as int]).unwrap(),
        decreases steps,
    {
        match find_head(lexemes, imports, current) {
            None => return true,
            Some(head) => {
                if same_component(lexemes, head, current) {
                    return true;
                }
                if steps == 0 {
                    return false;
                }
                current = head;
                steps = steps - 1;
            },
        }
    }
}

/// The first component of the path that is called at `at`.
fn find_call(lexemes: &Vec<Lexeme>, at: usize) -> (first: Option<usize>)
    requires
        at < lexemes.len(),
    ensures
        match first {
            Some(first) => call_head(token_views(lexemes@), at as int) == Some(first as int)
                && is_component(token_views(lexemes@), first as int),
            None => call_head(token_views(lexemes@), at as int) is None,
        },
{
    if lexemes.len() - at < 2 {
        return None;
    }
    if !(is_word(lexemes, at, "exec") || is_word(lexemes, at, "call") || is_word(
        lexemes,
        at,
        "procref",
    )) {
        return None;
    }
    if !is_sign(lexemes, at + 1, '.') {
        return None;
    }
    let rooted = separator_stands(lexemes, at + 2);
    let first: usize = if rooted {
        at + 3
    } else {
        at + 2
    };
    if component_stands(lexemes, first) && (rooted || separator_stands(lexemes, first + 1)) {
        Some(first)
    } else {
        None
    }
}

/// Whether no call leads into a circle of imports.
fn no_call_circles(lexemes: &Vec<Lexeme>) -> (result: bool)
    ensures
        result == calls_lead_out(token_views(lexemes@)),
{
    let ghost tokens = token_views(lexemes@);
    let imports = find_imports(lexemes);
    let ghost all = links(tokens, imports@);
    let mut i: usize = 0;
    while i < lexemes.len()
        invariant
            i <= lexemes.len(),
            tokens == token_views(lexemes@),
            all == links(tokens, imports@),
            all == imports_in(tokens, tokens.len()),
            are_components(tokens, imports@),
            forall|k: int| 0 <= k < i ==> #[trigger] call_leads_out(tokens, all, k),
        decreases lexemes.len() - i,
    {
        if let Some(first) = find_call(lexemes, i) {
            if !comes_to_an_end(lexemes, &imports, first) {
                assert(!call_leads_out(tokens, all, i as int));
                return false;
            }
        }
        assert(call_leads_out(tokens, all, i as int));
        i = i + 1;
    }
    true
}

/// Whether a quotation cannot be a name.
fn reads_as_phrase(text: &str) -> (result: bool)
    ensures
        result == is_phrase(text@),
{
    let chars = chars_of(text);
    let mut i: usize = 0;
    while i < chars.len()
        invariant
            i <= chars.len(),
            chars@ == text@,
            forall|k: int| 0 <= k < i ==> !is_white(#[trigger] text@[k]) && text@[k] != '\\',
        decreases chars.len() - i,
    {
        if is_whitespace(chars[i]) || chars[i] == '\\' {
            assert(is_white(text@[i as int]) || text@[i as int] == '\\');
            return true;
        }
        i = i + 1;
    }
    false
}

/// Whether a path may go on or start at the lexeme at `at`.
fn stands_in_path(lexemes: &Vec<Lexeme>, at: usize) -> (result: bool)
    requires
        at < lexemes.len(),
    ensures
        result == in_path(token_views(lexemes@), at as int),
{
    (at > 0 && (separator_stands(lexemes, at - 1) || is_sign(lexemes, at - 1, '.') || is_word(
        lexemes,
        at - 1,
        "use",
    ))) || separator_stands(lexemes, at + 1)
}

/// Whether the parser is sure to take or to refuse the lexeme at `at`.
fn reads_plainly(lexemes: &Vec<Lexeme>, at: usize) -> (result: bool)
    requires
        at < lexemes.len(),
    ensures
        result == is_plain(token_views(lexemes@), at as int),
{
    match &lexemes[at] {
        Lexeme::Word(text) => text.as_str().unicode_len() <= MAX_COMPONENT,
        Lexeme::Quoted(text) => {
            let size = text.as_str().unicode_len();
            if size == 0 || same_text(text, "::") {
                !stands_in_path(lexemes, at)
            } else {
                size <= MAX_COMPONENT || reads_as_phrase(text)
            }
        },
        Lexeme::Number(valid) => *valid,
        _ => true,
    }
}

/// Whether a word starts an item.
fn is_item_word(word: &str) -> (result: bool)
    ensures
        result == starts_item(word@),
{
    same_text(word, "proc") || same_text(word, "use") || same_text(word, "const") || same_text(
        word,
        "type",
    ) || same_text(word, "enum") || same_text(word, "begin") || same_text(word, "adv_map")
}

/// Whether an item may start at the lexeme at `at`.
fn item_may_start(lexemes: &Vec<Lexeme>, at: usize) -> (result: bool)
    requires
        at < lexemes.len(),
    ensures
        result == may_start_item(token_views(lexemes@), at as int),
{
    match &lexemes[at] {
        Lexeme::Word(word) => {
            if is_item_word(word) {
                return true;
            }
            if at == 0 || !(is_sign(lexemes, at - 1, '{') || is_sign(lexemes, at - 1, ',')) {
                return false;
            }
            if word.as_str().unicode_len() == 0 {
                return false;
            }
            let first = word.as_str().get_char(0);
            ('A' <= first && first <= 'Z') || first == '_'
        },
        _ => false,
    }
}

/// How deep a text is nested.
struct Level {
    blocks: usize,
    brackets: usize,
    operators: usize,
}

impl Level {
    spec fn depth(self) -> Depth {
        Depth {
            blocks: self.blocks as nat,
            brackets: self.brackets as nat,
            operators: self.operators as nat,
        }
    }
}

/// How the lexeme at `at` changes the depth.
fn deepen(level: Level, lexemes: &Vec<Lexeme>, at: usize) -> (next: Level)
    requires
        at < lexemes.len(),
        is_shallow(level.depth()),
    ensures
        next.depth() == deepened(level.depth(), token_views(lexemes@), at as int),
{
    let mut next = level;
    assert(token_views(lexemes@)[at as int] == lexemes@[at as int]@);
    match &lexemes[at] {
        Lexeme::Word(word) => {
            if stands_in_path(lexemes, at) {
                return next;
            }
            if same_text(word, "end") {
                if next.blocks > 0 {
                    next.blocks = next.blocks - 1;
                }
                return next;
            }
            if same_text(word, "proc") || same_text(word, "begin") || same_text(word, "if")
                || same_text(word, "while") || same_text(word, "repeat") {
                next.blocks = next.blocks + 1;
            }
            if is_item_word(word) {
                next.operators = 0;
            }
        },
        Lexeme::Sign(sign) => {
            let sign = *sign;
            if sign == '(' || sign == '[' || sign == '{' || sign == '<' {
                next.brackets = next.brackets + 1;
            } else if sign == ')' || sign == ']' || sign == '}' || sign == '>' {
                if next.brackets > 0 {
                    next.brackets = next.brackets - 1;
                }
            } else if sign == '+' || sign == '-' || sign == '*' || sign == '/' {
                next.operators = next.operators + 1;
            }
        },
        _ => {},
    }
    next
}

/// Whether a text is nested not too deep for a parser that calls itself.
fn stays_shallow(lexemes: &Vec<Lexeme>) -> (result: bool)
    ensures
        result == (forall|i: int|
            0 <= i <= lexemes@.len() ==> is_shallow(
                #[trigger] depth_behind(token_views(lexemes@), i as nat),
            )),
{
    let ghost tokens = token_views(lexemes@);
    let mut level = Level { blocks: 0, brackets: 0, operators: 0 };
    let mut i: usize = 0;
    while i < lexemes.len()
        invariant
            i <= lexemes.len(),
            tokens == token_views(lexemes@),
            level.depth() == depth_behind(tokens, i as nat),
            is_shallow(level.depth()),
            forall|k: int| 0 <= k <= i ==> is_shallow(#[trigger] depth_behind(tokens, k as nat)),
        decreases lexemes.len() - i,
    {
        level = deepen(level, lexemes, i);
        i = i + 1;
        if level.blocks > MAX_NESTED || level.brackets > MAX_NESTED || level.operators
            > MAX_NESTED {
            let ghost k = i as int;
            assert(0 <= k <= lexemes@.len() && !is_shallow(depth_behind(tokens, k as nat)));
            return false;
        }
    }
    true
}

/// Whether the assembler's parser is called on a text.
pub fn can_be_read(text: &str) -> (result: bool)
    ensures
        result == is_parseable(text@),
{
    let lexemes = lexemes_of(text);
    let ghost tokens = token_views(lexemes@);
    let mut items: usize = 0;
    let mut i: usize = 0;
    while i < lexemes.len()
        invariant
            i <= lexemes.len(),
            tokens == token_views(lexemes@),
            tokens == tokens_of(text@),
            items <= i,
            items == item_count(tokens, i as nat),
            forall|k: int| 0 <= k < i ==> #[trigger] is_plain(tokens, k),
        decreases lexemes.len() - i,
    {
        if !reads_plainly(&lexemes, i) {
            assert(!is_plain(tokens, i as int));
            return false;
        }
        if item_may_start(&lexemes, i) {
            items = items + 1;
        }
        i = i + 1;
    }
    items <= MAX_ITEMS && stays_shallow(&lexemes) && no_call_circles(&lexemes)
}

} // verus!
