//! Semantic tokens.
use vstd::prelude::*;
use crate::order::{arrange, in_order, key_le, key_views, law_stable_order, sort_by_keys,
    stable_order};
use crate::parsed::{ParsedFile, ParsedText};
use crate::position::{line_end, line_starts, offset_at, offset_to_position, position_at,
    position_to_offset, Range};
use crate::syntax::{child_by_field, ints, walk_order, Stop};
use crate::text::same_text;
use crate::words::texts;

verus! {

pub const TOKEN_TYPE_NAMESPACE: u32 = 0;

pub const TOKEN_TYPE_TYPE: u32 = 1;

pub const TOKEN_TYPE_FUNCTION: u32 = 2;

pub const TOKEN_TYPE_KEYWORD: u32 = 3;

pub const TOKEN_TYPE_COMMENT: u32 = 4;

pub const TOKEN_TYPE_STRING: u32 = 5;

pub const TOKEN_TYPE_NUMBER: u32 = 6;

pub const TOKEN_TYPE_PARAMETER: u32 = 7;

pub const TOKEN_TYPE_PROPERTY: u32 = 8;

pub const TOKEN_TYPE_VARIABLE: u32 = 9;

pub const TOKEN_MODIFIER_DECLARATION: u32 = 1;

pub const TOKEN_MODIFIER_READONLY: u32 = 2;

pub const TOKEN_MODIFIER_DOCUMENTATION: u32 = 4;

/// The names of token types and of token modifiers.
pub struct SemanticTokensLegend {
    pub token_types: Vec<String>,
    pub token_modifiers: Vec<String>,
}

/// The name of each token type, at the place of its number.
pub open spec fn type_names() -> Seq<Seq<char>> {
    seq![
        "namespace"@,
        "type"@,
        "function"@,
        "keyword"@,
        "comment"@,
        "string"@,
        "number"@,
        "parameter"@,
        "property"@,
        "variable"@,
    ]
}

/// The name of each token modifier, at the place of its bit.
pub open spec fn modifier_names() -> Seq<Seq<char>> {
    seq!["declaration"@, "readonly"@, "documentation"@]
}

/// The names of token types and of token modifiers, in the order of their numbers and bits.
pub fn semantic_token_legend() -> (legend: SemanticTokensLegend)
    ensures
        texts(legend.token_types@) == type_names(),
        texts(legend.token_modifiers@) == modifier_names(),
{
    let token_types = vec![
        "namespace".to_owned(),
        "type".to_owned(),
        "function".to_owned(),
        "keyword".to_owned(),
        "comment".to_owned(),
        "string".to_owned(),
        "number".to_owned(),
        "parameter".to_owned(),
        "property".to_owned(),
        "variable".to_owned(),
    ];
    let token_modifiers = vec![
        "declaration".to_owned(),
        "readonly".to_owned(),
        "documentation".to_owned(),
    ];
    assert(texts(token_types@) =~= type_names());
    assert(texts(token_modifiers@) =~= modifier_names());
    SemanticTokensLegend { token_types, token_modifiers }
}

/// Every class that a node of a syntax tree is given has a name.
pub proof fn law_classes_have_names(kind: Seq<char>)
    ensures
        match kind_class(kind) {
            Some(class) => class.token_type < type_names().len(),
            None => true,
        },
        match name_class(kind) {
            Some(class) => class.token_type < type_names().len(),
            None => true,
        },
{
}

/// A token with its place in the document.
#[derive(Debug, Clone, Copy, PartialEq, Eq, Structural)]
pub struct AbsoluteSemanticToken {
    pub line: u32,
    pub start: u32,
    pub length: u32,
    pub token_type: u32,
    pub token_modifiers_bitset: u32,
}

/// A token with its place relative to the token before it.
#[derive(Debug, Clone, Copy, PartialEq, Eq, Structural)]
pub struct SemanticToken {
    pub delta_line: u32,
    pub delta_start: u32,
    pub length: u32,
    pub token_type: u32,
    pub token_modifiers_bitset: u32,
}

/// A token and its rank: of two tokens in the same place the one with the lower rank stays.
#[derive(Debug, Clone, Copy, PartialEq, Eq, Structural)]
pub struct RankedToken {
    pub priority: u8,
    pub token: AbsoluteSemanticToken,
}

/// Whether two tokens stand in the same place.
pub open spec fn same_place(a: AbsoluteSemanticToken, b: AbsoluteSemanticToken) -> bool {
    a.line == b.line && a.start == b.start && a.length == b.length
}

/// The first token from `at` on in the place of `token`.
pub open spec fn place_of(tokens: Seq<RankedToken>, token: AbsoluteSemanticToken, at: int) -> Option<
    int,
>
    decreases tokens.len() - at,
{
    if at >= tokens.len() {
        None
    } else if same_place(tokens[at].token, token) {
        Some(at)
    } else {
        place_of(tokens, token, at + 1)
    }
}

/// Adds a token: it replaces one of higher rank in its place and yields to one of the same or a
/// lower rank.
pub open spec fn with_token(
    tokens: Seq<RankedToken>,
    token: AbsoluteSemanticToken,
    priority: u8,
) -> Seq<RankedToken> {
    match place_of(tokens, token, 0) {
        Some(at) => if priority < tokens[at].priority {
            tokens.update(at, RankedToken { priority, token })
        } else {
            tokens
        },
        None => tokens.push(RankedToken { priority, token }),
    }
}

/// The type and the modifiers of a token, and its rank.
#[derive(Debug, Clone, Copy, PartialEq, Eq, Structural)]
pub struct TokenClass {
    pub token_type: u32,
    pub token_modifiers_bitset: u32,
    pub priority: u8,
}

/// The difference of two numbers, or zero.
pub open spec fn difference(a: u32, b: u32) -> u32 {
    if a > b {
        (a - b) as u32
    } else {
        0
    }
}

/// The part on `line` of the text from `start` to `end`, as a token.
pub open spec fn line_token(
    bytes: Seq<u8>,
    start: int,
    end: int,
    line: u32,
    class: TokenClass,
) -> Option<AbsoluteSemanticToken> {
    let line_start = line_starts(bytes)[line as int] as int;
    let first = if start > line_start {
        start
    } else {
        line_start
    };
    let last = if end < line_end(bytes, line as int) {
        end
    } else {
        line_end(bytes, line as int)
    };
    let from = position_at(bytes, first);
    let length = difference(position_at(bytes, last).character, from.character);
    if last <= first || length == 0 {
        None
    } else {
        Some(
            AbsoluteSemanticToken {
                line,
                start: from.character,
                length,
                token_type: class.token_type,
                token_modifiers_bitset: class.token_modifiers_bitset,
            },
        )
    }
}

/// Adds a token for each of the lines from `line` to `last_line` that the text from `start` to
/// `end` has a part on.
pub open spec fn with_lines(
    bytes: Seq<u8>,
    tokens: Seq<RankedToken>,
    start: int,
    end: int,
    line: int,
    last_line: int,
    class: TokenClass,
) -> Seq<RankedToken>
    decreases last_line - line,
{
    if line > last_line || line >= line_starts(bytes).len() {
        tokens
    } else {
        let next = match line_token(bytes, start, end, line as u32, class) {
            Some(token) => with_token(tokens, token, class.priority),
            None => tokens,
        };
        if line == last_line {
            next
        } else {
            with_lines(bytes, next, start, end, line + 1, last_line, class)
        }
    }
}

/// Adds tokens for a range; a range that has no place in the text, or is empty, has none.
pub open spec fn with_range(
    bytes: Seq<u8>,
    tokens: Seq<RankedToken>,
    range: Range,
    class: TokenClass,
) -> Seq<RankedToken> {
    match (offset_at(bytes, range.start), offset_at(bytes, range.end)) {
        (Some(start), Some(end)) => if end > start {
            with_lines(
                bytes,
                tokens,
                start,
                end,
                range.start.line as int,
                range.end.line as int,
                class,
            )
        } else {
            tokens
        },
        _ => tokens,
    }
}

/// Adds a token: it replaces one of higher rank in its place and yields to one of the same or a
/// lower rank.
pub fn insert_semantic_token(
    tokens: &mut Vec<RankedToken>,
    token: AbsoluteSemanticToken,
    priority: u8,
)
    ensures
        final(tokens)@ == with_token(old(tokens)@, token, priority),
{
    let mut i: usize = 0;
    while i < tokens.len()
        invariant
            i <= tokens.len(),
            tokens@ == old(tokens)@,
            place_of(tokens@, token, 0) == place_of(tokens@, token, i as int),
        decreases tokens.len() - i,
    {
        let other = tokens[i];
        if other.token.line == token.line && other.token.start == token.start && other.token.length
            == token.length {
            if priority < other.priority {
                tokens.set(i, RankedToken { priority, token });
            }
            return;
        }
        i = i + 1;
    }
    tokens.push(RankedToken { priority, token });
}

/// Adds tokens for a range of a parsed file.
pub fn push_semantic_token_range(
    parsed: &ParsedFile,
    tokens: &mut Vec<RankedToken>,
    range: Range,
    class: TokenClass,
)
    requires
        parsed.well_formed(),
    ensures
        final(tokens)@ == with_range(parsed@.bytes(), old(tokens)@, range, class),
{
    let ghost bytes = parsed@.bytes();
    let size = parsed.text.as_str().as_bytes().len();
    let start = match position_to_offset(&parsed.text, &parsed.line_offsets, range.start) {
        Ok(start) => start,
        Err(_) => return,
    };
    let end = match position_to_offset(&parsed.text, &parsed.line_offsets, range.end) {
        Ok(end) => end,
        Err(_) => return,
    };
    if end <= start {
        return;
    }
    let mut line: u32 = range.start.line;
    while line <= range.end.line && (line as usize) < parsed.line_offsets.len()
        invariant_except_break
            with_lines(
                bytes,
                old(tokens)@,
                start as int,
                end as int,
                range.start.line as int,
                range.end.line as int,
                class,
            ) == with_lines(
                bytes,
                tokens@,
                start as int,
                end as int,
                line as int,
                range.end.line as int,
                class,
            ),
        invariant
            parsed.well_formed(),
            bytes == parsed@.bytes(),
            size == bytes.len(),
        ensures
            tokens@ == with_lines(
                bytes,
                old(tokens)@,
                start as int,
                end as int,
                range.start.line as int,
                range.end.line as int,
                class,
            ),
        decreases range.end.line - line,
    {
        let line_start = parsed.line_offsets[line as usize];
        let line_end = if (line as usize) < parsed.line_offsets.len() - 1 {
            parsed.line_offsets[line as usize + 1]
        } else {
            size
        };
        let first = if start > line_start {
            start
        } else {
            line_start
        };
        let last = if end < line_end {
            end
        } else {
            line_end
        };
        if last > first {
            let from = offset_to_position(&parsed.text, &parsed.line_offsets, first);
            let to = offset_to_position(&parsed.text, &parsed.line_offsets, last);
            if to.character > from.character {
                let token = AbsoluteSemanticToken {
                    line,
                    start: from.character,
                    length: to.character - from.character,
                    token_type: class.token_type,
                    token_modifiers_bitset: class.token_modifiers_bitset,
                };
                insert_semantic_token(tokens, token, class.priority);
            }
        }
        if line == range.end.line {
            break;
        }
        line = line + 1;
    }
}

/// The class of a node's token by the node's kind.
pub open spec fn kind_class(kind: Seq<char>) -> Option<TokenClass> {
    if kind == "comment"@ {
        Some(
            TokenClass { token_type: TOKEN_TYPE_COMMENT, token_modifiers_bitset: 0, priority: 4 },
        )
    } else if kind == "doc_comment"@ {
        Some(
            TokenClass {
                token_type: TOKEN_TYPE_COMMENT,
                token_modifiers_bitset: TOKEN_MODIFIER_DOCUMENTATION,
                priority: 4,
            },
        )
    } else if kind == "string"@ || kind == "quoted_ident"@ {
        Some(TokenClass { token_type: TOKEN_TYPE_STRING, token_modifiers_bitset: 0, priority: 4 })
    } else if kind == "integer"@ || kind == "decimal"@ || kind == "hex"@ || kind == "hex_word"@ || kind
        == "binary"@ || kind == "word"@ {
        Some(TokenClass { token_type: TOKEN_TYPE_NUMBER, token_modifiers_bitset: 0, priority: 4 })
    } else if kind == "visibility"@ {
        Some(
            TokenClass { token_type: TOKEN_TYPE_KEYWORD, token_modifiers_bitset: 0, priority: 4 },
        )
    } else if kind == "primitive_type"@ || kind == "int_type"@ || kind == "address_space"@ {
        Some(TokenClass { token_type: TOKEN_TYPE_TYPE, token_modifiers_bitset: 0, priority: 4 })
    } else {
        None
    }
}

/// The class of the token for the name of a node, by the node's kind.
pub open spec fn name_class(kind: Seq<char>) -> Option<TokenClass> {
    if kind == "function_param"@ || kind == "function_result"@ {
        Some(
            TokenClass {
                token_type: TOKEN_TYPE_PARAMETER,
                token_modifiers_bitset: TOKEN_MODIFIER_DECLARATION,
                priority: 3,
            },
        )
    } else if kind == "struct_field"@ || kind == "meta_key_value"@ {
        Some(
            TokenClass {
                token_type: TOKEN_TYPE_PROPERTY,
                token_modifiers_bitset: TOKEN_MODIFIER_DECLARATION,
                priority: 3,
            },
        )
    } else {
        None
    }
}

/// Adds the tokens of one node.
pub open spec fn with_node(parsed: ParsedText, tokens: Seq<RankedToken>, node: int) -> Seq<
    RankedToken,
> {
    let kind = parsed.rows[node].kind;
    match kind_class(kind) {
        Some(class) => with_range(parsed.bytes(), tokens, parsed.node_range(node), class),
        None => match (name_class(kind), child_by_field(parsed.rows, node, "name"@)) {
            (Some(class), Some(name)) => with_range(
                parsed.bytes(),
                tokens,
                parsed.node_range(name),
                class,
            ),
            _ => tokens,
        },
    }
}

/// Adds the tokens of several nodes, one after another.
pub open spec fn with_nodes(parsed: ParsedText, tokens: Seq<RankedToken>, nodes: Seq<int>) -> Seq<
    RankedToken,
>
    decreases nodes.len(),
{
    if nodes.len() == 0 {
        tokens
    } else {
        with_node(parsed, with_nodes(parsed, tokens, nodes.drop_last()), nodes.last())
    }
}

/// The tokens that the syntax alone gives.
pub open spec fn syntax_tokens(parsed: ParsedText) -> Seq<RankedToken> {
    with_nodes(parsed, Seq::empty(), walk_order(parsed.rows, 0, Stop::AtComments))
}

fn class_of_kind(kind: &str) -> (class: Option<TokenClass>)
    ensures
        class == kind_class(kind@),
{
    if same_text(kind, "comment") {
        Some(
            TokenClass { token_type: TOKEN_TYPE_COMMENT, token_modifiers_bitset: 0, priority: 4 },
        )
    } else if same_text(kind, "doc_comment") {
        Some(
            TokenClass {
                token_type: TOKEN_TYPE_COMMENT,
                token_modifiers_bitset: TOKEN_MODIFIER_DOCUMENTATION,
                priority: 4,
            },
        )
    } else if same_text(kind, "string") || same_text(kind, "quoted_ident") {
        Some(TokenClass { token_type: TOKEN_TYPE_STRING, token_modifiers_bitset: 0, priority: 4 })
    } else if same_text(kind, "integer") || same_text(kind, "decimal") || same_text(kind, "hex")
        || same_text(kind, "hex_word") || same_text(kind, "binary") || same_text(kind, "word") {
        Some(TokenClass { token_type: TOKEN_TYPE_NUMBER, token_modifiers_bitset: 0, priority: 4 })
    } else if same_text(kind, "visibility") {
        Some(
            TokenClass { token_type: TOKEN_TYPE_KEYWORD, token_modifiers_bitset: 0, priority: 4 },
        )
    } else if same_text(kind, "primitive_type") || same_text(kind, "int_type") || same_text(
        kind,
        "address_space",
    ) {
        Some(TokenClass { token_type: TOKEN_TYPE_TYPE, token_modifiers_bitset: 0, priority: 4 })
    } else {
        None
    }
}

fn class_of_name(kind: &str) -> (class: Option<TokenClass>)
    ensures
        class == name_class(kind@),
{
    if same_text(kind, "function_param") || same_text(kind, "function_result") {
        Some(
            TokenClass {
                token_type: TOKEN_TYPE_PARAMETER,
                token_modifiers_bitset: TOKEN_MODIFIER_DECLARATION,
                priority: 3,
            },
        )
    } else if same_text(kind, "struct_field") || same_text(kind, "meta_key_value") {
        Some(
            TokenClass {
                token_type: TOKEN_TYPE_PROPERTY,
                token_modifiers_bitset: TOKEN_MODIFIER_DECLARATION,
                priority: 3,
            },
        )
    } else {
        None
    }
}

/// Collects the tokens that the syntax alone gives.
pub fn collect_syntax_semantic_tokens(parsed: &ParsedFile) -> (tokens: Vec<RankedToken>)
    requires
        parsed.well_formed(),
    ensures
        tokens@ == syntax_tokens(parsed@),
{
    let mut tokens: Vec<RankedToken> = Vec::new();
    let visited = parsed.tree.walk(0, Stop::AtComments);
    let ghost order = ints(visited@);
    let mut i: usize = 0;
    assert(order.take(0) =~= Seq::<int>::empty());
    while i < visited.len()
        invariant
            i <= visited.len(),
            parsed.well_formed(),
            order == ints(visited@),
            forall|k: int|
                0 <= k < visited@.len() ==> 0 <= #[trigger] visited@[k] < parsed@.rows.len(),
            tokens@ == with_nodes(parsed@, Seq::empty(), order.take(i as int)),
        decreases visited.len() - i,
    {
        let node = visited[i];
        let kind = &parsed.tree.rows[node].kind;
        proof {
            assert(parsed@.rows[node as int].kind == kind@);
            assert(order.take(i + 1).drop_last() =~= order.take(i as int));
            assert(order.take(i + 1).last() == node as int);
        }
        if let Some(class) = class_of_kind(kind) {
            push_semantic_token_range(parsed, &mut tokens, parsed.node_range(node), class);
        } else if let Some(class) = class_of_name(kind) {
            if let Some(name) = parsed.tree.child_with_field(node, "name") {
                push_semantic_token_range(parsed, &mut tokens, parsed.node_range(name), class);
            }
        }
        i = i + 1;
    }
    assert(order.take(i as int) =~= order);
    tokens
}

/// The sorting keys of tokens.
pub open spec fn token_keys(tokens: Seq<AbsoluteSemanticToken>) -> Seq<Seq<u64>> {
    Seq::new(
        tokens.len(),
        |i: int|
            seq![
                tokens[i].line as u64,
                tokens[i].start as u64,
                tokens[i].length as u64,
                tokens[i].token_type as u64,
            ],
    )
}

/// Tokens in the order of their places.
pub open spec fn sorted_tokens(tokens: Seq<AbsoluteSemanticToken>) -> Seq<AbsoluteSemanticToken> {
    arrange(tokens, stable_order(token_keys(tokens)))
}

/// The token at `i`, relative to the one before it: the lines between them, and the columns where
/// they stand on one line. The first one is relative to the start of the document.
pub open spec fn relative_token(tokens: Seq<AbsoluteSemanticToken>, i: int) -> SemanticToken {
    let token = tokens[i];
    let delta_line = if i == 0 {
        token.line
    } else {
        difference(token.line, tokens[i - 1].line)
    };
    SemanticToken {
        delta_line,
        delta_start: if i == 0 || delta_line > 0 {
            token.start
        } else {
            difference(token.start, tokens[i - 1].start)
        },
        length: token.length,
        token_type: token.token_type,
        token_modifiers_bitset: token.token_modifiers_bitset,
    }
}

/// What is sent for a list of tokens.
pub open spec fn encoded_tokens(tokens: Seq<AbsoluteSemanticToken>) -> Seq<SemanticToken> {
    let sorted = sorted_tokens(tokens);
    Seq::new(sorted.len(), |i: int| relative_token(sorted, i))
}

/// Sorts tokens and makes them relative to each other.
pub fn encode_semantic_tokens(tokens: Vec<AbsoluteSemanticToken>) -> (encoded: Vec<SemanticToken>)
    ensures
        encoded@ == encoded_tokens(tokens@),
{
    let ghost list = tokens@;
    let mut keys: Vec<Vec<u64>> = Vec::new();
    let mut i: usize = 0;
    while i < tokens.len()
        invariant
            i <= tokens.len(),
            keys.len() == i,
            list == tokens@,
            forall|k: int| 0 <= k < i ==> (#[trigger] keys@[k])@ == token_keys(list)[k],
        decreases tokens.len() - i,
    {
        let token = tokens[i];
        let key: Vec<u64> = vec![
            token.line as u64,
            token.start as u64,
            token.length as u64,
            token.token_type as u64,
        ];
        assert(key@ =~= token_keys(list)[i as int]);
        keys.push(key);
        i = i + 1;
    }
    assert(key_views(keys@) =~= token_keys(list));
    let sorted = sort_by_keys(tokens, &keys);
    let mut encoded: Vec<SemanticToken> = Vec::new();
    let mut j: usize = 0;
    while j < sorted.len()
        invariant
            j <= sorted.len(),
            encoded@.len() == j,
            forall|k: int| 0 <= k < j ==> #[trigger] encoded@[k] == relative_token(sorted@, k),
        decreases sorted.len() - j,
    {
        let token = sorted[j];
        let delta_line = if j == 0 {
            token.line
        } else {
            token.line.saturating_sub(sorted[j - 1].line)
        };
        let delta_start = if j == 0 || delta_line > 0 {
            token.start
        } else {
            token.start.saturating_sub(sorted[j - 1].start)
        };
        encoded.push(
            SemanticToken {
                delta_line,
                delta_start,
                length: token.length,
                token_type: token.token_type,
                token_modifiers_bitset: token.token_modifiers_bitset,
            },
        );
        j = j + 1;
    }
    assert(encoded@ =~= encoded_tokens(list));
    encoded
}

/// The place of the token at `i` as a client reads it: lines and columns add up.
pub open spec fn decoded_place(tokens: Seq<SemanticToken>, i: int) -> (int, int)
    decreases i,
{
    if i <= 0 {
        (tokens[0].delta_line as int, tokens[0].delta_start as int)
    } else {
        let (line, start) = decoded_place(tokens, i - 1);
        if tokens[i].delta_line == 0 {
            (line, start + tokens[i].delta_start)
        } else {
            (line + tokens[i].delta_line, tokens[i].delta_start as int)
        }
    }
}

/// A client reads from what is sent each token in its place, in the order of the places.
pub proof fn law_tokens_decode(tokens: Seq<AbsoluteSemanticToken>, i: int)
    requires
        0 <= i < tokens.len(),
    ensures
        encoded_tokens(tokens).len() == tokens.len(),
        decoded_place(encoded_tokens(tokens), i) == (
            sorted_tokens(tokens)[i].line as int,
            sorted_tokens(tokens)[i].start as int,
        ),
        encoded_tokens(tokens)[i].length == sorted_tokens(tokens)[i].length,
        encoded_tokens(tokens)[i].token_type == sorted_tokens(tokens)[i].token_type,
        encoded_tokens(tokens)[i].token_modifiers_bitset == sorted_tokens(
            tokens,
        )[i].token_modifiers_bitset,
    decreases i,
{
    let keys = token_keys(tokens);
    let order = stable_order(keys);
    law_stable_order(keys);
    if i > 0 {
        law_tokens_decode(tokens, i - 1);
        let a = sorted_tokens(tokens)[i - 1];
        let b = sorted_tokens(tokens)[i];
        assert(in_order(keys, order[i - 1], order[i]));
        assert(a == tokens[order[i - 1]]);
        assert(b == tokens[order[i]]);
        let key_a = keys[order[i - 1]];
        let key_b = keys[order[i]];
        assert(key_le(key_a, key_b));
        assert(key_a[0] == a.line && key_b[0] == b.line);
        assert(a.line <= b.line);
        if a.line == b.line {
            assert(key_le(key_a.drop_first(), key_b.drop_first()));
            assert(key_a.drop_first()[0] == a.start && key_b.drop_first()[0] == b.start);
            assert(a.start <= b.start);
        }
    }
}

/// Whether no two tokens stand in the same place.
pub open spec fn places_differ(tokens: Seq<RankedToken>) -> bool {
    forall|i: int, j: int|
        0 <= i < j < tokens.len() ==> !same_place(
            (#[trigger] tokens[i]).token,
            (#[trigger] tokens[j]).token,
        )
}

proof fn lemma_place_of(tokens: Seq<RankedToken>, token: AbsoluteSemanticToken, at: int)
    requires
        0 <= at,
    ensures
        match place_of(tokens, token, at) {
            Some(found) => at <= found < tokens.len() && same_place(tokens[found].token, token),
            None => forall|i: int|
                at <= i < tokens.len() ==> !same_place((#[trigger] tokens[i]).token, token),
        },
    decreases tokens.len() - at,
{
    if at < tokens.len() && !same_place(tokens[at].token, token) {
        lemma_place_of(tokens, token, at + 1);
    }
}

/// Adding a token never puts two tokens in one place; the place then holds the token of the lower
/// rank, and all other places are as before.
pub proof fn law_with_token(tokens: Seq<RankedToken>, token: AbsoluteSemanticToken, priority: u8)
    requires
        places_differ(tokens),
    ensures
        places_differ(with_token(tokens, token, priority)),
        exists|i: int|
            0 <= i < with_token(tokens, token, priority).len() && same_place(
                (#[trigger] with_token(tokens, token, priority)[i]).token,
                token,
            ) && with_token(tokens, token, priority)[i].priority <= priority,
        forall|i: int|
            0 <= i < tokens.len() && !same_place((#[trigger] tokens[i]).token, token)
                ==> with_token(tokens, token, priority)[i] == tokens[i],
{
    lemma_place_of(tokens, token, 0);
    let after = with_token(tokens, token, priority);
    match place_of(tokens, token, 0) {
        Some(at) => {
            assert(same_place(after[at].token, token) && after[at].priority <= priority);
        },
        None => {
            let last = tokens.len() as int;
            assert(same_place(after[last].token, token) && after[last].priority <= priority);
        },
    }
}

proof fn lemma_lines_differ(
    bytes: Seq<u8>,
    tokens: Seq<RankedToken>,
    start: int,
    end: int,
    line: int,
    last_line: int,
    class: TokenClass,
)
    requires
        places_differ(tokens),
    ensures
        places_differ(with_lines(bytes, tokens, start, end, line, last_line, class)),
    decreases last_line - line,
{
    if line <= last_line && line < line_starts(bytes).len() {
        let next = match line_token(bytes, start, end, line as u32, class) {
            Some(token) => with_token(tokens, token, class.priority),
            None => tokens,
        };
        if let Some(token) = line_token(bytes, start, end, line as u32, class) {
            law_with_token(tokens, token, class.priority);
        }
        if line < last_line {
            lemma_lines_differ(bytes, next, start, end, line + 1, last_line, class);
        }
    }
}

/// Adding the tokens of a range never puts two tokens in one place.
pub proof fn lemma_range_differs(
    bytes: Seq<u8>,
    tokens: Seq<RankedToken>,
    range: Range,
    class: TokenClass,
)
    requires
        places_differ(tokens),
    ensures
        places_differ(with_range(bytes, tokens, range, class)),
{
    if let (Some(start), Some(end)) = (
        offset_at(bytes, range.start),
        offset_at(bytes, range.end),
    ) {
        lemma_lines_differ(
            bytes,
            tokens,
            start,
            end,
            range.start.line as int,
            range.end.line as int,
            class,
        );
    }
}

proof fn lemma_nodes_differ(parsed: ParsedText, tokens: Seq<RankedToken>, nodes: Seq<int>)
    requires
        places_differ(tokens),
    ensures
        places_differ(with_nodes(parsed, tokens, nodes)),
    decreases nodes.len(),
{
    if nodes.len() > 0 {
        lemma_nodes_differ(parsed, tokens, nodes.drop_last());
        let before = with_nodes(parsed, tokens, nodes.drop_last());
        let node = nodes.last();
        let kind = parsed.rows[node].kind;
        match kind_class(kind) {
            Some(class) => lemma_range_differs(
                parsed.bytes(),
                before,
                parsed.node_range(node),
                class,
            ),
            None => {
                if let (Some(class), Some(name)) = (
                    name_class(kind),
                    child_by_field(parsed.rows, node, "name"@),
                ) {
                    lemma_range_differs(parsed.bytes(), before, parsed.node_range(name), class);
                }
            },
        }
    }
}

/// No two tokens that the syntax gives stand in the same place.
pub proof fn law_syntax_tokens_differ(parsed: ParsedText)
    ensures
        places_differ(syntax_tokens(parsed)),
{
    lemma_nodes_differ(parsed, Seq::empty(), walk_order(parsed.rows, 0, Stop::AtComments));
}

} // verus!
