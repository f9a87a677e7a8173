//! Which tokens a file has: the laws of syntax trees and of semantic tokens.
use vstd::prelude::*;
use crate::hint_laws::{law_item_of_reference, lists, stands_for};
use crate::model::{Def, ModuleModel};
use crate::order::{law_stable_order, stable_order};
use crate::parsed::ParsedText;
use crate::position::{line_end, line_starts, offset_at, position_at, Range};
use crate::snapshot::{definition_class, file_tokens, item_of_reference, plain_tokens,
    reference_class, with_definitions, with_references, Snapshot};
use crate::snapshot_laws::lemma_join_contains;
use crate::stack_effect::{ItemKind, ReferenceKind};
use crate::syntax::{child_by_field, field_sibling, named_children, named_siblings, past_deeper,
    subtree_end, walk_order, walk_orders, Row, Stop};
use crate::tokens::{encoded_tokens, kind_class, line_token, modifier_names, name_class, place_of,
    same_place, sorted_tokens, syntax_tokens, token_keys, type_names, with_lines, with_nodes,
    with_range, with_token, AbsoluteSemanticToken, RankedToken, TokenClass};

verus! {

/// Whether a node stands below another one: all rows between them are deeper than the upper one.
pub open spec fn is_below(rows: Seq<Row>, node: int, other: int) -> bool {
    &&& node < other < rows.len()
    &&& forall|i: int| node < i <= other ==> (#[trigger] rows[i]).depth > rows[node].depth
}

/// Whether a node is a child of another one: it stands below it, and below no node between them.
pub open spec fn is_child(rows: Seq<Row>, node: int, child: int) -> bool {
    &&& is_below(rows, node, child)
    &&& forall|other: int| node < other < child ==> !#[trigger] is_below(rows, other, child)
}

proof fn lemma_past_deeper(rows: Seq<Row>, depth: int, at: int)
    requires
        at <= rows.len(),
    ensures
        at <= past_deeper(rows, depth, at) <= rows.len(),
        forall|i: int| at <= i < past_deeper(rows, depth, at) ==> (#[trigger] rows[i]).depth > depth,
        past_deeper(rows, depth, at) < rows.len() ==> rows[past_deeper(rows, depth, at)].depth
            <= depth,
    decreases rows.len() - at,
{
    if at < rows.len() && rows[at].depth > depth {
        lemma_past_deeper(rows, depth, at + 1);
    }
}

/// A subtree reaches from its node up to the next row that does not stand below it.
pub proof fn law_subtree(rows: Seq<Row>, node: int, other: int)
    requires
        0 <= node < rows.len(),
    ensures
        node < subtree_end(rows, node) <= rows.len(),
        node < other < subtree_end(rows, node) <==> is_below(rows, node, other),
{
    lemma_past_deeper(rows, rows[node].depth as int, node + 1);
    let end = subtree_end(rows, node);
    if is_below(rows, node, other) && other >= end {
        assert(rows[end].depth > rows[node].depth);
    }
}

/// Whether a row is the start of one of the subtrees from `at` on.
spec fn is_sibling(rows: Seq<Row>, at: int, end: int, node: int) -> bool {
    &&& at <= node < end
    &&& forall|other: int| at <= other < node ==> !#[trigger] is_below(rows, other, node)
}

proof fn lemma_next_sibling(rows: Seq<Row>, at: int, end: int, node: int)
    requires
        0 <= at < end <= rows.len(),
        subtree_end(rows, at) <= end,
    ensures
        is_sibling(rows, at, end, node) <==> node == at || is_sibling(
            rows,
            subtree_end(rows, at),
            end,
            node,
        ),
{
    let next = subtree_end(rows, at);
    law_subtree(rows, at, node);
    if is_sibling(rows, at, end, node) && node != at {
        assert(!is_below(rows, at, node));
    }
    if is_sibling(rows, next, end, node) {
        lemma_past_deeper(rows, rows[at].depth as int, at + 1);
        assert forall|other: int| at <= other < node implies !#[trigger] is_below(
            rows,
            other,
            node,
        ) by {
            if other < next && is_below(rows, other, node) {
                assert(rows[next].depth > rows[other].depth);
                if other > at {
                    assert(rows[other].depth > rows[at].depth);
                }
            }
        }
    }
}

proof fn lemma_inner_end(rows: Seq<Row>, node: int, at: int)
    requires
        0 <= node < at < subtree_end(rows, node),
        node < rows.len(),
    ensures
        at < rows.len(),
        at < subtree_end(rows, at) <= subtree_end(rows, node),
{
    law_subtree(rows, node, at);
    law_subtree(rows, at, at + 1);
    lemma_past_deeper(rows, rows[node].depth as int, node + 1);
    lemma_past_deeper(rows, rows[at].depth as int, at + 1);
    let end = subtree_end(rows, node);
    let inner = subtree_end(rows, at);
    if inner > end {
        assert(rows[end].depth > rows[at].depth);
        assert(rows[at].depth > rows[node].depth);
    }
}

proof fn lemma_named_siblings(rows: Seq<Row>, node: int, at: int, child: int)
    requires
        0 <= node < rows.len(),
        node < at <= subtree_end(rows, node),
    ensures
        ({
            let list = named_siblings(rows, at, subtree_end(rows, node));
            &&& list.contains(child) <==> is_sibling(rows, at, subtree_end(rows, node), child)
                && rows[child].named
            &&& forall|i: int| 0 <= i < list.len() ==> #[trigger] list[i] >= at
            &&& forall|i: int, j: int|
                0 <= i < j < list.len() ==> #[trigger] list[i] < #[trigger] list[j]
        }),
    decreases subtree_end(rows, node) - at,
{
    let end = subtree_end(rows, node);
    law_subtree(rows, node, at);
    let list = named_siblings(rows, at, end);
    if at < end {
        lemma_inner_end(rows, node, at);
        let next = subtree_end(rows, at);
        lemma_named_siblings(rows, node, next, child);
        lemma_next_sibling(rows, at, end, child);
        let rest = named_siblings(rows, next, end);
        if rows[at].named {
            assert(list == seq![at] + rest);
            if list.contains(child) {
                let k = choose|k: int| 0 <= k < list.len() && list[k] == child;
                if k > 0 {
                    assert(rest[k - 1] == child);
                }
            }
            if rest.contains(child) {
                let k = choose|k: int| 0 <= k < rest.len() && rest[k] == child;
                assert(list[k + 1] == child);
            }
            assert(list[0] == at);
            assert forall|i: int, j: int| 0 <= i < j < list.len() implies #[trigger] list[i]
                < #[trigger] list[j] by {
                assert(list[j] == rest[j - 1]);
                if i > 0 {
                    assert(list[i] == rest[i - 1]);
                }
            }
        } else {
            assert(list == rest);
        }
    }
}

/// The named children of a node are those of its children that are named, in their order.
pub proof fn law_named_children(rows: Seq<Row>, node: int, child: int)
    requires
        0 <= node < rows.len(),
    ensures
        named_children(rows, node).contains(child) <==> is_child(rows, node, child)
            && rows[child].named,
        forall|i: int, j: int|
            0 <= i < j < named_children(rows, node).len() ==> #[trigger] named_children(
                rows,
                node,
            )[i] < #[trigger] named_children(rows, node)[j],
{
    law_subtree(rows, node, child);
    lemma_named_siblings(rows, node, node + 1, child);
}

proof fn lemma_field_sibling(rows: Seq<Row>, node: int, at: int, name: Seq<char>)
    requires
        0 <= node < rows.len(),
        node < at <= subtree_end(rows, node),
    ensures
        match field_sibling(rows, at, subtree_end(rows, node), name) {
            Some(child) => is_sibling(rows, at, subtree_end(rows, node), child)
                && rows[child].field == Some(name) && forall|other: int|
                other < child && is_sibling(rows, at, subtree_end(rows, node), other)
                    ==> (#[trigger] rows[other]).field != Some(name),
            None => forall|other: int|
                is_sibling(rows, at, subtree_end(rows, node), other) ==> (
                #[trigger] rows[other]).field != Some(name),
        },
    decreases subtree_end(rows, node) - at,
{
    let end = subtree_end(rows, node);
    law_subtree(rows, node, at);
    if at < end {
        lemma_inner_end(rows, node, at);
        let next = subtree_end(rows, at);
        assert forall|other: int| is_sibling(rows, at, end, other) <==> other == at
            || #[trigger] is_sibling(rows, next, end, other) by {
            lemma_next_sibling(rows, at, end, other);
        }
        lemma_next_sibling(rows, at, end, at);
        if rows[at].field != Some(name) {
            lemma_field_sibling(rows, node, next, name);
            assert forall|other: int| #[trigger] is_sibling(rows, at, end, other) implies other == at
                || is_sibling(rows, next, end, other) by {
                lemma_next_sibling(rows, at, end, other);
            }
        }
    }
}

/// The child that fills a field is the first of a node's children that has that field, named or not;
/// there is none exactly where no child has it.
pub proof fn law_child_by_field(rows: Seq<Row>, node: int, name: Seq<char>)
    requires
        0 <= node < rows.len(),
    ensures
        match child_by_field(rows, node, name) {
            Some(child) => is_child(rows, node, child) && rows[child].field == Some(name)
                && forall|other: int|
                other < child && #[trigger] is_child(rows, node, other) ==> rows[other].field
                    != Some(name),
            None => forall|other: int| #[trigger]
                is_child(rows, node, other) ==> rows[other].field != Some(name),
        },
{
    law_subtree(rows, node, node);
    lemma_field_sibling(rows, node, node + 1, name);
    assert forall|other: int| #[trigger] is_child(rows, node, other) <==> is_sibling(
        rows,
        node + 1,
        subtree_end(rows, node),
        other,
    ) by {
        law_subtree(rows, node, other);
    }
}

/// Whether a list of nodes goes on to the named children of each of them that it does not stop at.
pub open spec fn goes_down(rows: Seq<Row>, nodes: Seq<int>, stop: Stop) -> bool {
    forall|n: int, c: int|
        nodes.contains(n) && !stop.stops(rows[n].kind) && #[trigger] is_child(rows, n, c)
            && rows[c].named ==> nodes.contains(c)
}

/// Whether every node of a list but the first stands in it on account of another: as a named child of
/// one that it does not stop at.
pub open spec fn comes_from(rows: Seq<Row>, nodes: Seq<int>, root: int, stop: Stop) -> bool {
    forall|c: int| #[trigger]
        nodes.contains(c) && c != root ==> rows[c].named && exists|n: int|
            nodes.contains(n) && !stop.stops(rows[n].kind) && #[trigger] is_child(rows, n, c)
}

/// A walk starts at its root, goes on to the named children of each node that it does not stop at, and
/// visits nothing else.
pub proof fn law_walk(rows: Seq<Row>, root: int, stop: Stop)
    requires
        0 <= root < rows.len(),
    ensures
        walk_order(rows, root, stop).len() > 0,
        walk_order(rows, root, stop)[0] == root,
        forall|n: int| #[trigger]
            walk_order(rows, root, stop).contains(n) ==> root <= n < rows.len(),
        goes_down(rows, walk_order(rows, root, stop), stop),
        comes_from(rows, walk_order(rows, root, stop), root, stop),
    decreases rows.len() - root, 1int, 0int,
{
    let all = walk_order(rows, root, stop);
    let start = seq![root];
    assert(start.contains(root)) by {
        assert(start[0] == root);
    }
    if stop.stops(rows[root].kind) {
        assert(all =~= start);
    } else {
        let kids = named_children(rows, root);
        law_named_children(rows, root, 0);
        assert forall|i: int| 0 <= i < kids.len() implies root < #[trigger] kids[i] < rows.len() by {
            law_named_children(rows, root, kids[i]);
            assert(kids.contains(kids[i]));
        }
        lemma_walks(rows, root, kids, stop);
        let rest = walk_orders(rows, root, kids, stop);
        assert(all == start + rest);
        assert forall|n: int| #[trigger] all.contains(n) <==> n == root || rest.contains(n) by {
            lemma_join_contains(start, rest, n);
        }
        assert forall|n: int, c: int|
            all.contains(n) && !stop.stops(rows[n].kind) && #[trigger] is_child(rows, n, c)
                && rows[c].named implies all.contains(c) by {
            if n == root {
                law_named_children(rows, root, c);
                assert(kids.contains(c));
            }
        }
        assert forall|c: int| #[trigger] all.contains(c) && c != root implies rows[c].named
            && exists|n: int|
            all.contains(n) && !stop.stops(rows[n].kind) && #[trigger] is_child(rows, n, c) by {
            assert(rest.contains(c));
            if kids.contains(c) {
                law_named_children(rows, root, c);
                assert(all.contains(root) && is_child(rows, root, c));
            } else {
                let n = choose|n: int|
                    rest.contains(n) && !stop.stops(rows[n].kind) && #[trigger] is_child(rows, n, c);
                assert(all.contains(n) && is_child(rows, n, c));
            }
        }
    }
}

proof fn lemma_walks(rows: Seq<Row>, above: int, nodes: Seq<int>, stop: Stop)
    requires
        0 <= above < rows.len(),
        forall|i: int| 0 <= i < nodes.len() ==> above < #[trigger] nodes[i] < rows.len(),
    ensures
        ({
            let all = walk_orders(rows, above, nodes, stop);
            &&& forall|n: int| #[trigger] all.contains(n) ==> above < n < rows.len()
            &&& forall|n: int| #[trigger] nodes.contains(n) ==> all.contains(n)
            &&& goes_down(rows, all, stop)
            &&& forall|c: int| #[trigger]
                all.contains(c) && !nodes.contains(c) ==> rows[c].named && exists|n: int|
                    all.contains(n) && !stop.stops(rows[n].kind) && #[trigger] is_child(rows, n, c)
        }),
    decreases rows.len() - above, 0int, nodes.len(),
{
    if nodes.len() > 0 {
        let last = nodes.last();
        let less = nodes.drop_last();
        law_walk(rows, last, stop);
        assert forall|i: int| 0 <= i < less.len() implies above < #[trigger] less[i] < rows.len() by {
            assert(less[i] == nodes[i]);
        }
        lemma_walks(rows, above, less, stop);
        let left = walk_order(rows, last, stop);
        let right = walk_orders(rows, above, less, stop);
        let all = walk_orders(rows, above, nodes, stop);
        assert(all == left + right);
        assert forall|n: int| #[trigger] all.contains(n) <==> left.contains(n) || right.contains(n) by {
            lemma_join_contains(left, right, n);
        }
        assert(left.contains(last)) by {
            assert(left[0] == last);
        }
        assert forall|n: int| #[trigger] nodes.contains(n) <==> n == last || less.contains(n) by {
            crate::snapshot_laws::lemma_push_contains(less, last, n);
            assert(less.push(last) =~= nodes);
        }
        assert forall|c: int| #[trigger] all.contains(c) && !nodes.contains(c) implies rows[c].named
            && exists|n: int|
            all.contains(n) && !stop.stops(rows[n].kind) && #[trigger] is_child(rows, n, c) by {
            if left.contains(c) {
                let n = choose|n: int|
                    left.contains(n) && !stop.stops(rows[n].kind) && #[trigger] is_child(rows, n, c);
                assert(all.contains(n) && is_child(rows, n, c));
            } else {
                assert(right.contains(c) && !less.contains(c));
                let n = choose|n: int|
                    right.contains(n) && !stop.stops(rows[n].kind) && #[trigger] is_child(
                        rows,
                        n,
                        c,
                    );
                assert(all.contains(n) && is_child(rows, n, c));
            }
        }
    } else {
        assert(goes_down(rows, walk_orders(rows, above, nodes, stop), stop));
    }
}

/// Whether a token is the part of a range on one of its lines: it starts where the range or the line
/// does, whichever comes later, and ends where the range or the line does, whichever comes first.
pub open spec fn is_part_on(
    bytes: Seq<u8>,
    range: Range,
    line: int,
    first: int,
    last: int,
    token: AbsoluteSemanticToken,
) -> bool {
    &&& offset_at(bytes, range.start) is Some
    &&& offset_at(bytes, range.end) is Some
    &&& range.start.line <= line <= range.end.line
    &&& line < line_starts(bytes).len()
    &&& first >= offset_at(bytes, range.start).unwrap()
    &&& first >= line_starts(bytes)[line] as int
    &&& first == offset_at(bytes, range.start).unwrap() || first == line_starts(bytes)[line] as int
    &&& last <= offset_at(bytes, range.end).unwrap()
    &&& last <= line_end(bytes, line)
    &&& last == offset_at(bytes, range.end).unwrap() || last == line_end(bytes, line)
    &&& first < last
    &&& token.line == line
    &&& token.length > 0
    &&& token.start == position_at(bytes, first).character
    &&& token.start + token.length == position_at(bytes, last).character
}

/// Whether a token of a class is a part of a range.
pub open spec fn is_part(
    bytes: Seq<u8>,
    range: Range,
    class: TokenClass,
    token: AbsoluteSemanticToken,
) -> bool {
    &&& token.token_type == class.token_type
    &&& token.token_modifiers_bitset == class.token_modifiers_bitset
    &&& exists|line: int, first: int, last: int|
        is_part_on(bytes, range, line, first, last, token)
}

/// Whether a list has a token in a place, of a rank or a lower one.
pub open spec fn fills(tokens: Seq<RankedToken>, token: AbsoluteSemanticToken, rank: u8) -> bool {
    exists|i: int|
        {
            &&& 0 <= i < tokens.len()
            &&& (#[trigger] tokens[i]).token.line == token.line
            &&& tokens[i].token.start == token.start
            &&& tokens[i].token.length == token.length
            &&& tokens[i].priority <= rank
        }
}

proof fn lemma_place_of(tokens: Seq<RankedToken>, token: AbsoluteSemanticToken, at: int)
    requires
        0 <= at,
    ensures
        match place_of(tokens, token, at) {
            Some(found) => at <= found < tokens.len() && same_place(tokens[found].token, token),
            None => forall|i: int|
                at <= i < tokens.len() ==> !same_place((#[trigger] tokens[i]).token, token),
        },
    decreases tokens.len() - at,
{
    if at < tokens.len() && !same_place(tokens[at].token, token) {
        lemma_place_of(tokens, token, at + 1);
    }
}

/// Whether a list of tokens covers what another one does, and holds nothing but its tokens and such
/// parts of a range.
spec fn adds_parts(
    before: Seq<RankedToken>,
    after: Seq<RankedToken>,
    bytes: Seq<u8>,
    range: Range,
    class: TokenClass,
) -> bool {
    &&& forall|token: AbsoluteSemanticToken, rank: u8| #[trigger]
        fills(before, token, rank) ==> fills(after, token, rank)
    &&& forall|ranked: RankedToken| #[trigger]
        after.contains(ranked) ==> before.contains(ranked) || (ranked.priority == class.priority
            && is_part(bytes, range, class, ranked.token))
}

proof fn lemma_with_token(
    tokens: Seq<RankedToken>,
    more: AbsoluteSemanticToken,
    priority: u8,
)
    ensures
        fills(with_token(tokens, more, priority), more, priority),
        forall|token: AbsoluteSemanticToken, rank: u8| #[trigger]
            fills(tokens, token, rank) ==> fills(with_token(tokens, more, priority), token, rank),
        forall|ranked: RankedToken| #[trigger]
            with_token(tokens, more, priority).contains(ranked) ==> tokens.contains(ranked)
                || ranked == (RankedToken { priority, token: more }),
{
    lemma_place_of(tokens, more, 0);
    let after = with_token(tokens, more, priority);
    match place_of(tokens, more, 0) {
        Some(at) => {
            assert(same_place(after[at].token, more) && after[at].priority <= priority);
        },
        None => {
            assert(same_place(after[tokens.len() as int].token, more));
        },
    }
    assert forall|token: AbsoluteSemanticToken, rank: u8| #[trigger]
        fills(tokens, token, rank) implies fills(after, token, rank) by {
        let i = choose|i: int|
            {
                &&& 0 <= i < tokens.len()
                &&& (#[trigger] tokens[i]).token.line == token.line
                &&& tokens[i].token.start == token.start
                &&& tokens[i].token.length == token.length
                &&& tokens[i].priority <= rank
            };
        assert(after[i].token.line == token.line);
    }
    assert forall|ranked: RankedToken| #[trigger] after.contains(ranked) implies tokens.contains(
        ranked,
    ) || ranked == (RankedToken { priority, token: more }) by {
        let i = choose|i: int| 0 <= i < after.len() && after[i] == ranked;
        if i < tokens.len() && after[i] == tokens[i] {
            assert(tokens.contains(ranked));
        }
    }
}

proof fn lemma_line_token(
    bytes: Seq<u8>,
    range: Range,
    start: int,
    end: int,
    line: int,
    class: TokenClass,
)
    requires
        offset_at(bytes, range.start) == Some(start),
        offset_at(bytes, range.end) == Some(end),
        0 <= line < line_starts(bytes).len(),
        range.start.line <= line <= range.end.line,
    ensures
        match line_token(bytes, start, end, line as u32, class) {
            Some(token) => is_part(bytes, range, class, token) && token.line == line,
            None => true,
        },
        forall|token: AbsoluteSemanticToken|
            #[trigger] is_part(bytes, range, class, token) && token.line == line ==> line_token(
                bytes,
                start,
                end,
                line as u32,
                class,
            ) == Some(token),
{
    let line_start = line_starts(bytes)[line] as int;
    let first = if start > line_start {
        start
    } else {
        line_start
    };
    let last = if end < line_end(bytes, line) {
        end
    } else {
        line_end(bytes, line)
    };
    assert(line as u32 as int == line);
    if let Some(token) = line_token(bytes, start, end, line as u32, class) {
        assert(is_part_on(bytes, range, line, first, last, token));
    }
    assert forall|token: AbsoluteSemanticToken|
        #[trigger] is_part(bytes, range, class, token) && token.line == line implies line_token(
        bytes,
        start,
        end,
        line as u32,
        class,
    ) == Some(token) by {
        let (l, f, t) = choose|l: int, f: int, t: int| is_part_on(bytes, range, l, f, t, token);
        assert(l == line && f == first && t == last);
    }
}

proof fn lemma_with_lines(
    bytes: Seq<u8>,
    tokens: Seq<RankedToken>,
    range: Range,
    start: int,
    end: int,
    line: int,
    class: TokenClass,
)
    requires
        offset_at(bytes, range.start) == Some(start),
        offset_at(bytes, range.end) == Some(end),
        range.start.line <= line,
    ensures
        adds_parts(
            tokens,
            with_lines(bytes, tokens, start, end, line, range.end.line as int, class),
            bytes,
            range,
            class,
        ),
        forall|token: AbsoluteSemanticToken|
            #[trigger] is_part(bytes, range, class, token) && token.line >= line ==> fills(
                with_lines(bytes, tokens, start, end, line, range.end.line as int, class),
                token,
                class.priority,
            ),
    decreases range.end.line - line,
{
    let last_line = range.end.line as int;
    let all = with_lines(bytes, tokens, start, end, line, last_line, class);
    if line > last_line || line >= line_starts(bytes).len() {
        assert forall|token: AbsoluteSemanticToken| #[trigger]
            is_part(bytes, range, class, token) && token.line >= line implies fills(
            all,
            token,
            class.priority,
        ) by {
            let (l, f, t) = choose|l: int, f: int, t: int| is_part_on(bytes, range, l, f, t, token);
            assert(false);
        }
    } else {
        lemma_line_token(bytes, range, start, end, line, class);
        let next = match line_token(bytes, start, end, line as u32, class) {
            Some(token) => with_token(tokens, token, class.priority),
            None => tokens,
        };
        if let Some(token) = line_token(bytes, start, end, line as u32, class) {
            lemma_with_token(tokens, token, class.priority);
        }
        if line < last_line {
            lemma_with_lines(bytes, next, range, start, end, line + 1, class);
        }
        assert forall|token: AbsoluteSemanticToken| #[trigger]
            is_part(bytes, range, class, token) && token.line >= line implies fills(
            all,
            token,
            class.priority,
        ) by {
            if token.line == line {
                assert(fills(next, token, class.priority));
            } else {
                let (l, f, t) = choose|l: int, f: int, t: int|
                    is_part_on(bytes, range, l, f, t, token);
                assert(line < last_line);
            }
        }
    }
}

/// Adding the tokens of a range puts a token in the place of each part of the range on one of its
/// lines, unless one of the same or a lower rank is there; nothing else is added, and no place loses
/// its token to one of a higher rank.
proof fn lemma_with_range(
    bytes: Seq<u8>,
    tokens: Seq<RankedToken>,
    range: Range,
    class: TokenClass,
)
    ensures
        adds_parts(tokens, with_range(bytes, tokens, range, class), bytes, range, class),
        forall|token: AbsoluteSemanticToken| #[trigger]
            is_part(bytes, range, class, token) ==> fills(
                with_range(bytes, tokens, range, class),
                token,
                class.priority,
            ),
{
    match (offset_at(bytes, range.start), offset_at(bytes, range.end)) {
        (Some(start), Some(end)) => {
            if end > start {
                lemma_with_lines(
                    bytes,
                    tokens,
                    range,
                    start,
                    end,
                    range.start.line as int,
                    class,
                );
                assert forall|token: AbsoluteSemanticToken| #[trigger]
                    is_part(bytes, range, class, token) implies token.line >= range.start.line by {
                    let (l, f, t) = choose|l: int, f: int, t: int|
                        is_part_on(bytes, range, l, f, t, token);
                    assert(is_part_on(bytes, range, l, f, t, token));
                }
            } else {
                assert forall|token: AbsoluteSemanticToken| !#[trigger] is_part(
                    bytes,
                    range,
                    class,
                    token,
                ) by {
                    if is_part(bytes, range, class, token) {
                        let (l, f, t) = choose|l: int, f: int, t: int|
                            is_part_on(bytes, range, l, f, t, token);
                        assert(is_part_on(bytes, range, l, f, t, token));
                    }
                }
            }
        },
        _ => {
            assert forall|token: AbsoluteSemanticToken| !#[trigger] is_part(
                bytes,
                range,
                class,
                token,
            ) by {
                if is_part(bytes, range, class, token) {
                    let (l, f, t) = choose|l: int, f: int, t: int|
                        is_part_on(bytes, range, l, f, t, token);
                    assert(is_part_on(bytes, range, l, f, t, token));
                }
            }
        },
    }
}

/// Whether the syntax asks for a token of a class at a range: for a node of a kind that has a class, or
/// for the name of one whose name has a class.
pub open spec fn node_asks(parsed: ParsedText, node: int, range: Range, class: TokenClass) -> bool {
    ||| kind_class(parsed.rows[node].kind) == Some(class) && range == parsed.node_range(node)
    ||| {
        &&& kind_class(parsed.rows[node].kind) is None
        &&& name_class(parsed.rows[node].kind) == Some(class)
        &&& child_by_field(parsed.rows, node, "name"@) is Some
        &&& range == parsed.node_range(child_by_field(parsed.rows, node, "name"@).unwrap())
    }
}

/// Whether an item or a reference of a module asks for a token of a class at a range: an item at its
/// name, and a reference where it stands, if it lists any item at all.
pub open spec fn name_asks(
    definitions: Seq<Def>,
    module: ModuleModel,
    range: Range,
    class: TokenClass,
) -> bool {
    ||| exists|item: int|
        {
            &&& 0 <= item < module.definitions.len()
            &&& (#[trigger] module.definitions[item]).selection_range == range
            &&& definition_class(module.definitions[item].kind) == Some(class)
        }
    ||| exists|reference: int, k: int|
        {
            &&& 0 <= reference < module.resolved.len()
            &&& module.resolved[reference].range == range
            &&& #[trigger] lists(definitions, module.resolved[reference], k)
            &&& reference_class(module.resolved[reference].kind) == class
        }
}

/// Whether a token is a part of a range that a node or a name asks for.
pub open spec fn is_asked_for(
    definitions: Seq<Def>,
    parsed: ParsedText,
    module: ModuleModel,
    token: AbsoluteSemanticToken,
    rank: u8,
) -> bool {
    ||| exists|range: Range, class: TokenClass|
        {
            &&& #[trigger] name_asks(definitions, module, range, class)
            &&& class.priority == rank
            &&& is_part(parsed.bytes(), range, class, token)
        }
    ||| node_asks_for(parsed, walk_order(parsed.rows, 0, Stop::AtComments), token, rank)
}

/// Whether a token is a part of a range that one of several nodes asks for.
pub open spec fn node_asks_for(
    parsed: ParsedText,
    nodes: Seq<int>,
    token: AbsoluteSemanticToken,
    rank: u8,
) -> bool {
    exists|node: int, range: Range, class: TokenClass|
        {
            &&& nodes.contains(node)
            &&& #[trigger] node_asks(parsed, node, range, class)
            &&& class.priority == rank
            &&& is_part(parsed.bytes(), range, class, token)
        }
}

proof fn lemma_with_nodes(parsed: ParsedText, nodes: Seq<int>)
    ensures
        ({
            let all = with_nodes(parsed, Seq::empty(), nodes);
            &&& forall|ranked: RankedToken| #[trigger]
                all.contains(ranked) ==> node_asks_for(
                    parsed,
                    nodes,
                    ranked.token,
                    ranked.priority,
                )
            &&& forall|token: AbsoluteSemanticToken, rank: u8| #[trigger]
                node_asks_for(parsed, nodes, token, rank) ==> fills(all, token, rank)
        }),
    decreases nodes.len(),
{
    let all = with_nodes(parsed, Seq::empty(), nodes);
    if nodes.len() > 0 {
        let less = nodes.drop_last();
        let node = nodes.last();
        let before = with_nodes(parsed, Seq::empty(), less);
        lemma_with_nodes(parsed, less);
        assert(less.push(node) =~= nodes);
        assert forall|n: int| #[trigger] nodes.contains(n) <==> less.contains(n) || n == node by {
            crate::snapshot_laws::lemma_push_contains(less, node, n);
        }
        assert forall|range: Range, class: TokenClass| #[trigger]
            node_asks(parsed, node, range, class) implies all == with_range(
            parsed.bytes(),
            before,
            range,
            class,
        ) by {}
        assert((forall|range: Range, class: TokenClass|
            !#[trigger] node_asks(parsed, node, range, class)) ==> all == before) by {
            let kind = parsed.rows[node].kind;
            match kind_class(kind) {
                Some(class) => {
                    assert(node_asks(parsed, node, parsed.node_range(node), class));
                },
                None => match (name_class(kind), child_by_field(parsed.rows, node, "name"@)) {
                    (Some(class), Some(name)) => {
                        assert(node_asks(parsed, node, parsed.node_range(name), class));
                    },
                    _ => {},
                },
            }
        }
        assert forall|ranked: RankedToken| #[trigger] all.contains(ranked) implies node_asks_for(
            parsed,
            nodes,
            ranked.token,
            ranked.priority,
        ) by {
            if before.contains(ranked) {
                let (n, range, class) = choose|n: int, range: Range, class: TokenClass|
                    {
                        &&& less.contains(n)
                        &&& #[trigger] node_asks(parsed, n, range, class)
                        &&& class.priority == ranked.priority
                        &&& is_part(parsed.bytes(), range, class, ranked.token)
                    };
                assert(node_asks_for(parsed, less, ranked.token, ranked.priority));
                assert(nodes.contains(n) && node_asks(parsed, n, range, class));
            } else {
                let (range, class) = choose|range: Range, class: TokenClass| #[trigger]
                    node_asks(parsed, node, range, class);
                lemma_with_range(parsed.bytes(), before, range, class);
                assert(nodes.contains(node) && node_asks(parsed, node, range, class));
            }
        }
        assert forall|token: AbsoluteSemanticToken, rank: u8| #[trigger]
            node_asks_for(parsed, nodes, token, rank) implies fills(all, token, rank) by {
            let (n, range, class) = choose|n: int, range: Range, class: TokenClass|
                {
                    &&& nodes.contains(n)
                    &&& #[trigger] node_asks(parsed, n, range, class)
                    &&& class.priority == rank
                    &&& is_part(parsed.bytes(), range, class, token)
                };
            if less.contains(n) {
                assert(node_asks(parsed, n, range, class));
                assert(node_asks_for(parsed, less, token, rank));
                assert(fills(before, token, rank));
                if exists|range: Range, class: TokenClass| #[trigger]
                    node_asks(parsed, node, range, class) {
                    let (r, c) = choose|range: Range, class: TokenClass| #[trigger]
                        node_asks(parsed, node, range, class);
                    lemma_with_range(parsed.bytes(), before, r, c);
                }
            } else {
                lemma_with_range(parsed.bytes(), before, range, class);
            }
        }
    }
}

/// Whether an item among the first ones of a module asks for a token at a range.
spec fn item_asks(module: ModuleModel, count: int, range: Range, class: TokenClass) -> bool {
    exists|item: int|
        {
            &&& 0 <= item < count
            &&& (#[trigger] module.definitions[item]).selection_range == range
            &&& definition_class(module.definitions[item].kind) == Some(class)
        }
}

/// Whether a reference among the first ones of a module asks for a token at a range.
spec fn reference_asks(
    definitions: Seq<Def>,
    module: ModuleModel,
    count: int,
    range: Range,
    class: TokenClass,
) -> bool {
    exists|reference: int, k: int|
        {
            &&& 0 <= reference < count
            &&& module.resolved[reference].range == range
            &&& #[trigger] lists(definitions, module.resolved[reference], k)
            &&& reference_class(module.resolved[reference].kind) == class
        }
}

proof fn lemma_with_definitions(
    bytes: Seq<u8>,
    tokens: Seq<RankedToken>,
    module: ModuleModel,
    count: nat,
)
    requires
        count <= module.definitions.len(),
    ensures
        ({
            let all = with_definitions(bytes, tokens, module.definitions, count);
            &&& forall|token: AbsoluteSemanticToken, rank: u8| #[trigger]
                fills(tokens, token, rank) ==> fills(all, token, rank)
            &&& forall|range: Range, class: TokenClass, token: AbsoluteSemanticToken|
                #[trigger] item_asks(module, count as int, range, class) && #[trigger] is_part(
                    bytes,
                    range,
                    class,
                    token,
                ) ==> fills(all, token, class.priority)
            &&& forall|ranked: RankedToken| #[trigger]
                all.contains(ranked) ==> tokens.contains(ranked) || exists|
                    range: Range,
                    class: TokenClass,
                |
                    {
                        &&& #[trigger] item_asks(module, count as int, range, class)
                        &&& class.priority == ranked.priority
                        &&& is_part(bytes, range, class, ranked.token)
                    }
        }),
    decreases count,
{
    if count > 0 {
        let last = count - 1;
        lemma_with_definitions(bytes, tokens, module, last as nat);
        let before = with_definitions(bytes, tokens, module.definitions, last as nat);
        let all = with_definitions(bytes, tokens, module.definitions, count);
        let item = module.definitions[last];
        assert forall|range: Range, class: TokenClass| #[trigger]
            item_asks(module, count as int, range, class) <==> item_asks(
                module,
                last,
                range,
                class,
            ) || (item.selection_range == range && definition_class(item.kind) == Some(class)) by {
            if item_asks(module, last, range, class) {
                let i = choose|i: int|
                    {
                        &&& 0 <= i < last
                        &&& (#[trigger] module.definitions[i]).selection_range == range
                        &&& definition_class(module.definitions[i].kind) == Some(class)
                    };
                assert(module.definitions[i].selection_range == range);
            }
        }
        if let Some(class) = definition_class(item.kind) {
            lemma_with_range(bytes, before, item.selection_range, class);
            assert(item_asks(module, count as int, item.selection_range, class));
        }
        assert forall|ranked: RankedToken| #[trigger] all.contains(ranked) implies tokens.contains(
            ranked,
        ) || exists|range: Range, class: TokenClass|
            {
                &&& #[trigger] item_asks(module, count as int, range, class)
                &&& class.priority == ranked.priority
                &&& is_part(bytes, range, class, ranked.token)
            } by {
            if before.contains(ranked) && !tokens.contains(ranked) {
                let (range, class) = choose|range: Range, class: TokenClass|
                    {
                        &&& #[trigger] item_asks(module, last, range, class)
                        &&& class.priority == ranked.priority
                        &&& is_part(bytes, range, class, ranked.token)
                    };
                assert(item_asks(module, count as int, range, class));
            }
        }
    }
}

proof fn lemma_with_references(
    bytes: Seq<u8>,
    tokens: Seq<RankedToken>,
    definitions: Seq<Def>,
    module: ModuleModel,
    count: nat,
)
    requires
        count <= module.resolved.len(),
    ensures
        ({
            let all = with_references(bytes, tokens, definitions, module, count);
            &&& forall|token: AbsoluteSemanticToken, rank: u8| #[trigger]
                fills(tokens, token, rank) ==> fills(all, token, rank)
            &&& forall|range: Range, class: TokenClass, token: AbsoluteSemanticToken|
                #[trigger] reference_asks(definitions, module, count as int, range, class)
                    && #[trigger] is_part(bytes, range, class, token) ==> fills(
                    all,
                    token,
                    class.priority,
                )
            &&& forall|ranked: RankedToken| #[trigger]
                all.contains(ranked) ==> tokens.contains(ranked) || exists|
                    range: Range,
                    class: TokenClass,
                |
                    {
                        &&& #[trigger] reference_asks(
                            definitions,
                            module,
                            count as int,
                            range,
                            class,
                        )
                        &&& class.priority == ranked.priority
                        &&& is_part(bytes, range, class, ranked.token)
                    }
        }),
    decreases count,
{
    if count > 0 {
        let last = count - 1;
        lemma_with_references(bytes, tokens, definitions, module, last as nat);
        let before = with_references(bytes, tokens, definitions, module, last as nat);
        let all = with_references(bytes, tokens, definitions, module, count);
        let used = module.resolved[last];
        law_item_of_reference(definitions, module.context, used);
        let item = item_of_reference(definitions, module.context, used);
        assert(item is Some <==> exists|k: int| lists(definitions, used, k)) by {
            if item is Some {
                let k = choose|k: int| #[trigger]
                    stands_for(definitions, module.context, used, k) && item.unwrap()
                        == definitions[used.definitions[k] as int];
                assert(lists(definitions, used, k));
            }
        }
        assert forall|range: Range, class: TokenClass| #[trigger]
            reference_asks(definitions, module, count as int, range, class) <==> reference_asks(
                definitions,
                module,
                last,
                range,
                class,
            ) || (item is Some && used.range == range && reference_class(used.kind) == class) by {
            if reference_asks(definitions, module, last, range, class) {
                let (r, k) = choose|r: int, k: int|
                    {
                        &&& 0 <= r < last
                        &&& module.resolved[r].range == range
                        &&& #[trigger] lists(definitions, module.resolved[r], k)
                        &&& reference_class(module.resolved[r].kind) == class
                    };
                assert(lists(definitions, module.resolved[r], k));
            }
            if item is Some && used.range == range && reference_class(used.kind) == class {
                let k = choose|k: int| lists(definitions, used, k);
                assert(lists(definitions, module.resolved[last], k));
            }
        }
        if item is Some {
            lemma_with_range(bytes, before, used.range, reference_class(used.kind));
            assert(reference_asks(
                definitions,
                module,
                count as int,
                used.range,
                reference_class(used.kind),
            ));
        }
        assert forall|ranked: RankedToken| #[trigger] all.contains(ranked) implies tokens.contains(
            ranked,
        ) || exists|range: Range, class: TokenClass|
            {
                &&& #[trigger] reference_asks(definitions, module, count as int, range, class)
                &&& class.priority == ranked.priority
                &&& is_part(bytes, range, class, ranked.token)
            } by {
            if before.contains(ranked) && !tokens.contains(ranked) {
                let (range, class) = choose|range: Range, class: TokenClass|
                    {
                        &&& #[trigger] reference_asks(definitions, module, last, range, class)
                        &&& class.priority == ranked.priority
                        &&& is_part(bytes, range, class, ranked.token)
                    };
                assert(reference_asks(definitions, module, count as int, range, class));
            }
        }
    }
}

/// Every token of a file is asked for by a node, an item or a reference, and every place that one of
/// them asks for holds a token that is asked for with no higher a rank.
pub proof fn law_file_tokens(definitions: Seq<Def>, parsed: ParsedText, module: ModuleModel)
    ensures
        forall|ranked: RankedToken| #[trigger]
            file_tokens(definitions, parsed, module).contains(ranked) ==> is_asked_for(
                definitions,
                parsed,
                module,
                ranked.token,
                ranked.priority,
            ),
        forall|token: AbsoluteSemanticToken, rank: u8| #[trigger]
            is_asked_for(definitions, parsed, module, token, rank) ==> fills(
                file_tokens(definitions, parsed, module),
                token,
                rank,
            ),
{
    let bytes = parsed.bytes();
    let nodes = walk_order(parsed.rows, 0, Stop::AtComments);
    let start = syntax_tokens(parsed);
    let named = with_definitions(bytes, start, module.definitions, module.definitions.len());
    let all = file_tokens(definitions, parsed, module);
    lemma_with_nodes(parsed, nodes);
    lemma_with_definitions(bytes, start, module, module.definitions.len());
    lemma_with_references(bytes, named, definitions, module, module.resolved.len());
    assert forall|range: Range, class: TokenClass| #[trigger]
        name_asks(definitions, module, range, class) <==> item_asks(
            module,
            module.definitions.len() as int,
            range,
            class,
        ) || reference_asks(
            definitions,
            module,
            module.resolved.len() as int,
            range,
            class,
        ) by {}
    assert forall|ranked: RankedToken| #[trigger] all.contains(ranked) implies is_asked_for(
        definitions,
        parsed,
        module,
        ranked.token,
        ranked.priority,
    ) by {
        if !named.contains(ranked) {
            let (range, class) = choose|range: Range, class: TokenClass|
                {
                    &&& #[trigger] reference_asks(
                        definitions,
                        module,
                        module.resolved.len() as int,
                        range,
                        class,
                    )
                    &&& class.priority == ranked.priority
                    &&& is_part(bytes, range, class, ranked.token)
                };
            assert(name_asks(definitions, module, range, class));
        } else if !start.contains(ranked) {
            let (range, class) = choose|range: Range, class: TokenClass|
                {
                    &&& #[trigger] item_asks(
                        module,
                        module.definitions.len() as int,
                        range,
                        class,
                    )
                    &&& class.priority == ranked.priority
                    &&& is_part(bytes, range, class, ranked.token)
                };
            assert(name_asks(definitions, module, range, class));
        } else {
            assert(node_asks_for(parsed, nodes, ranked.token, ranked.priority));
        }
    }
    assert forall|token: AbsoluteSemanticToken, rank: u8| #[trigger]
        is_asked_for(definitions, parsed, module, token, rank) implies fills(all, token, rank) by {
        if node_asks_for(parsed, nodes, token, rank) {
            assert(fills(start, token, rank));
            assert(fills(named, token, rank));
        } else {
            let (range, class) = choose|range: Range, class: TokenClass|
                {
                    &&& #[trigger] name_asks(definitions, module, range, class)
                    &&& class.priority == rank
                    &&& is_part(bytes, range, class, token)
                };
            if item_asks(module, module.definitions.len() as int, range, class) {
                assert(fills(named, token, rank));
            } else {
                assert(reference_asks(
                    definitions,
                    module,
                    module.resolved.len() as int,
                    range,
                    class,
                ));
            }
        }
    }
}

/// Whether a class has a type and modifiers, by their names.
pub open spec fn is_class(
    class: TokenClass,
    word: Seq<char>,
    declaration: bool,
    readonly: bool,
    documentation: bool,
    rank: u8,
) -> bool {
    &&& class.token_type < type_names().len()
    &&& type_names()[class.token_type as int] == word
    &&& (class.token_modifiers_bitset % 2 == 1) == declaration
    &&& (class.token_modifiers_bitset / 2 % 2 == 1) == readonly
    &&& (class.token_modifiers_bitset / 4 % 2 == 1) == documentation
    &&& class.token_modifiers_bitset < 8
    &&& class.priority == rank
}

/// The modifiers stand in the order of their bits.
pub proof fn law_modifiers()
    ensures
        modifier_names()[0] == "declaration"@,
        modifier_names()[1] == "readonly"@,
        modifier_names()[2] == "documentation"@,
{
}

/// The names of procedures are functions, those of constants variables that are only read, and those
/// of types types, all of them declarations; modules have no token. References are no declarations,
/// and come behind them: calls are functions, imports namespaces, constants variables that are only
/// read, and types types.
pub proof fn law_name_classes(item: ItemKind, reference: ReferenceKind)
    ensures
        match (item, definition_class(item)) {
            (ItemKind::Module, class) => class is None,
            (ItemKind::Procedure, Some(class)) => is_class(
                class,
                "function"@,
                true,
                false,
                false,
                0,
            ),
            (ItemKind::Constant, Some(class)) => is_class(class, "variable"@, true, true, false, 0),
            (ItemKind::Type, Some(class)) => is_class(class, "type"@, true, false, false, 0),
            (_, None) => false,
        },
        match reference {
            ReferenceKind::Invoke => is_class(
                reference_class(reference),
                "function"@,
                false,
                false,
                false,
                1,
            ),
            ReferenceKind::ImportAlias | ReferenceKind::ImportTarget => is_class(
                reference_class(reference),
                "namespace"@,
                false,
                false,
                false,
                1,
            ),
            ReferenceKind::Constant => is_class(
                reference_class(reference),
                "variable"@,
                false,
                true,
                false,
                1,
            ),
            ReferenceKind::Type => is_class(
                reference_class(reference),
                "type"@,
                false,
                false,
                false,
                1,
            ),
        },
{
}

/// Comments, strings, numbers, keywords and types have a class by the kind of their node, and come
/// behind every name.
pub proof fn law_kind_classes(kind: Seq<char>)
    ensures
        match kind_class(kind) {
            Some(class) => {
                ||| kind == "comment"@ && is_class(class, "comment"@, false, false, false, 4)
                ||| kind == "doc_comment"@ && is_class(class, "comment"@, false, false, true, 4)
                ||| (kind == "string"@ || kind == "quoted_ident"@) && is_class(
                    class,
                    "string"@,
                    false,
                    false,
                    false,
                    4,
                )
                ||| (kind == "integer"@ || kind == "decimal"@ || kind == "hex"@ || kind
                    == "hex_word"@ || kind == "binary"@ || kind == "word"@) && is_class(
                    class,
                    "number"@,
                    false,
                    false,
                    false,
                    4,
                )
                ||| kind == "visibility"@ && is_class(class, "keyword"@, false, false, false, 4)
                ||| (kind == "primitive_type"@ || kind == "int_type"@ || kind == "address_space"@)
                    && is_class(class, "type"@, false, false, false, 4)
            },
            None => {
                &&& kind != "comment"@ && kind != "doc_comment"@
                &&& kind != "string"@ && kind != "quoted_ident"@
                &&& kind != "integer"@ && kind != "decimal"@ && kind != "hex"@ && kind
                    != "hex_word"@ && kind != "binary"@ && kind != "word"@
                &&& kind != "visibility"@
                &&& kind != "primitive_type"@ && kind != "int_type"@ && kind != "address_space"@
            },
        },
        match name_class(kind) {
            Some(class) => {
                ||| (kind == "function_param"@ || kind == "function_result"@) && is_class(
                    class,
                    "parameter"@,
                    true,
                    false,
                    false,
                    3,
                )
                ||| (kind == "struct_field"@ || kind == "meta_key_value"@) && is_class(
                    class,
                    "property"@,
                    true,
                    false,
                    false,
                    3,
                )
            },
            None => kind != "function_param"@ && kind != "function_result"@ && kind
                != "struct_field"@ && kind != "meta_key_value"@,
        },
{
}

/// The tokens that are sent for a file are those of its first module, each once, in the order of their
/// places; a file without a module has none.
pub proof fn law_sent_tokens(snapshot: Snapshot, path: Seq<char>, file: int)
    requires
        crate::meaning::is_file(snapshot, path, file),
    ensures
        match snapshot.semantic_tokens(path) {
            None => snapshot.files[file].modules.len() == 0,
            Some(sent) => {
                let tokens = plain_tokens(
                    file_tokens(
                        snapshot.definitions,
                        snapshot.files[file].parsed,
                        snapshot.files[file].modules[0],
                    ),
                );
                &&& snapshot.files[file].modules.len() > 0
                &&& sent == encoded_tokens(tokens)
                &&& sent.len() == tokens.len()
                &&& forall|token: AbsoluteSemanticToken| #[trigger]
                    sorted_tokens(tokens).contains(token) <==> tokens.contains(token)
            },
        },
{
    crate::meaning::lemma_is_file(snapshot, path, file);
    if snapshot.files[file].modules.len() > 0 {
        let tokens = plain_tokens(
            file_tokens(
                snapshot.definitions,
                snapshot.files[file].parsed,
                snapshot.files[file].modules[0],
            ),
        );
        let keys = token_keys(tokens);
        let order = stable_order(keys);
        law_stable_order(keys);
        let sorted = sorted_tokens(tokens);
        assert forall|token: AbsoluteSemanticToken| #[trigger]
            sorted.contains(token) <==> tokens.contains(token) by {
            if sorted.contains(token) {
                let k = choose|k: int| 0 <= k < sorted.len() && sorted[k] == token;
                assert(tokens[order[k]] == token);
            }
            if tokens.contains(token) {
                let i = choose|i: int| 0 <= i < tokens.len() && tokens[i] == token;
                assert(order.contains(i));
                let k = choose|k: int| 0 <= k < order.len() && order[k] == i;
                assert(sorted[k] == token);
            }
        }
    }
}

/// A walk that goes everywhere stops at no node; one that looks for references stops at calls and at
/// the names of constants; and one that looks for tokens stops at comments.
pub proof fn law_stops(kind: Seq<char>)
    ensures
        !Stop::Nowhere.stops(kind),
        Stop::AtReferences.stops(kind) <==> kind == "invoke"@ || kind == "const_path"@ || kind
            == "const_ident"@,
        Stop::AtComments.stops(kind) <==> kind == "comment"@ || kind == "doc_comment"@,
{
}

} // verus!
