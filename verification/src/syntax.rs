//! Syntax trees, kept as the list of their nodes in depth-first order.
use vstd::prelude::*;
use vstd::utf8::*;
use vstd::string::StringExecFns;
use crate::text::same_text;

verus! {

/// One node of a syntax tree. Offsets count bytes of the text.
pub struct SyntaxRow {
    pub depth: u32,
    pub kind: String,
    pub field: Option<String>,
    pub named: bool,
    pub range: std::ops::Range<usize>,
    pub missing: bool,
}

/// What a row holds.
pub struct Row {
    pub depth: int,
    pub kind: Seq<char>,
    pub field: Option<Seq<char>>,
    pub named: bool,
    pub start: int,
    pub end: int,
    pub missing: bool,
}

impl Row {
    /// Whether the node stands for a part of the text that could not be parsed: such nodes have a
    /// kind of their own.
    pub open spec fn is_error(self) -> bool {
        self.kind == "ERROR"@
    }
}

impl SyntaxRow {
    /// Whether the node stands for a part of the text that could not be parsed.
    pub fn is_error(&self) -> (result: bool)
        ensures
            result == self@.is_error(),
    {
        same_text(&self.kind, "ERROR")
    }
}

impl View for SyntaxRow {
    type V = Row;

    open spec fn view(&self) -> Row {
        Row {
            depth: self.depth as int,
            kind: self.kind@,
            field: match self.field {
                Some(name) => Some(name@),
                None => None,
            },
            named: self.named,
            start: self.range.start as int,
            end: self.range.end as int,
            missing: self.missing,
        }
    }
}

/// The rows of a vector.
pub open spec fn row_views(rows: Seq<SyntaxRow>) -> Seq<Row> {
    Seq::new(rows.len(), |i: int| rows[i]@)
}

/// The nodes that the grammar for Miden Assembly of `tree_sitter_masm` gives for a text, in
/// depth-first order, each with its depth, its kind, the field of its parent that it fills, whether
/// it is named, its byte range and whether it stands for a missing token. `Err` holds the message
/// when the grammar cannot be loaded, `Ok(None)` stands for a parse that gave no tree.
pub uninterp spec fn grammar_rows(text: Seq<char>) -> Result<Option<Seq<Row>>, Seq<char>>;

/// Runs `tree_sitter::Parser::parse` with the language of `tree_sitter_masm` and lists the nodes
/// that a `TreeCursor` meets on its way through the tree, from the root down, first child first. The
/// list depends on the text alone.
#[verifier::external_body]
fn parse_rows(text: &str) -> (result: Result<Option<Vec<SyntaxRow>>, String>)
    ensures
        match result {
            Ok(Some(rows)) => grammar_rows(text@) == Ok::<Option<Seq<Row>>, Seq<char>>(
                Some(row_views(rows@)),
            ),
            Ok(None) => grammar_rows(text@) == Ok::<Option<Seq<Row>>, Seq<char>>(None),
            Err(message) => grammar_rows(text@) == Err::<Option<Seq<Row>>, Seq<char>>(message@),
        },
{
    let mut parser = tree_sitter::Parser::new();
    parser.set_language(&tree_sitter_masm::LANGUAGE.into()).map_err(|error| error.to_string())?;
    Ok(parser.parse(text, None).map(|tree| {
        let (mut rows, mut cursor) = (vec![], tree.walk());
        loop {
            let node = cursor.node();
            rows.push(SyntaxRow { depth: cursor.depth(), kind: node.kind().to_string(), field: cursor.field_name().map(str::to_string), named: node.is_named(), range: node.byte_range(), missing: node.is_missing() });
            if cursor.goto_first_child() { continue }
            while !cursor.goto_next_sibling() {
                if !cursor.goto_parent() { return rows }
            }
        }
    }))
}

/// The first row at or behind `at` that is no deeper than `depth`.
pub open spec fn past_deeper(rows: Seq<Row>, depth: int, at: int) -> int
    decreases rows.len() - at,
{
    if at >= rows.len() || rows[at].depth <= depth {
        at
    } else {
        past_deeper(rows, depth, at + 1)
    }
}

/// The index behind the last row of the subtree at `node`.
pub open spec fn subtree_end(rows: Seq<Row>, node: int) -> int {
    past_deeper(rows, rows[node].depth, node + 1)
}

pub proof fn lemma_past_deeper(rows: Seq<Row>, depth: int, at: int)
    requires
        at <= rows.len(),
    ensures
        at <= past_deeper(rows, depth, at) <= rows.len(),
        past_deeper(rows, depth, at) == rows.len() || rows[past_deeper(rows, depth, at)].depth
            <= depth,
    decreases rows.len() - at,
{
    if at < rows.len() && rows[at].depth > depth {
        lemma_past_deeper(rows, depth, at + 1);
    }
}

/// The named nodes among the siblings that start at `at` and end before `end`, first to last.
pub open spec fn named_siblings(rows: Seq<Row>, at: int, end: int) -> Seq<int>
    decreases end - at,
{
    if at < 0 || at >= end || end > rows.len() {
        Seq::empty()
    } else {
        let next = subtree_end(rows, at);
        let rest = if at < next <= end {
            named_siblings(rows, next, end)
        } else {
            Seq::empty()
        };
        if rows[at].named {
            seq![at] + rest
        } else {
            rest
        }
    }
}

/// The named children of `node`, first to last.
pub open spec fn named_children(rows: Seq<Row>, node: int) -> Seq<int> {
    named_siblings(rows, node + 1, subtree_end(rows, node))
}

/// The first of the siblings from `at` on that fills the field `name`.
pub open spec fn field_sibling(rows: Seq<Row>, at: int, end: int, name: Seq<char>) -> Option<int>
    decreases end - at,
{
    if at < 0 || at >= end || end > rows.len() {
        None
    } else if rows[at].field == Some(name) {
        Some(at)
    } else if at < subtree_end(rows, at) <= end {
        field_sibling(rows, subtree_end(rows, at), end, name)
    } else {
        None
    }
}

/// The first child of `node` that fills the field `name`.
pub open spec fn child_by_field(rows: Seq<Row>, node: int, name: Seq<char>) -> Option<int> {
    field_sibling(rows, node + 1, subtree_end(rows, node), name)
}

/// Below which nodes a walk does not go.
#[derive(Clone, Copy, PartialEq, Eq)]
pub enum Stop {
    /// The walk visits every named node.
    Nowhere,
    /// The walk does not go into invocations and names of constants.
    AtReferences,
    /// The walk does not go into comments.
    AtComments,
}

impl Stop {
    /// Whether a walk leaves out what is below a node of this kind.
    pub open spec fn stops(self, kind: Seq<char>) -> bool {
        match self {
            Stop::Nowhere => false,
            Stop::AtReferences => kind == "invoke"@ || kind == "const_path"@ || kind
                == "const_ident"@,
            Stop::AtComments => kind == "comment"@ || kind == "doc_comment"@,
        }
    }

    fn stops_at(self, kind: &str) -> (stops: bool)
        ensures
            stops == self.stops(kind@),
    {
        match self {
            Stop::Nowhere => false,
            Stop::AtReferences => same_text(kind, "invoke") || same_text(kind, "const_path")
                || same_text(kind, "const_ident"),
            Stop::AtComments => same_text(kind, "comment") || same_text(kind, "doc_comment"),
        }
    }
}

/// The named nodes of the subtree at `node` in the order in which a walk visits them: a node comes
/// before its children, and of two siblings the later one is visited first.
pub open spec fn walk_order(rows: Seq<Row>, node: int, stop: Stop) -> Seq<int>
    decreases rows.len() - node, 1int, 0int,
{
    seq![node] + if stop.stops(rows[node].kind) {
        Seq::empty()
    } else {
        walk_orders(rows, node, named_children(rows, node), stop)
    }
}

/// The walks of the subtrees at `nodes`, all of them below `above`, last to first.
pub open spec fn walk_orders(rows: Seq<Row>, above: int, nodes: Seq<int>, stop: Stop) -> Seq<int>
    decreases rows.len() - above, 0int, nodes.len(),
{
    if nodes.len() == 0 {
        Seq::empty()
    } else if above < nodes.last() < rows.len() {
        walk_order(rows, nodes.last(), stop) + walk_orders(rows, above, nodes.drop_last(), stop)
    } else {
        Seq::empty()
    }
}

/// Indices as integers.
pub open spec fn ints(indices: Seq<usize>) -> Seq<int> {
    Seq::new(indices.len(), |k: int| indices[k] as int)
}

/// A syntax tree.
pub struct SyntaxTree {
    pub rows: Vec<SyntaxRow>,
}

impl View for SyntaxTree {
    type V = Seq<Row>;

    open spec fn view(&self) -> Seq<Row> {
        row_views(self.rows@)
    }
}

/// Whether rows describe a tree over a text of `len` bytes: there is a root, and every node's range
/// lies within the text.
pub open spec fn rows_within(rows: Seq<Row>, len: int) -> bool {
    rows.len() > 0 && forall|i: int|
        0 <= i < rows.len() ==> 0 <= (#[trigger] rows[i]).start <= rows[i].end <= len
}

impl SyntaxTree {
    /// Whether the tree describes a text of `len` bytes.
    pub open spec fn within(self, len: int) -> bool {
        rows_within(self@, len)
    }

    fn is_within(&self, len: usize) -> (result: bool)
        ensures
            result == self.within(len as int),
    {
        if self.rows.len() == 0 {
            return false;
        }
        let mut i: usize = 0;
        while i < self.rows.len()
            invariant
                i <= self.rows.len(),
                self.rows.len() > 0,
                forall|k: int| 0 <= k < i ==> 0 <= (#[trigger] self@[k]).start <= self@[k].end <= len,
            decreases self.rows.len() - i,
        {
            let row = &self.rows[i];
            if row.range.start > row.range.end || row.range.end > len {
                assert(!(0 <= self@[i as int].start <= self@[i as int].end <= len));
                return false;
            }
            i = i + 1;
        }
        true
    }

    /// The index behind the last node of the subtree at `node`.
    pub fn end_of(&self, node: usize) -> (end: usize)
        requires
            node < self@.len(),
        ensures
            end == subtree_end(self@, node as int),
            node < end <= self@.len(),
    {
        let count = self.rows.len();
        let depth = self.rows[node].depth;
        let mut at: usize = node + 1;
        while at < count && self.rows[at].depth > depth
            invariant
                count == self.rows.len(),
                node < at <= count,
                depth == self@[node as int].depth,
                past_deeper(self@, depth as int, node + 1) == past_deeper(
                    self@,
                    depth as int,
                    at as int,
                ),
            decreases count - at,
        {
            at = at + 1;
        }
        at
    }

    /// The named children of `node`, first to last.
    pub fn named_children_of(&self, node: usize) -> (children: Vec<usize>)
        requires
            node < self@.len(),
        ensures
            ints(children@) == named_children(self@, node as int),
            forall|k: int| 0 <= k < children@.len() ==> node < #[trigger] children@[k] < self@.len(),
    {
        let end = self.end_of(node);
        let mut children: Vec<usize> = Vec::new();
        let mut at: usize = node + 1;
        proof {
            assert(ints(children@) + named_siblings(self@, at as int, end as int) =~= named_siblings(
                self@,
                at as int,
                end as int,
            ));
            lemma_siblings_end(self@, node as int, at as int, end as int);
        }
        while at < end
            invariant
                node < at,
                at <= end <= self@.len(),
                end == subtree_end(self@, node as int),
                forall|k: int|
                    0 <= k < children@.len() ==> node < #[trigger] children@[k] < self@.len(),
                ints(children@) + named_siblings(self@, at as int, end as int) == named_siblings(
                    self@,
                    node + 1,
                    end as int,
                ),
            decreases end - at,
        {
            let ghost before = ints(children@);
            let next = self.end_of(at);
            proof {
                lemma_siblings_end(self@, node as int, at as int, end as int);
            }
            if self.rows[at].named {
                children.push(at);
                assert(ints(children@) =~= before.push(at as int));
                assert(before + (seq![at as int] + named_siblings(self@, next as int, end as int))
                    =~= before.push(at as int) + named_siblings(self@, next as int, end as int));
            }
            at = next;
        }
        assert(named_siblings(self@, at as int, end as int) =~= Seq::<int>::empty());
        assert(ints(children@) + Seq::<int>::empty() =~= ints(children@));
        children
    }

    /// The first child of `node` that fills the field `name`.
    pub fn child_with_field(&self, node: usize, name: &str) -> (child: Option<usize>)
        requires
            node < self@.len(),
        ensures
            match child {
                Some(index) => child_by_field(self@, node as int, name@) == Some(index as int)
                    && node < index < self@.len(),
                None => child_by_field(self@, node as int, name@) is None,
            },
    {
        let end = self.end_of(node);
        let mut at: usize = node + 1;
        while at < end
            invariant
                node < at,
                at <= end <= self@.len(),
                end == subtree_end(self@, node as int),
                field_sibling(self@, at as int, end as int, name@) == child_by_field(
                    self@,
                    node as int,
                    name@,
                ),
            decreases end - at,
        {
            if let Some(field) = &self.rows[at].field {
                if same_text(field, name) {
                    return Some(at);
                }
            }
            let next = self.end_of(at);
            proof {
                lemma_siblings_end(self@, node as int, at as int, end as int);
            }
            at = next;
        }
        None
    }

    /// The named nodes of the subtree at `node` in the order of a walk.
    pub fn walk(&self, node: usize, stop: Stop) -> (visited: Vec<usize>)
        requires
            node < self@.len(),
        ensures
            ints(visited@) == walk_order(self@, node as int, stop),
            forall|k: int| 0 <= k < visited@.len() ==> node <= #[trigger] visited@[k] < self@.len(),
    {
        let mut visited: Vec<usize> = Vec::new();
        self.walk_into(node, stop, &mut visited);
        assert(ints(visited@) =~= walk_order(self@, node as int, stop));
        visited
    }

    fn walk_into(&self, node: usize, stop: Stop, visited: &mut Vec<usize>)
        requires
            node < self@.len(),
        ensures
            ints(final(visited)@) == ints(old(visited)@) + walk_order(self@, node as int, stop),
            forall|k: int|
                old(visited)@.len() <= k < final(visited)@.len() ==> node
                    <= #[trigger] final(visited)@[k] < self@.len(),
            old(visited)@.len() <= final(visited)@.len(),
        decreases self@.len() - node,
    {
        let ghost start = ints(visited@);
        let ghost first = visited@.len();
        visited.push(node);
        assert(ints(visited@) =~= start + seq![node as int]);
        if stop.stops_at(&self.rows[node].kind) {
            assert(start + (seq![node as int] + Seq::<int>::empty()) =~= start + seq![node as int]);
            return;
        }
        let children = self.named_children_of(node);
        let ghost kids = ints(children@);
        let ghost all = walk_orders(self@, node as int, kids, stop);
        let mut left: usize = children.len();
        assert(kids.take(left as int) =~= kids);
        assert(start + (seq![node as int] + all) =~= ints(visited@) + all);
        while left > 0
            invariant
                node < self@.len(),
                left <= children.len(),
                kids == ints(children@),
                first <= visited@.len(),
                forall|k: int|
                    0 <= k < children@.len() ==> node < #[trigger] children@[k] < self@.len(),
                forall|k: int|
                    first <= k < visited@.len() ==> node <= #[trigger] visited@[k] < self@.len(),
                ints(visited@) + walk_orders(self@, node as int, kids.take(left as int), stop)
                    == start + (seq![node as int] + all),
            decreases left,
        {
            let ghost before = visited@;
            left = left - 1;
            let child = children[left];
            self.walk_into(child, stop, visited);
            proof {
                let taken = kids.take(left + 1);
                assert(taken.last() == child as int);
                assert(taken.drop_last() =~= kids.take(left as int));
                let rest = walk_orders(self@, node as int, kids.take(left as int), stop);
                assert(ints(before) + (walk_order(self@, child as int, stop) + rest) =~= ints(
                    visited@,
                ) + rest);
                assert forall|k: int| first <= k < visited@.len() implies node
                    <= #[trigger] visited@[k] < self@.len() by {
                    if k < before.len() {
                        assert(ints(visited@)[k] == ints(before)[k]);
                        assert(visited@[k] == before[k]);
                    }
                }
            }
        }
        assert(kids.take(0) =~= Seq::<int>::empty());
        assert(ints(visited@) + Seq::<int>::empty() =~= ints(visited@));
    }
}

/// A child's subtree ends no later than its parent's.
proof fn lemma_siblings_end(rows: Seq<Row>, node: int, at: int, end: int)
    requires
        0 <= node < at <= end,
        end == subtree_end(rows, node),
        end <= rows.len(),
        at == node + 1 || at < end,
    ensures
        at < end ==> at < subtree_end(rows, at) <= end,
{
    if at < end {
        lemma_past_deeper(rows, rows[node].depth, node + 1);
        lemma_deeper_inside(rows, rows[node].depth, node + 1, at);
        lemma_past_deeper(rows, rows[at].depth, at + 1);
        if at + 1 <= end {
            lemma_past_within(rows, rows[node].depth, rows[at].depth, node + 1, at + 1);
        }
    }
}

proof fn lemma_deeper_inside(rows: Seq<Row>, depth: int, from: int, at: int)
    requires
        0 <= from <= at < past_deeper(rows, depth, from),
        from <= rows.len(),
    ensures
        at < rows.len(),
        rows[at].depth > depth,
        past_deeper(rows, depth, at) == past_deeper(rows, depth, from),
    decreases at - from,
{
    lemma_past_deeper(rows, depth, from);
    if at > from {
        lemma_deeper_inside(rows, depth, from + 1, at);
    }
}

proof fn lemma_past_within(rows: Seq<Row>, outer: int, inner: int, from: int, at: int)
    requires
        0 <= from < at <= past_deeper(rows, outer, from),
        from <= rows.len(),
        outer <= inner,
    ensures
        past_deeper(rows, inner, at) <= past_deeper(rows, outer, from),
    decreases past_deeper(rows, outer, from) - at,
{
    lemma_past_deeper(rows, outer, from);
    if at < past_deeper(rows, outer, from) && rows[at].depth > inner {
        lemma_past_within(rows, outer, inner, from, at + 1);
    }
}

/// The message when a text has no syntax tree.
pub open spec fn parse_failure(text: Seq<char>) -> Seq<char> {
    match grammar_rows(text) {
        Err(message) => "failed to load tree-sitter-masm language: "@ + message,
        Ok(_) => "tree-sitter failed to parse document"@,
    }
}

/// The syntax tree of a text: the nodes that the grammar gives, where there are any and they lie
/// within the text.
pub open spec fn tree_rows(text: Seq<char>) -> Option<Seq<Row>> {
    match grammar_rows(text) {
        Ok(Some(rows)) => if rows_within(rows, encode_utf8(text).len() as int) {
            Some(rows)
        } else {
            None
        },
        _ => None,
    }
}

/// Parses `text`.
pub fn parse_tree(text: &str) -> (result: Result<SyntaxTree, String>)
    ensures
        match result {
            Ok(tree) => tree_rows(text@) == Some(tree@) && tree.within(
                encode_utf8(text@).len() as int,
            ),
            Err(message) => tree_rows(text@) is None && message@ == parse_failure(text@),
        },
{
    match parse_rows(text) {
        Ok(Some(rows)) => {
            let tree = SyntaxTree { rows };
            if tree.is_within(text.as_bytes().len()) {
                Ok(tree)
            } else {
                Err("tree-sitter failed to parse document".to_owned())
            }
        },
        Ok(None) => Err("tree-sitter failed to parse document".to_owned()),
        Err(error) => {
            let mut message = "failed to load tree-sitter-masm language: ".to_owned();
            message.append(&error);
            Err(message)
        },
    }
}

} // verus!
