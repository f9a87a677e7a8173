//! Parsed source files.
use vstd::prelude::*;
use vstd::slice::slice_subrange;
use vstd::utf8::*;
use crate::position::{byte_range_to_lsp_range, compute_line_offsets, line_starts, range_at, Range};
use crate::syntax::{child_by_field, ints, named_children, parse_failure, parse_tree, tree_rows, Row,
    SyntaxTree};
use crate::text::join;

verus! {

/// What is reported for bytes that are not UTF-8.
pub uninterp spec fn utf8_failure(bytes: Seq<u8>) -> Seq<char>;

/// `std::str::from_utf8`: the text that the bytes encode, or the message of the error when they are
/// not UTF-8.
#[verifier::external_body]
fn decode_bytes(bytes: &[u8]) -> (result: Result<String, String>)
    ensures
        match result {
            Ok(text) => valid_utf8(bytes@) && text@ == decode_utf8(bytes@),
            Err(message) => !valid_utf8(bytes@) && message@ == utf8_failure(bytes@),
        },
{
    match std::str::from_utf8(bytes) {
        Ok(text) => Ok(text.to_string()),
        Err(error) => Err(error.to_string()),
    }
}

/// A source file with its line table and its syntax tree.
pub struct ParsedFile {
    pub text: String,
    pub line_offsets: Vec<usize>,
    pub tree: SyntaxTree,
}

/// The model of a parsed file.
pub struct ParsedText {
    pub text: Seq<char>,
    pub rows: Seq<Row>,
}

impl ParsedText {
    /// The encoded text.
    pub open spec fn bytes(self) -> Seq<u8> {
        encode_utf8(self.text)
    }

    /// The text of a node, or what is reported for it.
    pub open spec fn node_text(self, node: int) -> Result<Seq<char>, Seq<char>> {
        let bytes = self.bytes().subrange(self.rows[node].start, self.rows[node].end);
        if valid_utf8(bytes) {
            Ok(decode_utf8(bytes))
        } else {
            Err("invalid UTF-8 in syntax tree: "@ + utf8_failure(bytes))
        }
    }

    /// Where a node stands.
    pub open spec fn node_range(self, node: int) -> Range {
        range_at(self.bytes(), self.rows[node].start, self.rows[node].end)
    }

    /// The first child of a node that fills a field.
    pub open spec fn field(self, node: int, name: Seq<char>) -> Option<int> {
        child_by_field(self.rows, node, name)
    }
}

impl View for ParsedFile {
    type V = ParsedText;

    open spec fn view(&self) -> ParsedText {
        ParsedText { text: self.text@, rows: self.tree@ }
    }
}

impl ParsedFile {
    /// The line table belongs to the text, and the tree describes it.
    pub open spec fn well_formed(self) -> bool {
        &&& self.line_offsets@ == line_starts(encode_utf8(self.text@))
        &&& self.tree.within(encode_utf8(self.text@).len() as int)
    }

    /// Parses a text.
    pub fn parse(text: String) -> (result: Result<ParsedFile, String>)
        ensures
            match result {
                Ok(file) => file.well_formed() && file@.text == text@ && tree_rows(text@) == Some(
                    file@.rows,
                ),
                Err(message) => tree_rows(text@) is None && message@ == parse_failure(text@),
            },
    {
        match parse_tree(&text) {
            Ok(tree) => {
                let line_offsets = compute_line_offsets(&text);
                Ok(ParsedFile { text, line_offsets, tree })
            },
            Err(message) => Err(message),
        }
    }

    /// The text of a node.
    pub fn node_text(&self, node: usize) -> (result: Result<String, String>)
        requires
            self.well_formed(),
            node < self@.rows.len(),
        ensures
            match result {
                Ok(text) => self@.node_text(node as int) == Ok::<Seq<char>, Seq<char>>(text@),
                Err(message) => self@.node_text(node as int) == Err::<Seq<char>, Seq<char>>(
                    message@,
                ),
            },
    {
        let row = &self.tree.rows[node];
        assert(self@.rows[node as int] == row@);
        let bytes = self.text.as_str().as_bytes();
        match decode_bytes(slice_subrange(bytes, row.range.start, row.range.end)) {
            Ok(text) => Ok(text),
            Err(error) => Err(join("invalid UTF-8 in syntax tree: ", &error)),
        }
    }

    /// Where a node stands.
    pub fn node_range(&self, node: usize) -> (range: Range)
        requires
            self.well_formed(),
            node < self@.rows.len(),
        ensures
            range == self@.node_range(node as int),
    {
        let row = &self.tree.rows[node];
        assert(self@.rows[node as int] == row@);
        byte_range_to_lsp_range(&self.text, &self.line_offsets, row.range.start, row.range.end)
    }

    /// The first named child of a node.
    pub fn first_named_child(&self, node: usize) -> (child: Option<usize>)
        requires
            node < self@.rows.len(),
        ensures
            match child {
                Some(child) => named_children(self@.rows, node as int).len() > 0 && named_children(
                    self@.rows,
                    node as int,
                )[0] == child && node < child < self@.rows.len(),
                None => named_children(self@.rows, node as int).len() == 0,
            },
    {
        let children = self.tree.named_children_of(node);
        assert(ints(children@).len() == children@.len());
        if children.len() > 0 {
            assert(ints(children@)[0] == children@[0]);
            Some(children[0])
        } else {
            None
        }
    }
}

} // verus!
