//! Open documents: text, line table, syntax tree and syntax diagnostics.
use vstd::prelude::*;
use vstd::string::StringExecFns;
use vstd::utf8::*;
use crate::order::{arrange, in_order, key_le, key_views, law_stable_order, sort_by_keys, stable_order};
use crate::position::{byte_range_to_lsp_range, compute_line_offsets, law_offsets_follow_positions,
    lemma_offset_on_boundary, line_starts, offset_at, offset_to_position, position_at,
    position_error, position_to_offset, range_at, Position, Range};
use crate::syntax::{ints, parse_failure, parse_tree, tree_rows, walk_order, Row, Stop, SyntaxTree};
use crate::text::{law_splice, lemma_boundary, replace_part, same_text, splice};

verus! {

/// How serious a diagnostic is.
#[derive(Debug, Clone, Copy, PartialEq, Eq, Structural)]
pub enum Severity {
    Error,
    Warning,
}

/// A message about a range of a document.
#[derive(Debug)]
pub struct Diagnostic {
    pub range: Range,
    pub severity: Severity,
    pub message: String,
}

/// What a diagnostic says.
pub struct Finding {
    pub range: Range,
    pub severity: Severity,
    pub message: Seq<char>,
}

impl View for Diagnostic {
    type V = Finding;

    open spec fn view(&self) -> Finding {
        Finding { range: self.range, severity: self.severity, message: self.message@ }
    }
}

/// What a list of diagnostics says.
pub open spec fn findings(diagnostics: Seq<Diagnostic>) -> Seq<Finding> {
    Seq::new(diagnostics.len(), |k: int| diagnostics[k]@)
}

/// Where the range of a diagnostic ends: an empty range is widened by one byte, as far as the text
/// goes.
pub open spec fn widened_end(row: Row, len: int) -> int {
    if row.end > row.start {
        row.end
    } else if row.start + 1 < len {
        row.start + 1
    } else {
        len
    }
}

/// What is reported for a node that marks an error.
pub open spec fn row_finding(bytes: Seq<u8>, row: Row) -> Finding {
    Finding {
        range: range_at(bytes, row.start, widened_end(row, bytes.len() as int)),
        severity: Severity::Error,
        message: if row.missing {
            "missing "@ + row.kind
        } else {
            "syntax error"@
        },
    }
}

/// What is reported for the nodes that `visited` lists.
pub open spec fn row_findings(bytes: Seq<u8>, rows: Seq<Row>, visited: Seq<int>) -> Seq<Finding>
    decreases visited.len(),
{
    if visited.len() == 0 {
        Seq::empty()
    } else {
        let before = row_findings(bytes, rows, visited.drop_last());
        let row = rows[visited.last()];
        if row.is_error() || row.missing {
            before.push(row_finding(bytes, row))
        } else {
            before
        }
    }
}

/// Findings are sorted by where they start.
pub open spec fn finding_keys(list: Seq<Finding>) -> Seq<Seq<u64>> {
    Seq::new(
        list.len(),
        |k: int| seq![list[k].range.start.line as u64, list[k].range.start.character as u64],
    )
}

/// Leaves out each finding that says of a range what the one before it says.
pub open spec fn without_repeats(list: Seq<Finding>) -> Seq<Finding>
    decreases list.len(),
{
    if list.len() == 0 {
        Seq::empty()
    } else {
        let before = without_repeats(list.drop_last());
        if before.len() > 0 && before.last().range == list.last().range && before.last().message
            == list.last().message {
            before
        } else {
            before.push(list.last())
        }
    }
}

/// The syntax diagnostics of a text with the given syntax tree: one for each error and each missing
/// token, in the order in which they start, repeats left out.
pub open spec fn syntax_findings(bytes: Seq<u8>, rows: Seq<Row>) -> Seq<Finding> {
    let found = row_findings(bytes, rows, walk_order(rows, 0, Stop::Nowhere));
    without_repeats(arrange(found, stable_order(finding_keys(found))))
}

/// Sorts diagnostics by where they start.
fn sort_diagnostics(found: Vec<Diagnostic>) -> (sorted: Vec<Diagnostic>)
    ensures
        findings(sorted@) == arrange(
            findings(found@),
            stable_order(finding_keys(findings(found@))),
        ),
{
    let ghost list = findings(found@);
    let mut keys: Vec<Vec<u64>> = Vec::new();
    let mut i: usize = 0;
    while i < found.len()
        invariant
            i <= found.len(),
            keys.len() == i,
            list == findings(found@),
            forall|k: int| 0 <= k < i ==> (#[trigger] keys@[k])@ == finding_keys(list)[k],
        decreases found.len() - i,
    {
        let start = found[i].range.start;
        let key: Vec<u64> = vec![start.line as u64, start.character as u64];
        assert(key@ =~= finding_keys(list)[i as int]);
        keys.push(key);
        i = i + 1;
    }
    assert(key_views(keys@) =~= finding_keys(list));
    let sorted = sort_by_keys(found, &keys);
    proof {
        law_stable_order(finding_keys(list));
        assert(findings(sorted@) =~= arrange(list, stable_order(finding_keys(list))));
    }
    sorted
}

/// Leaves out repeats that stand next to each other.
fn drop_repeats(list: Vec<Diagnostic>) -> (kept: Vec<Diagnostic>)
    ensures
        findings(kept@) == without_repeats(findings(list@)),
{
    let ghost all = findings(list@);
    let mut list = list;
    let mut kept: Vec<Diagnostic> = Vec::new();
    let ghost mut done: int = 0;
    assert(findings(kept@) =~= without_repeats(all.take(0)));
    while list.len() > 0
        invariant
            0 <= done <= all.len(),
            findings(list@) == all.skip(done),
            findings(kept@) == without_repeats(all.take(done)),
        decreases list.len(),
    {
        let ghost before = list@;
        let next = list.remove(0);
        proof {
            assert(next@ == findings(before)[0]);
            assert(findings(list@) =~= findings(before).skip(1));
            assert(all.skip(done).skip(1) =~= all.skip(done + 1));
            assert(all.take(done + 1).drop_last() =~= all.take(done));
            assert(all.take(done + 1).last() == next@);
        }
        let repeats = if kept.len() > 0 {
            let last = &kept[kept.len() - 1];
            assert(findings(kept@).last() == last@);
            last.range == next.range && same_text(&last.message, &next.message)
        } else {
            false
        };
        let ghost prior = findings(kept@);
        if !repeats {
            kept.push(next);
            assert(findings(kept@) =~= prior.push(next@));
        }
        proof {
            done = done + 1;
        }
    }
    assert(all.take(done) =~= all);
    kept
}

/// The syntax diagnostics of `text` with the syntax tree `tree`.
pub fn collect_syntax_diagnostics(text: &str, tree: &SyntaxTree) -> (diagnostics: Vec<Diagnostic>)
    requires
        tree.within(encode_utf8(text@).len() as int),
    ensures
        findings(diagnostics@) == syntax_findings(encode_utf8(text@), tree@),
{
    let ghost bytes = encode_utf8(text@);
    let len = text.as_bytes().len();
    let line_offsets = compute_line_offsets(text);
    let visited = tree.walk(0, Stop::Nowhere);
    let ghost order = ints(visited@);
    let mut found: Vec<Diagnostic> = Vec::new();
    let mut i: usize = 0;
    assert(findings(found@) =~= row_findings(bytes, tree@, order.take(0)));
    while i < visited.len()
        invariant
            i <= visited.len(),
            bytes == encode_utf8(text@),
            len == bytes.len(),
            line_offsets@ == line_starts(bytes),
            tree.within(len as int),
            order == ints(visited@),
            forall|k: int| 0 <= k < visited@.len() ==> 0 <= #[trigger] visited@[k] < tree@.len(),
            findings(found@) == row_findings(bytes, tree@, order.take(i as int)),
        decreases visited.len() - i,
    {
        let row = &tree.rows[visited[i]];
        proof {
            assert(tree@[visited@[i as int] as int] == row@);
            assert(order.take(i + 1).drop_last() =~= order.take(i as int));
        }
        if row.is_error() || row.missing {
            let ghost before = findings(found@);
            let start = row.range.start;
            let end = if row.range.end > start {
                row.range.end
            } else if start < len && start + 1 < len {
                start + 1
            } else {
                len
            };
            let range = byte_range_to_lsp_range(text, &line_offsets, start, end);
            let message = if row.missing {
                let mut message = "missing ".to_owned();
                message.append(&row.kind);
                message
            } else {
                "syntax error".to_owned()
            };
            found.push(Diagnostic { range, severity: Severity::Error, message });
            assert(findings(found@) =~= before.push(row_finding(bytes, row@)));
        }
        i = i + 1;
    }
    assert(order.take(i as int) =~= order);
    drop_repeats(sort_diagnostics(found))
}

/// Parses `text` and collects its syntax diagnostics.
pub fn parse_text(text: &str) -> (result: Result<(SyntaxTree, Vec<Diagnostic>), String>)
    ensures
        match result {
            Ok((tree, diagnostics)) => tree_rows(text@) == Some(tree@) && tree.within(
                encode_utf8(text@).len() as int,
            ) && findings(diagnostics@) == syntax_findings(encode_utf8(text@), tree@),
            Err(message) => tree_rows(text@) is None && message@ == parse_failure(text@),
        },
{
    match parse_tree(text) {
        Ok(tree) => {
            let diagnostics = collect_syntax_diagnostics(text, &tree);
            Ok((tree, diagnostics))
        },
        Err(message) => Err(message),
    }
}

/// One change of a document: a new text for a range, or for the whole document.
pub struct TextChange {
    pub range: Option<Range>,
    pub text: String,
}

/// What a list of changes does to a text.
pub enum Edit {
    /// All changes were made, and this is the text.
    Applied { text: Seq<char> },
    /// A range has no place in the text that the changes before it made.
    Refused { text: Seq<char>, message: Seq<char> },
    /// A range ends before it starts.
    Reversed,
}

/// Makes the changes one after another; each range speaks of the text that the changes before it
/// made.
pub open spec fn edited(text: Seq<char>, changes: Seq<TextChange>) -> Edit
    decreases changes.len(),
{
    if changes.len() == 0 {
        Edit::Applied { text }
    } else {
        let bytes = encode_utf8(text);
        let insert = changes[0].text@;
        match changes[0].range {
            None => edited(insert, changes.drop_first()),
            Some(range) => match (offset_at(bytes, range.start), offset_at(bytes, range.end)) {
                (None, _) => Edit::Refused { text, message: position_error(bytes, range.start) },
                (Some(_), None) => Edit::Refused {
                    text,
                    message: position_error(bytes, range.end),
                },
                (Some(start), Some(end)) => if start > end {
                    Edit::Reversed
                } else {
                    edited(splice(text, start, end, insert), changes.drop_first())
                },
            },
        }
    }
}

/// The outcome of a list of changes.
enum Outcome {
    Applied,
    Refused(String),
    Reversed,
}

/// Makes `changes` in `text` up to the first that cannot be made.
fn make_changes(text: &mut String, changes: &Vec<TextChange>) -> (outcome: Outcome)
    ensures
        match outcome {
            Outcome::Applied => edited(old(text)@, changes@) == (Edit::Applied {
                text: final(text)@,
            }),
            Outcome::Refused(message) => edited(old(text)@, changes@) == (Edit::Refused {
                text: final(text)@,
                message: message@,
            }),
            Outcome::Reversed => edited(old(text)@, changes@) is Reversed,
        },
{
    let ghost first = text@;
    let mut i: usize = 0;
    assert(changes@.skip(0) =~= changes@);
    while i < changes.len()
        invariant
            i <= changes.len(),
            first == old(text)@,
            edited(first, changes@) == edited(text@, changes@.skip(i as int)),
        decreases changes.len() - i,
    {
        let change = &changes[i];
        assert(changes@.skip(i as int).drop_first() =~= changes@.skip(i + 1));
        assert(changes@.skip(i as int)[0] == change);
        if let Some(range) = change.range {
            let ghost bytes = encode_utf8(text@);
            assert(changes@.skip(i as int)[0].range == Some(range));
            let size = text.as_str().as_bytes().len();
            assert(size == bytes.len());
            let offsets = compute_line_offsets(text);
            let start = match position_to_offset(text, &offsets, range.start) {
                Ok(start) => start,
                Err(message) => return Outcome::Refused(message),
            };
            let end = match position_to_offset(text, &offsets, range.end) {
                Ok(end) => end,
                Err(message) => return Outcome::Refused(message),
            };
            if start > end {
                return Outcome::Reversed;
            }
            proof {
                encode_utf8_valid_utf8(text@);
                lemma_offset_on_boundary(bytes, range.start);
                lemma_offset_on_boundary(bytes, range.end);
                lemma_boundary(bytes, start as int);
                lemma_boundary(bytes, end as int);
            }
            *text = replace_part(text, start, end, &change.text);
        } else {
            *text = change.text.clone();
        }
        i = i + 1;
    }
    Outcome::Applied
}

/// An open document.
pub struct TextDocument {
    uri: String,
    version: i32,
    text: String,
    line_offsets: Vec<usize>,
    tree: SyntaxTree,
    syntax_diagnostics: Vec<Diagnostic>,
}

/// What a document holds.
pub struct DocumentState {
    pub uri: Seq<char>,
    pub version: i32,
    pub text: Seq<char>,
    pub rows: Seq<Row>,
    pub findings: Seq<Finding>,
}

impl View for TextDocument {
    type V = DocumentState;

    closed spec fn view(&self) -> DocumentState {
        DocumentState {
            uri: self.uri@,
            version: self.version,
            text: self.text@,
            rows: self.tree@,
            findings: findings(self.syntax_diagnostics@),
        }
    }
}

impl TextDocument {
    /// The line table belongs to the text.
    pub closed spec fn well_formed(self) -> bool {
        self.line_offsets@ == line_starts(encode_utf8(self.text@))
    }

    /// Opens a document.
    pub fn new(uri: String, version: i32, text: String) -> (result: Result<TextDocument, String>)
        ensures
            match result {
                Ok(document) => document.well_formed() && document@.uri == uri@ && document@.version
                    == version && document@.text == text@ && tree_rows(text@) == Some(
                    document@.rows,
                ) && document@.findings == syntax_findings(encode_utf8(text@), document@.rows),
                Err(message) => tree_rows(text@) is None && message@ == parse_failure(text@),
            },
    {
        match parse_text(&text) {
            Ok((tree, syntax_diagnostics)) => {
                let line_offsets = compute_line_offsets(&text);
                Ok(TextDocument { uri, version, text, line_offsets, tree, syntax_diagnostics })
            },
            Err(message) => Err(message),
        }
    }

    /// The document's address.
    pub fn uri(&self) -> (uri: &str)
        ensures
            uri@ == self@.uri,
    {
        &self.uri
    }

    /// The version that the client gave last.
    pub fn version(&self) -> (version: i32)
        ensures
            version == self@.version,
    {
        self.version
    }

    /// The text.
    pub fn text(&self) -> (text: &str)
        ensures
            text@ == self@.text,
    {
        &self.text
    }

    /// The syntax diagnostics of the text that was parsed last.
    pub fn syntax_diagnostics(&self) -> (diagnostics: &[Diagnostic])
        ensures
            findings(diagnostics@) == self@.findings,
    {
        self.syntax_diagnostics.as_slice()
    }

    /// Whether no range in `changes` ends before it starts when its turn comes.
    pub fn accepts(&self, changes: &Vec<TextChange>) -> (result: bool)
        ensures
            result == !(edited(self@.text, changes@) is Reversed),
    {
        let mut text = self.text.clone();
        match make_changes(&mut text, changes) {
            Outcome::Reversed => false,
            _ => true,
        }
    }

    /// Makes `changes`, parses the new text and takes over `version`. Where a range has no place in
    /// the text, the changes before it stay made, and tree, diagnostics and version stay as they
    /// were.
    pub fn apply_changes(&mut self, version: i32, changes: Vec<TextChange>) -> (result: Result<
        (),
        String,
    >)
        requires
            old(self).well_formed(),
            !(edited(old(self)@.text, changes@) is Reversed),
        ensures
            final(self).well_formed(),
            final(self)@.uri == old(self)@.uri,
            match edited(old(self)@.text, changes@) {
                Edit::Refused { text, message } => {
                    &&& result matches Err(error) && error@ == message
                    &&& final(self)@ == (DocumentState { text, ..old(self)@ })
                },
                Edit::Applied { text } => match tree_rows(text) {
                    Some(rows) => {
                        &&& result is Ok
                        &&& final(self)@ == (DocumentState {
                            uri: old(self)@.uri,
                            version,
                            text,
                            rows,
                            findings: syntax_findings(encode_utf8(text), rows),
                        })
                    },
                    None => {
                        &&& result matches Err(error) && error@ == parse_failure(text)
                        &&& final(self)@ == (DocumentState { text, ..old(self)@ })
                    },
                },
                Edit::Reversed => true,
            },
    {
        let outcome = make_changes(&mut self.text, &changes);
        self.line_offsets = compute_line_offsets(&self.text);
        if let Outcome::Refused(message) = outcome {
            return Err(message);
        }
        match parse_text(&self.text) {
            Ok((tree, diagnostics)) => {
                self.tree = tree;
                self.syntax_diagnostics = diagnostics;
                self.version = version;
                Ok(())
            },
            Err(message) => Err(message),
        }
    }

    /// The byte offset of `position`.
    pub fn position_to_offset(&self, position: Position) -> (result: Result<usize, String>)
        requires
            self.well_formed(),
        ensures
            match result {
                Ok(offset) => offset_at(encode_utf8(self@.text), position) == Some(offset as int),
                Err(message) => offset_at(encode_utf8(self@.text), position) is None && message@
                    == position_error(encode_utf8(self@.text), position),
            },
    {
        position_to_offset(&self.text, &self.line_offsets, position)
    }

    /// The position of the byte offset `offset`.
    pub fn offset_to_position(&self, offset: usize) -> (position: Position)
        requires
            self.well_formed(),
        ensures
            position == position_at(encode_utf8(self@.text), offset as int),
    {
        offset_to_position(&self.text, &self.line_offsets, offset)
    }

    /// The byte offsets of the two ends of `range`.
    pub fn range_to_offsets(&self, range: Range) -> (result: Result<(usize, usize), String>)
        requires
            self.well_formed(),
        ensures
            ({
                let bytes = encode_utf8(self@.text);
                match result {
                    Ok((start, end)) => offset_at(bytes, range.start) == Some(start as int)
                        && offset_at(bytes, range.end) == Some(end as int),
                    Err(message) => {
                        ||| offset_at(bytes, range.start) is None && message@ == position_error(
                            bytes,
                            range.start,
                        )
                        ||| offset_at(bytes, range.start) is Some && offset_at(bytes, range.end)
                            is None && message@ == position_error(bytes, range.end)
                    },
                }
            }),
    {
        let start = match self.position_to_offset(range.start) {
            Ok(start) => start,
            Err(message) => return Err(message),
        };
        match self.position_to_offset(range.end) {
            Ok(end) => Ok((start, end)),
            Err(message) => Err(message),
        }
    }
}

/// The bytes that a list of changes brings in.
pub open spec fn inserted_len(changes: Seq<TextChange>) -> nat
    decreases changes.len(),
{
    if changes.len() == 0 {
        0
    } else {
        encode_utf8(changes[0].text@).len() + inserted_len(changes.drop_first())
    }
}

/// Changes in ranges that do not end before they start are never refused for their order, whatever
/// the text, as long as what they make can be addressed.
pub proof fn law_ordered_ranges_are_accepted(text: Seq<char>, changes: Seq<TextChange>)
    requires
        forall|k: int|
            0 <= k < changes.len() ==> match (#[trigger] changes[k]).range {
                Some(range) => !range.end.before(range.start),
                None => true,
            },
        encode_utf8(text).len() + inserted_len(changes) <= usize::MAX,
    ensures
        !(edited(text, changes) is Reversed),
    decreases changes.len(),
{
    if changes.len() > 0 {
        let bytes = encode_utf8(text);
        let rest = changes.drop_first();
        assert forall|k: int| 0 <= k < rest.len() implies match (#[trigger] rest[k]).range {
            Some(range) => !range.end.before(range.start),
            None => true,
        } by {
            assert(rest[k] == changes[k + 1]);
        }
        match changes[0].range {
            None => law_ordered_ranges_are_accepted(changes[0].text@, rest),
            Some(range) => {
                if let (Some(start), Some(end)) = (
                    offset_at(bytes, range.start),
                    offset_at(bytes, range.end),
                ) {
                    encode_utf8_valid_utf8(text);
                    law_offsets_follow_positions(bytes, range.start, range.end);
                    lemma_offset_on_boundary(bytes, range.start);
                    lemma_offset_on_boundary(bytes, range.end);
                    lemma_boundary(bytes, start);
                    lemma_boundary(bytes, end);
                    law_splice(text, start, end, changes[0].text@);
                    law_ordered_ranges_are_accepted(
                        splice(text, start, end, changes[0].text@),
                        rest,
                    );
                }
            },
        }
    }
}

/// A change of the whole document makes what came before it irrelevant.
pub proof fn law_full_change_replaces(text: Seq<char>, change: TextChange, rest: Seq<TextChange>)
    requires
        change.range is None,
    ensures
        edited(text, seq![change] + rest) == edited(change.text@, rest),
{
    assert((seq![change] + rest).drop_first() =~= rest);
}

/// Whether findings stand in the order in which they start.
pub open spec fn in_order_of_start(list: Seq<Finding>) -> bool {
    forall|i: int, j: int|
        0 <= i < j < list.len() ==> !(#[trigger] list[j]).range.start.before(
            (#[trigger] list[i]).range.start,
        )
}

/// Whether no finding says of a range what the one before it says.
pub open spec fn no_repeats(list: Seq<Finding>) -> bool {
    forall|i: int, j: int|
        0 <= i < j < list.len() && j == i + 1 ==> (#[trigger] list[i]).range != (
        #[trigger] list[j]).range || list[i].message != list[j].message
}

proof fn lemma_without_repeats(list: Seq<Finding>)
    requires
        in_order_of_start(list),
    ensures
        in_order_of_start(without_repeats(list)),
        no_repeats(without_repeats(list)),
        forall|i: int|
            0 <= i < without_repeats(list).len() ==> list.contains(#[trigger] without_repeats(list)[i]),
    decreases list.len(),
{
    if list.len() > 0 {
        let shorter = list.drop_last();
        assert(in_order_of_start(shorter));
        lemma_without_repeats(shorter);
        let before = without_repeats(shorter);
        let after = without_repeats(list);
        assert forall|i: int| 0 <= i < after.len() implies list.contains(#[trigger] after[i]) by {
            if i < before.len() {
                assert(shorter.contains(before[i]));
                let k = shorter.index_of(before[i]);
                assert(list[k] == after[i]);
            } else {
                assert(list[list.len() - 1] == after[i]);
            }
        }
        assert forall|i: int, j: int| 0 <= i < j < after.len() implies !(
        #[trigger] after[j]).range.start.before((#[trigger] after[i]).range.start) by {
            if j == before.len() {
                assert(shorter.contains(before[i]));
                let k = shorter.index_of(before[i]);
                assert(list[k] == after[i]);
                assert(list[list.len() - 1] == after[j]);
            } else {
                assert(after[i] == before[i] && after[j] == before[j]);
            }
        }
    }
}

/// Syntax diagnostics stand in the order in which they start, none right behind its like.
pub proof fn law_diagnostics_are_sorted(bytes: Seq<u8>, rows: Seq<Row>)
    ensures
        in_order_of_start(syntax_findings(bytes, rows)),
        no_repeats(syntax_findings(bytes, rows)),
{
    let found = row_findings(bytes, rows, walk_order(rows, 0, Stop::Nowhere));
    let keys = finding_keys(found);
    let order = stable_order(keys);
    law_stable_order(keys);
    let sorted = arrange(found, order);
    assert forall|i: int, j: int| 0 <= i < j < sorted.len() implies !(
    #[trigger] sorted[j]).range.start.before((#[trigger] sorted[i]).range.start) by {
        assert(in_order(keys, order[i], order[j]));
        let a = keys[order[i]];
        let b = keys[order[j]];
        assert(key_le(a, b));
        assert(a[0] == sorted[i].range.start.line && b[0] == sorted[j].range.start.line);
        if a[0] == b[0] {
            assert(key_le(a.drop_first(), b.drop_first()));
            assert(a.drop_first()[0] == a[1] && b.drop_first()[0] == b[1]);
        }
    }
    lemma_without_repeats(sorted);
}

} // verus!
