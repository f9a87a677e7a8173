//! Completion.
use vstd::prelude::*;
use vstd::string::StringExecFns;
use vstd::utf8::*;
use crate::model::{defs, find_import, import_entries, lookup, text_view, Alias, Context, ContextKey,
    Def, Definition, ModuleModel, SymbolKind};
use crate::order::{arrange, byte_key, in_order, key_le, key_of, key_views, law_stable_order,
    sort_by_keys, stable_order};
use crate::position::{byte_range_to_lsp_range, compute_line_offsets, lemma_offset_on_boundary,
    offset_at, position_to_offset, range_at, Position, Range};
use crate::resolve::{alias_target_to_path, find_in_context, find_public, import_path, items_at,
    reference_target, resolve_path_reference};
use crate::snapshot::{definition_visible_to_context, is_visible, pick_primary_module,
    ProjectSnapshot, Snapshot};
use crate::stack_effect::ItemKind;
use crate::text::{decimal, lemma_boundary, push_decimal, same_text, slice, slice_text};
use crate::words::{has_part, has_prefix, contains_text, separator_at, starts_with, strip_prefix};

verus! {

/// Whether a character may stand in a name that is completed.
pub open spec fn is_ident_char(ch: char) -> bool {
    ('a' <= ch && ch <= 'z') || ('A' <= ch && ch <= 'Z') || ('0' <= ch && ch <= '9') || ch == '_'
        || ch == '$' || ch == '"'
}

/// Whether a character may stand in a name that is completed.
pub fn is_completion_ident_char(ch: char) -> (result: bool)
    ensures
        result == is_ident_char(ch),
{
    ('a' <= ch && ch <= 'z') || ('A' <= ch && ch <= 'Z') || ('0' <= ch && ch <= '9') || ch == '_'
        || ch == '$' || ch == '"'
}

/// Whether a byte is a character that may stand in a name, or, where `colons` holds, in a path.
pub open spec fn is_ident_byte(byte: u8, colons: bool) -> bool {
    byte < 128 && (is_ident_char(byte as char) || (colons && byte == 58))
}

/// The start of the longest run of such bytes that ends at `at`.
pub open spec fn run_start(bytes: Seq<u8>, at: int, colons: bool) -> int
    decreases at,
{
    if at > 0 && is_ident_byte(bytes[at - 1], colons) {
        run_start(bytes, at - 1, colons)
    } else {
        at
    }
}

/// The end of the longest run of such bytes that starts at `at`.
pub open spec fn run_end(bytes: Seq<u8>, at: int) -> int
    decreases bytes.len() - at,
{
    if at < bytes.len() && is_ident_byte(bytes[at], false) {
        run_end(bytes, at + 1)
    } else {
        at
    }
}

/// Goes left from `offset` as long as characters may stand in a name, or in a path.
pub fn scan_left_while(bytes: &[u8], offset: usize, colons: bool) -> (start: usize)
    requires
        offset <= bytes@.len(),
    ensures
        start == run_start(bytes@, offset as int, colons),
        start <= offset,
        start == offset || is_ident_byte(bytes@[start as int], colons),
{
    let mut at: usize = offset;
    while at > 0 && bytes[at - 1] < 128 && (is_completion_ident_char(bytes[at - 1] as char) || (
    colons && bytes[at - 1] == 58))
        invariant
            at <= offset <= bytes@.len(),
            run_start(bytes@, offset as int, colons) == run_start(bytes@, at as int, colons),
            at == offset || is_ident_byte(bytes@[at as int], colons),
        decreases at,
    {
        at = at - 1;
    }
    at
}

/// Goes right from `offset` as long as characters may stand in a name.
pub fn scan_right_while(bytes: &[u8], offset: usize) -> (end: usize)
    requires
        offset <= bytes@.len(),
    ensures
        end == run_end(bytes@, offset as int),
        offset <= end <= bytes@.len(),
{
    let mut at: usize = offset;
    while at < bytes.len() && bytes[at] < 128 && is_completion_ident_char(bytes[at] as char)
        invariant
            offset <= at <= bytes@.len(),
            run_end(bytes@, offset as int) == run_end(bytes@, at as int),
        decreases bytes.len() - at,
    {
        at = at + 1;
    }
    at
}

/// What is to be completed at a position.
pub struct CompletionQuery {
    pub base_path: Option<String>,
    pub prefix: String,
    pub procedures_only: bool,
    pub replace_range: Range,
}

/// The model of what is to be completed.
pub struct Query {
    pub base: Option<Seq<char>>,
    pub prefix: Seq<char>,
    pub procedures_only: bool,
    pub range: Range,
}

impl View for CompletionQuery {
    type V = Query;

    open spec fn view(&self) -> Query {
        Query {
            base: text_view(self.base_path),
            prefix: self.prefix@,
            procedures_only: self.procedures_only,
            range: self.replace_range,
        }
    }
}

/// Whether a word calls for the name of a procedure behind its dot.
pub open spec fn calls_procedure(word: Seq<char>) -> bool {
    word == "call"@ || word == "exec"@ || word == "syscall"@ || word == "procref"@
}

/// The path before the separator that a text ends with.
pub open spec fn base_of(text: Seq<char>) -> Option<Seq<char>> {
    if text.len() > 2 && separator_at(text, text.len() - 2) {
        Some(text.take(text.len() - 2))
    } else {
        None
    }
}

/// What is to be completed at a position: the part of a name before it, the path that the name
/// belongs to, and whether it stands behind a call.
pub open spec fn completion_query(text: Seq<char>, position: Position) -> Option<Query> {
    let bytes = encode_utf8(text);
    match offset_at(bytes, position) {
        None => None,
        Some(offset) => {
            let start = run_start(bytes, offset, false);
            let end = run_end(bytes, offset);
            let path_start = run_start(bytes, start, true);
            let dotted = path_start > 0 && bytes[path_start - 1] == 46;
            let word_start = run_start(bytes, path_start - 1, false);
            Some(
                Query {
                    base: base_of(slice_text(text, path_start, start)),
                    prefix: slice_text(text, start, offset),
                    procedures_only: dotted && calls_procedure(
                        slice_text(text, word_start, path_start - 1),
                    ),
                    range: range_at(bytes, start, end),
                },
            )
        },
    }
}

/// The path before the separator that a text ends with.
fn strip_separator(text: &str) -> (base: Option<String>)
    ensures
        text_view(base) == base_of(text@),
{
    let chars = crate::text::chars_of(text);
    let len = chars.len();
    if len > 2 && chars[len - 2] == ':' && chars[len - 1] == ':' {
        assert(chars@.subrange(0, len - 2) =~= text@.take(len - 2));
        Some(crate::text::string_of(&chars, 0, len - 2))
    } else {
        None
    }
}

/// Bytes below 128 are characters of their own: a text can be cut before and behind them.
proof fn lemma_ascii_boundary(text: Seq<char>, at: int)
    requires
        0 <= at < encode_utf8(text).len(),
        encode_utf8(text)[at] < 128,
    ensures
        is_char_boundary(encode_utf8(text), at),
{
    let bytes = encode_utf8(text);
    encode_utf8_valid_utf8(text);
    lemma_boundary(bytes, at);
    let byte = bytes[at];
    assert(byte < 128 ==> !is_continuation_byte(byte)) by {
        utf8_byte_ranges_bitwise(byte);
    }
}

/// What is to be completed at a position.
pub fn extract_completion_query(text: &str, position: Position) -> (query: Option<CompletionQuery>)
    ensures
        match query {
            Some(query) => completion_query(text@, position) == Some(query@),
            None => completion_query(text@, position) is None,
        },
{
    let line_offsets = compute_line_offsets(text);
    let bytes = text.as_bytes();
    let size = bytes.len();
    let offset = match position_to_offset(text, &line_offsets, position) {
        Ok(offset) => offset,
        Err(_) => return None,
    };
    proof {
        encode_utf8_valid_utf8(text@);
        lemma_offset_on_boundary(bytes@, position);
        lemma_boundary(bytes@, offset as int);
    }
    let start = scan_left_while(bytes, offset, false);
    let end = scan_right_while(bytes, offset);
    let path_start = scan_left_while(bytes, start, true);
    proof {
        if start < offset {
            lemma_ascii_boundary(text@, start as int);
        }
        if path_start < start {
            lemma_ascii_boundary(text@, path_start as int);
        }
    }
    let prefix = slice(text, start, offset).to_owned();
    let base_path = strip_separator(slice(text, path_start, start));
    let procedures_only = if path_start > 0 && bytes[path_start - 1] == 46 {
        let word_end = path_start - 1;
        let word_start = scan_left_while(bytes, word_end, false);
        proof {
            lemma_ascii_boundary(text@, word_end as int);
            if word_start < word_end {
                lemma_ascii_boundary(text@, word_start as int);
            }
        }
        let word = slice(text, word_start, word_end);
        same_text(word, "call") || same_text(word, "exec") || same_text(word, "syscall")
            || same_text(word, "procref")
    } else {
        false
    };
    let replace_range = byte_range_to_lsp_range(text, &line_offsets, start, end);
    Some(CompletionQuery { base_path, prefix, procedures_only, replace_range })
}

/// The name of an item directly below a path.
pub open spec fn member_name(base: Seq<char>, path: Seq<char>) -> Option<Seq<char>> {
    if starts_with(path, base) && starts_with(path.skip(base.len() as int), "::"@) {
        let name = path.skip(base.len() as int).skip("::"@.len() as int);
        if name.len() > 0 && !contains_text(name, "::"@) {
            Some(name)
        } else {
            None
        }
    } else {
        None
    }
}

/// The name of an item directly below a path.
pub fn immediate_member_name(base: &str, path: &str) -> (name: Option<String>)
    ensures
        text_view(name) == member_name(base@, path@),
{
    let rest = match strip_prefix(path, base) {
        Some(rest) => rest,
        None => return None,
    };
    let name = match strip_prefix(&rest, "::") {
        Some(name) => name,
        None => return None,
    };
    if name.as_str().unicode_len() > 0 && !has_part(&name, "::") {
        Some(name)
    } else {
        None
    }
}

/// One way to complete a name.
pub struct CompletionCandidate {
    pub label: String,
    pub detail: String,
    pub documentation: Option<String>,
    pub kind: SymbolKind,
    pub priority: u8,
}

/// The model of a candidate.
pub struct Candidate {
    pub label: Seq<char>,
    pub detail: Seq<char>,
    pub documentation: Option<Seq<char>>,
    pub kind: SymbolKind,
    pub priority: u8,
}

impl View for CompletionCandidate {
    type V = Candidate;

    open spec fn view(&self) -> Candidate {
        Candidate {
            label: self.label@,
            detail: self.detail@,
            documentation: text_view(self.documentation),
            kind: self.kind,
            priority: self.priority,
        }
    }
}

/// The models of a list of candidates.
pub open spec fn candidates(list: Seq<CompletionCandidate>) -> Seq<Candidate> {
    Seq::new(list.len(), |i: int| list[i]@)
}

/// How an item is shown among candidates.
pub open spec fn kind_shown(kind: ItemKind) -> SymbolKind {
    match kind {
        ItemKind::Module => SymbolKind::Module,
        ItemKind::Procedure => SymbolKind::Function,
        ItemKind::Constant => SymbolKind::Constant,
        ItemKind::Type => SymbolKind::Class,
    }
}

/// How an item is shown among candidates.
pub fn completion_kind_for_item(kind: &ItemKind) -> (shown: SymbolKind)
    ensures
        shown == kind_shown(*kind),
{
    match kind {
        ItemKind::Module => SymbolKind::Module,
        ItemKind::Procedure => SymbolKind::Function,
        ItemKind::Constant => SymbolKind::Constant,
        ItemKind::Type => SymbolKind::Class,
    }
}

/// The candidate for an item.
pub open spec fn item_candidate(label: Seq<char>, definition: Def, priority: u8) -> Candidate {
    Candidate {
        label,
        detail: definition.path,
        documentation: Some(definition.hover),
        kind: kind_shown(definition.kind),
        priority,
    }
}

/// The candidate for an import that stands for no known item.
pub open spec fn import_candidate(label: Seq<char>) -> Candidate {
    Candidate {
        label,
        detail: "import"@,
        documentation: None,
        kind: SymbolKind::Module,
        priority: 1,
    }
}

/// The candidate for an item.
pub fn completion_candidate_from_definition(label: String, definition: &Definition, priority: u8) -> (
    candidate: CompletionCandidate)
    ensures
        candidate@ == item_candidate(label@, definition@, priority),
{
    CompletionCandidate {
        label,
        detail: definition.path.clone(),
        documentation: Some(definition.hover.clone()),
        kind: completion_kind_for_item(&definition.kind),
        priority,
    }
}

/// The first of the candidates from `at` on with the given label.
pub open spec fn labelled(list: Seq<Candidate>, label: Seq<char>, at: int) -> Option<int>
    decreases list.len() - at,
{
    if at >= list.len() {
        None
    } else if list[at].label == label {
        Some(at)
    } else {
        labelled(list, label, at + 1)
    }
}

/// Adds a candidate: it replaces one of higher priority number with the same label, and yields to
/// one of the same or a lower number.
pub open spec fn with_candidate(list: Seq<Candidate>, candidate: Candidate) -> Seq<Candidate> {
    match labelled(list, candidate.label, 0) {
        Some(at) => if candidate.priority < list[at].priority {
            list.update(at, candidate)
        } else {
            list
        },
        None => list.push(candidate),
    }
}

/// Adds a candidate.
pub fn insert_completion_candidate(
    list: &mut Vec<CompletionCandidate>,
    candidate: CompletionCandidate,
)
    ensures
        candidates(final(list)@) == with_candidate(candidates(old(list)@), candidate@),
{
    let ghost all = candidates(list@);
    let mut i: usize = 0;
    while i < list.len()
        invariant
            i <= list.len(),
            *list == *old(list),
            all == candidates(list@),
            labelled(all, candidate@.label, 0) == labelled(all, candidate@.label, i as int),
        decreases list.len() - i,
    {
        assert(all[i as int] == list@[i as int]@);
        if same_text(&list[i].label, &candidate.label) {
            if candidate.priority < list[i].priority {
                list.set(i, candidate);
                assert(candidates(list@) =~= all.update(i as int, candidate@));
            }
            return;
        }
        i = i + 1;
    }
    list.push(candidate);
    assert(candidates(list@) =~= all.push(candidate@));
}

/// Whether an item may complete a query at all.
pub open spec fn suits(query: Query, definition: Def) -> bool {
    query.procedures_only ==> definition.kind is Procedure
}

/// Adds those of the first `count` items that stand directly below a path, can be seen, and start
/// as the query asks.
pub open spec fn member_candidates(
    definitions: Seq<Def>,
    context: Context,
    query: Query,
    base: Seq<char>,
    count: nat,
) -> Seq<Candidate>
    decreases count,
{
    if count == 0 {
        Seq::empty()
    } else {
        let before = member_candidates(definitions, context, query, base, (count - 1) as nat);
        let item = definitions[count - 1];
        match member_name(base, item.path) {
            Some(label) => if is_visible(item, context) && suits(query, item) && starts_with(
                label,
                query.prefix,
            ) {
                with_candidate(before, item_candidate(label, item, 1))
            } else {
                before
            },
            None => before,
        }
    }
}

/// Adds those of the first `count` items of a module that start as the query asks.
pub open spec fn own_candidates(own: Seq<Def>, query: Query, count: nat) -> Seq<Candidate>
    decreases count,
{
    if count == 0 {
        Seq::empty()
    } else {
        let before = own_candidates(own, query, (count - 1) as nat);
        let item = own[count - 1];
        if !(item.kind is Module) && suits(query, item) && starts_with(item.name, query.prefix) {
            with_candidate(before, item_candidate(item.name, item, 0))
        } else {
            before
        }
    }
}

/// The candidate for an import: the item that it stands for, where one is known.
pub open spec fn candidate_for_import(
    definitions: Seq<Def>,
    context: Context,
    imports: Seq<(Seq<char>, Alias)>,
    name: Seq<char>,
) -> Candidate {
    let path = match lookup(imports, name) {
        Some(target) => import_path(target, imports),
        None => None,
    };
    match path {
        Some(path) => {
            let items = items_at(definitions, context, path);
            if items.len() > 0 {
                item_candidate(name, definitions[items[0] as int], 1)
            } else {
                import_candidate(name)
            }
        },
        None => import_candidate(name),
    }
}

/// Adds those of the first `count` imports that start as the query asks.
pub open spec fn import_candidates(
    definitions: Seq<Def>,
    context: Context,
    imports: Seq<(Seq<char>, Alias)>,
    query: Query,
    list: Seq<Candidate>,
    count: nat,
) -> Seq<Candidate>
    decreases count,
{
    if count == 0 {
        list
    } else {
        let before = import_candidates(
            definitions,
            context,
            imports,
            query,
            list,
            (count - 1) as nat,
        );
        let name = imports[count - 1].0;
        if starts_with(name, query.prefix) {
            with_candidate(before, candidate_for_import(definitions, context, imports, name))
        } else {
            before
        }
    }
}

/// The candidates for a query in a module: behind a path the items directly below what it stands
/// for, else the module's own items and its imports.
pub open spec fn candidates_for(definitions: Seq<Def>, module: ModuleModel, query: Query) -> Seq<
    Candidate,
> {
    match query.base {
        Some(base) => match reference_target(
            module.names,
            module.imports,
            module.path,
            base,
            false,
        ) {
            Some(path) => member_candidates(
                definitions,
                module.context,
                query,
                path,
                definitions.len(),
            ),
            None => Seq::empty(),
        },
        None => import_candidates(
            definitions,
            module.context,
            module.imports,
            query,
            own_candidates(module.definitions, query, module.definitions.len()),
            module.imports.len(),
        ),
    }
}

/// The sorting keys of candidates: their labels.
pub open spec fn label_keys(list: Seq<Candidate>) -> Seq<Seq<u64>> {
    Seq::new(list.len(), |i: int| byte_key(encode_utf8(list[i].label)))
}

/// An entry of the list that completes a name.
pub struct CompletionItem {
    pub candidate: CompletionCandidate,
    pub sort_text: String,
    pub range: Range,
}

/// The model of an entry.
pub struct Entry {
    pub candidate: Candidate,
    pub sort_text: Seq<char>,
    pub range: Range,
}

impl View for CompletionItem {
    type V = Entry;

    open spec fn view(&self) -> Entry {
        Entry { candidate: self.candidate@, sort_text: self.sort_text@, range: self.range }
    }
}

/// The models of a list of entries.
pub open spec fn entries(items: Seq<CompletionItem>) -> Seq<Entry> {
    Seq::new(items.len(), |i: int| items[i]@)
}

/// The text by which a client sorts a candidate: its priority with two digits, and its label.
pub open spec fn sort_text(candidate: Candidate) -> Seq<char> {
    let number = if candidate.priority < 10 {
        "0"@ + decimal(candidate.priority as nat)
    } else {
        decimal(candidate.priority as nat)
    };
    number + "-"@ + candidate.label
}

/// The entry for a candidate.
pub open spec fn entry_for(candidate: Candidate, range: Range) -> Entry {
    Entry { candidate, sort_text: sort_text(candidate), range }
}

impl Snapshot {
    /// The ways to complete the name at a position of a file, sorted by label.
    pub open spec fn completion_items(
        self,
        path: Seq<char>,
        text: Seq<char>,
        position: Position,
    ) -> Seq<Entry> {
        match (self.primary(path), completion_query(text, position)) {
            (Some(module), Some(query)) => {
                let list = candidates_for(self.definitions, module, query);
                let sorted = arrange(list, stable_order(label_keys(list)));
                Seq::new(sorted.len(), |i: int| entry_for(sorted[i], query.range))
            },
            _ => Seq::empty(),
        }
    }
}

/// Sorts candidates by their labels.
fn sort_candidates(list: Vec<CompletionCandidate>) -> (sorted: Vec<CompletionCandidate>)
    ensures
        candidates(sorted@) == arrange(
            candidates(list@),
            stable_order(label_keys(candidates(list@))),
        ),
{
    let ghost all = candidates(list@);
    let mut keys: Vec<Vec<u64>> = Vec::new();
    let mut i: usize = 0;
    while i < list.len()
        invariant
            i <= list.len(),
            keys.len() == i,
            all == candidates(list@),
            forall|k: int| 0 <= k < i ==> (#[trigger] keys@[k])@ == label_keys(all)[k],
        decreases list.len() - i,
    {
        assert(all[i as int] == list@[i as int]@);
        keys.push(key_of(&list[i].label));
        i = i + 1;
    }
    assert(key_views(keys@) =~= label_keys(all));
    let sorted = sort_by_keys(list, &keys);
    proof {
        law_stable_order(label_keys(all));
        assert(candidates(sorted@) =~= arrange(all, stable_order(label_keys(all))));
    }
    sorted
}

/// The entry for a candidate.
fn completion_item(candidate: CompletionCandidate, range: Range) -> (item: CompletionItem)
    ensures
        item@ == entry_for(candidate@, range),
{
    let mut sort_text = String::new();
    if candidate.priority < 10 {
        sort_text.append("0");
        assert(sort_text@ =~= "0"@);
    }
    push_decimal(&mut sort_text, candidate.priority as u64);
    if candidate.priority >= 10 {
        assert(sort_text@ =~= decimal(candidate.priority as nat));
    }
    sort_text.append("-");
    sort_text.append(&candidate.label);
    CompletionItem { candidate, sort_text, range }
}

impl ProjectSnapshot {
    /// The candidates below a path.
    fn candidates_below(&self, context: &ContextKey, query: &CompletionQuery, base: &str) -> (list: Vec<
        CompletionCandidate,
    >)
        ensures
            candidates(list@) == member_candidates(
                self@.definitions,
                context@,
                query@,
                base@,
                self@.definitions.len(),
            ),
    {
        let ghost all = self@.definitions;
        let mut list: Vec<CompletionCandidate> = Vec::new();
        let mut i: usize = 0;
        assert(candidates(list@) =~= Seq::<Candidate>::empty());
        while i < self.definitions.len()
            invariant
                i <= self.definitions.len(),
                all == defs(self.definitions@),
                candidates(list@) == member_candidates(all, context@, query@, base@, i as nat),
            decreases self.definitions.len() - i,
        {
            let definition = &self.definitions[i];
            assert(all[i as int] == definition@);
            let is_procedure = match definition.kind {
                ItemKind::Procedure => true,
                _ => false,
            };
            if definition_visible_to_context(definition, context) && (!query.procedures_only
                || is_procedure) {
                if let Some(label) = immediate_member_name(base, &definition.path) {
                    if has_prefix(&label, &query.prefix) {
                        insert_completion_candidate(
                            &mut list,
                            completion_candidate_from_definition(label, definition, 1),
                        );
                    }
                }
            }
            i = i + 1;
        }
        list
    }

    /// The candidate for an import.
    fn candidate_of_import(
        &self,
        context: &ContextKey,
        imports: &Vec<(String, crate::model::AliasTarget)>,
        name: &str,
    ) -> (candidate: CompletionCandidate)
        ensures
            candidate@ == candidate_for_import(
                self@.definitions,
                context@,
                import_entries(imports@),
                name@,
            ),
    {
        let ghost all = self@.definitions;
        let count = self.definitions.len();
        let path = match find_import(imports, name) {
            Some(target) => alias_target_to_path(target, imports),
            None => None,
        };
        if let Some(path) = path {
            let own = find_in_context(&self.definitions, context, &path);
            let items = if own.len() > 0 {
                own
            } else {
                find_public(&self.definitions, &path)
            };
            assert(items@ == items_at(all, context@, path@));
            if items.len() > 0 {
                proof {
                    crate::resolve::lemma_members(all, context@, path@, all.len());
                }
                let first = items[0];
                assert(first < all.len());
                assert(all[first as int] == self.definitions@[first as int]@);
                return completion_candidate_from_definition(
                    name.to_owned(),
                    &self.definitions[first],
                    1,
                );
            }
        }
        CompletionCandidate {
            label: name.to_owned(),
            detail: "import".to_owned(),
            documentation: None,
            kind: SymbolKind::Module,
            priority: 1,
        }
    }

    /// The candidates without a path.
    fn candidates_here(&self, module: &crate::model::ModuleAnalysis, query: &CompletionQuery) -> (list: Vec<
        CompletionCandidate,
    >)
        ensures
            candidates(list@) == import_candidates(
                self@.definitions,
                module@.context,
                module@.imports,
                query@,
                own_candidates(module@.definitions, query@, module@.definitions.len()),
                module@.imports.len(),
            ),
    {
        let ghost own = module@.definitions;
        let ghost all = self@.definitions;
        let mut list: Vec<CompletionCandidate> = Vec::new();
        let mut i: usize = 0;
        assert(candidates(list@) =~= Seq::<Candidate>::empty());
        while i < module.definitions.len()
            invariant
                i <= module.definitions.len(),
                own == defs(module.definitions@),
                candidates(list@) == own_candidates(own, query@, i as nat),
            decreases module.definitions.len() - i,
        {
            let definition = &module.definitions[i];
            assert(own[i as int] == definition@);
            let suitable = match definition.kind {
                ItemKind::Module => false,
                ItemKind::Procedure => true,
                _ => !query.procedures_only,
            };
            if suitable && has_prefix(&definition.name, &query.prefix) {
                insert_completion_candidate(
                    &mut list,
                    completion_candidate_from_definition(definition.name.clone(), definition, 0),
                );
            }
            i = i + 1;
        }
        let ghost start = candidates(list@);
        let ghost imports = module@.imports;
        let mut j: usize = 0;
        while j < module.imports.len()
            invariant
                j <= module.imports.len(),
                all == self@.definitions,
                imports == import_entries(module.imports@),
                candidates(list@) == import_candidates(
                    all,
                    module@.context,
                    imports,
                    query@,
                    start,
                    j as nat,
                ),
            decreases module.imports.len() - j,
        {
            let name = &module.imports[j].0;
            assert(imports[j as int].0 == name@);
            if has_prefix(name, &query.prefix) {
                let candidate = self.candidate_of_import(&module.context, &module.imports, name);
                insert_completion_candidate(&mut list, candidate);
            }
            j = j + 1;
        }
        list
    }

    /// The ways to complete the name at a position of a file.
    pub fn completion_items(&self, document_path: &str, document_text: &str, position: Position) -> (
        items: Vec<CompletionItem>)
        requires
            self.well_formed(),
        ensures
            entries(items@) == self@.completion_items(document_path@, document_text@, position),
    {
        let mut items: Vec<CompletionItem> = Vec::new();
        assert(entries(items@) =~= Seq::<Entry>::empty());
        let at = match self.find_file(document_path) {
            Some(at) => at,
            None => return items,
        };
        let file = &self.files[at];
        assert(self@.files[at as int] == file@);
        let module = match pick_primary_module(&file.modules) {
            Some(module) => module,
            None => return items,
        };
        assert(self@.primary(document_path@) == Some(module@));
        let query = match extract_completion_query(document_text, position) {
            Some(query) => query,
            None => return items,
        };
        let list = match &query.base_path {
            Some(base) => match resolve_path_reference(
                &module.local_names,
                &module.imports,
                &module.path,
                base,
                false,
            ) {
                Some(path) => self.candidates_below(&module.context, &query, &path),
                None => {
                    let none: Vec<CompletionCandidate> = Vec::new();
                    assert(candidates(none@) =~= Seq::<Candidate>::empty());
                    none
                },
            },
            None => self.candidates_here(module, &query),
        };
        let ghost all = candidates(list@);
        let mut sorted = sort_candidates(list);
        let ghost order = candidates(sorted@);
        let ghost shown = sorted@;
        let count = sorted.len();
        let mut i: usize = 0;
        let ghost wanted = Seq::new(order.len(), |i: int| entry_for(order[i], query@.range));
        while i < count
            invariant
                i <= count,
                count == shown.len(),
                sorted@ == shown.skip(i as int),
                order == candidates(shown),
                wanted == Seq::new(order.len(), |i: int| entry_for(order[i], query@.range)),
                entries(items@) == wanted.take(i as int),
            decreases count - i,
        {
            let candidate = sorted.remove(0);
            assert(sorted@ =~= shown.skip(i + 1));
            assert(order[i as int] == candidate@);
            let item = completion_item(candidate, query.replace_range);
            let ghost before = entries(items@);
            items.push(item);
            i = i + 1;
            assert(entries(items@) =~= before.push(item@));
            assert(entries(items@) =~= wanted.take(i as int));
        }
        assert(wanted.take(i as int) =~= wanted);
        items
    }
}

/// Whether no two candidates have the same label.
pub open spec fn labels_differ(list: Seq<Candidate>) -> bool {
    forall|i: int, j: int|
        0 <= i < j < list.len() ==> (#[trigger] list[i]).label != (#[trigger] list[j]).label
}

proof fn lemma_labelled(list: Seq<Candidate>, label: Seq<char>, at: int)
    requires
        0 <= at,
    ensures
        match labelled(list, label, at) {
            Some(found) => at <= found < list.len() && list[found].label == label,
            None => forall|i: int| at <= i < list.len() ==> (#[trigger] list[i]).label != label,
        },
    decreases list.len() - at,
{
    if at < list.len() && list[at].label != label {
        lemma_labelled(list, label, at + 1);
    }
}

proof fn lemma_with_candidate(list: Seq<Candidate>, candidate: Candidate, prefix: Seq<char>)
    requires
        labels_differ(list),
        forall|i: int| 0 <= i < list.len() ==> starts_with((#[trigger] list[i]).label, prefix),
        starts_with(candidate.label, prefix),
    ensures
        labels_differ(with_candidate(list, candidate)),
        forall|i: int|
            0 <= i < with_candidate(list, candidate).len() ==> starts_with(
                (#[trigger] with_candidate(list, candidate)[i]).label,
                prefix,
            ),
{
    lemma_labelled(list, candidate.label, 0);
}

proof fn lemma_member_candidates(
    definitions: Seq<Def>,
    context: Context,
    query: Query,
    base: Seq<char>,
    count: nat,
)
    ensures
        ({
            let list = member_candidates(definitions, context, query, base, count);
            &&& labels_differ(list)
            &&& forall|i: int|
                0 <= i < list.len() ==> starts_with((#[trigger] list[i]).label, query.prefix)
        }),
    decreases count,
{
    if count > 0 {
        lemma_member_candidates(definitions, context, query, base, (count - 1) as nat);
        let item = definitions[count - 1];
        if let Some(label) = member_name(base, item.path) {
            if starts_with(label, query.prefix) {
                lemma_with_candidate(
                    member_candidates(definitions, context, query, base, (count - 1) as nat),
                    item_candidate(label, item, 1),
                    query.prefix,
                );
            }
        }
    }
}

proof fn lemma_own_candidates(own: Seq<Def>, query: Query, count: nat)
    ensures
        ({
            let list = own_candidates(own, query, count);
            &&& labels_differ(list)
            &&& forall|i: int|
                0 <= i < list.len() ==> starts_with((#[trigger] list[i]).label, query.prefix)
        }),
    decreases count,
{
    if count > 0 {
        lemma_own_candidates(own, query, (count - 1) as nat);
        let item = own[count - 1];
        if starts_with(item.name, query.prefix) {
            lemma_with_candidate(
                own_candidates(own, query, (count - 1) as nat),
                item_candidate(item.name, item, 0),
                query.prefix,
            );
        }
    }
}

proof fn lemma_import_candidates(
    definitions: Seq<Def>,
    context: Context,
    imports: Seq<(Seq<char>, Alias)>,
    query: Query,
    list: Seq<Candidate>,
    count: nat,
)
    requires
        labels_differ(list),
        forall|i: int|
            0 <= i < list.len() ==> starts_with((#[trigger] list[i]).label, query.prefix),
    ensures
        ({
            let all = import_candidates(definitions, context, imports, query, list, count);
            &&& labels_differ(all)
            &&& forall|i: int|
                0 <= i < all.len() ==> starts_with((#[trigger] all[i]).label, query.prefix)
        }),
    decreases count,
{
    if count > 0 {
        let shorter = (count - 1) as nat;
        lemma_import_candidates(definitions, context, imports, query, list, shorter);
        let name = imports[count - 1].0;
        if starts_with(name, query.prefix) {
            lemma_with_candidate(
                import_candidates(definitions, context, imports, query, list, shorter),
                candidate_for_import(definitions, context, imports, name),
                query.prefix,
            );
        }
    }
}

/// Every candidate starts with what has been typed, and no label is offered twice.
pub proof fn law_candidates_fit(definitions: Seq<Def>, module: ModuleModel, query: Query)
    ensures
        ({
            let list = candidates_for(definitions, module, query);
            &&& labels_differ(list)
            &&& forall|i: int|
                0 <= i < list.len() ==> starts_with((#[trigger] list[i]).label, query.prefix)
        }),
{
    match query.base {
        Some(base) => {
            if let Some(path) = reference_target(
                module.names,
                module.imports,
                module.path,
                base,
                false,
            ) {
                lemma_member_candidates(
                    definitions,
                    module.context,
                    query,
                    path,
                    definitions.len(),
                );
            }
        },
        None => {
            lemma_own_candidates(module.definitions, query, module.definitions.len());
            lemma_import_candidates(
                definitions,
                module.context,
                module.imports,
                query,
                own_candidates(module.definitions, query, module.definitions.len()),
                module.imports.len(),
            );
        },
    }
}

/// Candidates are offered in the order of their labels.
pub proof fn law_candidates_are_sorted(list: Seq<Candidate>, i: int, j: int)
    requires
        0 <= i < j < list.len(),
    ensures
        arrange(list, stable_order(label_keys(list))).len() == list.len(),
        key_le(
            byte_key(encode_utf8(arrange(list, stable_order(label_keys(list)))[i].label)),
            byte_key(encode_utf8(arrange(list, stable_order(label_keys(list)))[j].label)),
        ),
{
    let keys = label_keys(list);
    let order = stable_order(keys);
    law_stable_order(keys);
    assert(in_order(keys, order[i], order[j]));
}

} // verus!
