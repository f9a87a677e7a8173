//! Inlay hints, code lenses and workspace symbols.
use vstd::prelude::*;
use vstd::string::StringExecFns;
use crate::model::{defs, Def, Definition, ModuleModel, Resolution, SymbolKind};
use crate::position::{ranges_overlap, Position, Range};
use crate::snapshot::{item_of_reference, pick_primary_module, spot_view, Location, ProjectSnapshot,
    Snapshot, Spot};
use crate::stack_effect::{ItemKind, ReferenceKind};
use crate::text::{join, join3};
use crate::words::{contains_text, found_at, has_part};

verus! {

/// A hint behind a call: the signature of what is called.
pub struct InlayHint {
    pub position: Position,
    pub label: String,
    pub label_tooltip: String,
    pub label_location: Option<Location>,
    pub tooltip: String,
}

/// The model of a hint.
pub struct HintText {
    pub position: Position,
    pub label: Seq<char>,
    pub label_tooltip: Seq<char>,
    pub label_location: Option<Spot>,
    pub tooltip: Seq<char>,
}

impl View for InlayHint {
    type V = HintText;

    open spec fn view(&self) -> HintText {
        HintText {
            position: self.position,
            label: self.label@,
            label_tooltip: self.label_tooltip@,
            label_location: spot_view(self.label_location),
            tooltip: self.tooltip@,
        }
    }
}

/// The models of a list of hints.
pub open spec fn hint_texts(hints: Seq<InlayHint>) -> Seq<HintText> {
    Seq::new(hints.len(), |i: int| hints[i]@)
}

/// The hint behind a call, where what is called has a signature.
pub open spec fn call_hint(definitions: Seq<Def>, module: ModuleModel, reference: Resolution) -> Option<
    HintText,
> {
    match item_of_reference(definitions, module.context, reference) {
        Some(item) => match item.signature {
            Some(signature) => Some(
                HintText {
                    position: reference.range.end,
                    label: " "@ + signature,
                    label_tooltip: item.hover,
                    label_location: item.spot(),
                    tooltip: "resolved to `"@ + item.path + "`"@,
                },
            ),
            None => None,
        },
        None => None,
    }
}

/// The hints behind those of the first `count` references that are calls and have a part in
/// `visible`.
pub open spec fn call_hints(
    definitions: Seq<Def>,
    module: ModuleModel,
    visible: Range,
    count: nat,
) -> Seq<HintText>
    decreases count,
{
    if count == 0 {
        Seq::empty()
    } else {
        let before = call_hints(definitions, module, visible, (count - 1) as nat);
        let reference = module.resolved[count - 1];
        match call_hint(definitions, module, reference) {
            Some(hint) => if reference.kind is Invoke && reference.range.touches(visible) {
                before.push(hint)
            } else {
                before
            },
            None => before,
        }
    }
}

/// A lens above a procedure: a title, and the message that it shows.
pub struct CodeLens {
    pub range: Range,
    pub title: String,
    pub message: String,
}

/// The model of a lens.
pub struct LensText {
    pub range: Range,
    pub title: Seq<char>,
    pub message: Seq<char>,
}

impl View for CodeLens {
    type V = LensText;

    open spec fn view(&self) -> LensText {
        LensText { range: self.range, title: self.title@, message: self.message@ }
    }
}

/// The models of a list of lenses.
pub open spec fn lens_texts(lenses: Seq<CodeLens>) -> Seq<LensText> {
    Seq::new(lenses.len(), |i: int| lenses[i]@)
}

/// The command that shows the message of a lens.
pub fn show_symbol_info_command() -> (command: &'static str)
    ensures
        command@ == "miden-lsp.showSymbolInfo"@,
{
    "miden-lsp.showSymbolInfo"
}

/// The lens above an item: only entrypoints and exported procedures have one.
pub open spec fn lens_of(definition: Def) -> Option<LensText> {
    let range = Range {
        start: definition.selection_range.start,
        end: definition.selection_range.start,
    };
    if !(definition.kind is Procedure) {
        None
    } else if definition.entrypoint {
        Some(
            LensText {
                range,
                title: "Entrypoint "@ + definition.path,
                message: definition.path + " is the executable entrypoint for target `"@
                    + definition.context.target + "`."@,
            },
        )
    } else if definition.exported {
        Some(
            LensText {
                range,
                title: "Exported as "@ + definition.path,
                message: definition.path + " is exported from this package."@,
            },
        )
    } else {
        None
    }
}

/// The lenses above the first `count` items.
pub open spec fn lenses_of(definitions: Seq<Def>, count: nat) -> Seq<LensText>
    decreases count,
{
    if count == 0 {
        Seq::empty()
    } else {
        let before = lenses_of(definitions, (count - 1) as nat);
        match lens_of(definitions[count - 1]) {
            Some(lens) => before.push(lens),
            None => before,
        }
    }
}

/// The lens above an item.
fn lens_for(definition: &Definition) -> (lens: Option<CodeLens>)
    ensures
        match lens {
            Some(lens) => lens_of(definition@) == Some(lens@),
            None => lens_of(definition@) is None,
        },
{
    match definition.kind {
        ItemKind::Procedure => {},
        _ => return None,
    }
    let start = definition.selection_range.start;
    let range = Range::new(start, start);
    if definition.entrypoint {
        let title = join("Entrypoint ", &definition.path);
        let mut message = join3(
            &definition.path,
            " is the executable entrypoint for target `",
            &definition.context.target,
        );
        message.append("`.");
        Some(CodeLens { range, title, message })
    } else if definition.exported {
        let title = join("Exported as ", &definition.path);
        let message = join(&definition.path, " is exported from this package.");
        Some(CodeLens { range, title, message })
    } else {
        None
    }
}

/// A text in lower case.
pub uninterp spec fn lowercase(text: Seq<char>) -> Seq<char>;

/// Whether a text holds only ASCII characters.
pub open spec fn is_ascii(text: Seq<char>) -> bool {
    forall|i: int| 0 <= i < text.len() ==> (#[trigger] text[i]) <= '\x7f'
}

/// An ASCII character in lower case.
pub open spec fn ascii_lower(ch: char) -> char {
    if 'A' <= ch && ch <= 'Z' {
        ((ch as u32 + 32) as u8) as char
    } else {
        ch
    }
}

/// An ASCII text in lower case.
pub open spec fn lowered(text: Seq<char>) -> Seq<char> {
    Seq::new(text.len(), |i: int| ascii_lower(text[i]))
}

/// `str::to_lowercase`: the text in lower case, as Unicode defines it. Of ASCII text only the
/// letters from A to Z are changed.
#[verifier::external_body]
fn to_lowercase(text: &str) -> (lower: String)
    ensures
        lower@ == lowercase(text@),
        is_ascii(text@) ==> lower@ == lowered(text@),
{
    text.to_lowercase()
}

/// A symbol that a search over a workspace finds.
pub struct SymbolInformation {
    pub name: String,
    pub kind: SymbolKind,
    pub location: Location,
    pub container: String,
}

/// The model of a symbol that a search finds.
pub struct FoundSymbol {
    pub name: Seq<char>,
    pub kind: SymbolKind,
    pub location: Spot,
    pub container: Seq<char>,
}

impl View for SymbolInformation {
    type V = FoundSymbol;

    open spec fn view(&self) -> FoundSymbol {
        FoundSymbol {
            name: self.name@,
            kind: self.kind,
            location: self.location@,
            container: self.container@,
        }
    }
}

/// The models of a list of symbols that a search finds.
pub open spec fn found_symbols(symbols: Seq<SymbolInformation>) -> Seq<FoundSymbol> {
    Seq::new(symbols.len(), |i: int| symbols[i]@)
}

/// Whether a search finds an item: its name or the path of its module holds the words that are
/// looked for, whatever their case. Modules are not looked for.
pub open spec fn is_found(definition: Def, query: Seq<char>) -> bool {
    !(definition.kind is Module) && contains_text(
        lowercase(definition.name + " "@ + definition.module),
        lowercase(query),
    )
}

impl Def {
    /// The symbol that stands for an item that has a place.
    pub open spec fn workspace_symbol(self) -> Option<FoundSymbol> {
        match self.spot() {
            Some(location) => Some(
                FoundSymbol {
                    name: self.name,
                    kind: self.symbol_kind,
                    location,
                    container: self.module,
                },
            ),
            None => None,
        }
    }
}

impl Definition {
    /// The symbol that stands for an item that has a place.
    pub fn workspace_symbol(&self) -> (symbol: Option<SymbolInformation>)
        ensures
            match symbol {
                Some(symbol) => self@.workspace_symbol() == Some(symbol@),
                None => self@.workspace_symbol() is None,
            },
    {
        match self.location() {
            Some(location) => Some(
                SymbolInformation {
                    name: self.name.clone(),
                    kind: self.symbol_kind,
                    location,
                    container: self.module.clone(),
                },
            ),
            None => None,
        }
    }
}

/// The symbols that a search finds among the first `count` items.
pub open spec fn symbols_found(definitions: Seq<Def>, query: Seq<char>, count: nat) -> Seq<FoundSymbol>
    decreases count,
{
    if count == 0 {
        Seq::empty()
    } else {
        let before = symbols_found(definitions, query, (count - 1) as nat);
        let item = definitions[count - 1];
        match item.workspace_symbol() {
            Some(symbol) => if is_found(item, query) {
                before.push(symbol)
            } else {
                before
            },
            None => before,
        }
    }
}

/// The symbols that a search finds in the first `count` projects.
pub open spec fn symbols_in(snapshots: Seq<Snapshot>, query: Seq<char>, count: nat) -> Seq<FoundSymbol>
    decreases count,
{
    if count == 0 {
        Seq::empty()
    } else {
        let definitions = snapshots[count - 1].definitions;
        symbols_in(snapshots, query, (count - 1) as nat) + symbols_found(
            definitions,
            query,
            definitions.len(),
        )
    }
}

/// The models of a list of projects.
pub open spec fn snapshot_views(snapshots: Seq<ProjectSnapshot>) -> Seq<Snapshot> {
    Seq::new(snapshots.len(), |i: int| snapshots[i]@)
}

/// The symbols of several projects whose names or modules hold `query`, whatever its case.
pub fn workspace_symbols(snapshots: &Vec<ProjectSnapshot>, query: &str) -> (symbols: Vec<
    SymbolInformation,
>)
    ensures
        found_symbols(symbols@) == symbols_in(
            snapshot_views(snapshots@),
            query@,
            snapshots@.len(),
        ),
        is_ascii(query@) ==> lowercase(query@) == lowered(query@),
{
    let needle = to_lowercase(query);
    let mut symbols: Vec<SymbolInformation> = Vec::new();
    let ghost views = snapshot_views(snapshots@);
    let mut s: usize = 0;
    assert(found_symbols(symbols@) =~= Seq::<FoundSymbol>::empty());
    while s < snapshots.len()
        invariant
            s <= snapshots.len(),
            needle@ == lowercase(query@),
            views == snapshot_views(snapshots@),
            found_symbols(symbols@) == symbols_in(views, query@, s as nat),
        decreases snapshots.len() - s,
    {
        let definitions = &snapshots[s].definitions;
        let ghost all = defs(definitions@);
        let ghost before = found_symbols(symbols@);
        assert(views[s as int].definitions == all);
        let mut i: usize = 0;
        assert(before + Seq::<FoundSymbol>::empty() =~= before);
        while i < definitions.len()
            invariant
                i <= definitions.len(),
                needle@ == lowercase(query@),
                all == defs(definitions@),
                found_symbols(symbols@) == before + symbols_found(all, query@, i as nat),
            decreases definitions.len() - i,
        {
            let definition = &definitions[i];
            assert(all[i as int] == definition@);
            let searched = match definition.kind {
                ItemKind::Module => false,
                _ => has_part(
                    &to_lowercase(&join3(&definition.name, " ", &definition.module)),
                    &needle,
                ),
            };
            if searched {
                if let Some(symbol) = definition.workspace_symbol() {
                    let ghost shown = found_symbols(symbols@);
                    symbols.push(symbol);
                    assert(found_symbols(symbols@) =~= shown.push(symbol@));
                    assert(before + symbols_found(all, query@, i as nat).push(symbol@) =~= (before
                        + symbols_found(all, query@, i as nat)).push(symbol@));
                }
            }
            i = i + 1;
        }
        s = s + 1;
    }
    symbols
}

impl ProjectSnapshot {
    /// The hints behind the calls of a file that have a part in `visible`.
    pub fn inlay_hints(&self, document_path: &str, visible: Range) -> (hints: Option<Vec<InlayHint>>)
        requires
            self.well_formed(),
        ensures
            match (hints, self@.primary(document_path@)) {
                (Some(hints), Some(module)) => hint_texts(hints@) == call_hints(
                    self@.definitions,
                    module,
                    visible,
                    module.resolved.len(),
                ),
                (None, None) => true,
                _ => false,
            },
    {
        let at = match self.find_file(document_path) {
            Some(at) => at,
            None => return None,
        };
        let file = &self.files[at];
        assert(self@.files[at as int] == file@);
        let module = match pick_primary_module(&file.modules) {
            Some(module) => module,
            None => return None,
        };
        assert(self@.primary(document_path@) == Some(module@));
        let ghost all = self@.definitions;
        let mut hints: Vec<InlayHint> = Vec::new();
        let mut i: usize = 0;
        assert(hint_texts(hints@) =~= Seq::<HintText>::empty());
        while i < module.resolved_occurrences.len()
            invariant
                i <= module.resolved_occurrences.len(),
                all == self@.definitions,
                hint_texts(hints@) == call_hints(all, module@, visible, i as nat),
            decreases module.resolved_occurrences.len() - i,
        {
            let reference = &module.resolved_occurrences[i];
            assert(module@.resolved[i as int] == reference@);
            let invoke = match reference.kind {
                ReferenceKind::Invoke => true,
                _ => false,
            };
            if invoke && ranges_overlap(reference.range, visible) {
                if let Some(definition) = self.definition_for_occurrence(
                    &module.context,
                    reference,
                ) {
                    if let Some(signature) = &definition.signature {
                        let hint = InlayHint {
                            position: reference.range.end,
                            label: join(" ", signature),
                            label_tooltip: definition.hover.clone(),
                            label_location: definition.location(),
                            tooltip: join3("resolved to `", &definition.path, "`"),
                        };
                        let ghost before = hint_texts(hints@);
                        hints.push(hint);
                        assert(hint_texts(hints@) =~= before.push(hint@));
                    }
                }
            }
            i = i + 1;
        }
        Some(hints)
    }

    /// The lenses above the procedures of a file.
    pub fn code_lenses(&self, document_path: &str) -> (lenses: Option<Vec<CodeLens>>)
        requires
            self.well_formed(),
        ensures
            match (lenses, self@.primary(document_path@)) {
                (Some(lenses), Some(module)) => lens_texts(lenses@) == lenses_of(
                    module.definitions,
                    module.definitions.len(),
                ),
                (None, None) => true,
                _ => false,
            },
    {
        let at = match self.find_file(document_path) {
            Some(at) => at,
            None => return None,
        };
        let file = &self.files[at];
        assert(self@.files[at as int] == file@);
        let module = match pick_primary_module(&file.modules) {
            Some(module) => module,
            None => return None,
        };
        assert(self@.primary(document_path@) == Some(module@));
        let ghost own = defs(module.definitions@);
        let mut lenses: Vec<CodeLens> = Vec::new();
        let mut i: usize = 0;
        assert(lens_texts(lenses@) =~= Seq::<LensText>::empty());
        while i < module.definitions.len()
            invariant
                i <= module.definitions.len(),
                own == defs(module.definitions@),
                lens_texts(lenses@) == lenses_of(own, i as nat),
            decreases module.definitions.len() - i,
        {
            let definition = &module.definitions[i];
            assert(own[i as int] == definition@);
            if let Some(lens) = lens_for(definition) {
                let ghost before = lens_texts(lenses@);
                lenses.push(lens);
                assert(lens_texts(lenses@) =~= before.push(lens@));
            }
            i = i + 1;
        }
        Some(lenses)
    }
}

/// The projects among the results of loading several; what could not be loaded is left out.
pub open spec fn loaded(results: Seq<Result<ProjectSnapshot, String>>, count: nat) -> Seq<Snapshot>
    decreases count,
{
    if count == 0 {
        Seq::empty()
    } else {
        let before = loaded(results, (count - 1) as nat);
        match results[count - 1] {
            Ok(snapshot) => before.push(snapshot@),
            Err(_) => before,
        }
    }
}

/// The projects among the results of loading several; what could not be loaded is left out.
pub fn loaded_projects(results: Vec<Result<ProjectSnapshot, String>>) -> (snapshots: Vec<
    ProjectSnapshot,
>)
    ensures
        snapshot_views(snapshots@) == loaded(results@, results@.len()),
{
    let ghost all = results@;
    let mut snapshots: Vec<ProjectSnapshot> = Vec::new();
    assert(snapshot_views(snapshots@) =~= Seq::<Snapshot>::empty());
    for result in it: results
        invariant
            it.seq() == all,
            snapshot_views(snapshots@) == loaded(all, it.index() as nat),
    {
        let ghost before = snapshot_views(snapshots@);
        if let Ok(snapshot) = result {
            let ghost view = snapshot@;
            snapshots.push(snapshot);
            assert(snapshot_views(snapshots@) =~= before.push(view));
        }
    }
    snapshots
}

/// Whether a list is another one with some of its elements left out.
pub open spec fn is_selection<T>(some: Seq<T>, all: Seq<T>) -> bool
    decreases all.len(),
{
    if some.len() == 0 {
        true
    } else if all.len() == 0 {
        false
    } else {
        is_selection(some, all.drop_last()) || (some.last() == all.last() && is_selection(
            some.drop_last(),
            all.drop_last(),
        ))
    }
}

proof fn lemma_selections_join<T>(a: Seq<T>, b: Seq<T>, c: Seq<T>, d: Seq<T>)
    requires
        is_selection(a, b),
        is_selection(c, d),
    ensures
        is_selection(a + c, b + d),
    decreases d.len(),
{
    if d.len() == 0 {
        assert(a + c =~= a);
        assert(b + d =~= b);
    } else {
        assert((b + d).drop_last() =~= b + d.drop_last());
        if c.len() == 0 {
            lemma_selections_join(a, b, c, d.drop_last());
        } else if is_selection(c, d.drop_last()) {
            lemma_selections_join(a, b, c, d.drop_last());
        } else {
            lemma_selections_join(a, b, c.drop_last(), d.drop_last());
            assert((a + c).drop_last() =~= a + c.drop_last());
            assert((a + c).last() == c.last() && (b + d).last() == d.last());
        }
    }
}

/// Whether an item is shown as a module exactly where it is one.
pub open spec fn shows_its_kind(definition: Def) -> bool {
    (definition.symbol_kind is Module) == (definition.kind is Module)
}

/// Whether all items of several projects are shown as what they are.
pub open spec fn show_their_kinds(snapshots: Seq<Snapshot>) -> bool {
    forall|s: int, i: int|
        0 <= s < snapshots.len() && 0 <= i < snapshots[s].definitions.len() ==> shows_its_kind(
            #[trigger] snapshots[s].definitions[i],
        )
}

/// Whether a search may give a symbol.
pub open spec fn answers(symbol: FoundSymbol, query: Seq<char>) -> bool {
    !(symbol.kind is Module) && contains_text(
        lowercase(symbol.name + " "@ + symbol.container),
        lowercase(query),
    )
}

proof fn lemma_symbols_found(definitions: Seq<Def>, query: Seq<char>, count: nat)
    requires
        count <= definitions.len(),
        forall|i: int| 0 <= i < definitions.len() ==> shows_its_kind(#[trigger] definitions[i]),
    ensures
        forall|k: int|
            0 <= k < symbols_found(definitions, query, count).len() ==> answers(
                #[trigger] symbols_found(definitions, query, count)[k],
                query,
            ),
    decreases count,
{
    if count > 0 {
        lemma_symbols_found(definitions, query, (count - 1) as nat);
        assert(shows_its_kind(definitions[count - 1]));
        let before = symbols_found(definitions, query, (count - 1) as nat);
        let after = symbols_found(definitions, query, count);
        assert forall|k: int| 0 <= k < after.len() implies answers(#[trigger] after[k], query) by {
            if k < before.len() {
                assert(after[k] == before[k]);
            }
        }
    }
}

/// Every symbol that a search gives holds the query in its name or its module, whatever the case,
/// and is no module.
pub proof fn law_symbols_answer(snapshots: Seq<Snapshot>, query: Seq<char>, count: nat)
    requires
        count <= snapshots.len(),
        show_their_kinds(snapshots),
    ensures
        forall|k: int|
            0 <= k < symbols_in(snapshots, query, count).len() ==> answers(
                #[trigger] symbols_in(snapshots, query, count)[k],
                query,
            ),
    decreases count,
{
    if count > 0 {
        law_symbols_answer(snapshots, query, (count - 1) as nat);
        let definitions = snapshots[count - 1].definitions;
        assert forall|i: int| 0 <= i < definitions.len() implies shows_its_kind(
            #[trigger] definitions[i],
        ) by {
            assert(shows_its_kind(snapshots[count - 1].definitions[i]));
        }
        lemma_symbols_found(definitions, query, definitions.len());
        let before = symbols_in(snapshots, query, (count - 1) as nat);
        let more = symbols_found(definitions, query, definitions.len());
        assert forall|k: int| 0 <= k < (before + more).len() implies answers(
            #[trigger] (before + more)[k],
            query,
        ) by {
            if k >= before.len() {
                assert((before + more)[k] == more[k - before.len()]);
            }
        }
    }
}

proof fn lemma_same_symbols(definitions: Seq<Def>, a: Seq<char>, b: Seq<char>, count: nat)
    requires
        count <= definitions.len(),
        lowercase(a) == lowercase(b),
    ensures
        symbols_found(definitions, a, count) == symbols_found(definitions, b, count),
    decreases count,
{
    if count > 0 {
        lemma_same_symbols(definitions, a, b, (count - 1) as nat);
    }
}

/// Two queries that are the same in lower case give the same symbols.
pub proof fn law_case_does_not_matter(
    snapshots: Seq<Snapshot>,
    a: Seq<char>,
    b: Seq<char>,
    count: nat,
)
    requires
        count <= snapshots.len(),
        lowercase(a) == lowercase(b),
    ensures
        symbols_in(snapshots, a, count) == symbols_in(snapshots, b, count),
    decreases count,
{
    if count > 0 {
        law_case_does_not_matter(snapshots, a, b, (count - 1) as nat);
        let definitions = snapshots[count - 1].definitions;
        lemma_same_symbols(definitions, a, b, definitions.len());
    }
}

proof fn lemma_fewer_symbols(definitions: Seq<Def>, query: Seq<char>, every: Seq<char>, count: nat)
    requires
        count <= definitions.len(),
        lowercase(every).len() == 0,
    ensures
        is_selection(
            symbols_found(definitions, query, count),
            symbols_found(definitions, every, count),
        ),
    decreases count,
{
    if count > 0 {
        lemma_fewer_symbols(definitions, query, every, (count - 1) as nat);
        let item = definitions[count - 1];
        let some = symbols_found(definitions, query, (count - 1) as nat);
        let all = symbols_found(definitions, every, (count - 1) as nat);
        if let Some(symbol) = item.workspace_symbol() {
            if !(item.kind is Module) {
                let searched = lowercase(item.name + " "@ + item.module);
                assert(found_at(searched, lowercase(every), 0)) by {
                    assert(searched.subrange(0, 0) =~= lowercase(every));
                }
                assert(is_found(item, every));
                assert(all.push(symbol).drop_last() =~= all);
                assert(some.push(symbol).drop_last() =~= some);
            }
        }
    }
}

/// A query gives some of the symbols, in the same order, that are given where nothing is looked for.
pub proof fn law_queries_select(
    snapshots: Seq<Snapshot>,
    query: Seq<char>,
    every: Seq<char>,
    count: nat,
)
    requires
        count <= snapshots.len(),
        lowercase(every).len() == 0,
    ensures
        is_selection(symbols_in(snapshots, query, count), symbols_in(snapshots, every, count)),
    decreases count,
{
    if count > 0 {
        law_queries_select(snapshots, query, every, (count - 1) as nat);
        let definitions = snapshots[count - 1].definitions;
        lemma_fewer_symbols(definitions, query, every, definitions.len());
        lemma_selections_join(
            symbols_in(snapshots, query, (count - 1) as nat),
            symbols_in(snapshots, every, (count - 1) as nat),
            symbols_found(definitions, query, definitions.len()),
            symbols_found(definitions, every, definitions.len()),
        );
    }
}

} // verus!
