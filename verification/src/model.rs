//! What is known of modules: definitions, names, references and symbols.
use vstd::prelude::*;
use crate::position::{Position, Range};
use crate::stack_effect::{ItemKind, ReferenceKind, StackSignature};
use crate::text::same_text;

verus! {

/// One target of a package: names are resolved among the modules of one context.
#[derive(Debug)]
pub struct ContextKey {
    pub package: String,
    pub target: String,
    pub executable: bool,
}

/// The model of a context.
pub struct Context {
    pub package: Seq<char>,
    pub target: Seq<char>,
    pub executable: bool,
}

impl View for ContextKey {
    type V = Context;

    open spec fn view(&self) -> Context {
        Context { package: self.package@, target: self.target@, executable: self.executable }
    }
}

impl ContextKey {
    /// The same context once more.
    pub fn copy(&self) -> (copy: ContextKey)
        ensures
            copy@ == self@,
    {
        ContextKey {
            package: self.package.clone(),
            target: self.target.clone(),
            executable: self.executable,
        }
    }

    /// Whether two contexts are the same.
    pub fn same(&self, other: &ContextKey) -> (same: bool)
        ensures
            same == (self@ == other@),
    {
        same_text(&self.package, &other.package) && same_text(&self.target, &other.target)
            && self.executable == other.executable
    }
}

/// How a symbol is shown.
#[derive(Debug, Clone, Copy, PartialEq, Eq, Structural)]
pub enum SymbolKind {
    Module,
    Function,
    Constant,
    Class,
}

/// Where an item is defined. A path comes with its normal form, under which files are compared.
#[derive(Debug)]
pub enum DefinitionLocation {
    /// In a source file.
    Source { path: String, normal: String, selection_range: Range },
    /// In a compiled package.
    Artifact { path: String, normal: String },
}

/// The model of a definition's place.
pub enum Place {
    Source { path: Seq<char>, normal: Seq<char>, selection_range: Range },
    Artifact { path: Seq<char>, normal: Seq<char> },
}

impl View for DefinitionLocation {
    type V = Place;

    open spec fn view(&self) -> Place {
        match *self {
            DefinitionLocation::Source { path, normal, selection_range } => Place::Source {
                path: path@,
                normal: normal@,
                selection_range,
            },
            DefinitionLocation::Artifact { path, normal } => Place::Artifact {
                path: path@,
                normal: normal@,
            },
        }
    }
}

impl DefinitionLocation {
    /// The same place once more.
    pub fn copy(&self) -> (copy: DefinitionLocation)
        ensures
            copy@ == self@,
    {
        match self {
            DefinitionLocation::Source { path, normal, selection_range } => {
                DefinitionLocation::Source {
                    path: path.clone(),
                    normal: normal.clone(),
                    selection_range: *selection_range,
                }
            },
            DefinitionLocation::Artifact { path, normal } => DefinitionLocation::Artifact {
                path: path.clone(),
                normal: normal.clone(),
            },
        }
    }
}

/// The model of a text that may be missing.
pub open spec fn text_view(text: Option<String>) -> Option<Seq<char>> {
    match text {
        Some(text) => Some(text@),
        None => None,
    }
}

/// The model of a place that may be missing.
pub open spec fn place_view(place: Option<DefinitionLocation>) -> Option<Place> {
    match place {
        Some(place) => Some(place@),
        None => None,
    }
}

/// The same text once more.
pub fn copy_text(text: &Option<String>) -> (copy: Option<String>)
    ensures
        text_view(copy) == text_view(*text),
{
    match text {
        Some(text) => Some(text.clone()),
        None => None,
    }
}

/// The same place once more.
pub fn copy_place(place: &Option<DefinitionLocation>) -> (copy: Option<DefinitionLocation>)
    ensures
        place_view(copy) == place_view(*place),
{
    match place {
        Some(place) => Some(place.copy()),
        None => None,
    }
}

/// An item: a module, or a procedure, constant or type of a module.
#[derive(Debug)]
pub struct Definition {
    pub context: ContextKey,
    /// The item's own path.
    pub path: String,
    /// The path of the item's module.
    pub module: String,
    pub name: String,
    pub kind: ItemKind,
    pub symbol_kind: SymbolKind,
    pub hover: String,
    pub signature: Option<String>,
    /// What a compiled procedure takes from the stack and gives, where its type says so.
    pub stack_signature: Option<StackSignature>,
    pub location: Option<DefinitionLocation>,
    pub editable: bool,
    pub exported: bool,
    pub entrypoint: bool,
    pub renamable: bool,
    pub visible_outside_context: bool,
    pub selection_range: Range,
}

/// The model of an item.
pub struct Def {
    pub context: Context,
    pub path: Seq<char>,
    pub module: Seq<char>,
    pub name: Seq<char>,
    pub kind: ItemKind,
    pub symbol_kind: SymbolKind,
    pub hover: Seq<char>,
    pub signature: Option<Seq<char>>,
    pub stack_signature: Option<StackSignature>,
    pub location: Option<Place>,
    pub editable: bool,
    pub exported: bool,
    pub entrypoint: bool,
    pub renamable: bool,
    pub visible_outside_context: bool,
    pub selection_range: Range,
}

impl View for Definition {
    type V = Def;

    open spec fn view(&self) -> Def {
        Def {
            context: self.context@,
            path: self.path@,
            module: self.module@,
            name: self.name@,
            kind: self.kind,
            symbol_kind: self.symbol_kind,
            hover: self.hover@,
            signature: text_view(self.signature),
            stack_signature: self.stack_signature,
            location: place_view(self.location),
            editable: self.editable,
            exported: self.exported,
            entrypoint: self.entrypoint,
            renamable: self.renamable,
            visible_outside_context: self.visible_outside_context,
            selection_range: self.selection_range,
        }
    }
}

/// The models of a list of items.
pub open spec fn defs(definitions: Seq<Definition>) -> Seq<Def> {
    Seq::new(definitions.len(), |i: int| definitions[i]@)
}

impl Definition {
    /// The same item once more.
    pub fn copy(&self) -> (copy: Definition)
        ensures
            copy@ == self@,
    {
        Definition {
            context: self.context.copy(),
            path: self.path.clone(),
            module: self.module.clone(),
            name: self.name.clone(),
            kind: self.kind,
            symbol_kind: self.symbol_kind,
            hover: self.hover.clone(),
            signature: copy_text(&self.signature),
            stack_signature: self.stack_signature,
            location: copy_place(&self.location),
            editable: self.editable,
            exported: self.exported,
            entrypoint: self.entrypoint,
            renamable: self.renamable,
            visible_outside_context: self.visible_outside_context,
            selection_range: self.selection_range,
        }
    }
}

/// What an import stands for.
#[derive(Debug)]
pub enum AliasTarget {
    /// A path.
    Path(String),
    /// A bare hash.
    MastRoot,
}

/// The model of what an import stands for.
pub enum Alias {
    Path(Seq<char>),
    MastRoot,
}

impl View for AliasTarget {
    type V = Alias;

    open spec fn view(&self) -> Alias {
        match *self {
            AliasTarget::Path(path) => Alias::Path(path@),
            AliasTarget::MastRoot => Alias::MastRoot,
        }
    }
}

/// The names that a module defines, with the paths of the items.
pub open spec fn name_entries(entries: Seq<(String, String)>) -> Seq<(Seq<char>, Seq<char>)> {
    Seq::new(entries.len(), |i: int| (entries[i].0@, entries[i].1@))
}

/// The names that a module imports, with what they stand for.
pub open spec fn import_entries(entries: Seq<(String, AliasTarget)>) -> Seq<(Seq<char>, Alias)> {
    Seq::new(entries.len(), |i: int| (entries[i].0@, entries[i].1@))
}

/// What the last of the first `count` entries with the given key holds: a later entry replaces an
/// earlier one.
pub open spec fn entry<V>(entries: Seq<(Seq<char>, V)>, key: Seq<char>, count: nat) -> Option<V>
    decreases count,
{
    if count == 0 {
        None
    } else if entries[count - 1].0 == key {
        Some(entries[count - 1].1)
    } else {
        entry(entries, key, (count - 1) as nat)
    }
}

/// What a list of entries holds under a key.
pub open spec fn lookup<V>(entries: Seq<(Seq<char>, V)>, key: Seq<char>) -> Option<V> {
    entry(entries, key, entries.len())
}

/// Looks a name up.
pub fn find_name<'a>(entries: &'a Vec<(String, String)>, key: &str) -> (found: Option<&'a String>)
    ensures
        match found {
            Some(path) => lookup(name_entries(entries@), key@) == Some(path@),
            None => lookup(name_entries(entries@), key@) is None,
        },
{
    let ghost all = name_entries(entries@);
    let mut i: usize = entries.len();
    while i > 0
        invariant
            i <= entries.len(),
            all == name_entries(entries@),
            lookup(all, key@) == entry(all, key@, i as nat),
        decreases i,
    {
        i = i - 1;
        assert(all[i as int] == (entries@[i as int].0@, entries@[i as int].1@));
        if same_text(&entries[i].0, key) {
            return Some(&entries[i].1);
        }
    }
    None
}

/// Looks an import up.
pub fn find_import<'a>(entries: &'a Vec<(String, AliasTarget)>, key: &str) -> (found: Option<
    &'a AliasTarget,
>)
    ensures
        match found {
            Some(target) => lookup(import_entries(entries@), key@) == Some(target@),
            None => lookup(import_entries(entries@), key@) is None,
        },
{
    let ghost all = import_entries(entries@);
    let mut i: usize = entries.len();
    while i > 0
        invariant
            i <= entries.len(),
            all == import_entries(entries@),
            lookup(all, key@) == entry(all, key@, i as nat),
        decreases i,
    {
        i = i - 1;
        assert(all[i as int] == (entries@[i as int].0@, entries@[i as int].1@));
        if same_text(&entries[i].0, key) {
            return Some(&entries[i].1);
        }
    }
    None
}

/// A reference as it is written.
#[derive(Debug)]
pub struct RawOccurrence {
    pub range: Range,
    pub raw_path: String,
    pub kind: ReferenceKind,
}

/// The model of a written reference.
pub struct Occurrence {
    pub range: Range,
    pub raw_path: Seq<char>,
    pub kind: ReferenceKind,
}

impl View for RawOccurrence {
    type V = Occurrence;

    open spec fn view(&self) -> Occurrence {
        Occurrence { range: self.range, raw_path: self.raw_path@, kind: self.kind }
    }
}

/// The models of a list of written references.
pub open spec fn occurrences(raw: Seq<RawOccurrence>) -> Seq<Occurrence> {
    Seq::new(raw.len(), |i: int| raw[i]@)
}

/// A reference and the items that it stands for, by their numbers.
#[derive(Debug)]
pub struct ResolvedOccurrence {
    pub range: Range,
    pub kind: ReferenceKind,
    pub definitions: Vec<usize>,
}

/// The model of a resolved reference.
pub struct Resolution {
    pub range: Range,
    pub kind: ReferenceKind,
    pub definitions: Seq<usize>,
}

impl View for ResolvedOccurrence {
    type V = Resolution;

    open spec fn view(&self) -> Resolution {
        Resolution { range: self.range, kind: self.kind, definitions: self.definitions@ }
    }
}

/// The models of a list of resolved references.
pub open spec fn resolutions(resolved: Seq<ResolvedOccurrence>) -> Seq<Resolution> {
    Seq::new(resolved.len(), |i: int| resolved[i]@)
}

/// A symbol in the outline of a document.
#[derive(Debug)]
pub struct DocumentSymbol {
    pub name: String,
    pub detail: Option<String>,
    pub kind: SymbolKind,
    pub range: Range,
    pub selection_range: Range,
}

/// The model of a symbol in an outline.
pub struct Symbol {
    pub name: Seq<char>,
    pub detail: Option<Seq<char>>,
    pub kind: SymbolKind,
    pub range: Range,
    pub selection_range: Range,
}

impl View for DocumentSymbol {
    type V = Symbol;

    open spec fn view(&self) -> Symbol {
        Symbol {
            name: self.name@,
            detail: text_view(self.detail),
            kind: self.kind,
            range: self.range,
            selection_range: self.selection_range,
        }
    }
}

impl DocumentSymbol {
    /// The same symbol once more.
    pub fn copy(&self) -> (copy: DocumentSymbol)
        ensures
            copy@ == self@,
    {
        DocumentSymbol {
            name: self.name.clone(),
            detail: copy_text(&self.detail),
            kind: self.kind,
            range: self.range,
            selection_range: self.selection_range,
        }
    }
}

/// The models of a list of symbols.
pub open spec fn symbols(list: Seq<DocumentSymbol>) -> Seq<Symbol> {
    Seq::new(list.len(), |i: int| list[i]@)
}

/// All that is known of one module of a context.
#[derive(Debug)]
pub struct ModuleAnalysis {
    pub context: ContextKey,
    pub file_path: String,
    pub path: String,
    pub priority: usize,
    pub editable: bool,
    pub local_names: Vec<(String, String)>,
    pub imports: Vec<(String, AliasTarget)>,
    pub definitions: Vec<Definition>,
    pub raw_occurrences: Vec<RawOccurrence>,
    pub resolved_occurrences: Vec<ResolvedOccurrence>,
    pub document_symbols: Vec<DocumentSymbol>,
}

/// The model of a module.
pub struct ModuleModel {
    pub context: Context,
    pub file: Seq<char>,
    pub path: Seq<char>,
    pub priority: usize,
    pub editable: bool,
    pub names: Seq<(Seq<char>, Seq<char>)>,
    pub imports: Seq<(Seq<char>, Alias)>,
    pub definitions: Seq<Def>,
    pub raw: Seq<Occurrence>,
    pub resolved: Seq<Resolution>,
    pub symbols: Seq<Symbol>,
}

impl View for ModuleAnalysis {
    type V = ModuleModel;

    open spec fn view(&self) -> ModuleModel {
        ModuleModel {
            context: self.context@,
            file: self.file_path@,
            path: self.path@,
            priority: self.priority,
            editable: self.editable,
            names: name_entries(self.local_names@),
            imports: import_entries(self.imports@),
            definitions: defs(self.definitions@),
            raw: occurrences(self.raw_occurrences@),
            resolved: resolutions(self.resolved_occurrences@),
            symbols: symbols(self.document_symbols@),
        }
    }
}

/// The range at the very start of a file.
pub open spec fn file_start() -> Range {
    Range {
        start: Position { line: 0, character: 0 },
        end: Position { line: 0, character: 0 },
    }
}

/// The range at the very start of a file.
pub fn start_of_file() -> (range: Range)
    ensures
        range == file_start(),
{
    Range::new(Position::new(0, 0), Position::new(0, 0))
}

} // verus!
