//! What is known of a project: its files, modules and items, and what can be asked about a position.
use tower_lsp::lsp_types::Url;
use vstd::prelude::*;
use vstd::string::StringExecFns;
use crate::model::{defs, file_start, resolutions, start_of_file, symbols, Context, ContextKey, Def,
    Definition, DefinitionLocation, DocumentSymbol, ModuleAnalysis, ModuleModel, Place, Resolution,
    ResolvedOccurrence};
use crate::parsed::{ParsedFile, ParsedText};
use crate::position::{contains_position, Position, Range};
use crate::resolve::{find_in_context, in_context};
use crate::stack_effect::{ItemKind, ReferenceKind};
use crate::text::same_text;
use crate::tokens::{collect_syntax_semantic_tokens, encode_semantic_tokens, encoded_tokens,
    law_syntax_tokens_differ, lemma_range_differs, places_differ, push_semantic_token_range,
    syntax_tokens, with_range, AbsoluteSemanticToken, RankedToken, SemanticToken, TokenClass,
    TOKEN_MODIFIER_DECLARATION, TOKEN_MODIFIER_READONLY, TOKEN_TYPE_FUNCTION, TOKEN_TYPE_NAMESPACE,
    TOKEN_TYPE_TYPE, TOKEN_TYPE_VARIABLE};

verus! {

/// The address of a file.
pub uninterp spec fn file_uri(path: Seq<char>) -> Option<Seq<char>>;

/// `Url::from_file_path`: the address of the file with the given path, written with slashes. A path
/// that does not start at the root has none.
#[verifier::external_body]
pub(crate) fn uri_from_path(path: &str) -> (uri: Option<String>)
    ensures
        match uri {
            Some(uri) => file_uri(path@) == Some(uri@),
            None => file_uri(path@) is None,
        },
{
    Url::from_file_path(path).ok().map(|uri| uri.to_string())
}

/// A range of a file.
#[derive(Debug)]
pub struct Location {
    pub uri: String,
    pub range: Range,
}

/// The model of a range of a file.
pub struct Spot {
    pub uri: Seq<char>,
    pub range: Range,
}

impl View for Location {
    type V = Spot;

    open spec fn view(&self) -> Spot {
        Spot { uri: self.uri@, range: self.range }
    }
}

/// The model of a location that may be missing.
pub open spec fn spot_view(location: Option<Location>) -> Option<Spot> {
    match location {
        Some(location) => Some(location@),
        None => None,
    }
}

impl Def {
    /// Where an item is shown: at its name, or at the start of the package that holds it.
    pub open spec fn spot(self) -> Option<Spot> {
        match self.location {
            Some(Place::Source { path, selection_range, .. }) => match file_uri(path) {
                Some(uri) => Some(Spot { uri, range: selection_range }),
                None => None,
            },
            Some(Place::Artifact { path, .. }) => match file_uri(path) {
                Some(uri) => Some(Spot { uri, range: file_start() }),
                None => None,
            },
            None => None,
        }
    }
}

impl Definition {
    /// Where the item is shown.
    pub fn location(&self) -> (location: Option<Location>)
        ensures
            spot_view(location) == self@.spot(),
    {
        match &self.location {
            Some(DefinitionLocation::Source { path, selection_range, .. }) => {
                match uri_from_path(path) {
                    Some(uri) => Some(Location { uri, range: *selection_range }),
                    None => None,
                }
            },
            Some(DefinitionLocation::Artifact { path, .. }) => match uri_from_path(path) {
                Some(uri) => Some(Location { uri, range: start_of_file() }),
                None => None,
            },
            None => None,
        }
    }
}

/// What is shown for an item.
#[derive(Debug)]
pub struct Hover {
    pub contents: String,
    pub range: Range,
}

/// The model of what is shown for an item.
pub struct HoverText {
    pub contents: Seq<char>,
    pub range: Range,
}

impl View for Hover {
    type V = HoverText;

    open spec fn view(&self) -> HoverText {
        HoverText { contents: self.contents@, range: self.range }
    }
}

/// The model of a hover that may be missing.
pub open spec fn hover_view(hover: Option<Hover>) -> Option<HoverText> {
    match hover {
        Some(hover) => Some(hover@),
        None => None,
    }
}

/// What is shown for an item.
pub fn render_hover(definition: &Definition) -> (hover: Hover)
    ensures
        hover@ == (HoverText {
            contents: definition@.hover,
            range: definition@.selection_range,
        }),
{
    Hover { contents: definition.hover.clone(), range: definition.selection_range }
}

/// A file of a project and the modules that it holds, one for each target that it belongs to.
pub struct FileEntry {
    pub path: String,
    pub parsed: ParsedFile,
    pub modules: Vec<ModuleAnalysis>,
}

/// The model of a file.
pub struct FileModel {
    pub path: Seq<char>,
    pub parsed: ParsedText,
    pub modules: Seq<ModuleModel>,
}

/// The models of a list of modules.
pub open spec fn module_views(modules: Seq<ModuleAnalysis>) -> Seq<ModuleModel> {
    Seq::new(modules.len(), |i: int| modules[i]@)
}

impl View for FileEntry {
    type V = FileModel;

    open spec fn view(&self) -> FileModel {
        FileModel {
            path: self.path@,
            parsed: self.parsed@,
            modules: module_views(self.modules@),
        }
    }
}

/// All that is known of a project. Files stand in the order of their paths, and the modules of a
/// file in the order of their priorities.
pub struct ProjectSnapshot {
    pub files: Vec<FileEntry>,
    pub definitions: Vec<Definition>,
}

/// The model of a project.
pub struct Snapshot {
    pub files: Seq<FileModel>,
    pub definitions: Seq<Def>,
}

/// The models of a list of files.
pub open spec fn file_views(files: Seq<FileEntry>) -> Seq<FileModel> {
    Seq::new(files.len(), |i: int| files[i]@)
}

impl View for ProjectSnapshot {
    type V = Snapshot;

    open spec fn view(&self) -> Snapshot {
        Snapshot { files: file_views(self.files@), definitions: defs(self.definitions@) }
    }
}

/// The first file from `at` on with the given path.
pub open spec fn file_at(files: Seq<FileModel>, path: Seq<char>, at: int) -> Option<int>
    decreases files.len() - at,
{
    if at >= files.len() {
        None
    } else if files[at].path == path {
        Some(at)
    } else {
        file_at(files, path, at + 1)
    }
}

impl Snapshot {
    /// The modules of a file; none where the file is not known.
    pub open spec fn modules(self, path: Seq<char>) -> Seq<ModuleModel> {
        match file_at(self.files, path, 0) {
            Some(at) => self.files[at].modules,
            None => Seq::empty(),
        }
    }

    /// The module of a file with the least priority number, which speaks for the file.
    pub open spec fn primary(self, path: Seq<char>) -> Option<ModuleModel> {
        let modules = self.modules(path);
        if modules.len() > 0 {
            Some(modules[0])
        } else {
            None
        }
    }
}

/// Whether modules stand in the order of their priorities.
pub open spec fn by_priority(modules: Seq<ModuleModel>) -> bool {
    forall|i: int, j: int|
        0 <= i < j < modules.len() ==> (#[trigger] modules[i]).priority <= (
        #[trigger] modules[j]).priority
}

impl ProjectSnapshot {
    /// Files are parsed, and the modules of each file stand in the order of their priorities.
    pub open spec fn well_formed(self) -> bool {
        forall|i: int|
            0 <= i < self.files@.len() ==> (#[trigger] self.files@[i]).parsed.well_formed()
                && by_priority(self.files@[i]@.modules)
    }

    /// The number of the file with the given path.
    pub fn find_file(&self, path: &str) -> (found: Option<usize>)
        ensures
            match found {
                Some(at) => file_at(self@.files, path@, 0) == Some(at as int) && at
                    < self.files@.len(),
                None => file_at(self@.files, path@, 0) is None,
            },
    {
        let ghost files = self@.files;
        let mut i: usize = 0;
        while i < self.files.len()
            invariant
                i <= self.files.len(),
                files == self@.files,
                file_at(files, path@, 0) == file_at(files, path@, i as int),
            decreases self.files.len() - i,
        {
            assert(files[i as int] == self.files@[i as int]@);
            if same_text(&self.files[i].path, path) {
                return Some(i);
            }
            i = i + 1;
        }
        None
    }
}

/// The module that speaks for a file.
pub fn pick_primary_module(modules: &Vec<ModuleAnalysis>) -> (primary: Option<&ModuleAnalysis>)
    requires
        by_priority(module_views(modules@)),
    ensures
        match primary {
            Some(primary) => modules@.len() > 0 && *primary == modules@[0] && forall|i: int|
                0 <= i < modules@.len() ==> primary.priority <= (#[trigger] modules@[i]).priority,
            None => modules@.len() == 0,
        },
{
    if modules.len() > 0 {
        proof {
            let views = module_views(modules@);
            assert forall|i: int| 0 <= i < modules@.len() implies modules@[0].priority <= (
            #[trigger] modules@[i]).priority by {
                assert(views[i].priority == modules@[i].priority);
                if i > 0 {
                    assert(views[0].priority <= views[i].priority);
                }
            }
        }
        Some(&modules[0])
    } else {
        None
    }
}

/// The place of the first item from `at` on that stands at a position and has a place.
pub open spec fn spot_of_definition(definitions: Seq<Def>, position: Position, at: int) -> Option<
    Spot,
>
    decreases definitions.len() - at,
{
    if at >= definitions.len() {
        None
    } else if definitions[at].selection_range.covers(position) && definitions[at].spot() is Some {
        definitions[at].spot()
    } else {
        spot_of_definition(definitions, position, at + 1)
    }
}

/// The place of the first of the listed items from `at` on that has one.
pub open spec fn spot_of_listed(definitions: Seq<Def>, listed: Seq<usize>, at: int) -> Option<Spot>
    decreases listed.len() - at,
{
    if at >= listed.len() {
        None
    } else if listed[at] < definitions.len() && definitions[listed[at] as int].spot() is Some {
        definitions[listed[at] as int].spot()
    } else {
        spot_of_listed(definitions, listed, at + 1)
    }
}

/// The place of an item that one of the references from `at` on at a position stands for.
pub open spec fn spot_of_reference(
    definitions: Seq<Def>,
    references: Seq<Resolution>,
    position: Position,
    at: int,
) -> Option<Spot>
    decreases references.len() - at,
{
    if at >= references.len() {
        None
    } else if references[at].range.covers(position) && spot_of_listed(
        definitions,
        references[at].definitions,
        0,
    ) is Some {
        spot_of_listed(definitions, references[at].definitions, 0)
    } else {
        spot_of_reference(definitions, references, position, at + 1)
    }
}

/// The place of what stands at a position, in one of the modules from `at` on: of an item that is
/// defined there, else of what a reference there stands for.
pub open spec fn spot_in_modules(
    definitions: Seq<Def>,
    modules: Seq<ModuleModel>,
    position: Position,
    at: int,
) -> Option<Spot>
    decreases modules.len() - at,
{
    if at >= modules.len() {
        None
    } else {
        let module = modules[at];
        match spot_of_definition(module.definitions, position, 0) {
            Some(spot) => Some(spot),
            None => match spot_of_reference(definitions, module.resolved, position, 0) {
                Some(spot) => Some(spot),
                None => spot_in_modules(definitions, modules, position, at + 1),
            },
        }
    }
}

/// What is shown for the first item from `at` on that stands at a position.
pub open spec fn hover_of_definition(definitions: Seq<Def>, position: Position, at: int) -> Option<
    HoverText,
>
    decreases definitions.len() - at,
{
    if at >= definitions.len() {
        None
    } else if definitions[at].selection_range.covers(position) {
        Some(
            HoverText {
                contents: definitions[at].hover,
                range: definitions[at].selection_range,
            },
        )
    } else {
        hover_of_definition(definitions, position, at + 1)
    }
}

/// The first of the listed items from `at` on that exists.
pub open spec fn first_listed(definitions: Seq<Def>, listed: Seq<usize>, at: int) -> Option<Def>
    decreases listed.len() - at,
{
    if at >= listed.len() {
        None
    } else if listed[at] < definitions.len() {
        Some(definitions[listed[at] as int])
    } else {
        first_listed(definitions, listed, at + 1)
    }
}

/// What is shown for an item that one of the references from `at` on at a position stands for.
pub open spec fn hover_of_reference(
    definitions: Seq<Def>,
    references: Seq<Resolution>,
    position: Position,
    at: int,
) -> Option<HoverText>
    decreases references.len() - at,
{
    if at >= references.len() {
        None
    } else {
        match first_listed(definitions, references[at].definitions, 0) {
            Some(item) => if references[at].range.covers(position) {
                Some(HoverText { contents: item.hover, range: item.selection_range })
            } else {
                hover_of_reference(definitions, references, position, at + 1)
            },
            None => hover_of_reference(definitions, references, position, at + 1),
        }
    }
}

/// What is shown at a position, in one of the modules from `at` on.
pub open spec fn hover_in_modules(
    definitions: Seq<Def>,
    modules: Seq<ModuleModel>,
    position: Position,
    at: int,
) -> Option<HoverText>
    decreases modules.len() - at,
{
    if at >= modules.len() {
        None
    } else {
        let module = modules[at];
        match hover_of_definition(module.definitions, position, 0) {
            Some(hover) => Some(hover),
            None => match hover_of_reference(definitions, module.resolved, position, 0) {
                Some(hover) => Some(hover),
                None => hover_in_modules(definitions, modules, position, at + 1),
            },
        }
    }
}

fn location_of_definition(definitions: &Vec<Definition>, position: Position) -> (location: Option<
    Location,
>)
    ensures
        spot_view(location) == spot_of_definition(defs(definitions@), position, 0),
{
    let ghost all = defs(definitions@);
    let mut i: usize = 0;
    while i < definitions.len()
        invariant
            i <= definitions.len(),
            all == defs(definitions@),
            spot_of_definition(all, position, 0) == spot_of_definition(all, position, i as int),
        decreases definitions.len() - i,
    {
        let definition = &definitions[i];
        assert(all[i as int] == definition@);
        if contains_position(definition.selection_range, position) {
            if let Some(location) = definition.location() {
                return Some(location);
            }
        }
        i = i + 1;
    }
    None
}

fn location_of_listed(definitions: &Vec<Definition>, listed: &Vec<usize>) -> (location: Option<
    Location,
>)
    ensures
        spot_view(location) == spot_of_listed(defs(definitions@), listed@, 0),
{
    let ghost all = defs(definitions@);
    let mut i: usize = 0;
    while i < listed.len()
        invariant
            i <= listed.len(),
            all == defs(definitions@),
            spot_of_listed(all, listed@, 0) == spot_of_listed(all, listed@, i as int),
        decreases listed.len() - i,
    {
        if listed[i] < definitions.len() {
            assert(all[listed@[i as int] as int] == definitions@[listed@[i as int] as int]@);
            if let Some(location) = definitions[listed[i]].location() {
                return Some(location);
            }
        }
        i = i + 1;
    }
    None
}

fn location_of_reference(
    definitions: &Vec<Definition>,
    references: &Vec<ResolvedOccurrence>,
    position: Position,
) -> (location: Option<Location>)
    ensures
        spot_view(location) == spot_of_reference(
            defs(definitions@),
            resolutions(references@),
            position,
            0,
        ),
{
    let ghost all = defs(definitions@);
    let ghost list = resolutions(references@);
    let mut i: usize = 0;
    while i < references.len()
        invariant
            i <= references.len(),
            all == defs(definitions@),
            list == resolutions(references@),
            spot_of_reference(all, list, position, 0) == spot_of_reference(
                all,
                list,
                position,
                i as int,
            ),
        decreases references.len() - i,
    {
        let reference = &references[i];
        assert(list[i as int] == reference@);
        if contains_position(reference.range, position) {
            if let Some(location) = location_of_listed(definitions, &reference.definitions) {
                return Some(location);
            }
        }
        i = i + 1;
    }
    None
}

fn hover_of_own(definitions: &Vec<Definition>, position: Position) -> (hover: Option<Hover>)
    ensures
        hover_view(hover) == hover_of_definition(defs(definitions@), position, 0),
{
    let ghost all = defs(definitions@);
    let mut i: usize = 0;
    while i < definitions.len()
        invariant
            i <= definitions.len(),
            all == defs(definitions@),
            hover_of_definition(all, position, 0) == hover_of_definition(all, position, i as int),
        decreases definitions.len() - i,
    {
        let definition = &definitions[i];
        assert(all[i as int] == definition@);
        if contains_position(definition.selection_range, position) {
            return Some(render_hover(definition));
        }
        i = i + 1;
    }
    None
}

fn find_listed<'a>(definitions: &'a Vec<Definition>, listed: &Vec<usize>) -> (found: Option<
    &'a Definition,
>)
    ensures
        match found {
            Some(found) => first_listed(defs(definitions@), listed@, 0) == Some(found@),
            None => first_listed(defs(definitions@), listed@, 0) is None,
        },
{
    let ghost all = defs(definitions@);
    let mut i: usize = 0;
    while i < listed.len()
        invariant
            i <= listed.len(),
            all == defs(definitions@),
            first_listed(all, listed@, 0) == first_listed(all, listed@, i as int),
        decreases listed.len() - i,
    {
        if listed[i] < definitions.len() {
            assert(all[listed@[i as int] as int] == definitions@[listed@[i as int] as int]@);
            return Some(&definitions[listed[i]]);
        }
        i = i + 1;
    }
    None
}

fn hover_of_used(
    definitions: &Vec<Definition>,
    references: &Vec<ResolvedOccurrence>,
    position: Position,
) -> (hover: Option<Hover>)
    ensures
        hover_view(hover) == hover_of_reference(
            defs(definitions@),
            resolutions(references@),
            position,
            0,
        ),
{
    let ghost all = defs(definitions@);
    let ghost list = resolutions(references@);
    let mut i: usize = 0;
    while i < references.len()
        invariant
            i <= references.len(),
            all == defs(definitions@),
            list == resolutions(references@),
            hover_of_reference(all, list, position, 0) == hover_of_reference(
                all,
                list,
                position,
                i as int,
            ),
        decreases references.len() - i,
    {
        let reference = &references[i];
        assert(list[i as int] == reference@);
        if contains_position(reference.range, position) {
            if let Some(definition) = find_listed(definitions, &reference.definitions) {
                return Some(render_hover(definition));
            }
        }
        i = i + 1;
    }
    None
}

/// The item that a reference stands for, as a context sees it: the first that the context can see,
/// else the first of all.
pub open spec fn visible_listed(
    definitions: Seq<Def>,
    context: Context,
    listed: Seq<usize>,
    at: int,
) -> Option<Def>
    decreases listed.len() - at,
{
    if at >= listed.len() {
        None
    } else if listed[at] < definitions.len() && is_visible(
        definitions[listed[at] as int],
        context,
    ) {
        Some(definitions[listed[at] as int])
    } else {
        visible_listed(definitions, context, listed, at + 1)
    }
}

/// Whether a context can see an item.
pub open spec fn is_visible(definition: Def, context: Context) -> bool {
    definition.context == context || definition.visible_outside_context
}

/// Whether a context can see an item.
pub fn definition_visible_to_context(definition: &Definition, context: &ContextKey) -> (visible: bool)
    ensures
        visible == is_visible(definition@, context@),
{
    definition.context.same(context) || definition.visible_outside_context
}

/// The item that a reference stands for, as a context sees it.
pub open spec fn item_of_reference(
    definitions: Seq<Def>,
    context: Context,
    reference: Resolution,
) -> Option<Def> {
    match visible_listed(definitions, context, reference.definitions, 0) {
        Some(item) => Some(item),
        None => first_listed(definitions, reference.definitions, 0),
    }
}

/// The class of the token for an item's name.
pub open spec fn definition_class(kind: ItemKind) -> Option<TokenClass> {
    match kind {
        ItemKind::Module => None,
        ItemKind::Procedure => Some(
            TokenClass {
                token_type: TOKEN_TYPE_FUNCTION,
                token_modifiers_bitset: TOKEN_MODIFIER_DECLARATION,
                priority: 0,
            },
        ),
        ItemKind::Constant => Some(
            TokenClass { token_type: TOKEN_TYPE_VARIABLE, token_modifiers_bitset: 3, priority: 0 },
        ),
        ItemKind::Type => Some(
            TokenClass {
                token_type: TOKEN_TYPE_TYPE,
                token_modifiers_bitset: TOKEN_MODIFIER_DECLARATION,
                priority: 0,
            },
        ),
    }
}

/// The class of the token for a reference.
pub open spec fn reference_class(kind: ReferenceKind) -> TokenClass {
    let (token_type, token_modifiers_bitset) = match kind {
        ReferenceKind::Invoke => (TOKEN_TYPE_FUNCTION, 0),
        ReferenceKind::ImportAlias | ReferenceKind::ImportTarget => (TOKEN_TYPE_NAMESPACE, 0),
        ReferenceKind::Constant => (TOKEN_TYPE_VARIABLE, TOKEN_MODIFIER_READONLY),
        ReferenceKind::Type => (TOKEN_TYPE_TYPE, 0),
    };
    TokenClass { token_type, token_modifiers_bitset, priority: 1 }
}

/// Adds the tokens for the names of the first `count` items.
pub open spec fn with_definitions(
    bytes: Seq<u8>,
    tokens: Seq<RankedToken>,
    definitions: Seq<Def>,
    count: nat,
) -> Seq<RankedToken>
    decreases count,
{
    if count == 0 {
        tokens
    } else {
        let before = with_definitions(bytes, tokens, definitions, (count - 1) as nat);
        match definition_class(definitions[count - 1].kind) {
            Some(class) => with_range(
                bytes,
                before,
                definitions[count - 1].selection_range,
                class,
            ),
            None => before,
        }
    }
}

/// Adds the tokens for the first `count` references.
pub open spec fn with_references(
    bytes: Seq<u8>,
    tokens: Seq<RankedToken>,
    definitions: Seq<Def>,
    module: ModuleModel,
    count: nat,
) -> Seq<RankedToken>
    decreases count,
{
    if count == 0 {
        tokens
    } else {
        let before = with_references(bytes, tokens, definitions, module, (count - 1) as nat);
        let reference = module.resolved[count - 1];
        match item_of_reference(definitions, module.context, reference) {
            Some(_) => with_range(bytes, before, reference.range, reference_class(reference.kind)),
            None => before,
        }
    }
}

/// The tokens of a file, with their places in it.
pub open spec fn file_tokens(definitions: Seq<Def>, parsed: ParsedText, module: ModuleModel) -> Seq<
    RankedToken,
> {
    let bytes = parsed.bytes();
    let named = with_definitions(
        bytes,
        syntax_tokens(parsed),
        module.definitions,
        module.definitions.len(),
    );
    with_references(bytes, named, definitions, module, module.resolved.len())
}

/// Tokens without their ranks.
pub open spec fn plain_tokens(tokens: Seq<RankedToken>) -> Seq<AbsoluteSemanticToken> {
    Seq::new(tokens.len(), |i: int| tokens[i].token)
}

fn class_of_definition(kind: ItemKind) -> (class: Option<TokenClass>)
    ensures
        class == definition_class(kind),
{
    match kind {
        ItemKind::Module => None,
        ItemKind::Procedure => Some(
            TokenClass {
                token_type: TOKEN_TYPE_FUNCTION,
                token_modifiers_bitset: TOKEN_MODIFIER_DECLARATION,
                priority: 0,
            },
        ),
        ItemKind::Constant => Some(
            TokenClass {
                token_type: TOKEN_TYPE_VARIABLE,
                token_modifiers_bitset: TOKEN_MODIFIER_DECLARATION + TOKEN_MODIFIER_READONLY,
                priority: 0,
            },
        ),
        ItemKind::Type => Some(
            TokenClass {
                token_type: TOKEN_TYPE_TYPE,
                token_modifiers_bitset: TOKEN_MODIFIER_DECLARATION,
                priority: 0,
            },
        ),
    }
}

fn class_of_reference(kind: ReferenceKind) -> (class: TokenClass)
    ensures
        class == reference_class(kind),
{
    let (token_type, token_modifiers_bitset) = match kind {
        ReferenceKind::Invoke => (TOKEN_TYPE_FUNCTION, 0),
        ReferenceKind::ImportAlias | ReferenceKind::ImportTarget => (TOKEN_TYPE_NAMESPACE, 0),
        ReferenceKind::Constant => (TOKEN_TYPE_VARIABLE, TOKEN_MODIFIER_READONLY),
        ReferenceKind::Type => (TOKEN_TYPE_TYPE, 0),
    };
    TokenClass { token_type, token_modifiers_bitset, priority: 1 }
}

/// The numbers of the items at the places in `listed`, each once and ascending.
pub open spec fn ascending(listed: Seq<usize>, count: nat) -> Seq<usize>
    decreases count,
{
    if count == 0 {
        Seq::empty()
    } else {
        let before = ascending(listed, (count - 1) as nat);
        if listed.contains((count - 1) as usize) {
            before.push((count - 1) as usize)
        } else {
            before
        }
    }
}

/// What stands at a position: the items, by their numbers, and the range that shows them.
pub struct SymbolAt {
    pub definition_indexes: Vec<usize>,
    pub range: Range,
}

/// What was found at a position so far.
pub struct Gathered {
    pub listed: Seq<usize>,
    pub range: Option<Range>,
}

impl Gathered {
    /// Adds items that are shown by a range; the first range stays.
    pub open spec fn with(self, range: Range, more: Seq<usize>) -> Gathered {
        Gathered {
            listed: self.listed + more,
            range: match self.range {
                Some(range) => Some(range),
                None => Some(range),
            },
        }
    }
}

/// Adds the first `count` of a module's items that stand at a position, with all that stand under
/// the same path in the same context.
pub open spec fn gathered_definitions(
    definitions: Seq<Def>,
    own: Seq<Def>,
    position: Position,
    found: Gathered,
    count: nat,
) -> Gathered
    decreases count,
{
    if count == 0 {
        found
    } else {
        let before = gathered_definitions(definitions, own, position, found, (count - 1) as nat);
        let item = own[count - 1];
        if item.selection_range.covers(position) {
            before.with(
                item.selection_range,
                in_context(definitions, item.context, item.path, definitions.len()),
            )
        } else {
            before
        }
    }
}

/// Adds what the first `count` references at a position stand for.
pub open spec fn gathered_references(
    references: Seq<Resolution>,
    position: Position,
    found: Gathered,
    count: nat,
) -> Gathered
    decreases count,
{
    if count == 0 {
        found
    } else {
        let before = gathered_references(references, position, found, (count - 1) as nat);
        let reference = references[count - 1];
        if reference.range.covers(position) {
            before.with(reference.range, reference.definitions)
        } else {
            before
        }
    }
}

/// What stands at a position in the first `count` modules of a file.
pub open spec fn gathered(
    definitions: Seq<Def>,
    modules: Seq<ModuleModel>,
    position: Position,
    count: nat,
) -> Gathered
    decreases count,
{
    if count == 0 {
        Gathered { listed: Seq::empty(), range: None }
    } else {
        let before = gathered(definitions, modules, position, (count - 1) as nat);
        let module = modules[count - 1];
        gathered_references(
            module.resolved,
            position,
            gathered_definitions(
                definitions,
                module.definitions,
                position,
                before,
                module.definitions.len(),
            ),
            module.resolved.len(),
        )
    }
}

impl Snapshot {
    /// The place of what stands at a position of a file.
    pub open spec fn definition_at(self, path: Seq<char>, position: Position) -> Option<Spot> {
        spot_in_modules(self.definitions, self.modules(path), position, 0)
    }

    /// What is shown at a position of a file.
    pub open spec fn hover_at(self, path: Seq<char>, position: Position) -> Option<HoverText> {
        hover_in_modules(self.definitions, self.modules(path), position, 0)
    }

    /// The tokens of a file as they are sent.
    pub open spec fn semantic_tokens(self, path: Seq<char>) -> Option<Seq<SemanticToken>> {
        match file_at(self.files, path, 0) {
            Some(at) => if self.files[at].modules.len() > 0 {
                Some(
                    encoded_tokens(
                        plain_tokens(
                            file_tokens(
                                self.definitions,
                                self.files[at].parsed,
                                self.files[at].modules[0],
                            ),
                        ),
                    ),
                )
            } else {
                None
            },
            None => None,
        }
    }

    /// The items that stand at a position of a file, by their numbers, and the range that shows
    /// them.
    pub open spec fn symbol_at(self, path: Seq<char>, position: Position) -> Option<
        (Seq<usize>, Range),
    > {
        let modules = self.modules(path);
        let found = gathered(self.definitions, modules, position, modules.len());
        match found.range {
            Some(range) => if found.listed.len() > 0 {
                Some((ascending(found.listed, self.definitions.len()), range))
            } else {
                None
            },
            None => None,
        }
    }
}

impl ProjectSnapshot {
    /// The outline of a file.
    pub fn document_symbols(&self, document_path: &str) -> (outline: Option<Vec<DocumentSymbol>>)
        requires
            self.well_formed(),
        ensures
            match (outline, self@.primary(document_path@)) {
                (Some(outline), Some(module)) => symbols(outline@) == module.symbols,
                (None, None) => true,
                _ => false,
            },
    {
        let at = match self.find_file(document_path) {
            Some(at) => at,
            None => return None,
        };
        let file = &self.files[at];
        assert(self@.files[at as int] == file@);
        let module = match pick_primary_module(&file.modules) {
            Some(module) => module,
            None => return None,
        };
        assert(self@.primary(document_path@) == Some(module@));
        let mut outline: Vec<DocumentSymbol> = Vec::new();
        let mut i: usize = 0;
        let ghost all = symbols(module.document_symbols@);
        while i < module.document_symbols.len()
            invariant
                i <= module.document_symbols.len(),
                all == symbols(module.document_symbols@),
                symbols(outline@) == all.take(i as int),
            decreases module.document_symbols.len() - i,
        {
            let symbol = module.document_symbols[i].copy();
            let ghost before = symbols(outline@);
            outline.push(symbol);
            i = i + 1;
            assert(symbols(outline@) =~= before.push(symbol@));
            assert(symbols(outline@) =~= all.take(i as int));
        }
        assert(all.take(i as int) =~= all);
        Some(outline)
    }

    /// The place of what stands at a position of a file.
    pub fn definition_at(&self, document_path: &str, position: Position) -> (location: Option<
        Location,
    >)
        ensures
            spot_view(location) == self@.definition_at(document_path@, position),
    {
        let at = match self.find_file(document_path) {
            Some(at) => at,
            None => return None,
        };
        let modules = &self.files[at].modules;
        assert(self@.files[at as int] == self.files@[at as int]@);
        let ghost views = module_views(modules@);
        let ghost all = defs(self.definitions@);
        let mut i: usize = 0;
        while i < modules.len()
            invariant
                i <= modules.len(),
                views == module_views(modules@),
                all == defs(self.definitions@),
                spot_in_modules(all, views, position, 0) == spot_in_modules(
                    all,
                    views,
                    position,
                    i as int,
                ),
                self@.definition_at(document_path@, position) == spot_in_modules(
                    all,
                    views,
                    position,
                    0,
                ),
            decreases modules.len() - i,
        {
            let module = &modules[i];
            assert(views[i as int] == module@);
            if let Some(location) = location_of_definition(&module.definitions, position) {
                return Some(location);
            }
            if let Some(location) = location_of_reference(
                &self.definitions,
                &module.resolved_occurrences,
                position,
            ) {
                return Some(location);
            }
            i = i + 1;
        }
        None
    }

    /// What is shown at a position of a file.
    pub fn hover_at(&self, document_path: &str, position: Position) -> (hover: Option<Hover>)
        ensures
            hover_view(hover) == self@.hover_at(document_path@, position),
    {
        let at = match self.find_file(document_path) {
            Some(at) => at,
            None => return None,
        };
        let modules = &self.files[at].modules;
        assert(self@.files[at as int] == self.files@[at as int]@);
        let ghost views = module_views(modules@);
        let ghost all = defs(self.definitions@);
        let mut i: usize = 0;
        while i < modules.len()
            invariant
                i <= modules.len(),
                views == module_views(modules@),
                all == defs(self.definitions@),
                hover_in_modules(all, views, position, 0) == hover_in_modules(
                    all,
                    views,
                    position,
                    i as int,
                ),
                self@.hover_at(document_path@, position) == hover_in_modules(
                    all,
                    views,
                    position,
                    0,
                ),
            decreases modules.len() - i,
        {
            let module = &modules[i];
            assert(views[i as int] == module@);
            if let Some(hover) = hover_of_own(&module.definitions, position) {
                return Some(hover);
            }
            if let Some(hover) = hover_of_used(
                &self.definitions,
                &module.resolved_occurrences,
                position,
            ) {
                return Some(hover);
            }
            i = i + 1;
        }
        None
    }

    /// The item that a reference stands for, as a context sees it.
    pub fn definition_for_occurrence(&self, context: &ContextKey, reference: &ResolvedOccurrence) -> (
        found: Option<&Definition>)
        ensures
            match found {
                Some(found) => item_of_reference(self@.definitions, context@, reference@) == Some(
                    found@,
                ),
                None => item_of_reference(self@.definitions, context@, reference@) is None,
            },
    {
        let ghost all = self@.definitions;
        let listed = &reference.definitions;
        let mut i: usize = 0;
        while i < listed.len()
            invariant
                i <= listed.len(),
                listed@ == reference@.definitions,
                all == defs(self.definitions@),
                visible_listed(all, context@, listed@, 0) == visible_listed(
                    all,
                    context@,
                    listed@,
                    i as int,
                ),
            decreases listed.len() - i,
        {
            if listed[i] < self.definitions.len() {
                let definition = &self.definitions[listed[i]];
                assert(all[listed@[i as int] as int] == definition@);
                if definition_visible_to_context(definition, context) {
                    return Some(definition);
                }
            }
            i = i + 1;
        }
        find_listed(&self.definitions, listed)
    }

    /// The tokens of a file.
    pub fn semantic_tokens(&self, document_path: &str) -> (tokens: Option<Vec<SemanticToken>>)
        requires
            self.well_formed(),
        ensures
            match tokens {
                Some(tokens) => self@.semantic_tokens(document_path@) == Some(tokens@),
                None => self@.semantic_tokens(document_path@) is None,
            },
    {
        let at = match self.find_file(document_path) {
            Some(at) => at,
            None => return None,
        };
        let file = &self.files[at];
        assert(self@.files[at as int] == file@);
        let module = match pick_primary_module(&file.modules) {
            Some(module) => module,
            None => return None,
        };
        assert(self@.files[at as int].modules[0] == module@);
        let parsed = &file.parsed;
        let ghost bytes = parsed@.bytes();
        let ghost own = defs(module.definitions@);
        let mut tokens = collect_syntax_semantic_tokens(parsed);
        let mut i: usize = 0;
        while i < module.definitions.len()
            invariant
                i <= module.definitions.len(),
                parsed.well_formed(),
                bytes == parsed@.bytes(),
                own == defs(module.definitions@),
                tokens@ == with_definitions(bytes, syntax_tokens(parsed@), own, i as nat),
            decreases module.definitions.len() - i,
        {
            let definition = &module.definitions[i];
            assert(own[i as int] == definition@);
            if let Some(class) = class_of_definition(definition.kind) {
                push_semantic_token_range(parsed, &mut tokens, definition.selection_range, class);
            }
            i = i + 1;
        }
        let ghost named = tokens@;
        let mut j: usize = 0;
        while j < module.resolved_occurrences.len()
            invariant
                j <= module.resolved_occurrences.len(),
                parsed.well_formed(),
                bytes == parsed@.bytes(),
                tokens@ == with_references(bytes, named, self@.definitions, module@, j as nat),
            decreases module.resolved_occurrences.len() - j,
        {
            let reference = &module.resolved_occurrences[j];
            assert(module@.resolved[j as int] == reference@);
            if let Some(_) = self.definition_for_occurrence(&module.context, reference) {
                push_semantic_token_range(
                    parsed,
                    &mut tokens,
                    reference.range,
                    class_of_reference(reference.kind),
                );
            }
            j = j + 1;
        }
        let mut plain: Vec<AbsoluteSemanticToken> = Vec::new();
        let mut k: usize = 0;
        while k < tokens.len()
            invariant
                k <= tokens.len(),
                plain@ == plain_tokens(tokens@).take(k as int),
            decreases tokens.len() - k,
        {
            plain.push(tokens[k].token);
            k = k + 1;
            assert(plain@ =~= plain_tokens(tokens@).take(k as int));
        }
        assert(plain_tokens(tokens@).take(k as int) =~= plain_tokens(tokens@));
        Some(encode_semantic_tokens(plain))
    }

    /// The items that stand at a position of a file.
    pub fn symbol_at(&self, document_path: &str, position: Position) -> (symbol: Option<SymbolAt>)
        ensures
            match symbol {
                Some(symbol) => self@.symbol_at(document_path@, position) == Some(
                    (symbol.definition_indexes@, symbol.range),
                ),
                None => self@.symbol_at(document_path@, position) is None,
            },
    {
        let ghost all = self@.definitions;
        let ghost views = self@.modules(document_path@);
        let at = match self.find_file(document_path) {
            Some(at) => at,
            None => return None,
        };
        let modules = &self.files[at].modules;
        assert(self@.files[at as int] == self.files@[at as int]@);
        let mut listed: Vec<usize> = Vec::new();
        let mut range: Option<Range> = None;
        let mut i: usize = 0;
        assert(listed@ =~= Seq::<usize>::empty());
        while i < modules.len()
            invariant
                i <= modules.len(),
                all == defs(self.definitions@),
                views == module_views(modules@),
                gathered(all, views, position, i as nat) == (Gathered { listed: listed@, range }),
            decreases modules.len() - i,
        {
            let module = &modules[i];
            assert(views[i as int] == module@);
            let ghost before = Gathered { listed: listed@, range };
            let ghost own = defs(module.definitions@);
            let mut j: usize = 0;
            while j < module.definitions.len()
                invariant
                    j <= module.definitions.len(),
                    all == defs(self.definitions@),
                    own == defs(module.definitions@),
                    gathered_definitions(all, own, position, before, j as nat) == (Gathered {
                        listed: listed@,
                        range,
                    }),
                decreases module.definitions.len() - j,
            {
                let definition = &module.definitions[j];
                assert(own[j as int] == definition@);
                if contains_position(definition.selection_range, position) {
                    if range.is_none() {
                        range = Some(definition.selection_range);
                    }
                    let mut more = find_in_context(
                        &self.definitions,
                        &definition.context,
                        &definition.path,
                    );
                    listed.append(&mut more);
                }
                j = j + 1;
            }
            let ghost middle = Gathered { listed: listed@, range };
            let ghost used = resolutions(module.resolved_occurrences@);
            let mut k: usize = 0;
            while k < module.resolved_occurrences.len()
                invariant
                    k <= module.resolved_occurrences.len(),
                    used == resolutions(module.resolved_occurrences@),
                    gathered_references(used, position, middle, k as nat) == (Gathered {
                        listed: listed@,
                        range,
                    }),
                decreases module.resolved_occurrences.len() - k,
            {
                let reference = &module.resolved_occurrences[k];
                assert(used[k as int] == reference@);
                if contains_position(reference.range, position) {
                    if range.is_none() {
                        range = Some(reference.range);
                    }
                    append_numbers(&mut listed, &reference.definitions);
                }
                k = k + 1;
            }
            i = i + 1;
        }
        match range {
            Some(range) => if listed.len() > 0 {
                let definition_indexes = sort_numbers(&listed, self.definitions.len());
                Some(SymbolAt { definition_indexes, range })
            } else {
                None
            },
            None => None,
        }
    }
}

/// Appends `more` to `numbers`.
fn append_numbers(numbers: &mut Vec<usize>, more: &Vec<usize>)
    ensures
        final(numbers)@ == old(numbers)@ + more@,
{
    let mut i: usize = 0;
    assert(numbers@ =~= old(numbers)@ + more@.take(0));
    while i < more.len()
        invariant
            i <= more.len(),
            numbers@ == old(numbers)@ + more@.take(i as int),
        decreases more.len() - i,
    {
        numbers.push(more[i]);
        i = i + 1;
        assert(numbers@ =~= old(numbers)@ + more@.take(i as int));
    }
    assert(more@.take(i as int) =~= more@);
}

/// The numbers below `count` that `listed` holds, each once and ascending.
fn sort_numbers(listed: &Vec<usize>, count: usize) -> (sorted: Vec<usize>)
    ensures
        sorted@ == ascending(listed@, count as nat),
{
    let mut sorted: Vec<usize> = Vec::new();
    let mut n: usize = 0;
    while n < count
        invariant
            n <= count,
            sorted@ == ascending(listed@, n as nat),
        decreases count - n,
    {
        if holds_number(listed, n) {
            sorted.push(n);
        }
        n = n + 1;
    }
    sorted
}

/// Whether `listed` holds `number`.
pub fn holds_number(listed: &Vec<usize>, number: usize) -> (holds: bool)
    ensures
        holds == listed@.contains(number),
{
    let mut i: usize = 0;
    while i < listed.len()
        invariant
            i <= listed.len(),
            forall|k: int| 0 <= k < i ==> listed@[k] != number,
        decreases listed.len() - i,
    {
        if listed[i] == number {
            return true;
        }
        i = i + 1;
    }
    false
}

/// Where an item of a file is defined, something is shown.
pub proof fn law_definitions_are_shown(
    snapshot: Snapshot,
    path: Seq<char>,
    position: Position,
    module: int,
    item: int,
)
    requires
        0 <= module < snapshot.modules(path).len(),
        0 <= item < snapshot.modules(path)[module].definitions.len(),
        snapshot.modules(path)[module].definitions[item].selection_range.covers(position),
    ensures
        snapshot.hover_at(path, position) is Some,
        snapshot.modules(path)[module].definitions[item].spot() is Some ==> snapshot.definition_at(
            path,
            position,
        ) is Some,
{
    let modules = snapshot.modules(path);
    lemma_hover_found(snapshot.definitions, modules, position, 0, module, item);
    if modules[module].definitions[item].spot() is Some {
        lemma_spot_found(snapshot.definitions, modules, position, 0, module, item);
    }
}

proof fn lemma_hover_found(
    definitions: Seq<Def>,
    modules: Seq<ModuleModel>,
    position: Position,
    at: int,
    module: int,
    item: int,
)
    requires
        0 <= at <= module < modules.len(),
        0 <= item < modules[module].definitions.len(),
        modules[module].definitions[item].selection_range.covers(position),
    ensures
        hover_in_modules(definitions, modules, position, at) is Some,
    decreases module - at,
{
    if at == module {
        lemma_own_hover(modules[at].definitions, position, 0, item);
    } else {
        lemma_hover_found(definitions, modules, position, at + 1, module, item);
    }
}

proof fn lemma_own_hover(own: Seq<Def>, position: Position, at: int, item: int)
    requires
        0 <= at <= item < own.len(),
        own[item].selection_range.covers(position),
    ensures
        hover_of_definition(own, position, at) is Some,
    decreases item - at,
{
    if at < item {
        lemma_own_hover(own, position, at + 1, item);
    }
}

proof fn lemma_spot_found(
    definitions: Seq<Def>,
    modules: Seq<ModuleModel>,
    position: Position,
    at: int,
    module: int,
    item: int,
)
    requires
        0 <= at <= module < modules.len(),
        0 <= item < modules[module].definitions.len(),
        modules[module].definitions[item].selection_range.covers(position),
        modules[module].definitions[item].spot() is Some,
    ensures
        spot_in_modules(definitions, modules, position, at) is Some,
    decreases module - at,
{
    if at == module {
        lemma_own_spot(modules[at].definitions, position, 0, item);
    } else {
        lemma_spot_found(definitions, modules, position, at + 1, module, item);
    }
}

proof fn lemma_own_spot(own: Seq<Def>, position: Position, at: int, item: int)
    requires
        0 <= at <= item < own.len(),
        own[item].selection_range.covers(position),
        own[item].spot() is Some,
    ensures
        spot_of_definition(own, position, at) is Some,
    decreases item - at,
{
    if at < item {
        lemma_own_spot(own, position, at + 1, item);
    }
}

/// No two tokens of a file stand in the same place.
pub proof fn law_file_tokens_differ(definitions: Seq<Def>, parsed: ParsedText, module: ModuleModel)
    ensures
        places_differ(file_tokens(definitions, parsed, module)),
{
    let bytes = parsed.bytes();
    law_syntax_tokens_differ(parsed);
    lemma_definitions_differ(
        bytes,
        syntax_tokens(parsed),
        module.definitions,
        module.definitions.len(),
    );
    lemma_references_differ(
        bytes,
        with_definitions(
            bytes,
            syntax_tokens(parsed),
            module.definitions,
            module.definitions.len(),
        ),
        definitions,
        module,
        module.resolved.len(),
    );
}

proof fn lemma_definitions_differ(
    bytes: Seq<u8>,
    tokens: Seq<RankedToken>,
    own: Seq<Def>,
    count: nat,
)
    requires
        places_differ(tokens),
    ensures
        places_differ(with_definitions(bytes, tokens, own, count)),
    decreases count,
{
    if count > 0 {
        lemma_definitions_differ(bytes, tokens, own, (count - 1) as nat);
        if let Some(class) = definition_class(own[count - 1].kind) {
            lemma_range_differs(
                bytes,
                with_definitions(bytes, tokens, own, (count - 1) as nat),
                own[count - 1].selection_range,
                class,
            );
        }
    }
}

proof fn lemma_references_differ(
    bytes: Seq<u8>,
    tokens: Seq<RankedToken>,
    definitions: Seq<Def>,
    module: ModuleModel,
    count: nat,
)
    requires
        places_differ(tokens),
    ensures
        places_differ(with_references(bytes, tokens, definitions, module, count)),
    decreases count,
{
    if count > 0 {
        lemma_references_differ(bytes, tokens, definitions, module, (count - 1) as nat);
        let reference = module.resolved[count - 1];
        lemma_range_differs(
            bytes,
            with_references(bytes, tokens, definitions, module, (count - 1) as nat),
            reference.range,
            reference_class(reference.kind),
        );
    }
}

} // verus!
