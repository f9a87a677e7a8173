//! Stack effects in a project.
use vstd::prelude::*;
use vstd::utf8::encode_utf8;
use crate::model::{defs, resolutions, Def, ModuleModel, Resolution};
use crate::parsed::ParsedText;
use crate::position::line_starts;
use crate::snapshot::{file_views, FileEntry, FileModel, ProjectSnapshot};
use crate::stack_effect::{resolved_views, Callable, Resolved, StackCallableDefinition,
    StackDocumentAnalysis, StackResolvedReference};
use crate::stack_modules::{analyze_modules, analyzed, callable_views, files_of, sources,
    ModuleSource, StackModuleInput};

verus! {

/// The references of a module as the stack analysis reads them.
pub open spec fn stack_references(references: Seq<Resolution>) -> Seq<Resolved> {
    Seq::new(
        references.len(),
        |i: int|
            Resolved {
                range: references[i].range,
                kind: references[i].kind,
                definitions: references[i].definitions,
            },
    )
}

/// Whether one of the first `count` items is the entrypoint of a program.
pub open spec fn has_entrypoint(definitions: Seq<Def>, count: nat) -> bool
    decreases count,
{
    count > 0 && (definitions[count - 1].entrypoint || has_entrypoint(
        definitions,
        (count - 1) as nat,
    ))
}

/// A module of a file as the stack analysis reads it.
pub open spec fn stack_source(parsed: ParsedText, module: ModuleModel) -> ModuleSource {
    ModuleSource {
        file: module.file,
        path: module.path,
        text: parsed.text,
        executable: has_entrypoint(module.definitions, module.definitions.len()),
        references: stack_references(module.resolved),
    }
}

/// The modules that speak for the first `count` files.
pub open spec fn stack_sources(files: Seq<FileModel>, count: nat) -> Seq<ModuleSource>
    decreases count,
{
    if count == 0 {
        Seq::empty()
    } else {
        let before = stack_sources(files, (count - 1) as nat);
        let file = files[count - 1];
        if file.modules.len() > 0 {
            before.push(stack_source(file.parsed, file.modules[0]))
        } else {
            before
        }
    }
}

/// The items of a project that can be called, by their numbers.
pub open spec fn stack_callables(definitions: Seq<Def>) -> Seq<Callable> {
    Seq::new(
        definitions.len(),
        |i: int|
            Callable {
                index: i as usize,
                path: definitions[i].path,
                kind: definitions[i].kind,
                signature: definitions[i].stack_signature,
            },
    )
}

/// A module as the stack analysis reads it.
fn stack_input(file: &FileEntry) -> (input: StackModuleInput)
    requires
        file.parsed.well_formed(),
        file.modules@.len() > 0,
    ensures
        input@ == stack_source(file@.parsed, file@.modules[0]),
        input.line_offsets@ == line_starts(encode_utf8(input.text@)),
{
    let module = &file.modules[0];
    assert(file@.modules[0] == module@);
    let ghost used = resolutions(module.resolved_occurrences@);
    let mut references: Vec<StackResolvedReference> = Vec::new();
    let mut i: usize = 0;
    while i < module.resolved_occurrences.len()
        invariant
            i <= module.resolved_occurrences.len(),
            used == resolutions(module.resolved_occurrences@),
            resolved_views(references@) == stack_references(used).take(i as int),
        decreases module.resolved_occurrences.len() - i,
    {
        let occurrence = &module.resolved_occurrences[i];
        assert(used[i as int] == occurrence@);
        let mut definition_indexes: Vec<usize> = Vec::new();
        let mut j: usize = 0;
        while j < occurrence.definitions.len()
            invariant
                j <= occurrence.definitions.len(),
                definition_indexes@ == occurrence.definitions@.take(j as int),
            decreases occurrence.definitions.len() - j,
        {
            definition_indexes.push(occurrence.definitions[j]);
            j = j + 1;
            assert(definition_indexes@ =~= occurrence.definitions@.take(j as int));
        }
        assert(occurrence.definitions@.take(j as int) =~= occurrence.definitions@);
        let reference = StackResolvedReference {
            range: occurrence.range,
            kind: occurrence.kind,
            definition_indexes,
        };
        let ghost before = resolved_views(references@);
        references.push(reference);
        i = i + 1;
        assert(resolved_views(references@) =~= before.push(reference@));
        assert(resolved_views(references@) =~= stack_references(used).take(i as int));
    }
    assert(stack_references(used).take(i as int) =~= stack_references(used));
    let ghost own = defs(module.definitions@);
    let mut executable_root = false;
    let mut k: usize = 0;
    while k < module.definitions.len()
        invariant
            k <= module.definitions.len(),
            own == defs(module.definitions@),
            executable_root == has_entrypoint(own, k as nat),
        decreases module.definitions.len() - k,
    {
        assert(own[k as int] == module.definitions@[k as int]@);
        if module.definitions[k].entrypoint {
            executable_root = true;
        }
        k = k + 1;
    }
    StackModuleInput {
        file_path: module.file_path.clone(),
        path: module.path.clone(),
        text: file.parsed.text.clone(),
        line_offsets: crate::position::compute_line_offsets(&file.parsed.text),
        executable_root,
        resolved_references: references,
    }
}

impl ProjectSnapshot {
    /// What is reported and shown for the files of the project when the bodies of its procedures
    /// are followed.
    pub fn stack_effects(&self) -> (documents: Vec<(String, StackDocumentAnalysis)>)
        requires
            self.well_formed(),
        ensures
            ({
                let modules = stack_sources(self@.files, self@.files.len());
                let files = files_of(modules, modules.len());
                let known = analyzed(modules, stack_callables(self@.definitions));
                &&& documents@.len() == files.len()
                &&& forall|k: int|
                    0 <= k < files.len() ==> (#[trigger] documents@[k]).0@ == files[k]
                        && documents@[k].1.reports() == known.findings[k]
                        && documents@[k].1.shows() == known.overlays[k]
            }),
    {
        let ghost files = self@.files;
        let mut inputs: Vec<StackModuleInput> = Vec::new();
        let mut f: usize = 0;
        assert(sources(inputs@) =~= stack_sources(files, 0));
        while f < self.files.len()
            invariant
                f <= self.files.len(),
                self.well_formed(),
                files == file_views(self.files@),
                sources(inputs@) == stack_sources(files, f as nat),
                forall|i: int|
                    0 <= i < inputs@.len() ==> (#[trigger] inputs@[i]).line_offsets@ == line_starts(
                        encode_utf8(inputs@[i].text@),
                    ),
            decreases self.files.len() - f,
        {
            let file = &self.files[f];
            assert(files[f as int] == file@);
            assert(file@.modules.len() == file.modules@.len());
            if file.modules.len() > 0 {
                let input = stack_input(file);
                let ghost before = sources(inputs@);
                inputs.push(input);
                assert(sources(inputs@) =~= before.push(input@));
            }
            f = f + 1;
        }
        let ghost all = self@.definitions;
        let mut callables: Vec<StackCallableDefinition> = Vec::new();
        let mut i: usize = 0;
        while i < self.definitions.len()
            invariant
                i <= self.definitions.len(),
                all == defs(self.definitions@),
                callable_views(callables@) == stack_callables(all).take(i as int),
            decreases self.definitions.len() - i,
        {
            let definition = &self.definitions[i];
            assert(all[i as int] == definition@);
            let callable = StackCallableDefinition {
                index: i,
                path: definition.path.clone(),
                kind: definition.kind,
                signature: definition.stack_signature,
            };
            let ghost before = callable_views(callables@);
            callables.push(callable);
            i = i + 1;
            assert(callable_views(callables@) =~= before.push(callable@));
            assert(callable_views(callables@) =~= stack_callables(all).take(i as int));
        }
        assert(stack_callables(all).take(i as int) =~= stack_callables(all));
        assert(sources(inputs@).len() == inputs@.len());
        analyze_modules(inputs, callables)
    }
}

} // verus!
