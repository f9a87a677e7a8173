//! Stack effects of whole modules: from texts to what is reported and shown for each file.
use std::sync::Arc;
use miden_assembly_syntax::ast::{Block, ModuleKind, TypeExpr};
use miden_assembly_syntax::debuginfo::DefaultSourceManager;
use miden_assembly_syntax::{Parse, ParseOptions};
use vstd::prelude::*;
use vstd::utf8::encode_utf8;
use crate::assembly::{block_rows, read_block};
use crate::order::{arrange, byte_key, key_views, law_stable_order, sort_by_keys, stable_order};
use crate::parseable::{can_be_read, is_parseable};
use crate::position::line_starts;
use crate::signature::{declared, read_type, source_signature, type_rows, written_signature,
    Declared, LocalType};
use crate::stack_effect::{analyze_procedures, nothing_known, resolved_views, run_all, Callable, Known, Module,
    ModuleContext, Procedure, Program, Resolved, SourceProcedure, StackCallableDefinition,
    StackDocumentAnalysis, StackProgram, StackResolvedReference};
use crate::text::{join3, same_text};

verus! {

/// A type that a parsed module declares.
pub struct TypeParts {
    pub name: String,
    pub ty: TypeExpr,
}

/// A procedure of a parsed module: its name, the types of its arguments and results where they are
/// written down, and its body.
pub struct ProcedureParts {
    pub name: String,
    pub signature: Option<(Vec<TypeExpr>, Vec<TypeExpr>)>,
    pub body: Block,
}

/// What the analysis reads of a parsed module.
pub struct ModuleParts {
    pub types: Vec<TypeParts>,
    pub procedures: Vec<ProcedureParts>,
}

/// The model of a parsed procedure.
pub struct ParsedProcedure {
    pub name: Seq<char>,
    pub signature: Option<(Seq<TypeExpr>, Seq<TypeExpr>)>,
    pub body: Block,
}

/// The model of a parsed module.
pub struct ParsedModule {
    pub types: Seq<(Seq<char>, TypeExpr)>,
    pub procedures: Seq<ParsedProcedure>,
}

impl View for ProcedureParts {
    type V = ParsedProcedure;

    open spec fn view(&self) -> ParsedProcedure {
        ParsedProcedure {
            name: self.name@,
            signature: match self.signature {
                Some((args, results)) => Some((args@, results@)),
                None => None,
            },
            body: self.body,
        }
    }
}

impl View for ModuleParts {
    type V = ParsedModule;

    open spec fn view(&self) -> ParsedModule {
        ParsedModule {
            types: Seq::new(self.types@.len(), |i: int| (self.types@[i].name@, self.types@[i].ty)),
            procedures: Seq::new(self.procedures@.len(), |i: int| self.procedures@[i]@),
        }
    }
}

/// The module that the assembler's parser reads from a text, under a module path and as an
/// executable or a library module. `None` where it reports an error.
pub uninterp spec fn parsed_module(text: Seq<char>, path: Seq<char>, executable: bool) -> Option<
    ParsedModule,
>;

/// Whether the assembler's parser takes a text and a module path at all: it counts bytes with 32
/// bits, a module has a name, and it comes to an end on the text.
pub open spec fn can_be_parsed(text: Seq<char>, path: Seq<char>) -> bool {
    encode_utf8(text).len() < u32::MAX && path.len() > 0 && is_parseable(text)
}

/// `Parse::parse_with_options` on the text, with `Module::types` and `Module::procedures` of what
/// it gives. The result depends on the text, the path and the kind of module alone. The outside
/// function follows circles of imports without end, and panics on some of the other texts that are
/// left out.
#[verifier::external_body]
fn parse_module(text: &str, path: &str, executable: bool) -> (parts: Option<ModuleParts>)
    requires
        can_be_parsed(text@, path@),
    ensures
        match parts {
            Some(parts) => parsed_module(text@, path@, executable) == Some(parts@),
            None => parsed_module(text@, path@, executable) is None,
        },
{
    let kind = if executable { ModuleKind::Executable } else { ModuleKind::Library };
    let sources = Arc::new(DefaultSourceManager::default());
    let module = text.to_string().parse_with_options(sources, ParseOptions::new(kind, path)).ok()?;
    let types = module.types().map(|decl| TypeParts { name: decl.name().to_string(), ty: decl.ty() });
    let procedures = module.procedures().map(|procedure| ProcedureParts {
        name: procedure.name().to_string(),
        signature: procedure.signature().map(|types| (types.args.clone(), types.results.clone())),
        body: procedure.body().clone(),
    });
    Some(ModuleParts { types: types.collect(), procedures: procedures.collect() })
}

/// A module to be analyzed.
pub struct StackModuleInput {
    pub file_path: String,
    pub path: String,
    pub text: String,
    pub line_offsets: Vec<usize>,
    pub executable_root: bool,
    pub resolved_references: Vec<StackResolvedReference>,
}

/// The model of a module to be analyzed.
pub struct ModuleSource {
    pub file: Seq<char>,
    pub path: Seq<char>,
    pub text: Seq<char>,
    pub executable: bool,
    pub references: Seq<Resolved>,
}

impl View for StackModuleInput {
    type V = ModuleSource;

    open spec fn view(&self) -> ModuleSource {
        ModuleSource {
            file: self.file_path@,
            path: self.path@,
            text: self.text@,
            executable: self.executable_root,
            references: resolved_views(self.resolved_references@),
        }
    }
}

/// The models of a list of modules.
pub open spec fn sources(inputs: Seq<StackModuleInput>) -> Seq<ModuleSource> {
    Seq::new(inputs.len(), |i: int| inputs[i]@)
}

/// The types that a parsed module declares.
pub open spec fn local_types(module: ParsedModule) -> Seq<Declared> {
    Seq::new(
        module.types.len(),
        |i: int| Declared { name: module.types[i].0, rows: type_rows(module.types[i].1) },
    )
}

/// The first `count` procedures of a parsed module, as members of the module with the given number.
pub open spec fn module_procedures(
    parsed: ParsedModule,
    path: Seq<char>,
    module: int,
    count: nat,
) -> Seq<Procedure> {
    Seq::new(
        count,
        |i: int|
            Procedure {
                path: path + "::"@ + parsed.procedures[i].name,
                signature: match parsed.procedures[i].signature {
                    Some((args, results)) => written_signature(args, results, local_types(parsed)),
                    None => None,
                },
                rows: block_rows(parsed.procedures[i].body),
                module,
            },
    )
}

/// The place of `path` in a list of procedures.
pub open spec fn position_of(procedures: Seq<Procedure>, path: Seq<char>, at: int) -> Option<int>
    decreases procedures.len() - at,
{
    if at >= procedures.len() {
        None
    } else if procedures[at].path == path {
        Some(at)
    } else {
        position_of(procedures, path, at + 1)
    }
}

/// Puts a procedure in the place of the one with the same path, or at the end.
pub open spec fn with_procedure(procedures: Seq<Procedure>, procedure: Procedure) -> Seq<Procedure> {
    match position_of(procedures, procedure.path, 0) {
        Some(at) => procedures.update(at, procedure),
        None => procedures.push(procedure),
    }
}

/// Puts several procedures into a list, one after another.
pub open spec fn with_procedures(procedures: Seq<Procedure>, more: Seq<Procedure>) -> Seq<Procedure>
    decreases more.len(),
{
    if more.len() == 0 {
        procedures
    } else {
        with_procedure(with_procedures(procedures, more.drop_last()), more.last())
    }
}

/// What the assembler's parser reads from a module, where it takes it.
pub open spec fn readable_module(input: ModuleSource) -> Option<ParsedModule> {
    if can_be_parsed(input.text, input.path) {
        parsed_module(input.text, input.path, input.executable)
    } else {
        None
    }
}

/// Reads a module.
fn read_module(input: &StackModuleInput) -> (parts: Option<ModuleParts>)
    ensures
        match parts {
            Some(parts) => readable_module(input@) == Some(parts@),
            None => readable_module(input@) is None,
        },
{
    let size = input.text.as_str().as_bytes().len();
    if size < 0xffff_ffff && input.path.as_str().unicode_len() > 0 && can_be_read(&input.text) {
        parse_module(&input.text, &input.path, input.executable_root)
    } else {
        None
    }
}

/// The procedures of the first `count` modules; of two with the same path the later one counts.
pub open spec fn all_procedures(inputs: Seq<ModuleSource>, count: nat) -> Seq<Procedure>
    decreases count,
{
    if count == 0 {
        Seq::empty()
    } else {
        let input = inputs[count - 1];
        let before = all_procedures(inputs, (count - 1) as nat);
        match readable_module(input) {
            Some(parsed) => with_procedures(
                before,
                module_procedures(parsed, input.path, count - 1, parsed.procedures.len()),
            ),
            None => before,
        }
    }
}

/// The sorting keys of procedures: their paths.
pub open spec fn procedure_keys(procedures: Seq<Procedure>) -> Seq<Seq<u64>> {
    Seq::new(procedures.len(), |i: int| byte_key(encode_utf8(procedures[i].path)))
}

/// The number of a file in a list.
pub open spec fn file_number(files: Seq<Seq<char>>, file: Seq<char>, at: int) -> Option<int>
    decreases files.len() - at,
{
    if at >= files.len() {
        None
    } else if files[at] == file {
        Some(at)
    } else {
        file_number(files, file, at + 1)
    }
}

/// The files of the first `count` modules, each once, in the order in which they come first.
pub open spec fn files_of(inputs: Seq<ModuleSource>, count: nat) -> Seq<Seq<char>>
    decreases count,
{
    if count == 0 {
        Seq::empty()
    } else {
        let before = files_of(inputs, (count - 1) as nat);
        match file_number(before, inputs[count - 1].file, 0) {
            Some(_) => before,
            None => before.push(inputs[count - 1].file),
        }
    }
}

/// The modules of a program: each knows the number of its file.
pub open spec fn modules_of(inputs: Seq<ModuleSource>) -> Seq<Module> {
    Seq::new(
        inputs.len(),
        |i: int|
            Module {
                file: match file_number(files_of(inputs, (i + 1) as nat), inputs[i].file, 0) {
                    Some(number) => number,
                    None => 0,
                },
                path: inputs[i].path,
                bytes: encode_utf8(inputs[i].text),
                references: inputs[i].references,
            },
    )
}

/// The program that a list of modules and a list of callable items make up; its procedures are
/// sorted by their paths.
pub open spec fn program_of(inputs: Seq<ModuleSource>, callables: Seq<Callable>) -> Program {
    let procedures = all_procedures(inputs, inputs.len());
    Program {
        callables,
        procedures: arrange(procedures, stable_order(procedure_keys(procedures))),
        modules: modules_of(inputs),
    }
}

/// What the analysis finds out: every body is followed, in the order of the procedures' paths.
pub open spec fn analyzed(inputs: Seq<ModuleSource>, callables: Seq<Callable>) -> Known {
    let program = program_of(inputs, callables);
    run_all(
        program,
        nothing_known(program.procedures.len(), files_of(inputs, inputs.len()).len()),
        program.procedures.len(),
    )
}

/// The models of a list of callable items.
pub open spec fn callable_views(callables: Seq<StackCallableDefinition>) -> Seq<Callable> {
    Seq::new(callables.len(), |i: int| callables[i]@)
}

/// The models of a list of procedures.
pub open spec fn procedure_views(procedures: Seq<SourceProcedure>) -> Seq<Procedure> {
    Seq::new(procedures.len(), |i: int| procedures[i]@)
}

/// The models of a list of names.
pub open spec fn name_views(names: Seq<String>) -> Seq<Seq<char>> {
    Seq::new(names.len(), |i: int| names[i]@)
}

/// The number of a file in a list; a file that is not in it is put at its end.
fn enter_file(files: &mut Vec<String>, file: String) -> (number: usize)
    ensures
        match file_number(name_views(old(files)@), file@, 0) {
            Some(at) => number == at && final(files)@ == old(files)@ && at < old(files)@.len(),
            None => number == old(files)@.len() && name_views(final(files)@) == name_views(
                old(files)@,
            ).push(file@),
        },
        file_number(name_views(final(files)@), file@, 0) == Some(number as int),
        number < final(files)@.len(),
{
    let ghost before = name_views(files@);
    let mut i: usize = 0;
    while i < files.len()
        invariant
            i <= files.len(),
            files@ == old(files)@,
            before == name_views(files@),
            file_number(before, file@, 0) == file_number(before, file@, i as int),
            forall|k: int| 0 <= k < i ==> before[k] != file@,
        decreases files.len() - i,
    {
        assert(before[i as int] == files@[i as int]@);
        if same_text(&files[i], &file) {
            return i;
        }
        i = i + 1;
    }
    files.push(file);
    proof {
        let after = name_views(files@);
        assert(after =~= before.push(file@));
        lemma_file_number(after, file@, i as int);
    }
    i
}

/// A name that comes first at `at` has that number.
proof fn lemma_file_number(files: Seq<Seq<char>>, file: Seq<char>, at: int)
    requires
        0 <= at < files.len(),
        files[at] == file,
        forall|k: int| 0 <= k < at ==> files[k] != file,
    ensures
        file_number(files, file, 0) == Some(at),
{
    lemma_file_number_from(files, file, 0, at);
}

proof fn lemma_file_number_from(files: Seq<Seq<char>>, file: Seq<char>, from: int, at: int)
    requires
        0 <= from <= at < files.len(),
        files[at] == file,
        forall|k: int| from <= k < at ==> files[k] != file,
    ensures
        file_number(files, file, from) == Some(at),
    decreases at - from,
{
    if from < at {
        lemma_file_number_from(files, file, from + 1, at);
    }
}

/// Puts a procedure in the place of the one with the same path, or at the end.
fn enter_procedure(procedures: &mut Vec<SourceProcedure>, procedure: SourceProcedure)
    ensures
        procedure_views(final(procedures)@) == with_procedure(
            procedure_views(old(procedures)@),
            procedure@,
        ),
        forall|modules: int| #[trigger]
            modules_below(old(procedures)@, modules) && procedure.module < modules
                ==> modules_below(final(procedures)@, modules),
{
    let ghost before = procedure_views(procedures@);
    let mut i: usize = 0;
    while i < procedures.len()
        invariant
            i <= procedures.len(),
            procedures@ == old(procedures)@,
            before == procedure_views(procedures@),
            position_of(before, procedure@.path, 0) == position_of(
                before,
                procedure@.path,
                i as int,
            ),
        decreases procedures.len() - i,
    {
        assert(before[i as int] == procedures@[i as int]@);
        if same_text(&procedures[i].path, &procedure.path) {
            procedures.set(i, procedure);
            assert(procedure_views(procedures@) =~= before.update(i as int, procedure@));
            return;
        }
        i = i + 1;
    }
    procedures.push(procedure);
    assert(procedure_views(procedures@) =~= before.push(procedure@));
}

/// Whether all procedures belong to modules with numbers below `modules`.
pub open spec fn modules_below(procedures: Seq<SourceProcedure>, modules: int) -> bool {
    forall|p: int| 0 <= p < procedures.len() ==> (#[trigger] procedures[p]).module < modules
}

/// Puts the procedures of a parsed module into a list.
fn enter_module(procedures: &mut Vec<SourceProcedure>, parts: &ModuleParts, path: &str, module: usize)
    ensures
        procedure_views(final(procedures)@) == with_procedures(
            procedure_views(old(procedures)@),
            module_procedures(parts@, path@, module as int, parts@.procedures.len()),
        ),
        forall|modules: int| #[trigger]
            modules_below(old(procedures)@, modules) && module < modules ==> modules_below(
                final(procedures)@,
                modules,
            ),
{
    let mut locals: Vec<LocalType> = Vec::new();
    let mut j: usize = 0;
    while j < parts.types.len()
        invariant
            j <= parts.types.len(),
            locals@.len() == j,
            forall|k: int| 0 <= k < j ==> (#[trigger] locals@[k])@ == local_types(parts@)[k],
        decreases parts.types.len() - j,
    {
        let local = LocalType {
            name: parts.types[j].name.clone(),
            rows: read_type(&parts.types[j].ty),
        };
        locals.push(local);
        j = j + 1;
    }
    assert(declared(locals@) =~= local_types(parts@));
    let ghost before = procedure_views(procedures@);
    let ghost all = module_procedures(parts@, path@, module as int, parts@.procedures.len());
    let mut i: usize = 0;
    assert(all.take(0) =~= Seq::<Procedure>::empty());
    while i < parts.procedures.len()
        invariant
            i <= parts.procedures.len(),
            declared(locals@) == local_types(parts@),
            all == module_procedures(parts@, path@, module as int, parts@.procedures.len()),
            procedure_views(procedures@) == with_procedures(before, all.take(i as int)),
            forall|modules: int| #[trigger]
                modules_below(old(procedures)@, modules) && module < modules ==> modules_below(
                    procedures@,
                    modules,
                ),
        decreases parts.procedures.len() - i,
    {
        let parsed = &parts.procedures[i];
        let explicit_signature = match &parsed.signature {
            Some((args, results)) => source_signature(args, results, &locals),
            None => None,
        };
        let procedure = SourceProcedure {
            path: join3(path, "::", &parsed.name),
            explicit_signature,
            rows: read_block(&parsed.body),
            module,
        };
        proof {
            assert(parts@.procedures[i as int] == parsed@);
            assert(procedure@ == all[i as int]);
            assert(all.take(i + 1).drop_last() =~= all.take(i as int));
        }
        enter_procedure(procedures, procedure);
        i = i + 1;
    }
    assert(all.take(i as int) =~= all);
}

/// Sorts procedures by their paths.
fn sort_procedures(procedures: Vec<SourceProcedure>) -> (sorted: Vec<SourceProcedure>)
    ensures
        procedure_views(sorted@) == arrange(
            procedure_views(procedures@),
            stable_order(procedure_keys(procedure_views(procedures@))),
        ),
        forall|modules: int| #[trigger]
            modules_below(procedures@, modules) ==> modules_below(sorted@, modules),
{
    let ghost list = procedure_views(procedures@);
    let mut keys: Vec<Vec<u64>> = Vec::new();
    let mut i: usize = 0;
    while i < procedures.len()
        invariant
            i <= procedures.len(),
            keys.len() == i,
            list == procedure_views(procedures@),
            forall|k: int| 0 <= k < i ==> (#[trigger] keys@[k])@ == procedure_keys(list)[k],
        decreases procedures.len() - i,
    {
        let key = crate::order::key_of(&procedures[i].path);
        assert(list[i as int] == procedures@[i as int]@);
        keys.push(key);
        i = i + 1;
    }
    assert(key_views(keys@) =~= procedure_keys(list));
    let sorted = sort_by_keys(procedures, &keys);
    proof {
        law_stable_order(procedure_keys(list));
        assert(procedure_views(sorted@) =~= arrange(list, stable_order(procedure_keys(list))));
        assert forall|modules: int| #[trigger] modules_below(procedures@, modules) implies modules_below(
            sorted@,
            modules,
        ) by {
            assert forall|p: int| 0 <= p < sorted@.len() implies (#[trigger] sorted@[p]).module
                < modules by {
                let from = stable_order(procedure_keys(list))[p];
                assert(sorted@[p] == procedures@[from]);
            }
        }
    }
    sorted
}

/// Follows every procedure body of the given modules and tells, for each of their files, what is
/// reported and shown. Callable items are listed by ascending index.
#[verifier::rlimit(50)]
pub fn analyze_modules(
    inputs: Vec<StackModuleInput>,
    callables_by_index: Vec<StackCallableDefinition>,
) -> (documents: Vec<(String, StackDocumentAnalysis)>)
    requires
        forall|i: int|
            0 <= i < inputs@.len() ==> (#[trigger] inputs@[i]).line_offsets@ == line_starts(
                encode_utf8(inputs@[i].text@),
            ),
    ensures
        ({
            let files = files_of(sources(inputs@), inputs@.len());
            let known = analyzed(sources(inputs@), callable_views(callables_by_index@));
            &&& documents@.len() == files.len()
            &&& forall|k: int|
                0 <= k < files.len() ==> (#[trigger] documents@[k]).0@ == files[k]
                    && documents@[k].1.reports() == known.findings[k]
                    && documents@[k].1.shows() == known.overlays[k]
        }),
{
    let ghost all = sources(inputs@);
    let ghost given = inputs@;
    let total = inputs.len();
    let mut inputs = inputs;
    let mut files: Vec<String> = Vec::new();
    let mut modules: Vec<ModuleContext> = Vec::new();
    let mut procedures: Vec<SourceProcedure> = Vec::new();
    let mut i: usize = 0;
    assert(name_views(files@) =~= files_of(all, 0));
    assert(procedure_views(procedures@) =~= all_procedures(all, 0));
    while inputs.len() > 0
        invariant
            all == sources(given),
            i + inputs@.len() == given.len(),
            given.len() == total,
            inputs@ == given.skip(i as int),
            forall|k: int|
                0 <= k < given.len() ==> (#[trigger] given[k]).line_offsets@ == line_starts(
                    encode_utf8(given[k].text@),
                ),
            name_views(files@) == files_of(all, i as nat),
            modules@.len() == i,
            forall|k: int|
                0 <= k < i ==> (#[trigger] modules@[k])@ == modules_of(all)[k]
                    && modules@[k].file < files@.len() && modules@[k].line_offsets@
                    == line_starts(encode_utf8(modules@[k].text@)),
            procedure_views(procedures@) == all_procedures(all, i as nat),
            modules_below(procedures@, i as int),
        decreases inputs.len(),
    {
        let input = inputs.remove(0);
        proof {
            assert(input == given[i as int]);
            assert(inputs@ =~= given.skip(i + 1));
            assert(all[i as int] == input@);
        }
        let ghost before = name_views(files@);
        let ghost old_files = files@.len();
        let parts = read_module(&input);
        let file = enter_file(&mut files, input.file_path);
        assert(name_views(files@) =~= files_of(all, (i + 1) as nat));
        assert(name_views(files@).len() == files@.len());
        assert(before.len() == old_files);
        assert(modules_below(procedures@, i + 1));
        match parts {
            Some(parts) => enter_module(&mut procedures, &parts, &input.path, i),
            None => {},
        }
        let context = ModuleContext {
            file,
            path: input.path,
            text: input.text,
            line_offsets: input.line_offsets,
            references: input.resolved_references,
        };
        assert(context@ == modules_of(all)[i as int]);
        modules.push(context);
        i = i + 1;
    }
    assert(modules@.len() == given.len());
    let procedures = sort_procedures(procedures);
    let program = StackProgram { callables: callables_by_index, procedures, modules };
    proof {
        let expected = program_of(all, callable_views(callables_by_index@));
        assert(program@.callables =~= expected.callables);
        assert(program@.procedures =~= expected.procedures);
        assert(program@.modules =~= expected.modules);
        assert(program.well_formed(files@.len() as int));
    }
    let analyses = analyze_procedures(&program, files.len());
    let mut analyses = analyses;
    let mut documents: Vec<(String, StackDocumentAnalysis)> = Vec::new();
    let ghost known = analyzed(all, callable_views(callables_by_index@));
    let ghost shown = analyses@;
    let ghost names = name_views(files@);
    let mut files = files;
    let mut done: usize = 0;
    let count = files.len();
    let ghost listed = files@;
    while done < count
        invariant
            done <= count,
            count == listed.len(),
            count == shown.len(),
            names == name_views(listed),
            files@ == listed.skip(done as int),
            analyses@ == shown.skip(done as int),
            documents@.len() == done,
            forall|k: int|
                0 <= k < done ==> (#[trigger] documents@[k]).0@ == names[k] && documents@[k].1
                    == shown[k],
        decreases count - done,
    {
        let file = files.remove(0);
        let analysis = analyses.remove(0);
        assert(files@ =~= listed.skip(done + 1));
        assert(analyses@ =~= shown.skip(done + 1));
        documents.push((file, analysis));
        done = done + 1;
    }
    documents
}

} // verus!
