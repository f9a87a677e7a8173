//! Stack effects of procedure bodies: bodies are followed instruction by instruction, through
//! branches, loops and calls.
use miden_assembly_syntax::ast::{Instruction, InvocationTarget};
use vstd::prelude::*;
use vstd::utf8::encode_utf8;
use crate::assembly::{immediate_u32, instruction_display, instruction_text, operand_u32,
    read_target, target_parts, OpCode, OpRow, TargetLabel, TargetName};
use crate::document::{findings, Diagnostic, Finding};
use crate::position::{byte_range_to_lsp_range, contains_position, line_starts, range_at,
    ranges_intersect, Position, Range};
use crate::stack_state::{copy_values, unknown_values, unknowns, vals, StackState, State, Val,
    Value};
use crate::stack_step::{address_at, address_of, analyze_plain_instruction, instruction_step,
    known_address, step_lost, step_on, step_shown, step_warned, Overlay, OverlayInfo, Step,
    StepResult};
use crate::text::{decimal, join, join3, push_decimal, same_text};

verus! {

/// What a name stands for.
#[derive(Debug, Clone, Copy, PartialEq, Eq, Structural)]
pub enum ItemKind {
    Module,
    Procedure,
    Constant,
    Type,
}

/// What a reference is for.
#[derive(Debug, Clone, Copy, PartialEq, Eq, Structural)]
pub enum ReferenceKind {
    Invoke,
    ImportAlias,
    ImportTarget,
    Constant,
    Type,
}

/// How many elements a procedure takes and gives.
#[derive(Debug, Clone, Copy, PartialEq, Eq, Structural)]
pub struct StackSignature {
    pub args: usize,
    pub results: usize,
}

/// An item that can be called, under its index.
pub struct StackCallableDefinition {
    pub index: usize,
    pub path: String,
    pub kind: ItemKind,
    pub signature: Option<StackSignature>,
}

/// The model of a callable item.
pub struct Callable {
    pub index: usize,
    pub path: Seq<char>,
    pub kind: ItemKind,
    pub signature: Option<StackSignature>,
}

impl View for StackCallableDefinition {
    type V = Callable;

    open spec fn view(&self) -> Callable {
        Callable {
            index: self.index,
            path: self.path@,
            kind: self.kind,
            signature: self.signature,
        }
    }
}

/// A reference and the items that it was resolved to.
pub struct StackResolvedReference {
    pub range: Range,
    pub kind: ReferenceKind,
    pub definition_indexes: Vec<usize>,
}

/// The model of a resolved reference.
pub struct Resolved {
    pub range: Range,
    pub kind: ReferenceKind,
    pub definitions: Seq<usize>,
}

impl View for StackResolvedReference {
    type V = Resolved;

    open spec fn view(&self) -> Resolved {
        Resolved {
            range: self.range,
            kind: self.kind,
            definitions: self.definition_indexes@,
        }
    }
}

/// A module as the analysis sees it.
pub struct ModuleContext {
    pub file: usize,
    pub path: String,
    pub text: String,
    pub line_offsets: Vec<usize>,
    pub references: Vec<StackResolvedReference>,
}

/// The model of a module.
pub struct Module {
    pub file: int,
    pub path: Seq<char>,
    pub bytes: Seq<u8>,
    pub references: Seq<Resolved>,
}

/// The models of a list of references.
pub open spec fn resolved_views(references: Seq<StackResolvedReference>) -> Seq<Resolved> {
    Seq::new(references.len(), |i: int| references[i]@)
}

impl View for ModuleContext {
    type V = Module;

    open spec fn view(&self) -> Module {
        Module {
            file: self.file as int,
            path: self.path@,
            bytes: encode_utf8(self.text@),
            references: resolved_views(self.references@),
        }
    }
}

/// A procedure whose body can be followed.
pub struct SourceProcedure {
    pub path: String,
    pub explicit_signature: Option<StackSignature>,
    pub rows: Vec<OpRow>,
    pub module: usize,
}

/// The model of a procedure.
pub struct Procedure {
    pub path: Seq<char>,
    pub signature: Option<StackSignature>,
    pub rows: Seq<OpRow>,
    pub module: int,
}

impl View for SourceProcedure {
    type V = Procedure;

    open spec fn view(&self) -> Procedure {
        Procedure {
            path: self.path@,
            signature: self.explicit_signature,
            rows: self.rows@,
            module: self.module as int,
        }
    }
}

/// All that the analysis starts from.
pub struct StackProgram {
    pub callables: Vec<StackCallableDefinition>,
    pub procedures: Vec<SourceProcedure>,
    pub modules: Vec<ModuleContext>,
}

/// The model of a program.
pub struct Program {
    pub callables: Seq<Callable>,
    pub procedures: Seq<Procedure>,
    pub modules: Seq<Module>,
}

impl View for StackProgram {
    type V = Program;

    open spec fn view(&self) -> Program {
        Program {
            callables: Seq::new(self.callables@.len(), |i: int| self.callables@[i]@),
            procedures: Seq::new(self.procedures@.len(), |i: int| self.procedures@[i]@),
            modules: Seq::new(self.modules@.len(), |i: int| self.modules@[i]@),
        }
    }
}

impl StackProgram {
    /// Procedures belong to modules, modules to one of `files` files, and line tables to their
    /// texts.
    pub open spec fn well_formed(self, files: int) -> bool {
        &&& forall|p: int|
            0 <= p < self.procedures@.len() ==> (#[trigger] self.procedures@[p]).module
                < self.modules@.len()
        &&& forall|m: int|
            0 <= m < self.modules@.len() ==> (#[trigger] self.modules@[m]).file < files
                && self.modules@[m].line_offsets@ == line_starts(
                encode_utf8(self.modules@[m].text@),
            )
    }
}

/// What a call does.
pub enum CallEffect {
    /// It takes and gives as many elements as a signature says.
    Counts(StackSignature),
    /// It takes `required_inputs` elements and gives `results`, in terms of what it took.
    Concrete { required_inputs: usize, results: Vec<Value> },
    /// It is not known what it does.
    Indeterminate,
}

/// The model of a call's effect.
pub enum Effect {
    Counts(StackSignature),
    Concrete { required: usize, results: Seq<Val> },
    Indeterminate,
}

impl View for CallEffect {
    type V = Effect;

    open spec fn view(&self) -> Effect {
        match *self {
            CallEffect::Counts(signature) => Effect::Counts(signature),
            CallEffect::Concrete { required_inputs, results } => Effect::Concrete {
                required: required_inputs,
                results: vals(results@),
            },
            CallEffect::Indeterminate => Effect::Indeterminate,
        }
    }
}

impl CallEffect {
    fn copy(&self) -> (copy: CallEffect)
        ensures
            copy@ == self@,
    {
        match self {
            CallEffect::Counts(signature) => CallEffect::Counts(*signature),
            CallEffect::Concrete { required_inputs, results } => CallEffect::Concrete {
                required_inputs: *required_inputs,
                results: copy_values(results),
            },
            CallEffect::Indeterminate => CallEffect::Indeterminate,
        }
    }
}

/// What is shown at a range of a file.
pub struct StackOverlay {
    pub range: Range,
    pub info: OverlayInfo,
}

/// The model of what is shown at a range.
pub struct PlacedOverlay {
    pub range: Range,
    pub overlay: Overlay,
}

impl View for StackOverlay {
    type V = PlacedOverlay;

    open spec fn view(&self) -> PlacedOverlay {
        PlacedOverlay { range: self.range, overlay: self.info@ }
    }
}

/// The models of a list of overlays.
pub open spec fn placed(overlays: Seq<StackOverlay>) -> Seq<PlacedOverlay> {
    Seq::new(overlays.len(), |i: int| overlays[i]@)
}

/// What has been found out: the effects of the bodies that were followed to the end, and for each
/// file what is reported and shown.
pub struct Known {
    pub effects: Seq<Option<Effect>>,
    pub findings: Seq<Seq<Finding>>,
    pub overlays: Seq<Seq<PlacedOverlay>>,
}

impl Known {
    /// Adds a warning for a file.
    pub open spec fn reported(self, file: int, warning: Option<Finding>) -> Known {
        match warning {
            Some(finding) => Known {
                findings: self.findings.update(file, self.findings[file].push(finding)),
                ..self
            },
            None => self,
        }
    }

    /// Adds what is shown at a range of a file.
    pub open spec fn shown(self, file: int, range: Range, overlay: Overlay) -> Known {
        Known {
            overlays: self.overlays.update(
                file,
                self.overlays[file].push(PlacedOverlay { range, overlay }),
            ),
            ..self
        }
    }

    /// Notes the effect of a body.
    pub open spec fn learned(self, procedure: int, effect: Effect) -> Known {
        Known { effects: self.effects.update(procedure, Some(effect)), ..self }
    }
}

/// The first of the rows from `at` up to `hi` that is no deeper than `depth`.
pub open spec fn row_past(rows: Seq<OpRow>, depth: usize, at: int, hi: int) -> int
    decreases hi - at,
{
    if at >= hi || rows[at].depth <= depth {
        at
    } else {
        row_past(rows, depth, at + 1, hi)
    }
}

/// The row behind the element at `at`, among the rows below `hi`.
pub open spec fn element_end(rows: Seq<OpRow>, at: int, hi: int) -> int {
    let past = row_past(rows, rows[at].depth, at + 1, hi);
    if at < past <= hi {
        past
    } else {
        hi
    }
}

/// Where the first block of the element from `at` to `end` starts and ends.
pub open spec fn first_block(rows: Seq<OpRow>, at: int, end: int) -> (int, int) {
    if at + 1 < end {
        (at + 2, element_end(rows, at + 1, end))
    } else {
        (end, end)
    }
}

/// Where the second block of the element from `at` to `end` starts and ends.
pub open spec fn second_block(rows: Seq<OpRow>, at: int, end: int) -> (int, int) {
    let block = first_block(rows, at, end).1;
    if block < end {
        (block + 1, element_end(rows, block, end))
    } else {
        (end, end)
    }
}

/// The range of an element in the text of a module.
pub open spec fn element_range(module: Module, start: int, end: int) -> Range {
    range_at(module.bytes, start, end)
}

/// The module that a procedure belongs to.
pub open spec fn module_of(program: Program, procedure: int) -> Module {
    program.modules[program.procedures[procedure].module]
}

/// The last of the first `count` references that stands at `range`.
pub open spec fn reference_at(references: Seq<Resolved>, range: Range, count: nat) -> Option<
    Resolved,
>
    decreases count,
{
    if count == 0 {
        None
    } else if references[count - 1].range == range {
        Some(references[count - 1])
    } else {
        reference_at(references, range, (count - 1) as nat)
    }
}

/// The last of the first `count` callable items with the given index.
pub open spec fn callable_at(callables: Seq<Callable>, index: usize, count: nat) -> Option<Callable>
    decreases count,
{
    if count == 0 {
        None
    } else if callables[count - 1].index == index {
        Some(callables[count - 1])
    } else {
        callable_at(callables, index, (count - 1) as nat)
    }
}

/// The last of the first `count` callable items with the given path.
pub open spec fn callable_named(callables: Seq<Callable>, path: Seq<char>, count: nat) -> Option<
    Callable,
>
    decreases count,
{
    if count == 0 {
        None
    } else if callables[count - 1].path == path {
        Some(callables[count - 1])
    } else {
        callable_named(callables, path, (count - 1) as nat)
    }
}

/// The last of the first `count` procedures with the given path.
pub open spec fn procedure_named(procedures: Seq<Procedure>, path: Seq<char>, count: nat) -> Option<
    int,
>
    decreases count,
{
    if count == 0 {
        None
    } else if procedures[count - 1].path == path {
        Some(count - 1)
    } else {
        procedure_named(procedures, path, (count - 1) as nat)
    }
}

/// The path of the one procedure that the reference at a range was resolved to.
pub open spec fn reference_path(program: Program, module: Module, range: Range) -> Option<
    Seq<char>,
> {
    match reference_at(module.references, range, module.references.len()) {
        Some(reference) => if reference.kind is Invoke && reference.definitions.len() == 1 {
            match callable_at(
                program.callables,
                reference.definitions[0],
                program.callables.len(),
            ) {
                Some(callable) => if callable.kind is Procedure {
                    Some(callable.path)
                } else {
                    None
                },
                None => None,
            }
        } else {
            None
        },
        None => None,
    }
}

/// The path of the procedure that a call's target names: what the reference there was resolved to,
/// else what is written there.
pub open spec fn target_path(program: Program, procedure: int, target: InvocationTarget) -> Option<
    Seq<char>,
> {
    let module = module_of(program, procedure);
    let parts = target_parts(target);
    match reference_path(program, module, element_range(module, parts.start, parts.end)) {
        Some(path) => Some(path),
        None => match parts.name {
            TargetLabel::Root => None,
            TargetLabel::Symbol(name) => Some(module.path + "::"@ + name),
            TargetLabel::Path(path) => Some(path),
        },
    }
}

/// A value in terms of what a call took, told in terms of the caller.
pub open spec fn substituted(value: Val, inputs: Seq<Val>) -> Val {
    match value {
        Val::Input(index) => if index < inputs.len() {
            inputs[index as int]
        } else {
            Val::Unknown
        },
        _ => value,
    }
}

/// The state behind a call with a known effect.
pub open spec fn called(state: StackState, effect: Effect) -> StackState {
    match effect {
        Effect::Counts(signature) => state.set_top(
            signature.args as nat,
            unknowns(signature.results as nat),
        ),
        Effect::Concrete { required, results } => {
            let inputs = state.top_many(required as nat);
            state.set_top(
                required as nat,
                Seq::new(results.len(), |i: int| substituted(results[i], inputs)),
            )
        },
        Effect::Indeterminate => state,
    }
}

/// How many elements a call takes.
pub open spec fn taken(effect: Effect) -> nat {
    match effect {
        Effect::Counts(signature) => signature.args as nat,
        Effect::Concrete { required, .. } => required as nat,
        Effect::Indeterminate => 0,
    }
}

/// How many elements a call gives.
pub open spec fn given(effect: Effect) -> nat {
    match effect {
        Effect::Counts(signature) => signature.results as nat,
        Effect::Concrete { results, .. } => results.len(),
        Effect::Indeterminate => 0,
    }
}

/// The step for a call of a known procedure.
pub open spec fn call_step(
    path: Seq<char>,
    range: Range,
    effect: Effect,
    state: StackState,
) -> Step {
    match effect {
        Effect::Counts(_) => step_on(
            called(state, effect),
            taken(effect),
            given(effect),
            "resolved call `"@ + path + "`"@,
        ),
        Effect::Concrete { .. } => step_shown(
            called(state, effect),
            taken(effect),
            given(effect),
            "resolved call `"@ + path + "` from source body"@,
        ),
        Effect::Indeterminate => step_warned(
            range,
            "callee stack effects are indeterminate; stack effects are undetermined after this call"@,
        ),
    }
}

/// The number behind `n`, where there is one.
pub open spec fn one_more(n: nat) -> nat {
    if n < usize::MAX {
        n + 1
    } else {
        n
    }
}

/// The step for a call through an address, when `state` is what is left without the address.
pub open spec fn dynamic_step(code: Instruction, effect: Effect, state: StackState) -> Step {
    match effect {
        Effect::Indeterminate => step_lost(
            "stack effect undetermined after `"@ + instruction_display(code) + "`"@,
        ),
        _ => step_shown(
            called(state, effect),
            one_more(taken(effect)),
            given(effect),
            "resolved `"@ + instruction_display(code) + "` via `procref`"@,
        ),
    }
}

/// The procedure whose hash stands at an address: all four elements of one hash, in order.
pub open spec fn procedure_at(memory: Map<u32, Val>, address: u32) -> Option<Seq<char>> {
    match memory[address] {
        Val::ProcRef { path, .. } => if forall|i: int|
            0 <= i < 4 ==> memory.contains_key(#[trigger] address_at(address, i)) && memory[address_at(
                address,
                i,
            )] == (Val::ProcRef { path, index: i as u8 }) {
            Some(path)
        } else {
            None
        },
        _ => None,
    }
}

/// The four elements that stand for a procedure.
pub open spec fn reference_vals(path: Option<Seq<char>>) -> Seq<Val> {
    match path {
        Some(path) => Seq::new(4, |i: int| Val::ProcRef { path, index: i as u8 }),
        None => unknowns(4),
    }
}

/// The first of the stack's elements from `at` on that is the input `required`.
pub open spec fn tail_start(stack: Seq<Val>, required: usize, at: int) -> int
    decreases stack.len() - at,
{
    if at >= stack.len() || stack[at] == Val::Input(required) {
        at
    } else {
        tail_start(stack, required, at + 1)
    }
}

/// Whether the stack from `tail` on is what stood there when the body was entered, from the input
/// `required` on.
pub open spec fn tail_untouched(stack: Seq<Val>, required: usize, tail: int) -> bool {
    forall|i: int|
        tail <= i < stack.len() ==> match #[trigger] stack[i] {
            Val::Input(index) => index as int == required + (i - tail),
            _ => false,
        }
}

/// The effect of a body that ends in a state.
pub open spec fn body_summary(outcome: Option<StackState>) -> Effect {
    match outcome {
        None => Effect::Indeterminate,
        Some(state) => {
            let required = state.highest_input_touched;
            let tail = tail_start(state.stack, required, 0);
            if tail_untouched(state.stack, required, tail) {
                Effect::Concrete { required, results: state.stack.take(tail) }
            } else {
                Effect::Indeterminate
            }
        },
    }
}

/// The effect of the body of a procedure. `chain` lists the procedures whose bodies are being
/// followed at the moment: one of them that is met again is not entered again. A chain never lists
/// a procedure twice, so it is never longer than the list of procedures.
pub open spec fn body_effect(program: Program, chain: Seq<int>, known: Known, procedure: int) -> (
    Known,
    Effect,
)
    decreases program.procedures.len() - chain.len(), 0int, 0int, 0int,
{
    match known.effects[procedure] {
        Some(effect) => (known, effect),
        None => if chain.contains(procedure) || chain.len() >= program.procedures.len() {
            (known, Effect::Indeterminate)
        } else {
            let rows = program.procedures[procedure].rows;
            let (found, outcome) = run(
                program,
                chain.push(procedure),
                known,
                procedure,
                1,
                rows.len() as int,
                StackState::start(),
            );
            let effect = body_summary(outcome);
            (found.learned(procedure, effect), effect)
        },
    }
}

/// The effect of a call of the procedure with the given path: its signature counts where it has
/// one, else its body.
pub open spec fn call_effect(program: Program, chain: Seq<int>, known: Known, path: Seq<char>) -> (
    Known,
    Effect,
)
    decreases program.procedures.len() - chain.len(), 0int, 1int, 0int,
{
    match procedure_named(program.procedures, path, program.procedures.len()) {
        Some(procedure) => match program.procedures[procedure].signature {
            Some(signature) => (known, Effect::Counts(signature)),
            None => body_effect(program, chain, known, procedure),
        },
        None => match callable_named(program.callables, path, program.callables.len()) {
            Some(callable) => match callable.signature {
                Some(signature) => (known, Effect::Counts(signature)),
                None => (known, Effect::Indeterminate),
            },
            None => (known, Effect::Indeterminate),
        },
    }
}

/// The step for an instruction.
pub open spec fn code_step(
    program: Program,
    chain: Seq<int>,
    known: Known,
    procedure: int,
    code: Instruction,
    state: StackState,
) -> (Known, Step)
    decreases program.procedures.len() - chain.len(), 0int, 2int, 0int,
{
    match code {
        Instruction::ProcRef(target) => (
            known,
            step_on(
                state.pushed_many(reference_vals(target_path(program, procedure, target))),
                0,
                4,
                "`procref`"@,
            ),
        ),
        Instruction::Exec(target) | Instruction::Call(target) | Instruction::SysCall(target) => {
            let parts = target_parts(target);
            let range = element_range(module_of(program, procedure), parts.start, parts.end);
            match target_path(program, procedure, target) {
                None => (
                    known,
                    step_warned(
                        range,
                        "callee stack effects could not be resolved; stack effects are undetermined after this call"@,
                    ),
                ),
                Some(path) => {
                    let (found, effect) = call_effect(program, chain, known, path);
                    (found, call_step(path, range, effect, state))
                },
            }
        },
        Instruction::DynExec | Instruction::DynCall => {
            let rest = state.popped();
            let path = match address_of(state.top()) {
                Some(address) => procedure_at(rest.memory, address),
                None => None,
            };
            match path {
                Some(path) => {
                    let (found, effect) = call_effect(program, chain, known, path);
                    (found, dynamic_step(code, effect, rest))
                },
                None => (
                    known,
                    step_lost(
                        "dynamic callee could not be traced for `"@ + instruction_display(code)
                            + "`"@,
                    ),
                ),
            }
        },
        _ => (known, instruction_step(code, state)),
    }
}

/// The step for the element of a body whose rows go from `at` to `end`.
pub open spec fn element_step(
    program: Program,
    chain: Seq<int>,
    known: Known,
    procedure: int,
    at: int,
    end: int,
    state: StackState,
) -> (Known, Step)
    decreases program.procedures.len() - chain.len(), end - at, 0int, 0int,
{
    let rows = program.procedures[procedure].rows;
    let row = rows[at];
    let range = element_range(module_of(program, procedure), row.range.start as int, row.range.end as int);
    if at >= end {
        (known, step_on(state, 0, 0, Seq::empty()))
    } else {
        let (first, first_end) = first_block(rows, at, end);
        let (second, second_end) = second_block(rows, at, end);
        let rest = state.popped();
        match row.code {
            OpCode::Inst(code) => code_step(program, chain, known, procedure, code, state),
            OpCode::Block => {
                let (found, outcome) = run(program, chain, known, procedure, at + 1, end, state);
                match outcome {
                    Some(next) => (found, step_on(next, 0, 0, "block"@)),
                    None => (found, step_lost("stack effect undetermined after block"@)),
                }
            },
            OpCode::If => if state.top() == Val::Felt(1) {
                let (found, outcome) = run(
                    program,
                    chain,
                    known,
                    procedure,
                    first,
                    first_end,
                    rest,
                );
                (found, branch_step(outcome, "branch on known `true`"@))
            } else if state.top() == Val::Felt(0) {
                let (found, outcome) = run(
                    program,
                    chain,
                    known,
                    procedure,
                    second,
                    second_end,
                    rest,
                );
                (found, branch_step(outcome, "branch on known `false`"@))
            } else {
                let (found1, outcome1) = run(
                    program,
                    chain,
                    known,
                    procedure,
                    first,
                    first_end,
                    rest,
                );
                let (found2, outcome2) = run(
                    program,
                    chain,
                    found1,
                    procedure,
                    second,
                    second_end,
                    rest,
                );
                (found2, joined_step(range, outcome1, outcome2))
            },
            OpCode::While => if state.top() == Val::Felt(0) {
                (known, step_shown(rest, 1, 0, "loop skipped on known `false`"@))
            } else {
                let (found, outcome) = run(
                    program,
                    chain,
                    known,
                    procedure,
                    first,
                    first_end,
                    rest,
                );
                (found, loop_step(range, rest, outcome))
            },
            OpCode::Repeat(operand) => match immediate_u32(operand) {
                Some(count) => {
                    let (found, outcome) = run_repeatedly(
                        program,
                        chain,
                        known,
                        procedure,
                        first,
                        first_end,
                        count as nat,
                        state,
                    );
                    match outcome {
                        Some(next) => (
                            found,
                            step_on(next, 0, 0, "repeat."@ + decimal(count as nat)),
                        ),
                        None => (found, step_lost("stack effect undetermined after `repeat`"@)),
                    }
                },
                None => (known, step_lost("stack effect undetermined after `repeat`"@)),
            },
        }
    }
}

/// The step for a conditional with a known branch.
pub open spec fn branch_step(outcome: Option<StackState>, detail: Seq<char>) -> Step {
    match outcome {
        Some(next) => step_shown(next, 1, 0, detail),
        None => step_lost("stack effect undetermined after `if.true`"@),
    }
}

/// The step for a conditional whose branches both have to be followed.
pub open spec fn joined_step(
    range: Range,
    outcome1: Option<StackState>,
    outcome2: Option<StackState>,
) -> Step {
    if outcome1 is Some && outcome1 == outcome2 {
        step_shown(outcome1.unwrap(), 1, 0, "balanced conditional"@)
    } else {
        step_warned(
            range,
            "conditional branches leave different stack states; stack effects are undetermined after this `if.true`"@,
        )
    }
}

/// The step for a loop whose body was followed once from `rest`.
pub open spec fn loop_step(range: Range, rest: StackState, outcome: Option<StackState>) -> Step {
    match outcome {
        None => step_lost("stack effect undetermined after `while.true`"@),
        Some(next) => if next.popped() == rest {
            step_shown(rest, 1, 0, "balanced loop"@)
        } else {
            step_warned(
                range,
                "loop body does not preserve the carried stack state; stack effects are undetermined after this `while.true`"@,
            )
        },
    }
}

/// Follows the elements of a body from row `at` up to row `end`. The state behind them is `None`
/// where it is not known.
pub open spec fn run(
    program: Program,
    chain: Seq<int>,
    known: Known,
    procedure: int,
    at: int,
    end: int,
    state: StackState,
) -> (Known, Option<StackState>)
    decreases program.procedures.len() - chain.len(), end - at, 1int, 0int,
{
    let rows = program.procedures[procedure].rows;
    if at >= end {
        (known, Some(state))
    } else {
        let next = element_end(rows, at, end);
        let module = module_of(program, procedure);
        let range = element_range(module, rows[at].range.start as int, rows[at].range.end as int);
        let (found, step) = element_step(program, chain, known, procedure, at, next, state);
        match step {
            Step::Continue { state: behind, overlay } => run(
                program,
                chain,
                found.shown(module.file, range, overlay),
                procedure,
                next,
                end,
                behind,
            ),
            Step::Indeterminate { warning, overlay } => (
                found.reported(module.file, warning).shown(module.file, range, overlay),
                None,
            ),
        }
    }
}

/// Follows the elements from row `at` up to row `end` `count` times.
pub open spec fn run_repeatedly(
    program: Program,
    chain: Seq<int>,
    known: Known,
    procedure: int,
    at: int,
    end: int,
    count: nat,
    state: StackState,
) -> (Known, Option<StackState>)
    decreases program.procedures.len() - chain.len(), end - at, 2int, count,
{
    if count == 0 {
        (known, Some(state))
    } else {
        let (found, outcome) = run(program, chain, known, procedure, at, end, state);
        match outcome {
            Some(next) => run_repeatedly(
                program,
                chain,
                found,
                procedure,
                at,
                end,
                (count - 1) as nat,
                next,
            ),
            None => (found, None),
        }
    }
}

/// What is reported and shown for one file.
pub struct StackDocumentAnalysis {
    diagnostics: Vec<Diagnostic>,
    overlays: Vec<StackOverlay>,
}

impl StackDocumentAnalysis {
    /// What is reported.
    pub closed spec fn reports(self) -> Seq<Finding> {
        findings(self.diagnostics@)
    }

    /// What is shown.
    pub closed spec fn shows(self) -> Seq<PlacedOverlay> {
        placed(self.overlays@)
    }

    /// Nothing is reported and shown.
    pub fn new() -> (analysis: StackDocumentAnalysis)
        ensures
            analysis.reports() == Seq::<Finding>::empty(),
            analysis.shows() == Seq::<PlacedOverlay>::empty(),
    {
        let analysis = StackDocumentAnalysis { diagnostics: Vec::new(), overlays: Vec::new() };
        assert(analysis.reports() =~= Seq::<Finding>::empty());
        assert(analysis.shows() =~= Seq::<PlacedOverlay>::empty());
        analysis
    }

    fn report(&mut self, diagnostic: Diagnostic)
        ensures
            final(self).reports() == old(self).reports().push(diagnostic@),
            final(self).shows() == old(self).shows(),
    {
        let ghost before = self.reports();
        self.diagnostics.push(diagnostic);
        assert(self.reports() =~= before.push(diagnostic@));
    }

    fn show(&mut self, overlay: StackOverlay)
        ensures
            final(self).reports() == old(self).reports(),
            final(self).shows() == old(self).shows().push(overlay@),
    {
        let ghost before = self.shows();
        self.overlays.push(overlay);
        assert(self.shows() =~= before.push(overlay@));
    }
}

/// What has been found out so far, and the bodies that are being followed.
pub struct Progress {
    effects: Vec<Option<CallEffect>>,
    in_progress: Vec<usize>,
    documents: Vec<StackDocumentAnalysis>,
}

/// The model of a noted effect.
pub open spec fn effect_view(effect: Option<CallEffect>) -> Option<Effect> {
    match effect {
        Some(effect) => Some(effect@),
        None => None,
    }
}

impl Progress {
    /// What has been found out so far.
    pub closed spec fn known(self) -> Known {
        Known {
            effects: Seq::new(self.effects@.len(), |i: int| effect_view(self.effects@[i])),
            findings: Seq::new(self.documents@.len(), |i: int| self.documents@[i].reports()),
            overlays: Seq::new(self.documents@.len(), |i: int| self.documents@[i].shows()),
        }
    }

    /// The procedures whose bodies are being followed, the outermost first.
    pub closed spec fn chain(self) -> Seq<int> {
        Seq::new(self.in_progress@.len(), |i: int| self.in_progress@[i] as int)
    }

    /// How many files there are.
    pub closed spec fn files(self) -> int {
        self.documents@.len() as int
    }

    /// There is a place for each procedure's effect, and no body is followed inside itself.
    pub closed spec fn well_formed(self, procedures: int) -> bool {
        &&& self.effects@.len() == procedures
        &&& self.chain().no_duplicates()
        &&& forall|i: int| 0 <= i < self.chain().len() ==> 0 <= #[trigger] self.chain()[i] < procedures
    }

    fn push_diagnostic(&mut self, file: usize, diagnostic: Option<Diagnostic>)
        requires
            file < old(self).files(),
        ensures
            final(self).known() == old(self).known().reported(
                file as int,
                match diagnostic {
                    Some(diagnostic) => Some(diagnostic@),
                    None => None,
                },
            ),
            final(self).chain() == old(self).chain(),
            final(self).files() == old(self).files(),
            forall|procedures: int|
                old(self).well_formed(procedures) == #[trigger] final(self).well_formed(procedures),
    {
        let ghost before = self.known();
        if let Some(diagnostic) = diagnostic {
            self.documents[file].report(diagnostic);
            proof {
                let after = before.reported(file as int, Some(diagnostic@));
                assert(self.known().findings =~= after.findings);
                assert(self.known().overlays =~= after.overlays);
            }
        }
        assert(self.chain() =~= old(self).chain());
    }

    fn push_overlay(&mut self, file: usize, range: Range, info: OverlayInfo)
        requires
            file < old(self).files(),
        ensures
            final(self).known() == old(self).known().shown(file as int, range, info@),
            final(self).chain() == old(self).chain(),
            final(self).files() == old(self).files(),
            forall|procedures: int|
                old(self).well_formed(procedures) == #[trigger] final(self).well_formed(procedures),
    {
        let ghost before = self.known();
        self.documents[file].show(StackOverlay { range, info });
        proof {
            let after = before.shown(file as int, range, info@);
            assert(self.known().findings =~= after.findings);
            assert(self.known().overlays =~= after.overlays);
            assert(self.chain() =~= old(self).chain());
        }
    }
}

/// A list without repeats of some of `count` numbers is shorter than `count`.
proof fn lemma_chain_short(chain: Seq<int>, count: int, missing: int)
    requires
        chain.no_duplicates(),
        forall|i: int| 0 <= i < chain.len() ==> 0 <= #[trigger] chain[i] < count,
        0 <= missing < count,
        !chain.contains(missing),
    ensures
        chain.len() < count,
{
    let longer = chain.push(missing);
    assert(longer.no_duplicates());
    longer.unique_seq_to_set();
    let range = vstd::set_lib::set_int_range(0, count);
    vstd::set_lib::lemma_int_range(0, count);
    assert forall|n: int| longer.to_set().contains(n) implies range.contains(n) by {
        let i = choose|i: int| 0 <= i < longer.len() && longer[i] == n;
        if i < chain.len() {
            assert(longer[i] == chain[i]);
        }
    }
    vstd::set_lib::lemma_len_subset(longer.to_set(), range);
}

/// The row behind the element at `at`.
fn find_element_end(rows: &Vec<OpRow>, at: usize, hi: usize) -> (end: usize)
    requires
        at < hi <= rows.len(),
    ensures
        end == element_end(rows@, at as int, hi as int),
        at < end <= hi,
{
    let depth = rows[at].depth;
    let mut past: usize = at + 1;
    while past < hi && rows[past].depth > depth
        invariant
            at < past <= hi <= rows.len(),
            depth == rows@[at as int].depth,
            row_past(rows@, depth, at + 1, hi as int) == row_past(
                rows@,
                depth,
                past as int,
                hi as int,
            ),
        decreases hi - past,
    {
        past = past + 1;
    }
    past
}

/// Where the two blocks of the element from `at` to `end` start and end.
fn find_blocks(rows: &Vec<OpRow>, at: usize, end: usize) -> (blocks: (usize, usize, usize, usize))
    requires
        at < end <= rows.len(),
    ensures
        (blocks.0 as int, blocks.1 as int) == first_block(rows@, at as int, end as int),
        (blocks.2 as int, blocks.3 as int) == second_block(rows@, at as int, end as int),
        at < blocks.0,
        at < blocks.2,
        blocks.1 <= end,
        blocks.3 <= end,
{
    if at + 1 < end {
        let first_end = find_element_end(rows, at + 1, end);
        if first_end < end {
            let second_end = find_element_end(rows, first_end, end);
            (at + 2, first_end, first_end + 1, second_end)
        } else {
            (at + 2, first_end, end, end)
        }
    } else {
        (end, end, end, end)
    }
}

/// The range of an element in the text of a module.
fn span_to_range(module: &ModuleContext, start: usize, end: usize) -> (range: Range)
    requires
        module.line_offsets@ == line_starts(encode_utf8(module.text@)),
    ensures
        range == element_range(module@, start as int, end as int),
{
    byte_range_to_lsp_range(&module.text, &module.line_offsets, start, end)
}

/// The path of the one procedure that the reference at a range was resolved to.
fn resolve_reference_path(program: &StackProgram, module: &ModuleContext, range: Range) -> (path:
    Option<String>)
    ensures
        match path {
            Some(path) => reference_path(program@, module@, range) == Some(path@),
            None => reference_path(program@, module@, range) is None,
        },
{
    let ghost references = module@.references;
    let ghost callables = program@.callables;
    let mut i: usize = module.references.len();
    while i > 0
        invariant
            i <= module.references.len(),
            references == module@.references,
            callables == program@.callables,
            reference_at(references, range, references.len()) == reference_at(
                references,
                range,
                i as nat,
            ),
        decreases i,
    {
        i = i - 1;
        let reference = &module.references[i];
        assert(references[i as int] == reference@);
        if reference.range == range {
            let invoked = match reference.kind {
                ReferenceKind::Invoke => true,
                _ => false,
            };
            if !invoked || reference.definition_indexes.len() != 1 {
                return None;
            }
            let index = reference.definition_indexes[0];
            let mut j: usize = program.callables.len();
            while j > 0
                invariant
                    j <= program.callables.len(),
                    callables == program@.callables,
                    reference_path(program@, module@, range) == match callable_at(
                        callables,
                        index,
                        callables.len(),
                    ) {
                        Some(callable) => if callable.kind is Procedure {
                            Some(callable.path)
                        } else {
                            None
                        },
                        None => None,
                    },
                    callable_at(callables, index, callables.len()) == callable_at(
                        callables,
                        index,
                        j as nat,
                    ),
                decreases j,
            {
                j = j - 1;
                let callable = &program.callables[j];
                assert(callables[j as int] == callable@);
                if callable.index == index {
                    return match callable.kind {
                        ItemKind::Procedure => Some(callable.path.clone()),
                        _ => None,
                    };
                }
            }
            return None;
        }
    }
    None
}

/// The path of the procedure that a call's target names, and where it is written.
fn resolve_target_path(program: &StackProgram, procedure: usize, target: &InvocationTarget) -> (
    resolved: (Range, Option<String>))
    requires
        procedure < program.procedures@.len(),
        exists|files: int| program.well_formed(files),
    ensures
        resolved.0 == element_range(
            module_of(program@, procedure as int),
            target_parts(*target).start,
            target_parts(*target).end,
        ),
        match resolved.1 {
            Some(path) => target_path(program@, procedure as int, *target) == Some(path@),
            None => target_path(program@, procedure as int, *target) is None,
        },
{
    let ghost files = choose|files: int| program.well_formed(files);
    assert(program.procedures@[procedure as int].module < program.modules@.len());
    let module = &program.modules[program.procedures[procedure].module];
    assert(module_of(program@, procedure as int) == module@);
    let parts = read_target(target);
    let range = span_to_range(module, parts.start, parts.end);
    match resolve_reference_path(program, module, range) {
        Some(path) => (range, Some(path)),
        None => match &parts.name {
            TargetName::Root => (range, None),
            TargetName::Symbol(name) => (range, Some(join3(&module.path, "::", name))),
            TargetName::Path(path) => (range, Some(path.clone())),
        },
    }
}

/// The value in terms of what a call took, told in terms of the caller.
fn substitute_inputs(value: &Value, inputs: &Vec<Value>) -> (result: Value)
    ensures
        result@ == substituted(value@, vals(inputs@)),
{
    match value {
        Value::Input(index) => if *index < inputs.len() {
            inputs[*index].copy()
        } else {
            Value::Unknown
        },
        _ => value.copy(),
    }
}

/// The state behind a call with a known effect.
fn apply_effect(effect: &CallEffect, state: State) -> (behind: State)
    ensures
        behind@ == called(state@, effect@),
{
    let mut state = state;
    match effect {
        CallEffect::Counts(signature) => {
            state.set_top_many(signature.args, unknown_values(signature.results));
        },
        CallEffect::Concrete { required_inputs, results } => {
            let ghost before = state@;
            let inputs = state.pop_many(*required_inputs);
            let mut values: Vec<Value> = Vec::new();
            let mut i: usize = 0;
            let ghost all = Seq::new(
                vals(results@).len(),
                |i: int| substituted(vals(results@)[i], vals(inputs@)),
            );
            while i < results.len()
                invariant
                    i <= results.len(),
                    all == Seq::new(
                        vals(results@).len(),
                        |i: int| substituted(vals(results@)[i], vals(inputs@)),
                    ),
                    vals(values@) == all.take(i as int),
                decreases results.len() - i,
            {
                let value = substitute_inputs(&results[i], &inputs);
                let ghost shown = vals(values@);
                values.push(value);
                assert(vals(values@) =~= shown.push(value@));
                assert(vals(values@) =~= all.take(i + 1));
                i = i + 1;
            }
            assert(vals(values@) =~= all);
            assert(all =~= Seq::new(
                effect@->results.len(),
                |i: int| substituted(effect@->results[i], before.top_many(*required_inputs as nat)),
            ));
            state.push_many(values);
        },
        CallEffect::Indeterminate => {},
    }
    state
}

/// The counts of a call's effect.
fn effect_counts(effect: &CallEffect) -> (counts: (usize, usize))
    ensures
        counts.0 == taken(effect@),
        counts.1 == given(effect@),
{
    match effect {
        CallEffect::Counts(signature) => (signature.args, signature.results),
        CallEffect::Concrete { required_inputs, results } => (*required_inputs, results.len()),
        CallEffect::Indeterminate => (0, 0),
    }
}

/// The procedure whose hash stands at an address.
fn proc_ref_from_memory(state: &State, address: u32) -> (path: Option<String>)
    ensures
        match path {
            Some(path) => procedure_at(state@.memory, address) == Some(path@),
            None => procedure_at(state@.memory, address) is None,
        },
{
    let ghost memory = state@.memory;
    assert(address_at(address, 0) == address);
    let first = match state.known(address) {
        Some(value) => value,
        None => return None,
    };
    let path = match first {
        Value::ProcRef { path, .. } => path,
        _ => return None,
    };
    let mut i: u32 = 0;
    while i < 4
        invariant
            i <= 4,
            memory == state@.memory,
            memory[address] is ProcRef,
            memory[address]->path == path@,
            forall|k: int|
                0 <= k < i ==> memory.contains_key(#[trigger] address_at(address, k))
                    && memory[address_at(address, k)] == (Val::ProcRef {
                    path: path@,
                    index: k as u8,
                }),
        decreases 4 - i,
    {
        let at = ((address as u64 + i as u64) % 0x1_0000_0000) as u32;
        assert(at == address_at(address, i as int));
        match state.known(at) {
            Some(Value::ProcRef { path: candidate, index }) => {
                if index as u32 != i || !same_text(&candidate, &path) {
                    assert(memory[address_at(address, i as int)] != (Val::ProcRef {
                        path: path@,
                        index: i as u8,
                    }));
                    return None;
                }
            },
            _ => return None,
        }
        i = i + 1;
    }
    Some(path)
}

/// The four elements that stand for a procedure.
fn reference_values(path: &Option<String>) -> (values: Vec<Value>)
    ensures
        vals(values@) == reference_vals(
            match *path {
                Some(path) => Some(path@),
                None => None,
            },
        ),
{
    match path {
        None => unknown_values(4),
        Some(path) => {
            let mut values: Vec<Value> = Vec::new();
            let mut i: u8 = 0;
            let ghost all = reference_vals(Some(path@));
            while i < 4
                invariant
                    i <= 4,
                    all == reference_vals(Some(path@)),
                    vals(values@) == all.take(i as int),
                decreases 4 - i,
            {
                let value = Value::ProcRef { path: path.clone(), index: i };
                let ghost shown = vals(values@);
                values.push(value);
                assert(vals(values@) =~= shown.push(value@));
                assert(vals(values@) =~= all.take(i + 1));
                i = i + 1;
            }
            assert(vals(values@) =~= all);
            values
        },
    }
}

/// The effect of a body that ends in `state`.
fn summarize(state: &State) -> (effect: CallEffect)
    ensures
        effect@ == body_summary(Some(state@)),
{
    let required = state.inputs_used();
    let values = state.values();
    let ghost stack = state@.stack;
    let mut tail: usize = 0;
    while tail < values.len() && !values[tail].same(&Value::Input(required))
        invariant
            tail <= values.len(),
            vals(values@) == stack,
            tail_start(stack, required, 0) == tail_start(stack, required, tail as int),
        decreases values.len() - tail,
    {
        assert(stack[tail as int] == values@[tail as int]@);
        tail = tail + 1;
    }
    assert(vals(values@).len() == values@.len());
    assert(tail < values.len() ==> stack[tail as int] == values@[tail as int]@);
    let mut i: usize = tail;
    while i < values.len()
        invariant
            tail <= i <= values.len(),
            vals(values@) == stack,
            stack == state@.stack,
            required == state@.highest_input_touched,
            tail == tail_start(stack, required, 0),
            forall|k: int|
                tail <= k < i ==> match #[trigger] stack[k] {
                    Val::Input(index) => index as int == required + (k - tail),
                    _ => false,
                },
        decreases values.len() - i,
    {
        assert(stack[i as int] == values@[i as int]@);
        let untouched = match &values[i] {
            Value::Input(index) => *index >= required && *index - required == i - tail,
            _ => false,
        };
        if !untouched {
            return CallEffect::Indeterminate;
        }
        i = i + 1;
    }
    let mut results = values;
    results.truncate(tail);
    assert(vals(results@) =~= stack.take(tail as int));
    CallEffect::Concrete { required_inputs: required, results }
}

/// The model of a state that may not be known.
pub open spec fn state_view(state: Option<State>) -> Option<StackState> {
    match state {
        Some(state) => Some(state@),
        None => None,
    }
}

/// What each step of the analysis starts from.
pub open spec fn can_follow(program: StackProgram, progress: Progress, procedure: int) -> bool {
    &&& program.well_formed(progress.files())
    &&& progress.well_formed(program.procedures@.len() as int)
    &&& 0 <= procedure < program.procedures@.len()
}

/// What each step of the analysis leaves: only what was found out is new.
pub open spec fn follows(before: Progress, after: Progress, procedures: int) -> bool {
    &&& after.well_formed(procedures)
    &&& after.chain() == before.chain()
    &&& after.files() == before.files()
}

/// Finds out the effect of a body.
fn ensure_body_effect(program: &StackProgram, progress: &mut Progress, procedure: usize) -> (effect:
    CallEffect)
    requires
        can_follow(*program, *old(progress), procedure as int),
    ensures
        follows(*old(progress), *final(progress), program.procedures@.len() as int),
        (final(progress).known(), effect@) == body_effect(
            program@,
            old(progress).chain(),
            old(progress).known(),
            procedure as int,
        ),
    decreases program.procedures@.len() - old(progress).chain().len(), 0int, 0int, 0int,
{
    let ghost start = progress.known();
    let ghost chain = progress.chain();
    if let Some(effect) = &progress.effects[procedure] {
        assert(start.effects[procedure as int] == Some(effect@));
        return effect.copy();
    }
    assert(start.effects[procedure as int] is None);
    let mut i: usize = 0;
    while i < progress.in_progress.len()
        invariant
            i <= progress.in_progress.len(),
            forall|k: int| 0 <= k < i ==> progress.in_progress@[k] != procedure,
            follows(*old(progress), *progress, program.procedures@.len() as int),
            progress.known() == start,
            start == old(progress).known(),
            start.effects[procedure as int] is None,
        decreases progress.in_progress.len() - i,
    {
        if progress.in_progress[i] == procedure {
            assert(progress.chain()[i as int] == procedure as int);
            return CallEffect::Indeterminate;
        }
        i = i + 1;
    }
    proof {
        assert(progress.chain() == chain);
        assert(!chain.contains(procedure as int)) by {
            if chain.contains(procedure as int) {
                let k = choose|k: int| 0 <= k < chain.len() && chain[k] == procedure as int;
                assert(progress.in_progress@[k] == procedure);
            }
        }
        lemma_chain_short(chain, program.procedures@.len() as int, procedure as int);
    }
    progress.in_progress.push(procedure);
    proof {
        assert(progress.chain() =~= chain.push(procedure as int));
        assert(progress.known() == start);
        assert forall|k: int| 0 <= k < progress.chain().len() implies 0
            <= #[trigger] progress.chain()[k] < program.procedures@.len() by {
            if k < chain.len() {
                assert(progress.chain()[k] == chain[k]);
            }
        }
    }
    let end = program.procedures[procedure].rows.len();
    assert(program@.procedures[procedure as int] == program.procedures@[procedure as int]@);
    let outcome = if end == 0 {
        Some(State::new())
    } else {
        analyze_block(program, progress, procedure, 1, end, State::new())
    };
    let ghost found = progress.known();
    let ghost inner = progress.in_progress@;
    let _ = progress.in_progress.pop();
    proof {
        let longer = Seq::new(inner.len(), |i: int| inner[i] as int);
        assert(longer == chain.push(procedure as int));
        assert(progress.chain() =~= longer.drop_last());
        assert(longer.drop_last() =~= chain);
        assert(progress.known() == found);
    }
    let effect = match &outcome {
        Some(state) => summarize(state),
        None => CallEffect::Indeterminate,
    };
    progress.effects.set(procedure, Some(effect.copy()));
    proof {
        assert(progress.known().effects =~= found.learned(procedure as int, effect@).effects);
        assert(progress.chain() =~= chain);
        assert(progress.known().findings =~= found.findings);
        assert(progress.known().overlays =~= found.overlays);
    }
    effect
}

/// Finds out the effect of a call.
fn effective_call_effect(
    program: &StackProgram,
    progress: &mut Progress,
    Ghost(caller): Ghost<int>,
    path: &str,
) -> (effect: CallEffect)
    requires
        can_follow(*program, *old(progress), caller),
    ensures
        follows(*old(progress), *final(progress), program.procedures@.len() as int),
        (final(progress).known(), effect@) == call_effect(
            program@,
            old(progress).chain(),
            old(progress).known(),
            path@,
        ),
    decreases program.procedures@.len() - old(progress).chain().len(), 0int, 1int, 0int,
{
    let ghost procedures = program@.procedures;
    let ghost callables = program@.callables;
    let mut i: usize = program.procedures.len();
    while i > 0
        invariant
            i <= program.procedures.len(),
            procedures == program@.procedures,
            *progress == *old(progress),
            can_follow(*program, *old(progress), caller),
            procedure_named(procedures, path@, procedures.len()) == procedure_named(
                procedures,
                path@,
                i as nat,
            ),
        decreases i,
    {
        i = i - 1;
        let procedure = &program.procedures[i];
        assert(procedures[i as int] == procedure@);
        if same_text(&procedure.path, path) {
            if let Some(signature) = procedure.explicit_signature {
                return CallEffect::Counts(signature);
            }
            return ensure_body_effect(program, progress, i);
        }
    }
    let mut j: usize = program.callables.len();
    while j > 0
        invariant
            j <= program.callables.len(),
            callables == program@.callables,
            procedures == program@.procedures,
            *progress == *old(progress),
            can_follow(*program, *old(progress), caller),
            procedure_named(procedures, path@, procedures.len()) is None,
            callable_named(callables, path@, callables.len()) == callable_named(
                callables,
                path@,
                j as nat,
            ),
        decreases j,
    {
        j = j - 1;
        let callable = &program.callables[j];
        assert(callables[j as int] == callable@);
        if same_text(&callable.path, path) {
            return match callable.signature {
                Some(signature) => CallEffect::Counts(signature),
                None => CallEffect::Indeterminate,
            };
        }
    }
    CallEffect::Indeterminate
}

/// Follows a call of a procedure that is named.
fn apply_call_effect(
    program: &StackProgram,
    progress: &mut Progress,
    procedure: usize,
    target: &InvocationTarget,
    state: State,
) -> (result: StepResult)
    requires
        can_follow(*program, *old(progress), procedure as int),
    ensures
        follows(*old(progress), *final(progress), program.procedures@.len() as int),
        (final(progress).known(), result@) == code_step(
            program@,
            old(progress).chain(),
            old(progress).known(),
            procedure as int,
            Instruction::Exec(*target),
            state@,
        ),
    decreases program.procedures@.len() - old(progress).chain().len(), 0int, 2int, 0int,
{
    let (range, path) = resolve_target_path(program, procedure, target);
    let path = match path {
        Some(path) => path,
        None => return StepResult::warning(
            range,
            "callee stack effects could not be resolved; stack effects are undetermined after this call",
        ),
    };
    let effect = effective_call_effect(program, progress, Ghost(procedure as int), &path);
    let (popped, pushed) = effect_counts(&effect);
    match &effect {
        CallEffect::Counts(_) => StepResult::continue_with(
            apply_effect(&effect, state),
            popped,
            pushed,
            &join3("resolved call `", &path, "`"),
        ),
        CallEffect::Concrete { .. } => StepResult::continue_with_highlight(
            apply_effect(&effect, state),
            popped,
            pushed,
            &join3("resolved call `", &path, "` from source body"),
        ),
        CallEffect::Indeterminate => StepResult::warning(
            range,
            "callee stack effects are indeterminate; stack effects are undetermined after this call",
        ),
    }
}

/// Follows a call through an address.
fn apply_dynamic_call(
    program: &StackProgram,
    progress: &mut Progress,
    procedure: usize,
    code: &Instruction,
    state: State,
) -> (result: StepResult)
    requires
        can_follow(*program, *old(progress), procedure as int),
        code is DynExec || code is DynCall,
    ensures
        follows(*old(progress), *final(progress), program.procedures@.len() as int),
        (final(progress).known(), result@) == code_step(
            program@,
            old(progress).chain(),
            old(progress).known(),
            procedure as int,
            *code,
            state@,
        ),
    decreases program.procedures@.len() - old(progress).chain().len(), 0int, 2int, 0int,
{
    let mut state = state;
    let address = state.pop();
    let text = instruction_text(code);
    let path = match known_address(&address) {
        Some(address) => proc_ref_from_memory(&state, address),
        None => None,
    };
    let path = match path {
        Some(path) => path,
        None => return StepResult::indeterminate_without_diagnostic(
            &join3("dynamic callee could not be traced for `", &text, "`"),
        ),
    };
    let effect = effective_call_effect(program, progress, Ghost(procedure as int), &path);
    if let CallEffect::Indeterminate = effect {
        return StepResult::indeterminate_without_diagnostic(
            &join3("stack effect undetermined after `", &text, "`"),
        );
    }
    let (popped, pushed) = effect_counts(&effect);
    let with_address = if popped < usize::MAX {
        popped + 1
    } else {
        popped
    };
    StepResult::continue_with_highlight(
        apply_effect(&effect, state),
        with_address,
        pushed,
        &join3("resolved `", &text, "` via `procref`"),
    )
}

/// Follows an instruction.
fn analyze_instruction(
    program: &StackProgram,
    progress: &mut Progress,
    procedure: usize,
    code: &Instruction,
    state: State,
) -> (result: StepResult)
    requires
        can_follow(*program, *old(progress), procedure as int),
    ensures
        follows(*old(progress), *final(progress), program.procedures@.len() as int),
        (final(progress).known(), result@) == code_step(
            program@,
            old(progress).chain(),
            old(progress).known(),
            procedure as int,
            *code,
            state@,
        ),
    decreases program.procedures@.len() - old(progress).chain().len(), 0int, 3int, 0int,
{
    match code {
        Instruction::ProcRef(target) => {
            let mut state = state;
            let (_, path) = resolve_target_path(program, procedure, target);
            state.push_many(reference_values(&path));
            StepResult::continue_with(state, 0, 4, "`procref`")
        },
        Instruction::Exec(target) | Instruction::Call(target)
        | Instruction::SysCall(target) => apply_call_effect(
            program,
            progress,
            procedure,
            target,
            state,
        ),
        Instruction::DynExec | Instruction::DynCall => apply_dynamic_call(
            program,
            progress,
            procedure,
            code,
            state,
        ),
        _ => analyze_plain_instruction(code, state),
    }
}

/// Follows a conditional, whose rows go from `at` to `end`.
fn analyze_if(
    program: &StackProgram,
    progress: &mut Progress,
    procedure: usize,
    range: Range,
    at: usize,
    end: usize,
    state: State,
) -> (result: StepResult)
    requires
        can_follow(*program, *old(progress), procedure as int),
        at < end <= program.procedures@[procedure as int].rows@.len(),
        program.procedures@[procedure as int].rows@[at as int].code is If,
        range == element_range(
            module_of(program@, procedure as int),
            program.procedures@[procedure as int].rows@[at as int].range.start as int,
            program.procedures@[procedure as int].rows@[at as int].range.end as int,
        ),
    ensures
        follows(*old(progress), *final(progress), program.procedures@.len() as int),
        (final(progress).known(), result@) == element_step(
            program@,
            old(progress).chain(),
            old(progress).known(),
            procedure as int,
            at as int,
            end as int,
            state@,
        ),
    decreases program.procedures@.len() - old(progress).chain().len(), end - at, 0int, 0int,
{
    let mut state = state;
    let condition = state.pop();
    assert(program@.procedures[procedure as int] == program.procedures@[procedure as int]@);
    let (first, first_end, second, second_end) = find_blocks(
        &program.procedures[procedure].rows,
        at,
        end,
    );
    if condition.same(&Value::Felt(1)) {
        return match analyze_block(program, progress, procedure, first, first_end, state) {
            Some(next) => StepResult::continue_with_highlight(
                next,
                1,
                0,
                "branch on known `true`",
            ),
            None => StepResult::indeterminate_without_diagnostic(
                "stack effect undetermined after `if.true`",
            ),
        };
    }
    if condition.same(&Value::Felt(0)) {
        return match analyze_block(program, progress, procedure, second, second_end, state) {
            Some(next) => StepResult::continue_with_highlight(
                next,
                1,
                0,
                "branch on known `false`",
            ),
            None => StepResult::indeterminate_without_diagnostic(
                "stack effect undetermined after `if.true`",
            ),
        };
    }
    let outcome1 = analyze_block(program, progress, procedure, first, first_end, state.copy());
    let outcome2 = analyze_block(program, progress, procedure, second, second_end, state);
    match (outcome1, outcome2) {
        (Some(state1), Some(state2)) => {
            if state1.same(&state2) {
                StepResult::continue_with_highlight(state1, 1, 0, "balanced conditional")
            } else {
                StepResult::warning(
                    range,
                    "conditional branches leave different stack states; stack effects are undetermined after this `if.true`",
                )
            }
        },
        _ => StepResult::warning(
            range,
            "conditional branches leave different stack states; stack effects are undetermined after this `if.true`",
        ),
    }
}

/// Follows a loop that the top of the stack controls, whose rows go from `at` to `end`.
fn analyze_while(
    program: &StackProgram,
    progress: &mut Progress,
    procedure: usize,
    range: Range,
    at: usize,
    end: usize,
    state: State,
) -> (result: StepResult)
    requires
        can_follow(*program, *old(progress), procedure as int),
        at < end <= program.procedures@[procedure as int].rows@.len(),
        program.procedures@[procedure as int].rows@[at as int].code is While,
        range == element_range(
            module_of(program@, procedure as int),
            program.procedures@[procedure as int].rows@[at as int].range.start as int,
            program.procedures@[procedure as int].rows@[at as int].range.end as int,
        ),
    ensures
        follows(*old(progress), *final(progress), program.procedures@.len() as int),
        (final(progress).known(), result@) == element_step(
            program@,
            old(progress).chain(),
            old(progress).known(),
            procedure as int,
            at as int,
            end as int,
            state@,
        ),
    decreases program.procedures@.len() - old(progress).chain().len(), end - at, 0int, 0int,
{
    let mut state = state;
    let condition = state.pop();
    assert(program@.procedures[procedure as int] == program.procedures@[procedure as int]@);
    if condition.same(&Value::Felt(0)) {
        return StepResult::continue_with_highlight(state, 1, 0, "loop skipped on known `false`");
    }
    let (first, first_end, _, _) = find_blocks(&program.procedures[procedure].rows, at, end);
    match analyze_block(program, progress, procedure, first, first_end, state.copy()) {
        None => StepResult::indeterminate_without_diagnostic(
            "stack effect undetermined after `while.true`",
        ),
        Some(body) => {
            let mut exit = body;
            let _ = exit.pop();
            if exit.same(&state) {
                StepResult::continue_with_highlight(state, 1, 0, "balanced loop")
            } else {
                StepResult::warning(
                    range,
                    "loop body does not preserve the carried stack state; stack effects are undetermined after this `while.true`",
                )
            }
        },
    }
}

/// Follows the rows from `at` up to `end` `count` times.
fn analyze_repeat(
    program: &StackProgram,
    progress: &mut Progress,
    procedure: usize,
    at: usize,
    end: usize,
    count: u32,
    state: State,
) -> (result: StepResult)
    requires
        can_follow(*program, *old(progress), procedure as int),
        end <= program.procedures@[procedure as int].rows@.len(),
    ensures
        follows(*old(progress), *final(progress), program.procedures@.len() as int),
        ({
            let (found, outcome) = run_repeatedly(
                program@,
                old(progress).chain(),
                old(progress).known(),
                procedure as int,
                at as int,
                end as int,
                count as nat,
                state@,
            );
            &&& final(progress).known() == found
            &&& result@ == match outcome {
                Some(next) => step_on(next, 0, 0, "repeat."@ + decimal(count as nat)),
                None => step_lost("stack effect undetermined after `repeat`"@),
            }
        }),
    decreases program.procedures@.len() - old(progress).chain().len(), end - at, 2int, 0int,
{
    let ghost chain = progress.chain();
    let mut reached = state;
    let mut left: u32 = count;
    while left > 0
        invariant
            left <= count,
            can_follow(*program, *progress, procedure as int),
            follows(*old(progress), *progress, program.procedures@.len() as int),
            end <= program.procedures@[procedure as int].rows@.len(),
            chain == old(progress).chain(),
            chain == progress.chain(),
            run_repeatedly(
                program@,
                chain,
                old(progress).known(),
                procedure as int,
                at as int,
                end as int,
                count as nat,
                state@,
            ) == run_repeatedly(
                program@,
                chain,
                progress.known(),
                procedure as int,
                at as int,
                end as int,
                left as nat,
                reached@,
            ),
        decreases left,
    {
        match analyze_block(program, progress, procedure, at, end, reached) {
            Some(next) => {
                reached = next;
            },
            None => return StepResult::indeterminate_without_diagnostic(
                "stack effect undetermined after `repeat`",
            ),
        }
        left = left - 1;
    }
    let mut detail = "repeat.".to_owned();
    push_decimal(&mut detail, count as u64);
    StepResult::continue_with(reached, 0, 0, &detail)
}

/// Follows the element whose rows go from `at` to `end`.
fn analyze_element(
    program: &StackProgram,
    progress: &mut Progress,
    procedure: usize,
    range: Range,
    at: usize,
    end: usize,
    state: State,
) -> (result: StepResult)
    requires
        can_follow(*program, *old(progress), procedure as int),
        at < end <= program.procedures@[procedure as int].rows@.len(),
        range == element_range(
            module_of(program@, procedure as int),
            program.procedures@[procedure as int].rows@[at as int].range.start as int,
            program.procedures@[procedure as int].rows@[at as int].range.end as int,
        ),
    ensures
        follows(*old(progress), *final(progress), program.procedures@.len() as int),
        (final(progress).known(), result@) == element_step(
            program@,
            old(progress).chain(),
            old(progress).known(),
            procedure as int,
            at as int,
            end as int,
            state@,
        ),
    decreases program.procedures@.len() - old(progress).chain().len(), end - at, 0int, 1int,
{
    assert(program@.procedures[procedure as int] == program.procedures@[procedure as int]@);
    let row = &program.procedures[procedure].rows[at];
    match &row.code {
        OpCode::Inst(code) => analyze_instruction(program, progress, procedure, code, state),
        OpCode::Block => match analyze_block(program, progress, procedure, at + 1, end, state) {
            Some(next) => StepResult::continue_with(next, 0, 0, "block"),
            None => StepResult::indeterminate_without_diagnostic(
                "stack effect undetermined after block",
            ),
        },
        OpCode::If => analyze_if(program, progress, procedure, range, at, end, state),
        OpCode::While => analyze_while(program, progress, procedure, range, at, end, state),
        OpCode::Repeat(operand) => match operand_u32(operand) {
            Some(count) => {
                assert(immediate_u32(*operand) == Some(count));
                let (first, first_end, _, _) = find_blocks(
                    &program.procedures[procedure].rows,
                    at,
                    end,
                );
                analyze_repeat(program, progress, procedure, first, first_end, count, state)
            },
            None => StepResult::indeterminate_without_diagnostic(
                "stack effect undetermined after `repeat`",
            ),
        },
    }
}

/// How following the elements of a body starts.
proof fn lemma_run(
    program: Program,
    chain: Seq<int>,
    known: Known,
    procedure: int,
    at: int,
    end: int,
    state: StackState,
)
    requires
        at < end,
    ensures
        ({
            let rows = program.procedures[procedure].rows;
            let next = element_end(rows, at, end);
            let module = module_of(program, procedure);
            let range = element_range(module, rows[at].range.start as int, rows[at].range.end as int);
            let (found, step) = element_step(program, chain, known, procedure, at, next, state);
            run(program, chain, known, procedure, at, end, state) == match step {
                Step::Continue { state: behind, overlay } => run(
                    program,
                    chain,
                    found.shown(module.file, range, overlay),
                    procedure,
                    next,
                    end,
                    behind,
                ),
                Step::Indeterminate { warning, overlay } => (
                    found.reported(module.file, warning).shown(module.file, range, overlay),
                    None,
                ),
            }
        }),
{
}

/// Follows the elements of a body from row `at` up to row `end`.
#[verifier::rlimit(60)]
fn analyze_block(
    program: &StackProgram,
    progress: &mut Progress,
    procedure: usize,
    at: usize,
    end: usize,
    state: State,
) -> (outcome: Option<State>)
    requires
        can_follow(*program, *old(progress), procedure as int),
        end <= program.procedures@[procedure as int].rows@.len(),
    ensures
        follows(*old(progress), *final(progress), program.procedures@.len() as int),
        (final(progress).known(), state_view(outcome)) == run(
            program@,
            old(progress).chain(),
            old(progress).known(),
            procedure as int,
            at as int,
            end as int,
            state@,
        ),
    decreases program.procedures@.len() - old(progress).chain().len(), end - at, 1int, 0int,
{
    let ghost chain = progress.chain();
    assert(program@.procedures[procedure as int] == program.procedures@[procedure as int]@);
    assert(program.procedures@[procedure as int].module < program.modules@.len());
    let module = &program.modules[program.procedures[procedure].module];
    assert(module_of(program@, procedure as int) == module@);
    let mut reached = state;
    let mut current: usize = at;
    while current < end
        invariant
            at <= current,
            current <= end || at > end,
            can_follow(*program, *progress, procedure as int),
            follows(*old(progress), *progress, program.procedures@.len() as int),
            end <= program.procedures@[procedure as int].rows@.len(),
            program@.procedures[procedure as int] == program.procedures@[procedure as int]@,
            module_of(program@, procedure as int) == module@,
            module.line_offsets@ == line_starts(encode_utf8(module.text@)),
            module.file < progress.files(),
            chain == old(progress).chain(),
            chain == progress.chain(),
            run(
                program@,
                chain,
                old(progress).known(),
                procedure as int,
                at as int,
                end as int,
                state@,
            ) == run(
                program@,
                chain,
                progress.known(),
                procedure as int,
                current as int,
                end as int,
                reached@,
            ),
        decreases end - current,
    {
        let rows = &program.procedures[procedure].rows;
        let next = find_element_end(rows, current, end);
        let range = span_to_range(module, rows[current].range.start, rows[current].range.end);
        let ghost before = progress.known();
        let ghost from = reached@;
        let step = analyze_element(program, progress, procedure, range, current, next, reached);
        proof {
            lemma_run(
                program@,
                chain,
                before,
                procedure as int,
                current as int,
                end as int,
                from,
            );
            assert(element_step(
                program@,
                chain,
                before,
                procedure as int,
                current as int,
                next as int,
                from,
            ) == (progress.known(), step@));
            assert(next == element_end(
                program@.procedures[procedure as int].rows,
                current as int,
                end as int,
            ));
            assert(range == element_range(
                module@,
                program@.procedures[procedure as int].rows[current as int].range.start as int,
                program@.procedures[procedure as int].rows[current as int].range.end as int,
            ));
        }
        match step {
            StepResult::Continue { state: behind, overlay } => {
                progress.push_overlay(module.file, range, overlay);
                reached = behind;
            },
            StepResult::Indeterminate { diagnostic, overlay } => {
                progress.push_diagnostic(module.file, diagnostic);
                progress.push_overlay(module.file, range, overlay);
                return None;
            },
        }
        current = next;
    }
    Some(reached)
}

/// What is known when the body of one more procedure has been followed.
#[verifier::opaque]
pub open spec fn followed_body(program: Program, known: Known, procedure: int) -> Known {
    body_effect(program, Seq::empty(), known, procedure).0
}

/// What is known when the bodies of the first `count` procedures have been followed.
pub open spec fn run_all(program: Program, known: Known, count: nat) -> Known
    decreases count,
{
    if count == 0 {
        known
    } else {
        followed_body(program, run_all(program, known, (count - 1) as nat), count - 1)
    }
}

/// What is known before any body has been followed.
pub open spec fn nothing_known(procedures: nat, files: nat) -> Known {
    Known {
        effects: Seq::new(procedures, |i: int| None),
        findings: Seq::new(files, |i: int| Seq::empty()),
        overlays: Seq::new(files, |i: int| Seq::empty()),
    }
}

impl Progress {
    /// No body has been followed.
    fn new(procedures: usize, files: usize) -> (progress: Progress)
        ensures
            progress.files() == files,
            progress.well_formed(procedures as int),
            progress.chain() == Seq::<int>::empty(),
            progress.known() == nothing_known(procedures as nat, files as nat),
    {
        let mut effects: Vec<Option<CallEffect>> = Vec::new();
        let mut i: usize = 0;
        while i < procedures
            invariant
                i <= procedures,
                effects@.len() == i,
                forall|k: int| 0 <= k < i ==> (#[trigger] effects@[k]) is None,
            decreases procedures - i,
        {
            effects.push(None);
            i = i + 1;
        }
        let mut documents: Vec<StackDocumentAnalysis> = Vec::new();
        let mut j: usize = 0;
        while j < files
            invariant
                j <= files,
                documents@.len() == j,
                forall|k: int|
                    0 <= k < j ==> (#[trigger] documents@[k]).reports() == Seq::<Finding>::empty()
                        && documents@[k].shows() == Seq::<PlacedOverlay>::empty(),
            decreases files - j,
        {
            documents.push(StackDocumentAnalysis::new());
            j = j + 1;
        }
        let progress = Progress { effects, in_progress: Vec::new(), documents };
        let ghost start = nothing_known(procedures as nat, files as nat);
        assert(progress.known().effects =~= start.effects);
        assert(progress.known().findings =~= start.findings);
        assert(progress.known().overlays =~= start.overlays);
        assert(progress.chain() =~= Seq::<int>::empty());
        progress
    }

    /// What is reported and shown for each file.
    fn into_documents(self) -> (documents: Vec<StackDocumentAnalysis>)
        ensures
            documents@.len() == self.files(),
            forall|k: int|
                0 <= k < documents@.len() ==> (#[trigger] documents@[k]).reports()
                    == self.known().findings[k] && documents@[k].shows()
                    == self.known().overlays[k],
    {
        self.documents
    }
}

/// Whether a body can be followed from the start.
spec fn is_ready(program: StackProgram, progress: Progress, files: int) -> bool {
    &&& program.well_formed(files)
    &&& progress.files() == files
    &&& progress.well_formed(program.procedures@.len() as int)
    &&& progress.chain() == Seq::<int>::empty()
}

/// Follows one body from the start.
fn follow_body(program: &StackProgram, progress: &mut Progress, procedure: usize, files: usize)
    requires
        is_ready(*program, *old(progress), files as int),
        procedure < program.procedures@.len(),
    ensures
        is_ready(*program, *final(progress), files as int),
        final(progress).known() == followed_body(
            program@,
            old(progress).known(),
            procedure as int,
        ),
{
    reveal(followed_body);
    let _ = ensure_body_effect(program, progress, procedure);
}

/// Follows every body and tells, for each of the files, what is reported and shown.
pub fn analyze_procedures(program: &StackProgram, files: usize) -> (documents: Vec<
    StackDocumentAnalysis,
>)
    requires
        program.well_formed(files as int),
    ensures
        ({
            let start = nothing_known(program.procedures@.len(), files as nat);
            let known = run_all(program@, start, program.procedures@.len());
            &&& documents@.len() == files
            &&& forall|k: int|
                0 <= k < files ==> (#[trigger] documents@[k]).reports() == known.findings[k]
                    && documents@[k].shows() == known.overlays[k]
        }),
{
    let ghost start = nothing_known(program.procedures@.len(), files as nat);
    let mut progress = Progress::new(program.procedures.len(), files);
    let mut p: usize = 0;
    while p < program.procedures.len()
        invariant
            p <= program.procedures.len(),
            is_ready(*program, progress, files as int),
            progress.known() == run_all(program@, start, p as nat),
        decreases program.procedures.len() - p,
    {
        follow_body(program, &mut progress, p, files);
        p = p + 1;
    }
    progress.into_documents()
}

/// The first of the overlays from `at` on that covers a position.
pub open spec fn overlay_at(overlays: Seq<PlacedOverlay>, position: Position, at: int) -> Option<int>
    decreases overlays.len() - at,
{
    if at >= overlays.len() {
        None
    } else if overlays[at].range.covers(position) {
        Some(at)
    } else {
        overlay_at(overlays, position, at + 1)
    }
}

/// A hint behind an element of a body.
pub struct StackHint {
    pub position: Position,
    pub label: String,
    pub tooltip: String,
}

/// The model of a hint.
pub struct Hint {
    pub position: Position,
    pub label: Seq<char>,
    pub tooltip: Seq<char>,
}

impl View for StackHint {
    type V = Hint;

    open spec fn view(&self) -> Hint {
        Hint { position: self.position, label: self.label@, tooltip: self.tooltip@ }
    }
}

/// The hints for the overlays that ask for one and have a part in `visible`.
pub open spec fn stack_hints(overlays: Seq<PlacedOverlay>, visible: Range) -> Seq<Hint>
    decreases overlays.len(),
{
    if overlays.len() == 0 {
        Seq::empty()
    } else {
        let before = stack_hints(overlays.drop_last(), visible);
        let last = overlays.last();
        if last.overlay.show_inlay && last.range.intersects(visible) {
            before.push(
                Hint {
                    position: last.range.end,
                    label: " "@ + last.overlay.inlay_label,
                    tooltip: last.overlay.hover_markdown,
                },
            )
        } else {
            before
        }
    }
}

/// The models of a list of hints.
pub open spec fn hint_views(hints: Seq<StackHint>) -> Seq<Hint> {
    Seq::new(hints.len(), |i: int| hints[i]@)
}

impl StackDocumentAnalysis {
    /// What is reported.
    pub fn diagnostics(&self) -> (diagnostics: &[Diagnostic])
        ensures
            findings(diagnostics@) == self.reports(),
    {
        self.diagnostics.as_slice()
    }

    /// What is shown at a position, and for which range.
    pub fn hover_markdown_at(&self, position: Position) -> (hover: Option<(Range, String)>)
        ensures
            match overlay_at(self.shows(), position, 0) {
                Some(at) => {
                    &&& hover is Some
                    &&& hover.unwrap().0 == self.shows()[at].range
                    &&& hover.unwrap().1@ == self.shows()[at].overlay.hover_markdown
                },
                None => hover is None,
            },
    {
        let ghost all = self.shows();
        let mut i: usize = 0;
        while i < self.overlays.len()
            invariant
                i <= self.overlays.len(),
                all == placed(self.overlays@),
                overlay_at(all, position, 0) == overlay_at(all, position, i as int),
            decreases self.overlays.len() - i,
        {
            let overlay = &self.overlays[i];
            assert(all[i as int] == overlay@);
            if contains_position(overlay.range, position) {
                return Some((overlay.range, overlay.info.hover_markdown.clone()));
            }
            i = i + 1;
        }
        None
    }

    /// The hints that have a part in `visible`.
    pub fn inlay_hints(&self, visible: Range) -> (hints: Vec<StackHint>)
        ensures
            hint_views(hints@) == stack_hints(self.shows(), visible),
    {
        let ghost all = self.shows();
        let mut hints: Vec<StackHint> = Vec::new();
        let mut i: usize = 0;
        assert(hint_views(hints@) =~= stack_hints(all.take(0), visible));
        while i < self.overlays.len()
            invariant
                i <= self.overlays.len(),
                all == placed(self.overlays@),
                hint_views(hints@) == stack_hints(all.take(i as int), visible),
            decreases self.overlays.len() - i,
        {
            let overlay = &self.overlays[i];
            proof {
                assert(all[i as int] == overlay@);
                assert(all.take(i + 1).drop_last() =~= all.take(i as int));
            }
            if overlay.info.show_inlay && ranges_intersect(overlay.range, visible) {
                let ghost before = hint_views(hints@);
                let hint = StackHint {
                    position: overlay.range.end,
                    label: join(" ", &overlay.info.inlay_label),
                    tooltip: overlay.info.hover_markdown.clone(),
                };
                hints.push(hint);
                assert(hint_views(hints@) =~= before.push(hint@));
            }
            i = i + 1;
        }
        assert(all.take(i as int) =~= all);
        hints
    }
}

} // verus!
