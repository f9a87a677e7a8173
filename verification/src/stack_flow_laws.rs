//! How bodies are followed: the laws of conditionals, loops, repetitions and calls.
use miden_assembly_syntax::ast::{Instruction, InvocationTarget};
use vstd::prelude::*;
use crate::assembly::{immediate_u32, target_parts, OpMark, OpRow};
use crate::meaning::{lemma_picks, picks};
use crate::position::{position_at, Range};
use crate::stack_effect::{body_effect, body_summary, call_effect, callable_at, callable_named,
    called, code_step, element_end, element_step, first_block, module_of, procedure_at,
    procedure_named, reference_at, row_past, run, run_repeatedly, second_block, tail_start,
    tail_untouched, target_path, Callable, Effect, Known, Module, Procedure, Program, Resolved};
use crate::stack_state::{StackState, Val};
use crate::stack_step::{address_at, address_of, Overlay, Step};
use crate::text::decimal;

verus! {

/// Whether an overlay tells how many elements are taken and given.
pub open spec fn tells_counts(overlay: Overlay, taken: nat, given: nat) -> bool {
    overlay.inlay_label == "["@ + decimal(taken) + "->"@ + decimal(given) + "]"@
}

/// Whether an overlay tells that nothing is known, and shows it.
pub open spec fn tells_doubt(overlay: Overlay) -> bool {
    overlay.inlay_label == "[?]"@ && overlay.show_inlay
}

/// Whether a step goes on with a state, and tells how many elements were taken and given.
pub open spec fn goes_on(step: Step, state: StackState, taken: nat, given: nat, shown: bool) -> bool {
    match step {
        Step::Continue { state: behind, overlay } => behind == state && tells_counts(
            overlay,
            taken,
            given,
        ) && overlay.show_inlay == shown,
        Step::Indeterminate { .. } => false,
    }
}

/// Whether a step ends what is known, with a warning at a range of a text.
pub open spec fn warns_at(step: Step, module: Module, start: int, end: int) -> bool {
    match step {
        Step::Continue { .. } => false,
        Step::Indeterminate { warning: Some(finding), overlay } => {
            &&& finding.range.start == position_at(module.bytes, start)
            &&& finding.range.end == position_at(module.bytes, end)
            &&& finding.severity is Warning
            &&& tells_doubt(overlay)
        },
        Step::Indeterminate { warning: None, .. } => false,
    }
}

/// Whether a step ends what is known without a warning.
pub open spec fn gives_up(step: Step) -> bool {
    match step {
        Step::Continue { .. } => false,
        Step::Indeterminate { warning, overlay } => warning is None && tells_doubt(overlay),
    }
}

/// Whether the rows from `from` up to `to` are those of the block that the row before them opens:
/// they are all deeper than that row, and what follows them below `end` is not.
pub open spec fn is_block(rows: Seq<OpRow>, from: int, to: int, end: int) -> bool {
    &&& 1 <= from <= to <= end
    &&& forall|i: int| from <= i < to ==> (#[trigger] rows[i]).depth > rows[from - 1].depth
    &&& to < end ==> rows[to].depth <= rows[from - 1].depth
}

proof fn lemma_row_past(rows: Seq<OpRow>, depth: usize, at: int, hi: int)
    requires
        at <= hi,
    ensures
        at <= row_past(rows, depth, at, hi) <= hi,
        forall|i: int|
            at <= i < row_past(rows, depth, at, hi) ==> (#[trigger] rows[i]).depth > depth,
        row_past(rows, depth, at, hi) < hi ==> rows[row_past(rows, depth, at, hi)].depth <= depth,
    decreases hi - at,
{
    if at < hi && rows[at].depth > depth {
        lemma_row_past(rows, depth, at + 1, hi);
    }
}

/// An element reaches up to the next row that is no deeper than its first one.
pub proof fn law_element_end(rows: Seq<OpRow>, at: int, hi: int)
    requires
        0 <= at < hi,
    ensures
        is_block(rows, at + 1, element_end(rows, at, hi), hi),
{
    lemma_row_past(rows, rows[at].depth, at + 1, hi);
}

/// The blocks of a conditional or a loop: the row behind it opens the first one, and the row behind
/// that block, where the element has one, opens the second one. A block that is not there is empty.
pub proof fn law_blocks(rows: Seq<OpRow>, at: int, end: int)
    requires
        0 <= at < end,
    ensures
        ({
            let (first, first_end) = first_block(rows, at, end);
            let (second, second_end) = second_block(rows, at, end);
            &&& at + 1 < end ==> first == at + 2 && is_block(rows, first, first_end, end)
            &&& at + 1 == end ==> first == end && first_end == end
            &&& first_end < end ==> second == first_end + 1 && is_block(
                rows,
                second,
                second_end,
                end,
            )
            &&& first_end == end ==> second == end && second_end == end
        }),
{
    if at + 1 < end {
        law_element_end(rows, at + 1, end);
        let block = first_block(rows, at, end).1;
        if block < end {
            law_element_end(rows, block, end);
        }
    }
}

/// Two blocks that start at one row and reach as far as they can are the same.
pub proof fn law_blocks_are_unique(rows: Seq<OpRow>, from: int, to: int, other: int, end: int)
    requires
        is_block(rows, from, to, end),
        is_block(rows, from, other, end),
    ensures
        to == other,
{
    if to < other {
        assert(rows[to].depth > rows[from - 1].depth);
    }
    if other < to {
        assert(rows[other].depth > rows[from - 1].depth);
    }
}

/// The body of a loop is left unfollowed only where its condition is known to be zero; the condition
/// is taken off and nothing else happens. Under every other condition, known or not, the body is
/// followed once behind the condition. The state behind the loop is then known exactly where the body
/// leaves, without its own condition, what was there before it; where the body leaves anything else, a
/// warning is given at the loop; and where it is not known what the body leaves, nothing is known.
pub proof fn law_while(
    program: Program,
    chain: Seq<int>,
    known: Known,
    procedure: int,
    at: int,
    end: int,
    state: StackState,
)
    requires
        0 <= at < end,
        program.procedures[procedure].rows[at].code is While,
    ensures
        ({
            let rows = program.procedures[procedure].rows;
            let (found, step) = element_step(program, chain, known, procedure, at, end, state);
            let (body, body_end) = first_block(rows, at, end);
            let (after, outcome) = run(
                program,
                chain,
                known,
                procedure,
                body,
                body_end,
                state.popped(),
            );
            let module = program.modules[program.procedures[procedure].module];
            if state.top() == Val::Felt(0) {
                found == known && goes_on(step, state.popped(), 1, 0, true)
            } else {
                &&& found == after
                &&& outcome is None ==> gives_up(step)
                &&& outcome is Some && outcome.unwrap().popped() == state.popped() ==> goes_on(
                    step,
                    state.popped(),
                    1,
                    0,
                    true,
                )
                &&& outcome is Some && outcome.unwrap().popped() != state.popped() ==> warns_at(
                    step,
                    module,
                    rows[at].range.start as int,
                    rows[at].range.end as int,
                )
            }
        }),
{
}

/// A loop never goes on with anything but the stack in front of it without the condition.
pub proof fn law_loops_keep_the_stack(
    program: Program,
    chain: Seq<int>,
    known: Known,
    procedure: int,
    at: int,
    end: int,
    state: StackState,
)
    requires
        0 <= at < end,
        program.procedures[procedure].rows[at].code is While,
    ensures
        element_step(program, chain, known, procedure, at, end, state).1 is Continue
            ==> element_step(program, chain, known, procedure, at, end, state).1->state
            == state.popped(),
{
    law_while(program, chain, known, procedure, at, end, state);
}

/// Of a conditional whose condition is known to be one, only the first branch is followed, and of one
/// whose condition is known to be zero only the second, behind the condition. Under every other
/// condition both are followed from there, the first one first; what is behind the conditional is then
/// known exactly where it is known what both leave and they leave the same, and otherwise a warning is
/// given at the conditional.
pub proof fn law_if(
    program: Program,
    chain: Seq<int>,
    known: Known,
    procedure: int,
    at: int,
    end: int,
    state: StackState,
)
    requires
        0 <= at < end,
        program.procedures[procedure].rows[at].code is If,
    ensures
        ({
            let rows = program.procedures[procedure].rows;
            let (found, step) = element_step(program, chain, known, procedure, at, end, state);
            let (first, first_end) = first_block(rows, at, end);
            let (second, second_end) = second_block(rows, at, end);
            let rest = state.popped();
            let (known1, outcome1) = run(
                program,
                chain,
                known,
                procedure,
                first,
                first_end,
                rest,
            );
            let (known2, outcome2) = run(
                program,
                chain,
                known,
                procedure,
                second,
                second_end,
                rest,
            );
            let (both, outcome3) = run(
                program,
                chain,
                known1,
                procedure,
                second,
                second_end,
                rest,
            );
            let module = program.modules[program.procedures[procedure].module];
            match state.top() {
                Val::Felt(1) => found == known1 && match outcome1 {
                    Some(next) => goes_on(step, next, 1, 0, true),
                    None => gives_up(step),
                },
                Val::Felt(0) => found == known2 && match outcome2 {
                    Some(next) => goes_on(step, next, 1, 0, true),
                    None => gives_up(step),
                },
                _ => {
                    &&& found == both
                    &&& match (outcome1, outcome3) {
                        (Some(left), Some(right)) => if left == right {
                            goes_on(step, left, 1, 0, true)
                        } else {
                            warns_at(
                                step,
                                module,
                                rows[at].range.start as int,
                                rows[at].range.end as int,
                            )
                        },
                        _ => warns_at(
                            step,
                            module,
                            rows[at].range.start as int,
                            rows[at].range.end as int,
                        ),
                    }
                },
            }
        }),
{
}

/// Whether a list of states is what following the rows again and again passes through.
pub open spec fn is_trace(
    program: Program,
    chain: Seq<int>,
    procedure: int,
    at: int,
    end: int,
    trace: Seq<(Known, StackState)>,
) -> bool {
    forall|i: int, j: int|
        0 <= i && j == i + 1 && j < trace.len() ==> {
            let (known, state) = #[trigger] trace[i];
            let (found, outcome) = run(program, chain, known, procedure, at, end, state);
            found == (#[trigger] trace[j]).0 && outcome == Some(trace[j].1)
        }
}

/// Following rows a number of times passes through that many states one after another; where one of
/// them is not known, that is where it ends.
pub proof fn law_repeated(
    program: Program,
    chain: Seq<int>,
    known: Known,
    procedure: int,
    at: int,
    end: int,
    count: nat,
    state: StackState,
)
    ensures
        ({
            let (found, outcome) = run_repeatedly(
                program,
                chain,
                known,
                procedure,
                at,
                end,
                count,
                state,
            );
            match outcome {
                Some(last) => exists|trace: Seq<(Known, StackState)>|
                    {
                        &&& #[trigger] is_trace(program, chain, procedure, at, end, trace)
                        &&& trace.len() == count + 1
                        &&& trace[0] == (known, state)
                        &&& trace[count as int] == (found, last)
                    },
                None => exists|trace: Seq<(Known, StackState)>|
                    {
                        &&& #[trigger] is_trace(program, chain, procedure, at, end, trace)
                        &&& 0 < trace.len() <= count
                        &&& trace[0] == (known, state)
                        &&& run(
                            program,
                            chain,
                            trace.last().0,
                            procedure,
                            at,
                            end,
                            trace.last().1,
                        ) == (found, None::<StackState>)
                    },
            }
        }),
    decreases count,
{
    let start = (known, state);
    if count == 0 {
        let trace = seq![start];
        assert(is_trace(program, chain, procedure, at, end, trace));
    } else {
        let (found, outcome) = run(program, chain, known, procedure, at, end, state);
        match outcome {
            None => {
                let trace = seq![start];
                assert(is_trace(program, chain, procedure, at, end, trace));
            },
            Some(next) => {
                law_repeated(
                    program,
                    chain,
                    found,
                    procedure,
                    at,
                    end,
                    (count - 1) as nat,
                    next,
                );
                let (last_known, last) = run_repeatedly(
                    program,
                    chain,
                    found,
                    procedure,
                    at,
                    end,
                    (count - 1) as nat,
                    next,
                );
                let rest = if last is Some {
                    choose|trace: Seq<(Known, StackState)>|
                        {
                            &&& #[trigger] is_trace(program, chain, procedure, at, end, trace)
                            &&& trace.len() == count
                            &&& trace[0] == (found, next)
                            &&& trace[count - 1] == (last_known, last.unwrap())
                        }
                } else {
                    choose|trace: Seq<(Known, StackState)>|
                        {
                            &&& #[trigger] is_trace(program, chain, procedure, at, end, trace)
                            &&& 0 < trace.len() <= count - 1
                            &&& trace[0] == (found, next)
                            &&& run(
                                program,
                                chain,
                                trace.last().0,
                                procedure,
                                at,
                                end,
                                trace.last().1,
                            ) == (last_known, None::<StackState>)
                        }
                };
                assert(is_trace(program, chain, procedure, at, end, rest));
                let trace = seq![start] + rest;
                assert forall|i: int, j: int| 0 <= i && j == i + 1 && j < trace.len() implies {
                    let (known, state) = #[trigger] trace[i];
                    let (found, outcome) = run(program, chain, known, procedure, at, end, state);
                    found == (#[trigger] trace[j]).0 && outcome == Some(trace[j].1)
                } by {
                    if i > 0 {
                        assert(trace[i] == rest[i - 1] && trace[j] == rest[j - 1]);
                        assert(0 <= i - 1 && j - 1 == (i - 1) + 1 && j - 1 < rest.len());
                    }
                }
                assert(is_trace(program, chain, procedure, at, end, trace));
                if last is Some {
                    assert(trace[count as int] == rest[count - 1]);
                } else {
                    assert(trace.last() == rest.last());
                }
            },
        }
    }
}

/// The rows of a repetition are followed as often as its number says, from the state in front of it;
/// nothing is known behind it where its number is not known, or what one of the rounds leaves.
pub proof fn law_repeat(
    program: Program,
    chain: Seq<int>,
    known: Known,
    procedure: int,
    at: int,
    end: int,
    state: StackState,
)
    requires
        0 <= at < end,
        program.procedures[procedure].rows[at].code is Repeat,
    ensures
        ({
            let rows = program.procedures[procedure].rows;
            let operand = rows[at].code->Repeat_0;
            let (found, step) = element_step(program, chain, known, procedure, at, end, state);
            let (body, body_end) = first_block(rows, at, end);
            match immediate_u32(operand) {
                None => found == known && gives_up(step),
                Some(count) => {
                    ||| gives_up(step) && exists|trace: Seq<(Known, StackState)>|
                        {
                            &&& #[trigger] is_trace(
                                program,
                                chain,
                                procedure,
                                body,
                                body_end,
                                trace,
                            )
                            &&& 0 < trace.len() <= count
                            &&& trace[0] == (known, state)
                            &&& run(
                                program,
                                chain,
                                trace.last().0,
                                procedure,
                                body,
                                body_end,
                                trace.last().1,
                            ) == (found, None::<StackState>)
                        }
                    ||| step is Continue && exists|trace: Seq<(Known, StackState)>|
                        {
                            &&& #[trigger] is_trace(
                                program,
                                chain,
                                procedure,
                                body,
                                body_end,
                                trace,
                            )
                            &&& trace.len() == count + 1
                            &&& trace[0] == (known, state)
                            &&& trace[count as int].0 == found
                            &&& goes_on(step, trace[count as int].1, 0, 0, false)
                        }
                },
            }
        }),
{
    let rows = program.procedures[procedure].rows;
    let operand = rows[at].code->Repeat_0;
    let (body, body_end) = first_block(rows, at, end);
    if let Some(count) = immediate_u32(operand) {
        law_repeated(
            program,
            chain,
            known,
            procedure,
            body,
            body_end,
            count as nat,
            state,
        );
    }
}

/// A block is followed from its first row to its last one.
pub proof fn law_block(
    program: Program,
    chain: Seq<int>,
    known: Known,
    procedure: int,
    at: int,
    end: int,
    state: StackState,
)
    requires
        0 <= at < end,
        program.procedures[procedure].rows[at].code is Block,
    ensures
        ({
            let (found, step) = element_step(program, chain, known, procedure, at, end, state);
            let (after, outcome) = run(program, chain, known, procedure, at + 1, end, state);
            found == after && match outcome {
                Some(next) => goes_on(step, next, 0, 0, false),
                None => gives_up(step),
            }
        }),
{
}

proof fn lemma_nearer_end(rows: Seq<OpRow>, at: int, middle: int, end: int)
    requires
        0 <= at < middle <= end,
        middle < end ==> rows[middle].depth <= rows[at].depth,
    ensures
        at < element_end(rows, at, end) <= middle,
        element_end(rows, at, middle) == element_end(rows, at, end),
{
    law_element_end(rows, at, end);
    law_element_end(rows, at, middle);
    let far = element_end(rows, at, end);
    let near = element_end(rows, at, middle);
    if far > middle {
        assert(rows[middle].depth > rows[at].depth);
    }
    if near < far {
        assert(rows[near].depth > rows[at].depth);
    }
    if far < near {
        assert(rows[far].depth > rows[at].depth);
    }
}

/// Rows are followed one part after the other: what follows a row that is no deeper than those before
/// it is followed from the state that those leave, and not at all where that is not known.
pub proof fn law_parts_follow_each_other(
    program: Program,
    chain: Seq<int>,
    known: Known,
    procedure: int,
    at: int,
    middle: int,
    end: int,
    state: StackState,
)
    requires
        0 <= at <= middle <= end,
        middle < end ==> forall|i: int|
            at <= i < middle ==> program.procedures[procedure].rows[middle].depth <= (
            #[trigger] program.procedures[procedure].rows[i]).depth,
    ensures
        ({
            let (found, outcome) = run(program, chain, known, procedure, at, middle, state);
            run(program, chain, known, procedure, at, end, state) == match outcome {
                Some(next) => run(program, chain, found, procedure, middle, end, next),
                None => (found, None),
            }
        }),
    decreases middle - at,
{
    let rows = program.procedures[procedure].rows;
    if at < middle {
        lemma_nearer_end(rows, at, middle, end);
        let next = element_end(rows, at, end);
        let module = module_of(program, procedure);
        let range = crate::stack_effect::element_range(
            module,
            rows[at].range.start as int,
            rows[at].range.end as int,
        );
        let (found, step) = element_step(program, chain, known, procedure, at, next, state);
        match step {
            Step::Continue { state: behind, overlay } => {
                law_parts_follow_each_other(
                    program,
                    chain,
                    found.shown(module.file, range, overlay),
                    procedure,
                    next,
                    middle,
                    end,
                    behind,
                );
            },
            Step::Indeterminate { .. } => {},
        }
    }
}

proof fn lemma_nothing_to_follow(
    program: Program,
    chain: Seq<int>,
    known: Known,
    procedure: int,
    end: int,
    state: StackState,
)
    ensures
        run(program, chain, known, procedure, end, end, state) == (known, Some(state)),
{
}

/// A single element is followed by its own step: what it shows, and what it warns of, is put down for
/// the file of its module, at its range.
pub proof fn law_element_is_followed(
    program: Program,
    chain: Seq<int>,
    known: Known,
    procedure: int,
    at: int,
    end: int,
    state: StackState,
)
    requires
        0 <= at < end,
        element_end(program.procedures[procedure].rows, at, end) == end,
    ensures
        ({
            let row = program.procedures[procedure].rows[at];
            let module = program.modules[program.procedures[procedure].module];
            let file = module.file;
            let (found, step) = element_step(program, chain, known, procedure, at, end, state);
            let (after, outcome) = run(program, chain, known, procedure, at, end, state);
            let (overlay, warning) = match step {
                Step::Continue { overlay, .. } => (overlay, None),
                Step::Indeterminate { overlay, warning } => (overlay, warning),
            };
            &&& outcome == match step {
                Step::Continue { state, .. } => Some(state),
                Step::Indeterminate { .. } => None,
            }
            &&& after.effects == found.effects
            &&& 0 <= file < found.overlays.len() ==> {
                &&& after.overlays[file].len() == found.overlays[file].len() + 1
                &&& after.overlays[file].last().overlay == overlay
                &&& after.overlays[file].last().range.start == position_at(
                    module.bytes,
                    row.range.start as int,
                )
                &&& after.overlays[file].last().range.end == position_at(
                    module.bytes,
                    row.range.end as int,
                )
                &&& after.overlays[file].drop_last() == found.overlays[file]
            }
            &&& 0 <= file < found.overlays.len() ==> forall|other: int|
                0 <= other < found.overlays.len() && other != file
                    ==> #[trigger] after.overlays[other] == found.overlays[other]
            &&& warning is None ==> after.findings == found.findings
            &&& warning is Some && 0 <= file < found.findings.len() ==> {
                &&& after.findings[file].len() == found.findings[file].len() + 1
                &&& Some(after.findings[file].last()) == warning
                &&& after.findings[file].drop_last() == found.findings[file]
            }
            &&& 0 <= file < found.findings.len() ==> forall|other: int|
                0 <= other < found.findings.len() && other != file
                    ==> #[trigger] after.findings[other] == found.findings[other]
        }),
{
    let row = program.procedures[procedure].rows[at];
    let module = module_of(program, procedure);
    let file = module.file;
    let (found, step) = element_step(program, chain, known, procedure, at, end, state);
    let (after, outcome) = run(program, chain, known, procedure, at, end, state);
    if let Step::Continue { state: behind, overlay } = step {
        let range = crate::stack_effect::element_range(
            module,
            row.range.start as int,
            row.range.end as int,
        );
        lemma_nothing_to_follow(
            program,
            chain,
            found.shown(file, range, overlay),
            procedure,
            end,
            behind,
        );
    }
    if 0 <= file < found.overlays.len() {
        assert(after.overlays[file].drop_last() =~= found.overlays[file]);
    }
    if 0 <= file < found.findings.len() && step is Indeterminate && step->warning is Some {
        assert(after.findings[file].drop_last() =~= found.findings[file]);
    }
}

/// Whether a body leaves results and, below them, the stack that stood there from an input on.
pub open spec fn leaves(state: StackState, required: usize, results: Seq<Val>) -> bool {
    &&& required == state.highest_input_touched
    &&& results.len() <= state.stack.len()
    &&& forall|i: int| 0 <= i < results.len() ==> #[trigger] state.stack[i] == results[i]
    &&& forall|i: int|
        results.len() <= i < state.stack.len() ==> match #[trigger] state.stack[i] {
            Val::Input(index) => index as int == required + (i - results.len()),
            _ => false,
        }
    &&& forall|i: int| 0 <= i < results.len() ==> #[trigger] results[i] != Val::Input(required)
}

proof fn lemma_tail_start(stack: Seq<Val>, required: usize, at: int)
    requires
        0 <= at <= stack.len(),
    ensures
        at <= tail_start(stack, required, at) <= stack.len(),
        forall|i: int|
            at <= i < tail_start(stack, required, at) ==> #[trigger] stack[i] != Val::Input(
                required,
            ),
        tail_start(stack, required, at) < stack.len() ==> stack[tail_start(stack, required, at)]
            == Val::Input(required),
    decreases stack.len() - at,
{
    if at < stack.len() && stack[at] != Val::Input(required) {
        lemma_tail_start(stack, required, at + 1);
    }
}

/// The effect of a body is known exactly where it is known what the body leaves, and where that is a
/// number of results on top of the inputs that the body did not use, from the first of those on. It
/// then takes the inputs that were used and gives those results.
pub proof fn law_body_summary(outcome: Option<StackState>, required: usize, results: Seq<Val>)
    ensures
        body_summary(outcome) == (Effect::Concrete { required, results }) <==> outcome is Some
            && leaves(outcome.unwrap(), required, results),
        body_summary(outcome) is Concrete || body_summary(outcome) is Indeterminate,
{
    if let Some(state) = outcome {
        let used = state.highest_input_touched;
        let tail = tail_start(state.stack, used, 0);
        lemma_tail_start(state.stack, used, 0);
        let given = state.stack.take(tail);
        if tail_untouched(state.stack, used, tail) {
            assert(leaves(state, used, given));
        }
        if leaves(state, required, results) {
            if tail < results.len() {
                assert(state.stack[tail] == results[tail]);
            }
            if results.len() < tail {
                assert(state.stack[results.len() as int] == Val::Input(required));
            }
            assert(results.len() == tail);
            assert(results =~= given);
            assert(tail_untouched(state.stack, used, tail));
        }
    }
}

proof fn lemma_start_inputs(count: nat)
    requires
        count < usize::MAX,
    ensures
        StackState::start().popped_many(count).stack.len() == 0,
        StackState::start().popped_many(count).next_input == count,
        StackState::start().top_many(count) == Seq::new(count, |i: int| Val::Input(i as usize)),
    decreases count,
{
    let inputs = Seq::new(count, |i: int| Val::Input(i as usize));
    if count == 0 {
        assert(inputs =~= StackState::start().top_many(0));
    } else {
        lemma_start_inputs((count - 1) as nat);
        let before = StackState::start().popped_many((count - 1) as nat);
        reveal_with_fuel(StackState::deepened, 2);
        assert(before.deepened(1).stack =~= seq![Val::Input(before.next_input)]);
        assert(StackState::start().top_many(count) =~= inputs);
    }
}

/// Calling a body on a stack of which nothing is known gives the results that following the body gave.
pub proof fn law_calls_give_what_bodies_leave(required: usize, results: Seq<Val>)
    requires
        required < usize::MAX,
        forall|i: int|
            0 <= i < results.len() ==> match #[trigger] results[i] {
                Val::Input(index) => index < required,
                _ => true,
            },
    ensures
        called(StackState::start(), Effect::Concrete { required, results }).stack == results,
{
    lemma_start_inputs(required as nat);
    let behind = called(StackState::start(), Effect::Concrete { required, results });
    assert(behind.stack =~= results);
}

/// A call gives the elements that the effect names in front of what is left of the stack: elements of
/// which nothing is known where only counts are known, and else the results, with each input replaced
/// by what the caller has in its place.
pub proof fn law_called(state: StackState, effect: Effect)
    ensures
        match effect {
            Effect::Counts(signature) => {
                let behind = called(state, effect);
                &&& behind.stack.len() == signature.results + state.popped_many(
                    signature.args as nat,
                ).stack.len()
                &&& forall|i: int|
                    0 <= i < signature.results ==> #[trigger] behind.stack[i] == Val::Unknown
                &&& behind.stack.skip(signature.results as int) == state.popped_many(
                    signature.args as nat,
                ).stack
                &&& behind.memory == state.memory
            },
            Effect::Concrete { required, results } => {
                let behind = called(state, effect);
                let rest = state.popped_many(required as nat);
                &&& behind.stack.len() == results.len() + rest.stack.len()
                &&& behind.stack.skip(results.len() as int) == rest.stack
                &&& forall|i: int|
                    0 <= i < results.len() ==> match results[i] {
                        Val::Input(index) => #[trigger] behind.stack[i] == if index < required {
                            state.top_many(required as nat)[index as int]
                        } else {
                            Val::Unknown
                        },
                        _ => behind.stack[i] == results[i],
                    }
                &&& behind.memory == state.memory
            },
            Effect::Indeterminate => called(state, effect) == state,
        },
{
    match effect {
        Effect::Counts(signature) => {
            crate::stack_laws::law_depth_follows_counts(
                state,
                signature.args as nat,
                crate::stack_state::unknowns(signature.results as nat),
            );
            assert(called(state, effect).stack.skip(signature.results as int)
                =~= state.popped_many(signature.args as nat).stack);
        },
        Effect::Concrete { required, results } => {
            crate::stack_laws::law_depth_follows_counts(state, required as nat, results);
            assert(called(state, effect).stack.skip(results.len() as int) =~= state.popped_many(
                required as nat,
            ).stack);
        },
        Effect::Indeterminate => {},
    }
}

/// Whether a procedure is the last one of a list with a path.
pub open spec fn is_last_procedure(procedures: Seq<Procedure>, path: Seq<char>, p: int) -> bool {
    &&& 0 <= p < procedures.len()
    &&& procedures[p].path == path
    &&& forall|q: int| p < q < procedures.len() ==> (#[trigger] procedures[q]).path != path
}

/// Whether a callable item is the last one of a list with a path.
pub open spec fn is_last_callable(callables: Seq<Callable>, path: Seq<char>, c: int) -> bool {
    &&& 0 <= c < callables.len()
    &&& callables[c].path == path
    &&& forall|d: int| c < d < callables.len() ==> (#[trigger] callables[d]).path != path
}

proof fn lemma_procedure_named(procedures: Seq<Procedure>, path: Seq<char>, count: nat)
    requires
        count <= procedures.len(),
    ensures
        match procedure_named(procedures, path, count) {
            Some(p) => 0 <= p < count && procedures[p].path == path && forall|q: int|
                p < q < count ==> (#[trigger] procedures[q]).path != path,
            None => forall|q: int| 0 <= q < count ==> (#[trigger] procedures[q]).path != path,
        },
    decreases count,
{
    if count > 0 && procedures[count - 1].path != path {
        lemma_procedure_named(procedures, path, (count - 1) as nat);
    }
}

proof fn lemma_callable_named(callables: Seq<Callable>, path: Seq<char>, count: nat)
    requires
        count <= callables.len(),
    ensures
        match callable_named(callables, path, count) {
            Some(callable) => exists|c: int|
                0 <= c < count && #[trigger] callables[c] == callable && callable.path == path
                    && forall|d: int| c < d < count ==> (#[trigger] callables[d]).path != path,
            None => forall|d: int| 0 <= d < count ==> (#[trigger] callables[d]).path != path,
        },
    decreases count,
{
    if count > 0 {
        if callables[count - 1].path == path {
            assert(callables[count - 1] == callable_named(callables, path, count).unwrap());
        } else {
            lemma_callable_named(callables, path, (count - 1) as nat);
        }
    }
}

proof fn lemma_last_procedure(procedures: Seq<Procedure>, path: Seq<char>, p: int)
    ensures
        is_last_procedure(procedures, path, p) ==> procedure_named(
            procedures,
            path,
            procedures.len(),
        ) == Some(p),
        (forall|q: int| 0 <= q < procedures.len() ==> (#[trigger] procedures[q]).path != path)
            ==> procedure_named(procedures, path, procedures.len()) is None,
{
    lemma_procedure_named(procedures, path, procedures.len());
    if is_last_procedure(procedures, path, p) {
        let found = procedure_named(procedures, path, procedures.len());
        assert(procedures[p].path == path);
        assert(found is Some);
        let q = found.unwrap();
        if p < q {
            assert(procedures[q].path != path);
        }
        if q < p {
            assert(procedures[p].path != path);
        }
    }
}

proof fn lemma_last_callable(callables: Seq<Callable>, path: Seq<char>, c: int)
    ensures
        is_last_callable(callables, path, c) ==> callable_named(callables, path, callables.len())
            == Some(callables[c]),
        (forall|d: int| 0 <= d < callables.len() ==> (#[trigger] callables[d]).path != path)
            ==> callable_named(callables, path, callables.len()) is None,
{
    lemma_callable_named(callables, path, callables.len());
    if is_last_callable(callables, path, c) {
        assert(callables[c].path == path);
        let found = callable_named(callables, path, callables.len()).unwrap();
        let d = choose|d: int|
            0 <= d < callables.len() && #[trigger] callables[d] == found && found.path == path
                && forall|e: int| d < e < callables.len() ==> (#[trigger] callables[e]).path != path;
        if c < d {
            assert(callables[d].path != path);
        }
        if d < c {
            assert(callables[c].path != path);
        }
    }
}

/// What a call does is told by the signature of the procedure that it names, or else by its body.
/// Where no body is known, it is told by the signature of the item that it names; without one nothing
/// is known. A signature is believed without following the body.
pub proof fn law_call_effect(
    program: Program,
    chain: Seq<int>,
    known: Known,
    path: Seq<char>,
    p: int,
    c: int,
)
    ensures
        is_last_procedure(program.procedures, path, p) ==> call_effect(program, chain, known, path)
            == match program.procedures[p].signature {
            Some(signature) => (known, Effect::Counts(signature)),
            None => body_effect(program, chain, known, p),
        },
        (forall|q: int|
            0 <= q < program.procedures.len() ==> (#[trigger] program.procedures[q]).path != path)
            && is_last_callable(program.callables, path, c) ==> call_effect(
            program,
            chain,
            known,
            path,
        ) == match program.callables[c].signature {
            Some(signature) => (known, Effect::Counts(signature)),
            None => (known, Effect::Indeterminate),
        },
        (forall|q: int|
            0 <= q < program.procedures.len() ==> (#[trigger] program.procedures[q]).path != path)
            && (forall|d: int|
            0 <= d < program.callables.len() ==> (#[trigger] program.callables[d]).path != path)
            ==> call_effect(program, chain, known, path) == (known, Effect::Indeterminate),
{
    lemma_last_procedure(program.procedures, path, p);
    lemma_last_callable(program.callables, path, c);
}

/// A call in one of its three forms does what the procedure does that its target names. Where the
/// target names none, or nothing is known of the procedure, a warning is given at the target.
pub proof fn law_calls(
    program: Program,
    chain: Seq<int>,
    known: Known,
    procedure: int,
    target: InvocationTarget,
    state: StackState,
)
    ensures
        ({
            let (found, step) = code_step(
                program,
                chain,
                known,
                procedure,
                Instruction::Exec(target),
                state,
            );
            let module = program.modules[program.procedures[procedure].module];
            let parts = target_parts(target);
            &&& code_step(program, chain, known, procedure, Instruction::Call(target), state) == (
                found,
                step,
            )
            &&& code_step(program, chain, known, procedure, Instruction::SysCall(target), state)
                == (found, step)
            &&& match target_path(program, procedure, target) {
                None => found == known && warns_at(step, module, parts.start, parts.end),
                Some(path) => {
                    let (after, effect) = call_effect(program, chain, known, path);
                    found == after && match effect {
                        Effect::Counts(signature) => goes_on(
                            step,
                            called(state, effect),
                            signature.args as nat,
                            signature.results as nat,
                            false,
                        ),
                        Effect::Concrete { required, results } => goes_on(
                            step,
                            called(state, effect),
                            required as nat,
                            results.len(),
                            true,
                        ),
                        Effect::Indeterminate => warns_at(step, module, parts.start, parts.end),
                    }
                },
            }
        }),
{
}

/// A reference to a procedure puts four elements on top that name the procedure, in their order, or
/// four of which nothing is known where the target names none.
pub proof fn law_procref(
    program: Program,
    chain: Seq<int>,
    known: Known,
    procedure: int,
    target: InvocationTarget,
    state: StackState,
)
    ensures
        ({
            let (found, step) = code_step(
                program,
                chain,
                known,
                procedure,
                Instruction::ProcRef(target),
                state,
            );
            &&& found == known
            &&& step is Continue
            &&& goes_on(step, step->state, 0, 4, false)
            &&& step->state.stack.len() == state.stack.len() + 4
            &&& step->state.stack.skip(4) == state.stack
            &&& step->state.memory == state.memory
            &&& forall|i: int|
                0 <= i < 4 ==> #[trigger] step->state.stack[i] == match target_path(
                    program,
                    procedure,
                    target,
                ) {
                    Some(path) => Val::ProcRef { path, index: i as u8 },
                    None => Val::Unknown,
                }
        }),
{
    let (found, step) = code_step(
        program,
        chain,
        known,
        procedure,
        Instruction::ProcRef(target),
        state,
    );
    assert(step->state.stack.skip(4) =~= state.stack);
}

/// Whether memory holds all four elements of a procedure's name from an address on, in their order.
pub open spec fn holds_name(state: StackState, address: u32, path: Seq<char>) -> bool {
    forall|i: int|
        0 <= i < 4 ==> state.memory.contains_key(#[trigger] address_at(address, i))
            && state.memory[address_at(address, i)] == (Val::ProcRef { path, index: i as u8 })
}

/// A call through an address does what the procedure does whose name memory holds there, behind the
/// address; where that is not known, or nothing is known of that procedure, nothing is known behind
/// the call. Both forms do the same.
pub proof fn law_dynamic_calls(
    program: Program,
    chain: Seq<int>,
    known: Known,
    procedure: int,
    state: StackState,
    path: Seq<char>,
    address: u32,
)
    requires
        state.top() == Val::Address(address) || state.top() == Val::Felt(address as u64),
        holds_name(state.popped(), address, path),
    ensures
        ({
            let (found, step) = code_step(
                program,
                chain,
                known,
                procedure,
                Instruction::DynExec,
                state,
            );
            let (other, again) = code_step(
                program,
                chain,
                known,
                procedure,
                Instruction::DynCall,
                state,
            );
            let (after, effect) = call_effect(program, chain, known, path);
            let rest = state.popped();
            &&& found == after
            &&& other == after
            &&& match effect {
                Effect::Counts(signature) => {
                    &&& goes_on(
                        step,
                        called(rest, effect),
                        signature.args as nat + 1,
                        signature.results as nat,
                        true,
                    ) || signature.args == usize::MAX
                    &&& again is Continue && again->state == called(rest, effect)
                },
                Effect::Concrete { required, results } => {
                    &&& goes_on(
                        step,
                        called(rest, effect),
                        required as nat + 1,
                        results.len(),
                        true,
                    ) || required == usize::MAX
                    &&& again is Continue && again->state == called(rest, effect)
                },
                Effect::Indeterminate => gives_up(step) && gives_up(again),
            }
        }),
{
    let rest = state.popped();
    assert(address_at(address, 0) == address);
    assert(address_of(state.top()) == Some(address));
    assert(procedure_at(rest.memory, address) == Some(path));
}

/// A call through an address that is not known, or at which memory does not hold the name of a
/// procedure, leaves nothing known, and reports nothing.
pub proof fn law_untraced_calls(
    program: Program,
    chain: Seq<int>,
    known: Known,
    procedure: int,
    state: StackState,
)
    requires
        forall|address: u32, path: Seq<char>|
            state.top() == Val::Address(address) || state.top() == Val::Felt(address as u64)
                ==> !#[trigger] holds_name(state.popped(), address, path),
    ensures
        code_step(program, chain, known, procedure, Instruction::DynExec, state).0 == known,
        code_step(program, chain, known, procedure, Instruction::DynCall, state).0 == known,
        gives_up(code_step(program, chain, known, procedure, Instruction::DynExec, state).1),
        gives_up(code_step(program, chain, known, procedure, Instruction::DynCall, state).1),
{
    if let Some(address) = address_of(state.top()) {
        if let Some(path) = procedure_at(state.popped().memory, address) {
            assert(holds_name(state.popped(), address, path));
        }
    }
}

/// Whether a reference is the last one of a module at a range.
pub open spec fn is_last_reference(references: Seq<Resolved>, range: Range, r: int) -> bool {
    &&& 0 <= r < references.len()
    &&& references[r].range == range
    &&& forall|s: int| r < s < references.len() ==> (#[trigger] references[s]).range != range
}

proof fn lemma_reference_at(references: Seq<Resolved>, range: Range, count: nat)
    requires
        count <= references.len(),
    ensures
        match reference_at(references, range, count) {
            Some(reference) => exists|r: int|
                0 <= r < count && #[trigger] references[r] == reference && reference.range == range
                    && forall|s: int| r < s < count ==> (#[trigger] references[s]).range != range,
            None => forall|s: int| 0 <= s < count ==> (#[trigger] references[s]).range != range,
        },
    decreases count,
{
    if count > 0 {
        if references[count - 1].range == range {
            assert(references[count - 1] == reference_at(references, range, count).unwrap());
        } else {
            lemma_reference_at(references, range, (count - 1) as nat);
        }
    }
}

proof fn lemma_callable_at(callables: Seq<Callable>, index: usize, count: nat)
    requires
        count <= callables.len(),
    ensures
        match callable_at(callables, index, count) {
            Some(callable) => callable.index == index && exists|c: int|
                0 <= c < count && #[trigger] callables[c] == callable,
            None => forall|d: int| 0 <= d < count ==> (#[trigger] callables[d]).index != index,
        },
    decreases count,
{
    if count > 0 {
        if callables[count - 1].index == index {
            assert(callables[count - 1] == callable_at(callables, index, count).unwrap());
        } else {
            lemma_callable_at(callables, index, (count - 1) as nat);
        }
    }
}

/// A call's target names the procedure that the reference at its range was resolved to, where that is
/// a single procedure; otherwise it names what is written there, a bare name within the module.
pub proof fn law_target_path(program: Program, procedure: int, target: InvocationTarget, r: int, c: int)
    requires
        forall|i: int, j: int|
            0 <= i < j < program.callables.len() ==> (#[trigger] program.callables[i]).index
                != (#[trigger] program.callables[j]).index,
    ensures
        ({
            let module = program.modules[program.procedures[procedure].module];
            let parts = target_parts(target);
            let range = Range {
                start: position_at(module.bytes, parts.start),
                end: position_at(module.bytes, parts.end),
            };
            let written = match parts.name {
                crate::assembly::TargetLabel::Root => None,
                crate::assembly::TargetLabel::Symbol(name) => Some(module.path + "::"@ + name),
                crate::assembly::TargetLabel::Path(path) => Some(path),
            };
            &&& is_last_reference(module.references, range, r) && 0 <= c < program.callables.len()
                && module.references[r].kind is Invoke && module.references[r].definitions == seq![
                program.callables[c].index,
            ] ==> target_path(program, procedure, target) == if program.callables[c].kind is Procedure {
                Some(program.callables[c].path)
            } else {
                written
            }
            &&& is_last_reference(module.references, range, r) && (
            !(module.references[r].kind is Invoke) || module.references[r].definitions.len() != 1)
                ==> target_path(program, procedure, target) == written
            &&& (forall|s: int|
                0 <= s < module.references.len() ==> (#[trigger] module.references[s]).range
                    != range) ==> target_path(program, procedure, target) == written
        }),
{
    let module = module_of(program, procedure);
    let parts = target_parts(target);
    let range = crate::stack_effect::element_range(module, parts.start, parts.end);
    let references = module.references;
    lemma_reference_at(references, range, references.len());
    if is_last_reference(references, range, r) {
        assert(references[r].range == range);
        let found = reference_at(references, range, references.len()).unwrap();
        let s = choose|s: int|
            0 <= s < references.len() && #[trigger] references[s] == found && found.range == range
                && forall|t: int| s < t < references.len() ==> (#[trigger] references[t]).range != range;
        if s < r {
            assert(references[r].range != range);
        }
        if r < s {
            assert(references[s].range != range);
        }
        if 0 <= c < program.callables.len() && references[r].definitions == seq![
            program.callables[c].index,
        ] {
            let index = program.callables[c].index;
            assert(references[r].definitions[0] == index);
            lemma_callable_at(program.callables, index, program.callables.len());
            assert(callable_at(program.callables, index, program.callables.len()) is Some);
            let callable = callable_at(program.callables, index, program.callables.len()).unwrap();
            let d = choose|d: int|
                0 <= d < program.callables.len() && #[trigger] program.callables[d] == callable;
            if c < d {
                assert(program.callables[c].index != program.callables[d].index);
            }
            if d < c {
                assert(program.callables[d].index != program.callables[c].index);
            }
        }
    }
}

/// What is shown of an effect tells both counts, in the text and in the label, with a singular where it
/// is one; where nothing is known, the text tells why.
pub proof fn law_overlays(taken: nat, given: nat, detail: Seq<char>, shown: bool)
    ensures
        ({
            let overlay = crate::stack_step::effect_overlay(taken, given, detail, shown);
            let doubt = crate::stack_step::undetermined_overlay(detail);
            &&& overlay.show_inlay == shown
            &&& tells_counts(overlay, taken, given)
            &&& taken == 1 && given == 1 ==> overlay.hover_markdown
                == "**Stack Effect**\n\nConsumes `"@ + decimal(taken) + "` "@ + "felt"@
                + " and produces `"@ + decimal(given) + "` "@ + "felt"@ + ".\n\n"@ + detail
            &&& taken != 1 && given == 1 ==> overlay.hover_markdown
                == "**Stack Effect**\n\nConsumes `"@ + decimal(taken) + "` "@ + "felts"@
                + " and produces `"@ + decimal(given) + "` "@ + "felt"@ + ".\n\n"@ + detail
            &&& taken == 1 && given != 1 ==> overlay.hover_markdown
                == "**Stack Effect**\n\nConsumes `"@ + decimal(taken) + "` "@ + "felt"@
                + " and produces `"@ + decimal(given) + "` "@ + "felts"@ + ".\n\n"@ + detail
            &&& taken != 1 && given != 1 ==> overlay.hover_markdown
                == "**Stack Effect**\n\nConsumes `"@ + decimal(taken) + "` "@ + "felts"@
                + " and produces `"@ + decimal(given) + "` "@ + "felts"@ + ".\n\n"@ + detail
            &&& tells_doubt(doubt)
            &&& doubt.hover_markdown == "**Stack Effect**\n\n"@ + detail
        }),
{
}

/// The effect of a body that is not known and is not being followed is found by following it, from its
/// first element, on a stack of which nothing is known; it is known from then on.
pub proof fn law_body_is_followed(program: Program, chain: Seq<int>, known: Known, procedure: int)
    requires
        known.effects[procedure] is None,
        !chain.contains(procedure),
        chain.len() < program.procedures.len(),
        0 <= procedure < run(
            program,
            chain.push(procedure),
            known,
            procedure,
            1,
            program.procedures[procedure].rows.len() as int,
            StackState::start(),
        ).0.effects.len(),
    ensures
        ({
            let (after, effect) = body_effect(program, chain, known, procedure);
            let (found, outcome) = run(
                program,
                chain.push(procedure),
                known,
                procedure,
                1,
                program.procedures[procedure].rows.len() as int,
                StackState::start(),
            );
            &&& effect == body_summary(outcome)
            &&& after.effects[procedure] == Some(effect)
            &&& forall|other: int|
                0 <= other < found.effects.len() && other != procedure
                    ==> #[trigger] after.effects[other] == found.effects[other]
            &&& after.findings == found.findings
            &&& after.overlays == found.overlays
            &&& StackState::start().stack.len() == 0
            &&& StackState::start().next_input == 0
            &&& StackState::start().highest_input_touched == 0
            &&& forall|address: u32| #[trigger]
                StackState::start().loaded(address) == Val::Unknown
        }),
{
}

/// How many of the first marks open an element.
pub open spec fn opened(marks: Seq<OpMark>, count: nat) -> nat
    decreases count,
{
    if count == 0 {
        0
    } else {
        opened(marks, (count - 1) as nat) + if marks[count - 1] is Open {
            1nat
        } else {
            0nat
        }
    }
}

/// Whether no more elements are closed than were opened, at any place.
pub open spec fn are_nested(marks: Seq<OpMark>, count: int) -> bool {
    forall|k: int| 0 <= k <= count ==> k <= 2 * #[trigger] opened(marks, k as nat)
}

proof fn lemma_open_elements(marks: Seq<OpMark>, count: nat)
    requires
        count <= marks.len(),
        are_nested(marks, count as int),
    ensures
        crate::assembly::open_elements(marks, count) == 2 * opened(marks, count) - count,
    decreases count,
{
    if count > 0 {
        assert(are_nested(marks, count - 1));
        lemma_open_elements(marks, (count - 1) as nat);
        let whole = count as int;
        assert(whole <= 2 * opened(marks, whole as nat));
    }
}

/// The marks that open an element.
pub open spec fn opening(marks: Seq<OpMark>) -> spec_fn(int) -> bool {
    |i: int| marks[i] is Open
}

/// Whether a row is the element that a mark opens, with the number of those that were open there.
pub open spec fn is_row_at(marks: Seq<OpMark>, at: int, row: OpRow) -> bool {
    &&& marks[at] is Open
    &&& row.range == marks[at]->range
    &&& row.code == marks[at]->code
    &&& row.depth == 2 * opened(marks, at as nat) - at
}

proof fn lemma_marked_rows(marks: Seq<OpMark>, count: nat) -> (list: Seq<int>)
    requires
        count <= marks.len() <= usize::MAX,
        are_nested(marks, count as int),
    ensures
        picks(list, count as int, opening(marks)),
        crate::assembly::marked_rows(marks, count).len() == list.len(),
        forall|k: int|
            0 <= k < list.len() ==> is_row_at(
                marks,
                #[trigger] list[k],
                crate::assembly::marked_rows(marks, count)[k],
            ),
    decreases count,
{
    if count == 0 {
        Seq::empty()
    } else {
        let last = count - 1;
        assert(are_nested(marks, last));
        let list = lemma_marked_rows(marks, last as nat);
        let wanted = opening(marks);
        lemma_picks(list, last, wanted);
        lemma_open_elements(marks, last as nat);
        lemma_opened_bound(marks, last as nat);
        assert(wanted(last) == (marks[last] is Open));
        if wanted(last) {
            let more = list.push(last);
            let before = crate::assembly::marked_rows(marks, last as nat);
            let after = crate::assembly::marked_rows(marks, count);
            assert forall|k: int| 0 <= k < more.len() implies is_row_at(
                marks,
                #[trigger] more[k],
                after[k],
            ) by {
                if k < list.len() {
                    assert(more[k] == list[k]);
                    assert(after[k] == before[k]);
                }
            }
            more
        } else {
            list
        }
    }
}

proof fn lemma_opened_bound(marks: Seq<OpMark>, count: nat)
    ensures
        opened(marks, count) <= count,
    decreases count,
{
    if count > 0 {
        lemma_opened_bound(marks, (count - 1) as nat);
    }
}

/// The rows of a body are the elements that its listing opens, each with its range and code, and as
/// deep as elements were open and not yet closed in front of it.
pub proof fn law_rows(marks: Seq<OpMark>)
    requires
        marks.len() <= usize::MAX,
        are_nested(marks, marks.len() as int),
    ensures
        exists|list: Seq<int>|
            {
                &&& #[trigger] picks(list, marks.len() as int, opening(marks))
                &&& crate::assembly::marked_rows(marks, marks.len()).len() == list.len()
                &&& forall|k: int|
                    0 <= k < list.len() ==> is_row_at(
                        marks,
                        #[trigger] list[k],
                        crate::assembly::marked_rows(marks, marks.len())[k],
                    )
            },
{
    let list = lemma_marked_rows(marks, marks.len());
    assert(picks(list, marks.len() as int, opening(marks)));
}

/// Whether a step goes on, and what is shown of it tells the counts and a detail.
pub open spec fn says(step: Step, taken: nat, given: nat, detail: Seq<char>) -> bool {
    step is Continue && step->Continue_overlay.hover_markdown
        == crate::stack_step::effect_overlay(taken, given, detail, true).hover_markdown
}

/// Whether a step ends what is known, and what is shown of it, and reported, is a message.
pub open spec fn doubts(step: Step, message: Seq<char>) -> bool {
    &&& step is Indeterminate
    &&& step->Indeterminate_overlay.hover_markdown == "**Stack Effect**\n\n"@ + message
    &&& step->warning is Some ==> step->warning.unwrap().message == message
}

/// What is said of conditionals, loops, repetitions and blocks.
pub proof fn law_flow_texts(
    program: Program,
    chain: Seq<int>,
    known: Known,
    procedure: int,
    at: int,
    end: int,
    state: StackState,
)
    requires
        0 <= at < end,
    ensures
        ({
            let code = program.procedures[procedure].rows[at].code;
            let step = element_step(program, chain, known, procedure, at, end, state).1;
            let warned = step is Indeterminate && step->warning is Some;
            &&& code is While && step is Continue && state.top() == Val::Felt(0) ==> says(
                step,
                1,
                0,
                "loop skipped on known `false`"@,
            )
            &&& code is While && step is Continue && state.top() != Val::Felt(0) ==> says(
                step,
                1,
                0,
                "balanced loop"@,
            )
            &&& code is While && warned ==> doubts(
                step,
                "loop body does not preserve the carried stack state; stack effects are undetermined after this `while.true`"@,
            )
            &&& code is While && step is Indeterminate && !warned ==> doubts(
                step,
                "stack effect undetermined after `while.true`"@,
            )
            &&& code is If && step is Continue ==> says(
                step,
                1,
                0,
                match state.top() {
                    Val::Felt(1) => "branch on known `true`"@,
                    Val::Felt(0) => "branch on known `false`"@,
                    _ => "balanced conditional"@,
                },
            )
            &&& code is If && warned ==> doubts(
                step,
                "conditional branches leave different stack states; stack effects are undetermined after this `if.true`"@,
            )
            &&& code is If && step is Indeterminate && !warned ==> doubts(
                step,
                "stack effect undetermined after `if.true`"@,
            )
            &&& code is Block && step is Continue ==> says(step, 0, 0, "block"@)
            &&& code is Block && step is Indeterminate ==> doubts(
                step,
                "stack effect undetermined after block"@,
            )
            &&& code is Repeat && step is Continue ==> immediate_u32(code->Repeat_0) is Some && says(
                step,
                0,
                0,
                "repeat."@ + decimal(immediate_u32(code->Repeat_0).unwrap() as nat),
            )
            &&& code is Repeat && step is Indeterminate ==> doubts(
                step,
                "stack effect undetermined after `repeat`"@,
            )
        }),
{
}

/// What is said of calls: the procedure that is called, and how its effect is known, or what is not
/// known of it.
pub proof fn law_call_texts(
    program: Program,
    chain: Seq<int>,
    known: Known,
    procedure: int,
    target: InvocationTarget,
    state: StackState,
)
    ensures
        ({
            let step = code_step(
                program,
                chain,
                known,
                procedure,
                Instruction::Exec(target),
                state,
            ).1;
            let path = target_path(program, procedure, target);
            &&& path is None ==> doubts(
                step,
                "callee stack effects could not be resolved; stack effects are undetermined after this call"@,
            )
            &&& path is Some ==> match call_effect(program, chain, known, path.unwrap()).1 {
                Effect::Counts(signature) => says(
                    step,
                    signature.args as nat,
                    signature.results as nat,
                    "resolved call `"@ + path.unwrap() + "`"@,
                ),
                Effect::Concrete { required, results } => says(
                    step,
                    required as nat,
                    results.len(),
                    "resolved call `"@ + path.unwrap() + "` from source body"@,
                ),
                Effect::Indeterminate => doubts(
                    step,
                    "callee stack effects are indeterminate; stack effects are undetermined after this call"@,
                ),
            }
        }),
{
}

} // verus!
