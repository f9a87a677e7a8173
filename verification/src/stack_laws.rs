//! What holds of symbolic stacks and of the stack analysis as a whole.
use miden_assembly_syntax::ast::Instruction;
use vstd::prelude::*;
use crate::assembly::{immediate_u32, OpCode};
use crate::document::Finding;
use crate::position::Range;
use crate::stack_effect::{body_effect, body_summary, call_effect, called, code_step, given, taken, element_end,
    element_step, first_block, followed_body, module_of, procedure_named, run, run_all, run_repeatedly,
    second_block, target_path, Effect, Known, Program};
use crate::stack_state::{StackState, Val};
use crate::stack_step::{address_at, generic_outputs, move_down_shape, move_up_shape, stored_all,
    swap_shape, Overlay, Shape, Step};

verus! {

/// What is put on top of the stack is what is taken off next, and taking it off leaves the stack as
/// it was.
pub proof fn law_pop_undoes_push(state: StackState, value: Val)
    ensures
        state.pushed(value).top() == value,
        state.pushed(value).popped().stack == state.stack,
        state.pushed(value).popped().memory == state.memory,
        state.pushed(value).popped().next_input == state.next_input,
{
    assert((seq![value] + state.stack).skip(1) =~= state.stack);
}

/// What was written to an address is read there, and nothing else has changed.
pub proof fn law_load_reads_store(state: StackState, address: u32, value: Val, other: u32)
    ensures
        state.stored(address, value).loaded(address) == value,
        other != address ==> state.stored(address, value).loaded(other) == state.loaded(other),
        state.stored(address, value).stack == state.stack,
        state.forgotten().loaded(other) == Val::Unknown,
{
}

/// A word that was written to an address is read there element by element.
pub proof fn law_load_reads_stored_word(state: StackState, base: u32, values: Seq<Val>, i: int)
    requires
        0 <= i < values.len() <= 4,
    ensures
        stored_all(state, base, values).loaded(address_at(base, i)) == values[i],
    decreases values.len(),
{
    let last = values.len() - 1;
    if i < last {
        law_load_reads_stored_word(state, base, values.drop_last(), i);
        assert(address_at(base, i) != address_at(base, last));
    }
}

/// The elements that a rearrangement without unknown elements puts on top.
pub open spec fn rearranged(shape: Shape, values: Seq<Val>) -> Seq<Val> {
    match shape {
        Shape::Transform { pushed, preserved, .. } => generic_outputs(values, pushed, preserved),
        Shape::Unsupported => values,
    }
}

/// Exchanging the top with an element twice leaves everything where it was.
pub proof fn law_swap_undoes_itself(n: nat, values: Seq<Val>)
    requires
        values.len() == n + 1,
    ensures
        rearranged(swap_shape(n), rearranged(swap_shape(n), values)) == values,
{
    assert(rearranged(swap_shape(n), rearranged(swap_shape(n), values)) =~= values);
}

/// Moving an element to the top and the top back down leaves everything where it was, in either
/// order.
pub proof fn law_moves_undo_each_other(n: nat, values: Seq<Val>)
    requires
        values.len() == n + 1,
    ensures
        rearranged(move_down_shape(n), rearranged(move_up_shape(n), values)) == values,
        rearranged(move_up_shape(n), rearranged(move_down_shape(n), values)) == values,
{
    assert(rearranged(move_down_shape(n), rearranged(move_up_shape(n), values)) =~= values);
    assert(rearranged(move_up_shape(n), rearranged(move_down_shape(n), values)) =~= values);
}

/// A body that leaves the stack as it was when it was entered, and has used nothing, takes and
/// gives nothing.
pub proof fn law_idle_body_has_no_effect(state: StackState)
    requires
        state.highest_input_touched == 0,
        forall|i: int|
            0 <= i < state.stack.len() ==> #[trigger] state.stack[i] == Val::Input(i as usize),
        state.stack.len() <= usize::MAX,
    ensures
        body_summary(Some(state)) == (Effect::Concrete { required: 0, results: Seq::empty() }),
{
    let stack = state.stack;
    if stack.len() > 0 {
        assert(stack[0] == Val::Input(0));
    }
    assert(stack.take(0) =~= Seq::<Val>::empty());
}

/// Whether a list goes on where another ends.
pub open spec fn continues<T>(list: Seq<T>, longer: Seq<T>) -> bool {
    list.len() <= longer.len() && longer.take(list.len() as int) == list
}

/// Whether nothing that was known got lost: effects that were found stay, and what is reported and
/// shown for a file is only added to.
pub open spec fn grows(before: Known, after: Known) -> bool {
    &&& before.effects.len() == after.effects.len()
    &&& before.findings.len() == after.findings.len()
    &&& before.overlays.len() == after.overlays.len()
    &&& forall|i: int|
        0 <= i < before.effects.len() && (#[trigger] before.effects[i]) is Some
            ==> after.effects[i] == before.effects[i]
    &&& forall|i: int|
        0 <= i < before.findings.len() ==> continues(
            #[trigger] before.findings[i],
            after.findings[i],
        )
    &&& forall|i: int|
        0 <= i < before.overlays.len() ==> continues(
            #[trigger] before.overlays[i],
            after.overlays[i],
        )
}

proof fn lemma_continues<T>(a: Seq<T>, b: Seq<T>, c: Seq<T>)
    requires
        continues(a, b),
        continues(b, c),
    ensures
        continues(a, c),
{
    assert(c.take(a.len() as int) =~= b.take(a.len() as int));
}

proof fn lemma_grows_reflexive(known: Known)
    ensures
        grows(known, known),
{
    assert forall|i: int| 0 <= i < known.findings.len() implies continues(
        #[trigger] known.findings[i],
        known.findings[i],
    ) by {
        assert(known.findings[i].take(known.findings[i].len() as int) =~= known.findings[i]);
    }
    assert forall|i: int| 0 <= i < known.overlays.len() implies continues(
        #[trigger] known.overlays[i],
        known.overlays[i],
    ) by {
        assert(known.overlays[i].take(known.overlays[i].len() as int) =~= known.overlays[i]);
    }
}

proof fn lemma_grows_transitive(a: Known, b: Known, c: Known)
    requires
        grows(a, b),
        grows(b, c),
    ensures
        grows(a, c),
{
    assert forall|i: int| 0 <= i < a.effects.len() && (#[trigger] a.effects[i]) is Some implies c.effects[i]
        == a.effects[i] by {
        assert(b.effects[i] == a.effects[i]);
    }
    assert forall|i: int| 0 <= i < a.findings.len() implies continues(
        #[trigger] a.findings[i],
        c.findings[i],
    ) by {
        assert(continues(b.findings[i], c.findings[i]));
        lemma_continues(a.findings[i], b.findings[i], c.findings[i]);
    }
    assert forall|i: int| 0 <= i < a.overlays.len() implies continues(
        #[trigger] a.overlays[i],
        c.overlays[i],
    ) by {
        assert(continues(b.overlays[i], c.overlays[i]));
        lemma_continues(a.overlays[i], b.overlays[i], c.overlays[i]);
    }
}

proof fn lemma_shown_grows(known: Known, file: int, range: Range, overlay: Overlay)
    requires
        0 <= file < known.overlays.len(),
    ensures
        grows(known, known.shown(file, range, overlay)),
{
    lemma_grows_reflexive(known);
    let after = known.shown(file, range, overlay);
    assert forall|i: int| 0 <= i < known.overlays.len() implies continues(
        #[trigger] known.overlays[i],
        after.overlays[i],
    ) by {
        assert(after.overlays[i].take(known.overlays[i].len() as int) =~= known.overlays[i]);
    }
}

proof fn lemma_reported_grows(known: Known, file: int, warning: Option<Finding>)
    requires
        0 <= file < known.findings.len(),
    ensures
        grows(known, known.reported(file, warning)),
{
    lemma_grows_reflexive(known);
    let after = known.reported(file, warning);
    assert forall|i: int| 0 <= i < known.findings.len() implies continues(
        #[trigger] known.findings[i],
        after.findings[i],
    ) by {
        assert(after.findings[i].take(known.findings[i].len() as int) =~= known.findings[i]);
    }
}

/// Whether a program fits what is known: there is a place for the effect of each procedure, and for
/// what is said of each file.
pub open spec fn fits(program: Program, known: Known) -> bool {
    &&& known.effects.len() == program.procedures.len()
    &&& forall|p: int|
        0 <= p < program.procedures.len() ==> {
            let file = (#[trigger] module_of(program, p)).file;
            0 <= file < known.findings.len() && file < known.overlays.len()
        }
}

/// Procedures that are found are procedures of the program.
proof fn lemma_procedure_named(program: Program, path: Seq<char>, count: nat)
    requires
        count <= program.procedures.len(),
    ensures
        match procedure_named(program.procedures, path, count) {
            Some(p) => 0 <= p < count,
            None => true,
        },
    decreases count,
{
    if count > 0 && program.procedures[count - 1].path != path {
        lemma_procedure_named(program, path, (count - 1) as nat);
    }
}

/// Following a body loses nothing that was known, and finds its effect unless it is being followed
/// already.
pub proof fn law_body_effect_grows(program: Program, chain: Seq<int>, known: Known, procedure: int)
    requires
        fits(program, known),
        0 <= procedure < program.procedures.len(),
    ensures
        grows(known, body_effect(program, chain, known, procedure).0),
        !chain.contains(procedure) && chain.len() < program.procedures.len() ==> body_effect(
            program,
            chain,
            known,
            procedure,
        ).0.effects[procedure] is Some,
    decreases program.procedures.len() - chain.len(), 0int, 0int, 0int,
{
    lemma_grows_reflexive(known);
    if known.effects[procedure] is None && !chain.contains(procedure) && chain.len()
        < program.procedures.len() {
        let rows = program.procedures[procedure].rows;
        let longer = chain.push(procedure);
        let start = StackState::start();
        lemma_run_grows(program, longer, known, procedure, 1, rows.len() as int, start);
        let (found, outcome) = run(
            program,
            longer,
            known,
            procedure,
            1,
            rows.len() as int,
            start,
        );
        let after = found.learned(procedure, body_summary(outcome));
        assert forall|i: int|
            0 <= i < known.effects.len() && (#[trigger] known.effects[i]) is Some implies after.effects[i]
            == known.effects[i] by {
            assert(found.effects[i] == known.effects[i]);
        }
        assert(grows(known, after));
    }
}

proof fn lemma_call_grows(program: Program, chain: Seq<int>, known: Known, path: Seq<char>)
    requires
        fits(program, known),
    ensures
        grows(known, call_effect(program, chain, known, path).0),
    decreases program.procedures.len() - chain.len(), 0int, 1int, 0int,
{
    lemma_grows_reflexive(known);
    lemma_procedure_named(program, path, program.procedures.len());
    if let Some(procedure) = procedure_named(program.procedures, path, program.procedures.len()) {
        if program.procedures[procedure].signature is None {
            law_body_effect_grows(program, chain, known, procedure);
        }
    }
}

proof fn lemma_code_grows(
    program: Program,
    chain: Seq<int>,
    known: Known,
    procedure: int,
    code: Instruction,
    state: StackState,
)
    requires
        fits(program, known),
    ensures
        grows(known, code_step(program, chain, known, procedure, code, state).0),
    decreases program.procedures.len() - chain.len(), 0int, 2int, 0int,
{
    lemma_grows_reflexive(known);
    match code {
        Instruction::Exec(target) | Instruction::Call(target) | Instruction::SysCall(target) => {
            if let Some(path) = target_path(program, procedure, target) {
                lemma_call_grows(program, chain, known, path);
            }
        },
        Instruction::DynExec | Instruction::DynCall => {
            if let Some(address) = crate::stack_step::address_of(state.top()) {
                if let Some(path) = crate::stack_effect::procedure_at(
                    state.popped().memory,
                    address,
                ) {
                    lemma_call_grows(program, chain, known, path);
                }
            }
        },
        _ => {},
    }
}

/// What fits what is known fits what is known later.
proof fn lemma_still_fits(program: Program, known: Known, later: Known)
    requires
        fits(program, known),
        grows(known, later),
    ensures
        fits(program, later),
{
    assert forall|p: int| 0 <= p < program.procedures.len() implies {
        let file = (#[trigger] module_of(program, p)).file;
        0 <= file < later.findings.len() && file < later.overlays.len()
    } by {}
}

proof fn lemma_element_grows(
    program: Program,
    chain: Seq<int>,
    known: Known,
    procedure: int,
    at: int,
    end: int,
    state: StackState,
)
    requires
        fits(program, known),
        0 <= procedure < program.procedures.len(),
        at < end,
    ensures
        grows(known, element_step(program, chain, known, procedure, at, end, state).0),
    decreases program.procedures.len() - chain.len(), end - at, 0int, 0int,
{
    lemma_grows_reflexive(known);
    let rows = program.procedures[procedure].rows;
    let (first, first_end) = first_block(rows, at, end);
    let (second, second_end) = second_block(rows, at, end);
    let rest = state.popped();
    match rows[at].code {
        OpCode::Inst(code) => lemma_code_grows(program, chain, known, procedure, code, state),
        OpCode::Block => lemma_run_grows(program, chain, known, procedure, at + 1, end, state),
        OpCode::If => {
            lemma_run_grows(program, chain, known, procedure, first, first_end, rest);
            lemma_run_grows(program, chain, known, procedure, second, second_end, rest);
            let found = run(program, chain, known, procedure, first, first_end, rest).0;
            lemma_still_fits(program, known, found);
            lemma_run_grows(program, chain, found, procedure, second, second_end, rest);
            lemma_grows_transitive(
                known,
                found,
                run(program, chain, found, procedure, second, second_end, rest).0,
            );
        },
        OpCode::While => lemma_run_grows(
            program,
            chain,
            known,
            procedure,
            first,
            first_end,
            rest,
        ),
        OpCode::Repeat(operand) => {
            if let Some(count) = immediate_u32(operand) {
                lemma_repeat_grows(
                    program,
                    chain,
                    known,
                    procedure,
                    first,
                    first_end,
                    count as nat,
                    state,
                );
            }
        },
    }
}

proof fn lemma_run_grows(
    program: Program,
    chain: Seq<int>,
    known: Known,
    procedure: int,
    at: int,
    end: int,
    state: StackState,
)
    requires
        fits(program, known),
        0 <= procedure < program.procedures.len(),
    ensures
        grows(known, run(program, chain, known, procedure, at, end, state).0),
    decreases program.procedures.len() - chain.len(), end - at, 1int, 0int,
{
    lemma_grows_reflexive(known);
    if at < end {
        let rows = program.procedures[procedure].rows;
        let next = element_end(rows, at, end);
        let module = module_of(program, procedure);
        let range = crate::stack_effect::element_range(
            module,
            rows[at].range.start as int,
            rows[at].range.end as int,
        );
        lemma_element_grows(program, chain, known, procedure, at, next, state);
        let (found, step) = element_step(program, chain, known, procedure, at, next, state);
        lemma_still_fits(program, known, found);
        match step {
            Step::Continue { state: behind, overlay } => {
                let shown = found.shown(module.file, range, overlay);
                lemma_shown_grows(found, module.file, range, overlay);
                lemma_grows_transitive(known, found, shown);
                lemma_still_fits(program, found, shown);
                lemma_run_grows(program, chain, shown, procedure, next, end, behind);
                lemma_grows_transitive(
                    known,
                    shown,
                    run(program, chain, shown, procedure, next, end, behind).0,
                );
            },
            Step::Indeterminate { warning, overlay } => {
                let reported = found.reported(module.file, warning);
                lemma_reported_grows(found, module.file, warning);
                lemma_grows_transitive(known, found, reported);
                lemma_still_fits(program, found, reported);
                lemma_shown_grows(reported, module.file, range, overlay);
                lemma_grows_transitive(
                    known,
                    reported,
                    reported.shown(module.file, range, overlay),
                );
            },
        }
    }
}

proof fn lemma_repeat_grows(
    program: Program,
    chain: Seq<int>,
    known: Known,
    procedure: int,
    at: int,
    end: int,
    count: nat,
    state: StackState,
)
    requires
        fits(program, known),
        0 <= procedure < program.procedures.len(),
    ensures
        grows(known, run_repeatedly(program, chain, known, procedure, at, end, count, state).0),
    decreases program.procedures.len() - chain.len(), end - at, 2int, count,
{
    lemma_grows_reflexive(known);
    if count > 0 {
        lemma_run_grows(program, chain, known, procedure, at, end, state);
        let (found, outcome) = run(program, chain, known, procedure, at, end, state);
        lemma_still_fits(program, known, found);
        if let Some(next) = outcome {
            let left = (count - 1) as nat;
            lemma_repeat_grows(program, chain, found, procedure, at, end, left, next);
            lemma_grows_transitive(
                known,
                found,
                run_repeatedly(program, chain, found, procedure, at, end, left, next).0,
            );
        }
    }
}

proof fn lemma_followed_body(program: Program, known: Known, procedure: int)
    requires
        fits(program, known),
        0 <= procedure < program.procedures.len(),
    ensures
        grows(known, followed_body(program, known, procedure)),
        followed_body(program, known, procedure).effects[procedure] is Some,
{
    reveal(followed_body);
    law_body_effect_grows(program, Seq::empty(), known, procedure);
}

/// When all bodies have been followed, the effect of each procedure is known.
pub proof fn law_every_body_is_followed(program: Program, known: Known, count: nat, procedure: int)
    requires
        fits(program, known),
        0 <= procedure < count <= program.procedures.len(),
    ensures
        grows(known, run_all(program, known, count)),
        run_all(program, known, count).effects[procedure] is Some,
    decreases count,
{
    let before = run_all(program, known, (count - 1) as nat);
    if procedure < count - 1 {
        law_every_body_is_followed(program, known, (count - 1) as nat, procedure);
    } else {
        lemma_run_all_grows(program, known, (count - 1) as nat);
    }
    lemma_still_fits(program, known, before);
    lemma_followed_body(program, before, count - 1);
    lemma_grows_transitive(known, before, run_all(program, known, count));
    if procedure < count - 1 {
        assert(before.effects[procedure] is Some);
    }
}

proof fn lemma_run_all_grows(program: Program, known: Known, count: nat)
    requires
        fits(program, known),
        count <= program.procedures.len(),
    ensures
        grows(known, run_all(program, known, count)),
    decreases count,
{
    lemma_grows_reflexive(known);
    if count > 0 {
        lemma_run_all_grows(program, known, (count - 1) as nat);
        let before = run_all(program, known, (count - 1) as nat);
        lemma_still_fits(program, known, before);
        lemma_followed_body(program, before, count - 1);
        lemma_grows_transitive(known, before, run_all(program, known, count));
    }
}

/// An effect that is known is not looked for again, and a body that is being followed is not entered
/// again.
pub proof fn law_bodies_are_not_entered_twice(
    program: Program,
    chain: Seq<int>,
    known: Known,
    procedure: int,
)
    ensures
        known.effects[procedure] is Some ==> body_effect(program, chain, known, procedure) == (
            known,
            known.effects[procedure].unwrap(),
        ),
        known.effects[procedure] is None && chain.contains(procedure) ==> body_effect(
            program,
            chain,
            known,
            procedure,
        ) == (known, Effect::Indeterminate),
{
}

proof fn lemma_deepened_depth(state: StackState, depth: nat)
    ensures
        state.deepened(depth).stack.len() == if state.stack.len() < depth {
            depth
        } else {
            state.stack.len()
        },
        state.deepened(depth).memory == state.memory,
    decreases depth - state.stack.len(),
{
    if state.stack.len() < depth {
        lemma_deepened_depth(
            StackState {
                stack: state.stack.push(Val::Input(state.next_input)),
                next_input: crate::stack_state::successor(state.next_input),
                ..state
            },
            depth,
        );
    }
}

proof fn lemma_popped_depth(state: StackState, count: nat)
    ensures
        state.popped_many(count).stack.len() == if state.stack.len() > count {
            (state.stack.len() - count) as nat
        } else {
            0
        },
        state.top_many(count).len() == count,
        state.popped_many(count).memory == state.memory,
    decreases count,
{
    if count > 0 {
        lemma_popped_depth(state, (count - 1) as nat);
        lemma_deepened_depth(state.popped_many((count - 1) as nat), 1);
    }
}

/// Taking elements off and putting others on changes the depth of the stack by their counts, never
/// below nothing; as many elements are taken as are asked for. Memory stays as it is.
pub proof fn law_depth_follows_counts(state: StackState, count: nat, values: Seq<Val>)
    ensures
        state.set_top(count, values).stack.len() == values.len() + if state.stack.len() > count {
            (state.stack.len() - count) as nat
        } else {
            0
        },
        state.set_top(count, values).memory == state.memory,
        state.top_many(count).len() == count,
{
    lemma_popped_depth(state, count);
}

/// A call with a known effect takes and gives as many elements as are shown for it.
pub proof fn law_calls_keep_their_counts(state: StackState, effect: Effect)
    requires
        !(effect is Indeterminate),
    ensures
        called(state, effect).stack.len() == given(effect) + if state.stack.len() > taken(effect) {
            (state.stack.len() - taken(effect)) as nat
        } else {
            0
        },
        called(state, effect).memory == state.memory,
{
    lemma_popped_depth(state, taken(effect));
}

} // verus!
