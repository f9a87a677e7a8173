//! What single instructions do to the stack and to memory.
use miden_assembly_syntax::ast::Instruction;
use vstd::prelude::*;
use crate::assembly::{immediate_felts, immediate_u16, immediate_u32, immediate_u8};
use crate::stack_flow_laws::{gives_up, goes_on};
use crate::stack_state::{successor, StackState, Val};
use crate::stack_step::{address_at, generic_step, instruction_step, stored_all, Step};

verus! {

/// The element that stands `i` below the top: one that the body has looked at, or an input.
pub open spec fn element(state: StackState, i: int) -> Val {
    if i < state.stack.len() {
        state.stack[i]
    } else {
        Val::Input((state.next_input + (i - state.stack.len())) as usize)
    }
}

/// Whether inputs down to a depth have numbers.
pub open spec fn has_room(state: StackState, depth: int) -> bool {
    state.next_input + depth <= usize::MAX
}

/// What is left of the known stack when elements have been taken off.
pub open spec fn below(state: StackState, count: int) -> Seq<Val> {
    if count < state.stack.len() {
        state.stack.skip(count)
    } else {
        Seq::empty()
    }
}

/// How many inputs have been looked at when elements have been taken off.
pub open spec fn inputs_below(state: StackState, count: int) -> int {
    if count < state.stack.len() {
        state.next_input as int
    } else {
        state.next_input + (count - state.stack.len())
    }
}

/// Taking elements off takes them from the top down: those that were known first, and then inputs,
/// each the next one. What is left is what stood below them.
pub proof fn law_elements_are_taken(state: StackState, count: nat)
    requires
        has_room(state, count as int),
    ensures
        state.top_many(count).len() == count,
        forall|i: int| 0 <= i < count ==> #[trigger] state.top_many(count)[i] == element(state, i),
        state.popped_many(count).stack == below(state, count as int),
        state.popped_many(count).next_input == inputs_below(state, count as int),
        state.popped_many(count).memory == state.memory,
    decreases count,
{
    if count == 0 {
        assert(state.stack.skip(0) =~= state.stack);
        assert(below(state, 0) =~= state.stack);
    } else {
        let less = (count - 1) as nat;
        law_elements_are_taken(state, less);
        let before = state.popped_many(less);
        reveal_with_fuel(StackState::deepened, 2);
        if less < state.stack.len() {
            assert(before.stack[0] == state.stack[less as int]);
            assert(before.stack.skip(1) =~= below(state, count as int));
        } else {
            let deep = before.deepened(1);
            assert(deep.stack =~= seq![Val::Input(before.next_input)]);
            assert(deep.stack.skip(1) =~= Seq::<Val>::empty());
        }
        assert(before.top() == element(state, less as int));
        assert forall|i: int| 0 <= i < count implies #[trigger] state.top_many(count)[i] == element(
            state,
            i,
        ) by {
            if i < less {
                assert(state.top_many(count)[i] == state.top_many(less)[i]);
            }
        }
    }
}

/// Whether every input among the topmost elements counts as used.
pub open spec fn counts_as_used(used: usize, state: StackState, count: int) -> bool {
    forall|i: int|
        0 <= i < count ==> match #[trigger] element(state, i) {
            Val::Input(index) => index < used || index == usize::MAX,
            _ => true,
        }
}

/// Taking elements off uses them: an input that was among them counts as used from then on, and what
/// counted as used before does so still.
pub proof fn law_taken_elements_are_used(state: StackState, count: nat)
    requires
        has_room(state, count as int),
    ensures
        state.popped_many(count).highest_input_touched >= state.highest_input_touched,
        counts_as_used(state.popped_many(count).highest_input_touched, state, count as int),
        state.popped_many(count).highest_input_touched == state.highest_input_touched || exists|i: int|
            0 <= i < count && #[trigger] element(state, i) == Val::Input(
                (state.popped_many(count).highest_input_touched - 1) as usize,
            ),
    decreases count,
{
    if count > 0 {
        let less = (count - 1) as nat;
        law_taken_elements_are_used(state, less);
        law_elements_are_taken(state, less);
        law_elements_are_taken(state, count);
        let before = state.popped_many(less);
        reveal_with_fuel(StackState::deepened, 2);
        let value = element(state, less as int);
        assert(state.top_many(count)[less as int] == value);
        assert(before.top() == value);
    }
}

/// Whether a step takes elements off and gives elements of which nothing is known, and leaves what is
/// below them and memory as they were.
pub open spec fn replaces(step: Step, state: StackState, taken: nat, given: nat) -> bool {
    &&& step is Continue
    &&& goes_on(step, step->state, taken, given, false)
    &&& step->state.stack.len() == given + below(state, taken as int).len()
    &&& forall|i: int| 0 <= i < given ==> #[trigger] step->state.stack[i] == Val::Unknown
    &&& step->state.stack.skip(given as int) == below(state, taken as int)
    &&& step->state.memory == state.memory
    &&& step->state.highest_input_touched == state.popped_many(taken).highest_input_touched
}

/// Whether an instruction computes one element from two.
pub open spec fn is_binary(code: Instruction) -> bool {
    match code {
        Instruction::Add | Instruction::Sub | Instruction::Mul | Instruction::Div | Instruction::And
        | Instruction::Or | Instruction::Xor | Instruction::Eq | Instruction::Neq | Instruction::Lt
        | Instruction::Lte | Instruction::Gt | Instruction::Gte | Instruction::U32WrappingAdd
        | Instruction::U32WrappingSub | Instruction::U32WrappingMul | Instruction::U32And
        | Instruction::U32Or | Instruction::U32Xor | Instruction::U32Lt | Instruction::U32Lte
        | Instruction::U32Gt | Instruction::U32Gte | Instruction::U32Min | Instruction::U32Max
        | Instruction::Exp => true,
        _ => false,
    }
}

/// Whether an instruction computes one element from one.
pub open spec fn is_unary(code: Instruction) -> bool {
    match code {
        Instruction::AddImm(_) | Instruction::SubImm(_) | Instruction::MulImm(_)
        | Instruction::DivImm(_) | Instruction::Neg | Instruction::ILog2 | Instruction::Inv
        | Instruction::Incr | Instruction::Pow2 | Instruction::ExpImm(_)
        | Instruction::ExpBitLength(_) | Instruction::Not | Instruction::EqImm(_)
        | Instruction::NeqImm(_) | Instruction::IsOdd | Instruction::U32Test
        | Instruction::U32Assert | Instruction::U32AssertWithError(_) | Instruction::U32Cast
        | Instruction::U32Not | Instruction::U32ShrImm(_) | Instruction::U32ShlImm(_)
        | Instruction::U32RotrImm(_) | Instruction::U32RotlImm(_) | Instruction::U32Popcnt
        | Instruction::U32Ctz | Instruction::U32Clz | Instruction::U32Clo | Instruction::U32Cto
        | Instruction::U32WrappingAddImm(_) | Instruction::U32WrappingSubImm(_)
        | Instruction::U32WrappingMulImm(_) => true,
        _ => false,
    }
}

/// Whether an instruction computes two elements from two.
pub open spec fn is_pairwise(code: Instruction) -> bool {
    match code {
        Instruction::U32Split | Instruction::U32OverflowingAdd | Instruction::U32OverflowingSub
        | Instruction::U32WideningAdd | Instruction::U32WideningMul | Instruction::U32Div
        | Instruction::U32Mod | Instruction::U32DivMod | Instruction::Ext2Neg
        | Instruction::Ext2Inv => true,
        _ => false,
    }
}

/// Whether an instruction computes two elements from one and a constant.
pub open spec fn is_pairwise_with_constant(code: Instruction) -> bool {
    match code {
        Instruction::U32OverflowingAddImm(_) | Instruction::U32OverflowingSubImm(_)
        | Instruction::U32WideningAddImm(_) | Instruction::U32WideningMulImm(_)
        | Instruction::U32DivImm(_) | Instruction::U32ModImm(_)
        | Instruction::U32DivModImm(_) => true,
        _ => false,
    }
}

proof fn lemma_replaces(state: StackState, taken: nat, values: Seq<Val>, given: nat)
    requires
        has_room(state, taken as int),
        values.len() == given,
        forall|i: int| 0 <= i < given ==> #[trigger] values[i] == Val::Unknown,
    ensures
        state.set_top(taken, values).stack.len() == given + below(state, taken as int).len(),
        forall|i: int|
            0 <= i < given ==> #[trigger] state.set_top(taken, values).stack[i] == Val::Unknown,
        state.set_top(taken, values).stack.skip(given as int) == below(state, taken as int),
        state.set_top(taken, values).memory == state.memory,
        state.set_top(taken, values).highest_input_touched == state.popped_many(
            taken,
        ).highest_input_touched,
{
    law_elements_are_taken(state, taken);
    assert(state.set_top(taken, values).stack.skip(given as int) =~= below(state, taken as int));
}

proof fn lemma_plain(code: Instruction, state: StackState, taken: nat, given: nat)
    requires
        has_room(state, taken as int),
        instruction_step(code, state) == generic_step(code, state),
        crate::stack_step::generic_shape(code) == crate::stack_step::plain_shape(taken, given),
    ensures
        replaces(instruction_step(code, state), state, taken, given),
{
    let values = crate::stack_step::generic_outputs(state.top_many(taken), given, Seq::empty());
    lemma_replaces(state, taken, values, given);
}

/// Arithmetic and comparison of two elements take both and give one; with a constant in place of one
/// of them they take one less.
#[verifier::rlimit(30)]
pub proof fn law_arithmetic(code: Instruction, state: StackState)
    requires
        has_room(state, 2),
    ensures
        is_binary(code) ==> replaces(instruction_step(code, state), state, 2, 1),
        is_unary(code) ==> replaces(instruction_step(code, state), state, 1, 1),
        is_pairwise(code) ==> replaces(instruction_step(code, state), state, 2, 2),
        is_pairwise_with_constant(code) ==> replaces(instruction_step(code, state), state, 1, 2),
{
    if is_binary(code) {
        lemma_plain(code, state, 2, 1);
    }
    if is_unary(code) {
        lemma_plain(code, state, 1, 1);
    }
    if is_pairwise(code) {
        lemma_plain(code, state, 2, 2);
    }
    if is_pairwise_with_constant(code) {
        lemma_plain(code, state, 1, 2);
    }
}

/// Computations on three and four elements, and on words, take them and give what they compute.
pub proof fn law_wide_arithmetic(code: Instruction, state: StackState)
    requires
        has_room(state, 8),
    ensures
        code is U32OverflowingAdd3 || code is U32WideningAdd3 ==> replaces(
            instruction_step(code, state),
            state,
            3,
            2,
        ),
        code is U32WrappingAdd3 || code is U32WrappingMadd || code is U32WideningMadd ==> replaces(
            instruction_step(code, state),
            state,
            3,
            1,
        ),
        code is Ext2Add || code is Ext2Sub || code is Ext2Mul || code is Ext2Div ==> replaces(
            instruction_step(code, state),
            state,
            4,
            2,
        ),
        code is Eqw || code is U32TestW || code is U32AssertW || code is U32AssertWWithError
            ==> replaces(instruction_step(code, state), state, 4, 1),
{
    if code is U32OverflowingAdd3 || code is U32WideningAdd3 {
        lemma_plain(code, state, 3, 2);
    }
    if code is U32WrappingAdd3 || code is U32WrappingMadd || code is U32WideningMadd {
        lemma_plain(code, state, 3, 1);
    }
    if code is Ext2Add || code is Ext2Sub || code is Ext2Mul || code is Ext2Div {
        lemma_plain(code, state, 4, 2);
    }
    if code is Eqw || code is U32TestW || code is U32AssertW || code is U32AssertWWithError {
        lemma_plain(code, state, 4, 1);
    }
}

/// Assertions take what they look at and give nothing, with an error code or without; so does what
/// drops elements.
pub proof fn law_assertions(code: Instruction, state: StackState)
    requires
        has_room(state, 8),
    ensures
        code is Assert || code is AssertWithError || code is Assertz || code is AssertzWithError
            || code is Drop ==> replaces(instruction_step(code, state), state, 1, 0),
        code is AssertEq || code is AssertEqWithError ==> replaces(
            instruction_step(code, state),
            state,
            2,
            0,
        ),
        code is AssertEqw || code is AssertEqwWithError ==> replaces(
            instruction_step(code, state),
            state,
            8,
            0,
        ),
        code is DropW ==> replaces(instruction_step(code, state), state, 4, 0),
{
    if code is Assert || code is AssertWithError || code is Assertz || code is AssertzWithError
        || code is Drop {
        lemma_plain(code, state, 1, 0);
    }
    if code is AssertEq || code is AssertEqWithError {
        lemma_plain(code, state, 2, 0);
    }
    if code is AssertEqw || code is AssertEqwWithError {
        lemma_plain(code, state, 8, 0);
    }
    if code is DropW {
        law_elements_are_taken(state, 4);
        assert(state.popped_many(4).stack.skip(0) =~= state.popped_many(4).stack);
    }
}

/// Whether a step rearranges the topmost elements: at each place stands the element from the place
/// that `from` gives, and below them and in memory nothing changes.
pub open spec fn rearranges(
    step: Step,
    state: StackState,
    count: nat,
    from: spec_fn(int) -> int,
) -> bool {
    &&& step is Continue
    &&& goes_on(step, step->state, count, count, false)
    &&& step->state.stack.len() == count + below(state, count as int).len()
    &&& forall|i: int|
        0 <= i < count ==> #[trigger] step->state.stack[i] == element(state, from(i))
    &&& step->state.stack.skip(count as int) == below(state, count as int)
    &&& step->state.memory == state.memory
}

proof fn lemma_rearranges(
    code: Instruction,
    state: StackState,
    count: nat,
    preserved: Seq<int>,
    from: spec_fn(int) -> int,
)
    requires
        has_room(state, count as int),
        instruction_step(code, state) == generic_step(code, state),
        crate::stack_step::generic_shape(code) == (crate::stack_step::Shape::Transform {
            popped: count,
            pushed: count,
            preserved,
        }),
        preserved.len() == count,
        forall|i: int| 0 <= i < count ==> 0 <= #[trigger] preserved[i] < count,
        forall|i: int| 0 <= i < count ==> #[trigger] preserved[i] == from(i),
    ensures
        rearranges(instruction_step(code, state), state, count, from),
{
    law_elements_are_taken(state, count);
    let values = crate::stack_step::generic_outputs(state.top_many(count), count, preserved);
    let behind = state.set_top(count, values);
    assert(behind.stack.skip(count as int) =~= below(state, count as int));
    assert forall|i: int| 0 <= i < count implies #[trigger] behind.stack[i] == element(
        state,
        from(i),
    ) by {
        assert(behind.stack[i] == values[i]);
        assert(preserved[i] == from(i));
        assert(state.top_many(count)[preserved[i]] == element(state, preserved[i]));
    }
}

/// How far below the top the element stands that a `swap` exchanges with the top.
#[verifier::opaque]
pub open spec fn swap_depth(code: Instruction) -> Option<nat> {
    match code {
        Instruction::Swap1 => Some(1),
        Instruction::Swap2 => Some(2),
        Instruction::Swap3 => Some(3),
        Instruction::Swap4 => Some(4),
        _ => None,
    }
}

proof fn lemma_depths(code: Instruction)
    ensures
        swap_depth(code) is Some ==> 1 <= swap_depth(code).unwrap() <= 4,
        move_up_depth(code) is Some ==> 2 <= move_up_depth(code).unwrap() <= 8,
        move_down_depth(code) is Some ==> 2 <= move_down_depth(code).unwrap() <= 8,
{
    reveal(swap_depth);
    reveal(move_up_depth);
    reveal(move_down_depth);
}

proof fn lemma_move_shapes(code: Instruction, state: StackState)
    ensures
        swap_depth(code) is Some ==> crate::stack_step::generic_shape(code)
            == crate::stack_step::swap_shape(swap_depth(code).unwrap()),
        move_up_depth(code) is Some ==> crate::stack_step::generic_shape(code)
            == crate::stack_step::move_up_shape(move_up_depth(code).unwrap()),
        move_down_depth(code) is Some ==> crate::stack_step::generic_shape(code)
            == crate::stack_step::move_down_shape(move_down_depth(code).unwrap()),
        swap_depth(code) is Some || move_up_depth(code) is Some || move_down_depth(code) is Some
            ==> instruction_step(code, state) == generic_step(code, state),
{
    reveal(swap_depth);
    reveal(move_up_depth);
    reveal(move_down_depth);
}

/// A `swap` exchanges the top with the element that stands its number below it.
pub proof fn law_swap(code: Instruction, state: StackState)
    requires
        has_room(state, 16),
        swap_depth(code) is Some,
    ensures
        rearranges(
            instruction_step(code, state),
            state,
            swap_depth(code).unwrap() + 1,
            |i: int|
                if i == 0 {
                    swap_depth(code).unwrap() as int
                } else if i == swap_depth(code).unwrap() {
                    0
                } else {
                    i
                },
        ),
{
    let n = swap_depth(code).unwrap();
    lemma_move_shapes(code, state);
    lemma_depths(code);
    let preserved = crate::stack_step::swap_shape(n)->preserved;
    lemma_rearranges(
        code,
        state,
        n + 1,
        preserved,
        |i: int|
            if i == 0 {
                swap_depth(code).unwrap() as int
            } else if i == swap_depth(code).unwrap() {
                0
            } else {
                i
            },
    );
}

/// How far below the top the element stands that a `movup` brings up.
#[verifier::opaque]
pub open spec fn move_up_depth(code: Instruction) -> Option<nat> {
    match code {
        Instruction::MovUp2 => Some(2),
        Instruction::MovUp3 => Some(3),
        Instruction::MovUp4 => Some(4),
        Instruction::MovUp5 => Some(5),
        Instruction::MovUp6 => Some(6),
        Instruction::MovUp7 => Some(7),
        Instruction::MovUp8 => Some(8),
        _ => None,
    }
}

/// How far below the top a `movdn` brings the top.
#[verifier::opaque]
pub open spec fn move_down_depth(code: Instruction) -> Option<nat> {
    match code {
        Instruction::MovDn2 => Some(2),
        Instruction::MovDn3 => Some(3),
        Instruction::MovDn4 => Some(4),
        Instruction::MovDn5 => Some(5),
        Instruction::MovDn6 => Some(6),
        Instruction::MovDn7 => Some(7),
        Instruction::MovDn8 => Some(8),
        _ => None,
    }
}

/// A `movup` brings the element that stands its number below the top to the top, and those above it
/// one place down.
pub proof fn law_move_up(code: Instruction, state: StackState)
    requires
        has_room(state, 16),
        move_up_depth(code) is Some,
    ensures
        rearranges(
            instruction_step(code, state),
            state,
            move_up_depth(code).unwrap() + 1,
            |i: int|
                if i == 0 {
                    move_up_depth(code).unwrap() as int
                } else {
                    i - 1
                },
        ),
{
    let n = move_up_depth(code).unwrap();
    lemma_move_shapes(code, state);
    lemma_depths(code);
    let preserved = crate::stack_step::move_up_shape(n)->preserved;
    lemma_rearranges(
        code,
        state,
        n + 1,
        preserved,
        |i: int|
            if i == 0 {
                move_up_depth(code).unwrap() as int
            } else {
                i - 1
            },
    );
}

/// A `movdn` brings the top its number of places down, and those that it passes one place up.
pub proof fn law_move_down(code: Instruction, state: StackState)
    requires
        has_room(state, 16),
        move_down_depth(code) is Some,
    ensures
        rearranges(
            instruction_step(code, state),
            state,
            move_down_depth(code).unwrap() + 1,
            |i: int|
                if i == move_down_depth(code).unwrap() {
                    0
                } else {
                    i + 1
                },
        ),
{
    let n = move_down_depth(code).unwrap();
    lemma_move_shapes(code, state);
    lemma_depths(code);
    let preserved = crate::stack_step::move_down_shape(n)->preserved;
    lemma_rearranges(
        code,
        state,
        n + 1,
        preserved,
        |i: int|
            if i == move_down_depth(code).unwrap() {
                0
            } else {
                i + 1
            },
    );
}

/// Testing two elements leaves them where they are.
pub proof fn law_assert_two(code: Instruction, state: StackState)
    requires
        has_room(state, 2),
        code is U32Assert2 || code is U32Assert2WithError,
    ensures
        rearranges(instruction_step(code, state), state, 2, |i: int| i),
{
    lemma_rearranges(code, state, 2, seq![0, 1], |i: int| i);
}

/// The number of a `dup`.
pub open spec fn dup_depth(code: Instruction) -> Option<nat> {
    match code {
        Instruction::Dup0 => Some(0),
        Instruction::Dup1 => Some(1),
        Instruction::Dup2 => Some(2),
        Instruction::Dup3 => Some(3),
        Instruction::Dup4 => Some(4),
        Instruction::Dup5 => Some(5),
        Instruction::Dup6 => Some(6),
        Instruction::Dup7 => Some(7),
        Instruction::Dup8 => Some(8),
        Instruction::Dup9 => Some(9),
        Instruction::Dup10 => Some(10),
        Instruction::Dup11 => Some(11),
        Instruction::Dup12 => Some(12),
        Instruction::Dup13 => Some(13),
        Instruction::Dup14 => Some(14),
        Instruction::Dup15 => Some(15),
        _ => None,
    }
}

/// A `dup` takes nothing off, and puts two elements more than its number on top of which nothing is
/// known.
pub proof fn law_dup(code: Instruction, state: StackState)
    requires
        dup_depth(code) is Some,
    ensures
        ({
            let step = instruction_step(code, state);
            let n = dup_depth(code).unwrap();
            &&& step is Continue
            &&& goes_on(
                step,
                step->state,
                0,
                if n < 9 {
                    n + 2
                } else {
                    n + 1
                },
                false,
            )
            &&& step->state.stack.len() == state.stack.len() + n + 2
            &&& forall|i: int| 0 <= i < n + 2 ==> #[trigger] step->state.stack[i] == Val::Unknown
            &&& step->state.stack.skip((n + 2) as int) == state.stack
            &&& step->state.memory == state.memory
        }),
{
    let step = instruction_step(code, state);
    let n = dup_depth(code).unwrap();
    let shown = if n < 9 {
        n + 2
    } else {
        n + 1
    };
    let preserved = crate::stack_step::dup_shape(n, shown)->preserved;
    assert(preserved.len() == n + 2);
    let values = crate::stack_step::generic_outputs(state.top_many(0), shown, preserved);
    assert(instruction_step(code, state) == generic_step(code, state));
    assert(step->state == state.set_top(0, values));
    assert(step->state.stack.skip((n + 2) as int) =~= state.stack);
}

/// Whether a step puts values on top and changes nothing else.
pub open spec fn puts(step: Step, state: StackState, values: Seq<Val>) -> bool {
    &&& goes_on(step, step->state, 0, values.len(), false)
    &&& step->state == (StackState { stack: values + state.stack, ..state })
}

/// What pushes elements puts them on top, the first one topmost, and changes nothing else: constants
/// that are written there, the zeros of an empty word, an address of a local, or elements of which
/// nothing is known. Where the constant is not known, nothing is known.
pub proof fn law_pushes(code: Instruction, state: StackState)
    ensures
        match code {
            Instruction::Push(operand) => match immediate_felts(operand) {
                Some(felts) => puts(
                    instruction_step(code, state),
                    state,
                    Seq::new(felts.len(), |i: int| Val::Felt(felts[i])),
                ),
                None => gives_up(instruction_step(code, state)),
            },
            Instruction::PushSlice(_, range) => puts(
                instruction_step(code, state),
                state,
                Seq::new(
                    if range.end > range.start {
                        (range.end - range.start) as nat
                    } else {
                        0
                    },
                    |i: int| Val::Unknown,
                ),
            ),
            Instruction::PushFeltList(felts) => puts(
                instruction_step(code, state),
                state,
                Seq::new(
                    felts@.len(),
                    |i: int| Val::Felt(crate::assembly::canonical(felts@[i])),
                ),
            ),
            Instruction::PadW => puts(
                instruction_step(code, state),
                state,
                seq![Val::Felt(0), Val::Felt(0), Val::Felt(0), Val::Felt(0)],
            ),
            Instruction::Locaddr(offset) => match immediate_u16(offset) {
                Some(offset) => puts(
                    instruction_step(code, state),
                    state,
                    seq![Val::Address(offset as u32)],
                ),
                None => gives_up(instruction_step(code, state)),
            },
            Instruction::Sdepth | Instruction::Clk => puts(
                instruction_step(code, state),
                state,
                seq![Val::Unknown],
            ),
            Instruction::AdvPush(count) => match immediate_u8(count) {
                Some(count) => puts(
                    instruction_step(code, state),
                    state,
                    Seq::new(count as nat, |i: int| Val::Unknown),
                ),
                None => gives_up(instruction_step(code, state)),
            },
            Instruction::Nop | Instruction::Debug(_) | Instruction::DebugVar(_)
            | Instruction::Trace(_) | Instruction::SysEvent(_) | Instruction::Emit
            | Instruction::EmitImm(_) => puts(
                instruction_step(code, state),
                state,
                Seq::empty(),
            ),
            _ => true,
        },
{
    let step = instruction_step(code, state);
    assert(Seq::<Val>::empty() + state.stack =~= state.stack);
    if code is PadW {
        let zeros = Seq::new(4, |i: int| Val::Felt(0));
        assert(zeros =~= seq![Val::Felt(0), Val::Felt(0), Val::Felt(0), Val::Felt(0)]);
    }
}

/// How many elements an instruction of the hasher, of Merkle trees or of streams takes and gives.
pub open spec fn block_counts(code: Instruction) -> Option<(nat, nat)> {
    match code {
        Instruction::Caller | Instruction::AdvLoadW | Instruction::Hash => Some((4, 4)),
        Instruction::HMerge | Instruction::MTreeMerge => Some((8, 4)),
        Instruction::HPerm => Some((12, 12)),
        Instruction::MTreeGet => Some((6, 8)),
        Instruction::MTreeSet => Some((10, 8)),
        Instruction::CryptoStream => Some((14, 14)),
        Instruction::MemStream | Instruction::AdvPipe => Some((13, 13)),
        _ => None,
    }
}

proof fn lemma_deepened(state: StackState, depth: nat)
    requires
        has_room(state, depth - state.stack.len()),
    ensures
        state.deepened(depth).stack.len() == if state.stack.len() < depth {
            depth
        } else {
            state.stack.len()
        },
        state.deepened(depth).memory == state.memory,
        state.deepened(depth).highest_input_touched == state.highest_input_touched,
        forall|i: int|
            0 <= i < state.deepened(depth).stack.len() ==> #[trigger] state.deepened(depth).stack[i]
                == element(state, i),
        state.deepened(depth).next_input == if state.stack.len() < depth {
            state.next_input + (depth - state.stack.len())
        } else {
            state.next_input as int
        },
    decreases depth - state.stack.len(),
{
    if state.stack.len() < depth {
        let next = StackState {
            stack: state.stack.push(Val::Input(state.next_input)),
            next_input: successor(state.next_input),
            ..state
        };
        lemma_deepened(next, depth);
        assert forall|i: int| 0 <= i < state.deepened(depth).stack.len() implies #[trigger] state.deepened(
            depth,
        ).stack[i] == element(state, i) by {
            assert(state.deepened(depth).stack[i] == element(next, i));
        }
    }
}

/// Looking down the stack fills it with inputs, each the next one, and uses none of them; what was
/// known stays where it is.
pub proof fn law_deepened(state: StackState, depth: nat)
    requires
        has_room(state, depth as int),
    ensures
        state.deepened(depth).stack.len() >= depth,
        state.deepened(depth).stack.len() >= state.stack.len(),
        state.deepened(depth).stack.len() == depth || state.deepened(depth) == state,
        forall|i: int|
            0 <= i < state.deepened(depth).stack.len() ==> #[trigger] state.deepened(depth).stack[i]
                == element(state, i),
        state.deepened(depth).highest_input_touched == state.highest_input_touched,
        state.deepened(depth).memory == state.memory,
{
    lemma_deepened(state, depth);
}

/// These instructions take and give so many elements, of which nothing is known, and leave the rest.
pub proof fn law_block_instructions(code: Instruction, state: StackState)
    requires
        has_room(state, 16),
        block_counts(code) is Some,
    ensures
        ({
            let (taken, given) = block_counts(code).unwrap();
            let step = instruction_step(code, state);
            &&& step is Continue
            &&& goes_on(step, step->state, taken, given, false)
            &&& step->state.stack.len() == given + below(state, taken as int).len()
            &&& forall|i: int| 0 <= i < given ==> #[trigger] step->state.stack[i] == Val::Unknown
            &&& step->state.stack.skip(given as int) == below(state, taken as int)
            &&& step->state.memory == state.memory
        }),
{
    let (taken, given) = block_counts(code).unwrap();
    let values = crate::stack_state::unknowns(given);
    let deep = state.deepened(taken);
    lemma_deepened(state, taken);
    lemma_replaces(state, taken, values, given);
    law_elements_are_taken(deep, 0);
    lemma_take_from_deep(state, taken);
    assert(deep.set_top(taken, values).stack.skip(given as int) =~= below(state, taken as int));
}

proof fn lemma_take_known(state: StackState, count: nat)
    requires
        count <= state.stack.len(),
    ensures
        state.popped_many(count).stack == state.stack.skip(count as int),
        state.popped_many(count).memory == state.memory,
    decreases count,
{
    if count == 0 {
        assert(state.stack.skip(0) =~= state.stack);
    } else {
        lemma_take_known(state, (count - 1) as nat);
        let before = state.popped_many((count - 1) as nat);
        assert(before.stack.skip(1) =~= state.stack.skip(count as int));
    }
}

proof fn lemma_take_from_deep(state: StackState, count: nat)
    requires
        has_room(state, count as int),
    ensures
        state.deepened(count).popped_many(count).stack == below(state, count as int),
        state.deepened(count).popped_many(count).memory == state.memory,
{
    let deep = state.deepened(count);
    lemma_deepened(state, count);
    lemma_take_known(deep, count);
    assert(deep.stack.skip(count as int) =~= below(state, count as int));
}

/// A proof of a Merkle path leaves the ten elements that it looks at where they are.
pub proof fn law_verify(code: Instruction, state: StackState)
    requires
        code is MTreeVerify || code is MTreeVerifyWithError,
    ensures
        goes_on(instruction_step(code, state), state.deepened(10), 10, 10, false),
{
}

/// An instruction that refers to no procedure is never warned of: it is known what it does, or
/// nothing is known behind it.
pub proof fn law_instructions_do_not_warn(code: Instruction, state: StackState)
    ensures
        instruction_step(code, state) is Continue || gives_up(instruction_step(code, state)),
{
}

/// The address that a store or a load names, where it is written with it.
pub open spec fn written_address(code: Instruction) -> Option<u32> {
    match code {
        Instruction::MemLoadImm(address) | Instruction::MemLoadWBeImm(address)
        | Instruction::MemLoadWLeImm(address) | Instruction::MemStoreImm(address)
        | Instruction::MemStoreWBeImm(address)
        | Instruction::MemStoreWLeImm(address) => immediate_u32(address),
        Instruction::LocLoad(offset) | Instruction::LocLoadWBe(offset)
        | Instruction::LocLoadWLe(offset) | Instruction::LocStore(offset)
        | Instruction::LocStoreWBe(offset)
        | Instruction::LocStoreWLe(offset) => match immediate_u16(offset) {
            Some(offset) => Some(offset as u32),
            None => None,
        },
        _ => None,
    }
}

/// Whether a value is known to be an address.
pub open spec fn is_address(value: Val, address: u32) -> bool {
    value == Val::Address(address) || value == Val::Felt(address as u64)
}

/// Whether a value is not known to be any address.
pub open spec fn is_no_address(value: Val) -> bool {
    forall|address: u32| !#[trigger] is_address(value, address)
}

/// A store of one element writes the top to the address and takes it off; nothing else changes, in
/// memory or on the stack.
pub proof fn law_scalar_store(code: Instruction, state: StackState, address: u32, other: u32)
    requires
        code is MemStoreImm || code is LocStore,
        written_address(code) == Some(address),
    ensures
        ({
            let step = instruction_step(code, state);
            &&& step is Continue
            &&& goes_on(step, step->state, 1, 0, false)
            &&& step->state.loaded(address) == state.top()
            &&& other != address ==> step->state.loaded(other) == state.loaded(other)
            &&& step->state.stack == state.popped().stack
        }),
{
    reveal_with_fuel(StackState::deepened, 2);
}

/// A store of one element to an address from the stack writes the top to the address below it and
/// takes both off; where the address is not known, nothing is known of memory any more.
pub proof fn law_scalar_store_to(state: StackState, address: u32, other: u32)
    ensures
        ({
            let step = instruction_step(Instruction::MemStore, state);
            let rest = state.popped();
            &&& step is Continue
            &&& goes_on(step, step->state, 2, 0, false)
            &&& step->state.stack == rest.popped().stack
            &&& is_address(rest.top(), address) ==> {
                &&& step->state.loaded(address) == state.top()
                &&& other != address ==> step->state.loaded(other) == state.loaded(other)
            }
            &&& is_no_address(rest.top()) ==> step->state.loaded(other) == Val::Unknown
        }),
{
    reveal_with_fuel(StackState::deepened, 2);
    let rest = state.popped();
    match rest.top() {
        Val::Address(a) => {
            assert(is_address(rest.top(), a));
        },
        Val::Felt(f) => {
            if f <= u32::MAX {
                assert(is_address(rest.top(), f as u32));
            }
        },
        _ => {},
    }
}

/// A load of one element puts what memory holds at the address on top, and changes nothing else; an
/// address from the stack is taken off first, and where it is not known, nothing is known of the
/// element.
pub proof fn law_scalar_load(code: Instruction, state: StackState, address: u32)
    ensures
        (code is MemLoadImm || code is LocLoad) && written_address(code) == Some(address) ==> puts(
            instruction_step(code, state),
            state,
            seq![state.loaded(address)],
        ),
        code is MemLoad ==> {
            let step = instruction_step(code, state);
            &&& step is Continue
            &&& goes_on(step, step->state, 1, 1, false)
            &&& step->state.stack.skip(1) == state.popped().stack
            &&& step->state.memory == state.memory
            &&& is_address(state.top(), address) ==> step->state.stack[0] == state.loaded(address)
            &&& is_no_address(state.top()) ==> step->state.stack[0] == Val::Unknown
        },
{
    reveal_with_fuel(StackState::deepened, 2);
    let step = instruction_step(code, state);
    if code is MemLoad {
        assert(step->state.stack.skip(1) =~= state.popped().stack);
        match state.top() {
            Val::Address(a) => {
                assert(is_address(state.top(), a));
            },
            Val::Felt(f) => {
                if f <= u32::MAX {
                    assert(is_address(state.top(), f as u32));
                }
            },
            _ => {},
        }
    }
}

/// What a store of one element wrote is what a load from the same address puts on top.
pub proof fn law_scalar_load_reads_store(
    store: Instruction,
    load: Instruction,
    state: StackState,
    address: u32,
)
    requires
        store is MemStoreImm || store is LocStore,
        load is MemLoadImm || load is LocLoad,
        written_address(store) == Some(address),
        written_address(load) == Some(address),
    ensures
        instruction_step(store, state) is Continue,
        puts(
            instruction_step(load, instruction_step(store, state)->state),
            instruction_step(store, state)->state,
            seq![state.top()],
        ),
{
    law_scalar_store(store, state, address, address);
    law_scalar_load(load, instruction_step(store, state)->state, address);
}

/// Whether memory holds a word at an address: the elements in the order of the stack, or the other
/// way round.
pub open spec fn holds_word(state: StackState, address: u32, word: Seq<Val>, reversed: bool) -> bool {
    forall|i: int|
        0 <= i < 4 ==> state.loaded(#[trigger] address_at(address, i)) == word[if reversed {
            3 - i
        } else {
            i
        }]
}

/// Whether an instruction keeps a word the other way round.
pub open spec fn keeps_reversed(code: Instruction) -> bool {
    match code {
        Instruction::MemLoadWBe | Instruction::MemLoadWBeImm(_) | Instruction::LocLoadWBe(_)
        | Instruction::MemStoreWBe | Instruction::MemStoreWBeImm(_)
        | Instruction::LocStoreWBe(_) => true,
        _ => false,
    }
}

proof fn lemma_stored_all(state: StackState, base: u32, values: Seq<Val>, other: u32)
    requires
        values.len() <= 4,
    ensures
        stored_all(state, base, values).stack == state.stack,
        stored_all(state, base, values).next_input == state.next_input,
        (forall|i: int| 0 <= i < values.len() ==> #[trigger] address_at(base, i) != other)
            ==> stored_all(state, base, values).loaded(other) == state.loaded(other),
    decreases values.len(),
{
    if values.len() > 0 {
        lemma_stored_all(state, base, values.drop_last(), other);
        assert(address_at(base, values.len() - 1) != other || address_at(base, values.len() - 1)
            == other);
    }
}

proof fn lemma_touched_all(state: StackState, values: Seq<Val>)
    ensures
        state.touched_all(values).stack == state.stack,
        state.touched_all(values).memory == state.memory,
        state.touched_all(values).next_input == state.next_input,
    decreases values.len(),
{
    if values.len() > 0 {
        lemma_touched_all(state, values.drop_last());
    }
}

/// A store of a word writes the four topmost elements to the address and those behind it, in the
/// order that the instruction keeps, and leaves them on the stack; no other address changes.
pub proof fn law_word_store(code: Instruction, state: StackState, address: u32, other: u32)
    requires
        has_room(state, 4),
        code is MemStoreWBeImm || code is MemStoreWLeImm || code is LocStoreWBe
            || code is LocStoreWLe,
        written_address(code) == Some(address),
    ensures
        ({
            let step = instruction_step(code, state);
            &&& step is Continue
            &&& goes_on(step, step->state, 0, 0, false)
            &&& step->state.stack == state.deepened(4).stack
            &&& holds_word(
                step->state,
                address,
                Seq::new(4, |i: int| element(state, i)),
                keeps_reversed(code),
            )
            &&& (forall|i: int| 0 <= i < 4 ==> #[trigger] address_at(address, i) != other)
                ==> step->state.loaded(other) == state.loaded(other)
            &&& counts_as_used(step->state.highest_input_touched, state, 4)
        }),
{
    lemma_word_store(code, state, state, address, other);
    lemma_deepened(state, 4);
    let deep = state.deepened(4);
    let taken = deep.stack.take(4);
    lemma_touched(deep, taken);
    let peeked = state.peeked(4);
    lemma_stored_touches(peeked, address, crate::stack_step::ordered(
        taken,
        crate::stack_step::big_endian(code),
    ));
    assert forall|i: int| 0 <= i < 4 implies match #[trigger] element(state, i) {
        Val::Input(index) => index < peeked.highest_input_touched || index == usize::MAX,
        _ => true,
    } by {
        assert(taken[i] == element(state, i));
    }
}

proof fn lemma_touched(state: StackState, values: Seq<Val>)
    ensures
        state.touched_all(values).highest_input_touched >= state.highest_input_touched,
        forall|i: int|
            0 <= i < values.len() ==> match #[trigger] values[i] {
                Val::Input(index) => index < state.touched_all(values).highest_input_touched
                    || index == usize::MAX,
                _ => true,
            },
    decreases values.len(),
{
    if values.len() > 0 {
        let less = values.drop_last();
        lemma_touched(state, less);
        assert forall|i: int| 0 <= i < values.len() implies match #[trigger] values[i] {
            Val::Input(index) => index < state.touched_all(values).highest_input_touched || index
                == usize::MAX,
            _ => true,
        } by {
            if i < less.len() {
                assert(less[i] == values[i]);
            }
        }
    }
}

proof fn lemma_stored_touches(state: StackState, base: u32, values: Seq<Val>)
    ensures
        stored_all(state, base, values).highest_input_touched == state.highest_input_touched,
    decreases values.len(),
{
    if values.len() > 0 {
        lemma_stored_touches(state, base, values.drop_last());
    }
}

proof fn lemma_word_store(
    code: Instruction,
    state: StackState,
    behind: StackState,
    address: u32,
    other: u32,
)
    requires
        has_room(behind, 4),
        crate::stack_step::stores_word(code),
        behind == crate::stack_step::behind_address(code, state),
        crate::stack_step::address_in(code, state) == Some(address),
    ensures
        ({
            let after = crate::stack_step::word_stored(code, state);
            &&& after.stack == behind.deepened(4).stack
            &&& holds_word(
                after,
                address,
                Seq::new(4, |i: int| element(behind, i)),
                keeps_reversed(code),
            )
            &&& (forall|i: int| 0 <= i < 4 ==> #[trigger] address_at(address, i) != other)
                ==> after.loaded(other) == behind.loaded(other)
        }),
{
    lemma_deepened(behind, 4);
    let deep = behind.deepened(4);
    let taken = deep.stack.take(4);
    let values = crate::stack_step::ordered(taken, crate::stack_step::big_endian(code));
    lemma_touched_all(deep, taken);
    let peeked = behind.peeked(4);
    lemma_stored_all(peeked, address, values, other);
    let after = crate::stack_step::word_stored(code, state);
    assert(after == stored_all(peeked, address, values));
    assert(keeps_reversed(code) == crate::stack_step::big_endian(code));
    assert forall|i: int| 0 <= i < 4 implies after.loaded(#[trigger] address_at(address, i))
        == Seq::new(4, |i: int| element(behind, i))[if keeps_reversed(code) {
        3 - i
    } else {
        i
    }] by {
        crate::stack_laws::law_load_reads_stored_word(peeked, address, values, i);
        assert(values[i] == taken[if keeps_reversed(code) {
            3 - i
        } else {
            i
        }]);
    }
}

/// A store of a word to an address from the stack takes the address off and stores the four elements
/// below it; where the address is not known, nothing is known of memory any more.
pub proof fn law_word_store_to(code: Instruction, state: StackState, address: u32, other: u32)
    requires
        has_room(state.popped(), 4),
        code is MemStoreWBe || code is MemStoreWLe,
    ensures
        ({
            let step = instruction_step(code, state);
            let rest = state.popped();
            &&& step is Continue
            &&& goes_on(step, step->state, 1, 0, false)
            &&& step->state.stack == rest.deepened(4).stack
            &&& is_address(state.top(), address) ==> {
                &&& holds_word(
                    step->state,
                    address,
                    Seq::new(4, |i: int| element(rest, i)),
                    keeps_reversed(code),
                )
                &&& (forall|i: int| 0 <= i < 4 ==> #[trigger] address_at(address, i) != other)
                    ==> step->state.loaded(other) == state.loaded(other)
            }
            &&& is_no_address(state.top()) ==> step->state.loaded(other) == Val::Unknown
        }),
{
    let rest = state.popped();
    assert(rest.memory == state.memory) by {
        reveal_with_fuel(StackState::deepened, 2);
    }
    lemma_deepened(rest, 4);
    lemma_touched_all(rest.deepened(4), rest.deepened(4).stack.take(4));
    match state.top() {
        Val::Address(a) => {
            assert(is_address(state.top(), a));
            lemma_word_store(code, state, rest, a, other);
        },
        Val::Felt(f) => {
            if f <= u32::MAX {
                assert(is_address(state.top(), f as u32));
                lemma_word_store(code, state, rest, f as u32, other);
            }
        },
        _ => {},
    }
}

/// A load of a word replaces the four topmost elements by what memory holds at the address and behind
/// it, in the order that the instruction keeps; memory stays as it is. An address from the stack is
/// taken off first, and where it is not known, nothing is known of the elements.
pub proof fn law_word_load(code: Instruction, state: StackState, address: u32)
    requires
        crate::stack_step::loads_word(code),
        written_address(code) is Some || code is MemLoadWBe || code is MemLoadWLe,
    ensures
        ({
            let step = instruction_step(code, state);
            let from_stack = code is MemLoadWBe || code is MemLoadWLe;
            let rest = if from_stack {
                state.popped()
            } else {
                state
            };
            &&& step is Continue
            &&& goes_on(
                step,
                step->state,
                if from_stack {
                    1
                } else {
                    0
                },
                4,
                false,
            )
            &&& step->state.stack.len() == 4 + below(rest, 4).len()
            &&& step->state.stack.skip(4) == below(rest, 4)
            &&& step->state.memory == state.memory
            &&& written_address(code) == Some(address) || (from_stack && is_address(
                state.top(),
                address,
            )) ==> holds_word(
                state,
                address,
                step->state.stack.take(4),
                keeps_reversed(code),
            )
            &&& from_stack && is_no_address(state.top()) ==> forall|i: int|
                0 <= i < 4 ==> #[trigger] step->state.stack[i] == Val::Unknown
        }),
{
    reveal_with_fuel(StackState::deepened, 2);
    let step = instruction_step(code, state);
    let rest = crate::stack_step::behind_address(code, state);
    let used = crate::stack_step::address_in(code, state);
    let word = crate::stack_step::ordered(
        crate::stack_step::word_at(rest, used),
        crate::stack_step::big_endian(code),
    );
    assert(keeps_reversed(code) == crate::stack_step::big_endian(code));
    assert(step->state == rest.replaced_top(4, word));
    assert(word.len() == 4);
    assert(step->state.stack.skip(4) =~= below(rest, 4)) by {
        if rest.stack.len() == 4 {
            assert(rest.stack.skip(4) =~= Seq::<Val>::empty());
        }
    }
    assert(step->state.stack.take(4) =~= word);
    if crate::stack_step::takes_address(code) {
        match state.top() {
            Val::Address(a) => {
                assert(is_address(state.top(), a));
            },
            Val::Felt(f) => {
                if f <= u32::MAX {
                    assert(is_address(state.top(), f as u32));
                }
            },
            _ => {},
        }
    }
    if used == Some(address) {
        assert(holds_word(state, address, word, keeps_reversed(code))) by {
            assert forall|i: int| 0 <= i < 4 implies state.loaded(#[trigger] address_at(address, i))
                == word[if keeps_reversed(code) {
                3 - i
            } else {
                i
            }] by {
                assert(rest.loaded(address_at(address, i)) == state.loaded(address_at(address, i)));
            }
        }
    }
}

/// Whether it is known what an instruction does that refers to no procedure.
pub open spec fn is_understood(code: Instruction) -> bool {
    ||| is_binary(code) || is_unary(code) || is_pairwise(code) || is_pairwise_with_constant(code)
    ||| code is U32OverflowingAdd3 || code is U32WideningAdd3 || code is U32WrappingAdd3
        || code is U32WrappingMadd || code is U32WideningMadd
    ||| code is Ext2Add || code is Ext2Sub || code is Ext2Mul || code is Ext2Div
    ||| code is Eqw || code is U32TestW || code is U32AssertW || code is U32AssertWWithError
    ||| code is Assert || code is AssertWithError || code is Assertz || code is AssertzWithError
        || code is AssertEq || code is AssertEqWithError || code is AssertEqw
        || code is AssertEqwWithError || code is U32Assert2 || code is U32Assert2WithError
    ||| code is Drop || code is DropW || code is PadW || code is Sdepth || code is Clk
    ||| swap_depth(code) is Some || move_up_depth(code) is Some || move_down_depth(code) is Some
        || dup_depth(code) is Some
    ||| block_counts(code) is Some || code is MTreeVerify || code is MTreeVerifyWithError
    ||| code is Nop || code is Debug || code is DebugVar || code is Trace || code is SysEvent
        || code is Emit || code is EmitImm
    ||| code is PushSlice || code is PushFeltList
    ||| match code {
        Instruction::Push(operand) => immediate_felts(operand) is Some,
        Instruction::Locaddr(offset) => immediate_u16(offset) is Some,
        Instruction::AdvPush(count) => immediate_u8(count) is Some,
        _ => false,
    }
    ||| code is MemLoad || code is MemLoadWBe || code is MemLoadWLe || code is MemStore
        || code is MemStoreWBe || code is MemStoreWLe || written_address(code) is Some
}

/// It is known what happens behind these instructions, and behind no other.
pub proof fn law_understood_instructions(code: Instruction, state: StackState)
    requires
        !crate::stack_step::refers(code),
    ensures
        is_understood(code) ==> instruction_step(code, state) is Continue,
        !is_understood(code) ==> gives_up(instruction_step(code, state)),
{
    reveal(swap_depth);
    reveal(move_up_depth);
    reveal(move_down_depth);
}

/// What is said of an instruction behind which nothing is known: that it is not supported, and how it is
/// written. Arithmetic, assertions, moves and accesses to memory are shown as they are written.
#[verifier::rlimit(30)]
pub proof fn law_instruction_texts(code: Instruction, state: StackState)
    requires
        !crate::stack_step::refers(code),
    ensures
        ({
            let step = instruction_step(code, state);
            let written = "`"@ + crate::assembly::instruction_display(code) + "`"@;
            &&& step is Indeterminate ==> crate::stack_flow_laws::doubts(
                step,
                "stack effect unsupported for "@ + written,
            )
            &&& is_binary(code) ==> crate::stack_flow_laws::says(step, 2, 1, written)
            &&& is_unary(code) ==> crate::stack_flow_laws::says(step, 1, 1, written)
            &&& is_pairwise(code) ==> crate::stack_flow_laws::says(step, 2, 2, written)
            &&& is_pairwise_with_constant(code) ==> crate::stack_flow_laws::says(
                step,
                1,
                2,
                written,
            )
        }),
{
}

} // verus!
