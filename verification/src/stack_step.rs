//! What single instructions do to the operand stack.
use miden_assembly_syntax::ast::Instruction;
use vstd::prelude::*;
use vstd::string::StringExecFns;
use crate::assembly::{canonical, canonical_number, immediate_felts, immediate_u16, immediate_u32,
    immediate_u8, instruction_display, instruction_text, operand_felts, operand_u16, operand_u32,
    operand_u8};
use crate::document::{Diagnostic, Finding, Severity};
use crate::position::Range;
use crate::stack_state::{unknown_values, unknowns, vals, StackState, State, Val, Value};
use crate::text::{decimal, join3, push_decimal};

verus! {

/// What an instruction without a rule of its own does.
pub enum GenericEffect {
    /// It takes `popped` elements off, puts those at `preserve_inputs` among them back on top, and
    /// below them as many unknown elements as make up `pushed`.
    Transform { popped: usize, pushed: usize, preserve_inputs: Vec<usize> },
    /// Its effect is not known.
    Unsupported,
}

/// The model of a generic effect.
pub enum Shape {
    Transform { popped: nat, pushed: nat, preserved: Seq<int> },
    Unsupported,
}

impl View for GenericEffect {
    type V = Shape;

    open spec fn view(&self) -> Shape {
        match *self {
            GenericEffect::Transform { popped, pushed, preserve_inputs } => Shape::Transform {
                popped: popped as nat,
                pushed: pushed as nat,
                preserved: Seq::new(preserve_inputs@.len(), |i: int| preserve_inputs@[i] as int),
            },
            GenericEffect::Unsupported => Shape::Unsupported,
        }
    }
}

/// Takes elements off and puts unknown ones on.
pub open spec fn plain_shape(popped: nat, pushed: nat) -> Shape {
    Shape::Transform { popped, pushed, preserved: Seq::empty() }
}

/// Looks at the element `n` below the top and lists it before the elements down to it.
pub open spec fn dup_shape(n: nat, pushed: nat) -> Shape {
    Shape::Transform { popped: 0, pushed, preserved: seq![n as int] + Seq::new(n + 1, |i: int| i) }
}

/// Exchanges the top with the element `n` below it.
pub open spec fn swap_shape(n: nat) -> Shape {
    Shape::Transform {
        popped: n + 1,
        pushed: n + 1,
        preserved: Seq::new(
            n + 1,
            |i: int|
                if i == 0 {
                    n as int
                } else if i == n {
                    0
                } else {
                    i
                },
        ),
    }
}

/// Moves the element `n` below the top to the top.
pub open spec fn move_up_shape(n: nat) -> Shape {
    Shape::Transform {
        popped: n + 1,
        pushed: n + 1,
        preserved: Seq::new(
            n + 1,
            |i: int|
                if i == 0 {
                    n as int
                } else {
                    i - 1
                },
        ),
    }
}

/// Moves the top to `n` below the top.
pub open spec fn move_down_shape(n: nat) -> Shape {
    Shape::Transform {
        popped: n + 1,
        pushed: n + 1,
        preserved: Seq::new(
            n + 1,
            |i: int|
                if i == n {
                    0
                } else {
                    i + 1
                },
        ),
    }
}

/// What an instruction without a rule of its own does.
pub open spec fn generic_shape(code: Instruction) -> Shape {
    match code {
        Instruction::Assert | Instruction::AssertWithError(_) | Instruction::Assertz
        | Instruction::AssertzWithError(_) => plain_shape(1, 0),
        Instruction::AssertEq | Instruction::AssertEqWithError(_) => plain_shape(2, 0),
        Instruction::AssertEqw | Instruction::AssertEqwWithError(_) => plain_shape(8, 0),
        Instruction::Add | Instruction::Sub | Instruction::Mul | Instruction::Div | Instruction::And
        | Instruction::Or | Instruction::Xor | Instruction::Eq | Instruction::Neq | Instruction::Lt
        | Instruction::Lte | Instruction::Gt | Instruction::Gte | Instruction::U32WrappingAdd
        | Instruction::U32WrappingSub | Instruction::U32WrappingMul | Instruction::U32And
        | Instruction::U32Or | Instruction::U32Xor | Instruction::U32Lt | Instruction::U32Lte
        | Instruction::U32Gt | Instruction::U32Gte | Instruction::U32Min | Instruction::U32Max
        | Instruction::Exp => plain_shape(2, 1),
        Instruction::AddImm(_) | Instruction::SubImm(_) | Instruction::MulImm(_)
        | Instruction::DivImm(_) | Instruction::Neg | Instruction::ILog2 | Instruction::Inv
        | Instruction::Incr | Instruction::Pow2 | Instruction::ExpImm(_)
        | Instruction::ExpBitLength(_) | Instruction::Not | Instruction::EqImm(_)
        | Instruction::NeqImm(_) | Instruction::IsOdd | Instruction::U32Test
        | Instruction::U32Assert | Instruction::U32AssertWithError(_) | Instruction::U32Cast
        | Instruction::U32Not | Instruction::U32ShrImm(_) | Instruction::U32ShlImm(_)
        | Instruction::U32RotrImm(_) | Instruction::U32RotlImm(_) | Instruction::U32Popcnt
        | Instruction::U32Ctz | Instruction::U32Clz | Instruction::U32Clo | Instruction::U32Cto
        | Instruction::EmitImm(_) | Instruction::U32WrappingAddImm(_)
        | Instruction::U32WrappingSubImm(_) | Instruction::U32WrappingMulImm(_) => plain_shape(1, 1),
        Instruction::Eqw | Instruction::U32TestW | Instruction::U32AssertW
        | Instruction::U32AssertWWithError(_) => plain_shape(4, 1),
        Instruction::U32Assert2 | Instruction::U32Assert2WithError(_) => Shape::Transform {
            popped: 2,
            pushed: 2,
            preserved: seq![0, 1],
        },
        Instruction::U32Split | Instruction::U32OverflowingAdd | Instruction::U32OverflowingSub
        | Instruction::U32WideningAdd | Instruction::U32WideningMul | Instruction::U32Div
        | Instruction::U32Mod | Instruction::U32DivMod | Instruction::Ext2Neg
        | Instruction::Ext2Inv => plain_shape(2, 2),
        Instruction::U32OverflowingAddImm(_) | Instruction::U32OverflowingSubImm(_)
        | Instruction::U32WideningAddImm(_) | Instruction::U32WideningMulImm(_)
        | Instruction::U32DivImm(_) | Instruction::U32ModImm(_)
        | Instruction::U32DivModImm(_) => plain_shape(1, 2),
        Instruction::U32OverflowingAdd3 | Instruction::U32WideningAdd3 => plain_shape(3, 2),
        Instruction::U32WrappingAdd3 | Instruction::U32WrappingMadd
        | Instruction::U32WideningMadd => plain_shape(3, 1),
        Instruction::Ext2Add | Instruction::Ext2Sub | Instruction::Ext2Div
        | Instruction::Ext2Mul => plain_shape(4, 2),
        Instruction::Drop => plain_shape(1, 0),
        Instruction::Dup0 => dup_shape(0, 2),
        Instruction::Dup1 => dup_shape(1, 3),
        Instruction::Dup2 => dup_shape(2, 4),
        Instruction::Dup3 => dup_shape(3, 5),
        Instruction::Dup4 => dup_shape(4, 6),
        Instruction::Dup5 => dup_shape(5, 7),
        Instruction::Dup6 => dup_shape(6, 8),
        Instruction::Dup7 => dup_shape(7, 9),
        Instruction::Dup8 => dup_shape(8, 10),
        Instruction::Dup9 => dup_shape(9, 10),
        Instruction::Dup10 => dup_shape(10, 11),
        Instruction::Dup11 => dup_shape(11, 12),
        Instruction::Dup12 => dup_shape(12, 13),
        Instruction::Dup13 => dup_shape(13, 14),
        Instruction::Dup14 => dup_shape(14, 15),
        Instruction::Dup15 => dup_shape(15, 16),
        Instruction::Swap1 => swap_shape(1),
        Instruction::Swap2 => swap_shape(2),
        Instruction::Swap3 => swap_shape(3),
        Instruction::Swap4 => swap_shape(4),
        Instruction::MovUp2 => move_up_shape(2),
        Instruction::MovUp3 => move_up_shape(3),
        Instruction::MovUp4 => move_up_shape(4),
        Instruction::MovUp5 => move_up_shape(5),
        Instruction::MovUp6 => move_up_shape(6),
        Instruction::MovUp7 => move_up_shape(7),
        Instruction::MovUp8 => move_up_shape(8),
        Instruction::MovDn2 => move_down_shape(2),
        Instruction::MovDn3 => move_down_shape(3),
        Instruction::MovDn4 => move_down_shape(4),
        Instruction::MovDn5 => move_down_shape(5),
        Instruction::MovDn6 => move_down_shape(6),
        Instruction::MovDn7 => move_down_shape(7),
        Instruction::MovDn8 => move_down_shape(8),
        _ => Shape::Unsupported,
    }
}

fn plain(popped: usize, pushed: usize) -> (effect: GenericEffect)
    ensures
        effect@ == plain_shape(popped as nat, pushed as nat),
{
    let effect = GenericEffect::Transform { popped, pushed, preserve_inputs: Vec::new() };
    assert(effect@->preserved =~= Seq::<int>::empty());
    effect
}

fn dup(n: usize, pushed: usize) -> (effect: GenericEffect)
    requires
        n < 16,
    ensures
        effect@ == dup_shape(n as nat, pushed as nat),
{
    let mut preserve_inputs: Vec<usize> = vec![n];
    let mut i: usize = 0;
    while i <= n
        invariant
            i <= n + 1,
            n < 16,
            preserve_inputs@.len() == i + 1,
            preserve_inputs@[0] == n,
            forall|k: int| 1 <= k <= i ==> preserve_inputs@[k] as int == k - 1,
        decreases n + 1 - i,
    {
        preserve_inputs.push(i);
        i = i + 1;
    }
    let effect = GenericEffect::Transform { popped: 0, pushed, preserve_inputs };
    assert(effect@->preserved =~= dup_shape(n as nat, pushed as nat)->preserved);
    effect
}

fn swap(n: usize) -> (effect: GenericEffect)
    requires
        n < 16,
    ensures
        effect@ == swap_shape(n as nat),
{
    let mut preserve_inputs: Vec<usize> = Vec::new();
    let mut i: usize = 0;
    while i <= n
        invariant
            i <= n + 1,
            n < 16,
            preserve_inputs@.len() == i,
            forall|k: int|
                0 <= k < i ==> preserve_inputs@[k] as int == swap_shape(n as nat)->preserved[k],
        decreases n + 1 - i,
    {
        preserve_inputs.push(
            if i == 0 {
                n
            } else if i == n {
                0
            } else {
                i
            },
        );
        i = i + 1;
    }
    let effect = GenericEffect::Transform { popped: n + 1, pushed: n + 1, preserve_inputs };
    assert(effect@->preserved =~= swap_shape(n as nat)->preserved);
    effect
}

fn move_up(n: usize) -> (effect: GenericEffect)
    requires
        n < 16,
    ensures
        effect@ == move_up_shape(n as nat),
{
    let mut preserve_inputs: Vec<usize> = Vec::new();
    let mut i: usize = 0;
    while i <= n
        invariant
            i <= n + 1,
            n < 16,
            preserve_inputs@.len() == i,
            forall|k: int|
                0 <= k < i ==> preserve_inputs@[k] as int == move_up_shape(n as nat)->preserved[k],
        decreases n + 1 - i,
    {
        preserve_inputs.push(
            if i == 0 {
                n
            } else {
                i - 1
            },
        );
        i = i + 1;
    }
    let effect = GenericEffect::Transform { popped: n + 1, pushed: n + 1, preserve_inputs };
    assert(effect@->preserved =~= move_up_shape(n as nat)->preserved);
    effect
}

fn move_down(n: usize) -> (effect: GenericEffect)
    requires
        n < 16,
    ensures
        effect@ == move_down_shape(n as nat),
{
    let mut preserve_inputs: Vec<usize> = Vec::new();
    let mut i: usize = 0;
    while i <= n
        invariant
            i <= n + 1,
            n < 16,
            preserve_inputs@.len() == i,
            forall|k: int|
                0 <= k < i ==> preserve_inputs@[k] as int == move_down_shape(
                    n as nat,
                )->preserved[k],
        decreases n + 1 - i,
    {
        preserve_inputs.push(
            if i == n {
                0
            } else {
                i + 1
            },
        );
        i = i + 1;
    }
    let effect = GenericEffect::Transform { popped: n + 1, pushed: n + 1, preserve_inputs };
    assert(effect@->preserved =~= move_down_shape(n as nat)->preserved);
    effect
}

/// What an instruction without a rule of its own does.
pub fn generic_effect(instruction: &Instruction) -> (effect: GenericEffect)
    ensures
        effect@ == generic_shape(*instruction),
{
    match instruction {
        Instruction::Assert | Instruction::AssertWithError(_) | Instruction::Assertz
        | Instruction::AssertzWithError(_) => plain(1, 0),
        Instruction::AssertEq | Instruction::AssertEqWithError(_) => plain(2, 0),
        Instruction::AssertEqw | Instruction::AssertEqwWithError(_) => plain(8, 0),
        Instruction::Add | Instruction::Sub | Instruction::Mul | Instruction::Div | Instruction::And
        | Instruction::Or | Instruction::Xor | Instruction::Eq | Instruction::Neq | Instruction::Lt
        | Instruction::Lte | Instruction::Gt | Instruction::Gte | Instruction::U32WrappingAdd
        | Instruction::U32WrappingSub | Instruction::U32WrappingMul | Instruction::U32And
        | Instruction::U32Or | Instruction::U32Xor | Instruction::U32Lt | Instruction::U32Lte
        | Instruction::U32Gt | Instruction::U32Gte | Instruction::U32Min
        | Instruction::U32Max => plain(2, 1),
        Instruction::AddImm(_) | Instruction::SubImm(_) | Instruction::MulImm(_)
        | Instruction::DivImm(_) | Instruction::Neg | Instruction::ILog2 | Instruction::Inv
        | Instruction::Incr | Instruction::Pow2 | Instruction::ExpImm(_)
        | Instruction::ExpBitLength(_) | Instruction::Not | Instruction::EqImm(_)
        | Instruction::NeqImm(_) | Instruction::IsOdd | Instruction::U32Test
        | Instruction::U32Assert | Instruction::U32AssertWithError(_) | Instruction::U32Cast
        | Instruction::U32Not | Instruction::U32ShrImm(_) | Instruction::U32ShlImm(_)
        | Instruction::U32RotrImm(_) | Instruction::U32RotlImm(_) | Instruction::U32Popcnt
        | Instruction::U32Ctz | Instruction::U32Clz | Instruction::U32Clo | Instruction::U32Cto
        | Instruction::EmitImm(_) => plain(1, 1),
        Instruction::Exp => plain(2, 1),
        Instruction::Eqw | Instruction::U32TestW | Instruction::U32AssertW
        | Instruction::U32AssertWWithError(_) => plain(4, 1),
        Instruction::U32Assert2 | Instruction::U32Assert2WithError(_) => {
            let effect = GenericEffect::Transform {
                popped: 2,
                pushed: 2,
                preserve_inputs: vec![0, 1],
            };
            assert(effect@->preserved =~= seq![0, 1]);
            effect
        },
        Instruction::U32Split | Instruction::U32OverflowingAdd | Instruction::U32OverflowingSub
        | Instruction::U32WideningAdd | Instruction::U32WideningMul | Instruction::U32Div
        | Instruction::U32Mod | Instruction::U32DivMod => plain(2, 2),
        Instruction::U32OverflowingAddImm(_) | Instruction::U32OverflowingSubImm(_)
        | Instruction::U32WideningAddImm(_) | Instruction::U32WideningMulImm(_)
        | Instruction::U32DivImm(_) | Instruction::U32ModImm(_)
        | Instruction::U32DivModImm(_) => plain(1, 2),
        Instruction::U32WrappingAddImm(_) | Instruction::U32WrappingSubImm(_)
        | Instruction::U32WrappingMulImm(_) => plain(1, 1),
        Instruction::U32OverflowingAdd3 | Instruction::U32WideningAdd3 => plain(3, 2),
        Instruction::U32WrappingAdd3 | Instruction::U32WrappingMadd
        | Instruction::U32WideningMadd => plain(3, 1),
        Instruction::Ext2Add | Instruction::Ext2Sub | Instruction::Ext2Div => plain(4, 2),
        Instruction::Ext2Mul => plain(4, 2),
        Instruction::Ext2Neg | Instruction::Ext2Inv => plain(2, 2),
        Instruction::Drop => plain(1, 0),
        Instruction::Dup0 => dup(0, 2),
        Instruction::Dup1 => dup(1, 3),
        Instruction::Dup2 => dup(2, 4),
        Instruction::Dup3 => dup(3, 5),
        Instruction::Dup4 => dup(4, 6),
        Instruction::Dup5 => dup(5, 7),
        Instruction::Dup6 => dup(6, 8),
        Instruction::Dup7 => dup(7, 9),
        Instruction::Dup8 => dup(8, 10),
        Instruction::Dup9 => dup(9, 10),
        Instruction::Dup10 => dup(10, 11),
        Instruction::Dup11 => dup(11, 12),
        Instruction::Dup12 => dup(12, 13),
        Instruction::Dup13 => dup(13, 14),
        Instruction::Dup14 => dup(14, 15),
        Instruction::Dup15 => dup(15, 16),
        Instruction::Swap1 => swap(1),
        Instruction::Swap2 => swap(2),
        Instruction::Swap3 => swap(3),
        Instruction::Swap4 => swap(4),
        Instruction::MovUp2 => move_up(2),
        Instruction::MovUp3 => move_up(3),
        Instruction::MovUp4 => move_up(4),
        Instruction::MovUp5 => move_up(5),
        Instruction::MovUp6 => move_up(6),
        Instruction::MovUp7 => move_up(7),
        Instruction::MovUp8 => move_up(8),
        Instruction::MovDn2 => move_down(2),
        Instruction::MovDn3 => move_down(3),
        Instruction::MovDn4 => move_down(4),
        Instruction::MovDn5 => move_down(5),
        Instruction::MovDn6 => move_down(6),
        Instruction::MovDn7 => move_down(7),
        Instruction::MovDn8 => move_down(8),
        _ => GenericEffect::Unsupported,
    }
}

/// What is shown at an instruction.
pub struct OverlayInfo {
    pub hover_markdown: String,
    pub inlay_label: String,
    pub show_inlay: bool,
}

/// The model of what is shown at an instruction.
pub struct Overlay {
    pub hover_markdown: Seq<char>,
    pub inlay_label: Seq<char>,
    pub show_inlay: bool,
}

impl View for OverlayInfo {
    type V = Overlay;

    open spec fn view(&self) -> Overlay {
        Overlay {
            hover_markdown: self.hover_markdown@,
            inlay_label: self.inlay_label@,
            show_inlay: self.show_inlay,
        }
    }
}

/// The word for a number of field elements.
pub open spec fn felt_word(count: nat) -> Seq<char> {
    if count == 1 {
        "felt"@
    } else {
        "felts"@
    }
}

/// What is shown for a known effect.
pub open spec fn effect_overlay(popped: nat, pushed: nat, detail: Seq<char>, show: bool) -> Overlay {
    Overlay {
        hover_markdown: "**Stack Effect**\n\nConsumes `"@ + decimal(popped) + "` "@ + felt_word(popped)
            + " and produces `"@ + decimal(pushed) + "` "@ + felt_word(pushed) + ".\n\n"@ + detail,
        inlay_label: "["@ + decimal(popped) + "->"@ + decimal(pushed) + "]"@,
        show_inlay: show,
    }
}

/// What is shown where the effect is not known.
pub open spec fn undetermined_overlay(message: Seq<char>) -> Overlay {
    Overlay {
        hover_markdown: "**Stack Effect**\n\n"@ + message,
        inlay_label: "[?]"@,
        show_inlay: true,
    }
}

fn felts(count: usize) -> (word: &'static str)
    ensures
        word@ == felt_word(count as nat),
{
    if count == 1 {
        "felt"
    } else {
        "felts"
    }
}

impl OverlayInfo {
    /// What is shown for a known effect.
    pub fn effect(popped: usize, pushed: usize, detail: &str) -> (overlay: OverlayInfo)
        ensures
            overlay@ == effect_overlay(popped as nat, pushed as nat, detail@, false),
    {
        let mut hover_markdown = "**Stack Effect**\n\nConsumes `".to_owned();
        push_decimal(&mut hover_markdown, popped as u64);
        hover_markdown.append("` ");
        hover_markdown.append(felts(popped));
        hover_markdown.append(" and produces `");
        push_decimal(&mut hover_markdown, pushed as u64);
        hover_markdown.append("` ");
        hover_markdown.append(felts(pushed));
        hover_markdown.append(".\n\n");
        hover_markdown.append(detail);
        let mut inlay_label = "[".to_owned();
        push_decimal(&mut inlay_label, popped as u64);
        inlay_label.append("->");
        push_decimal(&mut inlay_label, pushed as u64);
        inlay_label.append("]");
        OverlayInfo { hover_markdown, inlay_label, show_inlay: false }
    }

    /// What is shown for a known effect that deserves a hint in the text.
    pub fn highlighted_effect(popped: usize, pushed: usize, detail: &str) -> (overlay: OverlayInfo)
        ensures
            overlay@ == effect_overlay(popped as nat, pushed as nat, detail@, true),
    {
        let mut overlay = OverlayInfo::effect(popped, pushed, detail);
        overlay.show_inlay = true;
        overlay
    }

    /// What is shown where the effect is not known.
    pub fn undetermined(message: &str) -> (overlay: OverlayInfo)
        ensures
            overlay@ == undetermined_overlay(message@),
    {
        let mut hover_markdown = "**Stack Effect**\n\n".to_owned();
        hover_markdown.append(message);
        OverlayInfo { hover_markdown, inlay_label: "[?]".to_owned(), show_inlay: true }
    }
}

/// The result of following one element of a body.
pub enum StepResult {
    /// The state behind it is known.
    Continue { state: State, overlay: OverlayInfo },
    /// Nothing is known behind it.
    Indeterminate { diagnostic: Option<Diagnostic>, overlay: OverlayInfo },
}

/// The model of the result of one step.
pub enum Step {
    Continue { state: StackState, overlay: Overlay },
    Indeterminate { warning: Option<Finding>, overlay: Overlay },
}

impl View for StepResult {
    type V = Step;

    open spec fn view(&self) -> Step {
        match *self {
            StepResult::Continue { state, overlay } => Step::Continue {
                state: state@,
                overlay: overlay@,
            },
            StepResult::Indeterminate { diagnostic, overlay } => Step::Indeterminate {
                warning: match diagnostic {
                    Some(diagnostic) => Some(diagnostic@),
                    None => None,
                },
                overlay: overlay@,
            },
        }
    }
}

/// The state behind the element is known.
pub open spec fn step_on(state: StackState, popped: nat, pushed: nat, detail: Seq<char>) -> Step {
    Step::Continue { state, overlay: effect_overlay(popped, pushed, detail, false) }
}

/// The state behind the element is known, and a hint shows it.
pub open spec fn step_shown(state: StackState, popped: nat, pushed: nat, detail: Seq<char>) -> Step {
    Step::Continue { state, overlay: effect_overlay(popped, pushed, detail, true) }
}

/// Nothing is known behind the element, and a warning says so.
pub open spec fn step_warned(range: Range, message: Seq<char>) -> Step {
    Step::Indeterminate {
        warning: Some(Finding { range, severity: Severity::Warning, message }),
        overlay: undetermined_overlay(message),
    }
}

/// Nothing is known behind the element.
pub open spec fn step_lost(message: Seq<char>) -> Step {
    Step::Indeterminate { warning: None, overlay: undetermined_overlay(message) }
}

impl StepResult {
    pub fn continue_with(state: State, popped: usize, pushed: usize, detail: &str) -> (result:
        StepResult)
        ensures
            result@ == step_on(state@, popped as nat, pushed as nat, detail@),
    {
        StepResult::Continue { state, overlay: OverlayInfo::effect(popped, pushed, detail) }
    }

    pub fn continue_with_highlight(
        state: State,
        popped: usize,
        pushed: usize,
        detail: &str,
    ) -> (result: StepResult)
        ensures
            result@ == step_shown(state@, popped as nat, pushed as nat, detail@),
    {
        StepResult::Continue {
            state,
            overlay: OverlayInfo::highlighted_effect(popped, pushed, detail),
        }
    }

    pub fn warning(range: Range, message: &str) -> (result: StepResult)
        ensures
            result@ == step_warned(range, message@),
    {
        StepResult::Indeterminate {
            diagnostic: Some(
                Diagnostic { range, severity: Severity::Warning, message: message.to_owned() },
            ),
            overlay: OverlayInfo::undetermined(message),
        }
    }

    pub fn indeterminate_without_diagnostic(message: &str) -> (result: StepResult)
        ensures
            result@ == step_lost(message@),
    {
        StepResult::Indeterminate { diagnostic: None, overlay: OverlayInfo::undetermined(message) }
    }
}

/// The address that a value is known to be.
pub open spec fn address_of(value: Val) -> Option<u32> {
    match value {
        Val::Address(address) => Some(address),
        Val::Felt(felt) => if felt <= u32::MAX {
            Some(felt as u32)
        } else {
            None
        },
        _ => None,
    }
}

/// The address that a value is known to be.
pub fn known_address(value: &Value) -> (address: Option<u32>)
    ensures
        address == address_of(value@),
{
    match value {
        Value::Address(address) => Some(*address),
        Value::Felt(felt) => if *felt <= 0xffff_ffff {
            Some(*felt as u32)
        } else {
            None
        },
        _ => None,
    }
}

/// The address `offset` behind `base`; addresses start again at zero behind the last one.
pub open spec fn address_at(base: u32, offset: int) -> u32 {
    ((base + offset) % 0x1_0000_0000) as u32
}

fn next_address(base: u32, offset: u32) -> (address: u32)
    requires
        offset < 4,
    ensures
        address == address_at(base, offset as int),
{
    ((base as u64 + offset as u64) % 0x1_0000_0000) as u32
}

/// The address that an instruction holds as an operand.
pub open spec fn operand_address(code: Instruction) -> Option<u32> {
    match code {
        Instruction::MemLoadImm(address) | Instruction::MemLoadWBeImm(address)
        | Instruction::MemLoadWLeImm(address) | Instruction::MemStoreImm(address)
        | Instruction::MemStoreWBeImm(address)
        | Instruction::MemStoreWLeImm(address) => immediate_u32(address),
        Instruction::LocLoad(offset) | Instruction::LocLoadWBe(offset)
        | Instruction::LocLoadWLe(offset) | Instruction::LocStore(offset)
        | Instruction::LocStoreWBe(offset)
        | Instruction::LocStoreWLe(offset) => match immediate_u16(offset) {
            Some(offset) => Some(offset as u32),
            None => None,
        },
        _ => None,
    }
}

/// Whether an instruction takes its address from the stack.
pub open spec fn takes_address(code: Instruction) -> bool {
    code is MemLoad || code is MemLoadWBe || code is MemLoadWLe || code is MemStore
        || code is MemStoreWBe || code is MemStoreWLe
}

/// Whether an instruction keeps words in memory with the top of the stack last.
pub open spec fn big_endian(code: Instruction) -> bool {
    code is MemLoadWBe || code is MemLoadWBeImm || code is LocLoadWBe || code is MemStoreWBe
        || code is MemStoreWBeImm || code is LocStoreWBe
}

/// Whether an instruction loads or stores at an address.
pub open spec fn uses_memory(code: Instruction) -> bool {
    loads_scalar(code) || loads_word(code) || stores_scalar(code) || stores_word(code)
}

pub open spec fn loads_scalar(code: Instruction) -> bool {
    code is MemLoad || code is MemLoadImm || code is LocLoad
}

pub open spec fn loads_word(code: Instruction) -> bool {
    code is MemLoadWBe || code is MemLoadWBeImm || code is MemLoadWLe || code is MemLoadWLeImm
        || code is LocLoadWBe || code is LocLoadWLe
}

pub open spec fn stores_scalar(code: Instruction) -> bool {
    code is MemStore || code is MemStoreImm || code is LocStore
}

pub open spec fn stores_word(code: Instruction) -> bool {
    code is MemStoreWBe || code is MemStoreWBeImm || code is MemStoreWLe || code is MemStoreWLeImm
        || code is LocStoreWBe || code is LocStoreWLe
}

/// The address that an instruction uses in a state, if it is known.
pub open spec fn address_in(code: Instruction, state: StackState) -> Option<u32> {
    if takes_address(code) {
        address_of(state.top())
    } else {
        operand_address(code)
    }
}

/// The state when the instruction has its address.
pub open spec fn behind_address(code: Instruction, state: StackState) -> StackState {
    if takes_address(code) {
        state.popped()
    } else {
        state
    }
}

/// Puts the first element last where `reverse` holds.
pub open spec fn ordered(values: Seq<Val>, reverse: bool) -> Seq<Val> {
    if reverse {
        values.reverse()
    } else {
        values
    }
}

/// The word at an address.
pub open spec fn word_at(state: StackState, address: Option<u32>) -> Seq<Val> {
    match address {
        Some(base) => Seq::new(4, |i: int| state.loaded(address_at(base, i))),
        None => unknowns(4),
    }
}

/// Writes `values` to an address and those behind it.
pub open spec fn stored_all(state: StackState, base: u32, values: Seq<Val>) -> StackState
    decreases values.len(),
{
    if values.len() == 0 {
        state
    } else {
        stored_all(state, base, values.drop_last()).stored(
            address_at(base, values.len() - 1),
            values.last(),
        )
    }
}

/// What a load of one element does.
pub open spec fn scalar_loaded(code: Instruction, state: StackState) -> StackState {
    let behind = behind_address(code, state);
    behind.pushed(
        match address_in(code, state) {
            Some(address) => behind.loaded(address),
            None => Val::Unknown,
        },
    )
}

/// What a load of a word does.
pub open spec fn word_loaded(code: Instruction, state: StackState) -> StackState {
    let behind = behind_address(code, state);
    behind.replaced_top(4, ordered(word_at(behind, address_in(code, state)), big_endian(code)))
}

/// What a store of one element does: where the address is not known, nothing is known of memory
/// any more.
pub open spec fn scalar_stored(code: Instruction, state: StackState) -> StackState {
    let rest = state.popped();
    let behind = behind_address(code, rest);
    match address_in(code, rest) {
        Some(address) => behind.stored(address, state.top()),
        None => behind.forgotten(),
    }
}

/// What a store of a word does: the word stays on the stack.
pub open spec fn word_stored(code: Instruction, state: StackState) -> StackState {
    let behind = behind_address(code, state);
    let values = ordered(behind.deepened(4).stack.take(4), big_endian(code));
    match address_in(code, state) {
        Some(address) => stored_all(behind.peeked(4), address, values),
        None => behind.peeked(4).forgotten(),
    }
}

/// How many elements an access to memory is said to consume.
pub open spec fn memory_inputs(code: Instruction) -> nat {
    if code is MemStore {
        2
    } else if takes_address(code) || stores_scalar(code) {
        1
    } else {
        0
    }
}

/// Looks up the address that `code` uses; `None` where it is not known.
fn find_address(code: &Instruction, state: &mut State) -> (address: Option<u32>)
    requires
        uses_memory(*code),
    ensures
        address == address_in(*code, old(state)@),
        final(state)@ == behind_address(*code, old(state)@),
{
    match code {
        Instruction::MemLoadImm(address) | Instruction::MemLoadWBeImm(address)
        | Instruction::MemLoadWLeImm(address) | Instruction::MemStoreImm(address)
        | Instruction::MemStoreWBeImm(address)
        | Instruction::MemStoreWLeImm(address) => operand_u32(address),
        Instruction::LocLoad(offset) | Instruction::LocLoadWBe(offset)
        | Instruction::LocLoadWLe(offset) | Instruction::LocStore(offset)
        | Instruction::LocStoreWBe(offset) | Instruction::LocStoreWLe(offset) => match operand_u16(
            offset,
        ) {
            Some(offset) => Some(offset as u32),
            None => None,
        },
        _ => {
            let address = state.pop();
            known_address(&address)
        },
    }
}

fn is_big_endian(code: &Instruction) -> (result: bool)
    ensures
        result == big_endian(*code),
{
    match code {
        Instruction::MemLoadWBe | Instruction::MemLoadWBeImm(_) | Instruction::LocLoadWBe(_)
        | Instruction::MemStoreWBe | Instruction::MemStoreWBeImm(_)
        | Instruction::LocStoreWBe(_) => true,
        _ => false,
    }
}

/// The values in the opposite order.
fn reversed(values: Vec<Value>) -> (result: Vec<Value>)
    ensures
        vals(result@) == vals(values@).reverse(),
        result@.len() == values@.len(),
{
    let ghost all = vals(values@);
    let mut values = values;
    let mut result: Vec<Value> = Vec::new();
    let ghost mut left: int = values@.len() as int;
    while values.len() > 0
        invariant
            left == values@.len(),
            0 <= left <= all.len(),
            vals(values@) == all.take(left),
            vals(result@) == all.reverse().take(all.len() - left),
        decreases values.len(),
    {
        let ghost before = vals(result@);
        let ghost shown = vals(values@);
        if let Some(value) = values.pop() {
            assert(value@ == shown[left - 1]);
            result.push(value);
            assert(vals(result@) =~= before.push(value@));
            assert(vals(values@) =~= all.take(left - 1));
            assert(vals(result@) =~= all.reverse().take(all.len() - left + 1));
        }
        proof {
            left = left - 1;
        }
    }
    assert(all.reverse().take(all.len() as int) =~= all.reverse());
    assert(result@.len() == vals(result@).len());
    result
}

/// Loads one element.
pub fn load_scalar(code: &Instruction, state: &mut State)
    requires
        loads_scalar(*code),
    ensures
        final(state)@ == scalar_loaded(*code, old(state)@),
{
    let value = match find_address(code, state) {
        Some(address) => state.load(address),
        None => Value::Unknown,
    };
    state.push(value);
}

/// Loads a word.
pub fn load_word(code: &Instruction, state: &mut State)
    requires
        loads_word(*code),
    ensures
        final(state)@ == word_loaded(*code, old(state)@),
{
    let address = find_address(code, state);
    let ghost word = word_at(state@, address);
    let mut values: Vec<Value> = Vec::new();
    let mut i: u32 = 0;
    while i < 4
        invariant
            i <= 4,
            word == word_at(state@, address),
            word.len() == 4,
            vals(values@) == word.take(i as int),
            state@ == behind_address(*code, old(state)@),
        decreases 4 - i,
    {
        let value = match address {
            Some(base) => state.load(next_address(base, i)),
            None => Value::Unknown,
        };
        let ghost before = vals(values@);
        values.push(value);
        assert(vals(values@) =~= before.push(value@));
        assert(vals(values@) =~= word.take(i + 1));
        i = i + 1;
    }
    assert(word.take(4) =~= word);
    if is_big_endian(code) {
        values = reversed(values);
    }
    state.replace_top_many(4, values);
}

/// Stores one element.
pub fn store_scalar(code: &Instruction, state: &mut State)
    requires
        stores_scalar(*code),
    ensures
        final(state)@ == scalar_stored(*code, old(state)@),
{
    let value = state.pop();
    match find_address(code, state) {
        Some(address) => state.store(address, value),
        None => state.clear_known_memory(),
    }
}

/// Stores a word.
pub fn store_word(code: &Instruction, state: &mut State)
    requires
        stores_word(*code),
    ensures
        final(state)@ == word_stored(*code, old(state)@),
{
    let address = find_address(code, state);
    let mut values = state.peek_many(4);
    if is_big_endian(code) {
        values = reversed(values);
    }
    let ghost all = vals(values@);
    let ghost start = state@;
    match address {
        Some(base) => {
            let mut i: u32 = 0;
            assert(all.take(0) =~= Seq::<Val>::empty());
            while i < 4
                invariant
                    i <= 4,
                    values@.len() == 4,
                    all == vals(values@),
                    state@ == stored_all(start, base, all.take(i as int)),
                decreases 4 - i,
            {
                let value = values[i as usize].copy();
                assert(all.take(i + 1).drop_last() =~= all.take(i as int));
                assert(all.take(i + 1).last() == value@);
                state.store(next_address(base, i), value);
                i = i + 1;
            }
            assert(all.take(4) =~= all);
        },
        None => state.clear_known_memory(),
    }
}

/// Whether what an instruction does depends on more than the stack: calls and references to
/// procedures.
pub open spec fn refers(code: Instruction) -> bool {
    code is ProcRef || code is Exec || code is Call || code is SysCall || code is DynExec
        || code is DynCall
}

/// An instruction's text in backquotes.
pub open spec fn quoted(code: Instruction) -> Seq<char> {
    "`"@ + instruction_display(code) + "`"@
}

fn quote(code: &Instruction) -> (text: String)
    requires
        !(code is ProcRef),
    ensures
        text@ == quoted(*code),
{
    join3("`", &instruction_text(code), "`")
}

/// The step for an instruction whose effect is not known.
pub open spec fn step_unsupported(code: Instruction) -> Step {
    step_lost("stack effect unsupported for "@ + quoted(code))
}

fn unsupported(code: &Instruction) -> (result: StepResult)
    requires
        !(code is ProcRef),
    ensures
        result@ == step_unsupported(*code),
{
    let mut message = "stack effect unsupported for ".to_owned();
    message.append(&quote(code));
    StepResult::indeterminate_without_diagnostic(&message)
}

/// The values of a list of constants.
pub open spec fn felt_vals(felts: Seq<u64>) -> Seq<Val> {
    Seq::new(felts.len(), |i: int| Val::Felt(felts[i]))
}

/// The elements that a generic effect puts on top when it has taken `inputs` off.
pub open spec fn generic_outputs(inputs: Seq<Val>, pushed: nat, preserved: Seq<int>) -> Seq<Val> {
    Seq::new(
        if pushed > preserved.len() {
            pushed
        } else {
            preserved.len()
        },
        |i: int|
            if i < preserved.len() && 0 <= preserved[i] < inputs.len() {
                inputs[preserved[i]]
            } else {
                Val::Unknown
            },
    )
}

/// The step for an instruction without a rule of its own.
pub open spec fn generic_step(code: Instruction, state: StackState) -> Step {
    match generic_shape(code) {
        Shape::Transform { popped, pushed, preserved } => step_on(
            state.set_top(popped, generic_outputs(state.top_many(popped), pushed, preserved)),
            popped,
            pushed,
            quoted(code),
        ),
        Shape::Unsupported => step_unsupported(code),
    }
}

/// The step for an instruction that refers to no procedure.
pub open spec fn instruction_step(code: Instruction, state: StackState) -> Step {
    match code {
        Instruction::Nop | Instruction::Debug(_) | Instruction::DebugVar(_) | Instruction::Trace(_)
        | Instruction::SysEvent(_) | Instruction::Emit => step_on(state, 0, 0, quoted(code)),
        Instruction::EmitImm(_) => step_on(state, 0, 0, "immediate `emit`"@),
        Instruction::Push(operand) => match immediate_felts(operand) {
            Some(felts) => step_on(
                state.pushed_many(felt_vals(felts)),
                0,
                felts.len(),
                quoted(code),
            ),
            None => step_unsupported(code),
        },
        Instruction::PushSlice(_, range) => {
            let len = if range.end > range.start {
                (range.end - range.start) as nat
            } else {
                0
            };
            step_on(state.pushed_many(unknowns(len)), 0, len, "word slice push"@)
        },
        Instruction::PushFeltList(felts) => step_on(
            state.pushed_many(Seq::new(felts@.len(), |i: int| Val::Felt(canonical(felts@[i])))),
            0,
            felts@.len(),
            "felt list push"@,
        ),
        Instruction::PadW => step_on(
            state.pushed_many(Seq::new(4, |i: int| Val::Felt(0))),
            0,
            4,
            "`padw`"@,
        ),
        Instruction::DropW => step_on(state.popped_many(4), 4, 0, "`dropw`"@),
        Instruction::Locaddr(offset) => match immediate_u16(offset) {
            Some(offset) => step_on(
                state.pushed(Val::Address(offset as u32)),
                0,
                1,
                "`locaddr`"@,
            ),
            None => step_unsupported(code),
        },
        Instruction::Sdepth | Instruction::Clk => step_on(
            state.pushed(Val::Unknown),
            0,
            1,
            quoted(code),
        ),
        Instruction::Caller => step_on(
            state.deepened(4).set_top(4, unknowns(4)),
            4,
            4,
            "`caller`"@,
        ),
        Instruction::AdvPush(count) => match immediate_u8(count) {
            Some(count) => step_on(
                state.pushed_many(unknowns(count as nat)),
                0,
                count as nat,
                "`adv.push`"@,
            ),
            None => step_unsupported(code),
        },
        Instruction::AdvLoadW => step_on(
            state.deepened(4).set_top(4, unknowns(4)),
            4,
            4,
            "`adv.loadw`"@,
        ),
        Instruction::Hash => step_on(state.set_top(4, unknowns(4)), 4, 4, "`hash`"@),
        Instruction::HMerge => step_on(state.set_top(8, unknowns(4)), 8, 4, "`hmerge`"@),
        Instruction::HPerm => step_on(
            state.deepened(12).set_top(12, unknowns(12)),
            12,
            12,
            "`hperm`"@,
        ),
        Instruction::MTreeGet => step_on(state.set_top(6, unknowns(8)), 6, 8, "`mtree.get`"@),
        Instruction::MTreeSet => step_on(state.set_top(10, unknowns(8)), 10, 8, "`mtree.set`"@),
        Instruction::MTreeMerge => step_on(state.set_top(8, unknowns(4)), 8, 4, "`mtree.merge`"@),
        Instruction::MTreeVerify | Instruction::MTreeVerifyWithError(_) => step_on(
            state.deepened(10),
            10,
            10,
            "`mtree.verify`"@,
        ),
        Instruction::CryptoStream => step_on(
            state.deepened(14).set_top(14, unknowns(14)),
            14,
            14,
            "`cryptostream`"@,
        ),
        Instruction::MemStream | Instruction::AdvPipe => step_on(
            state.deepened(13).set_top(13, unknowns(13)),
            13,
            13,
            quoted(code),
        ),
        Instruction::FriExt2Fold4 | Instruction::HornerBase | Instruction::HornerExt
        | Instruction::EvalCircuit | Instruction::LogPrecompile => step_unsupported(code),
        _ => if uses_memory(code) {
            memory_step(code, state)
        } else {
            generic_step(code, state)
        },
    }
}

/// The step for a load or a store.
pub open spec fn memory_step(code: Instruction, state: StackState) -> Step {
    if !takes_address(code) && operand_address(code) is None {
        step_unsupported(code)
    } else if loads_scalar(code) {
        step_on(scalar_loaded(code, state), memory_inputs(code), 1, quoted(code))
    } else if loads_word(code) {
        step_on(word_loaded(code, state), memory_inputs(code), 4, quoted(code))
    } else if stores_scalar(code) {
        step_on(scalar_stored(code, state), memory_inputs(code), 0, quoted(code))
    } else {
        step_on(word_stored(code, state), memory_inputs(code), 0, quoted(code))
    }
}

/// How many elements an access to memory is said to consume.
pub fn memory_input_count(code: &Instruction) -> (count: usize)
    ensures
        count == memory_inputs(*code),
{
    match code {
        Instruction::MemStore => 2,
        Instruction::MemLoad | Instruction::MemLoadWBe | Instruction::MemLoadWLe
        | Instruction::MemStoreWBe | Instruction::MemStoreWLe | Instruction::MemStoreImm(_)
        | Instruction::LocStore(_) => 1,
        _ => 0,
    }
}

/// Whether an instruction holds its address as an operand that was not resolved.
fn lacks_address(code: &Instruction) -> (result: bool)
    ensures
        result == (uses_memory(*code) && !takes_address(*code) && operand_address(*code) is None),
{
    match code {
        Instruction::MemLoadImm(address) | Instruction::MemLoadWBeImm(address)
        | Instruction::MemLoadWLeImm(address) | Instruction::MemStoreImm(address)
        | Instruction::MemStoreWBeImm(address)
        | Instruction::MemStoreWLeImm(address) => operand_u32(address).is_none(),
        Instruction::LocLoad(offset) | Instruction::LocLoadWBe(offset)
        | Instruction::LocLoadWLe(offset) | Instruction::LocStore(offset)
        | Instruction::LocStoreWBe(offset)
        | Instruction::LocStoreWLe(offset) => operand_u16(offset).is_none(),
        _ => false,
    }
}

/// Follows a load or a store.
fn apply_memory_instruction(code: &Instruction, state: State) -> (result: StepResult)
    requires
        uses_memory(*code),
    ensures
        result@ == memory_step(*code, state@),
{
    let mut state = state;
    if lacks_address(code) {
        return unsupported(code);
    }
    let popped = memory_input_count(code);
    let text = quote(code);
    match code {
        Instruction::MemLoad | Instruction::MemLoadImm(_) | Instruction::LocLoad(_) => {
            load_scalar(code, &mut state);
            StepResult::continue_with(state, popped, 1, &text)
        },
        Instruction::MemLoadWBe | Instruction::MemLoadWBeImm(_) | Instruction::MemLoadWLe
        | Instruction::MemLoadWLeImm(_) | Instruction::LocLoadWBe(_)
        | Instruction::LocLoadWLe(_) => {
            load_word(code, &mut state);
            StepResult::continue_with(state, popped, 4, &text)
        },
        Instruction::MemStore | Instruction::MemStoreImm(_) | Instruction::LocStore(_) => {
            store_scalar(code, &mut state);
            StepResult::continue_with(state, popped, 0, &text)
        },
        _ => {
            store_word(code, &mut state);
            StepResult::continue_with(state, popped, 0, &text)
        },
    }
}

/// The elements that a generic effect puts on top.
fn outputs(inputs: &Vec<Value>, pushed: usize, preserve_inputs: &Vec<usize>) -> (values: Vec<Value>)
    ensures
        vals(values@) == generic_outputs(
            vals(inputs@),
            pushed as nat,
            Seq::new(preserve_inputs@.len(), |i: int| preserve_inputs@[i] as int),
        ),
{
    let ghost preserved = Seq::new(preserve_inputs@.len(), |i: int| preserve_inputs@[i] as int);
    let ghost all = generic_outputs(vals(inputs@), pushed as nat, preserved);
    let mut values: Vec<Value> = Vec::new();
    let mut i: usize = 0;
    while i < preserve_inputs.len() || i < pushed
        invariant
            preserved == Seq::new(preserve_inputs@.len(), |k: int| preserve_inputs@[k] as int),
            all == generic_outputs(vals(inputs@), pushed as nat, preserved),
            i <= all.len(),
            vals(values@) == all.take(i as int),
        decreases all.len() - i,
    {
        let value = if i < preserve_inputs.len() && preserve_inputs[i] < inputs.len() {
            inputs[preserve_inputs[i]].copy()
        } else {
            Value::Unknown
        };
        let ghost before = vals(values@);
        assert(value@ == all[i as int]);
        values.push(value);
        assert(vals(values@) =~= before.push(value@));
        assert(vals(values@) =~= all.take(i + 1));
        i = i + 1;
    }
    assert(all.take(i as int) =~= all);
    values
}

/// Follows an instruction without a rule of its own.
pub fn apply_generic_instruction(code: &Instruction, state: State) -> (result: StepResult)
    requires
        !(code is ProcRef),
    ensures
        result@ == generic_step(*code, state@),
{
    let mut state = state;
    match generic_effect(code) {
        GenericEffect::Transform { popped, pushed, preserve_inputs } => {
            let inputs = state.pop_many(popped);
            let values = outputs(&inputs, pushed, &preserve_inputs);
            state.push_many(values);
            StepResult::continue_with(state, popped, pushed, &quote(code))
        },
        GenericEffect::Unsupported => unsupported(code),
    }
}

/// The values of a list of canonical numbers.
fn felt_values(felts: &Vec<u64>) -> (values: Vec<Value>)
    ensures
        vals(values@) == felt_vals(felts@),
{
    let mut values: Vec<Value> = Vec::new();
    let mut i: usize = 0;
    while i < felts.len()
        invariant
            i <= felts.len(),
            vals(values@) == felt_vals(felts@).take(i as int),
        decreases felts.len() - i,
    {
        let ghost before = vals(values@);
        values.push(Value::Felt(felts[i]));
        i = i + 1;
        assert(vals(values@) =~= before.push(Val::Felt(felts@[i - 1])));
        assert(vals(values@) =~= felt_vals(felts@).take(i as int));
    }
    assert(felt_vals(felts@).take(i as int) =~= felt_vals(felts@));
    values
}

/// Replaces the topmost `count` elements by unknown ones.
fn blur(state: State, popped: usize, pushed: usize, detail: &str) -> (result: StepResult)
    ensures
        result@ == step_on(
            state@.set_top(popped as nat, unknowns(pushed as nat)),
            popped as nat,
            pushed as nat,
            detail@,
        ),
{
    let mut state = state;
    state.set_top_many(popped, unknown_values(pushed));
    StepResult::continue_with(state, popped, pushed, detail)
}

/// Follows an instruction that refers to no procedure.
pub fn analyze_plain_instruction(code: &Instruction, state: State) -> (result: StepResult)
    requires
        !refers(*code),
    ensures
        result@ == instruction_step(*code, state@),
{
    let mut state = state;
    match code {
        Instruction::Nop | Instruction::Debug(_) | Instruction::DebugVar(_) | Instruction::Trace(_)
        | Instruction::SysEvent(_) | Instruction::Emit => StepResult::continue_with(
            state,
            0,
            0,
            &quote(code),
        ),
        Instruction::EmitImm(_) => StepResult::continue_with(state, 0, 0, "immediate `emit`"),
        Instruction::Push(operand) => match operand_felts(operand) {
            Some(felts) => {
                let count = felts.len();
                state.push_many(felt_values(&felts));
                StepResult::continue_with(state, 0, count, &quote(code))
            },
            None => unsupported(code),
        },
        Instruction::PushSlice(_, range) => {
            let len = if range.end > range.start {
                range.end - range.start
            } else {
                0
            };
            state.push_many(unknown_values(len));
            StepResult::continue_with(state, 0, len, "word slice push")
        },
        Instruction::PushFeltList(felts) => {
            let mut numbers: Vec<u64> = Vec::new();
            let mut i: usize = 0;
            while i < felts.len()
                invariant
                    i <= felts.len(),
                    numbers@.len() == i,
                    forall|k: int| 0 <= k < i ==> numbers@[k] == canonical(felts@[k]),
                decreases felts.len() - i,
            {
                numbers.push(canonical_number(&felts[i]));
                i = i + 1;
            }
            let count = felts.len();
            state.push_many(felt_values(&numbers));
            assert(felt_vals(numbers@) =~= Seq::new(
                felts@.len(),
                |i: int| Val::Felt(canonical(felts@[i])),
            ));
            StepResult::continue_with(state, 0, count, "felt list push")
        },
        Instruction::PadW => {
            let zeros: Vec<u64> = vec![0, 0, 0, 0];
            state.push_many(felt_values(&zeros));
            assert(felt_vals(zeros@) =~= Seq::new(4, |i: int| Val::Felt(0)));
            StepResult::continue_with(state, 0, 4, "`padw`")
        },
        Instruction::DropW => {
            state.pop_many(4);
            StepResult::continue_with(state, 4, 0, "`dropw`")
        },
        Instruction::Locaddr(offset) => match operand_u16(offset) {
            Some(offset) => {
                state.push(Value::Address(offset as u32));
                StepResult::continue_with(state, 0, 1, "`locaddr`")
            },
            None => unsupported(code),
        },
        Instruction::Sdepth | Instruction::Clk => {
            state.push(Value::Unknown);
            StepResult::continue_with(state, 0, 1, &quote(code))
        },
        Instruction::Caller => {
            state.ensure_depth(4);
            blur(state, 4, 4, "`caller`")
        },
        Instruction::AdvPush(count) => match operand_u8(count) {
            Some(count) => {
                state.push_many(unknown_values(count as usize));
                StepResult::continue_with(state, 0, count as usize, "`adv.push`")
            },
            None => unsupported(code),
        },
        Instruction::AdvLoadW => {
            state.ensure_depth(4);
            blur(state, 4, 4, "`adv.loadw`")
        },
        Instruction::Hash => blur(state, 4, 4, "`hash`"),
        Instruction::HMerge => blur(state, 8, 4, "`hmerge`"),
        Instruction::HPerm => {
            state.ensure_depth(12);
            blur(state, 12, 12, "`hperm`")
        },
        Instruction::MTreeGet => blur(state, 6, 8, "`mtree.get`"),
        Instruction::MTreeSet => blur(state, 10, 8, "`mtree.set`"),
        Instruction::MTreeMerge => blur(state, 8, 4, "`mtree.merge`"),
        Instruction::MTreeVerify | Instruction::MTreeVerifyWithError(_) => {
            state.ensure_depth(10);
            StepResult::continue_with(state, 10, 10, "`mtree.verify`")
        },
        Instruction::CryptoStream => {
            state.ensure_depth(14);
            blur(state, 14, 14, "`cryptostream`")
        },
        Instruction::MemStream | Instruction::AdvPipe => {
            state.ensure_depth(13);
            blur(state, 13, 13, &quote(code))
        },
        Instruction::FriExt2Fold4 | Instruction::HornerBase | Instruction::HornerExt
        | Instruction::EvalCircuit | Instruction::LogPrecompile => unsupported(code),
        Instruction::MemLoad | Instruction::MemLoadImm(_) | Instruction::LocLoad(_)
        | Instruction::MemLoadWBe | Instruction::MemLoadWBeImm(_) | Instruction::MemLoadWLe
        | Instruction::MemLoadWLeImm(_) | Instruction::LocLoadWBe(_) | Instruction::LocLoadWLe(_)
        | Instruction::MemStore | Instruction::MemStoreImm(_) | Instruction::LocStore(_)
        | Instruction::MemStoreWBe | Instruction::MemStoreWBeImm(_) | Instruction::MemStoreWLe
        | Instruction::MemStoreWLeImm(_) | Instruction::LocStoreWBe(_)
        | Instruction::LocStoreWLe(_) => apply_memory_instruction(code, state),
        _ => apply_generic_instruction(code, state),
    }
}

} // verus!
