//! Parsed Miden Assembly: the parts of the outside syntax tree that the stack analysis reads.
use miden_assembly_syntax::ast::Op::{If, Inst, Repeat, While};
use miden_assembly_syntax::ast::{Block, Immediate, Instruction, InvocationTarget};
use miden_assembly_syntax::debuginfo::Spanned;
use miden_assembly_syntax::parser::{IntValue, PushValue};
use miden_assembly_syntax::Felt;
use vstd::prelude::*;
use crate::assembly::OpMark::{Close, Open};

verus! {

/// The instructions of Miden Assembly. Their variants can be told apart; what is inside an operand
/// is read through the functions below.
#[verifier::external_type_specification]
pub struct ExInstruction(miden_assembly_syntax::ast::Instruction);

/// The target of a call.
#[verifier::external_type_specification]
#[verifier::external_body]
pub struct ExInvocationTarget(miden_assembly_syntax::ast::InvocationTarget);

/// An operand that is written as a value or as the name of a constant.
#[verifier::external_type_specification]
#[verifier::external_body]
#[verifier::reject_recursive_types(T)]
pub struct ExImmediate<T>(miden_assembly_syntax::ast::Immediate<T>);

/// A field element.
#[verifier::external_type_specification]
#[verifier::external_body]
pub struct ExFelt(miden_assembly_syntax::Felt);

/// What a `push` instruction pushes.
#[verifier::external_type_specification]
#[verifier::external_body]
pub struct ExPushValue(miden_assembly_syntax::parser::PushValue);

/// A word of four field elements.
#[verifier::external_type_specification]
#[verifier::external_body]
pub struct ExWordValue(miden_assembly_syntax::parser::WordValue);

/// The options of a `debug` instruction.
#[verifier::external_type_specification]
#[verifier::external_body]
pub struct ExDebugOptions(miden_assembly_syntax::ast::DebugOptions);

/// A debug variable.
#[verifier::external_type_specification]
#[verifier::external_body]
pub struct ExDebugVarInfo(miden_core::operations::DebugVarInfo);

/// A system event.
#[verifier::external_type_specification]
#[verifier::external_body]
pub struct ExSystemEventNode(miden_assembly_syntax::ast::SystemEventNode);

/// The body of a procedure or of a control structure.
#[verifier::external_type_specification]
#[verifier::external_body]
pub struct ExBlock(miden_assembly_syntax::ast::Block);

/// How an instruction is written.
pub uninterp spec fn instruction_display(code: Instruction) -> Seq<char>;

/// `Instruction::to_string`: the text of an instruction. It depends on the instruction alone. A
/// `procref` is left out, since one of a bare hash cannot be written.
#[verifier::external_body]
pub(crate) fn instruction_text(code: &Instruction) -> (text: String)
    requires
        !(code is ProcRef),
    ensures
        text@ == instruction_display(*code),
{
    code.to_string()
}

/// The 32-bit number that an operand holds, where it does not name a constant.
pub uninterp spec fn immediate_u32(operand: Immediate<u32>) -> Option<u32>;

/// What `Immediate::expect_value` gives for a 32-bit operand; `None` where the operand names a
/// constant that was not resolved.
#[verifier::external_body]
pub(crate) fn operand_u32(operand: &Immediate<u32>) -> (value: Option<u32>)
    ensures
        value == immediate_u32(*operand),
{
    match operand {
        Immediate::Value(_) => Some(operand.expect_value()),
        Immediate::Constant(_) => None,
    }
}

/// The 16-bit number that an operand holds, where it does not name a constant.
pub uninterp spec fn immediate_u16(operand: Immediate<u16>) -> Option<u16>;

/// What `Immediate::expect_value` gives for a 16-bit operand; `None` where the operand names a
/// constant that was not resolved.
#[verifier::external_body]
pub(crate) fn operand_u16(operand: &Immediate<u16>) -> (value: Option<u16>)
    ensures
        value == immediate_u16(*operand),
{
    match operand {
        Immediate::Value(_) => Some(operand.expect_value()),
        Immediate::Constant(_) => None,
    }
}

/// The 8-bit number that an operand holds, where it does not name a constant.
pub uninterp spec fn immediate_u8(operand: Immediate<u8>) -> Option<u8>;

/// What `Immediate::expect_value` gives for an 8-bit operand; `None` where the operand names a
/// constant that was not resolved.
#[verifier::external_body]
pub(crate) fn operand_u8(operand: &Immediate<u8>) -> (value: Option<u8>)
    ensures
        value == immediate_u8(*operand),
{
    match operand {
        Immediate::Value(_) => Some(operand.expect_value()),
        Immediate::Constant(_) => None,
    }
}

/// The field elements that the operand of a `push` holds, in canonical form: one for a number, four
/// for a word. `None` where it names a constant.
pub uninterp spec fn immediate_felts(operand: Immediate<PushValue>) -> Option<Seq<u64>>;

/// What `Immediate::expect_value` gives for the operand of a `push`, as canonical numbers; `None`
/// where the operand names a constant that was not resolved.
#[verifier::external_body]
pub(crate) fn operand_felts(operand: &Immediate<PushValue>) -> (values: Option<Vec<u64>>)
    ensures
        match values {
            Some(values) => immediate_felts(*operand) == Some(values@),
            None => immediate_felts(*operand) is None,
        },
{
    let Immediate::Value(_) = operand else { return None };
    Some(match operand.expect_value() {
        PushValue::Int(IntValue::U8(value)) => vec![u64::from(value)],
        PushValue::Int(IntValue::U16(value)) => vec![u64::from(value)],
        PushValue::Int(IntValue::U32(value)) => vec![u64::from(value)],
        PushValue::Int(IntValue::Felt(value)) => vec![value.as_canonical_u64()],
        PushValue::Word(word) => word.0.iter().map(|felt| felt.as_canonical_u64()).collect(),
    })
}

/// The canonical number of a field element.
pub uninterp spec fn canonical(felt: Felt) -> u64;

/// `Felt::as_canonical_u64`: the number below the modulus that stands for the element.
#[verifier::external_body]
pub(crate) fn canonical_number(felt: &Felt) -> (number: u64)
    ensures
        number == canonical(*felt),
{
    felt.as_canonical_u64()
}

/// Where the target of a call is written, and what it names.
pub struct Target {
    pub start: usize,
    pub end: usize,
    pub name: TargetName,
}

/// What the target of a call names.
pub enum TargetName {
    /// A bare hash.
    Root,
    /// A procedure of the same module.
    Symbol(String),
    /// A path to a procedure.
    Path(String),
}

/// The model of a target.
pub struct TargetParts {
    pub start: int,
    pub end: int,
    pub name: TargetLabel,
}

/// The model of a target's name.
pub enum TargetLabel {
    Root,
    Symbol(Seq<char>),
    Path(Seq<char>),
}

impl View for Target {
    type V = TargetParts;

    open spec fn view(&self) -> TargetParts {
        TargetParts {
            start: self.start as int,
            end: self.end as int,
            name: match self.name {
                TargetName::Root => TargetLabel::Root,
                TargetName::Symbol(name) => TargetLabel::Symbol(name@),
                TargetName::Path(path) => TargetLabel::Path(path@),
            },
        }
    }
}

/// What a call's target holds.
pub uninterp spec fn target_parts(target: InvocationTarget) -> TargetParts;

/// `InvocationTarget::span` and the name that the target holds, as plain values.
#[verifier::external_body]
pub(crate) fn read_target(target: &InvocationTarget) -> (parts: Target)
    ensures
        parts@ == target_parts(*target),
{
    let span = target.span().into_slice_index();
    let name = match target {
        InvocationTarget::MastRoot(_) => TargetName::Root,
        InvocationTarget::Symbol(name) => TargetName::Symbol(name.as_str().to_string()),
        InvocationTarget::Path(path) => TargetName::Path(path.inner().as_str().to_string()),
    };
    Target { start: span.start, end: span.end, name }
}

/// One element of a procedure body.
pub enum OpCode {
    /// A block: the elements below it run one after another.
    Block,
    /// An instruction.
    Inst(Instruction),
    /// A conditional; the two blocks below it are its branches.
    If,
    /// A loop that is controlled by the top of the stack; the block below it is its body.
    While,
    /// A loop with a fixed count; the block below it is its body.
    Repeat(Immediate<u32>),
}

/// A mark in the listing of a procedure body: an element opens, with its byte range, or the last
/// element that is open closes. What an element holds is listed between the two.
pub enum OpMark {
    Open { range: std::ops::Range<usize>, code: OpCode },
    Close,
}

/// The listing of a block: the block itself, its elements and what they hold, first to last.
pub uninterp spec fn block_marks(block: Block) -> Seq<OpMark>;

/// Lists the block, its operations (`Block::iter`) and the blocks inside them, from the outside in
/// and first to last, each with its source span (`Spanned::span`).
#[verifier::external_body]
fn list_block(block: &Block) -> (marks: Vec<OpMark>)
    ensures
        marks@ == block_marks(*block),
{
    let mut marks = vec![Open { range: block.span().into_slice_index(), code: OpCode::Block }];
    for op in block.iter() {
        let (code, inner) = match op {
            Inst(inst) => (OpCode::Inst(Instruction::clone(inst)), vec![]),
            If { then_blk, else_blk, .. } => (OpCode::If, vec![then_blk, else_blk]),
            While { body, .. } => (OpCode::While, vec![body]),
            Repeat { count, body, .. } => (OpCode::Repeat(count.clone()), vec![body]),
        };
        marks.push(Open { range: op.span().into_slice_index(), code });
        for block in inner { marks.extend(list_block(block)); }
        marks.push(Close);
    }
    marks.push(Close);
    marks
}

/// One element of a procedure body, with its depth below the body and its byte range.
pub struct OpRow {
    pub depth: usize,
    pub range: std::ops::Range<usize>,
    pub code: OpCode,
}

/// How many elements are open behind the first `count` marks.
pub open spec fn open_elements(marks: Seq<OpMark>, count: nat) -> nat
    decreases count,
{
    if count == 0 {
        0
    } else {
        let before = open_elements(marks, (count - 1) as nat);
        match marks[count - 1] {
            OpMark::Open { .. } => before + 1,
            OpMark::Close => if before > 0 {
                (before - 1) as nat
            } else {
                0
            },
        }
    }
}

/// The elements that the first `count` marks open, each with the number of elements it is inside.
pub open spec fn marked_rows(marks: Seq<OpMark>, count: nat) -> Seq<OpRow>
    decreases count,
{
    if count == 0 {
        Seq::empty()
    } else {
        let before = marked_rows(marks, (count - 1) as nat);
        match marks[count - 1] {
            OpMark::Open { range, code } => before.push(
                OpRow { depth: open_elements(marks, (count - 1) as nat) as usize, range, code },
            ),
            OpMark::Close => before,
        }
    }
}

/// The elements of a block in depth-first order, the block itself first.
pub open spec fn block_rows(block: Block) -> Seq<OpRow> {
    marked_rows(block_marks(block), block_marks(block).len())
}

/// The elements of a block in depth-first order, the block itself first.
pub fn read_block(block: &Block) -> (rows: Vec<OpRow>)
    ensures
        rows@ == block_rows(*block),
{
    let marks = list_block(block);
    let ghost all = marks@;
    let count = marks.len();
    let mut rows: Vec<OpRow> = Vec::new();
    let mut depth: usize = 0;
    for mark in it: marks
        invariant
            it.seq() == all,
            all.len() == count,
            depth <= it.index(),
            depth == open_elements(all, it.index() as nat),
            rows@ == marked_rows(all, it.index() as nat),
    {
        match mark {
            OpMark::Open { range, code } => {
                rows.push(OpRow { depth, range, code });
                depth = depth + 1;
            },
            OpMark::Close => {
                if depth > 0 {
                    depth = depth - 1;
                }
            },
        }
    }
    rows
}

} // verus!
