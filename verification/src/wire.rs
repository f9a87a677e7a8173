//! Walks over the bytes of compiled packages: they tell whether the outside reader comes to an end
//! on them.
use miden_assembly_syntax::ast::types::Type;
use miden_core::serde::Deserializable;
use vstd::prelude::*;
use crate::layout::{are_fields, fields_fit, same_type, StructRepr};

verus! {

/// Where a walk over bytes stands.
pub enum Step {
    /// It goes on at the given place.
    Next(int),
    /// The reader reports an error here.
    Ends,
    /// The reader would panic here.
    Fails,
}

/// Where a walk over bytes stands.
#[derive(Clone, Copy)]
pub enum Walk {
    Next(usize),
    Ends,
    Fails,
}

impl View for Walk {
    type V = Step;

    open spec fn view(&self) -> Step {
        match self {
            Walk::Next(at) => Step::Next(*at as int),
            Walk::Ends => Step::Ends,
            Walk::Fails => Step::Fails,
        }
    }
}

/// Whether a walk that goes on has gone forward within the bytes.
pub open spec fn goes_on(walk: Walk, at: usize, bytes: Seq<u8>) -> bool {
    match walk {
        Walk::Next(next) => at <= next <= bytes.len(),
        _ => true,
    }
}

/// The number that bytes stand for, the lowest first.
pub open spec fn little_endian(bytes: Seq<u8>, at: int, count: nat) -> nat
    decreases count,
{
    if count == 0 {
        0
    } else {
        bytes[at] as nat + 256 * little_endian(bytes, at + 1, (count - 1) as nat)
    }
}

/// How many bytes a number takes that starts with the given byte: one more than the zeros at its
/// lower end.
pub open spec fn number_size(first: u8) -> nat {
    if first % 2 == 1 {
        1
    } else if first % 4 == 2 {
        2
    } else if first % 8 == 4 {
        3
    } else if first % 16 == 8 {
        4
    } else if first % 32 == 16 {
        5
    } else if first % 64 == 32 {
        6
    } else if first % 128 == 64 {
        7
    } else if first == 128 {
        8
    } else {
        9
    }
}

/// Two to the given power, for powers up to eight.
pub open spec fn small_power(n: nat) -> nat {
    if n == 1 {
        2
    } else if n == 2 {
        4
    } else if n == 3 {
        8
    } else if n == 4 {
        16
    } else if n == 5 {
        32
    } else if n == 6 {
        64
    } else if n == 7 {
        128
    } else {
        256
    }
}

/// The number that is written at `at`, and where to go on.
pub open spec fn number_at(bytes: Seq<u8>, at: int) -> Option<(nat, int)> {
    if at >= bytes.len() {
        None
    } else {
        let size = number_size(bytes[at]);
        if at + size > bytes.len() {
            None
        } else {
            let value = if size == 9 {
                little_endian(bytes, at + 1, 8)
            } else {
                little_endian(bytes, at, size) / small_power(size)
            };
            if value <= usize::MAX {
                Some((value, at + size))
            } else {
                None
            }
        }
    }
}

/// Two hundred and fifty-six to the given power.
spec fn byte_power(n: nat) -> nat
    decreases n,
{
    if n == 0 {
        1
    } else {
        256 * byte_power((n - 1) as nat)
    }
}

proof fn lemma_little_endian(bytes: Seq<u8>, at: int, count: nat)
    ensures
        little_endian(bytes, at, count) < byte_power(count),
    decreases count,
{
    if count > 0 {
        lemma_little_endian(bytes, at + 1, (count - 1) as nat);
    }
}

proof fn lemma_byte_powers(n: nat)
    requires
        n <= 8,
    ensures
        byte_power(n) <= 0x1_0000_0000_0000_0000,
{
    reveal_with_fuel(byte_power, 9);
}

/// The number that `count` bytes stand for.
fn read_little_endian(bytes: &[u8], at: usize, count: usize) -> (value: u64)
    requires
        count <= 8,
        at + count <= bytes.len(),
    ensures
        value == little_endian(bytes@, at as int, count as nat),
{
    let mut value: u64 = 0;
    let mut left: usize = count;
    while left > 0
        invariant
            left <= count <= 8,
            at + count <= bytes.len(),
            value == little_endian(bytes@, at + left, (count - left) as nat),
        decreases left,
    {
        left = left - 1;
        proof {
            lemma_little_endian(bytes@, at + left, (count - left) as nat);
            lemma_byte_powers((count - left) as nat);
        }
        value = bytes[at + left] as u64 + 256 * value;
    }
    value
}

/// The number that is written at `at`, and where to go on.
pub fn read_number(bytes: &[u8], at: usize) -> (number: Option<(usize, usize)>)
    ensures
        match number {
            Some((value, next)) => number_at(bytes@, at as int) == Some((value as nat, next as int))
                && at < next <= bytes.len(),
            None => number_at(bytes@, at as int) is None,
        },
{
    if at >= bytes.len() {
        return None;
    }
    let first = bytes[at];
    let (size, divisor): (usize, u64) = if first % 2 == 1 {
        (1, 2)
    } else if first % 4 == 2 {
        (2, 4)
    } else if first % 8 == 4 {
        (3, 8)
    } else if first % 16 == 8 {
        (4, 16)
    } else if first % 32 == 16 {
        (5, 32)
    } else if first % 64 == 32 {
        (6, 64)
    } else if first % 128 == 64 {
        (7, 128)
    } else if first == 128 {
        (8, 256)
    } else {
        (9, 1)
    };
    if size > bytes.len() - at {
        return None;
    }
    let value = if size == 9 {
        read_little_endian(bytes, at + 1, 8)
    } else {
        read_little_endian(bytes, at, size) / divisor
    };
    if value <= usize::MAX as u64 {
        Some((value as usize, at + size))
    } else {
        None
    }
}

/// Passes a fixed number of bytes.
pub open spec fn past(bytes: Seq<u8>, at: int, count: int) -> Step {
    if at + count <= bytes.len() {
        Step::Next(at + count)
    } else {
        Step::Ends
    }
}

/// Passes a fixed number of bytes.
pub fn pass(bytes: &[u8], at: usize, count: usize) -> (walk: Walk)
    requires
        at <= bytes.len(),
    ensures
        walk@ == past(bytes@, at as int, count as int),
        goes_on(walk, at, bytes@),
{
    if count <= bytes.len() - at {
        Walk::Next(at + count)
    } else {
        Walk::Ends
    }
}

/// Passes a text that is read byte by byte, behind its length.
pub open spec fn past_text(bytes: Seq<u8>, at: int) -> Step {
    match number_at(bytes, at) {
        Some((count, next)) => past(bytes, next, count as int),
        None => Step::Ends,
    }
}

/// Passes a text that is read byte by byte, behind its length.
pub fn pass_text(bytes: &[u8], at: usize) -> (walk: Walk)
    requires
        at <= bytes.len(),
    ensures
        walk@ == past_text(bytes@, at as int),
        goes_on(walk, at, bytes@),
{
    match read_number(bytes, at) {
        Some((count, next)) => pass(bytes, next, count),
        None => Walk::Ends,
    }
}

/// Passes bytes that are read at once, behind their length. The reader adds the length to its place
/// without a check.
pub open spec fn past_slice(bytes: Seq<u8>, at: int) -> Step {
    match number_at(bytes, at) {
        Some((count, next)) => if next + count > usize::MAX {
            Step::Fails
        } else {
            past(bytes, next, count as int)
        },
        None => Step::Ends,
    }
}

/// Passes bytes that are read at once, behind their length.
pub fn pass_slice(bytes: &[u8], at: usize) -> (walk: Walk)
    requires
        at <= bytes.len(),
    ensures
        walk@ == past_slice(bytes@, at as int),
        goes_on(walk, at, bytes@),
{
    match read_number(bytes, at) {
        Some((count, next)) => if count > usize::MAX - next {
            Walk::Fails
        } else {
            pass(bytes, next, count)
        },
        None => Walk::Ends,
    }
}

/// Passes a path: two bytes for its length, and the path.
pub open spec fn past_path(bytes: Seq<u8>, at: int) -> Step {
    if at + 2 <= bytes.len() {
        past(bytes, at + 2, little_endian(bytes, at, 2) as int)
    } else {
        Step::Ends
    }
}

/// Passes a path.
pub fn pass_path(bytes: &[u8], at: usize) -> (walk: Walk)
    requires
        at <= bytes.len(),
    ensures
        walk@ == past_path(bytes@, at as int),
        goes_on(walk, at, bytes@),
{
    if bytes.len() - at < 2 {
        return Walk::Ends;
    }
    let size = read_little_endian(bytes, at, 2);
    proof {
        lemma_little_endian(bytes@, at as int, 2);
        reveal_with_fuel(byte_power, 3);
    }
    pass(bytes, at + 2, size as usize)
}

/// The truth value that is written at `at`.
pub open spec fn flag_at(bytes: Seq<u8>, at: int) -> Option<bool> {
    if at < bytes.len() && bytes[at] == 0 {
        Some(false)
    } else if at < bytes.len() && bytes[at] == 1 {
        Some(true)
    } else {
        None
    }
}

/// The truth value that is written at `at`.
pub fn read_flag(bytes: &[u8], at: usize) -> (flag: Option<bool>)
    ensures
        flag == flag_at(bytes@, at as int),
{
    if at >= bytes.len() {
        None
    } else if bytes[at] == 0 {
        Some(false)
    } else if bytes[at] == 1 {
        Some(true)
    } else {
        None
    }
}

/// Passes a text that may be missing.
pub open spec fn past_optional_text(bytes: Seq<u8>, at: int) -> Step {
    match flag_at(bytes, at) {
        Some(true) => past_text(bytes, at + 1),
        Some(false) => Step::Next(at + 1),
        None => Step::Ends,
    }
}

/// Passes a text that may be missing.
pub fn pass_optional_text(bytes: &[u8], at: usize) -> (walk: Walk)
    requires
        at <= bytes.len(),
    ensures
        walk@ == past_optional_text(bytes@, at as int),
        goes_on(walk, at, bytes@),
{
    match read_flag(bytes, at) {
        Some(true) => pass_text(bytes, at + 1),
        Some(false) => Walk::Next(at + 1),
        None => Walk::Ends,
    }
}

/// The type that is written at `at`, where the reader gives one.
pub uninterp spec fn type_at(bytes: Seq<u8>, at: int) -> Option<Type>;

/// How far types may be nested.
pub const MAX_NESTING: usize = 128;

/// Whether a type can be the discriminant of an enumeration.
pub open spec fn is_discriminant(ty: Type) -> bool {
    discriminant_size(ty) > 0
}

/// How many bytes a discriminant of the given type takes.
pub open spec fn discriminant_size(ty: Type) -> int {
    match ty {
        Type::I1 | Type::I8 | Type::U8 => 1,
        Type::I16 | Type::U16 => 2,
        Type::I32 | Type::U32 | Type::Felt => 4,
        Type::I64 | Type::U64 => 8,
        Type::I128 | Type::U128 => 16,
        _ => 0,
    }
}

/// Passes a type, when types may be nested so deep.
pub open spec fn past_type(bytes: Seq<u8>, at: int, depth: nat) -> Step
    decreases depth, 0nat, 0nat,
{
    if at >= bytes.len() {
        Step::Ends
    } else if bytes[at] <= 15 {
        Step::Next(at + 1)
    } else if bytes[at] > 21 || depth == 0 {
        Step::Ends
    } else if bytes[at] == 16 {
        match flag_at(bytes, at + 1) {
            Some(_) => past_type(bytes, at + 2, (depth - 1) as nat),
            None => Step::Ends,
        }
    } else if bytes[at] == 17 {
        match past_optional_text(bytes, at + 1) {
            Step::Next(next) => past_struct(bytes, next, (depth - 1) as nat),
            other => other,
        }
    } else if bytes[at] == 18 {
        match number_at(bytes, at + 1) {
            Some((_, next)) => past_type(bytes, next, (depth - 1) as nat),
            None => Step::Ends,
        }
    } else if bytes[at] == 19 {
        past_type(bytes, at + 1, (depth - 1) as nat)
    } else if bytes[at] == 20 {
        past_function(bytes, at + 1, (depth - 1) as nat)
    } else {
        past_enum(bytes, at + 1, (depth - 1) as nat)
    }
}

/// The representation of a structure that is written at `at`, and where to go on.
pub open spec fn repr_at(bytes: Seq<u8>, at: int) -> Option<(StructRepr, int)> {
    if at >= bytes.len() {
        None
    } else if bytes[at] == 0 {
        Some((StructRepr::Default, at + 1))
    } else if bytes[at] == 3 {
        Some((StructRepr::Transparent, at + 1))
    } else if bytes[at] == 4 {
        Some((StructRepr::BigEndian, at + 1))
    } else if bytes[at] > 4 || at + 3 > bytes.len() || little_endian(bytes, at + 1, 2) == 0 {
        None
    } else {
        let align = little_endian(bytes, at + 1, 2) as u16;
        if bytes[at] == 1 {
            Some((StructRepr::Align(align), at + 3))
        } else {
            Some((StructRepr::Packed(align), at + 3))
        }
    }
}

/// Passes a structure behind its name. The reader panics where the fields cannot be laid out.
pub open spec fn past_struct(bytes: Seq<u8>, at: int, depth: nat) -> Step
    decreases depth, 3nat, 0nat,
{
    match repr_at(bytes, at) {
        None => Step::Ends,
        Some((repr, next)) => if next >= bytes.len() {
            Step::Ends
        } else {
            let (step, fields) = past_fields(bytes, next + 1, depth, bytes[next] as nat);
            if step is Next && !are_fields(repr, fields) {
                Step::Fails
            } else {
                step
            }
        },
    }
}

/// Passes the fields of a structure, and gives their types.
pub open spec fn past_fields(bytes: Seq<u8>, at: int, depth: nat, count: nat) -> (Step, Seq<Type>)
    decreases depth, 2nat, count,
{
    if count == 0 {
        (Step::Next(at), Seq::empty())
    } else {
        match past_optional_text(bytes, at) {
            Step::Next(next) => match past_type(bytes, next, depth) {
                Step::Next(behind) => match type_at(bytes, next) {
                    Some(ty) => {
                        let (step, rest) = past_fields(bytes, behind, depth, (count - 1) as nat);
                        (step, seq![ty] + rest)
                    },
                    None => (Step::Ends, Seq::empty()),
                },
                other => (other, Seq::empty()),
            },
            other => (other, Seq::empty()),
        }
    }
}

/// Passes the type of a function. The reader makes room for as many types as are claimed.
pub open spec fn past_function(bytes: Seq<u8>, at: int, depth: nat) -> Step
    decreases depth, 4nat, 0nat,
{
    if at >= bytes.len() || bytes[at] > 3 {
        Step::Ends
    } else {
        match past_types(bytes, at + 1, depth) {
            Step::Next(next) => past_types(bytes, next, depth),
            other => other,
        }
    }
}

/// Passes a list of types behind its length.
pub open spec fn past_types(bytes: Seq<u8>, at: int, depth: nat) -> Step
    decreases depth, 3nat, 0nat,
{
    match number_at(bytes, at) {
        None => Step::Ends,
        Some((count, next)) => if count > bytes.len() - next {
            Step::Fails
        } else {
            past_each_type(bytes, next, depth, count)
        },
    }
}

/// Passes so many types.
pub open spec fn past_each_type(bytes: Seq<u8>, at: int, depth: nat, count: nat) -> Step
    decreases depth, 2nat, count,
{
    if count == 0 {
        Step::Next(at)
    } else {
        match past_type(bytes, at, depth) {
            Step::Next(next) => past_each_type(bytes, next, depth, (count - 1) as nat),
            other => other,
        }
    }
}

/// Passes an enumeration behind its tag. The reader panics where a variant cannot be laid out.
pub open spec fn past_enum(bytes: Seq<u8>, at: int, depth: nat) -> Step
    decreases depth, 3nat, 0nat,
{
    match past_text(bytes, at) {
        Step::Next(next) => match past_type(bytes, next, depth) {
            Step::Next(behind) => match (type_at(bytes, next), number_at(bytes, behind)) {
                (Some(ty), Some((count, first))) => if is_discriminant(ty) {
                    past_variants(bytes, first, depth, count, ty)
                } else {
                    Step::Ends
                },
                _ => Step::Ends,
            },
            other => other,
        },
        other => other,
    }
}

/// Passes so many variants of an enumeration.
pub open spec fn past_variants(bytes: Seq<u8>, at: int, depth: nat, count: nat, ty: Type) -> Step
    decreases depth, 2nat, count,
{
    if count == 0 {
        Step::Next(at)
    } else {
        match past_text(bytes, at) {
            Step::Next(next) => match past_payload(bytes, next, depth, ty) {
                Step::Next(behind) => match past_discriminant(bytes, behind, ty) {
                    Step::Next(end) => past_variants(bytes, end, depth, (count - 1) as nat, ty),
                    other => other,
                },
                other => other,
            },
            other => other,
        }
    }
}

/// Passes what a variant holds, if anything.
pub open spec fn past_payload(bytes: Seq<u8>, at: int, depth: nat, ty: Type) -> Step
    decreases depth, 1nat, 0nat,
{
    match flag_at(bytes, at) {
        None => Step::Ends,
        Some(false) => Step::Next(at + 1),
        Some(true) => match past_type(bytes, at + 1, depth) {
            Step::Next(next) => match type_at(bytes, at + 1) {
                Some(value) => if are_fields(StructRepr::Default, seq![ty, value]) {
                    Step::Next(next)
                } else {
                    Step::Fails
                },
                None => Step::Ends,
            },
            other => other,
        },
    }
}

/// Passes the discriminant of a variant, if it is written down.
pub open spec fn past_discriminant(bytes: Seq<u8>, at: int, ty: Type) -> Step {
    match flag_at(bytes, at) {
        None => Step::Ends,
        Some(false) => Step::Next(at + 1),
        Some(true) => past(bytes, at + 1, discriminant_size(ty)),
    }
}

/// Whether the reader comes to an end on the type at `at`.
pub open spec fn is_type(bytes: Seq<u8>, at: int) -> bool {
    exists|depth: nat| depth <= MAX_NESTING && (#[trigger] past_type(bytes, at, depth)) is Next
}

/// `Type::read_from_bytes` on the bytes from `at` on: the type that they hold; `None` where the
/// reader reports an error. It depends on the bytes alone. The outside function panics on types that
/// cannot be laid out.
#[verifier::external_body]
fn read_type_at(bytes: &[u8], at: usize) -> (ty: Option<Type>)
    requires
        at < bytes.len(),
        is_type(bytes@, at as int),
    ensures
        ty == type_at(bytes@, at as int),
{
    Type::read_from_bytes(&bytes[at..]).ok()
}

/// How many bytes a discriminant of the given type takes; none where it cannot be one.
fn size_of_discriminant(ty: &Type) -> (size: usize)
    ensures
        size == discriminant_size(*ty),
{
    match ty {
        Type::I1 | Type::I8 | Type::U8 => 1,
        Type::I16 | Type::U16 => 2,
        Type::I32 | Type::U32 | Type::Felt => 4,
        Type::I64 | Type::U64 => 8,
        Type::I128 | Type::U128 => 16,
        _ => 0,
    }
}

/// The representation of a structure that is written at `at`, and where to go on.
fn read_repr_at(bytes: &[u8], at: usize) -> (repr: Option<(StructRepr, usize)>)
    ensures
        match repr {
            Some((repr, next)) => repr_at(bytes@, at as int) == Some((repr, next as int)) && at
                < next <= bytes.len(),
            None => repr_at(bytes@, at as int) is None,
        },
{
    if at >= bytes.len() {
        return None;
    }
    let tag = bytes[at];
    if tag == 0 {
        Some((StructRepr::Default, at + 1))
    } else if tag == 3 {
        Some((StructRepr::Transparent, at + 1))
    } else if tag == 4 {
        Some((StructRepr::BigEndian, at + 1))
    } else if tag > 4 || bytes.len() - at < 3 {
        None
    } else {
        let align = read_little_endian(bytes, at + 1, 2);
        proof {
            lemma_little_endian(bytes@, at + 1, 2);
            reveal_with_fuel(byte_power, 3);
        }
        if align == 0 {
            None
        } else if tag == 1 {
            Some((StructRepr::Align(align as u16), at + 3))
        } else {
            Some((StructRepr::Packed(align as u16), at + 3))
        }
    }
}

/// Passes a type, when types may be nested so deep.
pub fn pass_type(bytes: &[u8], at: usize, depth: usize) -> (walk: Walk)
    requires
        at <= bytes.len(),
        depth <= MAX_NESTING,
    ensures
        walk@ == past_type(bytes@, at as int, depth as nat),
        goes_on(walk, at, bytes@),
        walk is Next ==> at < bytes.len(),
    decreases depth, 0nat,
{
    if at >= bytes.len() {
        return Walk::Ends;
    }
    let tag = bytes[at];
    if tag <= 15 {
        return Walk::Next(at + 1);
    }
    if tag > 21 || depth == 0 {
        return Walk::Ends;
    }
    if tag == 16 {
        match read_flag(bytes, at + 1) {
            Some(_) => pass_type(bytes, at + 2, depth - 1),
            None => Walk::Ends,
        }
    } else if tag == 17 {
        match pass_optional_text(bytes, at + 1) {
            Walk::Next(next) => pass_struct(bytes, next, depth - 1),
            other => other,
        }
    } else if tag == 18 {
        match read_number(bytes, at + 1) {
            Some((_, next)) => pass_type(bytes, next, depth - 1),
            None => Walk::Ends,
        }
    } else if tag == 19 {
        pass_type(bytes, at + 1, depth - 1)
    } else if tag == 20 {
        pass_function(bytes, at + 1, depth - 1)
    } else {
        pass_enum(bytes, at + 1, depth - 1)
    }
}

/// Passes a structure behind its name.
fn pass_struct(bytes: &[u8], at: usize, depth: usize) -> (walk: Walk)
    requires
        at <= bytes.len(),
        depth <= MAX_NESTING,
    ensures
        walk@ == past_struct(bytes@, at as int, depth as nat),
        goes_on(walk, at, bytes@),
    decreases depth, 3nat,
{
    let (repr, next) = match read_repr_at(bytes, at) {
        Some(found) => found,
        None => return Walk::Ends,
    };
    if next >= bytes.len() {
        return Walk::Ends;
    }
    let count = bytes[next] as usize;
    let ghost whole = past_fields(bytes@, next + 1, depth as nat, count as nat);
    let mut fields: Vec<Type> = Vec::new();
    let mut current: usize = next + 1;
    let mut left: usize = count;
    assert(fields@ + whole.1 =~= whole.1);
    while left > 0
        invariant
            depth <= MAX_NESTING,
            next < current <= bytes.len(),
            at < next < bytes.len(),
            left <= count,
            repr_at(bytes@, at as int) == Some((repr, next as int)),
            count == bytes@[next as int],
            whole == past_fields(bytes@, next + 1, depth as nat, count as nat),
            whole.0 == past_fields(bytes@, current as int, depth as nat, left as nat).0,
            whole.1 == fields@ + past_fields(bytes@, current as int, depth as nat, left as nat).1,
        decreases left,
    {
        let named = match pass_optional_text(bytes, current) {
            Walk::Next(named) => named,
            other => return other,
        };
        let behind = match pass_type(bytes, named, depth) {
            Walk::Next(behind) => behind,
            other => return other,
        };
        assert(is_type(bytes@, named as int)) by {
            assert(past_type(bytes@, named as int, depth as nat) is Next);
        }
        let ty = match read_type_at(bytes, named) {
            Some(ty) => ty,
            None => return Walk::Ends,
        };
        let ghost before = fields@;
        let ghost rest = past_fields(bytes@, behind as int, depth as nat, (left - 1) as nat).1;
        fields.push(ty);
        assert(before + (seq![ty] + rest) =~= fields@ + rest);
        current = behind;
        left = left - 1;
    }
    assert(fields@ + Seq::<Type>::empty() =~= fields@);
    if fields_fit(repr, &fields) {
        Walk::Next(current)
    } else {
        Walk::Fails
    }
}

/// Passes the type of a function.
pub fn pass_function(bytes: &[u8], at: usize, depth: usize) -> (walk: Walk)
    requires
        at <= bytes.len(),
        depth <= MAX_NESTING,
    ensures
        walk@ == past_function(bytes@, at as int, depth as nat),
        goes_on(walk, at, bytes@),
    decreases depth, 4nat,
{
    if at >= bytes.len() || bytes[at] > 3 {
        return Walk::Ends;
    }
    match pass_types(bytes, at + 1, depth) {
        Walk::Next(next) => pass_types(bytes, next, depth),
        other => other,
    }
}

/// Passes a list of types behind its length.
fn pass_types(bytes: &[u8], at: usize, depth: usize) -> (walk: Walk)
    requires
        at <= bytes.len(),
        depth <= MAX_NESTING,
    ensures
        walk@ == past_types(bytes@, at as int, depth as nat),
        goes_on(walk, at, bytes@),
    decreases depth, 3nat,
{
    let (count, next) = match read_number(bytes, at) {
        Some(found) => found,
        None => return Walk::Ends,
    };
    if count > bytes.len() - next {
        return Walk::Fails;
    }
    let ghost whole = past_each_type(bytes@, next as int, depth as nat, count as nat);
    let mut current: usize = next;
    let mut left: usize = count;
    while left > 0
        invariant
            depth <= MAX_NESTING,
            at < next <= current <= bytes.len(),
            count <= bytes.len() - next,
            number_at(bytes@, at as int) == Some((count as nat, next as int)),
            whole == past_each_type(bytes@, next as int, depth as nat, count as nat),
            whole == past_each_type(bytes@, current as int, depth as nat, left as nat),
        decreases left,
    {
        match pass_type(bytes, current, depth) {
            Walk::Next(behind) => {
                current = behind;
            },
            other => return other,
        }
        left = left - 1;
    }
    Walk::Next(current)
}

/// Passes an enumeration behind its tag.
fn pass_enum(bytes: &[u8], at: usize, depth: usize) -> (walk: Walk)
    requires
        at <= bytes.len(),
        depth <= MAX_NESTING,
    ensures
        walk@ == past_enum(bytes@, at as int, depth as nat),
        goes_on(walk, at, bytes@),
    decreases depth, 3nat,
{
    let named = match pass_text(bytes, at) {
        Walk::Next(named) => named,
        other => return other,
    };
    let behind = match pass_type(bytes, named, depth) {
        Walk::Next(behind) => behind,
        other => return other,
    };
    assert(is_type(bytes@, named as int)) by {
        assert(past_type(bytes@, named as int, depth as nat) is Next);
    }
    let ty = match read_type_at(bytes, named) {
        Some(ty) => ty,
        None => return Walk::Ends,
    };
    let (count, first) = match read_number(bytes, behind) {
        Some(found) => found,
        None => return Walk::Ends,
    };
    if size_of_discriminant(&ty) == 0 {
        return Walk::Ends;
    }
    let ghost whole = past_variants(bytes@, first as int, depth as nat, count as nat, ty);
    let mut current: usize = first;
    let mut left: usize = count;
    while left > 0
        invariant
            depth <= MAX_NESTING,
            at <= first <= current <= bytes.len(),
            whole == past_enum(bytes@, at as int, depth as nat),
            whole == past_variants(bytes@, current as int, depth as nat, left as nat, ty),
        decreases left,
    {
        let named = match pass_text(bytes, current) {
            Walk::Next(named) => named,
            other => return other,
        };
        let held = match pass_payload(bytes, named, depth, &ty) {
            Walk::Next(held) => held,
            other => return other,
        };
        match pass_discriminant(bytes, held, &ty) {
            Walk::Next(behind) => {
                current = behind;
            },
            other => return other,
        }
        left = left - 1;
    }
    Walk::Next(current)
}

/// Passes what a variant holds, if anything.
fn pass_payload(bytes: &[u8], at: usize, depth: usize, ty: &Type) -> (walk: Walk)
    requires
        at <= bytes.len(),
        depth <= MAX_NESTING,
    ensures
        walk@ == past_payload(bytes@, at as int, depth as nat, *ty),
        goes_on(walk, at, bytes@),
    decreases depth, 1nat,
{
    match read_flag(bytes, at) {
        None => Walk::Ends,
        Some(false) => Walk::Next(at + 1),
        Some(true) => match pass_type(bytes, at + 1, depth) {
            Walk::Next(next) => {
                assert(is_type(bytes@, at + 1)) by {
                    assert(past_type(bytes@, at + 1, depth as nat) is Next);
                }
                match read_type_at(bytes, at + 1) {
                    Some(value) => {
                        let fields = vec![same_type(ty), value];
                        assert(fields@ =~= seq![*ty, value]);
                        if fields_fit(StructRepr::Default, &fields) {
                            Walk::Next(next)
                        } else {
                            Walk::Fails
                        }
                    },
                    None => Walk::Ends,
                }
            },
            other => other,
        },
    }
}

/// Passes the discriminant of a variant, if it is written down.
fn pass_discriminant(bytes: &[u8], at: usize, ty: &Type) -> (walk: Walk)
    requires
        at <= bytes.len(),
    ensures
        walk@ == past_discriminant(bytes@, at as int, *ty),
        goes_on(walk, at, bytes@),
{
    match read_flag(bytes, at) {
        None => Walk::Ends,
        Some(false) => Walk::Next(at + 1),
        Some(true) => pass(bytes, at + 1, size_of_discriminant(ty)),
    }
}

} // verus!
