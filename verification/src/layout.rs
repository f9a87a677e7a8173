//! Types with a layout, and how many field elements they take.
use std::sync::Arc;
use miden_assembly_syntax::ast::types::{ArrayType, PointerType, StructType, Type, TypeRepr};
use vstd::arithmetic::div_mod::lemma_mod_decreases;
use vstd::prelude::*;

verus! {

/// A type with a layout.
#[verifier::external_type_specification]
pub struct ExType(miden_assembly_syntax::ast::types::Type);

/// An array with a layout.
#[verifier::external_type_specification]
pub struct ExArrayType(miden_assembly_syntax::ast::types::ArrayType);

/// A pointer with a layout.
#[verifier::external_type_specification]
#[verifier::external_body]
pub struct ExPointerType(miden_assembly_syntax::ast::types::PointerType);

/// A structure with a layout.
#[verifier::external_type_specification]
#[verifier::external_body]
pub struct ExStructType(miden_assembly_syntax::ast::types::StructType);

/// An enumeration with a layout.
#[verifier::external_type_specification]
#[verifier::external_body]
pub struct ExEnumType(miden_assembly_syntax::ast::types::EnumType);

/// The type of a function.
#[verifier::external_type_specification]
#[verifier::external_body]
pub struct ExFunctionType(miden_assembly_syntax::ast::types::FunctionType);

/// How a structure is laid out, as the outside crate tells it apart.
#[verifier::external_type_specification]
#[verifier::external_body]
pub struct ExTypeRepr(miden_assembly_syntax::ast::types::TypeRepr);

/// `Type::clone`: the same type once more.
#[verifier::external_body]
pub(crate) fn same_type(ty: &Type) -> (copy: Type)
    ensures
        copy == *ty,
{
    ty.clone()
}

/// How the fields of a structure are laid out.
#[derive(Debug, Clone, Copy, PartialEq, Eq, Structural)]
pub enum StructRepr {
    Default,
    Align(u16),
    Packed(u16),
    Transparent,
    BigEndian,
}

/// What a structure's representation says.
pub uninterp spec fn repr_parts(repr: TypeRepr) -> StructRepr;

/// Tells the variants of `TypeRepr` apart.
#[verifier::external_body]
fn read_repr(repr: &TypeRepr) -> (parts: StructRepr)
    ensures
        parts == repr_parts(*repr),
{
    match repr {
        TypeRepr::Default => StructRepr::Default,
        TypeRepr::Align(align) => StructRepr::Align(align.get()),
        TypeRepr::Packed(align) => StructRepr::Packed(align.get()),
        TypeRepr::Transparent => StructRepr::Transparent,
        TypeRepr::BigEndian => StructRepr::BigEndian,
    }
}

/// Whether a number is a power of two.
pub open spec fn is_power_of_two(n: nat) -> bool
    decreases n,
{
    n == 1 || (n > 1 && n % 2 == 0 && is_power_of_two(n / 2))
}

/// The next multiple of a unit, from `n` on.
pub open spec fn rounded_up(n: nat, unit: nat) -> nat {
    if n % unit == 0 {
        n
    } else {
        (n - n % unit + unit) as nat
    }
}

/// The bytes that hold a number of bits.
pub open spec fn bytes_of(bits: nat) -> nat {
    bits / 8 + if bits % 8 == 0 {
        0nat
    } else {
        1nat
    }
}

/// The field elements that hold a number of bits: four bytes stand in each.
pub open spec fn felts_of(bits: nat) -> nat {
    bytes_of(bits) / 4 + if bytes_of(bits) % 4 == 0 {
        0nat
    } else {
        1nat
    }
}

/// The size of a type in bits.
pub uninterp spec fn type_bits(ty: Type) -> usize;

/// The alignment of a type in bytes.
pub uninterp spec fn type_alignment(ty: Type) -> usize;

/// Whether the size of an array can be told: every element but the last is padded to its alignment,
/// and the sum is not too large.
pub open spec fn array_fits(bits: nat, alignment: nat, len: nat) -> bool {
    &&& is_power_of_two(alignment)
    &&& alignment * 8 <= usize::MAX
    &&& bits + rounded_up(bits, alignment * 8) * (len - 1) <= usize::MAX
}

/// Whether the size of a type can be told. Lists have none.
pub open spec fn is_measurable(ty: Type) -> bool
    decreases ty,
{
    match ty {
        Type::List(_) => false,
        Type::Array(array) => array.len == 0 || (is_measurable(array.ty) && (array.len == 1
            || array_fits(
            type_bits(array.ty) as nat,
            type_alignment(array.ty) as nat,
            array.len as nat,
        ))),
        _ => true,
    }
}

/// `Type::size_in_bits`: the size of a type without padding behind it. It depends on the type alone.
/// The outside function panics on lists, and on arrays that are too large or whose elements are
/// aligned to no power of two.
#[verifier::external_body]
fn size_in_bits(ty: &Type) -> (bits: usize)
    requires
        is_measurable(*ty),
    ensures
        bits == type_bits(*ty),
{
    ty.size_in_bits()
}

/// `Type::min_alignment`: the alignment of a type in bytes. It depends on the type alone.
#[verifier::external_body]
fn min_alignment(ty: &Type) -> (alignment: usize)
    ensures
        alignment == type_alignment(*ty),
{
    ty.min_alignment()
}

/// `Type::size_in_felts`: the size of a type in field elements of four bytes, rounded up. It panics
/// where `Type::size_in_bits` does.
#[verifier::external_body]
fn size_in_felts(ty: &Type) -> (size: usize)
    requires
        is_measurable(*ty),
    ensures
        size == felts_of(type_bits(*ty) as nat),
{
    ty.size_in_felts()
}

/// The alignment of a field, in a structure that is not transparent.
pub open spec fn field_alignment(repr: StructRepr, ty: Type) -> nat {
    match repr {
        StructRepr::Packed(most) => if (most as nat) < type_alignment(ty) as nat {
            most as nat
        } else {
            type_alignment(ty) as nat
        },
        _ => type_alignment(ty) as nat,
    }
}

/// The offset behind the first `count` fields of a structure that is not transparent. `None` where
/// there are too many fields, or they cannot be laid out within 32 bits.
pub open spec fn offset_behind(repr: StructRepr, fields: Seq<Type>, count: nat) -> Option<nat>
    decreases count,
{
    if count == 0 {
        Some(0)
    } else {
        let ty = fields[count - 1];
        match offset_behind(repr, fields, (count - 1) as nat) {
            None => None,
            Some(offset) => if count <= 256 && is_measurable(ty) && type_alignment(ty) <= u16::MAX
                && is_power_of_two(field_alignment(repr, ty)) && rounded_up(
                offset,
                field_alignment(repr, ty),
            ) + bytes_of(type_bits(ty) as nat) <= u32::MAX {
                Some(rounded_up(offset, field_alignment(repr, ty)) + bytes_of(type_bits(ty) as nat))
            } else {
                None
            },
        }
    }
}

/// The largest alignment among the first `count` fields.
pub open spec fn widest(fields: Seq<Type>, count: nat) -> nat
    decreases count,
{
    if count == 0 {
        1
    } else {
        let before = widest(fields, (count - 1) as nat);
        if count > 1 && before >= type_alignment(fields[count - 1]) as nat {
            before
        } else {
            type_alignment(fields[count - 1]) as nat
        }
    }
}

/// The alignment of a structure that is not transparent.
pub open spec fn struct_alignment(repr: StructRepr, fields: Seq<Type>) -> nat {
    let own = widest(fields, fields.len());
    match repr {
        StructRepr::Align(least) => if (least as nat) < own {
            own
        } else {
            least as nat
        },
        StructRepr::Packed(most) => if (most as nat) < own {
            most as nat
        } else {
            own
        },
        _ => own,
    }
}

/// Whether a field can stand in a transparent structure.
pub open spec fn is_transparent_field(ty: Type) -> bool {
    &&& is_measurable(ty)
    &&& bytes_of(type_bits(ty) as nat) <= u32::MAX
    &&& type_bits(ty) > 0 ==> type_alignment(ty) <= u16::MAX
}

/// Whether fields make up a structure. In a transparent one only one field has a size.
pub open spec fn are_fields(repr: StructRepr, fields: Seq<Type>) -> bool {
    if repr is Transparent {
        &&& fields.len() <= 256
        &&& forall|i: int| 0 <= i < fields.len() ==> is_transparent_field(#[trigger] fields[i])
        &&& forall|i: int, j: int|
            0 <= i < j < fields.len() ==> type_bits(#[trigger] fields[i]) == 0 || type_bits(
                #[trigger] fields[j],
            ) == 0
    } else {
        match offset_behind(repr, fields, fields.len()) {
            Some(end) => is_power_of_two(struct_alignment(repr, fields)) && rounded_up(
                end,
                struct_alignment(repr, fields),
            ) <= u32::MAX,
            None => false,
        }
    }
}

/// A structure without a name.
pub uninterp spec fn structure(repr: TypeRepr, fields: Seq<Type>) -> Type;

/// `StructType::from_parts` without a name, as a `Type`. It depends on the representation and the
/// fields alone. The outside function panics where the fields cannot be laid out.
#[verifier::external_body]
fn new_struct(repr: TypeRepr, fields: Vec<Type>) -> (ty: Type)
    requires
        are_fields(repr_parts(repr), fields@),
    ensures
        ty == structure(repr, fields@),
{
    Type::from(StructType::from_parts(None, repr, fields))
}

/// A pointer.
pub uninterp spec fn pointer_to(ty: Type) -> Type;

/// `PointerType::new`, as a `Type`. It depends on the type that is pointed to alone.
#[verifier::external_body]
pub(crate) fn new_pointer(ty: Type) -> (pointer: Type)
    ensures
        pointer == pointer_to(ty),
{
    Type::from(PointerType::new(ty))
}

/// `ArrayType::new`: so many elements of a type.
pub assume_specification[ ArrayType::new ](ty: Type, len: usize) -> (array: ArrayType)
    ensures
        array == (ArrayType { ty, len }),
;

/// An array.
pub open spec fn array_of(ty: Type, len: usize) -> Type {
    Type::Array(Arc::new(ArrayType { ty, len }))
}

/// So many elements of a type.
pub fn new_array(ty: Type, len: usize) -> (array: Type)
    ensures
        array == array_of(ty, len),
{
    Type::Array(Arc::new(ArrayType::new(ty, len)))
}

/// Whether `n` is a power of two.
fn power_of_two(n: usize) -> (result: bool)
    ensures
        result == is_power_of_two(n as nat),
{
    let mut left: usize = n;
    while left > 1 && left % 2 == 0
        invariant
            is_power_of_two(n as nat) == is_power_of_two(left as nat),
        decreases left,
    {
        left = left / 2;
    }
    left == 1
}

proof fn lemma_powers_are_positive(n: nat)
    requires
        is_power_of_two(n),
    ensures
        n > 0,
{
}

/// Whether the size of an array can be told.
fn can_be_repeated(bits: usize, alignment: usize, len: usize) -> (result: bool)
    requires
        len > 1,
    ensures
        result == array_fits(bits as nat, alignment as nat, len as nat),
{
    if !power_of_two(alignment) || alignment > usize::MAX / 8 {
        return false;
    }
    proof {
        lemma_powers_are_positive(alignment as nat);
    }
    let unit: usize = alignment * 8;
    let rest: usize = bits % unit;
    proof {
        lemma_mod_decreases(bits as nat, unit as nat);
    }
    let ghost padded = rounded_up(bits as nat, unit as nat);
    let times: usize = len - 1;
    assert(padded * times >= padded) by (nonlinear_arith)
        requires
            times >= 1,
    ;
    let rounded: usize = if rest == 0 {
        bits
    } else {
        match (bits - rest).checked_add(unit) {
            Some(rounded) => rounded,
            None => return false,
        }
    };
    assert(rounded == padded);
    match rounded.checked_mul(times) {
        Some(all) => all <= usize::MAX - bits,
        None => false,
    }
}

/// Whether the size of a type can be told.
fn can_be_measured(ty: &Type) -> (result: bool)
    ensures
        result == is_measurable(*ty),
    decreases *ty,
{
    match ty {
        Type::List(_) => false,
        Type::Array(array) => {
            if array.len == 0 {
                return true;
            }
            if !can_be_measured(&array.ty) {
                return false;
            }
            if array.len == 1 {
                return true;
            }
            can_be_repeated(size_in_bits(&array.ty), min_alignment(&array.ty), array.len)
        },
        _ => true,
    }
}

/// The bytes that hold a number of bits.
fn byte_count(bits: usize) -> (bytes: usize)
    ensures
        bytes == bytes_of(bits as nat),
{
    if bits % 8 == 0 {
        bits / 8
    } else {
        bits / 8 + 1
    }
}

/// The offset behind a field, in a structure that is not transparent.
fn lay_out(repr: StructRepr, ty: &Type, offset: u32) -> (behind: Option<u32>)
    ensures
        ({
            let start = rounded_up(offset as nat, field_alignment(repr, *ty));
            let fits = is_measurable(*ty) && type_alignment(*ty) <= u16::MAX && is_power_of_two(
                field_alignment(repr, *ty),
            ) && start + bytes_of(type_bits(*ty) as nat) <= u32::MAX;
            match behind {
                Some(behind) => fits && behind == start + bytes_of(type_bits(*ty) as nat),
                None => !fits,
            }
        }),
{
    if !can_be_measured(ty) {
        return None;
    }
    let own = min_alignment(ty);
    if own > 0xffff {
        return None;
    }
    let alignment: usize = match repr {
        StructRepr::Packed(most) => if (most as usize) < own {
            most as usize
        } else {
            own
        },
        _ => own,
    };
    assert(alignment == field_alignment(repr, *ty));
    if !power_of_two(alignment) {
        return None;
    }
    proof {
        lemma_powers_are_positive(alignment as nat);
    }
    let size = byte_count(size_in_bits(ty));
    if size > 0xffff_ffff {
        return None;
    }
    let unit: u64 = alignment as u64;
    let from: u64 = offset as u64;
    let rest: u64 = from % unit;
    proof {
        lemma_mod_decreases(from as nat, unit as nat);
    }
    let start: u64 = if rest == 0 {
        from
    } else {
        from - rest + unit
    };
    assert(start == rounded_up(offset as nat, alignment as nat));
    let behind: u64 = start + size as u64;
    if behind > 0xffff_ffff {
        None
    } else {
        Some(behind as u32)
    }
}

/// Steps that cannot be made spoil all that follow.
proof fn lemma_no_offset(repr: StructRepr, fields: Seq<Type>, at: nat, count: nat)
    requires
        at <= count,
        offset_behind(repr, fields, at) is None,
    ensures
        offset_behind(repr, fields, count) is None,
    decreases count,
{
    if at < count {
        lemma_no_offset(repr, fields, at, (count - 1) as nat);
    }
}

/// Whether fields make up a structure that is not transparent.
fn can_be_laid_out(repr: StructRepr, fields: &Vec<Type>) -> (result: bool)
    requires
        !(repr is Transparent),
    ensures
        result == are_fields(repr, fields@),
{
    let mut offset: u32 = 0;
    let mut own: usize = 1;
    let mut i: usize = 0;
    while i < fields.len()
        invariant
            i <= fields.len(),
            i <= 256,
            !(repr is Transparent),
            own == widest(fields@, i as nat),
            own <= u16::MAX,
            offset_behind(repr, fields@, i as nat) == Some(offset as nat),
        decreases fields.len() - i,
    {
        if i >= 256 {
            proof {
                assert(offset_behind(repr, fields@, (i + 1) as nat) is None);
                lemma_no_offset(repr, fields@, (i + 1) as nat, fields@.len());
            }
            return false;
        }
        match lay_out(repr, &fields[i], offset) {
            Some(behind) => {
                offset = behind;
            },
            None => {
                proof {
                    assert(offset_behind(repr, fields@, (i + 1) as nat) is None);
                    lemma_no_offset(repr, fields@, (i + 1) as nat, fields@.len());
                }
                return false;
            },
        }
        let alignment = min_alignment(&fields[i]);
        if i == 0 || own < alignment {
            own = alignment;
        }
        i = i + 1;
    }
    let alignment: usize = match repr {
        StructRepr::Align(least) => if (least as usize) < own {
            own
        } else {
            least as usize
        },
        StructRepr::Packed(most) => if (most as usize) < own {
            most as usize
        } else {
            own
        },
        _ => own,
    };
    assert(alignment == struct_alignment(repr, fields@));
    if !power_of_two(alignment) {
        return false;
    }
    proof {
        lemma_powers_are_positive(alignment as nat);
    }
    let unit: u64 = alignment as u64;
    let rest: u64 = offset as u64 % unit;
    proof {
        lemma_mod_decreases(offset as nat, unit as nat);
    }
    rest == 0 || offset as u64 - rest + unit <= 0xffff_ffff
}

/// Whether fields make up a transparent structure.
fn can_be_transparent(fields: &Vec<Type>) -> (result: bool)
    ensures
        result == are_fields(StructRepr::Transparent, fields@),
{
    if fields.len() > 256 {
        return false;
    }
    let mut found: Option<usize> = None;
    let mut i: usize = 0;
    while i < fields.len()
        invariant
            i <= fields.len() <= 256,
            forall|k: int| 0 <= k < i ==> is_transparent_field(#[trigger] fields@[k]),
            match found {
                Some(at) => at < i && type_bits(fields@[at as int]) > 0 && forall|k: int|
                    0 <= k < i && k != at ==> type_bits(#[trigger] fields@[k]) == 0,
                None => forall|k: int| 0 <= k < i ==> type_bits(#[trigger] fields@[k]) == 0,
            },
        decreases fields.len() - i,
    {
        let ty = &fields[i];
        let ghost at = i as int;
        if !can_be_measured(ty) {
            assert(!is_transparent_field(fields@[at]));
            return false;
        }
        let bits = size_in_bits(ty);
        if byte_count(bits) > 0xffff_ffff {
            assert(!is_transparent_field(fields@[at]));
            return false;
        }
        if bits > 0 {
            if min_alignment(ty) > 0xffff {
                assert(!is_transparent_field(fields@[at]));
                return false;
            }
            if let Some(other) = found {
                assert(type_bits(fields@[other as int]) > 0 && type_bits(fields@[at]) > 0);
                return false;
            }
            found = Some(i);
        }
        i = i + 1;
    }
    true
}

/// Whether fields make up a structure.
pub fn fields_fit(repr: StructRepr, fields: &Vec<Type>) -> (result: bool)
    ensures
        result == are_fields(repr, fields@),
{
    match repr {
        StructRepr::Transparent => can_be_transparent(fields),
        _ => can_be_laid_out(repr, fields),
    }
}

/// A structure with the given fields, where they make one up.
pub open spec fn struct_of(repr: TypeRepr, fields: Seq<Type>) -> Option<Type> {
    if are_fields(repr_parts(repr), fields) {
        Some(structure(repr, fields))
    } else {
        None
    }
}

/// A structure with the given fields, where they make one up.
pub fn build_struct(repr: TypeRepr, fields: Vec<Type>) -> (ty: Option<Type>)
    ensures
        ty == struct_of(repr, fields@),
{
    if fields_fit(read_repr(&repr), &fields) {
        Some(new_struct(repr, fields))
    } else {
        None
    }
}

/// The size of a type in field elements, where it can be told.
pub open spec fn felt_count(ty: Type) -> Option<nat> {
    if is_measurable(ty) {
        Some(felts_of(type_bits(ty) as nat))
    } else {
        None
    }
}

/// The size of a type in field elements, where it can be told.
pub fn count_felts(ty: &Type) -> (count: Option<usize>)
    ensures
        match count {
            Some(count) => felt_count(*ty) == Some(count as nat),
            None => felt_count(*ty) is None,
        },
{
    if can_be_measured(ty) {
        Some(size_in_felts(ty))
    } else {
        None
    }
}

} // verus!
