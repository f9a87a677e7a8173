//! How much room types take: the laws of sizes, layouts and signatures.
use miden_assembly_syntax::ast::types::{FunctionType, Type};
use miden_assembly_syntax::ast::TypeExpr;
use vstd::arithmetic::power2::{lemma_pow2_pos, lemma_pow2_unfold, pow2};
use vstd::prelude::*;
use crate::layout::{bytes_of, felt_count, field_alignment, is_measurable, is_power_of_two,
    offset_behind, rounded_up, struct_alignment, type_alignment, type_bits, widest, StructRepr};
use crate::meaning::{lemma_picks, picks};
use crate::signature::{concrete_type, expr_size, expr_sizes, function_parts, function_signature,
    marked_nodes, open_nodes, total, type_rows, type_sizes, written_signature, Declared, TypeMark,
    TypeRow};

verus! {

/// A number is rounded up to the next multiple of a unit.
pub proof fn law_rounded_up(n: nat, unit: nat)
    requires
        unit > 0,
    ensures
        rounded_up(n, unit) % unit == 0,
        n <= rounded_up(n, unit) < n + unit,
{
    vstd::arithmetic::div_mod::lemma_fundamental_div_mod(n as int, unit as int);
    vstd::arithmetic::div_mod::lemma_mod_bound(n as int, unit as int);
    let times = n as int / unit as int;
    let up = rounded_up(n, unit) as int;
    if n % unit != 0 {
        vstd::arithmetic::mul::lemma_mul_is_distributive_add(unit as int, times, 1);
        assert(up == unit as int * (times + 1));
        vstd::arithmetic::div_mod::lemma_mod_multiples_basic(times + 1, unit as int);
        vstd::arithmetic::mul::lemma_mul_is_commutative(unit as int, times + 1);
    }
}

/// As many bytes are counted as are needed for a number of bits, and no more.
pub proof fn law_bytes_of(bits: nat)
    ensures
        bytes_of(bits) * 8 >= bits,
        bytes_of(bits) > 0 ==> (bytes_of(bits) - 1) * 8 < bits,
{
}

/// A power of two is what it says.
pub proof fn law_power_of_two(n: nat)
    ensures
        is_power_of_two(n) <==> exists|k: nat| n == #[trigger] pow2(k),
    decreases n,
{
    vstd::arithmetic::power2::lemma2_to64();
    if n == 1 {
        assert(n == pow2(0));
    } else if n > 1 {
        law_power_of_two(n / 2);
        if n % 2 == 0 && is_power_of_two(n / 2) {
            let k = choose|k: nat| n / 2 == #[trigger] pow2(k);
            lemma_pow2_unfold(k + 1);
            assert(n == pow2(k + 1));
        }
        if exists|k: nat| n == #[trigger] pow2(k) {
            let k = choose|k: nat| n == #[trigger] pow2(k);
            assert(k > 0);
            lemma_pow2_unfold(k);
            let less = (k - 1) as nat;
            assert(n == 2 * pow2(less));
            assert(n / 2 == pow2(less));
        }
    } else {
        assert forall|k: nat| n != #[trigger] pow2(k) by {
            lemma_pow2_pos(k);
        }
    }
}

/// Every type has a size but for lists, and for arrays of what has none or of too much.
pub proof fn law_measurable(ty: Type)
    ensures
        match ty {
            Type::List(_) => felt_count(ty) is None,
            Type::Array(array) => {
                &&& array.len == 0 ==> felt_count(ty) is Some
                &&& array.len == 1 ==> (felt_count(ty) is Some <==> is_measurable(array.ty))
                &&& array.len > 1 && !is_measurable(array.ty) ==> felt_count(ty) is None
            },
            _ => felt_count(ty) is Some,
        },
        felt_count(ty) is Some ==> felt_count(ty).unwrap() * 32 >= type_bits(ty),
        felt_count(ty) is Some && felt_count(ty).unwrap() > 0 ==> (felt_count(ty).unwrap() - 1) * 32
            < type_bits(ty),
{
    crate::identity_laws::law_felts(type_bits(ty) as nat);
}

/// Each field of a structure starts behind the one before it, at the next place that its alignment
/// allows, and has room for its bytes.
pub proof fn law_fields_follow_each_other(repr: StructRepr, fields: Seq<Type>, count: nat)
    requires
        0 < count <= fields.len(),
        offset_behind(repr, fields, count) is Some,
    ensures
        offset_behind(repr, fields, (count - 1) as nat) is Some,
        is_measurable(fields[count - 1]),
        ({
            let before = offset_behind(repr, fields, (count - 1) as nat).unwrap();
            let behind = offset_behind(repr, fields, count).unwrap();
            let size = bytes_of(type_bits(fields[count - 1]) as nat);
            let unit = field_alignment(repr, fields[count - 1]);
            &&& unit > 0
            &&& before <= behind - size < before + unit
            &&& (behind - size) % (unit as int) == 0
            &&& behind <= u32::MAX
        }),
{
    let before = offset_behind(repr, fields, (count - 1) as nat).unwrap();
    let unit = field_alignment(repr, fields[count - 1]);
    law_rounded_up(before, unit);
}

/// Fields that are not too many and not too large can be laid out.
pub proof fn law_small_fields_fit(repr: StructRepr, fields: Seq<Type>, count: nat)
    requires
        count <= fields.len() <= 256,
        forall|i: int|
            0 <= i < fields.len() ==> is_measurable(#[trigger] fields[i]) && bytes_of(
                type_bits(fields[i]) as nat,
            ) <= 0x100000 && type_alignment(fields[i]) <= u16::MAX && is_power_of_two(
                field_alignment(repr, fields[i]),
            ),
    ensures
        offset_behind(repr, fields, count) is Some,
        offset_behind(repr, fields, count).unwrap() <= count * 0x110000,
    decreases count,
{
    if count > 0 {
        law_small_fields_fit(repr, fields, (count - 1) as nat);
        let before = offset_behind(repr, fields, (count - 1) as nat).unwrap();
        let ty = fields[count - 1];
        let unit = field_alignment(repr, ty);
        assert(unit <= u16::MAX);
        law_rounded_up(before, unit);
        assert(before <= (count - 1) * 0x110000);
    }
}

/// The alignment of a structure is that of the field with the largest one, unless it is told to have
/// more, or at most so much.
pub proof fn law_struct_alignment(repr: StructRepr, fields: Seq<Type>, count: nat)
    requires
        0 < count <= fields.len(),
    ensures
        forall|i: int| 0 <= i < count ==> type_alignment(#[trigger] fields[i]) <= widest(fields, count),
        exists|i: int| 0 <= i < count && type_alignment(#[trigger] fields[i]) == widest(fields, count),
        match repr {
            StructRepr::Align(least) => struct_alignment(repr, fields) >= least
                && struct_alignment(repr, fields) >= widest(fields, fields.len()) && (
            struct_alignment(repr, fields) == least || struct_alignment(repr, fields) == widest(
                fields,
                fields.len(),
            )),
            StructRepr::Packed(most) => struct_alignment(repr, fields) <= most && struct_alignment(
                repr,
                fields,
            ) <= widest(fields, fields.len()) && (struct_alignment(repr, fields) == most
                || struct_alignment(repr, fields) == widest(fields, fields.len())),
            _ => struct_alignment(repr, fields) == widest(fields, fields.len()),
        },
    decreases count,
{
    if count > 1 {
        law_struct_alignment(repr, fields, (count - 1) as nat);
        let i = choose|i: int|
            0 <= i < count - 1 && type_alignment(#[trigger] fields[i]) == widest(
                fields,
                (count - 1) as nat,
            );
        if widest(fields, (count - 1) as nat) >= type_alignment(fields[count - 1]) as nat {
            assert(type_alignment(fields[i]) == widest(fields, count));
        } else {
            assert(type_alignment(fields[count - 1]) == widest(fields, count));
        }
    } else {
        assert(type_alignment(fields[0]) == widest(fields, count));
    }
}

/// The size of a type expression is that of the type that it stands for.
pub proof fn law_expr_size(expr: TypeExpr, locals: Seq<Declared>)
    ensures
        match concrete_type(type_rows(expr), 0, type_rows(expr).len() as int, locals, 0) {
            Some(ty) => expr_size(expr, locals) == felt_count(ty),
            None => expr_size(expr, locals) is None,
        },
{
}

/// Whether counts are the sums of sizes.
pub open spec fn adds_up(sizes: Seq<Option<nat>>, sum: usize) -> bool {
    total(sizes) == Some(sum)
}

/// A signature is known exactly where the sizes of all arguments and of all results are and their sums
/// are not too large; it then tells these sums.
pub proof fn law_signatures(
    args: Seq<TypeExpr>,
    results: Seq<TypeExpr>,
    locals: Seq<Declared>,
    function: FunctionType,
)
    ensures
        match written_signature(args, results, locals) {
            Some(signature) => adds_up(expr_sizes(args, locals), signature.args) && adds_up(
                expr_sizes(results, locals),
                signature.results,
            ),
            None => total(expr_sizes(args, locals)) is None || total(expr_sizes(results, locals))
                is None,
        },
        expr_sizes(args, locals).len() == args.len(),
        forall|i: int|
            0 <= i < args.len() ==> #[trigger] expr_sizes(args, locals)[i] == expr_size(
                args[i],
                locals,
            ),
        match function_signature(function) {
            Some(signature) => adds_up(type_sizes(function_parts(function).0), signature.args)
                && adds_up(type_sizes(function_parts(function).1), signature.results),
            None => total(type_sizes(function_parts(function).0)) is None || total(
                type_sizes(function_parts(function).1),
            ) is None,
        },
        type_sizes(function_parts(function).0).len() == function_parts(function).0.len(),
        forall|i: int|
            0 <= i < function_parts(function).0.len() ==> #[trigger] type_sizes(
                function_parts(function).0,
            )[i] == felt_count(function_parts(function).0[i]),
{
}

/// How many of the first marks open a node.
pub open spec fn opened(marks: Seq<TypeMark>, count: nat) -> nat
    decreases count,
{
    if count == 0 {
        0
    } else {
        opened(marks, (count - 1) as nat) + if marks[count - 1] is Open {
            1nat
        } else {
            0nat
        }
    }
}

/// Whether no more nodes are closed than were opened, at any place.
pub open spec fn are_nested(marks: Seq<TypeMark>, count: int) -> bool {
    forall|k: int| 0 <= k <= count ==> k <= 2 * #[trigger] opened(marks, k as nat)
}

proof fn lemma_open_nodes(marks: Seq<TypeMark>, count: nat)
    requires
        count <= marks.len(),
        are_nested(marks, count as int),
    ensures
        open_nodes(marks, count) == 2 * opened(marks, count) - count,
        opened(marks, count) <= count,
    decreases count,
{
    if count > 0 {
        assert(are_nested(marks, count - 1));
        lemma_open_nodes(marks, (count - 1) as nat);
        let whole = count as int;
        assert(whole <= 2 * opened(marks, whole as nat));
    }
}

/// The marks that open a node.
pub open spec fn opening(marks: Seq<TypeMark>) -> spec_fn(int) -> bool {
    |i: int| marks[i] is Open
}

/// Whether a row is the node that a mark opens, with the number of those that were open there.
pub open spec fn is_row_at(marks: Seq<TypeMark>, at: int, row: TypeRow) -> bool {
    &&& marks[at] == TypeMark::Open(row.shape)
    &&& row.depth == 2 * opened(marks, at as nat) - at
}

proof fn lemma_marked_nodes(marks: Seq<TypeMark>, count: nat) -> (list: Seq<int>)
    requires
        count <= marks.len() <= usize::MAX,
        are_nested(marks, count as int),
    ensures
        picks(list, count as int, opening(marks)),
        marked_nodes(marks, count).len() == list.len(),
        forall|k: int|
            0 <= k < list.len() ==> is_row_at(
                marks,
                #[trigger] list[k],
                marked_nodes(marks, count)[k],
            ),
    decreases count,
{
    if count == 0 {
        Seq::empty()
    } else {
        let last = count - 1;
        assert(are_nested(marks, last));
        let list = lemma_marked_nodes(marks, last as nat);
        let wanted = opening(marks);
        lemma_picks(list, last, wanted);
        lemma_open_nodes(marks, last as nat);
        assert(wanted(last) == (marks[last] is Open));
        if wanted(last) {
            let more = list.push(last);
            let before = marked_nodes(marks, last as nat);
            let after = marked_nodes(marks, count);
            assert forall|k: int| 0 <= k < more.len() implies is_row_at(
                marks,
                #[trigger] more[k],
                after[k],
            ) by {
                if k < list.len() {
                    assert(more[k] == list[k]);
                    assert(after[k] == before[k]);
                }
            }
            more
        } else {
            list
        }
    }
}

/// The rows of a type are the nodes that its listing opens, each as deep as nodes were open and not yet
/// closed in front of it.
pub proof fn law_type_rows(marks: Seq<TypeMark>)
    requires
        marks.len() <= usize::MAX,
        are_nested(marks, marks.len() as int),
    ensures
        exists|list: Seq<int>|
            {
                &&& #[trigger] picks(list, marks.len() as int, opening(marks))
                &&& marked_nodes(marks, marks.len()).len() == list.len()
                &&& forall|k: int|
                    0 <= k < list.len() ==> is_row_at(
                        marks,
                        #[trigger] list[k],
                        marked_nodes(marks, marks.len())[k],
                    )
            },
{
    let list = lemma_marked_nodes(marks, marks.len());
    assert(picks(list, marks.len() as int, opening(marks)));
}

} // verus!
