//! Written procedure signatures: how many field elements they take and give.
use miden_assembly_syntax::ast::types::{FunctionType, Type, TypeRepr};
use miden_assembly_syntax::ast::TypeExpr;
use miden_assembly_syntax::ast::TypeExpr::{Array, Primitive, Ptr, Ref, Struct};
use vstd::prelude::*;
use crate::layout::{array_of, build_struct, count_felts, felt_count, new_array, new_pointer,
    pointer_to, same_type, struct_of};
use crate::stack_effect::StackSignature;
use crate::text::same_text;

verus! {

/// A type expression.
#[verifier::external_type_specification]
#[verifier::external_body]
pub struct ExTypeExpr(miden_assembly_syntax::ast::TypeExpr);

/// One node of a type expression.
pub enum TypeShape {
    /// A type that is built in.
    Primitive(Type),
    /// An array of the type below.
    Array(usize),
    /// A pointer to the type below.
    Ptr,
    /// A structure with the types below as fields.
    Struct(TypeRepr),
    /// A type that was declared elsewhere, under the last part of its path.
    Ref(Option<String>),
}

/// A mark in the listing of a type expression: a node opens, or the last node that is open closes.
/// What a node is made of is listed between the two.
pub enum TypeMark {
    Open(TypeShape),
    Close,
}

/// The listing of a type expression: the outermost node and what it is made of, first to last.
pub uninterp spec fn type_marks(expr: TypeExpr) -> Seq<TypeMark>;

/// Lists the nodes of a `TypeExpr`, from the outside in and first to last: the type of a primitive,
/// the arity of an array, the representation of a structure and, of a reference, the last component
/// of its path.
#[verifier::external_body]
fn list_type(expr: &TypeExpr) -> (marks: Vec<TypeMark>)
    ensures
        marks@ == type_marks(*expr),
{
    let (shape, inner) = match expr {
        Primitive(ty) => (TypeShape::Primitive(Type::clone(ty)), vec![]),
        Array(array) => (TypeShape::Array(array.arity), vec![&*array.elem]),
        Ptr(pointer) => (TypeShape::Ptr, vec![&*pointer.pointee]),
        Struct(ty) => (TypeShape::Struct(*ty.repr), ty.fields.iter().map(|field| &field.ty).collect()),
        Ref(path) => (TypeShape::Ref(path.last().map(str::to_string)), vec![]),
    };
    let mut marks = vec![TypeMark::Open(shape)];
    for expr in inner { marks.extend(list_type(expr)); }
    marks.push(TypeMark::Close);
    marks
}

/// One node of a type expression, with its depth.
pub struct TypeRow {
    pub depth: usize,
    pub shape: TypeShape,
}

/// How many nodes are open behind the first `count` marks.
pub open spec fn open_nodes(marks: Seq<TypeMark>, count: nat) -> nat
    decreases count,
{
    if count == 0 {
        0
    } else {
        let before = open_nodes(marks, (count - 1) as nat);
        match marks[count - 1] {
            TypeMark::Open(_) => before + 1,
            TypeMark::Close => if before > 0 {
                (before - 1) as nat
            } else {
                0
            },
        }
    }
}

/// The nodes that the first `count` marks open, each with the number of nodes it is inside.
pub open spec fn marked_nodes(marks: Seq<TypeMark>, count: nat) -> Seq<TypeRow>
    decreases count,
{
    if count == 0 {
        Seq::empty()
    } else {
        let before = marked_nodes(marks, (count - 1) as nat);
        match marks[count - 1] {
            TypeMark::Open(shape) => before.push(
                TypeRow { depth: open_nodes(marks, (count - 1) as nat) as usize, shape },
            ),
            TypeMark::Close => before,
        }
    }
}

/// The nodes of a type expression in depth-first order, the outermost first.
pub open spec fn type_rows(expr: TypeExpr) -> Seq<TypeRow> {
    marked_nodes(type_marks(expr), type_marks(expr).len())
}

/// The nodes of a type expression in depth-first order, the outermost first.
pub fn read_type(expr: &TypeExpr) -> (rows: Vec<TypeRow>)
    ensures
        rows@ == type_rows(*expr),
{
    let marks = list_type(expr);
    let ghost all = marks@;
    let count = marks.len();
    let mut rows: Vec<TypeRow> = Vec::new();
    let mut depth: usize = 0;
    for mark in it: marks
        invariant
            it.seq() == all,
            all.len() == count,
            depth <= it.index(),
            depth == open_nodes(all, it.index() as nat),
            rows@ == marked_nodes(all, it.index() as nat),
    {
        match mark {
            TypeMark::Open(shape) => {
                rows.push(TypeRow { depth, shape });
                depth = depth + 1;
            },
            TypeMark::Close => {
                if depth > 0 {
                    depth = depth - 1;
                }
            },
        }
    }
    rows
}

/// A type that a module declares.
pub struct LocalType {
    pub name: String,
    pub rows: Vec<TypeRow>,
}

/// The model of a declared type.
pub struct Declared {
    pub name: Seq<char>,
    pub rows: Seq<TypeRow>,
}

impl View for LocalType {
    type V = Declared;

    open spec fn view(&self) -> Declared {
        Declared { name: self.name@, rows: self.rows@ }
    }
}

/// The models of the types that a module declares.
pub open spec fn declared(locals: Seq<LocalType>) -> Seq<Declared> {
    Seq::new(locals.len(), |i: int| locals[i]@)
}

/// The last of the first `count` declarations with the given name.
pub open spec fn declaration_named(locals: Seq<Declared>, name: Seq<char>, count: nat) -> Option<
    Declared,
>
    decreases count,
{
    if count == 0 {
        None
    } else if locals[count - 1].name == name {
        Some(locals[count - 1])
    } else {
        declaration_named(locals, name, (count - 1) as nat)
    }
}

/// The first of the rows from `at` up to `hi` that is no deeper than `depth`.
pub open spec fn type_past(rows: Seq<TypeRow>, depth: usize, at: int, hi: int) -> int
    decreases hi - at,
{
    if at >= hi || rows[at].depth <= depth {
        at
    } else {
        type_past(rows, depth, at + 1, hi)
    }
}

/// The row behind the node at `at`, among the rows below `hi`.
pub open spec fn type_end(rows: Seq<TypeRow>, at: int, hi: int) -> int {
    let past = type_past(rows, rows[at].depth, at + 1, hi);
    if at < past <= hi {
        past
    } else {
        hi
    }
}

/// How far type expressions may be nested, references counted in.
pub const MAX_DEPTH: usize = 64;

/// The type at row `at`, with references replaced by what was declared under their names. `None`
/// where a name was not declared, the nesting is too deep or a structure cannot be laid out.
pub open spec fn concrete_type(
    rows: Seq<TypeRow>,
    at: int,
    hi: int,
    locals: Seq<Declared>,
    depth: int,
) -> Option<Type>
    decreases MAX_DEPTH + 1 - depth, 0int,
{
    if depth > MAX_DEPTH || at >= hi {
        None
    } else {
        let end = type_end(rows, at, hi);
        match rows[at].shape {
            TypeShape::Primitive(ty) => Some(ty),
            TypeShape::Array(arity) => match concrete_type(rows, at + 1, end, locals, depth + 1) {
                Some(ty) => Some(array_of(ty, arity)),
                None => None,
            },
            TypeShape::Ptr => match concrete_type(rows, at + 1, end, locals, depth + 1) {
                Some(ty) => Some(pointer_to(ty)),
                None => None,
            },
            TypeShape::Struct(repr) => match concrete_fields(
                rows,
                at + 1,
                end,
                locals,
                depth + 1,
            ) {
                Some(fields) => struct_of(repr, fields),
                None => None,
            },
            TypeShape::Ref(None) => None,
            TypeShape::Ref(Some(name)) => match declaration_named(locals, name@, locals.len()) {
                Some(declaration) => concrete_type(
                    declaration.rows,
                    0,
                    declaration.rows.len() as int,
                    locals,
                    depth + 1,
                ),
                None => None,
            },
        }
    }
}

/// The types of the fields at rows `at` up to `hi`.
pub open spec fn concrete_fields(
    rows: Seq<TypeRow>,
    at: int,
    hi: int,
    locals: Seq<Declared>,
    depth: int,
) -> Option<Seq<Type>>
    decreases MAX_DEPTH + 1 - depth, 1int + hi - at,
{
    if at >= hi {
        Some(Seq::empty())
    } else {
        let end = type_end(rows, at, hi);
        match (
            concrete_type(rows, at, end, locals, depth),
            concrete_fields(rows, end, hi, locals, depth),
        ) {
            (Some(first), Some(rest)) => Some(seq![first] + rest),
            _ => None,
        }
    }
}

/// The row behind the node at `at`.
fn find_type_end(rows: &Vec<TypeRow>, at: usize, hi: usize) -> (end: usize)
    requires
        at < hi <= rows.len(),
    ensures
        end == type_end(rows@, at as int, hi as int),
        at < end <= hi,
{
    let depth = rows[at].depth;
    let mut past: usize = at + 1;
    while past < hi && rows[past].depth > depth
        invariant
            at < past <= hi <= rows.len(),
            depth == rows@[at as int].depth,
            type_past(rows@, depth, at + 1, hi as int) == type_past(
                rows@,
                depth,
                past as int,
                hi as int,
            ),
        decreases hi - past,
    {
        past = past + 1;
    }
    past
}

/// The type at row `at`.
pub fn type_expr_to_concrete_type(
    rows: &Vec<TypeRow>,
    at: usize,
    hi: usize,
    locals: &Vec<LocalType>,
    depth: usize,
) -> (ty: Option<Type>)
    requires
        hi <= rows.len(),
        depth <= MAX_DEPTH + 1,
    ensures
        ty == concrete_type(rows@, at as int, hi as int, declared(locals@), depth as int),
    decreases MAX_DEPTH + 1 - depth, 0int,
{
    if depth > MAX_DEPTH || at >= hi {
        return None;
    }
    let end = find_type_end(rows, at, hi);
    match &rows[at].shape {
        TypeShape::Primitive(ty) => Some(same_type(ty)),
        TypeShape::Array(arity) => match type_expr_to_concrete_type(
            rows,
            at + 1,
            end,
            locals,
            depth + 1,
        ) {
            Some(ty) => Some(new_array(ty, *arity)),
            None => None,
        },
        TypeShape::Ptr => match type_expr_to_concrete_type(rows, at + 1, end, locals, depth + 1) {
            Some(ty) => Some(new_pointer(ty)),
            None => None,
        },
        TypeShape::Struct(repr) => match field_types(rows, at + 1, end, locals, depth + 1) {
            Some(fields) => build_struct(*repr, fields),
            None => None,
        },
        TypeShape::Ref(None) => None,
        TypeShape::Ref(Some(name)) => {
            let ghost views = declared(locals@);
            let mut i: usize = locals.len();
            while i > 0
                invariant
                    i <= locals.len(),
                    views == declared(locals@),
                    at < hi,
                    depth <= MAX_DEPTH,
                    rows@[at as int].shape == TypeShape::Ref(Some(*name)),
                    declaration_named(views, name@, views.len()) == declaration_named(
                        views,
                        name@,
                        i as nat,
                    ),
                decreases i,
            {
                i = i - 1;
                assert(views[i as int] == locals@[i as int]@);
                if same_text(&locals[i].name, name) {
                    return type_expr_to_concrete_type(
                        &locals[i].rows,
                        0,
                        locals[i].rows.len(),
                        locals,
                        depth + 1,
                    );
                }
            }
            None
        },
    }
}

/// The types of the fields at rows `at` up to `hi`.
fn field_types(
    rows: &Vec<TypeRow>,
    at: usize,
    hi: usize,
    locals: &Vec<LocalType>,
    depth: usize,
) -> (fields: Option<Vec<Type>>)
    requires
        hi <= rows.len(),
        depth <= MAX_DEPTH + 1,
    ensures
        match fields {
            Some(fields) => concrete_fields(
                rows@,
                at as int,
                hi as int,
                declared(locals@),
                depth as int,
            ) == Some(fields@),
            None => concrete_fields(
                rows@,
                at as int,
                hi as int,
                declared(locals@),
                depth as int,
            ) is None,
        },
    decreases MAX_DEPTH + 1 - depth, 1int + hi - at,
{
    let ghost views = declared(locals@);
    let ghost all = concrete_fields(rows@, at as int, hi as int, views, depth as int);
    let mut fields: Vec<Type> = Vec::new();
    let mut current: usize = at;
    proof {
        if let Some(rest) = all {
            assert(fields@ + rest =~= rest);
        }
    }
    while current < hi
        invariant
            hi <= rows.len(),
            depth <= MAX_DEPTH + 1,
            views == declared(locals@),
            at <= current,
            current <= hi || at > hi,
            all == concrete_fields(rows@, at as int, hi as int, views, depth as int),
            match concrete_fields(rows@, current as int, hi as int, views, depth as int) {
                Some(rest) => all == Some(fields@ + rest),
                None => all is None,
            },
        decreases hi - current,
    {
        let end = find_type_end(rows, current, hi);
        let ghost before = fields@;
        match type_expr_to_concrete_type(rows, current, end, locals, depth) {
            Some(field) => {
                fields.push(field);
                proof {
                    if let Some(rest) = concrete_fields(
                        rows@,
                        end as int,
                        hi as int,
                        views,
                        depth as int,
                    ) {
                        assert(before + (seq![field] + rest) =~= fields@ + rest);
                    }
                }
            },
            None => return None,
        }
        current = end;
    }
    assert(fields@ + Seq::<Type>::empty() =~= fields@);
    Some(fields)
}

/// The size of a type expression in field elements.
pub open spec fn expr_size(expr: TypeExpr, locals: Seq<Declared>) -> Option<nat> {
    let rows = type_rows(expr);
    match concrete_type(rows, 0, rows.len() as int, locals, 0) {
        Some(ty) => felt_count(ty),
        None => None,
    }
}

/// The sum of sizes. `None` where one of them cannot be told, or the sum is too large.
pub open spec fn total(sizes: Seq<Option<nat>>) -> Option<usize>
    decreases sizes.len(),
{
    if sizes.len() == 0 {
        Some(0)
    } else {
        match (total(sizes.drop_last()), sizes.last()) {
            (Some(before), Some(size)) => if before + size <= usize::MAX {
                Some((before + size) as usize)
            } else {
                None
            },
            _ => None,
        }
    }
}

/// The sizes of several type expressions.
pub open spec fn expr_sizes(exprs: Seq<TypeExpr>, locals: Seq<Declared>) -> Seq<Option<nat>> {
    Seq::new(exprs.len(), |i: int| expr_size(exprs[i], locals))
}

/// The sizes of several types.
pub open spec fn type_sizes(types: Seq<Type>) -> Seq<Option<nat>> {
    Seq::new(types.len(), |i: int| felt_count(types[i]))
}

/// The counts of a written signature.
pub open spec fn written_signature(
    args: Seq<TypeExpr>,
    results: Seq<TypeExpr>,
    locals: Seq<Declared>,
) -> Option<StackSignature> {
    match (total(expr_sizes(args, locals)), total(expr_sizes(results, locals))) {
        (Some(args), Some(results)) => Some(StackSignature { args, results }),
        _ => None,
    }
}

/// The size of a type expression in field elements.
pub fn type_expr_size_in_felts(expr: &TypeExpr, locals: &Vec<LocalType>) -> (size: Option<usize>)
    ensures
        match size {
            Some(size) => expr_size(*expr, declared(locals@)) == Some(size as nat),
            None => expr_size(*expr, declared(locals@)) is None,
        },
{
    let rows = read_type(expr);
    match type_expr_to_concrete_type(&rows, 0, rows.len(), locals, 0) {
        Some(ty) => count_felts(&ty),
        None => None,
    }
}

/// A size more.
fn plus(sum: Option<usize>, size: Option<usize>) -> (more: Option<usize>)
    ensures
        more == match (sum, size) {
            (Some(sum), Some(size)) => if sum + size <= usize::MAX {
                Some((sum + size) as usize)
            } else {
                None
            },
            _ => None,
        },
{
    match (sum, size) {
        (Some(sum), Some(size)) => if size <= usize::MAX - sum {
            Some(sum + size)
        } else {
            None
        },
        _ => None,
    }
}

/// The size of several type expressions together.
fn exprs_size(exprs: &Vec<TypeExpr>, locals: &Vec<LocalType>) -> (size: Option<usize>)
    ensures
        size == total(expr_sizes(exprs@, declared(locals@))),
{
    let ghost sizes = expr_sizes(exprs@, declared(locals@));
    let mut sum: Option<usize> = Some(0);
    let mut i: usize = 0;
    assert(sizes.take(0) =~= Seq::<Option<nat>>::empty());
    while i < exprs.len()
        invariant
            i <= exprs.len(),
            sizes == expr_sizes(exprs@, declared(locals@)),
            sum == total(sizes.take(i as int)),
        decreases exprs.len() - i,
    {
        assert(sizes.take(i + 1).drop_last() =~= sizes.take(i as int));
        sum = plus(sum, type_expr_size_in_felts(&exprs[i], locals));
        i = i + 1;
    }
    assert(sizes.take(i as int) =~= sizes);
    sum
}

/// The size of several types together.
fn types_size(types: &Vec<Type>) -> (size: Option<usize>)
    ensures
        size == total(type_sizes(types@)),
{
    let ghost sizes = type_sizes(types@);
    let mut sum: Option<usize> = Some(0);
    let mut i: usize = 0;
    assert(sizes.take(0) =~= Seq::<Option<nat>>::empty());
    while i < types.len()
        invariant
            i <= types.len(),
            sizes == type_sizes(types@),
            sum == total(sizes.take(i as int)),
        decreases types.len() - i,
    {
        assert(sizes.take(i + 1).drop_last() =~= sizes.take(i as int));
        sum = plus(sum, count_felts(&types[i]));
        i = i + 1;
    }
    assert(sizes.take(i as int) =~= sizes);
    sum
}

/// The counts of a written signature.
pub fn source_signature(
    args: &Vec<TypeExpr>,
    results: &Vec<TypeExpr>,
    locals: &Vec<LocalType>,
) -> (signature: Option<StackSignature>)
    ensures
        signature == written_signature(args@, results@, declared(locals@)),
{
    match (exprs_size(args, locals), exprs_size(results, locals)) {
        (Some(args), Some(results)) => Some(StackSignature { args, results }),
        _ => None,
    }
}

/// The types of a function's parameters and of its results.
pub struct FunctionParts {
    pub params: Vec<Type>,
    pub results: Vec<Type>,
}

/// The types of a function's parameters and of its results.
pub uninterp spec fn function_parts(signature: FunctionType) -> (Seq<Type>, Seq<Type>);

/// `FunctionType::params` and `FunctionType::results`, as lists.
#[verifier::external_body]
fn list_function(signature: &FunctionType) -> (parts: FunctionParts)
    ensures
        (parts.params@, parts.results@) == function_parts(*signature),
{
    FunctionParts { params: signature.params().to_vec(), results: signature.results().to_vec() }
}

/// The counts of a function's type.
pub open spec fn function_signature(signature: FunctionType) -> Option<StackSignature> {
    let (params, results) = function_parts(signature);
    match (total(type_sizes(params)), total(type_sizes(results))) {
        (Some(args), Some(results)) => Some(StackSignature { args, results }),
        _ => None,
    }
}

/// The counts of a function's type; `None` where a size cannot be told or a sum is too large.
pub fn signature_from_function_type(signature: &FunctionType) -> (counts: Option<StackSignature>)
    ensures
        counts == function_signature(*signature),
{
    let parts = list_function(signature);
    match (types_size(&parts.params), types_size(&parts.results)) {
        (Some(args), Some(results)) => Some(StackSignature { args, results }),
        _ => None,
    }
}

} // verus!
