//! When two items count as one, and what counts and words add up to.
use vstd::prelude::*;
use crate::layout::felts_of;
use crate::model::{Def, Place};
use crate::position::Range;
use crate::references::kind_tag;
use crate::signature::{concrete_fields, concrete_type, declaration_named, total, type_end, Declared,
    TypeRow, TypeShape};
use crate::stack_effect::ItemKind;
use crate::text::decimal;
use crate::words::{is_white, joined_lines, last_segment, segment_behind, separator_at, trim_end,
    trim_start, trimmed, unquoted_end, unquoted_start};

verus! {

/// Whether a text has no colon.
pub open spec fn has_no_colon(text: Seq<char>) -> bool {
    forall|i: int| 0 <= i < text.len() ==> #[trigger] text[i] != ':'
}

proof fn lemma_decimal(n: nat)
    ensures
        has_no_colon(decimal(n)),
        decimal(n).len() >= 1,
        decimal(n).len() == 1 <==> n < 10,
        decimal(n).last() == ((48 + n % 10) as u32) as char,
        n >= 10 ==> decimal(n).drop_last() == decimal(n / 10),
    decreases n,
{
    assert('0' as u32 == 48);
    if n < 10 {
        let digit = ((48 + n) as u32) as char;
        assert(digit as u32 == 48 + n);
        assert(':' as u32 == 58);
    } else {
        lemma_decimal(n / 10);
        lemma_decimal(n % 10);
        let head = decimal(n / 10);
        let tail = decimal(n % 10);
        assert(decimal(n) == head + tail);
        assert(decimal(n).drop_last() =~= head);
        assert forall|i: int| 0 <= i < decimal(n).len() implies #[trigger] decimal(n)[i] != ':' by {
            if i < head.len() {
                assert(decimal(n)[i] == head[i]);
            } else {
                assert(decimal(n)[i] == tail[i - head.len()]);
            }
        }
    }
}

/// Different numbers have different digits.
pub proof fn law_decimal(n: nat, m: nat)
    requires
        decimal(n) == decimal(m),
    ensures
        n == m,
    decreases n,
{
    lemma_decimal(n);
    lemma_decimal(m);
    let a = (48 + n % 10) as u32;
    let b = (48 + m % 10) as u32;
    assert(a as char as u32 == a && b as char as u32 == b);
    assert(n % 10 == m % 10);
    if n >= 10 {
        law_decimal(n / 10, m / 10);
    }
}

proof fn lemma_tag(kind: ItemKind)
    ensures
        has_no_colon(kind_tag(kind)),
        forall|other: ItemKind| #[trigger] kind_tag(other) == kind_tag(kind) ==> other == kind,
{
    reveal_strlit("module");
    reveal_strlit("proc");
    reveal_strlit("const");
    reveal_strlit("type");
    assert("module"@.len() == 6 && "proc"@.len() == 4 && "const"@.len() == 5 && "type"@.len() == 4);
    assert("proc"@[0] == 'p' && "type"@[0] == 't');
}

proof fn lemma_split(a: Seq<char>, b: Seq<char>, c: Seq<char>, d: Seq<char>)
    requires
        a + ":"@ + b == c + ":"@ + d,
        has_no_colon(b),
        has_no_colon(d),
    ensures
        a == c,
        b == d,
{
    reveal_strlit(":");
    let left = a + ":"@ + b;
    let right = c + ":"@ + d;
    assert(left.len() == a.len() + 1 + b.len());
    assert(right.len() == c.len() + 1 + d.len());
    assert(left[a.len() as int] == ':');
    assert(right[c.len() as int] == ':');
    if a.len() < c.len() {
        assert(left[c.len() as int] == b[c.len() - a.len() - 1]);
        assert(false);
    }
    if c.len() < a.len() {
        assert(right[a.len() as int] == d[a.len() - c.len() - 1]);
        assert(false);
    }
    assert forall|i: int| 0 <= i < a.len() implies a[i] == c[i] by {
        assert(left[i] == a[i] && right[i] == c[i]);
    }
    assert forall|i: int| 0 <= i < b.len() implies b[i] == d[i] by {
        assert(left[a.len() + 1 + i] == b[i] && right[a.len() + 1 + i] == d[i]);
    }
    assert(a =~= c);
    assert(b =~= d);
}

proof fn lemma_cancel(front: Seq<char>, a: Seq<char>, b: Seq<char>, back: Seq<char>)
    requires
        front + a + back == front + b + back,
    ensures
        a == b,
{
    let left = front + a + back;
    let right = front + b + back;
    assert(left.len() == front.len() + a.len() + back.len());
    assert(right.len() == front.len() + b.len() + back.len());
    assert forall|i: int| 0 <= i < a.len() implies a[i] == b[i] by {
        assert(left[front.len() + i] == a[i] && right[front.len() + i] == b[i]);
    }
    assert(a =~= b);
}

/// The file and the range of an item in the sources.
pub open spec fn source_place(item: Def) -> Option<(Seq<char>, Range)> {
    match item.location {
        Some(Place::Source { normal, selection_range, .. }) => Some((normal, selection_range)),
        _ => None,
    }
}

/// Two items in the sources count as one exactly where they stand in the same file at the same range
/// and are of the same kind, whatever target they belong to.
pub proof fn law_source_identity(left: Def, right: Def)
    requires
        source_place(left) is Some,
        source_place(right) is Some,
    ensures
        left.identity() == right.identity() <==> source_place(left) == source_place(right)
            && left.kind == right.kind,
{
    let (file1, range1) = source_place(left).unwrap();
    let (file2, range2) = source_place(right).unwrap();
    if left.identity() == right.identity() {
        lemma_tag(left.kind);
        lemma_tag(right.kind);
        lemma_decimal(range1.start.line as nat);
        lemma_decimal(range1.start.character as nat);
        lemma_decimal(range1.end.line as nat);
        lemma_decimal(range1.end.character as nat);
        lemma_decimal(range2.start.line as nat);
        lemma_decimal(range2.start.character as nat);
        lemma_decimal(range2.end.line as nat);
        lemma_decimal(range2.end.character as nat);
        let a1 = "source:"@ + file1;
        let b1 = a1 + ":"@ + decimal(range1.start.line as nat);
        let c1 = b1 + ":"@ + decimal(range1.start.character as nat);
        let d1 = c1 + ":"@ + decimal(range1.end.line as nat);
        let e1 = d1 + ":"@ + decimal(range1.end.character as nat);
        let a2 = "source:"@ + file2;
        let b2 = a2 + ":"@ + decimal(range2.start.line as nat);
        let c2 = b2 + ":"@ + decimal(range2.start.character as nat);
        let d2 = c2 + ":"@ + decimal(range2.end.line as nat);
        let e2 = d2 + ":"@ + decimal(range2.end.character as nat);
        assert(left.identity() == e1 + ":"@ + kind_tag(left.kind));
        assert(right.identity() == e2 + ":"@ + kind_tag(right.kind));
        lemma_split(e1, kind_tag(left.kind), e2, kind_tag(right.kind));
        lemma_split(
            d1,
            decimal(range1.end.character as nat),
            d2,
            decimal(range2.end.character as nat),
        );
        lemma_split(c1, decimal(range1.end.line as nat), c2, decimal(range2.end.line as nat));
        lemma_split(
            b1,
            decimal(range1.start.character as nat),
            b2,
            decimal(range2.start.character as nat),
        );
        lemma_split(a1, decimal(range1.start.line as nat), a2, decimal(range2.start.line as nat));
        law_decimal(range1.end.character as nat, range2.end.character as nat);
        law_decimal(range1.end.line as nat, range2.end.line as nat);
        law_decimal(range1.start.character as nat, range2.start.character as nat);
        law_decimal(range1.start.line as nat, range2.start.line as nat);
        let none = Seq::<char>::empty();
        assert("source:"@ + file1 + none =~= a1);
        assert("source:"@ + file2 + none =~= a2);
        lemma_cancel("source:"@, file1, file2, none);
    }
}

/// Items of packages without sources count as one where they have the same package file, package,
/// target and path, and not where they differ in one of these alone.
pub proof fn law_artifact_identity(left: Def, right: Def)
    requires
        left.location is Some && left.location.unwrap() is Artifact,
        right.location is Some && right.location.unwrap() is Artifact,
    ensures
        ({
            let file1 = left.location.unwrap()->Artifact_normal;
            let file2 = right.location.unwrap()->Artifact_normal;
            let same_file = file1 == file2;
            let same_package = left.context.package == right.context.package;
            let same_target = left.context.target == right.context.target;
            let same_path = left.path == right.path;
            &&& same_file && same_package && same_target && same_path ==> left.identity()
                == right.identity()
            &&& left.identity() == right.identity() && same_package && same_target && same_path
                ==> same_file
            &&& left.identity() == right.identity() && same_file && same_target && same_path
                ==> same_package
            &&& left.identity() == right.identity() && same_file && same_package && same_path
                ==> same_target
            &&& left.identity() == right.identity() && same_file && same_package && same_target
                ==> same_path
        }),
{
    let file1 = left.location.unwrap()->Artifact_normal;
    let file2 = right.location.unwrap()->Artifact_normal;
    if left.identity() == right.identity() {
        let p = left.context.package;
        let t = left.context.target;
        let x = left.path;
        if p == right.context.package && t == right.context.target && x == right.path {
            let back = ":"@ + p + ":"@ + t + ":"@ + x;
            assert("artifact:"@ + file1 + back =~= left.identity());
            assert("artifact:"@ + file2 + back =~= right.identity());
            lemma_cancel("artifact:"@, file1, file2, back);
        }
        if file1 == file2 && t == right.context.target && x == right.path {
            let front = "artifact:"@ + file1 + ":"@;
            let back = ":"@ + t + ":"@ + x;
            assert(front + p + back =~= left.identity());
            assert(front + right.context.package + back =~= right.identity());
            lemma_cancel(front, p, right.context.package, back);
        }
        if file1 == file2 && p == right.context.package && x == right.path {
            let front = "artifact:"@ + file1 + ":"@ + p + ":"@;
            let back = ":"@ + x;
            assert(front + t + back =~= left.identity());
            assert(front + right.context.target + back =~= right.identity());
            lemma_cancel(front, t, right.context.target, back);
        }
        if file1 == file2 && p == right.context.package && t == right.context.target {
            let front = "artifact:"@ + file1 + ":"@ + p + ":"@ + t + ":"@;
            let none = Seq::<char>::empty();
            assert(front + x + none =~= left.identity());
            assert(front + right.path + none =~= right.identity());
            lemma_cancel(front, x, right.path, none);
        }
    }
}

/// Items without a place count as one where they have the same context and path, and not where they
/// differ in one part of these alone.
pub proof fn law_logical_identity(left: Def, right: Def)
    requires
        left.location is None,
        right.location is None,
    ensures
        left.context == right.context && left.path == right.path ==> left.identity()
            == right.identity(),
        left.identity() == right.identity() && left.context == right.context ==> left.path
            == right.path,
        left.identity() == right.identity() && left.path == right.path && left.context.package
            == right.context.package && left.context.target == right.context.target
            ==> left.context.executable == right.context.executable,
        left.identity() == right.identity() && left.path == right.path && left.context.package
            == right.context.package && left.context.executable == right.context.executable
            ==> left.context.target == right.context.target,
        left.identity() == right.identity() && left.path == right.path && left.context.target
            == right.context.target && left.context.executable == right.context.executable
            ==> left.context.package == right.context.package,
{
    reveal_strlit("1");
    reveal_strlit("0");
    if left.identity() == right.identity() {
        let p = left.context.package;
        let t = left.context.target;
        let x = left.path;
        let flag1 = if left.context.executable {
            "1"@
        } else {
            "0"@
        };
        let flag2 = if right.context.executable {
            "1"@
        } else {
            "0"@
        };
        assert("1"@[0] != "0"@[0]);
        if left.context == right.context {
            let front = "logical:"@ + p + ":"@ + t + ":"@ + flag1 + ":"@;
            let none = Seq::<char>::empty();
            assert(front + x + none =~= left.identity());
            assert(front + right.path + none =~= right.identity());
            lemma_cancel(front, x, right.path, none);
        }
        if x == right.path && p == right.context.package && t == right.context.target {
            let front = "logical:"@ + p + ":"@ + t + ":"@;
            let back = ":"@ + x;
            assert(front + flag1 + back =~= left.identity());
            assert(front + flag2 + back =~= right.identity());
            lemma_cancel(front, flag1, flag2, back);
        }
        if x == right.path && p == right.context.package && left.context.executable
            == right.context.executable {
            let front = "logical:"@ + p + ":"@;
            let back = ":"@ + flag1 + ":"@ + x;
            assert(front + t + back =~= left.identity());
            assert(front + right.context.target + back =~= right.identity());
            lemma_cancel(front, t, right.context.target, back);
        }
        if x == right.path && t == right.context.target && left.context.executable
            == right.context.executable {
            let front = "logical:"@;
            let back = ":"@ + t + ":"@ + flag1 + ":"@ + x;
            assert(front + p + back =~= left.identity());
            assert(front + right.context.package + back =~= right.identity());
            lemma_cancel(front, p, right.context.package, back);
        }
    }
}

/// Items that are found in different ways, in sources, in a package or nowhere, never count as one.
pub proof fn law_identities_of_places(left: Def, right: Def)
    requires
        left.identity() == right.identity(),
    ensures
        source_place(left) is Some <==> source_place(right) is Some,
        left.location is None <==> right.location is None,
{
    reveal_strlit("source:");
    reveal_strlit("artifact:");
    reveal_strlit("logical:");
    assert(left.identity()[0] == match left.location {
        Some(Place::Source { .. }) => 's',
        Some(Place::Artifact { .. }) => 'a',
        None => 'l',
    });
    assert(right.identity()[0] == match right.location {
        Some(Place::Source { .. }) => 's',
        Some(Place::Artifact { .. }) => 'a',
        None => 'l',
    });
}

/// Sizes add up: those of two lists together are the sum of their sums, where that is not too large;
/// a size that cannot be told leaves the sum untold.
pub proof fn law_totals_add(left: Seq<Option<nat>>, right: Seq<Option<nat>>)
    ensures
        total(left + right) == match (total(left), total(right)) {
            (Some(a), Some(b)) => if a + b <= usize::MAX {
                Some((a + b) as usize)
            } else {
                None
            },
            _ => None,
        },
    decreases right.len(),
{
    if right.len() == 0 {
        assert(left + right =~= left);
    } else {
        let less = right.drop_last();
        law_totals_add(left, less);
        assert((left + right).drop_last() =~= left + less);
        assert((left + right).last() == right.last());
    }
}

/// One size is its own sum.
pub proof fn law_total_of_one(size: Option<nat>)
    ensures
        total(seq![size]) == match size {
            Some(size) => if size <= usize::MAX {
                Some(size as usize)
            } else {
                None
            },
            None => None,
        },
        total(Seq::empty()) == Some(0usize),
{
    assert(seq![size].drop_last() =~= Seq::<Option<nat>>::empty());
}

/// A type has as many elements as are needed for its bits, thirty-two to each, and no more.
pub proof fn law_felts(bits: nat)
    ensures
        felts_of(bits) * 32 >= bits,
        felts_of(bits) > 0 ==> (felts_of(bits) - 1) * 32 < bits,
{
}

/// Whether a declaration is the last one of a list with a name.
pub open spec fn is_last_declared(locals: Seq<Declared>, name: Seq<char>, i: int) -> bool {
    &&& 0 <= i < locals.len()
    &&& locals[i].name == name
    &&& forall|j: int| i < j < locals.len() ==> (#[trigger] locals[j]).name != name
}

proof fn lemma_declaration_named(locals: Seq<Declared>, name: Seq<char>, count: nat, i: int)
    requires
        count <= locals.len(),
    ensures
        0 <= i < count && locals[i].name == name && (forall|j: int|
            i < j < count ==> (#[trigger] locals[j]).name != name) ==> declaration_named(
            locals,
            name,
            count,
        ) == Some(locals[i]),
        (forall|j: int| 0 <= j < count ==> (#[trigger] locals[j]).name != name)
            ==> declaration_named(locals, name, count) is None,
    decreases count,
{
    if count > 0 {
        lemma_declaration_named(locals, name, (count - 1) as nat, i);
        if 0 <= i < count - 1 && (forall|j: int|
            i < j < count ==> (#[trigger] locals[j]).name != name) {
            assert(locals[count - 1].name != name);
        }
        if forall|j: int| 0 <= j < count ==> (#[trigger] locals[j]).name != name {
            assert(locals[count - 1].name != name);
        }
    }
}

/// A type that is named is the last one that was declared under the name, one level deeper; one that
/// was not declared is not known, and neither is one that lies too deep.
pub proof fn law_named_types(
    rows: Seq<TypeRow>,
    at: int,
    hi: int,
    locals: Seq<Declared>,
    depth: int,
    i: int,
)
    ensures
        depth > 64 || at >= hi ==> concrete_type(rows, at, hi, locals, depth) is None,
        0 <= depth <= 64 && at < hi ==> match rows[at].shape {
            TypeShape::Ref(Some(name)) => {
                &&& is_last_declared(locals, name@, i) ==> concrete_type(
                    rows,
                    at,
                    hi,
                    locals,
                    depth,
                ) == concrete_type(
                    locals[i].rows,
                    0,
                    locals[i].rows.len() as int,
                    locals,
                    depth + 1,
                )
                &&& (forall|j: int|
                    0 <= j < locals.len() ==> (#[trigger] locals[j]).name != name@)
                    ==> concrete_type(rows, at, hi, locals, depth) is None
            },
            TypeShape::Ref(None) => concrete_type(rows, at, hi, locals, depth) is None,
            TypeShape::Primitive(ty) => concrete_type(rows, at, hi, locals, depth) == Some(ty),
            _ => true,
        },
{
    if 0 <= depth <= 64 && at < hi {
        if let TypeShape::Ref(Some(name)) = rows[at].shape {
            lemma_declaration_named(locals, name@, locals.len(), i);
        }
    }
}

/// A type that is made of others is known exactly where those are: an array and a pointer of what they
/// hold, and a structure of its fields, where it can be laid out.
pub proof fn law_built_types(rows: Seq<TypeRow>, at: int, hi: int, locals: Seq<Declared>, depth: int)
    requires
        0 <= depth <= 64,
        at < hi,
    ensures
        ({
            let end = type_end(rows, at, hi);
            let inner = concrete_type(rows, at + 1, end, locals, depth + 1);
            let fields = concrete_fields(rows, at + 1, end, locals, depth + 1);
            match rows[at].shape {
                TypeShape::Array(arity) => concrete_type(rows, at, hi, locals, depth)
                    == match inner {
                    Some(ty) => Some(crate::layout::array_of(ty, arity)),
                    None => None,
                },
                TypeShape::Ptr => concrete_type(rows, at, hi, locals, depth) == match inner {
                    Some(ty) => Some(crate::layout::pointer_to(ty)),
                    None => None,
                },
                TypeShape::Struct(repr) => concrete_type(rows, at, hi, locals, depth)
                    == match fields {
                    Some(fields) => crate::layout::struct_of(repr, fields),
                    None => None,
                },
                _ => true,
            }
        }),
{
}

proof fn lemma_type_past(rows: Seq<TypeRow>, depth: usize, at: int, hi: int)
    requires
        at <= hi,
    ensures
        at <= crate::signature::type_past(rows, depth, at, hi) <= hi,
        forall|i: int|
            at <= i < crate::signature::type_past(rows, depth, at, hi) ==> (
            #[trigger] rows[i]).depth > depth,
        crate::signature::type_past(rows, depth, at, hi) < hi ==> rows[crate::signature::type_past(
            rows,
            depth,
            at,
            hi,
        )].depth <= depth,
    decreases hi - at,
{
    if at < hi && rows[at].depth > depth {
        lemma_type_past(rows, depth, at + 1, hi);
    }
}

/// A type reaches up to the next row that is no deeper than its first one.
pub proof fn law_type_end(rows: Seq<TypeRow>, at: int, hi: int)
    requires
        0 <= at < hi,
    ensures
        at < type_end(rows, at, hi) <= hi,
        forall|i: int|
            at < i < type_end(rows, at, hi) ==> (#[trigger] rows[i]).depth > rows[at].depth,
        type_end(rows, at, hi) < hi ==> rows[type_end(rows, at, hi)].depth <= rows[at].depth,
{
    lemma_type_past(rows, rows[at].depth, at + 1, hi);
}

/// The fields of a structure are known exactly where each of them is, and stand in their order.
pub proof fn law_fields(rows: Seq<TypeRow>, at: int, hi: int, locals: Seq<Declared>, depth: int)
    requires
        0 <= at < hi,
        0 <= depth <= 64,
    ensures
        ({
            let end = type_end(rows, at, hi);
            let first = concrete_type(rows, at, end, locals, depth);
            let rest = concrete_fields(rows, end, hi, locals, depth);
            let all = concrete_fields(rows, at, hi, locals, depth);
            &&& all is Some <==> first is Some && rest is Some
            &&& all is Some ==> all.unwrap().len() == rest.unwrap().len() + 1 && all.unwrap()[0]
                == first.unwrap() && all.unwrap().drop_first() == rest.unwrap()
            &&& concrete_fields(rows, hi, hi, locals, depth) is Some && concrete_fields(
                rows,
                hi,
                hi,
                locals,
                depth,
            ).unwrap().len() == 0
        }),
{
    law_type_end(rows, at, hi);
    let end = type_end(rows, at, hi);
    if let (Some(first), Some(rest)) = (
        concrete_type(rows, at, end, locals, depth),
        concrete_fields(rows, end, hi, locals, depth),
    ) {
        assert((seq![first] + rest).drop_first() =~= rest);
    }
}

proof fn lemma_trim_start(text: Seq<char>) -> (cut: int)
    ensures
        0 <= cut <= text.len(),
        trim_start(text) == text.skip(cut),
        forall|i: int| 0 <= i < cut ==> is_white(#[trigger] text[i]),
        cut < text.len() ==> !is_white(text[cut]),
    decreases text.len(),
{
    if text.len() > 0 && is_white(text[0]) {
        let rest = text.drop_first();
        let inner = lemma_trim_start(rest);
        assert(rest.skip(inner) =~= text.skip(inner + 1));
        assert forall|i: int| 0 <= i < inner + 1 implies is_white(#[trigger] text[i]) by {
            if i > 0 {
                assert(rest[i - 1] == text[i]);
            }
        }
        inner + 1
    } else {
        assert(text.skip(0) =~= text);
        0
    }
}

proof fn lemma_trim_end(text: Seq<char>) -> (cut: int)
    ensures
        0 <= cut <= text.len(),
        trim_end(text) == text.take(cut),
        forall|i: int| cut <= i < text.len() ==> is_white(#[trigger] text[i]),
        cut > 0 ==> !is_white(text[cut - 1]),
    decreases text.len(),
{
    if text.len() > 0 && is_white(text.last()) {
        let rest = text.drop_last();
        let inner = lemma_trim_end(rest);
        assert(rest.take(inner) =~= text.take(inner));
        assert forall|i: int| inner <= i < text.len() implies is_white(#[trigger] text[i]) by {
            if i < rest.len() {
                assert(rest[i] == text[i]);
            }
        }
        inner
    } else {
        assert(text.take(text.len() as int) =~= text);
        text.len() as int
    }
}

/// A trimmed text is what stands between the white space at its two ends, and has none at its own.
pub proof fn law_trimmed(text: Seq<char>)
    ensures
        exists|start: int, end: int|
            {
                &&& 0 <= start <= end <= text.len()
                &&& trimmed(text) == #[trigger] text.subrange(start, end)
                &&& forall|i: int| 0 <= i < start ==> is_white(#[trigger] text[i])
                &&& forall|i: int| end <= i < text.len() ==> is_white(#[trigger] text[i])
                &&& start < end ==> !is_white(text[start]) && !is_white(text[end - 1])
            },
{
    let start = lemma_trim_start(text);
    let rest = text.skip(start);
    let cut = lemma_trim_end(rest);
    let end = start + cut;
    assert(rest.take(cut) =~= text.subrange(start, end));
    assert forall|i: int| end <= i < text.len() implies is_white(#[trigger] text[i]) by {
        assert(rest[i - start] == text[i]);
    }
    if start < end {
        assert(rest[cut - 1] == text[end - 1]);
    }
}

proof fn lemma_segment_behind(text: Seq<char>, before: int)
    requires
        0 <= before <= text.len(),
    ensures
        ({
            let segment = segment_behind(text, before);
            ||| segment == text && forall|at: int|
                at < before ==> !#[trigger] separator_at(text, at)
            ||| exists|at: int|
                {
                    &&& #[trigger] separator_at(text, at)
                    &&& at < before
                    &&& segment == text.skip(at + 2)
                    &&& forall|later: int|
                        at < later < before ==> !#[trigger] separator_at(text, later)
                }
        }),
    decreases before,
{
    if before > 0 {
        if separator_at(text, before - 1) {
            assert(separator_at(text, before - 1));
        } else {
            lemma_segment_behind(text, before - 1);
        }
    }
}

/// The last segment of a path is what follows its last two colons, or all of it where it has none.
pub proof fn law_last_segment(text: Seq<char>)
    ensures
        ({
            ||| last_segment(text) == text && forall|at: int| !#[trigger] separator_at(text, at)
            ||| exists|at: int|
                {
                    &&& #[trigger] separator_at(text, at)
                    &&& last_segment(text) == text.skip(at + 2)
                    &&& forall|later: int| at < later ==> !#[trigger] separator_at(text, later)
                }
        }),
{
    lemma_segment_behind(text, text.len() as int);
}

proof fn lemma_unquoted_start(text: Seq<char>) -> (cut: int)
    ensures
        0 <= cut <= text.len(),
        unquoted_start(text) == text.skip(cut),
        forall|i: int| 0 <= i < cut ==> #[trigger] text[i] == '"',
        cut < text.len() ==> text[cut] != '"',
    decreases text.len(),
{
    if text.len() > 0 && text[0] == '"' {
        let rest = text.drop_first();
        let inner = lemma_unquoted_start(rest);
        assert(rest.skip(inner) =~= text.skip(inner + 1));
        assert forall|i: int| 0 <= i < inner + 1 implies #[trigger] text[i] == '"' by {
            if i > 0 {
                assert(rest[i - 1] == text[i]);
            }
        }
        inner + 1
    } else {
        assert(text.skip(0) =~= text);
        0
    }
}

proof fn lemma_unquoted_end(text: Seq<char>) -> (cut: int)
    ensures
        0 <= cut <= text.len(),
        unquoted_end(text) == text.take(cut),
        forall|i: int| cut <= i < text.len() ==> #[trigger] text[i] == '"',
        cut > 0 ==> text[cut - 1] != '"',
    decreases text.len(),
{
    if text.len() > 0 && text.last() == '"' {
        let rest = text.drop_last();
        let inner = lemma_unquoted_end(rest);
        assert(rest.take(inner) =~= text.take(inner));
        assert forall|i: int| inner <= i < text.len() implies #[trigger] text[i] == '"' by {
            if i < rest.len() {
                assert(rest[i] == text[i]);
            }
        }
        inner
    } else {
        assert(text.take(text.len() as int) =~= text);
        text.len() as int
    }
}

/// A text without its quotes is what stands between the quotation marks at its two ends, and has none
/// at its own.
pub proof fn law_unquoted(text: Seq<char>)
    ensures
        exists|start: int, end: int|
            {
                &&& 0 <= start <= end <= text.len()
                &&& unquoted_end(unquoted_start(text)) == #[trigger] text.subrange(start, end)
                &&& forall|i: int| 0 <= i < start ==> #[trigger] text[i] == '"'
                &&& forall|i: int| end <= i < text.len() ==> #[trigger] text[i] == '"'
                &&& start < end ==> text[start] != '"' && text[end - 1] != '"'
            },
{
    let start = lemma_unquoted_start(text);
    let rest = text.skip(start);
    let cut = lemma_unquoted_end(rest);
    let end = start + cut;
    assert(rest.take(cut) =~= text.subrange(start, end));
    assert forall|i: int| end <= i < text.len() implies #[trigger] text[i] == '"' by {
        assert(rest[i - start] == text[i]);
    }
    if start < end {
        assert(rest[cut - 1] == text[end - 1]);
    }
}

/// Lines are put together one after another, with a line feed between any two.
pub proof fn law_joined_lines(first: Seq<Seq<char>>, second: Seq<Seq<char>>)
    requires
        first.len() > 0,
        second.len() > 0,
    ensures
        joined_lines(first + second) == joined_lines(first) + seq!['\n'] + joined_lines(second),
        first.len() == 1 ==> joined_lines(first) == first[0],
    decreases second.len(),
{
    reveal_strlit("\n");
    assert("\n"@ =~= seq!['\n']);
    let all = first + second;
    assert(all.last() == second.last());
    if second.len() == 1 {
        assert(all.drop_last() =~= first);
        assert(joined_lines(second) == second[0]);
    } else {
        let less = second.drop_last();
        law_joined_lines(first, less);
        assert(all.drop_last() =~= first + less);
        let a = joined_lines(first);
        let b = joined_lines(less);
        assert(joined_lines(all) =~= a + seq!['\n'] + (b + seq!['\n'] + second.last()));
    }
}

} // verus!
