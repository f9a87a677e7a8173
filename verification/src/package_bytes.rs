//! The bytes of compiled packages and of their debug tables: whether the outside reader comes to an
//! end on them.
use miden_core::mast::MastForest;
use miden_core::serde::{BudgetedReader, Deserializable, SliceReader};
use vstd::prelude::*;
use crate::wire::{flag_at, goes_on, number_at, pass, pass_function, pass_optional_text, pass_path,
    pass_slice, pass_text, pass_type, past, past_function, past_optional_text, past_path, past_slice,
    past_text, past_type, read_flag, read_number, Step, Walk, MAX_NESTING};

verus! {

/// What is repeated in a package.
#[derive(Clone, Copy, PartialEq, Eq, Structural)]
pub enum Piece {
    /// A value in an attribute.
    Value,
    /// A name and a value in an attribute.
    Pair,
    /// An attribute.
    Attribute,
    /// An item that the code exports.
    LibraryExport,
    /// An item that the manifest exports.
    ManifestExport,
    /// A package that is depended on.
    Dependency,
    /// A section.
    Section,
    /// A text of a debug table.
    Text,
}

/// Passes a value in an attribute.
pub open spec fn past_value(bytes: Seq<u8>, at: int) -> Step {
    if at >= bytes.len() || bytes[at] > 3 {
        Step::Ends
    } else if bytes[at] == 1 {
        past(bytes, at + 1, 8)
    } else if bytes[at] == 2 {
        past(bytes, at + 1, 32)
    } else {
        past_slice(bytes, at + 1)
    }
}

/// Passes the value of a constant.
pub open spec fn past_constant(bytes: Seq<u8>, at: int) -> Step {
    if at >= bytes.len() || bytes[at] == 0 || bytes[at] > 4 {
        Step::Ends
    } else if bytes[at] == 1 {
        past(bytes, at + 1, 8)
    } else if bytes[at] == 2 {
        past_slice(bytes, at + 1)
    } else if bytes[at] == 3 {
        past(bytes, at + 1, 32)
    } else if at + 2 <= bytes.len() {
        past_slice(bytes, at + 2)
    } else {
        Step::Ends
    }
}

/// Passes the type of a function that may be missing.
pub open spec fn past_signature(bytes: Seq<u8>, at: int) -> Step {
    match flag_at(bytes, at) {
        Some(true) => past_function(bytes, at + 1, MAX_NESTING as nat),
        Some(false) => Step::Next(at + 1),
        None => Step::Ends,
    }
}

/// What comes first in what else.
pub open spec fn rank(piece: Piece) -> nat {
    match piece {
        Piece::Attribute => 1,
        Piece::LibraryExport | Piece::ManifestExport => 2,
        _ => 0,
    }
}

/// Passes one of what is repeated.
pub open spec fn past_piece(piece: Piece, bytes: Seq<u8>, at: int) -> Step
    decreases rank(piece), 0nat,
{
    match piece {
        Piece::Value => past_value(bytes, at),
        Piece::Pair => match past_slice(bytes, at) {
            Step::Next(next) => past_value(bytes, next),
            other => other,
        },
        Piece::Attribute => if at >= bytes.len() || bytes[at] > 2 {
            Step::Ends
        } else {
            match past_slice(bytes, at + 1) {
                Step::Next(next) => if bytes[at] == 0 {
                    Step::Next(next)
                } else if bytes[at] == 1 {
                    past_list(Piece::Value, bytes, next)
                } else {
                    past_list(Piece::Pair, bytes, next)
                },
                other => other,
            }
        },
        Piece::LibraryExport => if at >= bytes.len() {
            Step::Ends
        } else {
            match past_path(bytes, at + 1) {
                Step::Next(next) => if bytes[at] == 0 {
                    match past(bytes, next, 4) {
                        Step::Next(behind) => past_procedure(bytes, behind),
                        other => other,
                    }
                } else if bytes[at] == 1 {
                    past_constant(bytes, next)
                } else if bytes[at] == 2 {
                    past_type(bytes, next, MAX_NESTING as nat)
                } else {
                    Step::Ends
                },
                other => other,
            }
        },
        Piece::ManifestExport => if at >= bytes.len() || bytes[at] == 0 || bytes[at] > 3 {
            Step::Ends
        } else {
            match past_path(bytes, at + 1) {
                Step::Next(next) => if bytes[at] == 1 {
                    match past(bytes, next, 32) {
                        Step::Next(behind) => past_procedure(bytes, behind),
                        other => other,
                    }
                } else if bytes[at] == 2 {
                    past_constant(bytes, next)
                } else {
                    past_type(bytes, next, MAX_NESTING as nat)
                },
                other => other,
            }
        },
        Piece::Dependency => match past_text(bytes, at) {
            Step::Next(named) => match past(bytes, named, 1) {
                Step::Next(next) => match past_text(bytes, next) {
                    Step::Next(behind) => past(bytes, behind, 32),
                    other => other,
                },
                other => other,
            },
            other => other,
        },
        Piece::Section => match past_slice(bytes, at) {
            Step::Next(next) => past_slice(bytes, next),
            other => other,
        },
        Piece::Text => past_slice(bytes, at),
    }
}

/// Passes the type and the attributes of a procedure.
pub open spec fn past_procedure(bytes: Seq<u8>, at: int) -> Step
    decreases 1nat, 3nat,
{
    match past_signature(bytes, at) {
        Step::Next(next) => past_list(Piece::Attribute, bytes, next),
        other => other,
    }
}

/// Passes so many of what is repeated.
pub open spec fn past_pieces(piece: Piece, bytes: Seq<u8>, at: int, count: nat) -> Step
    decreases rank(piece), 1nat, count,
{
    if count == 0 {
        Step::Next(at)
    } else {
        match past_piece(piece, bytes, at) {
            Step::Next(next) => past_pieces(piece, bytes, next, (count - 1) as nat),
            other => other,
        }
    }
}

/// Passes a list of what is repeated, behind its length.
pub open spec fn past_list(piece: Piece, bytes: Seq<u8>, at: int) -> Step
    decreases rank(piece), 2nat,
{
    match number_at(bytes, at) {
        Some((count, next)) => past_pieces(piece, bytes, next, count),
        None => Step::Ends,
    }
}

/// Passes a list of what is repeated, behind its length. The reader makes room for as many as are
/// claimed, though each takes a byte or more.
pub open spec fn past_roomy_list(piece: Piece, bytes: Seq<u8>, at: int) -> Step {
    match number_at(bytes, at) {
        Some((count, next)) => if count > bytes.len() - next {
            Step::Fails
        } else {
            past_pieces(piece, bytes, next, count)
        },
        None => Step::Ends,
    }
}

/// Passes a value in an attribute.
fn pass_value(bytes: &[u8], at: usize) -> (walk: Walk)
    requires
        at <= bytes.len(),
    ensures
        walk@ == past_value(bytes@, at as int),
        goes_on(walk, at, bytes@),
{
    if at >= bytes.len() || bytes[at] > 3 {
        Walk::Ends
    } else if bytes[at] == 1 {
        pass(bytes, at + 1, 8)
    } else if bytes[at] == 2 {
        pass(bytes, at + 1, 32)
    } else {
        pass_slice(bytes, at + 1)
    }
}

/// Passes the value of a constant.
fn pass_constant(bytes: &[u8], at: usize) -> (walk: Walk)
    requires
        at <= bytes.len(),
    ensures
        walk@ == past_constant(bytes@, at as int),
        goes_on(walk, at, bytes@),
{
    if at >= bytes.len() || bytes[at] == 0 || bytes[at] > 4 {
        Walk::Ends
    } else if bytes[at] == 1 {
        pass(bytes, at + 1, 8)
    } else if bytes[at] == 2 {
        pass_slice(bytes, at + 1)
    } else if bytes[at] == 3 {
        pass(bytes, at + 1, 32)
    } else if bytes.len() - at >= 2 {
        pass_slice(bytes, at + 2)
    } else {
        Walk::Ends
    }
}

/// Passes the type of a function that may be missing.
fn pass_signature(bytes: &[u8], at: usize) -> (walk: Walk)
    requires
        at <= bytes.len(),
    ensures
        walk@ == past_signature(bytes@, at as int),
        goes_on(walk, at, bytes@),
{
    match read_flag(bytes, at) {
        Some(true) => pass_function(bytes, at + 1, MAX_NESTING),
        Some(false) => Walk::Next(at + 1),
        None => Walk::Ends,
    }
}

/// Passes one of what is repeated.
fn pass_piece(piece: Piece, bytes: &[u8], at: usize) -> (walk: Walk)
    requires
        at <= bytes.len(),
    ensures
        walk@ == past_piece(piece, bytes@, at as int),
        goes_on(walk, at, bytes@),
    decreases rank(piece), 0nat,
{
    match piece {
        Piece::Value => pass_value(bytes, at),
        Piece::Pair => match pass_slice(bytes, at) {
            Walk::Next(next) => pass_value(bytes, next),
            other => other,
        },
        Piece::Attribute => {
            if at >= bytes.len() || bytes[at] > 2 {
                return Walk::Ends;
            }
            match pass_slice(bytes, at + 1) {
                Walk::Next(next) => if bytes[at] == 0 {
                    Walk::Next(next)
                } else if bytes[at] == 1 {
                    pass_list(Piece::Value, bytes, next)
                } else {
                    pass_list(Piece::Pair, bytes, next)
                },
                other => other,
            }
        },
        Piece::LibraryExport => {
            if at >= bytes.len() {
                return Walk::Ends;
            }
            match pass_path(bytes, at + 1) {
                Walk::Next(next) => if bytes[at] == 0 {
                    match pass(bytes, next, 4) {
                        Walk::Next(behind) => pass_procedure(bytes, behind),
                        other => other,
                    }
                } else if bytes[at] == 1 {
                    pass_constant(bytes, next)
                } else if bytes[at] == 2 {
                    pass_type(bytes, next, MAX_NESTING)
                } else {
                    Walk::Ends
                },
                other => other,
            }
        },
        Piece::ManifestExport => {
            if at >= bytes.len() || bytes[at] == 0 || bytes[at] > 3 {
                return Walk::Ends;
            }
            match pass_path(bytes, at + 1) {
                Walk::Next(next) => if bytes[at] == 1 {
                    match pass(bytes, next, 32) {
                        Walk::Next(behind) => pass_procedure(bytes, behind),
                        other => other,
                    }
                } else if bytes[at] == 2 {
                    pass_constant(bytes, next)
                } else {
                    pass_type(bytes, next, MAX_NESTING)
                },
                other => other,
            }
        },
        Piece::Dependency => match pass_text(bytes, at) {
            Walk::Next(named) => match pass(bytes, named, 1) {
                Walk::Next(next) => match pass_text(bytes, next) {
                    Walk::Next(behind) => pass(bytes, behind, 32),
                    other => other,
                },
                other => other,
            },
            other => other,
        },
        Piece::Section => match pass_slice(bytes, at) {
            Walk::Next(next) => pass_slice(bytes, next),
            other => other,
        },
        Piece::Text => pass_slice(bytes, at),
    }
}

/// Passes the type and the attributes of a procedure.
fn pass_procedure(bytes: &[u8], at: usize) -> (walk: Walk)
    requires
        at <= bytes.len(),
    ensures
        walk@ == past_procedure(bytes@, at as int),
        goes_on(walk, at, bytes@),
    decreases 1nat, 3nat,
{
    match pass_signature(bytes, at) {
        Walk::Next(next) => pass_list(Piece::Attribute, bytes, next),
        other => other,
    }
}

/// Passes so many of what is repeated.
fn pass_pieces(piece: Piece, bytes: &[u8], at: usize, count: usize) -> (walk: Walk)
    requires
        at <= bytes.len(),
    ensures
        walk@ == past_pieces(piece, bytes@, at as int, count as nat),
        goes_on(walk, at, bytes@),
    decreases rank(piece), 1nat,
{
    let ghost whole = past_pieces(piece, bytes@, at as int, count as nat);
    let mut current: usize = at;
    let mut left: usize = count;
    while left > 0
        invariant
            at <= current <= bytes.len(),
            whole == past_pieces(piece, bytes@, at as int, count as nat),
            whole == past_pieces(piece, bytes@, current as int, left as nat),
        decreases left,
    {
        match pass_piece(piece, bytes, current) {
            Walk::Next(next) => {
                current = next;
            },
            other => return other,
        }
        left = left - 1;
    }
    Walk::Next(current)
}

/// Passes a list of what is repeated, behind its length.
fn pass_list(piece: Piece, bytes: &[u8], at: usize) -> (walk: Walk)
    requires
        at <= bytes.len(),
    ensures
        walk@ == past_list(piece, bytes@, at as int),
        goes_on(walk, at, bytes@),
    decreases rank(piece), 2nat,
{
    match read_number(bytes, at) {
        Some((count, next)) => pass_pieces(piece, bytes, next, count),
        None => Walk::Ends,
    }
}

/// Passes a list of what is repeated, for which the reader makes room.
fn pass_roomy_list(piece: Piece, bytes: &[u8], at: usize) -> (walk: Walk)
    requires
        at <= bytes.len(),
    ensures
        walk@ == past_roomy_list(piece, bytes@, at as int),
        goes_on(walk, at, bytes@),
{
    match read_number(bytes, at) {
        Some((count, next)) => if count > bytes.len() - next {
            Walk::Fails
        } else {
            pass_pieces(piece, bytes, next, count)
        },
        None => Walk::Ends,
    }
}

/// What is left of the largest budget when the code at `at` has been read; `None` where the reader
/// reports an error.
pub uninterp spec fn budget_behind_code(bytes: Seq<u8>, at: int) -> Option<usize>;

/// `MastForest::read_from` on the bytes from `at` on, with a `BudgetedReader` that may read as much
/// as a number can tell: what its `remaining` gives behind the code, or `None` where the reader
/// reports an error. Only bytes that are there are read. The result depends on the bytes alone.
#[verifier::external_body]
fn read_code(bytes: &[u8], at: usize) -> (left: Option<usize>)
    requires
        at <= bytes.len(),
    ensures
        left == budget_behind_code(bytes@, at as int),
        left is Some ==> usize::MAX - left.unwrap() <= bytes@.len() - at,
{
    let mut reader = BudgetedReader::new(SliceReader::new(&bytes[at..]), usize::MAX);
    MastForest::read_from(&mut reader).ok().map(|_| reader.remaining())
}

/// Passes the code of a package.
pub open spec fn past_code(bytes: Seq<u8>, at: int) -> Step {
    match budget_behind_code(bytes, at) {
        Some(left) => Step::Next(at + (usize::MAX - left)),
        None => Step::Ends,
    }
}

/// Whether bytes start as packages of the version that can be read do.
pub open spec fn starts_as_package(bytes: Seq<u8>) -> bool {
    bytes.len() >= 8 && bytes.take(8) == seq![77u8, 65, 83, 80, 0, 4, 0, 0]
}

/// Passes what stands in front of the code of a package: its name, its version, its description and
/// its kind.
pub open spec fn past_preamble(bytes: Seq<u8>) -> Step {
    if !starts_as_package(bytes) {
        Step::Ends
    } else {
        match past_text(bytes, 8) {
            Step::Next(named) => match past_text(bytes, named) {
                Step::Next(next) => match past_optional_text(bytes, next) {
                    Step::Next(behind) => past(bytes, behind, 1),
                    other => other,
                },
                other => other,
            },
            other => other,
        }
    }
}

/// Passes what stands behind the code of a package: what the code exports, the manifest and the
/// sections.
pub open spec fn past_tables(bytes: Seq<u8>, at: int) -> Step {
    match past_list(Piece::LibraryExport, bytes, at) {
        Step::Next(next) => match past_roomy_list(Piece::ManifestExport, bytes, next) {
            Step::Next(behind) => match past_list(Piece::Dependency, bytes, behind) {
                Step::Next(last) => past_list(Piece::Section, bytes, last),
                other => other,
            },
            other => other,
        },
        other => other,
    }
}

/// Passes a package.
pub open spec fn past_package(bytes: Seq<u8>) -> Step {
    match past_preamble(bytes) {
        Step::Next(at) => match past_code(bytes, at) {
            Step::Next(next) => past_tables(bytes, next),
            other => other,
        },
        other => other,
    }
}

/// Whether the reader of packages comes to an end on bytes: claimed lengths can be added up and room
/// be made for what is claimed, and types can be laid out.
#[verifier::opaque]
pub open spec fn can_be_decoded(bytes: Seq<u8>) -> bool {
    !(past_package(bytes) is Fails)
}

/// Whether bytes start as packages of the version that can be read do.
fn begins_as_package(bytes: &[u8]) -> (result: bool)
    ensures
        result == starts_as_package(bytes@),
{
    if bytes.len() < 8 {
        return false;
    }
    assert(bytes@.take(8) == seq![77u8, 65, 83, 80, 0, 4, 0, 0] <==> bytes@[0] == 77 && bytes@[1] == 65
        && bytes@[2] == 83 && bytes@[3] == 80 && bytes@[4] == 0 && bytes@[5] == 4 && bytes@[6] == 0
        && bytes@[7] == 0) by {
        let first = bytes@.take(8);
        let wanted = seq![77u8, 65, 83, 80, 0, 4, 0, 0];
        if first == wanted {
            assert(first[0] == 77 && first[1] == 65 && first[2] == 83 && first[3] == 80);
            assert(first[4] == 0 && first[5] == 4 && first[6] == 0 && first[7] == 0);
        }
        if bytes@[0] == 77 && bytes@[1] == 65 && bytes@[2] == 83 && bytes@[3] == 80 && bytes@[4] == 0
            && bytes@[5] == 4 && bytes@[6] == 0 && bytes@[7] == 0 {
            assert(first =~= wanted);
        }
    }
    bytes[0] == 77 && bytes[1] == 65 && bytes[2] == 83 && bytes[3] == 80 && bytes[4] == 0 && bytes[5]
        == 4 && bytes[6] == 0 && bytes[7] == 0
}

/// Passes what stands in front of the code of a package.
fn pass_preamble(bytes: &[u8]) -> (walk: Walk)
    ensures
        walk@ == past_preamble(bytes@),
        goes_on(walk, 0, bytes@),
{
    if !begins_as_package(bytes) {
        return Walk::Ends;
    }
    match pass_text(bytes, 8) {
        Walk::Next(named) => match pass_text(bytes, named) {
            Walk::Next(next) => match pass_optional_text(bytes, next) {
                Walk::Next(behind) => pass(bytes, behind, 1),
                other => other,
            },
            other => other,
        },
        other => other,
    }
}

/// Passes what stands behind the code of a package.
fn pass_tables(bytes: &[u8], at: usize) -> (walk: Walk)
    requires
        at <= bytes.len(),
    ensures
        walk@ == past_tables(bytes@, at as int),
{
    match pass_list(Piece::LibraryExport, bytes, at) {
        Walk::Next(next) => match pass_roomy_list(Piece::ManifestExport, bytes, next) {
            Walk::Next(behind) => match pass_list(Piece::Dependency, bytes, behind) {
                Walk::Next(last) => pass_list(Piece::Section, bytes, last),
                other => other,
            },
            other => other,
        },
        other => other,
    }
}

/// Passes the code of a package.
fn pass_code(bytes: &[u8], at: usize) -> (walk: Walk)
    requires
        at <= bytes.len(),
    ensures
        walk@ == past_code(bytes@, at as int),
        goes_on(walk, at, bytes@),
{
    match read_code(bytes, at) {
        Some(left) => Walk::Next(at + (usize::MAX - left)),
        None => Walk::Ends,
    }
}

/// Passes a package.
fn pass_package(bytes: &[u8]) -> (walk: Walk)
    ensures
        walk@ == past_package(bytes@),
{
    match pass_preamble(bytes) {
        Walk::Next(at) => match pass_code(bytes, at) {
            Walk::Next(next) => pass_tables(bytes, next),
            other => other,
        },
        other => other,
    }
}

/// Whether the reader of packages comes to an end on bytes.
pub fn is_decodable(bytes: &[u8]) -> (result: bool)
    ensures
        result == can_be_decoded(bytes@),
{
    reveal(can_be_decoded);
    match pass_package(bytes) {
        Walk::Fails => false,
        _ => true,
    }
}

/// Whether the reader of debug tables comes to an end on bytes: behind its version, a table starts
/// with a list of texts.
#[verifier::opaque]
pub open spec fn texts_fit(bytes: Seq<u8>) -> bool {
    bytes.len() > 0 && bytes[0] == 1 ==> !(past_roomy_list(Piece::Text, bytes, 1) is Fails)
}

/// Whether the reader of debug tables comes to an end on bytes.
pub fn has_fitting_texts(bytes: &[u8]) -> (result: bool)
    ensures
        result == texts_fit(bytes@),
{
    reveal(texts_fit);
    if bytes.len() == 0 || bytes[0] != 1 {
        return true;
    }
    match pass_roomy_list(Piece::Text, bytes, 1) {
        Walk::Fails => false,
        _ => true,
    }
}

} // verus!
