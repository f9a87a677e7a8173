//! Paths and names of Miden Assembly.
use miden_assembly_syntax::ast::{Ident, Path, ProcedureName};
use vstd::prelude::*;
use vstd::string::StringExecFns;
use crate::lexing::{fits, Class};
use crate::text::chars_of;
use crate::words::{has_prefix, starts_with};

verus! {

/// The message when a text is no path.
pub uninterp spec fn path_failure(text: Seq<char>) -> Option<Seq<char>>;

/// `Path::validate`: the message of the error when the text is no path. It depends on the text
/// alone.
#[verifier::external_body]
fn check_path(text: &str) -> (message: Option<String>)
    ensures
        match message {
            Some(message) => path_failure(text@) == Some(message@),
            None => path_failure(text@) is None,
        },
{
    Path::validate(text).err().map(|error| error.to_string())
}

/// A path with its components in canonical form, or the message when they cannot be told apart.
pub uninterp spec fn canonical_form(path: Seq<char>) -> Result<Seq<char>, Seq<char>>;

/// `Path::canonicalize`: the path with its components in canonical form, or the message of the
/// error for the first component that cannot be read. It depends on the text alone.
#[verifier::external_body]
fn canonicalize(path: &str) -> (result: Result<String, String>)
    ensures
        match result {
            Ok(canonical) => canonical_form(path@) == Ok::<Seq<char>, Seq<char>>(canonical@),
            Err(message) => canonical_form(path@) == Err::<Seq<char>, Seq<char>>(message@),
        },
{
    match Path::new(path).canonicalize() {
        Ok(path) => Ok(path.as_path().as_str().to_string()),
        Err(error) => Err(error.to_string()),
    }
}

/// What is reported when a text is no path.
pub open spec fn path_message(text: Seq<char>, message: Seq<char>) -> Seq<char> {
    "invalid MASM path '"@ + text + "': "@ + message
}

/// The canonical form of a path, or what is reported when the text is no path.
pub open spec fn path_of_text(text: Seq<char>) -> Result<Seq<char>, Seq<char>> {
    match (path_failure(text), canonical_form(text)) {
        (Some(message), _) => Err(path_message(text, message)),
        (None, Err(message)) => Err(path_message(text, message)),
        (None, Ok(path)) => Ok(path),
    }
}

/// What is reported when a text is no path.
fn report_path(text: &str, error: &str) -> (message: String)
    ensures
        message@ == path_message(text@, error@),
{
    let mut message = "invalid MASM path '".to_owned();
    message.append(text);
    message.append("': ");
    message.append(error);
    message
}

/// The canonical form of a path.
pub fn canonicalize_path_text(text: &str) -> (result: Result<String, String>)
    ensures
        match result {
            Ok(path) => path_of_text(text@) == Ok::<Seq<char>, Seq<char>>(path@),
            Err(message) => path_of_text(text@) == Err::<Seq<char>, Seq<char>>(message@),
        },
{
    if let Some(error) = check_path(text) {
        return Err(report_path(text, &error));
    }
    match canonicalize(text) {
        Ok(path) => Ok(path),
        Err(error) => Err(report_path(text, &error)),
    }
}

/// Whether a path starts at the root.
pub open spec fn is_absolute(path: Seq<char>) -> bool {
    starts_with(path, "::"@)
}

/// Whether `path` starts at the root.
pub fn path_is_absolute(path: &str) -> (absolute: bool)
    ensures
        absolute == is_absolute(path@),
{
    has_prefix(path, "::")
}

/// The one component of a path, where it has no other.
pub uninterp spec fn single_component(path: Seq<char>) -> Option<Seq<char>>;

/// `Path::as_ident`: the component of a path that has only this one and does not start at the root.
#[verifier::external_body]
pub(crate) fn as_ident(path: &str) -> (ident: Option<String>)
    ensures
        match ident {
            Some(ident) => single_component(path@) == Some(ident@),
            None => single_component(path@) is None,
        },
{
    Path::new(path).as_ident().map(|ident| ident.as_str().to_string())
}

/// The first component of a path, and the path of the others.
pub uninterp spec fn head_and_rest(path: Seq<char>) -> Option<(Seq<char>, Seq<char>)>;

/// `Path::split_first`: the first component of a path, without the root, and the path of the
/// others.
#[verifier::external_body]
pub(crate) fn split_first(path: &str) -> (parts: Option<(String, String)>)
    ensures
        match parts {
            Some((head, rest)) => head_and_rest(path@) == Some((head@, rest@)),
            None => head_and_rest(path@) is None,
        },
{
    Path::new(path).split_first().map(|(head, rest)| (head.to_string(), rest.to_string()))
}

/// Whether every component of a path can be read.
pub open spec fn is_readable(path: Seq<char>) -> bool {
    canonical_form(path) is Ok
}

/// A path made absolute.
pub uninterp spec fn absolute_path(path: Seq<char>) -> Seq<char>;

/// `Path::to_absolute`: the path with the root in front. The outside function panics where a
/// component cannot be read.
#[verifier::external_body]
fn to_absolute(path: &str) -> (absolute: String)
    requires
        is_readable(path@),
    ensures
        absolute@ == absolute_path(path@),
{
    Path::new(path).to_absolute().to_string()
}

/// Two paths joined.
pub uninterp spec fn joined_path(base: Seq<char>, rest: Seq<char>) -> Seq<char>;

/// `Path::join` of two paths: the components of both, one after another. The outside function panics
/// where a component of the second cannot be read.
#[verifier::external_body]
fn join_paths(base: &str, rest: &str) -> (path: String)
    requires
        is_readable(rest@),
    ensures
        path@ == joined_path(base@, rest@),
{
    Path::new(base).join(Path::new(rest)).to_string()
}

/// A path with the root in front, where its components can be read. Those of a canonical form need
/// not be: a component that holds a quote and is put in quotes cannot be read back.
pub open spec fn rooted(path: Seq<char>) -> Option<Seq<char>> {
    if is_readable(path) {
        Some(absolute_path(path))
    } else {
        None
    }
}

/// What is left of a path put behind another, where its components can be read.
pub open spec fn attached(base: Seq<char>, rest: Seq<char>) -> Option<Seq<char>> {
    if is_readable(rest) {
        Some(joined_path(base, rest))
    } else {
        None
    }
}

/// The path with the root in front, where its components can be read.
pub fn root_path(path: &str) -> (absolute: Option<String>)
    ensures
        match absolute {
            Some(absolute) => rooted(path@) == Some(absolute@),
            None => rooted(path@) is None,
        },
{
    match canonicalize(path) {
        Ok(_) => Some(to_absolute(path)),
        Err(_) => None,
    }
}

/// What is left of a path put behind another, where its components can be read.
pub fn attach_path(base: &str, rest: &str) -> (path: Option<String>)
    ensures
        match path {
            Some(path) => attached(base@, rest@) == Some(path@),
            None => attached(base@, rest@) is None,
        },
{
    match canonicalize(rest) {
        Ok(_) => Some(join_paths(base, rest)),
        Err(_) => None,
    }
}

/// A path with one more component.
pub uninterp spec fn extended_path(base: Seq<char>, component: Seq<char>) -> Seq<char>;

/// Whether a text is a component that needs no quotes: letters, digits and underscores of ASCII.
pub open spec fn is_bare_component(text: Seq<char>) -> bool {
    text.len() > 0 && forall|i: int| 0 <= i < text.len() ==> fits(Class::Word, #[trigger] text[i])
}

/// Whether a text is a path without components.
pub open spec fn is_empty_path(text: Seq<char>) -> bool {
    text == ""@ || text == "::"@ || text == "\"\""@
}

/// `Path::join` of a path and a single component, which is put in quotes where it has to be. One
/// that needs none stands behind a separator, where the path has components.
#[verifier::external_body]
pub(crate) fn extend_path(base: &str, component: &str) -> (path: String)
    ensures
        path@ == extended_path(base@, component@),
        is_bare_component(component@) && !is_empty_path(base@) ==> path@ == base@ + "::"@ + component@,
{
    Path::new(base).join(component).to_string()
}

/// `ProcedureName::MAIN_PROC_NAME`: the name under which the entrypoint of a program is known.
#[verifier::external_body]
pub(crate) fn main_procedure_name() -> (name: String)
    ensures
        name@ == "$main"@,
{
    ProcedureName::MAIN_PROC_NAME.to_string()
}

/// The message when a text is no name for a procedure.
pub uninterp spec fn procedure_name_failure(name: Seq<char>) -> Option<Seq<char>>;

/// `ProcedureName::new`: the message of the error when the text is no name for a procedure.
#[verifier::external_body]
pub(crate) fn check_procedure_name(name: &str) -> (message: Option<String>)
    ensures
        match message {
            Some(message) => procedure_name_failure(name@) == Some(message@),
            None => procedure_name_failure(name@) is None,
        },
{
    ProcedureName::new(name).err().map(|error| error.to_string())
}

/// The message when a text is no identifier.
pub uninterp spec fn ident_failure(name: Seq<char>) -> Option<Seq<char>>;

/// `Ident::new`: the message of the error when the text is no identifier.
#[verifier::external_body]
pub(crate) fn check_ident(name: &str) -> (message: Option<String>)
    ensures
        match message {
            Some(message) => ident_failure(name@) == Some(message@),
            None => ident_failure(name@) is None,
        },
{
    Ident::new(name).err().map(|error| error.to_string())
}

/// Whether a character may stand in the name of a constant.
pub open spec fn is_constant_char(ch: char) -> bool {
    ('A' <= ch && ch <= 'Z') || ('0' <= ch && ch <= '9') || ch == '_'
}

/// Whether a name is written as names of constants are.
pub open spec fn is_constant_name(name: Seq<char>) -> bool {
    forall|i: int| 0 <= i < name.len() ==> is_constant_char(#[trigger] name[i])
}

/// Whether `name` is written as names of constants are.
pub fn names_constant(name: &str) -> (result: bool)
    ensures
        result == is_constant_name(name@),
{
    let chars = chars_of(name);
    let mut i: usize = 0;
    while i < chars.len()
        invariant
            i <= chars.len(),
            chars@ == name@,
            forall|k: int| 0 <= k < i ==> is_constant_char(#[trigger] name@[k]),
        decreases chars.len() - i,
    {
        let ch = chars[i];
        if !(('A' <= ch && ch <= 'Z') || ('0' <= ch && ch <= '9') || ch == '_') {
            assert(!is_constant_char(name@[i as int]));
            return false;
        }
        i = i + 1;
    }
    true
}

} // verus!
