use vstd::prelude::*;

verus! {

/// What went wrong, for callers that react to the failure.
#[derive(Clone, Copy, Debug, PartialEq, Eq, Structural)]
pub enum ErrorKind {
    /// The backing data is not a bag of arrays.
    InvalidSource,
    /// A document of the backing data lacks a string identifier field.
    MissingIdentifierField,
    CollectionNotFound,
    ItemNotFound,
    DuplicateId,
    /// A request body is not a field bag, or names the identifier wrongly.
    InvalidBody,
}

/// An error of the store, with a message for people.
#[derive(Debug)]
pub struct JsmlError {
    pub kind: ErrorKind,
    pub details: String,
}

impl JsmlError {
    pub fn new(kind: ErrorKind, msg: &str) -> (r: Self)
        ensures
            r.kind == kind,
            r.details@ == msg@,
    {
        JsmlError { kind, details: msg.to_string() }
    }
}

/// The error of building a collection: a document lacks the identifier field.
#[derive(Debug)]
pub struct DatabaseError {
    pub details: String,
}

/// The concatenation of three strings.
pub fn text3(a: &str, b: &str, c: &str) -> (r: String)
    ensures
        r@ == a@ + b@ + c@,
{
    let s = a.to_string();
    let s = s.concat(b);
    s.concat(c)
}

} // verus!
