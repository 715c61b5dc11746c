//! Values that fill attributes, transaction records and errors.
use vstd::prelude::*;

verus! {

/// A tagged scalar: an entity identifier, an attribute name, or a plain datum.
#[derive(Debug, Clone, PartialEq, Eq, PartialOrd, Ord)]
pub enum Value {
    Eid(u64),
    Aid(String),
    String(String),
    Number(i64),
    Bool(bool),
}

/// The mathematical content of a `Value`.
pub enum ValueView {
    Eid(u64),
    Aid(Seq<char>),
    String(Seq<char>),
    Number(i64),
    Bool(bool),
}

impl View for Value {
    type V = ValueView;

    open spec fn view(&self) -> ValueView {
        match self {
            Value::Eid(e) => ValueView::Eid(*e),
            Value::Aid(a) => ValueView::Aid(a@),
            Value::String(s) => ValueView::String(s@),
            Value::Number(n) => ValueView::Number(*n),
            Value::Bool(b) => ValueView::Bool(*b),
        }
    }
}

impl Value {
    /// Structural comparison of two values.
    pub fn equals(&self, other: &Value) -> (r: bool)
        ensures
            r == (self@ == other@),
    {
        match (self, other) {
            (Value::Eid(a), Value::Eid(b)) => *a == *b,
            (Value::Aid(a), Value::Aid(b)) => a.eq(b),
            (Value::String(a), Value::String(b)) => a.eq(b),
            (Value::Number(a), Value::Number(b)) => *a == *b,
            (Value::Bool(a), Value::Bool(b)) => *a == *b,
            _ => false,
        }
    }

    /// A copy of the value with the same content.
    pub fn duplicate(&self) -> (r: Value)
        ensures
            r@ == self@,
    {
        match self {
            Value::Eid(e) => Value::Eid(*e),
            Value::Aid(a) => Value::Aid(a.clone()),
            Value::String(s) => Value::String(s.clone()),
            Value::Number(n) => Value::Number(*n),
            Value::Bool(b) => Value::Bool(*b),
        }
    }
}

/// One transaction record: signed multiplicity (positive inserts, negative
/// retracts), entity id, attribute name and value.
#[derive(Debug, Clone, PartialEq, Eq)]
pub struct TxData(pub isize, pub u64, pub String, pub Value);

/// The mathematical content of a transaction record.
pub struct TxView {
    pub op: isize,
    pub e: u64,
    pub a: Seq<char>,
    pub v: ValueView,
}

impl View for TxData {
    type V = TxView;

    open spec fn view(&self) -> TxView {
        TxView { op: self.0, e: self.1, a: self.2@, v: self.3@ }
    }
}

/// The two ways a domain operation can fail; each names the attribute.
#[derive(Debug, Clone, PartialEq, Eq)]
pub enum Error {
    /// An attribute of that name is already registered.
    Conflict(String),
    /// No live input exists under that name.
    NotFound(String),
}

impl Error {
    /// The error is a conflict over the name `n`.
    pub open spec fn conflict_on(self, n: Seq<char>) -> bool {
        match self {
            Error::Conflict(m) => m@ == n,
            Error::NotFound(_) => false,
        }
    }

    /// The error reports that `n` has no live input.
    pub open spec fn not_found(self, n: Seq<char>) -> bool {
        match self {
            Error::NotFound(m) => m@ == n,
            Error::Conflict(_) => false,
        }
    }

    /// The category label of the error.
    pub fn category(&self) -> (r: &'static str)
        ensures
            self is Conflict ==> r@ == "df.error.category/conflict"@,
            self is NotFound ==> r@ == "df.error.category/not-found"@,
    {
        proof {
            reveal_strlit("df.error.category/conflict");
            reveal_strlit("df.error.category/not-found");
        }
        match self {
            Error::Conflict(_) => "df.error.category/conflict",
            Error::NotFound(_) => "df.error.category/not-found",
        }
    }

    /// The attribute name that the error is about.
    pub fn name(&self) -> (r: &String)
        ensures
            match self {
                Error::Conflict(n) => r@ == n@,
                Error::NotFound(n) => r@ == n@,
            },
    {
        match self {
            Error::Conflict(n) => n,
            Error::NotFound(n) => n,
        }
    }
}

} // verus!
