//! Scalar cells: the values a row holds, their kinds, and how they compare.

use vstd::prelude::*;
use crate::text::{text_before, text_equal, text_less};

verus! {

/// The kind of a non-null value.
#[derive(Clone, Copy, Debug, PartialEq, Eq, Structural, Hash)]
pub enum Kind {
    Int,
    Float,
    Text,
    Date,
    Timestamp,
}

/// How one thing stands to another in an order.
#[derive(Clone, Copy, Debug, PartialEq, Eq, Structural)]
pub enum Rel {
    Before,
    Same,
    After,
}

/// How two integers stand in the usual order.
pub open spec fn int_rel(x: int, y: int) -> Rel {
    if x < y {
        Rel::Before
    } else if x == y {
        Rel::Same
    } else {
        Rel::After
    }
}

/// How two texts stand in the order of their encodings.
pub open spec fn text_rel(a: Seq<char>, b: Seq<char>) -> Rel {
    if a == b {
        Rel::Same
    } else if text_before(a, b) {
        Rel::Before
    } else {
        Rel::After
    }
}

/// How two cells stand under the comparison of the query language: two
/// values of one kind are ordered; a null, or values of different kinds,
/// cannot be compared.
pub open spec fn cell_rel(a: Cell, b: Cell) -> Option<Rel> {
    match (a, b) {
        (Cell::Int(x), Cell::Int(y)) => Some(int_rel(x, y)),
        (Cell::Float(x), Cell::Float(y)) => Some(int_rel(x, y)),
        (Cell::Text(x), Cell::Text(y)) => Some(text_rel(x, y)),
        (Cell::Date(x), Cell::Date(y)) => Some(int_rel(x, y)),
        (Cell::Timestamp(x), Cell::Timestamp(y)) => Some(int_rel(x, y)),
        _ => None,
    }
}

/// One scalar cell of a row.
///
/// A floating-point number is held as the 64-bit integer that orders doubles
/// the way IEEE-754 `totalOrder` does, so that it can be compared and found
/// again without floating-point arithmetic. A date counts days and a timestamp
/// counts microseconds, both from 1970-01-01.
#[derive(Debug)]
pub enum Value {
    Null,
    Int(i64),
    Float(i64),
    Text(String),
    Date(i32),
    Timestamp(i64),
}

/// The mathematical value of a cell.
pub enum Cell {
    Null,
    Int(int),
    Float(int),
    Text(Seq<char>),
    Date(int),
    Timestamp(int),
}

impl View for Value {
    type V = Cell;

    open spec fn view(&self) -> Cell {
        match *self {
            Value::Null => Cell::Null,
            Value::Int(i) => Cell::Int(i as int),
            Value::Float(k) => Cell::Float(k as int),
            Value::Text(s) => Cell::Text(s@),
            Value::Date(d) => Cell::Date(d as int),
            Value::Timestamp(t) => Cell::Timestamp(t as int),
        }
    }
}

impl Cell {
    /// The kind of a cell, `None` for null.
    pub open spec fn kind(self) -> Option<Kind> {
        match self {
            Cell::Null => None,
            Cell::Int(_) => Some(Kind::Int),
            Cell::Float(_) => Some(Kind::Float),
            Cell::Text(_) => Some(Kind::Text),
            Cell::Date(_) => Some(Kind::Date),
            Cell::Timestamp(_) => Some(Kind::Timestamp),
        }
    }
}

impl Clone for Value {
    fn clone(&self) -> (copy: Value)
        ensures
            copy == *self,
    {
        match self {
            Value::Null => Value::Null,
            Value::Int(i) => Value::Int(*i),
            Value::Float(k) => Value::Float(*k),
            Value::Text(s) => Value::Text(s.clone()),
            Value::Date(d) => Value::Date(*d),
            Value::Timestamp(t) => Value::Timestamp(*t),
        }
    }
}

impl PartialEq for Value {
    fn eq(&self, other: &Value) -> (same: bool) {
        match (self, other) {
            (Value::Null, Value::Null) => true,
            (Value::Int(a), Value::Int(b)) => *a == *b,
            (Value::Float(a), Value::Float(b)) => *a == *b,
            (Value::Text(a), Value::Text(b)) => *a == *b,
            (Value::Date(a), Value::Date(b)) => *a == *b,
            (Value::Timestamp(a), Value::Timestamp(b)) => *a == *b,
            _ => false,
        }
    }
}

impl vstd::std_specs::cmp::PartialEqSpecImpl for Value {
    open spec fn obeys_eq_spec() -> bool {
        true
    }

    open spec fn eq_spec(&self, other: &Value) -> bool {
        self@ == other@
    }
}

fn relate_i64(x: i64, y: i64) -> (rel: Rel)
    ensures
        rel == int_rel(x as int, y as int),
{
    if x < y {
        Rel::Before
    } else if x == y {
        Rel::Same
    } else {
        Rel::After
    }
}

fn relate_text(a: &str, b: &str) -> (rel: Rel)
    ensures
        rel == text_rel(a@, b@),
{
    if text_equal(a, b) {
        Rel::Same
    } else if text_less(a, b) {
        Rel::Before
    } else {
        Rel::After
    }
}

impl Value {
    /// A text value.
    pub fn text(content: &str) -> (value: Value)
        ensures
            value@ == Cell::Text(content@),
    {
        Value::Text(content.to_owned())
    }

    /// How this value stands to `other` under the comparison of the query
    /// language; `None` where one of them is null or their kinds differ.
    pub fn relate(&self, other: &Value) -> (rel: Option<Rel>)
        ensures
            rel == cell_rel(self@, other@),
    {
        match (self, other) {
            (Value::Int(x), Value::Int(y)) => Some(relate_i64(*x, *y)),
            (Value::Float(x), Value::Float(y)) => Some(relate_i64(*x, *y)),
            (Value::Text(x), Value::Text(y)) => Some(relate_text(x.as_str(), y.as_str())),
            (Value::Date(x), Value::Date(y)) => Some(relate_i64(*x as i64, *y as i64)),
            (Value::Timestamp(x), Value::Timestamp(y)) => Some(relate_i64(*x, *y)),
            _ => None,
        }
    }

    /// Whether the cell is null.
    pub fn is_null(&self) -> (null: bool)
        ensures
            null == (self@ is Null),
    {
        match self {
            Value::Null => true,
            _ => false,
        }
    }

    /// The kind of the cell, `None` for null.
    pub fn kind(&self) -> (kind: Option<Kind>)
        ensures
            kind == self@.kind(),
    {
        match self {
            Value::Null => None,
            Value::Int(_) => Some(Kind::Int),
            Value::Float(_) => Some(Kind::Float),
            Value::Text(_) => Some(Kind::Text),
            Value::Date(_) => Some(Kind::Date),
            Value::Timestamp(_) => Some(Kind::Timestamp),
        }
    }
}

} // verus!
