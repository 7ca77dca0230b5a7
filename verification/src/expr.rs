//! Expressions that derive one cell from the cells of a row.
//!
//! An expression is checked against the schema before any row is read; on
//! rows that conform to the schema a checked expression always has a value.
//! A null operand makes the result null. Integer arithmetic wraps around at
//! 64 bits, as two's-complement arithmetic does.

use vstd::prelude::*;
use vstd::string::StringExecFns;
use crate::error::EngineError;
use crate::number::{wrap, wrap64};
use crate::predicate::cell_at;
use crate::schema::{lemma_position_of, names_of, position_of, ColumnView, Schema};
use crate::table::{row_fits, row_view};
use crate::value::{Cell, Kind, Value};

verus! {

/// The lower-case form of a text, as the standard library's
/// `str::to_lowercase` gives it.
pub uninterp spec fn lowercase_of(text: Seq<char>) -> Seq<char>;

/// The upper-case form of a text, as the standard library's
/// `str::to_uppercase` gives it.
pub uninterp spec fn uppercase_of(text: Seq<char>) -> Seq<char>;

/// Calls `str::to_lowercase`, which maps each character by the Unicode
/// property `Lowercase`. The result depends on the text alone; the contract
/// gives it a name and claims no more.
#[verifier::external_body]
fn to_lowercase(text: &str) -> (lowered: String)
    ensures
        lowered@ == lowercase_of(text@),
{
    text.to_lowercase()
}

/// Calls `str::to_uppercase`, which maps each character by the Unicode
/// property `Uppercase`. The result depends on the text alone; the contract
/// gives it a name and claims no more.
#[verifier::external_body]
fn to_uppercase(text: &str) -> (raised: String)
    ensures
        raised@ == uppercase_of(text@),
{
    text.to_uppercase()
}

/// An expression over the cells of one row.
#[derive(Debug)]
pub enum Expr {
    /// The cell of a column.
    Column(String),
    /// A value that is the same on every row.
    Literal(Value),
    /// Two texts, one after the other.
    Concat(Box<Expr>, Box<Expr>),
    /// The sum of two integers.
    Add(Box<Expr>, Box<Expr>),
    /// The difference of two integers.
    Subtract(Box<Expr>, Box<Expr>),
    /// The product of two integers.
    Multiply(Box<Expr>, Box<Expr>),
    /// A text in lower case.
    Lower(Box<Expr>),
    /// A text in upper case.
    Upper(Box<Expr>),
}

/// What is known of the values of an expression before any row is read.
pub struct Typed {
    pub kind: Kind,
    pub nullable: bool,
}

/// The type of an operation on two operands that must both be of `kind`.
pub open spec fn both_typed(
    a: Result<Typed, EngineError>,
    b: Result<Typed, EngineError>,
    kind: Kind,
) -> Result<Typed, EngineError> {
    match a {
        Err(e) => Err(e),
        Ok(x) => match b {
            Err(e) => Err(e),
            Ok(y) => if x.kind == kind && y.kind == kind {
                Ok(Typed { kind, nullable: x.nullable || y.nullable })
            } else {
                Err(EngineError::TypeMismatch)
            },
        },
    }
}

/// The type of an operation on one operand that must be a text.
pub open spec fn text_typed(a: Result<Typed, EngineError>) -> Result<Typed, EngineError> {
    match a {
        Err(e) => Err(e),
        Ok(x) => if x.kind == Kind::Text {
            Ok(x)
        } else {
            Err(EngineError::TypeMismatch)
        },
    }
}

/// The sum, difference or product of two integer cells, wrapped to 64 bits;
/// null where one of them is not an integer.
pub open spec fn arithmetic(a: Cell, b: Cell, op: spec_fn(int, int) -> int) -> Cell {
    match (a, b) {
        (Cell::Int(x), Cell::Int(y)) => Cell::Int(wrap64(op(x, y))),
        _ => Cell::Null,
    }
}

impl Expr {
    /// The kind of the values of the expression over `columns`, and whether
    /// one of them can be null; or what is wrong with the expression: the
    /// first column, reading from the left, that the schema lacks
    /// (`UnknownColumn`), a null literal, or an operand of the wrong kind
    /// (`TypeMismatch`).
    pub open spec fn typed(self, columns: Seq<ColumnView>) -> Result<Typed, EngineError>
        decreases self,
    {
        match self {
            Expr::Column(name) => match position_of(names_of(columns), name@) {
                Some(c) => Ok(Typed { kind: columns[c].kind, nullable: columns[c].nullable }),
                None => Err(EngineError::UnknownColumn),
            },
            Expr::Literal(value) => match value@.kind() {
                Some(kind) => Ok(Typed { kind, nullable: false }),
                None => Err(EngineError::TypeMismatch),
            },
            Expr::Concat(a, b) => both_typed(a.typed(columns), b.typed(columns), Kind::Text),
            Expr::Add(a, b) => both_typed(a.typed(columns), b.typed(columns), Kind::Int),
            Expr::Subtract(a, b) => both_typed(a.typed(columns), b.typed(columns), Kind::Int),
            Expr::Multiply(a, b) => both_typed(a.typed(columns), b.typed(columns), Kind::Int),
            Expr::Lower(a) => text_typed(a.typed(columns)),
            Expr::Upper(a) => text_typed(a.typed(columns)),
        }
    }

    /// The value of the expression on `row`, a row of a table whose columns
    /// are called `names`.
    pub open spec fn value(self, names: Seq<Seq<char>>, row: Seq<Cell>) -> Cell
        decreases self,
    {
        match self {
            Expr::Column(name) => cell_at(names, row, name@),
            Expr::Literal(value) => value@,
            Expr::Concat(a, b) => match (a.value(names, row), b.value(names, row)) {
                (Cell::Text(x), Cell::Text(y)) => Cell::Text(x + y),
                _ => Cell::Null,
            },
            Expr::Add(a, b) => arithmetic(
                a.value(names, row),
                b.value(names, row),
                |x: int, y: int| x + y,
            ),
            Expr::Subtract(a, b) => arithmetic(
                a.value(names, row),
                b.value(names, row),
                |x: int, y: int| x - y,
            ),
            Expr::Multiply(a, b) => arithmetic(
                a.value(names, row),
                b.value(names, row),
                |x: int, y: int| x * y,
            ),
            Expr::Lower(a) => match a.value(names, row) {
                Cell::Text(x) => Cell::Text(lowercase_of(x)),
                _ => Cell::Null,
            },
            Expr::Upper(a) => match a.value(names, row) {
                Cell::Text(x) => Cell::Text(uppercase_of(x)),
                _ => Cell::Null,
            },
        }
    }

    /// On a row that conforms to the schema, the value of a checked
    /// expression is of the kind that the check found, and null only where
    /// the check allows it.
    pub proof fn lemma_value_typed(self, columns: Seq<ColumnView>, row: Seq<Cell>)
        requires
            self.typed(columns) is Ok,
            row_fits(columns, row),
        ensures
            match self.value(names_of(columns), row).kind() {
                Some(kind) => kind == self.typed(columns).unwrap().kind,
                None => self.typed(columns).unwrap().nullable,
            },
        decreases self,
    {
        let names = names_of(columns);
        match self {
            Expr::Column(name) => {
                lemma_position_of(names, name@);
                let c = position_of(names, name@).unwrap();
                assert(columns[c].admits(row[c]));
            },
            Expr::Literal(value) => {},
            Expr::Concat(a, b) | Expr::Add(a, b) | Expr::Subtract(a, b) | Expr::Multiply(a, b) => {
                a.lemma_value_typed(columns, row);
                b.lemma_value_typed(columns, row);
            },
            Expr::Lower(a) | Expr::Upper(a) => {
                a.lemma_value_typed(columns, row);
            },
        }
    }

    /// Checks the expression against a schema.
    pub fn check(&self, schema: &Schema) -> (checked: Result<(Kind, bool), EngineError>)
        ensures
            agrees(checked, self.typed(schema@)),
        decreases self,
    {
        match self {
            Expr::Column(name) => match schema.index_of(name.as_str()) {
                Some(c) => Ok((schema.column(c).kind, schema.column(c).nullable)),
                None => Err(EngineError::UnknownColumn),
            },
            Expr::Literal(value) => match value.kind() {
                Some(kind) => Ok((kind, false)),
                None => Err(EngineError::TypeMismatch),
            },
            Expr::Concat(a, b) => check_both(a.check(schema), b.check(schema), Kind::Text),
            Expr::Add(a, b) => check_both(a.check(schema), b.check(schema), Kind::Int),
            Expr::Subtract(a, b) => check_both(a.check(schema), b.check(schema), Kind::Int),
            Expr::Multiply(a, b) => check_both(a.check(schema), b.check(schema), Kind::Int),
            Expr::Lower(a) => check_text(a.check(schema)),
            Expr::Upper(a) => check_text(a.check(schema)),
        }
    }

    /// The value of the expression on a row of a table with this schema.
    pub fn evaluate(&self, schema: &Schema, row: &Vec<Value>) -> (out: Value)
        requires
            self.typed(schema@) is Ok,
            row@.len() == schema@.len(),
        ensures
            out@ == self.value(names_of(schema@), row_view(row@)),
        decreases self,
    {
        match self {
            Expr::Column(name) => {
                let c = schema.index_of(name.as_str()).unwrap();
                row[c].clone()
            },
            Expr::Literal(value) => value.clone(),
            Expr::Concat(a, b) => match (a.evaluate(schema, row), b.evaluate(schema, row)) {
                (Value::Text(x), Value::Text(y)) => Value::Text(x.concat(y.as_str())),
                _ => Value::Null,
            },
            Expr::Add(a, b) => match (a.evaluate(schema, row), b.evaluate(schema, row)) {
                (Value::Int(x), Value::Int(y)) => Value::Int(wrap(x as i128 + y as i128)),
                _ => Value::Null,
            },
            Expr::Subtract(a, b) => match (a.evaluate(schema, row), b.evaluate(schema, row)) {
                (Value::Int(x), Value::Int(y)) => Value::Int(wrap(x as i128 - y as i128)),
                _ => Value::Null,
            },
            Expr::Multiply(a, b) => match (a.evaluate(schema, row), b.evaluate(schema, row)) {
                (Value::Int(x), Value::Int(y)) => Value::Int(product(x, y)),
                _ => Value::Null,
            },
            Expr::Lower(a) => match a.evaluate(schema, row) {
                Value::Text(x) => Value::Text(to_lowercase(x.as_str())),
                _ => Value::Null,
            },
            Expr::Upper(a) => match a.evaluate(schema, row) {
                Value::Text(x) => Value::Text(to_uppercase(x.as_str())),
                _ => Value::Null,
            },
        }
    }
}

fn product(x: i64, y: i64) -> (out: i64)
    ensures
        out == wrap64(x * y),
{
    assert(-0x4000_0000_0000_0000_0000_0000_0000_0000 <= x * y
        <= 0x4000_0000_0000_0000_0000_0000_0000_0000) by (nonlinear_arith)
        requires
            -0x8000_0000_0000_0000 <= x <= 0x7fff_ffff_ffff_ffff,
            -0x8000_0000_0000_0000 <= y <= 0x7fff_ffff_ffff_ffff,
    ;
    wrap(x as i128 * y as i128)
}

fn check_both(
    a: Result<(Kind, bool), EngineError>,
    b: Result<(Kind, bool), EngineError>,
    kind: Kind,
) -> (out: Result<(Kind, bool), EngineError>)
    ensures
        forall|x: Result<Typed, EngineError>, y: Result<Typed, EngineError>|
            agrees(a, x) && agrees(b, y) ==> agrees(out, both_typed(x, y, kind)),
{
    match a {
        Err(e) => Err(e),
        Ok((left, left_nullable)) => match b {
            Err(e) => Err(e),
            Ok((right, right_nullable)) => if left == kind && right == kind {
                Ok((kind, left_nullable || right_nullable))
            } else {
                Err(EngineError::TypeMismatch)
            },
        },
    }
}

fn check_text(a: Result<(Kind, bool), EngineError>) -> (out: Result<(Kind, bool), EngineError>)
    ensures
        forall|x: Result<Typed, EngineError>| agrees(a, x) ==> agrees(out, text_typed(x)),
{
    match a {
        Err(e) => Err(e),
        Ok((kind, nullable)) => if kind == Kind::Text {
            Ok((kind, nullable))
        } else {
            Err(EngineError::TypeMismatch)
        },
    }
}

/// Whether the outcome of a check is the type that the model gives.
pub open spec fn agrees(checked: Result<(Kind, bool), EngineError>, typed: Result<Typed, EngineError>) -> bool {
    match checked {
        Ok((kind, nullable)) => typed == Ok::<Typed, EngineError>(Typed { kind, nullable }),
        Err(e) => typed == Err::<Typed, EngineError>(e),
    }
}

} // verus!
