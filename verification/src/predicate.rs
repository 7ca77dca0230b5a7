//! Row predicates and their three-valued evaluation.
//!
//! A comparison that touches a null is neither true nor false but unknown,
//! and unknown spreads through `not`, `and` and `or` the way it does in the
//! query language: `false and unknown` is false, `true or unknown` is true.

use vstd::prelude::*;
use crate::error::EngineError;
use crate::schema::{names_of, position_of, ColumnView, Schema};
use crate::table::{row_fits, row_view};
use crate::value::{cell_rel, Cell, Rel, Value};

verus! {

/// A truth value of three-valued logic.
#[derive(Clone, Copy, Debug, PartialEq, Eq, Structural)]
pub enum Tri {
    True,
    False,
    Unknown,
}

impl Tri {
    pub open spec fn negation(self) -> Tri {
        match self {
            Tri::True => Tri::False,
            Tri::False => Tri::True,
            Tri::Unknown => Tri::Unknown,
        }
    }

    pub open spec fn conjunction(self, other: Tri) -> Tri {
        if self == Tri::False || other == Tri::False {
            Tri::False
        } else if self == Tri::True && other == Tri::True {
            Tri::True
        } else {
            Tri::Unknown
        }
    }

    pub open spec fn disjunction(self, other: Tri) -> Tri {
        if self == Tri::True || other == Tri::True {
            Tri::True
        } else if self == Tri::False && other == Tri::False {
            Tri::False
        } else {
            Tri::Unknown
        }
    }

    pub fn not(self) -> (out: Tri)
        ensures
            out == self.negation(),
    {
        match self {
            Tri::True => Tri::False,
            Tri::False => Tri::True,
            Tri::Unknown => Tri::Unknown,
        }
    }

    pub fn and(self, other: Tri) -> (out: Tri)
        ensures
            out == self.conjunction(other),
    {
        match (self, other) {
            (Tri::False, _) => Tri::False,
            (_, Tri::False) => Tri::False,
            (Tri::True, Tri::True) => Tri::True,
            _ => Tri::Unknown,
        }
    }

    pub fn or(self, other: Tri) -> (out: Tri)
        ensures
            out == self.disjunction(other),
    {
        match (self, other) {
            (Tri::True, _) => Tri::True,
            (_, Tri::True) => Tri::True,
            (Tri::False, Tri::False) => Tri::False,
            _ => Tri::Unknown,
        }
    }
}

/// A comparison operator.
#[derive(Clone, Copy, Debug, PartialEq, Eq, Structural)]
pub enum Comparison {
    Equal,
    NotEqual,
    Less,
    LessOrEqual,
    Greater,
    GreaterOrEqual,
}

/// What a comparison says of two cells that stand as `rel`; unknown where
/// they cannot be compared.
pub open spec fn judge(op: Comparison, rel: Option<Rel>) -> Tri {
    match rel {
        None => Tri::Unknown,
        Some(r) => if match op {
            Comparison::Equal => r == Rel::Same,
            Comparison::NotEqual => r != Rel::Same,
            Comparison::Less => r == Rel::Before,
            Comparison::LessOrEqual => r != Rel::After,
            Comparison::Greater => r == Rel::After,
            Comparison::GreaterOrEqual => r != Rel::Before,
        } {
            Tri::True
        } else {
            Tri::False
        },
    }
}

/// A condition on one row.
#[derive(Debug)]
pub enum Predicate {
    /// The cell of a column compared with a literal.
    Compare { column: String, op: Comparison, value: Value },
    /// The cells of two columns compared with each other.
    CompareColumns { left: String, op: Comparison, right: String },
    /// The cell of a column equals one of the listed values.
    IsIn { column: String, values: Vec<Value> },
    /// The cell of a column is null. Never unknown.
    IsNull { column: String },
    Not(Box<Predicate>),
    And(Box<Predicate>, Box<Predicate>),
    Or(Box<Predicate>, Box<Predicate>),
}

/// Whether `cell` equals one of `values`: true where it equals one; else
/// unknown where it, or one of the values, is null; else false.
pub open spec fn member(cell: Cell, values: Seq<Value>) -> Tri
    decreases values.len(),
{
    if values.len() == 0 {
        Tri::False
    } else {
        member(cell, values.drop_last()).disjunction(
            judge(Comparison::Equal, cell_rel(cell, values.last()@)),
        )
    }
}

/// The cell of `row` under the column called `name`; null where no column
/// has that name.
pub open spec fn cell_at(names: Seq<Seq<char>>, row: Seq<Cell>, name: Seq<char>) -> Cell {
    match position_of(names, name) {
        Some(c) => row[c],
        None => Cell::Null,
    }
}

impl Predicate {
    /// The truth value of the predicate on `row`, a row of a table whose
    /// columns are called `names`.
    pub open spec fn holds(self, names: Seq<Seq<char>>, row: Seq<Cell>) -> Tri
        decreases self,
    {
        match self {
            Predicate::Compare { column, op, value } => judge(
                op,
                cell_rel(cell_at(names, row, column@), value@),
            ),
            Predicate::CompareColumns { left, op, right } => judge(
                op,
                cell_rel(cell_at(names, row, left@), cell_at(names, row, right@)),
            ),
            Predicate::IsIn { column, values } => member(cell_at(names, row, column@), values@),
            Predicate::IsNull { column } => if cell_at(names, row, column@) is Null {
                Tri::True
            } else {
                Tri::False
            },
            Predicate::Not(inner) => inner.holds(names, row).negation(),
            Predicate::And(a, b) => a.holds(names, row).conjunction(b.holds(names, row)),
            Predicate::Or(a, b) => a.holds(names, row).disjunction(b.holds(names, row)),
        }
    }

    /// What is wrong with the predicate over `columns`, if anything: the
    /// first column, reading from the left, that the schema does not hold
    /// (`UnknownColumn`), or the first comparison between different kinds
    /// (`TypeMismatch`).
    pub open spec fn fault(self, columns: Seq<ColumnView>) -> Option<EngineError>
        decreases self,
    {
        let names = names_of(columns);
        match self {
            Predicate::Compare { column, op, value } => match position_of(names, column@) {
                None => Some(EngineError::UnknownColumn),
                Some(c) => if literal_suits(columns[c], value@) {
                    None
                } else {
                    Some(EngineError::TypeMismatch)
                },
            },
            Predicate::CompareColumns { left, op, right } => match (
                position_of(names, left@),
                position_of(names, right@),
            ) {
                (Some(l), Some(r)) => if columns[l].kind == columns[r].kind {
                    None
                } else {
                    Some(EngineError::TypeMismatch)
                },
                _ => Some(EngineError::UnknownColumn),
            },
            Predicate::IsIn { column, values } => match position_of(names, column@) {
                None => Some(EngineError::UnknownColumn),
                Some(c) => if forall|i: int|
                    0 <= i < values@.len() ==> literal_suits(columns[c], (#[trigger] values@[i])@) {
                    None
                } else {
                    Some(EngineError::TypeMismatch)
                },
            },
            Predicate::IsNull { column } => match position_of(names, column@) {
                None => Some(EngineError::UnknownColumn),
                Some(_) => None,
            },
            Predicate::Not(inner) => inner.fault(columns),
            Predicate::And(a, b) | Predicate::Or(a, b) => match a.fault(columns) {
                Some(e) => Some(e),
                None => b.fault(columns),
            },
        }
    }
}

/// Whether a literal can be compared with the cells of a column: it is null,
/// or of the column's kind.
pub open spec fn literal_suits(column: ColumnView, literal: Cell) -> bool {
    match literal.kind() {
        None => true,
        Some(kind) => kind == column.kind,
    }
}

fn suits(column_kind: crate::value::Kind, literal: &Value) -> (ok: bool)
    ensures
        ok == match literal@.kind() {
            None => true,
            Some(kind) => kind == column_kind,
        },
{
    match literal.kind() {
        None => true,
        Some(kind) => kind == column_kind,
    }
}

fn all_suit(column: &crate::schema::Column, literals: &Vec<Value>) -> (ok: bool)
    ensures
        ok == forall|i: int|
            0 <= i < literals@.len() ==> literal_suits(column@, (#[trigger] literals@[i])@),
{
    let mut i: usize = 0;
    while i < literals.len()
        invariant
            i <= literals.len(),
            forall|k: int| 0 <= k < i ==> literal_suits(column@, (#[trigger] literals@[k])@),
        decreases literals.len() - i,
    {
        if !suits(column.kind, &literals[i]) {
            assert(!literal_suits(column@, literals@[i as int]@));
            return false;
        }
        i += 1;
    }
    true
}

/// What a comparison says of two values.
pub fn decide(op: Comparison, left: &Value, right: &Value) -> (out: Tri)
    ensures
        out == judge(op, cell_rel(left@, right@)),
{
    match left.relate(right) {
        None => Tri::Unknown,
        Some(r) => {
            let yes = match op {
                Comparison::Equal => r == Rel::Same,
                Comparison::NotEqual => r != Rel::Same,
                Comparison::Less => r == Rel::Before,
                Comparison::LessOrEqual => r != Rel::After,
                Comparison::Greater => r == Rel::After,
                Comparison::GreaterOrEqual => r != Rel::Before,
            };
            if yes {
                Tri::True
            } else {
                Tri::False
            }
        },
    }
}

/// Whether `value` equals one of `values`, in three-valued logic.
pub fn is_member(value: &Value, values: &Vec<Value>) -> (out: Tri)
    ensures
        out == member(value@, values@),
{
    let mut out = Tri::False;
    let mut i: usize = 0;
    while i < values.len()
        invariant
            i <= values.len(),
            out == member(value@, values@.take(i as int)),
        decreases values.len() - i,
    {
        proof {
            assert(values@.take(i as int + 1).drop_last() == values@.take(i as int));
        }
        out = out.or(decide(Comparison::Equal, value, &values[i]));
        i += 1;
    }
    proof {
        assert(values@.take(values.len() as int) == values@);
    }
    out
}

impl Predicate {
    /// Checks the predicate against a schema: `Ok` exactly when every column
    /// it names is there and every comparison is between values of one kind.
    pub fn check(&self, schema: &Schema) -> (checked: Result<(), EngineError>)
        ensures
            match checked {
                Ok(_) => self.fault(schema@) is None,
                Err(e) => self.fault(schema@) == Some(e),
            },
        decreases self,
    {
        match self {
            Predicate::Compare { column, op, value } => match schema.index_of(column.as_str()) {
                None => Err(EngineError::UnknownColumn),
                Some(c) => if suits(schema.column(c).kind, value) {
                    Ok(())
                } else {
                    Err(EngineError::TypeMismatch)
                },
            },
            Predicate::CompareColumns { left, op, right } => {
                match (schema.index_of(left.as_str()), schema.index_of(right.as_str())) {
                    (Some(l), Some(r)) => if schema.column(l).kind == schema.column(r).kind {
                        Ok(())
                    } else {
                        Err(EngineError::TypeMismatch)
                    },
                    _ => Err(EngineError::UnknownColumn),
                }
            },
            Predicate::IsIn { column, values } => match schema.index_of(column.as_str()) {
                None => Err(EngineError::UnknownColumn),
                Some(c) => if all_suit(schema.column(c), values) {
                    Ok(())
                } else {
                    Err(EngineError::TypeMismatch)
                },
            },
            Predicate::IsNull { column } => match schema.index_of(column.as_str()) {
                None => Err(EngineError::UnknownColumn),
                Some(_) => Ok(()),
            },
            Predicate::Not(inner) => inner.check(schema),
            Predicate::And(a, b) | Predicate::Or(a, b) => match a.check(schema) {
                Err(e) => Err(e),
                Ok(_) => b.check(schema),
            },
        }
    }

    /// The truth value of the predicate on a row of a table with this schema.
    pub fn evaluate(&self, schema: &Schema, row: &Vec<Value>) -> (out: Tri)
        requires
            self.fault(schema@) is None,
            row@.len() == schema@.len(),
        ensures
            out == self.holds(names_of(schema@), row_view(row@)),
        decreases self,
    {
        match self {
            Predicate::Compare { column, op, value } => {
                let c = schema.index_of(column.as_str()).unwrap();
                decide(*op, &row[c], value)
            },
            Predicate::CompareColumns { left, op, right } => {
                let l = schema.index_of(left.as_str()).unwrap();
                let r = schema.index_of(right.as_str()).unwrap();
                decide(*op, &row[l], &row[r])
            },
            Predicate::IsIn { column, values } => {
                let c = schema.index_of(column.as_str()).unwrap();
                is_member(&row[c], values)
            },
            Predicate::IsNull { column } => {
                let c = schema.index_of(column.as_str()).unwrap();
                if row[c].is_null() {
                    Tri::True
                } else {
                    Tri::False
                }
            },
            Predicate::Not(inner) => inner.evaluate(schema, row).not(),
            Predicate::And(a, b) => a.evaluate(schema, row).and(b.evaluate(schema, row)),
            Predicate::Or(a, b) => a.evaluate(schema, row).or(b.evaluate(schema, row)),
        }
    }
}

} // verus!
