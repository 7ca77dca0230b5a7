//! Column layouts.

use vstd::prelude::*;
use crate::error::EngineError;
use crate::text::text_equal;
use crate::value::{Cell, Kind, Value};

verus! {

/// One column of a schema: its name, the kind of its values, and whether a
/// cell of it may be null.
#[derive(Debug)]
pub struct Column {
    pub name: String,
    pub kind: Kind,
    pub nullable: bool,
}

/// The mathematical value of a [`Column`].
pub struct ColumnView {
    pub name: Seq<char>,
    pub kind: Kind,
    pub nullable: bool,
}

impl View for Column {
    type V = ColumnView;

    open spec fn view(&self) -> ColumnView {
        ColumnView { name: self.name@, kind: self.kind, nullable: self.nullable }
    }
}

impl Clone for Column {
    fn clone(&self) -> (copy: Column)
        ensures
            copy == *self,
    {
        Column { name: self.name.clone(), kind: self.kind, nullable: self.nullable }
    }
}

impl ColumnView {
    /// Whether a cell may stand in this column: a value of the column's kind,
    /// or null where the column admits it.
    pub open spec fn admits(self, cell: Cell) -> bool {
        match cell.kind() {
            None => self.nullable,
            Some(kind) => kind == self.kind,
        }
    }
}

impl Column {
    pub fn new(name: &str, kind: Kind, nullable: bool) -> (column: Column)
        ensures
            column@ == (ColumnView { name: name@, kind, nullable }),
    {
        Column { name: name.to_owned(), kind, nullable }
    }

    /// Whether `value` may stand in this column.
    pub fn admits(&self, value: &Value) -> (ok: bool)
        ensures
            ok == self@.admits(value@),
    {
        match value.kind() {
            None => self.nullable,
            Some(kind) => kind == self.kind,
        }
    }
}

/// The views of a sequence of columns.
pub open spec fn columns_view(columns: Seq<Column>) -> Seq<ColumnView> {
    columns.map_values(|c: Column| c@)
}

/// The names of a sequence of columns, in order.
pub open spec fn names_of(columns: Seq<ColumnView>) -> Seq<Seq<char>> {
    columns.map_values(|c: ColumnView| c.name)
}

/// No name occurs twice.
pub open spec fn distinct_names(names: Seq<Seq<char>>) -> bool {
    forall|i: int, j: int| 0 <= i < j < names.len() ==> names[i] != names[j]
}

/// The position of the first column called `name`, if there is one.
pub open spec fn position_of(names: Seq<Seq<char>>, name: Seq<char>) -> Option<int>
    decreases names.len(),
{
    if names.len() == 0 {
        None
    } else if names[0] == name {
        Some(0)
    } else {
        match position_of(names.drop_first(), name) {
            Some(i) => Some(i + 1),
            None => None,
        }
    }
}

/// What `position_of` finds is a position of `name`, and the first one; it
/// finds nothing only where no column has that name.
pub proof fn lemma_position_of(names: Seq<Seq<char>>, name: Seq<char>)
    ensures
        match position_of(names, name) {
            Some(i) => 0 <= i < names.len() && names[i] == name && forall|j: int|
                0 <= j < i ==> names[j] != name,
            None => forall|j: int| 0 <= j < names.len() ==> names[j] != name,
        },
    decreases names.len(),
{
    if names.len() > 0 && names[0] != name {
        let rest = names.drop_first();
        lemma_position_of(rest, name);
        match position_of(rest, name) {
            Some(i) => {
                assert forall|j: int| 0 <= j < i + 1 implies names[j] != name by {
                    if j > 0 {
                        assert(names[j] == rest[j - 1]);
                    }
                }
            },
            None => {
                assert forall|j: int| 0 <= j < names.len() implies names[j] != name by {
                    if j > 0 {
                        assert(names[j] == rest[j - 1]);
                    }
                }
            },
        }
    }
}

/// The first position is the only one that fits the description.
pub proof fn lemma_position_is(names: Seq<Seq<char>>, name: Seq<char>, at: int)
    requires
        0 <= at < names.len(),
        names[at] == name,
        forall|j: int| 0 <= j < at ==> names[j] != name,
    ensures
        position_of(names, name) == Some(at),
{
    lemma_position_of(names, name);
}

/// An ordered list of columns in which no name occurs twice.
#[derive(Debug)]
pub struct Schema {
    columns: Vec<Column>,
}

impl View for Schema {
    type V = Seq<ColumnView>;

    closed spec fn view(&self) -> Seq<ColumnView> {
        columns_view(self.columns@)
    }
}

impl Clone for Schema {
    fn clone(&self) -> (copy: Schema)
        ensures
            copy@ == self@,
    {
        proof {
            use_type_invariant(self);
        }
        Schema { columns: self.columns() }
    }
}

impl Schema {
    /// What holds of every schema: no name occurs twice.
    #[verifier::type_invariant]
    pub open spec fn inv(self) -> bool {
        distinct_names(names_of(self@))
    }

    /// A schema of the given columns. Fails with `SchemaMismatch` exactly when
    /// two of them share a name.
    pub fn new(columns: Vec<Column>) -> (made: Result<Schema, EngineError>)
        ensures
            match made {
                Ok(schema) => schema@ == columns_view(columns@) && distinct_names(
                    names_of(schema@),
                ),
                Err(e) => e == EngineError::SchemaMismatch && !distinct_names(
                    names_of(columns_view(columns@)),
                ),
            },
    {
        let ghost names = names_of(columns_view(columns@));
        let mut j: usize = 0;
        while j < columns.len()
            invariant
                j <= columns.len(),
                names == names_of(columns_view(columns@)),
                forall|a: int, b: int| 0 <= a < b < j ==> names[a] != names[b],
            decreases columns.len() - j,
        {
            let mut i: usize = 0;
            while i < j
                invariant
                    i <= j < columns.len(),
                    names == names_of(columns_view(columns@)),
                    forall|a: int| 0 <= a < i ==> names[a] != names[j as int],
                decreases j - i,
            {
                if columns[i].name == columns[j].name {
                    assert(names[i as int] == names[j as int]);
                    return Err(EngineError::SchemaMismatch);
                }
                i += 1;
            }
            j += 1;
        }
        Ok(Schema { columns })
    }

    /// A schema of the given columns, whose names differ from one another.
    pub(crate) fn assemble(columns: Vec<Column>) -> (schema: Schema)
        requires
            distinct_names(names_of(columns_view(columns@))),
        ensures
            schema@ == columns_view(columns@),
    {
        Schema { columns }
    }

    /// The number of columns.
    pub fn len(&self) -> (n: usize)
        ensures
            n == self@.len(),
    {
        self.columns.len()
    }

    /// The column at `index`.
    pub fn column(&self, index: usize) -> (column: &Column)
        requires
            index < self@.len(),
        ensures
            column@ == self@[index as int],
    {
        &self.columns[index]
    }

    /// The position of the column called `name`; `None` where the schema has
    /// no such column.
    pub fn index_of(&self, name: &str) -> (found: Option<usize>)
        ensures
            match found {
                Some(i) => position_of(names_of(self@), name@) == Some(i as int) && i < self@.len(),
                None => position_of(names_of(self@), name@) is None,
            },
    {
        let ghost names = names_of(self@);
        let mut i: usize = 0;
        while i < self.columns.len()
            invariant
                i <= self.columns.len(),
                names == names_of(self@),
                forall|a: int| 0 <= a < i ==> names[a] != name@,
            decreases self.columns.len() - i,
        {
            if text_equal(self.columns[i].name.as_str(), name) {
                proof {
                    lemma_position_is(names, name@, i as int);
                }
                return Some(i);
            }
            i += 1;
        }
        proof {
            lemma_position_of(names, name@);
        }
        None
    }

    /// A copy of the columns, in order.
    pub fn columns(&self) -> (copy: Vec<Column>)
        ensures
            columns_view(copy@) == self@,
    {
        let mut copy: Vec<Column> = Vec::new();
        let mut i: usize = 0;
        while i < self.columns.len()
            invariant
                i <= self.columns.len(),
                copy@ == self.columns@.take(i as int),
            decreases self.columns.len() - i,
        {
            copy.push(self.columns[i].clone());
            proof {
                assert(self.columns@.take(i as int + 1) == self.columns@.take(i as int).push(
                    self.columns@[i as int],
                ));
            }
            i += 1;
        }
        proof {
            assert(self.columns@.take(self.columns.len() as int) == self.columns@);
        }
        copy
    }
}

} // verus!
