//! Tables: a schema and the rows that conform to it.

use vstd::prelude::*;
use crate::error::EngineError;
use crate::schema::{names_of, distinct_names, position_of, Column, ColumnView, Schema};
use crate::text::text_equal;
use crate::value::{Cell, Value};

verus! {

/// The cells of a row, as mathematical values.
pub open spec fn row_view(row: Seq<Value>) -> Seq<Cell> {
    row.map_values(|v: Value| v@)
}

/// The rows of a table, as sequences of mathematical values.
pub open spec fn rows_view(rows: Seq<Vec<Value>>) -> Seq<Seq<Cell>> {
    rows.map_values(|r: Vec<Value>| row_view(r@))
}

/// Whether `row` conforms to `columns`: one cell for each column, each of
/// them admitted by its column.
pub open spec fn row_fits(columns: Seq<ColumnView>, row: Seq<Cell>) -> bool {
    &&& row.len() == columns.len()
    &&& forall|c: int| 0 <= c < row.len() ==> (#[trigger] columns[c]).admits(row[c])
}

/// Whether every row of `rows` conforms to `columns`.
pub open spec fn rows_fit(columns: Seq<ColumnView>, rows: Seq<Seq<Cell>>) -> bool {
    forall|r: int| 0 <= r < rows.len() ==> row_fits(columns, #[trigger] rows[r])
}

/// The mathematical value of a [`Table`].
pub struct TableView {
    pub columns: Seq<ColumnView>,
    pub rows: Seq<Seq<Cell>>,
}

impl TableView {
    /// What holds of every table: no column name occurs twice, and every row
    /// conforms to the columns.
    pub open spec fn wf(self) -> bool {
        &&& distinct_names(names_of(self.columns))
        &&& rows_fit(self.columns, self.rows)
    }

    /// The cells of the column at position `c`, from the first row to the last.
    pub open spec fn column_cells(self, c: int) -> Seq<Cell> {
        Seq::new(self.rows.len(), |r: int| self.rows[r][c])
    }
}

/// One named cell of a record.
#[derive(Debug)]
pub struct Field {
    pub name: String,
    pub value: Value,
}

/// The mathematical value of a [`Field`].
pub struct FieldView {
    pub name: Seq<char>,
    pub value: Cell,
}

impl View for Field {
    type V = FieldView;

    open spec fn view(&self) -> FieldView {
        FieldView { name: self.name@, value: self.value@ }
    }
}

/// A single row as a mapping from column name to value, in the order in
/// which the fields were given.
#[derive(Debug)]
pub struct Record {
    pub fields: Vec<Field>,
}

impl View for Record {
    type V = Seq<FieldView>;

    open spec fn view(&self) -> Seq<FieldView> {
        self.fields@.map_values(|f: Field| f@)
    }
}

/// The names of the fields of a record, in order.
pub open spec fn field_names(fields: Seq<FieldView>) -> Seq<Seq<char>> {
    fields.map_values(|f: FieldView| f.name)
}

/// What a record holds under `name`: the value of its first field of that
/// name.
pub open spec fn field_value(fields: Seq<FieldView>, name: Seq<char>) -> Option<Cell> {
    match position_of(field_names(fields), name) {
        Some(j) => Some(fields[j].value),
        None => None,
    }
}

/// Whether a record conforms to `columns`: it has as many fields as there are
/// columns, and under the name of each column a value that the column admits.
pub open spec fn record_fits(columns: Seq<ColumnView>, fields: Seq<FieldView>) -> bool {
    &&& fields.len() == columns.len()
    &&& forall|c: int|
        0 <= c < columns.len() ==> match field_value(fields, (#[trigger] columns[c]).name) {
            Some(cell) => columns[c].admits(cell),
            None => false,
        }
}

/// The row that a conforming record stands for: for each column, in the
/// order of the columns, what the record holds under the column's name.
pub open spec fn record_row(columns: Seq<ColumnView>, fields: Seq<FieldView>) -> Seq<Cell> {
    Seq::new(columns.len(), |c: int| field_value(fields, columns[c].name).unwrap())
}

impl Record {
    /// A record without fields.
    pub fn new() -> (record: Record)
        ensures
            record@ == Seq::<FieldView>::empty(),
    {
        Record { fields: Vec::new() }
    }

    /// The record with one more field at its end.
    pub fn with(self, name: &str, value: Value) -> (record: Record)
        ensures
            record@ == self@.push(FieldView { name: name@, value: value@ }),
    {
        let mut fields = self.fields;
        let ghost before = fields@;
        fields.push(Field { name: name.to_owned(), value });
        let record = Record { fields };
        assert(record@ =~= before.map_values(|f: Field| f@).push(
            FieldView { name: name@, value: value@ },
        ));
        record
    }

    /// What the record holds under `name`; `None` where it has no such field.
    pub fn get(&self, name: &str) -> (found: Option<&Value>)
        ensures
            match found {
                Some(value) => field_value(self@, name@) == Some(value@),
                None => field_value(self@, name@) is None,
            },
    {
        let ghost names = field_names(self@);
        let mut i: usize = 0;
        while i < self.fields.len()
            invariant
                i <= self.fields.len(),
                names == field_names(self@),
                forall|a: int| 0 <= a < i ==> names[a] != name@,
            decreases self.fields.len() - i,
        {
            if text_equal(self.fields[i].name.as_str(), name) {
                proof {
                    crate::schema::lemma_position_is(names, name@, i as int);
                }
                return Some(&self.fields[i].value);
            }
            i += 1;
        }
        proof {
            crate::schema::lemma_position_of(names, name@);
        }
        None
    }
}

/// A copy of a row.
pub fn copy_row(row: &Vec<Value>) -> (copy: Vec<Value>)
    ensures
        copy@ == row@,
{
    let mut copy: Vec<Value> = Vec::new();
    let mut i: usize = 0;
    while i < row.len()
        invariant
            i <= row.len(),
            copy@ == row@.take(i as int),
        decreases row.len() - i,
    {
        copy.push(row[i].clone());
        proof {
            assert(row@.take(i as int + 1) == row@.take(i as int).push(row@[i as int]));
        }
        i += 1;
    }
    proof {
        assert(row@.take(row.len() as int) == row@);
    }
    copy
}

/// Whether a row conforms to a schema.
pub fn fits(schema: &Schema, row: &Vec<Value>) -> (ok: bool)
    ensures
        ok == row_fits(schema@, row_view(row@)),
{
    if row.len() != schema.len() {
        return false;
    }
    let mut c: usize = 0;
    while c < row.len()
        invariant
            c <= row.len() == schema@.len(),
            forall|k: int| 0 <= k < c ==> (#[trigger] schema@[k]).admits(row_view(row@)[k]),
        decreases row.len() - c,
    {
        if !schema.column(c).admits(&row[c]) {
            assert(!schema@[c as int].admits(row_view(row@)[c as int]));
            return false;
        }
        c += 1;
    }
    true
}

/// A schema and an ordered sequence of rows that conform to it.
///
/// A table is never changed once it is made: every operator returns a new one.
#[derive(Debug)]
pub struct Table {
    schema: Schema,
    rows: Vec<Vec<Value>>,
}

impl View for Table {
    type V = TableView;

    closed spec fn view(&self) -> TableView {
        TableView { columns: self.schema@, rows: rows_view(self.rows@) }
    }
}

impl Table {
    /// What holds of every table.
    #[verifier::type_invariant]
    pub open spec fn inv(self) -> bool {
        self@.wf()
    }

    /// The table of `schema` whose rows are `rows`, in that order. Fails with
    /// `SchemaMismatch` exactly when one of the rows does not conform to the
    /// schema.
    pub fn new(schema: Schema, rows: Vec<Vec<Value>>) -> (made: Result<Table, EngineError>)
        ensures
            match made {
                Ok(table) => {
                    &&& table@.columns == schema@
                    &&& table@.rows == rows_view(rows@)
                    &&& table@.wf()
                },
                Err(e) => e == EngineError::SchemaMismatch && !rows_fit(
                    schema@,
                    rows_view(rows@),
                ),
            },
    {
        let mut r: usize = 0;
        while r < rows.len()
            invariant
                r <= rows.len(),
                forall|k: int| 0 <= k < r ==> row_fits(schema@, #[trigger] rows_view(rows@)[k]),
            decreases rows.len() - r,
        {
            if !fits(&schema, &rows[r]) {
                assert(!row_fits(schema@, rows_view(rows@)[r as int]));
                return Err(EngineError::SchemaMismatch);
            }
            r += 1;
        }
        proof {
            use_type_invariant(&schema);
        }
        Ok(Table { schema, rows })
    }

    /// The table of `schema` whose rows are `rows`, which conform to it.
    pub(crate) fn assemble(schema: Schema, rows: Vec<Vec<Value>>) -> (table: Table)
        requires
            rows_fit(schema@, rows_view(rows@)),
        ensures
            table@.columns == schema@,
            table@.rows == rows_view(rows@),
            table@.wf(),
    {
        proof {
            use_type_invariant(&schema);
        }
        Table { schema, rows }
    }

    /// The table of `schema` that holds one row for each record, in the order
    /// of the records. Fails with `SchemaMismatch` exactly when one of the
    /// records does not conform to the schema.
    pub fn from_records(schema: Schema, records: &Vec<Record>) -> (made: Result<
        Table,
        EngineError,
    >)
        ensures
            match made {
                Ok(table) => {
                    &&& table@.columns == schema@
                    &&& table@.rows.len() == records@.len()
                    &&& forall|i: int|
                        0 <= i < records@.len() ==> record_fits(schema@, (#[trigger] records@[i])@)
                            && table@.rows[i] == record_row(schema@, records@[i]@)
                    &&& table@.wf()
                },
                Err(e) => e == EngineError::SchemaMismatch && exists|i: int|
                    0 <= i < records@.len() && !record_fits(schema@, (#[trigger] records@[i])@),
            },
    {
        let mut rows: Vec<Vec<Value>> = Vec::new();
        let mut i: usize = 0;
        while i < records.len()
            invariant
                i <= records.len(),
                rows@.len() == i,
                forall|k: int|
                    0 <= k < i ==> record_fits(schema@, (#[trigger] records@[k])@) && row_view(
                        rows@[k]@,
                    ) == record_row(schema@, records@[k]@),
            decreases records.len() - i,
        {
            match row_of_record(&schema, &records[i]) {
                Some(row) => {
                    rows.push(row);
                },
                None => {
                    return Err(EngineError::SchemaMismatch);
                },
            }
            i += 1;
        }
        proof {
            assert forall|r: int| 0 <= r < rows@.len() implies row_fits(
                schema@,
                #[trigger] rows_view(rows@)[r],
            ) by {
                let fields = records@[r]@;
                let row = rows_view(rows@)[r];
                assert(row == record_row(schema@, fields));
                assert forall|c: int| 0 <= c < row.len() implies (#[trigger] schema@[c]).admits(
                    row[c],
                ) by {}
            }
        }
        Ok(Table::assemble(schema, rows))
    }

    /// The schema of the table.
    pub fn schema(&self) -> (schema: &Schema)
        ensures
            schema@ == self@.columns,
    {
        &self.schema
    }

    /// The number of rows.
    pub fn row_count(&self) -> (n: usize)
        ensures
            n == self@.rows.len(),
    {
        self.rows.len()
    }

    /// The number of columns.
    pub fn width(&self) -> (n: usize)
        ensures
            n == self@.columns.len(),
    {
        self.schema.len()
    }

    /// The rows of the table, in order.
    pub fn rows(&self) -> (rows: &Vec<Vec<Value>>)
        ensures
            rows_view(rows@) == self@.rows,
            rows_fit(self@.columns, self@.rows),
            self@.wf(),
    {
        proof {
            use_type_invariant(self);
        }
        &self.rows
    }

    /// The values of the column called `name`, from the first row to the
    /// last. Fails with `UnknownColumn` exactly when the schema has no column
    /// of that name.
    pub fn column(&self, name: &str) -> (cells: Result<Vec<Value>, EngineError>)
        ensures
            match cells {
                Ok(values) => match position_of(names_of(self@.columns), name@) {
                    Some(c) => row_view(values@) == self@.column_cells(c),
                    None => false,
                },
                Err(e) => e == EngineError::UnknownColumn && position_of(
                    names_of(self@.columns),
                    name@,
                ) is None,
            },
    {
        proof {
            use_type_invariant(self);
        }
        match self.schema.index_of(name) {
            None => Err(EngineError::UnknownColumn),
            Some(c) => {
                let mut values: Vec<Value> = Vec::new();
                let mut r: usize = 0;
                while r < self.rows.len()
                    invariant
                        r <= self.rows.len(),
                        c < self.schema@.len(),
                        rows_fit(self.schema@, rows_view(self.rows@)),
                        values@.len() == r,
                        forall|k: int|
                            0 <= k < r ==> (#[trigger] values@[k])@ == rows_view(
                                self.rows@,
                            )[k][c as int],
                    decreases self.rows.len() - r,
                {
                    assert(row_fits(self.schema@, rows_view(self.rows@)[r as int]));
                    values.push(self.rows[r][c].clone());
                    r += 1;
                }
                proof {
                    assert(row_view(values@) =~= self@.column_cells(c as int));
                }
                Ok(values)
            },
        }
    }

    /// The rows of the table as records, each with the names of the columns.
    pub fn records(&self) -> (records: Vec<Record>)
        ensures
            records@.len() == self@.rows.len(),
            forall|i: int, c: int|
                0 <= i < records@.len() && 0 <= c < self@.columns.len() ==> (
                #[trigger] records@[i]@[c]) == (FieldView {
                    name: self@.columns[c].name,
                    value: self@.rows[i][c],
                }),
            forall|i: int|
                0 <= i < records@.len() ==> (#[trigger] records@[i])@.len()
                    == self@.columns.len(),
    {
        proof {
            use_type_invariant(self);
        }
        let mut records: Vec<Record> = Vec::new();
        let mut r: usize = 0;
        while r < self.rows.len()
            invariant
                r <= self.rows.len(),
                rows_fit(self.schema@, rows_view(self.rows@)),
                records@.len() == r,
                forall|i: int, c: int|
                    0 <= i < r && 0 <= c < self.schema@.len() ==> (#[trigger] records@[i]@[c])
                        == (FieldView {
                        name: self.schema@[c].name,
                        value: rows_view(self.rows@)[i][c],
                    }),
                forall|i: int|
                    0 <= i < r ==> (#[trigger] records@[i])@.len() == self.schema@.len(),
            decreases self.rows.len() - r,
        {
            assert(row_fits(self.schema@, rows_view(self.rows@)[r as int]));
            let mut fields: Vec<Field> = Vec::new();
            let mut c: usize = 0;
            while c < self.schema.len()
                invariant
                    c <= self.schema@.len(),
                    r < self.rows.len(),
                    self.rows@[r as int]@.len() == self.schema@.len(),
                    fields@.len() == c,
                    forall|k: int|
                        0 <= k < c ==> (#[trigger] fields@[k])@ == (FieldView {
                            name: self.schema@[k].name,
                            value: self.rows@[r as int]@[k]@,
                        }),
                decreases self.schema@.len() - c,
            {
                fields.push(
                    Field {
                        name: self.schema.column(c).name.clone(),
                        value: self.rows[r][c].clone(),
                    },
                );
                c += 1;
            }
            records.push(Record { fields });
            r += 1;
        }
        records
    }
}

/// The row that `record` stands for under `schema`, or `None` where the
/// record does not conform to it.
fn row_of_record(schema: &Schema, record: &Record) -> (made: Option<Vec<Value>>)
    ensures
        match made {
            Some(row) => record_fits(schema@, record@) && row_view(row@) == record_row(
                schema@,
                record@,
            ),
            None => !record_fits(schema@, record@),
        },
{
    if record.fields.len() != schema.len() {
        return None;
    }
    let mut row: Vec<Value> = Vec::new();
    let mut c: usize = 0;
    while c < schema.len()
        invariant
            c <= schema@.len(),
            record@.len() == schema@.len(),
            row@.len() == c,
            forall|k: int|
                0 <= k < c ==> match field_value(record@, (#[trigger] schema@[k]).name) {
                    Some(cell) => schema@[k].admits(cell) && row@[k]@ == cell,
                    None => false,
                },
        decreases schema@.len() - c,
    {
        let column = schema.column(c);
        match record.get(column.name.as_str()) {
            Some(value) => {
                if !column.admits(value) {
                    assert(!record_fits(schema@, record@)) by {
                        let _ = schema@[c as int];
                    }
                    return None;
                }
                row.push(value.clone());
            },
            None => {
                assert(!record_fits(schema@, record@)) by {
                    let _ = schema@[c as int];
                }
                return None;
            },
        }
        c += 1;
    }
    proof {
        assert(row_view(row@) =~= record_row(schema@, record@));
    }
    Some(row)
}

} // verus!
