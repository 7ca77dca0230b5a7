//! Projection: a table whose columns are chosen, renamed or computed from
//! the columns of another, row by row.

use vstd::prelude::*;
use crate::error::EngineError;
use crate::expr::{agrees, Expr, Typed};
use crate::predicate::cell_at;
use crate::schema::{columns_view, distinct_names, names_of, position_of, Column, ColumnView, Schema};
use crate::table::{row_fits, row_view, rows_fit, rows_view, Table, TableView};
use crate::value::{Cell, Kind, Value};

verus! {

/// One column of a projection: the source column, the name of the column it
/// fills (that of the source where there is none), and the expression that
/// fills it (the cell of the source where there is none). Where there is an
/// expression, the source only lends its name.
#[derive(Debug)]
pub struct SelectItem {
    pub source: String,
    pub alias: Option<String>,
    pub derive: Option<Expr>,
}

impl SelectItem {
    /// The column `name` as it is.
    pub fn column(name: &str) -> (item: SelectItem)
        ensures
            item.source@ == name@,
            item.alias is None,
            item.derive is None,
    {
        SelectItem { source: name.to_owned(), alias: None, derive: None }
    }

    /// The column `name`, called `alias`.
    pub fn renamed(name: &str, alias: &str) -> (item: SelectItem)
        ensures
            item.source@ == name@,
            item.alias matches Some(a) && a@ == alias@,
            item.derive is None,
    {
        SelectItem { source: name.to_owned(), alias: Some(alias.to_owned()), derive: None }
    }

    /// A column called `name`, filled by `expr`.
    pub fn derived(name: &str, expr: Expr) -> (item: SelectItem)
        ensures
            item.source@ == name@,
            item.alias is None,
            item.derive == Some(expr),
    {
        SelectItem { source: name.to_owned(), alias: None, derive: Some(expr) }
    }

    /// The name of the column that the item fills.
    pub open spec fn name(self) -> Seq<char> {
        match self.alias {
            Some(alias) => alias@,
            None => self.source@,
        }
    }

    /// The type of the item over `columns`, or what is wrong with it.
    pub open spec fn typed(self, columns: Seq<ColumnView>) -> Result<Typed, EngineError> {
        match self.derive {
            Some(expr) => expr.typed(columns),
            None => Expr::Column(self.source).typed(columns),
        }
    }

    /// The cell that the item makes of `row`.
    pub open spec fn value(self, names: Seq<Seq<char>>, row: Seq<Cell>) -> Cell {
        match self.derive {
            Some(expr) => expr.value(names, row),
            None => cell_at(names, row, self.source@),
        }
    }

    /// The column that the item fills.
    pub open spec fn fills(self, columns: Seq<ColumnView>) -> ColumnView {
        let typed = self.typed(columns).unwrap();
        ColumnView { name: self.name(), kind: typed.kind, nullable: typed.nullable }
    }
}

/// The fault of the first faulty item, if there is one.
pub open spec fn items_fault(columns: Seq<ColumnView>, items: Seq<SelectItem>) -> Option<
    EngineError,
>
    decreases items.len(),
{
    if items.len() == 0 {
        None
    } else {
        match items_fault(columns, items.drop_last()) {
            Some(e) => Some(e),
            None => match items.last().typed(columns) {
                Ok(_) => None,
                Err(e) => Some(e),
            },
        }
    }
}

/// The schema of a projection: one column for each item, in their order.
pub open spec fn selected_columns(columns: Seq<ColumnView>, items: Seq<SelectItem>) -> Seq<
    ColumnView,
> {
    items.map_values(|item: SelectItem| item.fills(columns))
}

/// Why a projection cannot be made, if it cannot: the fault of the first
/// faulty item, else `SchemaMismatch` where two items fill a column of the
/// same name.
pub open spec fn select_fault(columns: Seq<ColumnView>, items: Seq<SelectItem>) -> Option<
    EngineError,
> {
    match items_fault(columns, items) {
        Some(e) => Some(e),
        None => if distinct_names(names_of(selected_columns(columns, items))) {
            None
        } else {
            Some(EngineError::SchemaMismatch)
        },
    }
}

/// The row that a projection makes of `row`: one cell for each item.
pub open spec fn selected_row(names: Seq<Seq<char>>, row: Seq<Cell>, items: Seq<SelectItem>) -> Seq<
    Cell,
> {
    items.map_values(|item: SelectItem| item.value(names, row))
}

/// The rows of a projection: one for each row of the table, in their order.
pub open spec fn selected_rows(table: TableView, items: Seq<SelectItem>) -> Seq<Seq<Cell>> {
    table.rows.map_values(|row: Seq<Cell>| selected_row(names_of(table.columns), row, items))
}

/// A fault among the first items is the fault of the whole list.
proof fn lemma_item_fault_stays(columns: Seq<ColumnView>, items: Seq<SelectItem>, n: int)
    requires
        0 <= n <= items.len(),
        items_fault(columns, items.take(n)) is Some,
    ensures
        items_fault(columns, items) == items_fault(columns, items.take(n)),
    decreases items.len() - n,
{
    if n < items.len() {
        assert(items.take(n + 1).drop_last() == items.take(n));
        lemma_item_fault_stays(columns, items, n + 1);
    } else {
        assert(items.take(n) == items);
    }
}

/// Where the list has no fault, every item of it has a type.
proof fn lemma_items_typed(columns: Seq<ColumnView>, items: Seq<SelectItem>, i: int)
    requires
        items_fault(columns, items) is None,
        0 <= i < items.len(),
    ensures
        items[i].typed(columns) is Ok,
    decreases items.len(),
{
    if i < items.len() - 1 {
        lemma_items_typed(columns, items.drop_last(), i);
    }
}

/// The row that a projection makes of a conforming row fits its schema.
proof fn lemma_selected_fits(columns: Seq<ColumnView>, row: Seq<Cell>, items: Seq<SelectItem>)
    requires
        items_fault(columns, items) is None,
        row_fits(columns, row),
    ensures
        row_fits(selected_columns(columns, items), selected_row(names_of(columns), row, items)),
{
    let made = selected_row(names_of(columns), row, items);
    let wanted = selected_columns(columns, items);
    assert forall|c: int| 0 <= c < made.len() implies (#[trigger] wanted[c]).admits(made[c]) by {
        lemma_items_typed(columns, items, c);
        let item = items[c];
        match item.derive {
            Some(expr) => {
                expr.lemma_value_typed(columns, row);
            },
            None => {
                Expr::Column(item.source).lemma_value_typed(columns, row);
            },
        }
    }
}

fn check_item(item: &SelectItem, schema: &Schema) -> (checked: Result<(Kind, bool), EngineError>)
    ensures
        agrees(checked, item.typed(schema@)),
{
    match &item.derive {
        Some(expr) => expr.check(schema),
        None => match schema.index_of(item.source.as_str()) {
            Some(c) => Ok((schema.column(c).kind, schema.column(c).nullable)),
            None => Err(EngineError::UnknownColumn),
        },
    }
}

fn item_value(item: &SelectItem, schema: &Schema, row: &Vec<Value>) -> (out: Value)
    requires
        item.typed(schema@) is Ok,
        row@.len() == schema@.len(),
    ensures
        out@ == item.value(names_of(schema@), row_view(row@)),
{
    match &item.derive {
        Some(expr) => expr.evaluate(schema, row),
        None => {
            let c = schema.index_of(item.source.as_str()).unwrap();
            row[c].clone()
        },
    }
}

fn selected_schema(schema: &Schema, items: &Vec<SelectItem>) -> (out: Result<Schema, EngineError>)
    ensures
        match out {
            Ok(made) => select_fault(schema@, items@) is None && made@ == selected_columns(
                schema@,
                items@,
            ),
            Err(e) => select_fault(schema@, items@) == Some(e),
        },
{
    let ghost wanted = selected_columns(schema@, items@);
    let mut columns: Vec<Column> = Vec::new();
    let mut i: usize = 0;
    while i < items.len()
        invariant
            i <= items.len(),
            wanted == selected_columns(schema@, items@),
            items_fault(schema@, items@.take(i as int)) is None,
            columns@.len() == i,
            forall|k: int| 0 <= k < i ==> (#[trigger] columns@[k])@ == wanted[k],
        decreases items.len() - i,
    {
        proof {
            assert(items@.take(i as int + 1).drop_last() == items@.take(i as int));
            assert(items@.take(i as int + 1).last() == items@[i as int]);
        }
        let item = &items[i];
        match check_item(item, schema) {
            Err(e) => {
                proof {
                    lemma_item_fault_stays(schema@, items@, i as int + 1);
                }
                return Err(e);
            },
            Ok((kind, nullable)) => {
                let name = match &item.alias {
                    Some(alias) => alias.clone(),
                    None => item.source.clone(),
                };
                columns.push(Column { name, kind, nullable });
            },
        }
        i += 1;
    }
    proof {
        assert(items@.take(items.len() as int) == items@);
        assert(columns_view(columns@) =~= wanted);
    }
    Schema::new(columns)
}

/// The projection of `table` onto `items`: a table with one column for each
/// item and one row for each row of `table`, in the same order. Fails,
/// before any row is read, exactly when `select_fault` names a fault: an
/// item that names a column that the schema lacks (`UnknownColumn`), an
/// expression applied to a value of the wrong kind (`TypeMismatch`), or two
/// items that fill a column of the same name (`SchemaMismatch`).
pub fn select(table: &Table, items: &Vec<SelectItem>) -> (out: Result<Table, EngineError>)
    ensures
        match out {
            Ok(selected) => {
                &&& select_fault(table@.columns, items@) is None
                &&& selected@.columns == selected_columns(table@.columns, items@)
                &&& selected@.rows == selected_rows(table@, items@)
                &&& selected@.rows.len() == table@.rows.len()
                &&& selected@.wf()
            },
            Err(e) => select_fault(table@.columns, items@) == Some(e),
        },
{
    let schema = table.schema();
    let made = match selected_schema(schema, items) {
        Ok(made) => made,
        Err(e) => {
            return Err(e);
        },
    };
    let rows = table.rows();
    let ghost all = table@.rows;
    let ghost names = names_of(table@.columns);
    let mut out: Vec<Vec<Value>> = Vec::new();
    let mut r: usize = 0;
    while r < rows.len()
        invariant
            r <= rows.len(),
            all == rows_view(rows@),
            all == table@.rows,
            names == names_of(table@.columns),
            schema@ == table@.columns,
            rows_fit(schema@, all),
            items_fault(schema@, items@) is None,
            made@ == selected_columns(schema@, items@),
            out@.len() == r,
            forall|k: int|
                0 <= k < r ==> row_view((#[trigger] out@[k])@) == selected_row(
                    names,
                    all[k],
                    items@,
                ),
            rows_fit(made@, rows_view(out@)),
        decreases rows.len() - r,
    {
        let row = &rows[r];
        let ghost rv = all[r as int];
        let ghost before = rows_view(out@);
        proof {
            assert(rv == row_view(row@));
            assert(row_fits(schema@, rv));
        }
        let mut cells: Vec<Value> = Vec::new();
        let mut i: usize = 0;
        while i < items.len()
            invariant
                i <= items.len(),
                rv == row_view(row@),
                row@.len() == schema@.len(),
                names == names_of(schema@),
                items_fault(schema@, items@) is None,
                cells@.len() == i,
                forall|k: int| 0 <= k < i ==> (#[trigger] cells@[k])@ == items@[k].value(names, rv),
            decreases items.len() - i,
        {
            proof {
                lemma_items_typed(schema@, items@, i as int);
            }
            cells.push(item_value(&items[i], schema, row));
            i += 1;
        }
        proof {
            assert(row_view(cells@) =~= selected_row(names, rv, items@));
            lemma_selected_fits(schema@, rv, items@);
        }
        out.push(cells);
        proof {
            assert forall|k: int| 0 <= k < out@.len() implies row_fits(
                made@,
                #[trigger] rows_view(out@)[k],
            ) by {
                if k < r {
                    assert(rows_view(out@)[k] == before[k]);
                }
            }
        }
        r += 1;
    }
    proof {
        assert(rows_view(out@) =~= selected_rows(table@, items@));
    }
    Ok(Table::assemble(made, out))
}

} // verus!
