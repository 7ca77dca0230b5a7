//! Grouping and aggregation.
//!
//! Rows are partitioned by the cells of the grouping columns; here a null is
//! the same as a null, so the rows with a null key form a group of their own.
//! Each group gives one row: its key, then one cell for each aggregate. The
//! groups come in the order in which their keys first occur in the table.
//!
//! Without grouping columns the whole table is one group, even where it has
//! no rows.

use vstd::prelude::*;
use crate::distinct::{
    all_known, dedup_rows, first_occurrences, locate, positions_of, project, same_key,
};
use crate::error::EngineError;
use crate::number::{mean, quotient, wrap, wrap64};
use crate::schema::{columns_view, distinct_names, names_of, position_of, Column, ColumnView, Schema};
use crate::table::{row_fits, row_view, rows_fit, rows_view, Table, TableView};
use crate::value::{cell_rel, Cell, Kind, Rel, Value};

verus! {

/// An aggregate function.
#[derive(Clone, Copy, Debug, PartialEq, Eq, Structural)]
pub enum AggregateFn {
    /// The sum of the values that are not null; 0 where there are none.
    Sum,
    /// The number of rows of the group, whatever their cells hold (2^63 - 1
    /// where there are more than that).
    Count,
    /// The sum of the values that are not null, divided by their number;
    /// null where there are none.
    Average,
    /// The least value that is not null; null where there is none.
    Min,
    /// The greatest value that is not null; null where there is none.
    Max,
}

/// One aggregate of a grouping: the function, the column whose cells it
/// reads, and the name of the column it fills.
#[derive(Debug)]
pub struct Aggregate {
    pub function: AggregateFn,
    pub column: String,
    pub alias: String,
}

/// An aggregate whose column has been found.
#[derive(Clone, Copy, Debug)]
pub struct AggregateAt {
    pub function: AggregateFn,
    pub column: usize,
}

impl Aggregate {
    pub fn new(function: AggregateFn, column: &str, alias: &str) -> (aggregate: Aggregate)
        ensures
            aggregate.function == function,
            aggregate.column@ == column@,
            aggregate.alias@ == alias@,
    {
        Aggregate { function, column: column.to_owned(), alias: alias.to_owned() }
    }
}

impl AggregateFn {
    /// Whether the function adds values up, which only integers allow.
    pub open spec fn adds(self) -> bool {
        self == AggregateFn::Sum || self == AggregateFn::Average
    }

    /// Whether the function has no value on a group without rows.
    pub open spec fn needs_rows(self) -> bool {
        self == AggregateFn::Average || self == AggregateFn::Min || self == AggregateFn::Max
    }
}

/// The sum of the integers among `cells`.
pub open spec fn total(cells: Seq<Cell>) -> int
    decreases cells.len(),
{
    if cells.len() == 0 {
        0
    } else {
        total(cells.drop_last()) + match cells.last() {
            Cell::Int(v) => v,
            _ => 0,
        }
    }
}

/// How many of `cells` are not null.
pub open spec fn known(cells: Seq<Cell>) -> nat
    decreases cells.len(),
{
    if cells.len() == 0 {
        0
    } else {
        known(cells.drop_last()) + if cells.last() is Null {
            0nat
        } else {
            1nat
        }
    }
}

/// The one of two cells that `keep` prefers: a null gives way to a value, and
/// of two values the later wins only where it stands to the earlier as `keep`.
pub open spec fn preferred(best: Cell, next: Cell, keep: Rel) -> Cell {
    if next is Null {
        best
    } else if best is Null {
        next
    } else if cell_rel(next, best) == Some(keep) {
        next
    } else {
        best
    }
}

/// The cell that comes out ahead of all of `cells`: the least of the values
/// where `keep` is `Before`, the greatest where it is `After`.
pub open spec fn extreme(cells: Seq<Cell>, keep: Rel) -> Cell
    decreases cells.len(),
{
    if cells.len() == 0 {
        Cell::Null
    } else {
        preferred(extreme(cells.drop_last(), keep), cells.last(), keep)
    }
}

/// What an aggregate function makes of the cells of one group.
pub open spec fn aggregate_value(function: AggregateFn, cells: Seq<Cell>) -> Cell {
    match function {
        AggregateFn::Sum => Cell::Int(wrap64(total(cells))),
        AggregateFn::Count => Cell::Int(
            if cells.len() <= i64::MAX {
                cells.len() as int
            } else {
                i64::MAX as int
            },
        ),
        AggregateFn::Average => if known(cells) == 0 {
            Cell::Null
        } else {
            Cell::Int(mean(total(cells), known(cells) as int))
        },
        AggregateFn::Min => extreme(cells, Rel::Before),
        AggregateFn::Max => extreme(cells, Rel::After),
    }
}

/// The test for the rows whose key is `key`.
pub open spec fn has_key(at: Seq<usize>, key: Seq<Cell>) -> spec_fn(Seq<Cell>) -> bool {
    |row: Seq<Cell>| project(row, at) == key
}

/// The cells of the column at `c`, one of each row.
pub open spec fn column_of(rows: Seq<Seq<Cell>>, c: int) -> Seq<Cell> {
    rows.map_values(|row: Seq<Cell>| row[c])
}

/// The cells that an aggregate reads for the group of `key`: those of its
/// column in the rows that have the key, in the order of the rows.
pub open spec fn group_cells(rows: Seq<Seq<Cell>>, at: Seq<usize>, key: Seq<Cell>, c: int) -> Seq<
    Cell,
> {
    column_of(rows.filter(has_key(at, key)), c)
}

/// The row that a group gives: its key, then the value of each aggregate.
pub open spec fn group_row(
    rows: Seq<Seq<Cell>>,
    at: Seq<usize>,
    key: Seq<Cell>,
    aggregates: Seq<AggregateAt>,
) -> Seq<Cell> {
    key + aggregates.map_values(
        |a: AggregateAt| aggregate_value(a.function, group_cells(rows, at, key, a.column as int)),
    )
}

/// The rows of a grouping: one for each key, in the order in which the keys
/// first occur. Without grouping columns there is one row, for the one group
/// that is the whole table.
pub open spec fn grouped_rows(rows: Seq<Seq<Cell>>, at: Seq<usize>, aggregates: Seq<AggregateAt>) -> Seq<
    Seq<Cell>,
> {
    if at.len() == 0 && rows.len() == 0 {
        seq![group_row(rows, at, Seq::empty(), aggregates)]
    } else {
        first_occurrences(rows, at).map_values(
            |first: Seq<Cell>| group_row(rows, at, project(first, at), aggregates),
        )
    }
}

/// What is wrong with one aggregate: `UnknownColumn` where the schema lacks
/// its column, `TypeMismatch` where it adds up a column that is not of
/// integers.
pub open spec fn aggregate_fault(columns: Seq<ColumnView>, aggregate: Aggregate) -> Option<
    EngineError,
> {
    match position_of(names_of(columns), aggregate.column@) {
        None => Some(EngineError::UnknownColumn),
        Some(c) => if aggregate.function.adds() && columns[c].kind != Kind::Int {
            Some(EngineError::TypeMismatch)
        } else {
            None
        },
    }
}

/// The fault of the first faulty aggregate, if there is one.
pub open spec fn aggregates_fault(columns: Seq<ColumnView>, aggregates: Seq<Aggregate>) -> Option<
    EngineError,
>
    decreases aggregates.len(),
{
    if aggregates.len() == 0 {
        None
    } else {
        match aggregates_fault(columns, aggregates.drop_last()) {
            Some(e) => Some(e),
            None => aggregate_fault(columns, aggregates.last()),
        }
    }
}

/// Where the column of an aggregate stands.
pub open spec fn aggregate_at(columns: Seq<ColumnView>, aggregate: Aggregate) -> AggregateAt {
    AggregateAt {
        function: aggregate.function,
        column: position_of(names_of(columns), aggregate.column@).unwrap() as usize,
    }
}

/// Where the columns of the aggregates stand.
pub open spec fn aggregates_at(columns: Seq<ColumnView>, aggregates: Seq<Aggregate>) -> Seq<
    AggregateAt,
> {
    aggregates.map_values(|a: Aggregate| aggregate_at(columns, a))
}

/// The column that an aggregate fills: it has the name of the alias; sums,
/// counts and averages are integers, a minimum or maximum is of the kind of
/// the column read; a sum or a count is never null.
pub open spec fn aggregate_column(columns: Seq<ColumnView>, aggregate: Aggregate) -> ColumnView {
    let read = columns[aggregate_at(columns, aggregate).column as int];
    ColumnView {
        name: aggregate.alias@,
        kind: match aggregate.function {
            AggregateFn::Min | AggregateFn::Max => read.kind,
            _ => Kind::Int,
        },
        nullable: aggregate.function.needs_rows(),
    }
}

/// The schema of a grouping: the grouping columns as they are, then one
/// column for each aggregate.
pub open spec fn grouped_columns(
    columns: Seq<ColumnView>,
    by: Seq<String>,
    aggregates: Seq<Aggregate>,
) -> Seq<ColumnView> {
    positions_of(columns, by).map_values(|c: usize| columns[c as int]) + aggregates.map_values(
        |a: Aggregate| aggregate_column(columns, a),
    )
}

/// Whether one of the aggregates has no value on a group without rows.
pub open spec fn some_needs_rows(aggregates: Seq<Aggregate>) -> bool {
    exists|i: int| 0 <= i < aggregates.len() && (#[trigger] aggregates[i]).function.needs_rows()
}

/// Why a table cannot be grouped, if it cannot. In this order: a grouping
/// column that the schema lacks (`UnknownColumn`); the fault of the first
/// faulty aggregate; two columns of the result with one name
/// (`SchemaMismatch`); an average, minimum or maximum over the whole of a
/// table without rows (`AggregateOnEmptyGroup`).
pub open spec fn group_fault(table: TableView, by: Seq<String>, aggregates: Seq<Aggregate>) -> Option<
    EngineError,
> {
    if !all_known(table.columns, by) {
        Some(EngineError::UnknownColumn)
    } else {
        match aggregates_fault(table.columns, aggregates) {
            Some(e) => Some(e),
            None => if !distinct_names(names_of(grouped_columns(table.columns, by, aggregates))) {
                Some(EngineError::SchemaMismatch)
            } else if by.len() == 0 && table.rows.len() == 0 && some_needs_rows(aggregates) {
                Some(EngineError::AggregateOnEmptyGroup)
            } else {
                None
            },
        }
    }
}

/// A fault among the first aggregates is the fault of the whole list.
proof fn lemma_aggregate_fault_stays(columns: Seq<ColumnView>, aggregates: Seq<Aggregate>, n: int)
    requires
        0 <= n <= aggregates.len(),
        aggregates_fault(columns, aggregates.take(n)) is Some,
    ensures
        aggregates_fault(columns, aggregates) == aggregates_fault(columns, aggregates.take(n)),
    decreases aggregates.len() - n,
{
    if n < aggregates.len() {
        assert(aggregates.take(n + 1).drop_last() == aggregates.take(n));
        lemma_aggregate_fault_stays(columns, aggregates, n + 1);
    } else {
        assert(aggregates.take(n) == aggregates);
    }
}

fn resolve_aggregates(schema: &Schema, aggregates: &Vec<Aggregate>) -> (out: Result<
    Vec<AggregateAt>,
    EngineError,
>)
    ensures
        match out {
            Ok(found) => {
                &&& aggregates_fault(schema@, aggregates@) is None
                &&& found@ == aggregates_at(schema@, aggregates@)
                &&& forall|k: int|
                    0 <= k < found@.len() ==> (#[trigger] found@[k]).column < schema@.len()
                &&& forall|k: int|
                    0 <= k < found@.len() ==> ((#[trigger] found@[k]).function.adds()
                        ==> schema@[found@[k].column as int].kind == Kind::Int)
            },
            Err(e) => aggregates_fault(schema@, aggregates@) == Some(e),
        },
{
    let mut found: Vec<AggregateAt> = Vec::new();
    let mut i: usize = 0;
    while i < aggregates.len()
        invariant
            i <= aggregates.len(),
            aggregates_fault(schema@, aggregates@.take(i as int)) is None,
            found@ == aggregates_at(schema@, aggregates@.take(i as int)),
            forall|k: int| 0 <= k < found@.len() ==> (#[trigger] found@[k]).column < schema@.len(),
            forall|k: int|
                0 <= k < found@.len() ==> ((#[trigger] found@[k]).function.adds()
                    ==> schema@[found@[k].column as int].kind == Kind::Int),
        decreases aggregates.len() - i,
    {
        proof {
            assert(aggregates@.take(i as int + 1).drop_last() == aggregates@.take(i as int));
            assert(aggregates@.take(i as int + 1).last() == aggregates@[i as int]);
        }
        let aggregate = &aggregates[i];
        match schema.index_of(aggregate.column.as_str()) {
            None => {
                proof {
                    lemma_aggregate_fault_stays(schema@, aggregates@, i as int + 1);
                }
                return Err(EngineError::UnknownColumn);
            },
            Some(c) => {
                let adds = match aggregate.function {
                    AggregateFn::Sum | AggregateFn::Average => true,
                    _ => false,
                };
                if adds && schema.column(c).kind != Kind::Int {
                    proof {
                        lemma_aggregate_fault_stays(schema@, aggregates@, i as int + 1);
                    }
                    return Err(EngineError::TypeMismatch);
                }
                found.push(AggregateAt { function: aggregate.function, column: c });
                proof {
                    assert(found@ =~= aggregates_at(schema@, aggregates@.take(i as int + 1)));
                }
            },
        }
        i += 1;
    }
    proof {
        assert(aggregates@.take(aggregates.len() as int) == aggregates@);
    }
    Ok(found)
}

fn grouped_schema(schema: &Schema, by: &Vec<String>, at: &Vec<usize>, aggregates: &Vec<Aggregate>) -> (out:
    Result<Schema, EngineError>)
    requires
        all_known(schema@, by@),
        at@ == positions_of(schema@, by@),
        forall|k: int| 0 <= k < at@.len() ==> (#[trigger] at@[k]) < schema@.len(),
        aggregates_fault(schema@, aggregates@) is None,
    ensures
        match out {
            Ok(made) => made@ == grouped_columns(schema@, by@, aggregates@) && distinct_names(
                names_of(made@),
            ),
            Err(e) => e == EngineError::SchemaMismatch && !distinct_names(
                names_of(grouped_columns(schema@, by@, aggregates@)),
            ),
        },
{
    let ghost wanted = grouped_columns(schema@, by@, aggregates@);
    let mut columns: Vec<Column> = Vec::new();
    let mut k: usize = 0;
    while k < at.len()
        invariant
            k <= at.len(),
            at@ == positions_of(schema@, by@),
            wanted == grouped_columns(schema@, by@, aggregates@),
            forall|k: int| 0 <= k < at@.len() ==> (#[trigger] at@[k]) < schema@.len(),
            columns@.len() == k,
            forall|j: int| 0 <= j < k ==> (#[trigger] columns@[j])@ == wanted[j],
        decreases at.len() - k,
    {
        columns.push(schema.column(at[k]).clone());
        k += 1;
    }
    let mut i: usize = 0;
    while i < aggregates.len()
        invariant
            i <= aggregates.len(),
            at@.len() == by@.len(),
            wanted == grouped_columns(schema@, by@, aggregates@),
            aggregates_fault(schema@, aggregates@) is None,
            columns@.len() == at@.len() + i,
            forall|j: int| 0 <= j < columns@.len() ==> (#[trigger] columns@[j])@ == wanted[j],
        decreases aggregates.len() - i,
    {
        let aggregate = &aggregates[i];
        proof {
            lemma_no_fault_each(schema@, aggregates@, i as int);
        }
        let c = schema.index_of(aggregate.column.as_str()).unwrap();
        let kind = match aggregate.function {
            AggregateFn::Min | AggregateFn::Max => schema.column(c).kind,
            _ => Kind::Int,
        };
        let nullable = match aggregate.function {
            AggregateFn::Sum | AggregateFn::Count => false,
            _ => true,
        };
        columns.push(Column { name: aggregate.alias.clone(), kind, nullable });
        proof {
            assert(wanted[at@.len() + i] == aggregate_column(schema@, aggregates@[i as int]));
        }
        i += 1;
    }
    proof {
        assert(columns_view(columns@) =~= wanted);
    }
    Schema::new(columns)
}

/// Where the list has no fault, no aggregate of it has one.
proof fn lemma_no_fault_each(columns: Seq<ColumnView>, aggregates: Seq<Aggregate>, i: int)
    requires
        aggregates_fault(columns, aggregates) is None,
        0 <= i < aggregates.len(),
    ensures
        aggregate_fault(columns, aggregates[i]) is None,
    decreases aggregates.len(),
{
    if i < aggregates.len() - 1 {
        lemma_no_fault_each(columns, aggregates.drop_last(), i);
    }
}

/// The cells of column `c` in the rows that have the key of `like`.
fn cells_of_group(rows: &Vec<Vec<Value>>, like: &Vec<Value>, at: &Vec<usize>, c: usize) -> (cells:
    Vec<Value>)
    requires
        forall|r: int, k: int|
            0 <= r < rows@.len() && 0 <= k < at@.len() ==> (#[trigger] at@[k]) < (
            #[trigger] rows@[r])@.len(),
        forall|k: int| 0 <= k < at@.len() ==> (#[trigger] at@[k]) < like@.len(),
        forall|r: int| 0 <= r < rows@.len() ==> c < (#[trigger] rows@[r])@.len(),
    ensures
        row_view(cells@) == group_cells(
            rows_view(rows@),
            at@,
            project(row_view(like@), at@),
            c as int,
        ),
{
    let ghost all = rows_view(rows@);
    let ghost key = project(row_view(like@), at@);
    let ghost test = has_key(at@, key);
    let mut cells: Vec<Value> = Vec::new();
    let mut i: usize = 0;
    while i < rows.len()
        invariant
            i <= rows.len(),
            all == rows_view(rows@),
            key == project(row_view(like@), at@),
            test == has_key(at@, key),
            forall|r: int, k: int|
                0 <= r < rows@.len() && 0 <= k < at@.len() ==> (#[trigger] at@[k]) < (
                #[trigger] rows@[r])@.len(),
            forall|k: int| 0 <= k < at@.len() ==> (#[trigger] at@[k]) < like@.len(),
            forall|r: int| 0 <= r < rows@.len() ==> c < (#[trigger] rows@[r])@.len(),
            row_view(cells@) == column_of(all.take(i as int).filter(test), c as int),
        decreases rows.len() - i,
    {
        let ghost before = row_view(cells@);
        proof {
            let row = all[i as int];
            assert(row == row_view(rows@[i as int]@));
            assert(all.take(i as int + 1) == all.take(i as int).push(row));
            all.take(i as int).lemma_filter_push(row, test);
        }
        if same_key(&rows[i], like, at) {
            cells.push(rows[i][c].clone());
            proof {
                assert(row_view(cells@) =~= before.push(all[i as int][c as int]));
                assert(column_of(all.take(i as int).filter(test).push(all[i as int]), c as int)
                    =~= before.push(all[i as int][c as int]));
            }
        }
        i += 1;
    }
    proof {
        assert(all.take(rows.len() as int) == all);
    }
    cells
}

/// The sum of the integers among `cells`, and the number of cells that are
/// not null.
fn sum_and_count(cells: &Vec<Value>) -> (out: (i128, usize))
    ensures
        out.0 == total(row_view(cells@)),
        out.1 == known(row_view(cells@)),
        out.1 <= cells@.len(),
        -0x8000_0000_0000_0000 * out.1 <= out.0 <= 0x7fff_ffff_ffff_ffff * out.1,
{
    let ghost all = row_view(cells@);
    let mut sum: i128 = 0;
    let mut n: usize = 0;
    let mut i: usize = 0;
    while i < cells.len()
        invariant
            i <= cells.len(),
            all == row_view(cells@),
            sum == total(all.take(i as int)),
            n == known(all.take(i as int)),
            n <= i,
            -0x8000_0000_0000_0000 * n <= sum <= 0x7fff_ffff_ffff_ffff * n,
        decreases cells.len() - i,
    {
        proof {
            assert(all.take(i as int + 1).drop_last() == all.take(i as int));
            assert(all.take(i as int + 1).last() == cells@[i as int]@);
        }
        match &cells[i] {
            Value::Null => {},
            Value::Int(v) => {
                sum = sum + (*v as i128);
                n += 1;
            },
            _ => {
                n += 1;
            },
        }
        i += 1;
    }
    proof {
        assert(all.take(cells.len() as int) == all);
    }
    (sum, n)
}

/// The cell that comes out ahead of all of `cells`.
fn extreme_of(cells: &Vec<Value>, keep: Rel) -> (best: Value)
    ensures
        best@ == extreme(row_view(cells@), keep),
{
    let ghost all = row_view(cells@);
    let mut best = Value::Null;
    let mut i: usize = 0;
    while i < cells.len()
        invariant
            i <= cells.len(),
            all == row_view(cells@),
            best@ == extreme(all.take(i as int), keep),
        decreases cells.len() - i,
    {
        proof {
            assert(all.take(i as int + 1).drop_last() == all.take(i as int));
            assert(all.take(i as int + 1).last() == cells@[i as int]@);
        }
        let next = &cells[i];
        if !next.is_null() {
            if best.is_null() {
                best = next.clone();
            } else {
                let wins = match next.relate(&best) {
                    Some(rel) => rel == keep,
                    None => false,
                };
                if wins {
                    best = next.clone();
                }
            }
        }
        i += 1;
    }
    proof {
        assert(all.take(cells.len() as int) == all);
    }
    best
}

/// What an aggregate function makes of the cells of one group.
pub fn aggregate(function: AggregateFn, cells: &Vec<Value>) -> (value: Value)
    ensures
        value@ == aggregate_value(function, row_view(cells@)),
{
    match function {
        AggregateFn::Sum => {
            let (sum, _) = sum_and_count(cells);
            Value::Int(wrap(sum))
        },
        AggregateFn::Count => {
            let n: usize = cells.len();
            if n as u128 <= 0x7fff_ffff_ffff_ffff {
                Value::Int(n as i64)
            } else {
                Value::Int(i64::MAX)
            }
        },
        AggregateFn::Average => {
            let (sum, n) = sum_and_count(cells);
            if n == 0 {
                Value::Null
            } else {
                Value::Int(quotient(sum, n))
            }
        },
        AggregateFn::Min => extreme_of(cells, Rel::Before),
        AggregateFn::Max => extreme_of(cells, Rel::After),
    }
}

/// The least or greatest of some cells is null or one of them.
pub proof fn lemma_extreme_among(cells: Seq<Cell>, keep: Rel)
    ensures
        extreme(cells, keep) is Null || exists|i: int|
            0 <= i < cells.len() && cells[i] == extreme(cells, keep),
    decreases cells.len(),
{
    if cells.len() > 0 {
        let init = cells.drop_last();
        lemma_extreme_among(init, keep);
        let best = extreme(init, keep);
        let out = extreme(cells, keep);
        if !(out is Null) {
            if out == cells.last() {
                assert(cells[cells.len() - 1] == out);
            } else {
                assert(out == best);
                let i = choose|i: int| 0 <= i < init.len() && init[i] == best;
                assert(cells[i] == out);
            }
        }
    }
}

/// The least of some cells of one kind does not come after any of them,
/// and the greatest does not come before any of them; nulls apart. It is
/// null only where all of the cells are.
pub proof fn lemma_extreme_bounds(cells: Seq<Cell>, keep: Rel, kind: Kind)
    requires
        keep != Rel::Same,
        forall|i: int|
            0 <= i < cells.len() ==> (#[trigger] cells[i]) is Null || cells[i].kind() == Some(
                kind,
            ),
    ensures
        extreme(cells, keep) is Null <==> forall|i: int|
            0 <= i < cells.len() ==> (#[trigger] cells[i]) is Null,
        forall|i: int|
            0 <= i < cells.len() && !((#[trigger] cells[i]) is Null) ==> cell_rel(
                extreme(cells, keep),
                cells[i],
            ) == Some(keep) || extreme(cells, keep) == cells[i],
    decreases cells.len(),
{
    if cells.len() > 0 {
        let init = cells.drop_last();
        let last = cells.last();
        assert(last == cells[cells.len() - 1]);
        assert forall|i: int| 0 <= i < init.len() implies (#[trigger] init[i]) is Null
            || init[i].kind() == Some(kind) by {
            assert(init[i] == cells[i]);
        }
        lemma_extreme_bounds(init, keep, kind);
        lemma_extreme_among(init, keep);
        let best = extreme(init, keep);
        let out = extreme(cells, keep);
        let key = crate::order::SortAt { column: 0, descending: false, nulls_first: false };
        if out is Null {
            assert forall|i: int| 0 <= i < cells.len() implies (#[trigger] cells[i]) is Null by {
                if i < init.len() {
                    assert(init[i] == cells[i]);
                }
            }
        } else {
            if !(best is Null) {
                assert(best.kind() == Some(kind));
            }
        }
        assert forall|i: int| 0 <= i < cells.len() && !((#[trigger] cells[i]) is Null) implies cell_rel(
            out,
            cells[i],
        ) == Some(keep) || out == cells[i] by {
            let c = cells[i];
            if i < init.len() {
                assert(init[i] == c);
                assert(!(best is Null));
                if out != best {
                    crate::order::lemma_placed_converse(last, best, key);
                    crate::order::lemma_placed_converse(best, c, key);
                    crate::order::lemma_placed_converse(last, c, key);
                    if best != c {
                        if keep == Rel::Before {
                            crate::order::lemma_placed_transitive(last, best, c, key);
                        } else {
                            crate::order::lemma_placed_transitive(c, best, last, key);
                        }
                    }
                }
            } else {
                if out != c {
                    assert(out == best);
                    crate::order::lemma_placed_converse(last, best, key);
                }
            }
        }
    }
}

/// The row of a group fits the schema of the grouping.
proof fn lemma_group_row_fits(
    columns: Seq<ColumnView>,
    rows: Seq<Seq<Cell>>,
    by: Seq<String>,
    aggregates: Seq<Aggregate>,
    first: Seq<Cell>,
)
    requires
        rows_fit(columns, rows),
        all_known(columns, by),
        aggregates_fault(columns, aggregates) is None,
        row_fits(columns, first) || by.len() == 0,
    ensures
        row_fits(
            grouped_columns(columns, by, aggregates),
            group_row(
                rows,
                positions_of(columns, by),
                project(first, positions_of(columns, by)),
                aggregates_at(columns, aggregates),
            ),
        ),
{
    let at = positions_of(columns, by);
    let key = project(first, at);
    let found = aggregates_at(columns, aggregates);
    let wanted = grouped_columns(columns, by, aggregates);
    let row = group_row(rows, at, key, found);
    assert forall|c: int| 0 <= c < row.len() implies (#[trigger] wanted[c]).admits(row[c]) by {
        if c < at.len() {
            crate::schema::lemma_position_of(names_of(columns), by[c]@);
            assert(columns[at[c] as int].admits(first[at[c] as int]));
        } else {
            let j = c - at.len();
            let aggregate = aggregates[j];
            lemma_no_fault_each(columns, aggregates, j);
            crate::schema::lemma_position_of(names_of(columns), aggregate.column@);
            let read = found[j].column as int;
            let members = rows.filter(has_key(at, key));
            let cells = group_cells(rows, at, key, read);
            assert(row[c] == aggregate_value(aggregate.function, cells));
            assert(wanted[c] == aggregate_column(columns, aggregate));
            assert forall|i: int| 0 <= i < cells.len() implies columns[read].admits(
                #[trigger] cells[i],
            ) by {
                assert(members.contains(members[i]));
                rows.lemma_filter_contains_rev(has_key(at, key), members[i]);
                let r = choose|r: int| 0 <= r < rows.len() && rows[r] == members[i];
                assert(row_fits(columns, rows[r]));
            }
            if aggregate.function == AggregateFn::Min {
                lemma_extreme_among(cells, Rel::Before);
            }
            if aggregate.function == AggregateFn::Max {
                lemma_extreme_among(cells, Rel::After);
            }
        }
    }
}

/// The row that the group of `like` gives.
fn row_of_group(
    rows: &Vec<Vec<Value>>,
    like: &Vec<Value>,
    at: &Vec<usize>,
    found: &Vec<AggregateAt>,
) -> (row: Vec<Value>)
    requires
        forall|r: int, k: int|
            0 <= r < rows@.len() && 0 <= k < at@.len() ==> (#[trigger] at@[k]) < (
            #[trigger] rows@[r])@.len(),
        forall|k: int| 0 <= k < at@.len() ==> (#[trigger] at@[k]) < like@.len(),
        forall|r: int, k: int|
            0 <= r < rows@.len() && 0 <= k < found@.len() ==> (#[trigger] found@[k]).column < (
            #[trigger] rows@[r])@.len(),
    ensures
        row_view(row@) == group_row(
            rows_view(rows@),
            at@,
            project(row_view(like@), at@),
            found@,
        ),
{
    let ghost all = rows_view(rows@);
    let ghost key = project(row_view(like@), at@);
    let ghost wanted = group_row(all, at@, key, found@);
    let mut row: Vec<Value> = Vec::new();
    let mut k: usize = 0;
    while k < at.len()
        invariant
            k <= at.len(),
            key == project(row_view(like@), at@),
            forall|k: int| 0 <= k < at@.len() ==> (#[trigger] at@[k]) < like@.len(),
            row@.len() == k,
            forall|j: int| 0 <= j < k ==> (#[trigger] row@[j])@ == key[j],
        decreases at.len() - k,
    {
        row.push(like[at[k]].clone());
        k += 1;
    }
    let mut i: usize = 0;
    while i < found.len()
        invariant
            i <= found.len(),
            all == rows_view(rows@),
            key == project(row_view(like@), at@),
            wanted == group_row(all, at@, key, found@),
            key.len() == at@.len(),
            forall|r: int, k: int|
                0 <= r < rows@.len() && 0 <= k < at@.len() ==> (#[trigger] at@[k]) < (
                #[trigger] rows@[r])@.len(),
            forall|k: int| 0 <= k < at@.len() ==> (#[trigger] at@[k]) < like@.len(),
            forall|r: int, k: int|
                0 <= r < rows@.len() && 0 <= k < found@.len() ==> (#[trigger] found@[k]).column
                    < (#[trigger] rows@[r])@.len(),
            row@.len() == at@.len() + i,
            forall|j: int| 0 <= j < row@.len() ==> (#[trigger] row@[j])@ == wanted[j],
        decreases found.len() - i,
    {
        let a = found[i];
        let cells = cells_of_group(rows, like, at, a.column);
        row.push(aggregate(a.function, &cells));
        i += 1;
    }
    proof {
        assert(row_view(row@) =~= wanted);
    }
    row
}

fn any_needs_rows(aggregates: &Vec<Aggregate>) -> (some: bool)
    ensures
        some == some_needs_rows(aggregates@),
{
    let mut i: usize = 0;
    while i < aggregates.len()
        invariant
            i <= aggregates.len(),
            forall|k: int| 0 <= k < i ==> !(#[trigger] aggregates@[k]).function.needs_rows(),
        decreases aggregates.len() - i,
    {
        match aggregates[i].function {
            AggregateFn::Average | AggregateFn::Min | AggregateFn::Max => {
                return true;
            },
            _ => {},
        }
        i += 1;
    }
    false
}

/// Groups the rows of `table` by the columns `by` and computes the
/// `aggregates` of each group.
///
/// The result has the grouping columns, then one column for each aggregate,
/// under its alias; it has one row for each distinct key, in the order in
/// which the keys first occur. Without grouping columns the whole table is
/// the one group.
///
/// Fails exactly when `group_fault` names a fault.
pub fn group_by(table: &Table, by: &Vec<String>, aggregates: &Vec<Aggregate>) -> (out: Result<
    Table,
    EngineError,
>)
    ensures
        match out {
            Ok(grouped) => {
                &&& group_fault(table@, by@, aggregates@) is None
                &&& grouped@.columns == grouped_columns(table@.columns, by@, aggregates@)
                &&& grouped@.rows == grouped_rows(
                    table@.rows,
                    positions_of(table@.columns, by@),
                    aggregates_at(table@.columns, aggregates@),
                )
                &&& grouped@.wf()
            },
            Err(e) => group_fault(table@, by@, aggregates@) == Some(e),
        },
{
    let schema = table.schema();
    let at = match locate(schema, by) {
        Ok(at) => at,
        Err(e) => {
            return Err(e);
        },
    };
    let found = match resolve_aggregates(schema, aggregates) {
        Ok(found) => found,
        Err(e) => {
            return Err(e);
        },
    };
    let made = match grouped_schema(schema, by, &at, aggregates) {
        Ok(made) => made,
        Err(e) => {
            return Err(e);
        },
    };
    let rows = table.rows();
    let ghost all = table@.rows;
    let ghost columns = table@.columns;
    proof {
        assert forall|r: int, k: int| 0 <= r < rows@.len() && 0 <= k < at@.len() implies (
        #[trigger] at@[k]) < (#[trigger] rows@[r])@.len() by {
            assert(row_fits(columns, rows_view(rows@)[r]));
        }
        assert forall|r: int, k: int| 0 <= r < rows@.len() && 0 <= k < found@.len() implies (
        #[trigger] found@[k]).column < (#[trigger] rows@[r])@.len() by {
            assert(row_fits(columns, rows_view(rows@)[r]));
        }
    }
    let mut out: Vec<Vec<Value>> = Vec::new();
    if at.len() == 0 && rows.len() == 0 {
        if any_needs_rows(aggregates) {
            return Err(EngineError::AggregateOnEmptyGroup);
        }
        let like: Vec<Value> = Vec::new();
        let row = row_of_group(rows, &like, &at, &found);
        out.push(row);
        proof {
            assert(project(row_view(like@), at@) =~= Seq::<Cell>::empty());
            lemma_group_row_fits(columns, all, by@, aggregates@, row_view(like@));
            assert(rows_view(out@) =~= grouped_rows(all, at@, found@));
        }
    } else {
        let firsts = dedup_rows(rows, &at);
        let ghost heads = first_occurrences(all, at@);
        let mut g: usize = 0;
        while g < firsts.len()
            invariant
                g <= firsts.len(),
                all == table@.rows,
                columns == table@.columns,
                all == rows_view(rows@),
                rows_fit(columns, all),
                heads == first_occurrences(all, at@),
                rows_view(firsts@) == heads,
                rows_fit(columns, heads),
                all_known(columns, by@),
                at@ == positions_of(columns, by@),
                aggregates_fault(columns, aggregates@) is None,
                found@ == aggregates_at(columns, aggregates@),
                made@ == grouped_columns(columns, by@, aggregates@),
                forall|r: int, k: int|
                    0 <= r < rows@.len() && 0 <= k < at@.len() ==> (#[trigger] at@[k]) < (
                    #[trigger] rows@[r])@.len(),
                forall|k: int| 0 <= k < at@.len() ==> (#[trigger] at@[k]) < columns.len(),
                forall|r: int, k: int|
                    0 <= r < rows@.len() && 0 <= k < found@.len() ==> (
                    #[trigger] found@[k]).column < (#[trigger] rows@[r])@.len(),
                out@.len() == g,
                forall|j: int|
                    0 <= j < g ==> row_view((#[trigger] out@[j])@) == group_row(
                        all,
                        at@,
                        project(heads[j], at@),
                        found@,
                    ),
                rows_fit(made@, rows_view(out@)),
            decreases firsts.len() - g,
        {
            let like = &firsts[g];
            let ghost before = rows_view(out@);
            proof {
                assert(heads[g as int] == row_view(like@));
                assert(row_fits(columns, heads[g as int]));
            }
            let row = row_of_group(rows, like, &at, &found);
            out.push(row);
            proof {
                lemma_group_row_fits(columns, all, by@, aggregates@, heads[g as int]);
                assert forall|j: int| 0 <= j < out@.len() implies row_fits(
                    made@,
                    #[trigger] rows_view(out@)[j],
                ) by {
                    if j < g {
                        assert(rows_view(out@)[j] == before[j]);
                    }
                }
            }
            g += 1;
        }
        proof {
            assert(rows_view(out@) =~= grouped_rows(all, at@, found@));
        }
    }
    Ok(Table::assemble(made, out))
}

} // verus!
