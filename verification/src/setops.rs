//! Set operations: union and except.
//!
//! Both compare whole rows, cell by cell, and here a null is the same as a
//! null: a row with nulls on the left is matched by a row on the right that
//! has nulls in the same places and equal values elsewhere. (A join key, by
//! contrast, never matches on null.)
//!
//! The two tables must have as many columns, of the same kinds position by
//! position. Names need not agree: the result has the names of the left.

use vstd::prelude::*;
use crate::compare::{agree_unordered, comparable, lemma_row_eq, schemas_comparable};
use crate::distinct::{
    all_positions, dedup_rows, every_position, first_occurrences, lemma_first_occurrences_absorb,
    project, seen_before,
};
use crate::error::EngineError;
use crate::schema::{columns_view, distinct_names, names_of, Column, ColumnView, Schema};
use crate::table::{copy_row, row_fits, row_view, rows_fit, rows_view, Table, TableView};
use crate::value::{Cell, Value};

verus! {

/// The schema of a union: the names and kinds of the left; a column admits
/// null where it does on either side.
pub open spec fn united_columns(left: Seq<ColumnView>, right: Seq<ColumnView>) -> Seq<ColumnView> {
    Seq::new(
        left.len(),
        |c: int|
            ColumnView {
                name: left[c].name,
                kind: left[c].kind,
                nullable: left[c].nullable || right[c].nullable,
            },
    )
}

/// The rows of a union: the rows of the left, then those of the right, each
/// distinct row once, where it first occurs.
pub open spec fn union_rows(left: TableView, right: TableView) -> Seq<Seq<Cell>> {
    first_occurrences(left.rows + right.rows, all_positions(left.columns.len()))
}

/// The test for the rows that do not occur in `right`.
pub open spec fn absent_from(right: Seq<Seq<Cell>>) -> spec_fn(Seq<Cell>) -> bool {
    |row: Seq<Cell>| !right.contains(row)
}

/// The rows of the left that do not occur on the right, in their order. A row
/// that the left holds twice, and the right not at all, stays twice.
pub open spec fn except_rows(left: TableView, right: TableView) -> Seq<Seq<Cell>> {
    left.rows.filter(absent_from(right.rows))
}

fn united_schema(left: &Schema, right: &Schema) -> (schema: Schema)
    requires
        comparable(left@, right@),
    ensures
        schema@ == united_columns(left@, right@),
{
    let mut columns: Vec<Column> = Vec::new();
    let mut c: usize = 0;
    while c < left.len()
        invariant
            c <= left@.len() == right@.len(),
            columns@.len() == c,
            forall|k: int|
                0 <= k < c ==> (#[trigger] columns@[k])@ == united_columns(left@, right@)[k],
        decreases left@.len() - c,
    {
        let l = left.column(c);
        let r = right.column(c);
        columns.push(
            Column { name: l.name.clone(), kind: l.kind, nullable: l.nullable || r.nullable },
        );
        c += 1;
    }
    proof {
        use_type_invariant(left);
        assert(columns_view(columns@) =~= united_columns(left@, right@));
        assert(names_of(united_columns(left@, right@)) =~= names_of(left@));
    }
    Schema::assemble(columns)
}

/// The rows of both sides of a union fit its schema.
proof fn lemma_union_fits(left: TableView, right: TableView)
    requires
        left.wf(),
        right.wf(),
        comparable(left.columns, right.columns),
    ensures
        rows_fit(united_columns(left.columns, right.columns), left.rows + right.rows),
{
    let columns = united_columns(left.columns, right.columns);
    let all = left.rows + right.rows;
    assert forall|r: int| 0 <= r < all.len() implies row_fits(columns, #[trigger] all[r]) by {
        let row = all[r];
        if r < left.rows.len() {
            assert(row == left.rows[r]);
            assert(row_fits(left.columns, row));
            assert forall|c: int| 0 <= c < row.len() implies (#[trigger] columns[c]).admits(
                row[c],
            ) by {
                assert(left.columns[c].admits(row[c]));
            }
        } else {
            assert(row == right.rows[r - left.rows.len()]);
            assert(row_fits(right.columns, row));
            assert forall|c: int| 0 <= c < row.len() implies (#[trigger] columns[c]).admits(
                row[c],
            ) by {
                assert(right.columns[c].admits(row[c]));
                assert(left.columns[c].kind == right.columns[c].kind);
            }
        }
    }
}

/// The union of two tables: the rows of `left`, then those of `right`, each
/// distinct row once, where it first occurs. Fails, with `SchemaMismatch`,
/// exactly when the two schemas differ in the number of columns or in the
/// kind of a column.
pub fn union(left: &Table, right: &Table) -> (out: Result<Table, EngineError>)
    ensures
        match out {
            Ok(united) => {
                &&& comparable(left@.columns, right@.columns)
                &&& united@.columns == united_columns(left@.columns, right@.columns)
                &&& united@.rows == union_rows(left@, right@)
                &&& united@.wf()
            },
            Err(e) => e == EngineError::SchemaMismatch && !comparable(
                left@.columns,
                right@.columns,
            ),
        },
{
    if !schemas_comparable(left, right) {
        return Err(EngineError::SchemaMismatch);
    }
    let schema = united_schema(left.schema(), right.schema());
    let ls = left.rows();
    let rs = right.rows();
    let mut all: Vec<Vec<Value>> = Vec::new();
    let mut i: usize = 0;
    while i < ls.len()
        invariant
            i <= ls.len(),
            all@.len() == i,
            forall|k: int| 0 <= k < i ==> (#[trigger] all@[k])@ == ls@[k]@,
        decreases ls.len() - i,
    {
        all.push(copy_row(&ls[i]));
        i += 1;
    }
    let mut j: usize = 0;
    while j < rs.len()
        invariant
            j <= rs.len(),
            all@.len() == ls@.len() + j,
            forall|k: int| 0 <= k < ls@.len() ==> (#[trigger] all@[k])@ == ls@[k]@,
            forall|k: int| 0 <= k < j ==> (#[trigger] all@[ls@.len() + k])@ == rs@[k]@,
        decreases rs.len() - j,
    {
        all.push(copy_row(&rs[j]));
        j += 1;
    }
    let at = every_position(left.width());
    proof {
        assert(rows_view(all@) =~= left@.rows + right@.rows) by {
            assert forall|k: int| 0 <= k < all@.len() implies rows_view(all@)[k] == (left@.rows
                + right@.rows)[k] by {
                if k < ls@.len() {
                    assert(rows_view(ls@)[k] == row_view(ls@[k]@));
                } else {
                    assert(all@[ls@.len() + (k - ls@.len())]@ == rs@[k - ls@.len()]@);
                    assert(rows_view(rs@)[k - ls@.len()] == row_view(rs@[k - ls@.len()]@));
                }
            }
        }
        lemma_union_fits(left@, right@);
        assert forall|r: int, k: int| 0 <= r < all@.len() && 0 <= k < at@.len() implies (
        #[trigger] at@[k]) < (#[trigger] all@[r])@.len() by {
            assert(row_fits(schema@, rows_view(all@)[r]));
        }
    }
    let kept = dedup_rows(&all, &at);
    Ok(Table::assemble(schema, kept))
}

fn occurs_in(row: &Vec<Value>, rows: &Vec<Vec<Value>>) -> (found: bool)
    ensures
        found == rows_view(rows@).contains(row_view(row@)),
{
    let mut k: usize = 0;
    while k < rows.len()
        invariant
            k <= rows.len(),
            forall|j: int| 0 <= j < k ==> rows_view(rows@)[j] != row_view(row@),
        decreases rows.len() - k,
    {
        proof {
            lemma_row_eq(rows@[k as int], *row);
        }
        if rows[k] == *row {
            assert(rows_view(rows@)[k as int] == row_view(row@));
            return true;
        }
        k += 1;
    }
    false
}

/// The rows of `left` that do not occur in `right`, in their order and under
/// the schema of `left`. Fails, with `SchemaMismatch`, exactly when the two
/// schemas differ in the number of columns or in the kind of a column.
pub fn except(left: &Table, right: &Table) -> (out: Result<Table, EngineError>)
    ensures
        match out {
            Ok(rest) => {
                &&& comparable(left@.columns, right@.columns)
                &&& rest@.columns == left@.columns
                &&& rest@.rows == except_rows(left@, right@)
                &&& rest@.wf()
            },
            Err(e) => e == EngineError::SchemaMismatch && !comparable(
                left@.columns,
                right@.columns,
            ),
        },
{
    if !schemas_comparable(left, right) {
        return Err(EngineError::SchemaMismatch);
    }
    let ls = left.rows();
    let rs = right.rows();
    let ghost test = absent_from(right@.rows);
    let mut kept: Vec<Vec<Value>> = Vec::new();
    let mut i: usize = 0;
    while i < ls.len()
        invariant
            i <= ls.len(),
            rows_view(ls@) == left@.rows,
            rows_view(rs@) == right@.rows,
            rows_fit(left@.columns, left@.rows),
            test == absent_from(right@.rows),
            rows_view(kept@) == left@.rows.take(i as int).filter(test),
            rows_fit(left@.columns, rows_view(kept@)),
        decreases ls.len() - i,
    {
        let ghost before = rows_view(kept@);
        proof {
            let row = left@.rows[i as int];
            assert(row == row_view(ls@[i as int]@));
            assert(left@.rows.take(i as int + 1) == left@.rows.take(i as int).push(row));
            left@.rows.take(i as int).lemma_filter_push(row, test);
        }
        if !occurs_in(&ls[i], rs) {
            kept.push(copy_row(&ls[i]));
            proof {
                assert(rows_view(kept@) =~= before.push(left@.rows[i as int]));
            }
        }
        i += 1;
    }
    proof {
        assert(left@.rows.take(ls.len() as int) == left@.rows);
    }
    Ok(Table::assemble(left.schema().clone(), kept))
}

/// The union of a table with itself holds the rows that `unique` leaves of
/// it, in the same order, and so agrees with it under order-insensitive
/// comparison.
pub proof fn lemma_union_self(table: TableView)
    requires
        table.wf(),
    ensures
        comparable(table.columns, table.columns),
        union_rows(table, table) == first_occurrences(
            table.rows,
            all_positions(table.columns.len()),
        ),
        union_rows(table, table).to_multiset() == first_occurrences(
            table.rows,
            all_positions(table.columns.len()),
        ).to_multiset(),
{
    let at = all_positions(table.columns.len());
    assert forall|k: int| 0 <= k < table.rows.len() implies seen_before(
        table.rows,
        table.rows.len() as int,
        at,
        project(#[trigger] table.rows[k], at),
    ) by {}
    lemma_first_occurrences_absorb(table.rows, table.rows, at);
}

/// Taking a table from itself leaves no row, with nulls or without.
pub proof fn lemma_except_self(table: TableView)
    ensures
        comparable(table.columns, table.columns),
        except_rows(table, table).len() == 0,
{
    lemma_nothing_absent(table.rows, table.rows);
}

proof fn lemma_nothing_absent(rows: Seq<Seq<Cell>>, right: Seq<Seq<Cell>>)
    requires
        forall|k: int| 0 <= k < rows.len() ==> right.contains(#[trigger] rows[k]),
    ensures
        rows.filter(absent_from(right)).len() == 0,
    decreases rows.len(),
{
    reveal(Seq::filter);
    if rows.len() > 0 {
        assert forall|k: int| 0 <= k < rows.drop_last().len() implies right.contains(
            #[trigger] rows.drop_last()[k],
        ) by {
            assert(rows.drop_last()[k] == rows[k]);
        }
        lemma_nothing_absent(rows.drop_last(), right);
        assert(right.contains(rows[rows.len() - 1]));
    }
}

} // verus!
