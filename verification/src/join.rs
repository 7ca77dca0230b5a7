//! Joins: inner, left outer, full outer, cross, and the anti-join.
//!
//! Two rows match when, for every pair of key columns, the two cells are
//! equal values. A null equals nothing, not even another null, so a row with
//! a null key matches no row.
//!
//! The rows of a join come in the order of the left table; under each left
//! row, its matches come in the order of the right table. A full outer join
//! ends with the right rows that no left row matches, in their order.

use vstd::prelude::*;
use vstd::arithmetic::div_mod::lemma_fundamental_div_mod_converse;
use crate::error::EngineError;
use crate::schema::{columns_view, distinct_names, names_of, position_of, Column, ColumnView, Schema};
use crate::table::{copy_row, row_fits, row_view, rows_fit, rows_view, Table, TableView};
use crate::value::{cell_rel, Cell, Rel, Value};

verus! {

/// Which rows without a partner a join keeps.
#[derive(Clone, Copy, Debug, PartialEq, Eq, Structural)]
pub enum JoinKind {
    /// Only matched pairs.
    Inner,
    /// Matched pairs, and each left row without a match, its right side null.
    LeftOuter,
    /// As `LeftOuter`, and each right row without a match, its left side null.
    FullOuter,
}

/// One equality of a join condition: a column of the left table and the
/// column of the right table that it must equal.
#[derive(Debug)]
pub struct JoinKey {
    pub left: String,
    pub right: String,
}

/// The positions of the two columns of a join key.
#[derive(Clone, Copy, Debug)]
pub struct KeyAt {
    pub left: usize,
    pub right: usize,
}

impl JoinKey {
    pub fn new(left: &str, right: &str) -> (key: JoinKey)
        ensures
            key.left@ == left@,
            key.right@ == right@,
    {
        JoinKey { left: left.to_owned(), right: right.to_owned() }
    }
}

/// The column, made to admit null.
pub open spec fn relaxed(column: ColumnView) -> ColumnView {
    ColumnView { name: column.name, kind: column.kind, nullable: true }
}

/// The columns of one side of a join: as they are, or each made to admit
/// null where the join may leave that side empty.
pub open spec fn side_columns(columns: Seq<ColumnView>, relax: bool) -> Seq<ColumnView> {
    if relax {
        columns.map_values(|c: ColumnView| relaxed(c))
    } else {
        columns
    }
}

/// The schema of a join: the left columns, then the right columns. The join
/// renames nothing.
pub open spec fn joined_columns(left: Seq<ColumnView>, right: Seq<ColumnView>, kind: JoinKind) -> Seq<
    ColumnView,
> {
    side_columns(left, kind == JoinKind::FullOuter) + side_columns(right, kind != JoinKind::Inner)
}

/// What is wrong with one key: `UnknownColumn` where one of its columns is
/// missing on its side, `TypeMismatch` where the two are of different kinds.
pub open spec fn key_fault(left: Seq<ColumnView>, right: Seq<ColumnView>, key: JoinKey) -> Option<
    EngineError,
> {
    match (position_of(names_of(left), key.left@), position_of(names_of(right), key.right@)) {
        (Some(l), Some(r)) => if left[l].kind == right[r].kind {
            None
        } else {
            Some(EngineError::TypeMismatch)
        },
        _ => Some(EngineError::UnknownColumn),
    }
}

/// The fault of the first faulty key, if there is one.
pub open spec fn keys_fault(left: Seq<ColumnView>, right: Seq<ColumnView>, on: Seq<JoinKey>) -> Option<
    EngineError,
>
    decreases on.len(),
{
    if on.len() == 0 {
        None
    } else {
        match keys_fault(left, right, on.drop_last()) {
            Some(e) => Some(e),
            None => key_fault(left, right, on.last()),
        }
    }
}

/// Why two tables cannot be joined, if they cannot: the fault of the first
/// faulty key, else `SchemaMismatch` where a name stands on both sides.
pub open spec fn join_fault(left: Seq<ColumnView>, right: Seq<ColumnView>, on: Seq<JoinKey>) -> Option<
    EngineError,
> {
    match keys_fault(left, right, on) {
        Some(e) => Some(e),
        None => if distinct_names(names_of(left + right)) {
            None
        } else {
            Some(EngineError::SchemaMismatch)
        },
    }
}

/// Where the columns of a key stand.
pub open spec fn key_at(left: Seq<ColumnView>, right: Seq<ColumnView>, key: JoinKey) -> KeyAt {
    KeyAt {
        left: position_of(names_of(left), key.left@).unwrap() as usize,
        right: position_of(names_of(right), key.right@).unwrap() as usize,
    }
}

/// Where the columns of each key stand.
pub open spec fn keys_at(left: Seq<ColumnView>, right: Seq<ColumnView>, on: Seq<JoinKey>) -> Seq<
    KeyAt,
> {
    on.map_values(|key: JoinKey| key_at(left, right, key))
}

/// Whether a left row and a right row match: under every key the two cells
/// are equal values. With no key at all, every pair matches.
pub open spec fn rows_match(l: Seq<Cell>, r: Seq<Cell>, keys: Seq<KeyAt>) -> bool {
    forall|k: int|
        0 <= k < keys.len() ==> cell_rel(
            l[(#[trigger] keys[k]).left as int],
            r[keys[k].right as int],
        ) == Some(Rel::Same)
}

/// A row of `n` nulls.
pub open spec fn nulls(n: nat) -> Seq<Cell> {
    Seq::new(n, |i: int| Cell::Null)
}

/// The left row `l` joined with each right row that it matches, in the order
/// of the right rows.
pub open spec fn matches_of(l: Seq<Cell>, right: Seq<Seq<Cell>>, keys: Seq<KeyAt>) -> Seq<Seq<Cell>>
    decreases right.len(),
{
    if right.len() == 0 {
        Seq::empty()
    } else {
        let before = matches_of(l, right.drop_last(), keys);
        if rows_match(l, right.last(), keys) {
            before.push(l + right.last())
        } else {
            before
        }
    }
}

/// The rows that a join makes of the left rows, in their order: each left
/// row with its matches; where it has none and `outer` is set, the row alone,
/// its right side `width` nulls.
pub open spec fn left_part(
    left: Seq<Seq<Cell>>,
    right: Seq<Seq<Cell>>,
    keys: Seq<KeyAt>,
    outer: bool,
    width: nat,
) -> Seq<Seq<Cell>>
    decreases left.len(),
{
    if left.len() == 0 {
        Seq::empty()
    } else {
        let before = left_part(left.drop_last(), right, keys, outer, width);
        let found = matches_of(left.last(), right, keys);
        if found.len() == 0 && outer {
            before.push(left.last() + nulls(width))
        } else {
            before + found
        }
    }
}

/// Whether some row of `left` matches the right row `r`.
pub open spec fn has_partner(left: Seq<Seq<Cell>>, r: Seq<Cell>, keys: Seq<KeyAt>) -> bool {
    exists|i: int| 0 <= i < left.len() && rows_match(#[trigger] left[i], r, keys)
}

/// The right rows that no left row matches, in their order, each with a left
/// side of `width` nulls.
pub open spec fn right_part(
    left: Seq<Seq<Cell>>,
    right: Seq<Seq<Cell>>,
    keys: Seq<KeyAt>,
    width: nat,
) -> Seq<Seq<Cell>>
    decreases right.len(),
{
    if right.len() == 0 {
        Seq::empty()
    } else {
        let before = right_part(left, right.drop_last(), keys, width);
        if has_partner(left, right.last(), keys) {
            before
        } else {
            before.push(nulls(width) + right.last())
        }
    }
}

/// The rows of the join of two tables.
pub open spec fn joined_rows(left: TableView, right: TableView, keys: Seq<KeyAt>, kind: JoinKind) -> Seq<
    Seq<Cell>,
> {
    let first = left_part(
        left.rows,
        right.rows,
        keys,
        kind != JoinKind::Inner,
        right.columns.len(),
    );
    if kind == JoinKind::FullOuter {
        first + right_part(left.rows, right.rows, keys, left.columns.len())
    } else {
        first
    }
}

/// The left rows that match no right row, in their order.
pub open spec fn lonely_rows(left: Seq<Seq<Cell>>, right: Seq<Seq<Cell>>, keys: Seq<KeyAt>) -> Seq<
    Seq<Cell>,
>
    decreases left.len(),
{
    if left.len() == 0 {
        Seq::empty()
    } else {
        let before = lonely_rows(left.drop_last(), right, keys);
        if matches_of(left.last(), right, keys).len() == 0 {
            before.push(left.last())
        } else {
            before
        }
    }
}

/// Every pair of a left row and a right row, the pairs of the first left
/// row first, each joined into one row.
pub open spec fn cross_rows(left: Seq<Seq<Cell>>, right: Seq<Seq<Cell>>) -> Seq<Seq<Cell>> {
    Seq::new(
        left.len() * right.len(),
        |k: int| left[k / (right.len() as int)] + right[k % (right.len() as int)],
    )
}

/// Rows that fit their columns still fit them when the columns admit null.
pub proof fn lemma_fits_relaxed(columns: Seq<ColumnView>, row: Seq<Cell>, relax: bool)
    requires
        row_fits(columns, row),
    ensures
        row_fits(side_columns(columns, relax), row),
{
    let after = side_columns(columns, relax);
    assert forall|c: int| 0 <= c < row.len() implies (#[trigger] after[c]).admits(row[c]) by {
        assert(columns[c].admits(row[c]));
    }
}

/// A row of nulls fits columns that admit null.
pub proof fn lemma_nulls_fit(columns: Seq<ColumnView>)
    ensures
        row_fits(side_columns(columns, true), nulls(columns.len())),
{
}

/// Two rows that fit their columns fit, joined, the joined columns.
pub proof fn lemma_concat_fits(a: Seq<ColumnView>, x: Seq<Cell>, b: Seq<ColumnView>, y: Seq<Cell>)
    requires
        row_fits(a, x),
        row_fits(b, y),
    ensures
        row_fits(a + b, x + y),
{
    assert forall|c: int| 0 <= c < (x + y).len() implies (#[trigger] (a + b)[c]).admits(
        (x + y)[c],
    ) by {
        if c < x.len() {
            assert(a[c].admits(x[c]));
        } else {
            assert(b[c - x.len()].admits(y[c - x.len()]));
        }
    }
}

/// The two rows, one after the other.
pub fn concat_rows(l: &Vec<Value>, r: &Vec<Value>) -> (row: Vec<Value>)
    ensures
        row@ == l@ + r@,
{
    let mut row = copy_row(l);
    let mut i: usize = 0;
    while i < r.len()
        invariant
            i <= r.len(),
            row@ == l@ + r@.take(i as int),
        decreases r.len() - i,
    {
        row.push(r[i].clone());
        proof {
            assert(r@.take(i as int + 1) == r@.take(i as int).push(r@[i as int]));
            assert(row@ =~= l@ + r@.take(i as int + 1));
        }
        i += 1;
    }
    proof {
        assert(r@.take(r.len() as int) == r@);
    }
    row
}

/// A row of `n` nulls.
pub fn null_row(n: usize) -> (row: Vec<Value>)
    ensures
        row_view(row@) == nulls(n as nat),
{
    let mut row: Vec<Value> = Vec::new();
    let mut i: usize = 0;
    while i < n
        invariant
            i <= n,
            row@.len() == i,
            forall|k: int| 0 <= k < i ==> (#[trigger] row@[k])@ == Cell::Null,
        decreases n - i,
    {
        row.push(Value::Null);
        i += 1;
    }
    proof {
        assert(row_view(row@) =~= nulls(n as nat));
    }
    row
}

fn resolve_keys(left: &Schema, right: &Schema, on: &Vec<JoinKey>) -> (out: Result<
    Vec<KeyAt>,
    EngineError,
>)
    ensures
        match out {
            Ok(keys) => {
                &&& keys_fault(left@, right@, on@) is None
                &&& keys@ == keys_at(left@, right@, on@)
                &&& forall|k: int|
                    0 <= k < keys@.len() ==> (#[trigger] keys@[k]).left < left@.len()
                        && keys@[k].right < right@.len()
            },
            Err(e) => keys_fault(left@, right@, on@) == Some(e),
        },
{
    let mut keys: Vec<KeyAt> = Vec::new();
    let mut i: usize = 0;
    while i < on.len()
        invariant
            i <= on.len(),
            keys_fault(left@, right@, on@.take(i as int)) is None,
            keys@ == keys_at(left@, right@, on@.take(i as int)),
            forall|k: int|
                0 <= k < keys@.len() ==> (#[trigger] keys@[k]).left < left@.len()
                    && keys@[k].right < right@.len(),
        decreases on.len() - i,
    {
        proof {
            assert(on@.take(i as int + 1).drop_last() == on@.take(i as int));
            assert(on@.take(i as int + 1).last() == on@[i as int]);
        }
        let key = &on[i];
        match (left.index_of(key.left.as_str()), right.index_of(key.right.as_str())) {
            (Some(l), Some(r)) => {
                if left.column(l).kind != right.column(r).kind {
                    proof {
                        lemma_fault_stays(left@, right@, on@, i as int + 1);
                    }
                    return Err(EngineError::TypeMismatch);
                }
                let ghost before = keys@;
                keys.push(KeyAt { left: l, right: r });
                proof {
                    assert(keys@ =~= keys_at(left@, right@, on@.take(i as int + 1)));
                }
            },
            _ => {
                proof {
                    lemma_fault_stays(left@, right@, on@, i as int + 1);
                }
                return Err(EngineError::UnknownColumn);
            },
        }
        i += 1;
    }
    proof {
        assert(on@.take(on.len() as int) == on@);
    }
    Ok(keys)
}

/// A fault among the first keys is the fault of the whole list.
proof fn lemma_fault_stays(
    left: Seq<ColumnView>,
    right: Seq<ColumnView>,
    on: Seq<JoinKey>,
    n: int,
)
    requires
        0 <= n <= on.len(),
        keys_fault(left, right, on.take(n)) is Some,
    ensures
        keys_fault(left, right, on) == keys_fault(left, right, on.take(n)),
    decreases on.len() - n,
{
    if n < on.len() {
        assert(on.take(n + 1).drop_last() == on.take(n));
        lemma_fault_stays(left, right, on, n + 1);
    } else {
        assert(on.take(n) == on);
    }
}

fn keys_match(l: &Vec<Value>, r: &Vec<Value>, keys: &Vec<KeyAt>) -> (ok: bool)
    requires
        forall|k: int|
            0 <= k < keys@.len() ==> (#[trigger] keys@[k]).left < l@.len() && keys@[k].right
                < r@.len(),
    ensures
        ok == rows_match(row_view(l@), row_view(r@), keys@),
{
    let mut k: usize = 0;
    while k < keys.len()
        invariant
            k <= keys.len(),
            forall|k: int|
                0 <= k < keys@.len() ==> (#[trigger] keys@[k]).left < l@.len() && keys@[k].right
                    < r@.len(),
            forall|j: int|
                0 <= j < k ==> cell_rel(
                    row_view(l@)[(#[trigger] keys@[j]).left as int],
                    row_view(r@)[keys@[j].right as int],
                ) == Some(Rel::Same),
        decreases keys.len() - k,
    {
        let at = keys[k];
        let same = match l[at.left].relate(&r[at.right]) {
            Some(Rel::Same) => true,
            _ => false,
        };
        if !same {
            assert(cell_rel(
                row_view(l@)[keys@[k as int].left as int],
                row_view(r@)[keys@[k as int].right as int],
            ) != Some(Rel::Same));
            return false;
        }
        k += 1;
    }
    true
}

fn side(schema: &Schema, relax: bool) -> (columns: Vec<Column>)
    ensures
        columns_view(columns@) == side_columns(schema@, relax),
{
    let mut columns: Vec<Column> = Vec::new();
    let mut c: usize = 0;
    while c < schema.len()
        invariant
            c <= schema@.len(),
            columns@.len() == c,
            forall|k: int|
                0 <= k < c ==> (#[trigger] columns@[k])@ == side_columns(schema@, relax)[k],
        decreases schema@.len() - c,
    {
        let column = schema.column(c);
        columns.push(
            Column {
                name: column.name.clone(),
                kind: column.kind,
                nullable: relax || column.nullable,
            },
        );
        c += 1;
    }
    proof {
        assert(columns_view(columns@) =~= side_columns(schema@, relax));
    }
    columns
}

fn joined_schema(left: &Schema, right: &Schema, kind: JoinKind) -> (out: Result<
    Schema,
    EngineError,
>)
    ensures
        match out {
            Ok(schema) => schema@ == joined_columns(left@, right@, kind) && distinct_names(
                names_of(left@ + right@),
            ),
            Err(e) => e == EngineError::SchemaMismatch && !distinct_names(
                names_of(left@ + right@),
            ),
        },
{
    let mut columns = side(left, kind == JoinKind::FullOuter);
    let mut more = side(right, kind != JoinKind::Inner);
    columns.append(&mut more);
    proof {
        assert(columns_view(columns@) =~= joined_columns(left@, right@, kind));
        assert(names_of(joined_columns(left@, right@, kind)) =~= names_of(left@ + right@));
    }
    Schema::new(columns)
}

/// The join of `left` and `right` on the equalities `on`.
///
/// The schema of the result is the left columns followed by the right
/// columns; a side that the join may leave empty admits null in each of its
/// columns. The rows are those of `joined_rows`.
///
/// Fails exactly when `join_fault` names a fault: a key column that is
/// missing on its side (`UnknownColumn`), a key whose two columns are of
/// different kinds (`TypeMismatch`), or a name that stands on both sides
/// (`SchemaMismatch`).
pub fn join(left: &Table, right: &Table, on: &Vec<JoinKey>, kind: JoinKind) -> (out: Result<
    Table,
    EngineError,
>)
    ensures
        match out {
            Ok(joined) => {
                &&& join_fault(left@.columns, right@.columns, on@) is None
                &&& joined@.columns == joined_columns(left@.columns, right@.columns, kind)
                &&& joined@.rows == joined_rows(
                    left@,
                    right@,
                    keys_at(left@.columns, right@.columns, on@),
                    kind,
                )
                &&& joined@.wf()
            },
            Err(e) => join_fault(left@.columns, right@.columns, on@) == Some(e),
        },
{
    let keys = match resolve_keys(left.schema(), right.schema(), on) {
        Ok(keys) => keys,
        Err(e) => {
            return Err(e);
        },
    };
    let schema = match joined_schema(left.schema(), right.schema(), kind) {
        Ok(schema) => schema,
        Err(e) => {
            return Err(e);
        },
    };
    let outer = kind != JoinKind::Inner;
    let mut rows = left_rows(left, right, &keys, kind);
    if kind == JoinKind::FullOuter {
        let mut rest = right_rows(left, right, &keys);
        let ghost first = rows_view(rows@);
        let ghost second = rows_view(rest@);
        rows.append(&mut rest);
        proof {
            assert(rows_view(rows@) =~= first + second);
        }
    }
    Ok(Table::assemble(schema, rows))
}

fn left_rows(left: &Table, right: &Table, keys: &Vec<KeyAt>, kind: JoinKind) -> (rows: Vec<
    Vec<Value>,
>)
    requires
        forall|k: int|
            0 <= k < keys@.len() ==> (#[trigger] keys@[k]).left < left@.columns.len()
                && keys@[k].right < right@.columns.len(),
    ensures
        rows_view(rows@) == left_part(
            left@.rows,
            right@.rows,
            keys@,
            kind != JoinKind::Inner,
            right@.columns.len(),
        ),
        rows_fit(joined_columns(left@.columns, right@.columns, kind), rows_view(rows@)),
{
    let outer = kind != JoinKind::Inner;
    let ls = left.rows();
    let rs = right.rows();
    let width = right.width();
    let ghost lc = left@.columns;
    let ghost rc = right@.columns;
    let ghost columns = joined_columns(lc, rc, kind);
    let mut rows: Vec<Vec<Value>> = Vec::new();
    let mut i: usize = 0;
    while i < ls.len()
        invariant
            i <= ls.len(),
            outer == (kind != JoinKind::Inner),
            width == rc.len(),
            lc == left@.columns,
            rc == right@.columns,
            columns == joined_columns(lc, rc, kind),
            rows_view(ls@) == left@.rows,
            rows_view(rs@) == right@.rows,
            rows_fit(lc, left@.rows),
            rows_fit(rc, right@.rows),
            forall|k: int|
                0 <= k < keys@.len() ==> (#[trigger] keys@[k]).left < lc.len() && keys@[k].right
                    < rc.len(),
            rows_view(rows@) == left_part(
                left@.rows.take(i as int),
                right@.rows,
                keys@,
                outer,
                width as nat,
            ),
            rows_fit(columns, rows_view(rows@)),
        decreases ls.len() - i,
    {
        let l = &ls[i];
        let ghost lv = left@.rows[i as int];
        let ghost before = rows_view(rows@);
        proof {
            assert(lv == row_view(l@));
            assert(row_fits(lc, lv));
            assert(left@.rows.take(i as int + 1).drop_last() == left@.rows.take(i as int));
            assert(left@.rows.take(i as int + 1).last() == lv);
        }
        let mut found = false;
        let mut j: usize = 0;
        while j < rs.len()
            invariant
                j <= rs.len(),
                lv == row_view(l@),
                l@.len() == lc.len(),
                row_fits(lc, lv),
                columns == joined_columns(lc, rc, kind),
                rows_view(rs@) == right@.rows,
                rc == right@.columns,
                rows_fit(rc, right@.rows),
                forall|k: int|
                    0 <= k < keys@.len() ==> (#[trigger] keys@[k]).left < lc.len()
                        && keys@[k].right < rc.len(),
                rows_view(rows@) == before + matches_of(lv, right@.rows.take(j as int), keys@),
                found == (matches_of(lv, right@.rows.take(j as int), keys@).len() > 0),
                rows_fit(columns, rows_view(rows@)),
            decreases rs.len() - j,
        {
            let r = &rs[j];
            let ghost rv = right@.rows[j as int];
            let ghost so_far = rows_view(rows@);
            proof {
                assert(rv == row_view(r@));
                assert(row_fits(rc, rv));
                assert(right@.rows.take(j as int + 1).drop_last() == right@.rows.take(j as int));
                assert(right@.rows.take(j as int + 1).last() == rv);
            }
            if keys_match(l, r, keys) {
                rows.push(concat_rows(l, r));
                found = true;
                proof {
                    assert(row_view(l@ + r@) =~= lv + rv);
                    assert(rows_view(rows@) =~= so_far.push(lv + rv));
                    lemma_fits_relaxed(lc, lv, kind == JoinKind::FullOuter);
                    lemma_fits_relaxed(rc, rv, kind != JoinKind::Inner);
                    lemma_concat_fits(
                        side_columns(lc, kind == JoinKind::FullOuter),
                        lv,
                        side_columns(rc, kind != JoinKind::Inner),
                        rv,
                    );
                    assert(rows_view(rows@) =~= before + matches_of(
                        lv,
                        right@.rows.take(j as int + 1),
                        keys@,
                    ));
                }
            }
            j += 1;
        }
        proof {
            assert(right@.rows.take(rs.len() as int) == right@.rows);
        }
        if !found && outer {
            let ghost so_far = rows_view(rows@);
            let pad = null_row(width);
            rows.push(concat_rows(l, &pad));
            proof {
                assert(so_far =~= before);
                assert(row_view(l@ + pad@) =~= lv + nulls(width as nat));
                assert(rows_view(rows@) =~= before.push(lv + nulls(width as nat)));
                lemma_fits_relaxed(lc, lv, kind == JoinKind::FullOuter);
                lemma_nulls_fit(rc);
                lemma_concat_fits(
                    side_columns(lc, kind == JoinKind::FullOuter),
                    lv,
                    side_columns(rc, true),
                    nulls(width as nat),
                );
            }
        }
        i += 1;
    }
    proof {
        assert(left@.rows.take(ls.len() as int) == left@.rows);
    }
    rows
}

fn right_rows(left: &Table, right: &Table, keys: &Vec<KeyAt>) -> (rows: Vec<Vec<Value>>)
    requires
        forall|k: int|
            0 <= k < keys@.len() ==> (#[trigger] keys@[k]).left < left@.columns.len()
                && keys@[k].right < right@.columns.len(),
    ensures
        rows_view(rows@) == right_part(left@.rows, right@.rows, keys@, left@.columns.len()),
        rows_fit(
            joined_columns(left@.columns, right@.columns, JoinKind::FullOuter),
            rows_view(rows@),
        ),
{
    let ls = left.rows();
    let rs = right.rows();
    let width = left.width();
    let ghost lc = left@.columns;
    let ghost rc = right@.columns;
    let ghost columns = joined_columns(lc, rc, JoinKind::FullOuter);
    let mut rows: Vec<Vec<Value>> = Vec::new();
    let mut j: usize = 0;
    while j < rs.len()
        invariant
            j <= rs.len(),
            width == lc.len(),
            lc == left@.columns,
            rc == right@.columns,
            columns == joined_columns(lc, rc, JoinKind::FullOuter),
            rows_view(ls@) == left@.rows,
            rows_view(rs@) == right@.rows,
            rows_fit(lc, left@.rows),
            rows_fit(rc, right@.rows),
            forall|k: int|
                0 <= k < keys@.len() ==> (#[trigger] keys@[k]).left < lc.len() && keys@[k].right
                    < rc.len(),
            rows_view(rows@) == right_part(
                left@.rows,
                right@.rows.take(j as int),
                keys@,
                width as nat,
            ),
            rows_fit(columns, rows_view(rows@)),
        decreases rs.len() - j,
    {
        let r = &rs[j];
        let ghost rv = right@.rows[j as int];
        let ghost before = rows_view(rows@);
        proof {
            assert(rv == row_view(r@));
            assert(row_fits(rc, rv));
            assert(right@.rows.take(j as int + 1).drop_last() == right@.rows.take(j as int));
            assert(right@.rows.take(j as int + 1).last() == rv);
        }
        let mut found = false;
        let mut i: usize = 0;
        while i < ls.len() && !found
            invariant
                i <= ls.len(),
                rv == row_view(r@),
                r@.len() == rc.len(),
                rows_view(ls@) == left@.rows,
                lc == left@.columns,
                rows_fit(lc, left@.rows),
                forall|k: int|
                    0 <= k < keys@.len() ==> (#[trigger] keys@[k]).left < lc.len()
                        && keys@[k].right < rc.len(),
                found ==> has_partner(left@.rows, rv, keys@),
                !found ==> forall|k: int|
                    0 <= k < i ==> !rows_match(#[trigger] left@.rows[k], rv, keys@),
            decreases ls.len() - i,
        {
            proof {
                assert(left@.rows[i as int] == row_view(ls@[i as int]@));
                assert(row_fits(lc, left@.rows[i as int]));
            }
            if keys_match(&ls[i], r, keys) {
                found = true;
            }
            i += 1;
        }
        if !found {
            let pad = null_row(width);
            rows.push(concat_rows(&pad, r));
            proof {
                assert(row_view(pad@ + r@) =~= nulls(width as nat) + rv);
                assert(rows_view(rows@) =~= before.push(nulls(width as nat) + rv));
                lemma_nulls_fit(lc);
                lemma_fits_relaxed(rc, rv, true);
                lemma_concat_fits(
                    side_columns(lc, true),
                    nulls(width as nat),
                    side_columns(rc, true),
                    rv,
                );
            }
        }
        j += 1;
    }
    proof {
        assert(right@.rows.take(rs.len() as int) == right@.rows);
    }
    rows
}

/// The cross join of two tables: every pair of a left row and a right row,
/// joined into one row, the pairs of the first left row first. With `m` left
/// rows and `n` right rows the result has `m * n` rows, none where either
/// table is empty. Fails, with `SchemaMismatch`, exactly when a name stands
/// on both sides.
pub fn cross_join(left: &Table, right: &Table) -> (out: Result<Table, EngineError>)
    ensures
        match out {
            Ok(joined) => {
                &&& distinct_names(names_of(left@.columns + right@.columns))
                &&& joined@.columns == left@.columns + right@.columns
                &&& joined@.rows == cross_rows(left@.rows, right@.rows)
                &&& joined@.rows.len() == left@.rows.len() * right@.rows.len()
                &&& joined@.wf()
            },
            Err(e) => e == EngineError::SchemaMismatch && !distinct_names(
                names_of(left@.columns + right@.columns),
            ),
        },
{
    let schema = match joined_schema(left.schema(), right.schema(), JoinKind::Inner) {
        Ok(schema) => schema,
        Err(e) => {
            return Err(e);
        },
    };
    let ls = left.rows();
    let rs = right.rows();
    let ghost lc = left@.columns;
    let ghost rc = right@.columns;
    let ghost n = rs@.len() as int;
    let mut rows: Vec<Vec<Value>> = Vec::new();
    let mut i: usize = 0;
    while i < ls.len()
        invariant
            i <= ls.len(),
            n == rs@.len(),
            lc == left@.columns,
            rc == right@.columns,
            rows_view(ls@) == left@.rows,
            rows_view(rs@) == right@.rows,
            rows_fit(lc, left@.rows),
            rows_fit(rc, right@.rows),
            rows@.len() == i * n,
            forall|k: int|
                0 <= k < rows@.len() ==> row_view((#[trigger] rows@[k])@) == left@.rows[k / n]
                    + right@.rows[k % n],
            rows_fit(lc + rc, rows_view(rows@)),
        decreases ls.len() - i,
    {
        let mut j: usize = 0;
        while j < rs.len()
            invariant
                j <= rs.len(),
                i < ls.len(),
                n == rs@.len(),
                lc == left@.columns,
                rc == right@.columns,
                rows_view(ls@) == left@.rows,
                rows_view(rs@) == right@.rows,
                rows_fit(lc, left@.rows),
                rows_fit(rc, right@.rows),
                rows@.len() == i * n + j,
                forall|k: int|
                    0 <= k < rows@.len() ==> row_view((#[trigger] rows@[k])@) == left@.rows[k / n]
                        + right@.rows[k % n],
                rows_fit(lc + rc, rows_view(rows@)),
            decreases rs.len() - j,
        {
            let ghost at = rows@.len() as int;
            let ghost before = rows@;
            rows.push(concat_rows(&ls[i], &rs[j]));
            proof {
                let lv = left@.rows[i as int];
                let rv = right@.rows[j as int];
                assert(lv == row_view(ls@[i as int]@));
                assert(rv == row_view(rs@[j as int]@));
                assert(row_view(ls@[i as int]@ + rs@[j as int]@) =~= lv + rv);
                lemma_fundamental_div_mod_converse(at, n, i as int, j as int);
                assert forall|k: int| 0 <= k < rows@.len() implies row_view(
                    (#[trigger] rows@[k])@,
                ) == left@.rows[k / n] + right@.rows[k % n] by {
                    if k < at {
                        assert(rows@[k] == before[k]);
                    }
                }
                assert(row_fits(lc, lv));
                assert(row_fits(rc, rv));
                lemma_concat_fits(lc, lv, rc, rv);
                assert forall|k: int| 0 <= k < rows@.len() implies row_fits(
                    lc + rc,
                    #[trigger] rows_view(rows@)[k],
                ) by {
                    if k < at {
                        assert(rows_view(rows@)[k] == rows_view(before)[k]);
                    }
                }
            }
            j += 1;
        }
        proof {
            assert(i * n + n == (i + 1) * n) by (nonlinear_arith);
        }
        i += 1;
    }
    proof {
        assert(rows_view(rows@) =~= cross_rows(left@.rows, right@.rows));
    }
    Ok(Table::assemble(schema, rows))
}

/// The anti-join of `left` against `right` on the equalities `on`: the rows
/// of `left` that match no row of `right`, in their order and under the
/// schema of `left`. Fails exactly when a key is at fault: a key column that
/// is missing on its side (`UnknownColumn`), or a key whose two columns are
/// of different kinds (`TypeMismatch`).
pub fn anti_join(left: &Table, right: &Table, on: &Vec<JoinKey>) -> (out: Result<
    Table,
    EngineError,
>)
    ensures
        match out {
            Ok(rest) => {
                &&& keys_fault(left@.columns, right@.columns, on@) is None
                &&& rest@.columns == left@.columns
                &&& rest@.rows == lonely_rows(
                    left@.rows,
                    right@.rows,
                    keys_at(left@.columns, right@.columns, on@),
                )
                &&& rest@.wf()
            },
            Err(e) => keys_fault(left@.columns, right@.columns, on@) == Some(e),
        },
{
    let keys = match resolve_keys(left.schema(), right.schema(), on) {
        Ok(keys) => keys,
        Err(e) => {
            return Err(e);
        },
    };
    let ls = left.rows();
    let rs = right.rows();
    let ghost lc = left@.columns;
    let ghost rc = right@.columns;
    let mut rows: Vec<Vec<Value>> = Vec::new();
    let mut i: usize = 0;
    while i < ls.len()
        invariant
            i <= ls.len(),
            lc == left@.columns,
            rc == right@.columns,
            rows_view(ls@) == left@.rows,
            rows_view(rs@) == right@.rows,
            rows_fit(lc, left@.rows),
            rows_fit(rc, right@.rows),
            forall|k: int|
                0 <= k < keys@.len() ==> (#[trigger] keys@[k]).left < lc.len() && keys@[k].right
                    < rc.len(),
            rows_view(rows@) == lonely_rows(left@.rows.take(i as int), right@.rows, keys@),
            rows_fit(lc, rows_view(rows@)),
        decreases ls.len() - i,
    {
        let l = &ls[i];
        let ghost lv = left@.rows[i as int];
        let ghost before = rows_view(rows@);
        proof {
            assert(lv == row_view(l@));
            assert(row_fits(lc, lv));
            assert(left@.rows.take(i as int + 1).drop_last() == left@.rows.take(i as int));
            assert(left@.rows.take(i as int + 1).last() == lv);
        }
        let mut found = false;
        let mut j: usize = 0;
        while j < rs.len() && !found
            invariant
                j <= rs.len(),
                lv == row_view(l@),
                l@.len() == lc.len(),
                rows_view(rs@) == right@.rows,
                rc == right@.columns,
                rows_fit(rc, right@.rows),
                forall|k: int|
                    0 <= k < keys@.len() ==> (#[trigger] keys@[k]).left < lc.len()
                        && keys@[k].right < rc.len(),
                found ==> exists|r: int|
                    0 <= r < right@.rows.len() && rows_match(lv, #[trigger] right@.rows[r], keys@),
                !found ==> forall|r: int|
                    0 <= r < j ==> !rows_match(lv, #[trigger] right@.rows[r], keys@),
            decreases rs.len() - j,
        {
            proof {
                assert(right@.rows[j as int] == row_view(rs@[j as int]@));
                assert(row_fits(rc, right@.rows[j as int]));
            }
            if keys_match(l, &rs[j], &keys) {
                found = true;
            }
            j += 1;
        }
        proof {
            lemma_matches_none(lv, right@.rows, keys@);
        }
        if !found {
            rows.push(copy_row(l));
            proof {
                assert(rows_view(rows@) =~= before.push(lv));
            }
        }
        i += 1;
    }
    proof {
        assert(left@.rows.take(ls.len() as int) == left@.rows);
    }
    Ok(Table::assemble(left.schema().clone(), rows))
}

/// A left row has no match exactly when it matches no right row.
pub proof fn lemma_matches_none(l: Seq<Cell>, right: Seq<Seq<Cell>>, keys: Seq<KeyAt>)
    ensures
        matches_of(l, right, keys).len() == 0 <==> forall|r: int|
            0 <= r < right.len() ==> !rows_match(l, #[trigger] right[r], keys),
    decreases right.len(),
{
    if right.len() > 0 {
        let init = right.drop_last();
        lemma_matches_none(l, init, keys);
        if matches_of(l, right, keys).len() == 0 {
            assert forall|r: int| 0 <= r < right.len() implies !rows_match(
                l,
                #[trigger] right[r],
                keys,
            ) by {
                if r < init.len() {
                    assert(init[r] == right[r]);
                }
            }
        } else if !rows_match(l, right.last(), keys) {
            let r = choose|r: int| 0 <= r < init.len() && rows_match(l, #[trigger] init[r], keys);
            assert(right[r] == init[r]);
        }
    }
}

/// The test for the joined rows whose right side, from position `width` on,
/// holds nothing but nulls.
pub open spec fn right_side_null(width: int) -> spec_fn(Seq<Cell>) -> bool {
    |row: Seq<Cell>| forall|c: int| width <= c < row.len() ==> row[c] is Null
}

/// The left sides of joined rows: the first `width` cells of each.
pub open spec fn left_sides(rows: Seq<Seq<Cell>>, width: int) -> Seq<Seq<Cell>> {
    rows.map_values(|row: Seq<Cell>| row.take(width))
}

/// None of the matches of a left row has a right side of nulls, where there
/// is a key: a key cell that matches is not null.
proof fn lemma_matches_not_null(
    l: Seq<Cell>,
    right: Seq<Seq<Cell>>,
    keys: Seq<KeyAt>,
    right_width: nat,
)
    requires
        keys.len() > 0,
        forall|k: int| 0 <= k < keys.len() ==> (#[trigger] keys[k]).right < right_width,
        forall|r: int| 0 <= r < right.len() ==> (#[trigger] right[r]).len() == right_width,
    ensures
        matches_of(l, right, keys).filter(right_side_null(l.len() as int)).len() == 0,
    decreases right.len(),
{
    reveal(Seq::filter);
    if right.len() > 0 {
        let init = right.drop_last();
        assert forall|r: int| 0 <= r < init.len() implies (#[trigger] init[r]).len()
            == right_width by {
            assert(init[r] == right[r]);
        }
        lemma_matches_not_null(l, init, keys, right_width);
        let r = right.last();
        assert(r == right[right.len() - 1]);
        if rows_match(l, r, keys) {
            let joined = l + r;
            let at = keys[0];
            assert(cell_rel(l[at.left as int], r[at.right as int]) == Some(Rel::Same));
            assert(joined[l.len() + at.right] == r[at.right as int]);
            assert(!right_side_null(l.len() as int)(joined));
            matches_of(l, init, keys).lemma_filter_push(joined, right_side_null(l.len() as int));
        }
    }
}

/// A left outer join, filtered down to the rows whose right side is all
/// null, holds on its left side the rows of the anti-join, in the same order:
/// the left rows without a match. This needs a key: without one every pair
/// of rows matches.
pub proof fn lemma_left_join_anti_join(left: TableView, right: TableView, keys: Seq<KeyAt>)
    requires
        left.wf(),
        right.wf(),
        keys.len() > 0,
        forall|k: int|
            0 <= k < keys.len() ==> (#[trigger] keys[k]).left < left.columns.len()
                && keys[k].right < right.columns.len(),
    ensures
        left_sides(
            joined_rows(left, right, keys, JoinKind::LeftOuter).filter(
                right_side_null(left.columns.len() as int),
            ),
            left.columns.len() as int,
        ) == lonely_rows(left.rows, right.rows, keys),
{
    assert forall|r: int| 0 <= r < right.rows.len() implies (#[trigger] right.rows[r]).len()
        == right.columns.len() by {
        assert(row_fits(right.columns, right.rows[r]));
    }
    assert forall|r: int| 0 <= r < left.rows.len() implies (#[trigger] left.rows[r]).len()
        == left.columns.len() by {
        assert(row_fits(left.columns, left.rows[r]));
    }
    lemma_outer_part_lonely(
        left.rows,
        right.rows,
        keys,
        left.columns.len(),
        right.columns.len(),
    );
}

proof fn lemma_outer_part_lonely(
    left: Seq<Seq<Cell>>,
    right: Seq<Seq<Cell>>,
    keys: Seq<KeyAt>,
    left_width: nat,
    right_width: nat,
)
    requires
        keys.len() > 0,
        forall|k: int| 0 <= k < keys.len() ==> (#[trigger] keys[k]).right < right_width,
        forall|r: int| 0 <= r < right.len() ==> (#[trigger] right[r]).len() == right_width,
        forall|r: int| 0 <= r < left.len() ==> (#[trigger] left[r]).len() == left_width,
    ensures
        left_sides(
            left_part(left, right, keys, true, right_width).filter(
                right_side_null(left_width as int),
            ),
            left_width as int,
        ) == lonely_rows(left, right, keys),
    decreases left.len(),
{
    let test = right_side_null(left_width as int);
    let w = left_width as int;
    if left.len() == 0 {
        reveal(Seq::filter);
        assert(left_sides(left_part(left, right, keys, true, right_width).filter(test), w)
            =~= lonely_rows(left, right, keys));
    } else {
        let init = left.drop_last();
        let l = left.last();
        assert(l == left[left.len() - 1]);
        assert forall|r: int| 0 <= r < init.len() implies (#[trigger] init[r]).len()
            == left_width by {
            assert(init[r] == left[r]);
        }
        lemma_outer_part_lonely(init, right, keys, left_width, right_width);
        let before = left_part(init, right, keys, true, right_width);
        let found = matches_of(l, right, keys);
        if found.len() == 0 {
            let padded = l + nulls(right_width);
            assert(test(padded));
            before.lemma_filter_push(padded, test);
            assert(padded.take(w) =~= l);
            assert(left_sides(before.filter(test).push(padded), w) =~= left_sides(
                before.filter(test),
                w,
            ).push(l));
        } else {
            lemma_matches_not_null(l, right, keys, right_width);
            Seq::filter_distributes_over_add(before, found, test);
            assert(found.filter(test) =~= Seq::<Seq<Cell>>::empty());
            assert(before.filter(test) + found.filter(test) =~= before.filter(test));
        }
    }
}

} // verus!
