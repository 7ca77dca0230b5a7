//! Distinct: one row for each key, the first that has it.
//!
//! Keys are compared cell by cell, and here a null is the same as a null:
//! two rows whose keys are null in the same places, and equal elsewhere, are
//! duplicates of each other.

use vstd::prelude::*;
use crate::error::EngineError;
use crate::schema::{names_of, position_of, ColumnView, Schema};
use crate::table::{copy_row, row_fits, row_view, rows_fit, rows_view, Table, TableView};
use crate::value::{Cell, Value};

verus! {

/// The cells of `row` at the positions `at`, in the order of `at`.
pub open spec fn project(row: Seq<Cell>, at: Seq<usize>) -> Seq<Cell> {
    at.map_values(|c: usize| row[c as int])
}

/// Whether one of the first `n` rows has the key `key`.
pub open spec fn seen_before(rows: Seq<Seq<Cell>>, n: int, at: Seq<usize>, key: Seq<Cell>) -> bool {
    exists|j: int| 0 <= j < n && project(#[trigger] rows[j], at) == key
}

/// The rows whose key no earlier row has, in their order.
pub open spec fn first_occurrences(rows: Seq<Seq<Cell>>, at: Seq<usize>) -> Seq<Seq<Cell>>
    decreases rows.len(),
{
    if rows.len() == 0 {
        Seq::empty()
    } else {
        let before = first_occurrences(rows.drop_last(), at);
        if seen_before(rows, rows.len() - 1, at, project(rows.last(), at)) {
            before
        } else {
            before.push(rows.last())
        }
    }
}

/// Every position, in order: the key that is the whole row.
pub open spec fn all_positions(width: nat) -> Seq<usize> {
    Seq::new(width, |c: int| c as usize)
}

/// The positions of the named columns, in the order of the names.
pub open spec fn positions_of(columns: Seq<ColumnView>, names: Seq<String>) -> Seq<usize> {
    names.map_values(|name: String| position_of(names_of(columns), name@).unwrap() as usize)
}

/// Whether the schema holds every one of the names.
pub open spec fn all_known(columns: Seq<ColumnView>, names: Seq<String>) -> bool {
    forall|i: int|
        0 <= i < names.len() ==> position_of(names_of(columns), (#[trigger] names[i])@) is Some
}

/// The key positions that `unique` goes by: those of the named columns, or
/// every position where none are named.
pub open spec fn key_positions(columns: Seq<ColumnView>, subset: Option<&Vec<String>>) -> Seq<
    usize,
> {
    match subset {
        Some(names) => positions_of(columns, names@),
        None => all_positions(columns.len()),
    }
}

/// The positions of the named columns. Fails with `UnknownColumn` exactly
/// when the schema lacks one of the names.
pub fn locate(schema: &Schema, names: &Vec<String>) -> (out: Result<Vec<usize>, EngineError>)
    ensures
        match out {
            Ok(at) => {
                &&& all_known(schema@, names@)
                &&& at@ == positions_of(schema@, names@)
                &&& forall|k: int| 0 <= k < at@.len() ==> (#[trigger] at@[k]) < schema@.len()
            },
            Err(e) => e == EngineError::UnknownColumn && !all_known(schema@, names@),
        },
{
    let mut at: Vec<usize> = Vec::new();
    let mut i: usize = 0;
    while i < names.len()
        invariant
            i <= names.len(),
            at@.len() == i,
            forall|k: int|
                0 <= k < i ==> position_of(names_of(schema@), (#[trigger] names@[k])@) == Some(
                    at@[k] as int,
                ),
            forall|k: int| 0 <= k < i ==> (#[trigger] at@[k]) < schema@.len(),
        decreases names.len() - i,
    {
        match schema.index_of(names[i].as_str()) {
            Some(c) => {
                at.push(c);
            },
            None => {
                assert(position_of(names_of(schema@), names@[i as int]@) is None);
                return Err(EngineError::UnknownColumn);
            },
        }
        i += 1;
    }
    proof {
        assert(at@ =~= positions_of(schema@, names@));
    }
    Ok(at)
}

/// Every position of a row of `width` cells.
pub fn every_position(width: usize) -> (at: Vec<usize>)
    ensures
        at@ == all_positions(width as nat),
{
    let mut at: Vec<usize> = Vec::new();
    let mut c: usize = 0;
    while c < width
        invariant
            c <= width,
            at@.len() == c,
            forall|k: int| 0 <= k < c ==> (#[trigger] at@[k]) == k,
        decreases width - c,
    {
        at.push(c);
        c += 1;
    }
    proof {
        assert(at@ =~= all_positions(width as nat));
    }
    at
}

/// Whether two rows have the same key.
pub fn same_key(a: &Vec<Value>, b: &Vec<Value>, at: &Vec<usize>) -> (same: bool)
    requires
        forall|k: int| 0 <= k < at@.len() ==> (#[trigger] at@[k]) < a@.len() && at@[k] < b@.len(),
    ensures
        same == (project(row_view(a@), at@) == project(row_view(b@), at@)),
{
    let ghost x = project(row_view(a@), at@);
    let ghost y = project(row_view(b@), at@);
    let mut k: usize = 0;
    while k < at.len()
        invariant
            k <= at.len(),
            x == project(row_view(a@), at@),
            y == project(row_view(b@), at@),
            forall|k: int|
                0 <= k < at@.len() ==> (#[trigger] at@[k]) < a@.len() && at@[k] < b@.len(),
            forall|j: int| 0 <= j < k ==> x[j] == y[j],
        decreases at.len() - k,
    {
        let c = at[k];
        if !(a[c] == b[c]) {
            assert(x[k as int] != y[k as int]);
            return false;
        }
        k += 1;
    }
    proof {
        assert(x =~= y);
    }
    true
}

/// The rows whose key no earlier row has, in their order.
pub fn dedup_rows(rows: &Vec<Vec<Value>>, at: &Vec<usize>) -> (kept: Vec<Vec<Value>>)
    requires
        forall|r: int, k: int|
            0 <= r < rows@.len() && 0 <= k < at@.len() ==> (#[trigger] at@[k]) < (
            #[trigger] rows@[r])@.len(),
    ensures
        rows_view(kept@) == first_occurrences(rows_view(rows@), at@),
        forall|columns: Seq<ColumnView>|
            rows_fit(columns, rows_view(rows@)) ==> rows_fit(columns, rows_view(kept@)),
{
    let ghost all = rows_view(rows@);
    let mut kept: Vec<Vec<Value>> = Vec::new();
    let mut i: usize = 0;
    while i < rows.len()
        invariant
            i <= rows.len(),
            all == rows_view(rows@),
            forall|r: int, k: int|
                0 <= r < rows@.len() && 0 <= k < at@.len() ==> (#[trigger] at@[k]) < (
                #[trigger] rows@[r])@.len(),
            rows_view(kept@) == first_occurrences(all.take(i as int), at@),
            forall|k: int|
                0 <= k < kept@.len() ==> exists|r: int|
                    0 <= r < i && all[r] == #[trigger] rows_view(kept@)[k],
        decreases rows.len() - i,
    {
        let ghost key = project(all[i as int], at@);
        let ghost before = rows_view(kept@);
        proof {
            assert(all.take(i as int + 1).drop_last() == all.take(i as int));
            assert(all.take(i as int + 1).last() == all[i as int]);
        }
        let mut seen = false;
        let mut j: usize = 0;
        while j < i && !seen
            invariant
                j <= i < rows.len(),
                all == rows_view(rows@),
                key == project(all[i as int], at@),
                forall|r: int, k: int|
                    0 <= r < rows@.len() && 0 <= k < at@.len() ==> (#[trigger] at@[k]) < (
                    #[trigger] rows@[r])@.len(),
                seen ==> seen_before(all, i as int, at@, key),
                !seen ==> forall|r: int| 0 <= r < j ==> project(#[trigger] all[r], at@) != key,
            decreases i - j,
        {
            assert(all[j as int] == row_view(rows@[j as int]@));
            assert(all[i as int] == row_view(rows@[i as int]@));
            if same_key(&rows[j], &rows[i], at) {
                seen = true;
            }
            j += 1;
        }
        proof {
            let upto = all.take(i as int + 1);
            if seen {
                let r = choose|r: int| 0 <= r < i && project(#[trigger] all[r], at@) == key;
                assert(upto[r] == all[r]);
                assert(seen_before(upto, i as int, at@, key));
            } else {
                assert forall|r: int| 0 <= r < i implies project(#[trigger] upto[r], at@)
                    != key by {
                    assert(upto[r] == all[r]);
                }
            }
        }
        if !seen {
            kept.push(copy_row(&rows[i]));
            proof {
                assert(all[i as int] == row_view(rows@[i as int]@));
                assert(rows_view(kept@) =~= before.push(all[i as int]));
                assert forall|k: int| 0 <= k < kept@.len() implies exists|r: int|
                    0 <= r < i + 1 && all[r] == #[trigger] rows_view(kept@)[k] by {
                    if k < before.len() {
                        assert(rows_view(kept@)[k] == before[k]);
                        let r = choose|r: int| 0 <= r < i && all[r] == before[k];
                        assert(all[r] == rows_view(kept@)[k]);
                    } else {
                        assert(all[i as int] == rows_view(kept@)[k]);
                    }
                }
            }
        }
        i += 1;
    }
    proof {
        assert(all.take(rows.len() as int) == all);
        assert forall|columns: Seq<ColumnView>| rows_fit(columns, all) implies rows_fit(
            columns,
            rows_view(kept@),
        ) by {
            assert forall|k: int| 0 <= k < kept@.len() implies row_fits(
                columns,
                #[trigger] rows_view(kept@)[k],
            ) by {
                let r = choose|r: int| 0 <= r < rows@.len() && all[r] == rows_view(kept@)[k];
                assert(row_fits(columns, all[r]));
            }
        }
    }
    kept
}

/// The rows of `table` without duplicates: of the rows that share a key, the
/// first stays, and the rows that stay keep their order. The key is made of
/// the columns named in `subset`, or of all columns where `subset` is `None`.
/// Fails with `UnknownColumn` exactly when the schema lacks a named column.
pub fn unique(table: &Table, subset: Option<&Vec<String>>) -> (out: Result<Table, EngineError>)
    ensures
        match out {
            Ok(kept) => {
                &&& subset matches Some(names) ==> all_known(table@.columns, names@)
                &&& kept@.columns == table@.columns
                &&& kept@.rows == first_occurrences(
                    table@.rows,
                    key_positions(table@.columns, subset),
                )
                &&& kept@.wf()
            },
            Err(e) => {
                &&& e == EngineError::UnknownColumn
                &&& subset matches Some(names)
                &&& !all_known(table@.columns, names@)
            },
        },
{
    let schema = table.schema();
    let at = match subset {
        Some(names) => match locate(schema, names) {
            Ok(at) => at,
            Err(e) => {
                return Err(e);
            },
        },
        None => every_position(schema.len()),
    };
    let rows = table.rows();
    proof {
        assert forall|r: int, k: int| 0 <= r < rows@.len() && 0 <= k < at@.len() implies (
        #[trigger] at@[k]) < (#[trigger] rows@[r])@.len() by {
            assert(row_fits(table@.columns, rows_view(rows@)[r]));
        }
    }
    let kept = dedup_rows(rows, &at);
    Ok(Table::assemble(schema.clone(), kept))
}

/// Rows whose keys all occur before them change nothing: the first
/// occurrences of `head` followed by `tail` are those of `head` alone,
/// where every key of `tail` is a key of `head`.
pub proof fn lemma_first_occurrences_absorb(
    head: Seq<Seq<Cell>>,
    tail: Seq<Seq<Cell>>,
    at: Seq<usize>,
)
    requires
        forall|k: int|
            0 <= k < tail.len() ==> seen_before(
                head,
                head.len() as int,
                at,
                project(#[trigger] tail[k], at),
            ),
    ensures
        first_occurrences(head + tail, at) == first_occurrences(head, at),
    decreases tail.len(),
{
    if tail.len() == 0 {
        assert(head + tail == head);
    } else {
        let all = head + tail;
        let key = project(tail.last(), at);
        assert(all.drop_last() == head + tail.drop_last());
        assert(all.last() == tail.last());
        assert forall|k: int| 0 <= k < tail.drop_last().len() implies seen_before(
            head,
            head.len() as int,
            at,
            project(#[trigger] tail.drop_last()[k], at),
        ) by {
            assert(tail.drop_last()[k] == tail[k]);
        }
        lemma_first_occurrences_absorb(head, tail.drop_last(), at);
        let j = choose|j: int| 0 <= j < head.len() && project(#[trigger] head[j], at) == key;
        assert(all[j] == head[j]);
        assert(seen_before(all, all.len() - 1, at, key));
    }
}

/// What `first_occurrences` leaves: rows of the table, one for each key
/// that occurs in it, and no two of them with the same key.
pub proof fn lemma_first_occurrences(rows: Seq<Seq<Cell>>, at: Seq<usize>)
    ensures
        forall|k: int|
            0 <= k < first_occurrences(rows, at).len() ==> rows.contains(
                #[trigger] first_occurrences(rows, at)[k],
            ),
        forall|r: int|
            0 <= r < rows.len() ==> seen_before(
                first_occurrences(rows, at),
                first_occurrences(rows, at).len() as int,
                at,
                project(#[trigger] rows[r], at),
            ),
        forall|i: int, j: int|
            0 <= i < j < first_occurrences(rows, at).len() ==> project(
                #[trigger] first_occurrences(rows, at)[i],
                at,
            ) != project(#[trigger] first_occurrences(rows, at)[j], at),
    decreases rows.len(),
{
    if rows.len() > 0 {
        let init = rows.drop_last();
        let last = rows.last();
        let key = project(last, at);
        let before = first_occurrences(init, at);
        let kept = first_occurrences(rows, at);
        lemma_first_occurrences(init, at);
        assert(last == rows[rows.len() - 1]);
        assert forall|k: int| 0 <= k < kept.len() implies rows.contains(#[trigger] kept[k]) by {
            if k < before.len() {
                assert(kept[k] == before[k]);
                assert(init.contains(before[k]));
                let r = choose|r: int| 0 <= r < init.len() && init[r] == before[k];
                assert(rows[r] == kept[k]);
            }
        }
        assert forall|r: int| 0 <= r < rows.len() implies seen_before(
            kept,
            kept.len() as int,
            at,
            project(#[trigger] rows[r], at),
        ) by {
            if r < init.len() {
                assert(init[r] == rows[r]);
                let k = choose|k: int|
                    0 <= k < before.len() && project(#[trigger] before[k], at) == project(
                        init[r],
                        at,
                    );
                assert(kept[k] == before[k]);
            } else if seen_before(rows, rows.len() - 1, at, key) {
                let j = choose|j: int| 0 <= j < rows.len() - 1 && project(#[trigger] rows[j], at) == key;
                assert(init[j] == rows[j]);
                let k = choose|k: int|
                    0 <= k < before.len() && project(#[trigger] before[k], at) == project(
                        init[j],
                        at,
                    );
                assert(kept[k] == before[k]);
            } else {
                assert(kept[kept.len() - 1] == last);
            }
        }
        assert forall|i: int, j: int| 0 <= i < j < kept.len() implies project(
            #[trigger] kept[i],
            at,
        ) != project(#[trigger] kept[j], at) by {
            if j < before.len() {
                assert(kept[i] == before[i] && kept[j] == before[j]);
            } else {
                assert(kept[j] == last);
                assert(kept[i] == before[i]);
                assert(init.contains(before[i]));
                let r = choose|r: int| 0 <= r < init.len() && init[r] == before[i];
                assert(rows[r] == before[i]);
            }
        }
    }
}

} // verus!
