//! Sorting: the rows of a table in the order of some of their cells.
//!
//! The sort is stable: rows that the keys do not tell apart keep the order
//! they had.

use vstd::prelude::*;
use crate::error::EngineError;
use crate::order::{
    lemma_rows_converse, lemma_rows_transitive, rows_order, rows_rel, SortAt,
};
use crate::schema::{names_of, position_of, ColumnView, Schema};
use crate::table::{copy_row, row_fits, row_view, rows_fit, rows_view, Table, TableView};
use crate::value::{Cell, Rel, Value};

verus! {

/// Whether lesser or greater values come first.
#[derive(Clone, Copy, Debug, PartialEq, Eq, Structural)]
pub enum Direction {
    Ascending,
    Descending,
}

/// Where the nulls of a sort key go.
#[derive(Clone, Copy, Debug, PartialEq, Eq, Structural)]
pub enum NullPlacement {
    /// Last where the key ascends, first where it descends.
    Default,
    First,
    Last,
}

/// One key of a sort: a column, a direction, and a place for the nulls.
#[derive(Debug)]
pub struct SortKey {
    pub column: String,
    pub direction: Direction,
    pub nulls: NullPlacement,
}

impl SortKey {
    pub fn new(column: &str, direction: Direction, nulls: NullPlacement) -> (key: SortKey)
        ensures
            key.column@ == column@,
            key.direction == direction,
            key.nulls == nulls,
    {
        SortKey { column: column.to_owned(), direction, nulls }
    }
}

/// A sort key with its column found and its place for nulls settled.
pub open spec fn sort_at(columns: Seq<ColumnView>, key: SortKey) -> SortAt {
    SortAt {
        column: position_of(names_of(columns), key.column@).unwrap() as usize,
        descending: key.direction == Direction::Descending,
        nulls_first: match key.nulls {
            NullPlacement::First => true,
            NullPlacement::Last => false,
            NullPlacement::Default => key.direction == Direction::Descending,
        },
    }
}

/// The sort keys with their columns found.
pub open spec fn sorts_at(columns: Seq<ColumnView>, keys: Seq<SortKey>) -> Seq<SortAt> {
    keys.map_values(|key: SortKey| sort_at(columns, key))
}

/// Whether the schema holds the column of every sort key.
pub open spec fn sortable(columns: Seq<ColumnView>, keys: Seq<SortKey>) -> bool {
    forall|i: int|
        0 <= i < keys.len() ==> position_of(names_of(columns), (#[trigger] keys[i]).column@)
            is Some
}

/// Whether the row at `p` has its place before the row at `q`: the keys put
/// it first, or they do not tell the two apart and it stood first.
pub open spec fn precedes(rows: Seq<Seq<Cell>>, keys: Seq<SortAt>, p: int, q: int) -> bool {
    let rel = rows_rel(rows[p], rows[q], keys, 0);
    rel == Rel::Before || (rel == Rel::Same && p < q)
}

/// Whether `places` lists the positions of the rows in sorted order: as many
/// positions as there are rows, each of them before all that follow it.
pub open spec fn is_sorting(rows: Seq<Seq<Cell>>, keys: Seq<SortAt>, places: Seq<int>) -> bool {
    &&& places.len() == rows.len()
    &&& forall|i: int| 0 <= i < places.len() ==> 0 <= #[trigger] places[i] < rows.len()
    &&& forall|i: int, j: int|
        0 <= i < j < places.len() ==> precedes(rows, keys, #[trigger] places[i], #[trigger] places[j])
}

/// The rows in the order that `places` lists them.
pub open spec fn arranged(rows: Seq<Seq<Cell>>, places: Seq<int>) -> Seq<Seq<Cell>> {
    places.map_values(|p: int| rows[p])
}

/// No position occurs twice in a sorting.
pub proof fn lemma_sorting_distinct(rows: Seq<Seq<Cell>>, keys: Seq<SortAt>, places: Seq<int>)
    requires
        is_sorting(rows, keys, places),
    ensures
        forall|i: int, j: int| 0 <= i < j < places.len() ==> places[i] != places[j],
{
    assert forall|i: int, j: int| 0 <= i < j < places.len() implies places[i] != places[j] by {
        assert(precedes(rows, keys, places[i], places[j]));
        lemma_rows_converse(rows[places[i]], rows[places[i]], keys, 0);
    }
}

/// Every position occurs in a sorting.
pub proof fn lemma_sorting_covers(
    rows: Seq<Seq<Cell>>,
    keys: Seq<SortAt>,
    places: Seq<int>,
    x: int,
)
    requires
        is_sorting(rows, keys, places),
        0 <= x < rows.len(),
    ensures
        exists|k: int| 0 <= k < places.len() && places[k] == x,
{
    broadcast use vstd::seq_lib::seq_to_set_is_finite;

    let n = rows.len() as int;
    let range = vstd::set_lib::set_int_range(0, n);
    lemma_sorting_distinct(rows, keys, places);
    assert(places.no_duplicates());
    places.unique_seq_to_set();
    vstd::set_lib::lemma_int_range(0, n);
    assert(places.to_set().subset_of(range)) by {
        assert forall|a: int| places.to_set().contains(a) implies range.contains(a) by {
            let i = choose|i: int| 0 <= i < places.len() && places[i] == a;
            assert(0 <= places[i] < rows.len());
        }
    }
    vstd::set_lib::lemma_subset_equality(places.to_set(), range);
    assert(range.contains(x));
    assert(places.to_set().contains(x));
    assert(places.contains(x));
}

/// Two sortings that agree before `k` agree at `k`.
proof fn lemma_sortings_agree_at(
    rows: Seq<Seq<Cell>>,
    keys: Seq<SortAt>,
    first: Seq<int>,
    second: Seq<int>,
    k: int,
)
    requires
        is_sorting(rows, keys, first),
        is_sorting(rows, keys, second),
        0 <= k < rows.len(),
        forall|j: int| 0 <= j < k ==> first[j] == second[j],
    ensures
        first[k] == second[k],
{
    let x = first[k];
    let y = second[k];
    if x != y {
        lemma_sorting_distinct(rows, keys, first);
        lemma_sorting_distinct(rows, keys, second);
        lemma_sorting_covers(rows, keys, second, x);
        lemma_sorting_covers(rows, keys, first, y);
        let j = choose|j: int| 0 <= j < second.len() && second[j] == x;
        let i = choose|i: int| 0 <= i < first.len() && first[i] == y;
        if j < k {
            assert(first[j] == second[j]);
        }
        if i < k {
            assert(first[i] == second[i]);
        }
        assert(precedes(rows, keys, second[k], second[j]));
        assert(precedes(rows, keys, first[k], first[i]));
        lemma_rows_converse(rows[x], rows[y], keys, 0);
    }
}

/// Two sortings agree on their first `k` positions.
proof fn lemma_sortings_agree_before(
    rows: Seq<Seq<Cell>>,
    keys: Seq<SortAt>,
    first: Seq<int>,
    second: Seq<int>,
    k: int,
)
    requires
        is_sorting(rows, keys, first),
        is_sorting(rows, keys, second),
        0 <= k <= rows.len(),
    ensures
        forall|j: int| 0 <= j < k ==> first[j] == second[j],
    decreases k,
{
    if k > 0 {
        lemma_sortings_agree_before(rows, keys, first, second, k - 1);
        lemma_sortings_agree_at(rows, keys, first, second, k - 1);
    }
}

/// The rows of a table can be sorted in one way only: the keys and the
/// order that the rows had settle the place of every row.
pub proof fn lemma_sorting_unique(
    rows: Seq<Seq<Cell>>,
    keys: Seq<SortAt>,
    first: Seq<int>,
    second: Seq<int>,
)
    requires
        is_sorting(rows, keys, first),
        is_sorting(rows, keys, second),
    ensures
        first == second,
        arranged(rows, first) == arranged(rows, second),
{
    lemma_sortings_agree_before(rows, keys, first, second, rows.len() as int);
    assert(first =~= second);
}

/// Sorting neither adds nor drops a row: the sorted rows are the rows of the
/// table, each as often as the table holds it.
pub proof fn lemma_sorting_permutes(rows: Seq<Seq<Cell>>, keys: Seq<SortAt>, places: Seq<int>)
    requires
        is_sorting(rows, keys, places),
    ensures
        arranged(rows, places).to_multiset() == rows.to_multiset(),
    decreases rows.len(),
{
    if rows.len() == 0 {
        assert(arranged(rows, places) =~= rows);
    } else {
        let n = rows.len() as int;
        let init = rows.drop_last();
        let last = rows.last();
        lemma_sorting_distinct(rows, keys, places);
        lemma_sorting_covers(rows, keys, places, n - 1);
        let k = choose|k: int| 0 <= k < places.len() && places[k] == n - 1;
        let rest = places.remove(k);
        assert forall|i: int| 0 <= i < rest.len() implies 0 <= #[trigger] rest[i] < init.len() by {
            if i < k {
                assert(rest[i] == places[i]);
            } else {
                assert(rest[i] == places[i + 1]);
            }
        }
        assert forall|i: int, j: int| 0 <= i < j < rest.len() implies precedes(
            init,
            keys,
            #[trigger] rest[i],
            #[trigger] rest[j],
        ) by {
            let a = if i < k {
                i
            } else {
                i + 1
            };
            let b = if j < k {
                j
            } else {
                j + 1
            };
            assert(rest[i] == places[a] && rest[j] == places[b]);
            assert(precedes(rows, keys, places[a], places[b]));
            assert(init[rest[i]] == rows[places[a]]);
            assert(init[rest[j]] == rows[places[b]]);
        }
        assert(is_sorting(init, keys, rest));
        lemma_sorting_permutes(init, keys, rest);
        assert(arranged(rows, places) =~= arranged(init, rest).insert(k, last)) by {
            assert forall|i: int| 0 <= i < places.len() implies arranged(rows, places)[i]
                == arranged(init, rest).insert(k, last)[i] by {
                if i < k {
                    assert(rest[i] == places[i]);
                    assert(init[rest[i]] == rows[places[i]]);
                } else if i > k {
                    assert(rest[i - 1] == places[i]);
                    assert(init[rest[i - 1]] == rows[places[i]]);
                }
            }
        }
        vstd::seq_lib::to_multiset_insert(arranged(init, rest), k, last);
        assert(rows == init.push(last));
        vstd::seq_lib::to_multiset_build(init, last);
    }
}

fn resolve_sort_keys(schema: &Schema, keys: &Vec<SortKey>) -> (out: Result<Vec<SortAt>, EngineError>)
    ensures
        match out {
            Ok(at) => {
                &&& sortable(schema@, keys@)
                &&& at@ == sorts_at(schema@, keys@)
                &&& forall|k: int| 0 <= k < at@.len() ==> (#[trigger] at@[k]).column < schema@.len()
            },
            Err(e) => e == EngineError::UnknownColumn && !sortable(schema@, keys@),
        },
{
    let mut at: Vec<SortAt> = Vec::new();
    let mut i: usize = 0;
    while i < keys.len()
        invariant
            i <= keys.len(),
            at@.len() == i,
            forall|k: int|
                0 <= k < i ==> position_of(names_of(schema@), (#[trigger] keys@[k]).column@)
                    is Some,
            forall|k: int| 0 <= k < i ==> (#[trigger] at@[k]) == sort_at(schema@, keys@[k]),
            forall|k: int| 0 <= k < i ==> (#[trigger] at@[k]).column < schema@.len(),
        decreases keys.len() - i,
    {
        let key = &keys[i];
        match schema.index_of(key.column.as_str()) {
            None => {
                assert(position_of(names_of(schema@), keys@[i as int].column@) is None);
                return Err(EngineError::UnknownColumn);
            },
            Some(c) => {
                let descending = match key.direction {
                    Direction::Descending => true,
                    Direction::Ascending => false,
                };
                let nulls_first = match key.nulls {
                    NullPlacement::First => true,
                    NullPlacement::Last => false,
                    NullPlacement::Default => descending,
                };
                at.push(SortAt { column: c, descending, nulls_first });
            },
        }
        i += 1;
    }
    proof {
        assert(at@ =~= sorts_at(schema@, keys@));
    }
    Ok(at)
}

/// The positions of the rows in sorted order.
fn sorted_places(rows: &Vec<Vec<Value>>, at: &Vec<SortAt>) -> (places: Vec<usize>)
    requires
        forall|r: int, k: int|
            0 <= r < rows@.len() && 0 <= k < at@.len() ==> (#[trigger] at@[k]).column < (
            #[trigger] rows@[r])@.len(),
    ensures
        is_sorting(rows_view(rows@), at@, places@.map_values(|p: usize| p as int)),
{
    let ghost all = rows_view(rows@);
    let mut places: Vec<usize> = Vec::new();
    let mut i: usize = 0;
    while i < rows.len()
        invariant
            i <= rows.len(),
            all == rows_view(rows@),
            forall|r: int, k: int|
                0 <= r < rows@.len() && 0 <= k < at@.len() ==> (#[trigger] at@[k]).column < (
                #[trigger] rows@[r])@.len(),
            places@.len() == i,
            forall|k: int| 0 <= k < i ==> (#[trigger] places@[k]) < i,
            forall|a: int, b: int|
                0 <= a < b < i ==> precedes(
                    all,
                    at@,
                    (#[trigger] places@[a]) as int,
                    (#[trigger] places@[b]) as int,
                ),
        decreases rows.len() - i,
    {
        let row = &rows[i];
        let ghost rv = all[i as int];
        let mut p: usize = 0;
        let mut found = false;
        while p < places.len() && !found
            invariant
                p <= places.len(),
                places@.len() == i,
                i < rows.len(),
                all == rows_view(rows@),
                rv == all[i as int],
                rv == row_view(row@),
                row@ == rows@[i as int]@,
                forall|r: int, k: int|
                    0 <= r < rows@.len() && 0 <= k < at@.len() ==> (#[trigger] at@[k]).column < (
                    #[trigger] rows@[r])@.len(),
                forall|k: int| 0 <= k < i ==> (#[trigger] places@[k]) < i,
                forall|q: int|
                    0 <= q < p - (if found {
                        1int
                    } else {
                        0int
                    }) ==> rows_rel(rv, all[(#[trigger] places@[q]) as int], at@, 0)
                        != Rel::Before,
                found ==> p > 0 && rows_rel(rv, all[places@[p - 1] as int], at@, 0) == Rel::Before,
            decreases places.len() - p,
        {
            let other = &rows[places[p]];
            proof {
                assert(all[places@[p as int] as int] == row_view(other@));
                assert forall|k: int| 0 <= k < at@.len() implies (#[trigger] at@[k]).column
                    < row@.len() && at@[k].column < other@.len() by {
                    assert(at@[k].column < rows@[i as int]@.len());
                    assert(at@[k].column < rows@[places@[p as int] as int]@.len());
                }
            }
            if rows_order(row, other, at) == Rel::Before {
                found = true;
            }
            p += 1;
        }
        let spot: usize = if found {
            p - 1
        } else {
            p
        };
        let ghost before = places@;
        places.insert(spot, i);
        proof {
            let after = places@;
            assert forall|k: int| 0 <= k < i + 1 implies (#[trigger] after[k]) < i + 1 by {
                if k < spot {
                    assert(after[k] == before[k]);
                } else if k > spot {
                    assert(after[k] == before[k - 1]);
                }
            }
            assert forall|a: int, b: int| 0 <= a < b < i + 1 implies precedes(
                all,
                at@,
                (#[trigger] after[a]) as int,
                (#[trigger] after[b]) as int,
            ) by {
                if b < spot {
                    assert(after[a] == before[a] && after[b] == before[b]);
                } else if b == spot {
                    assert(after[a] == before[a]);
                    lemma_rows_converse(rv, all[before[a] as int], at@, 0);
                } else if a > spot {
                    assert(after[a] == before[a - 1] && after[b] == before[b - 1]);
                } else if a == spot {
                    assert(after[b] == before[b - 1]);
                    assert(found);
                    if b - 1 > spot {
                        assert(precedes(all, at@, before[spot as int] as int, before[b - 1] as int));
                        lemma_rows_transitive(
                            rv,
                            all[before[spot as int] as int],
                            all[before[b - 1] as int],
                            at@,
                            0,
                        );
                    }
                } else {
                    assert(after[a] == before[a] && after[b] == before[b - 1]);
                }
            }
        }
        i += 1;
    }
    proof {
        let listed = places@.map_values(|p: usize| p as int);
        assert forall|a: int, b: int| 0 <= a < b < listed.len() implies precedes(
            all,
            at@,
            #[trigger] listed[a],
            #[trigger] listed[b],
        ) by {
            assert(precedes(all, at@, places@[a] as int, places@[b] as int));
        }
    }
    places
}

/// The rows of `table` sorted by `keys`, the first key first; rows that the
/// keys do not tell apart keep their order. Fails with `UnknownColumn`
/// exactly when the schema lacks the column of a key.
pub fn order_by(table: &Table, keys: &Vec<SortKey>) -> (out: Result<Table, EngineError>)
    ensures
        match out {
            Ok(sorted) => {
                &&& sortable(table@.columns, keys@)
                &&& sorted@.columns == table@.columns
                &&& exists|places: Seq<int>|
                    is_sorting(table@.rows, sorts_at(table@.columns, keys@), places)
                        && sorted@.rows == arranged(table@.rows, places)
                &&& sorted@.wf()
            },
            Err(e) => e == EngineError::UnknownColumn && !sortable(table@.columns, keys@),
        },
{
    let schema = table.schema();
    let at = match resolve_sort_keys(schema, keys) {
        Ok(at) => at,
        Err(e) => {
            return Err(e);
        },
    };
    let rows = table.rows();
    let ghost all = table@.rows;
    proof {
        assert forall|r: int, k: int| 0 <= r < rows@.len() && 0 <= k < at@.len() implies (
        #[trigger] at@[k]).column < (#[trigger] rows@[r])@.len() by {
            assert(row_fits(table@.columns, rows_view(rows@)[r]));
        }
    }
    let places = sorted_places(rows, &at);
    let ghost listed = places@.map_values(|p: usize| p as int);
    let mut sorted: Vec<Vec<Value>> = Vec::new();
    let mut k: usize = 0;
    while k < places.len()
        invariant
            k <= places.len(),
            all == rows_view(rows@),
            rows_fit(table@.columns, all),
            listed == places@.map_values(|p: usize| p as int),
            is_sorting(all, at@, listed),
            sorted@.len() == k,
            forall|j: int| 0 <= j < k ==> row_view((#[trigger] sorted@[j])@) == all[listed[j]],
        decreases places.len() - k,
    {
        proof {
            assert(0 <= listed[k as int] < all.len());
        }
        sorted.push(copy_row(&rows[places[k]]));
        k += 1;
    }
    proof {
        assert(rows_view(sorted@) =~= arranged(all, listed));
        assert forall|r: int| 0 <= r < sorted@.len() implies row_fits(
            table@.columns,
            #[trigger] rows_view(sorted@)[r],
        ) by {
            assert(0 <= listed[r] < all.len());
            assert(row_fits(table@.columns, all[listed[r]]));
        }
    }
    Ok(Table::assemble(schema.clone(), sorted))
}

} // verus!
