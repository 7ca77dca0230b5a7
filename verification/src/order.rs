//! The order in which rows are sorted.
//!
//! Values of one kind are ordered as the query language compares them. Nulls
//! go where the sort key places them. Values of different kinds do not meet in
//! a column of a table; so that the order is total all the same, they are
//! ordered by kind.

use vstd::prelude::*;
use crate::text::{lemma_text_total, lemma_text_transitive};
use crate::value::{cell_rel, int_rel, text_rel, Cell, Rel, Value};

verus! {

/// Where the kinds stand to one another, null first.
pub open spec fn kind_rank(cell: Cell) -> int {
    match cell {
        Cell::Null => 0,
        Cell::Int(_) => 1,
        Cell::Float(_) => 2,
        Cell::Text(_) => 3,
        Cell::Date(_) => 4,
        Cell::Timestamp(_) => 5,
    }
}

/// How two cells stand in the total order of cells: as the query language
/// compares them where it can, else by kind.
pub open spec fn value_rel(a: Cell, b: Cell) -> Rel {
    match cell_rel(a, b) {
        Some(rel) => rel,
        None => int_rel(kind_rank(a), kind_rank(b)),
    }
}

/// The relation read from the other side.
pub open spec fn flip(rel: Rel) -> Rel {
    match rel {
        Rel::Before => Rel::After,
        Rel::Same => Rel::Same,
        Rel::After => Rel::Before,
    }
}

/// One key of a sort, its column found: the position of the column, whether
/// greater values come first, and whether nulls come first.
#[derive(Clone, Copy, Debug)]
pub struct SortAt {
    pub column: usize,
    pub descending: bool,
    pub nulls_first: bool,
}

/// How two cells stand under one sort key.
pub open spec fn placed_rel(a: Cell, b: Cell, key: SortAt) -> Rel {
    if a is Null && b is Null {
        Rel::Same
    } else if a is Null {
        if key.nulls_first {
            Rel::Before
        } else {
            Rel::After
        }
    } else if b is Null {
        if key.nulls_first {
            Rel::After
        } else {
            Rel::Before
        }
    } else if key.descending {
        flip(value_rel(a, b))
    } else {
        value_rel(a, b)
    }
}

/// How two rows stand under the sort keys from the one at `from` on: as
/// their cells stand under the first key that tells them apart.
pub open spec fn rows_rel(a: Seq<Cell>, b: Seq<Cell>, keys: Seq<SortAt>, from: int) -> Rel
    decreases keys.len() - from,
{
    if from < 0 || from >= keys.len() {
        Rel::Same
    } else {
        let rel = placed_rel(a[keys[from].column as int], b[keys[from].column as int], keys[from]);
        if rel != Rel::Same {
            rel
        } else {
            rows_rel(a, b, keys, from + 1)
        }
    }
}

/// Two cells stand as `Same` exactly when they are the same cell, and each
/// stands to the other as the other to it, flipped.
pub proof fn lemma_placed_converse(a: Cell, b: Cell, key: SortAt)
    ensures
        placed_rel(a, b, key) == Rel::Same <==> a == b,
        placed_rel(b, a, key) == flip(placed_rel(a, b, key)),
{
    match (a, b) {
        (Cell::Text(x), Cell::Text(y)) => {
            lemma_text_total(x, y);
            lemma_text_total(y, x);
        },
        _ => {},
    }
}

/// The order of cells under a sort key is transitive.
pub proof fn lemma_placed_transitive(a: Cell, b: Cell, c: Cell, key: SortAt)
    requires
        placed_rel(a, b, key) == Rel::Before,
        placed_rel(b, c, key) == Rel::Before,
    ensures
        placed_rel(a, c, key) == Rel::Before,
{
    match (a, b, c) {
        (Cell::Text(x), Cell::Text(y), Cell::Text(z)) => {
            lemma_text_total(x, y);
            lemma_text_total(y, z);
            lemma_text_total(x, z);
            if key.descending {
                lemma_text_total(z, y);
                lemma_text_total(y, x);
                lemma_text_transitive(z, y, x);
                lemma_text_total(z, x);
            } else {
                lemma_text_transitive(x, y, z);
            }
        },
        _ => {},
    }
}

/// Each row stands to another as the other to it, flipped.
pub proof fn lemma_rows_converse(a: Seq<Cell>, b: Seq<Cell>, keys: Seq<SortAt>, from: int)
    ensures
        rows_rel(b, a, keys, from) == flip(rows_rel(a, b, keys, from)),
    decreases keys.len() - from,
{
    if 0 <= from < keys.len() {
        let c = keys[from].column as int;
        lemma_placed_converse(a[c], b[c], keys[from]);
        lemma_rows_converse(a, b, keys, from + 1);
    }
}

/// The order of rows is transitive: where `a` does not come after `b`, nor
/// `b` after `c`, `a` does not come after `c`; and `a` stands to `c` as
/// `Same` only where it does to `b`, and `b` to `c`.
pub proof fn lemma_rows_transitive(
    a: Seq<Cell>,
    b: Seq<Cell>,
    c: Seq<Cell>,
    keys: Seq<SortAt>,
    from: int,
)
    requires
        rows_rel(a, b, keys, from) != Rel::After,
        rows_rel(b, c, keys, from) != Rel::After,
    ensures
        rows_rel(a, c, keys, from) != Rel::After,
        rows_rel(a, c, keys, from) == Rel::Same ==> rows_rel(a, b, keys, from) == Rel::Same
            && rows_rel(b, c, keys, from) == Rel::Same,
    decreases keys.len() - from,
{
    if 0 <= from < keys.len() {
        let k = keys[from].column as int;
        let first = placed_rel(a[k], b[k], keys[from]);
        let second = placed_rel(b[k], c[k], keys[from]);
        lemma_placed_converse(a[k], b[k], keys[from]);
        lemma_placed_converse(b[k], c[k], keys[from]);
        lemma_placed_converse(a[k], c[k], keys[from]);
        if first == Rel::Same && second == Rel::Same {
            lemma_rows_transitive(a, b, c, keys, from + 1);
        } else if first == Rel::Before && second == Rel::Before {
            lemma_placed_transitive(a[k], b[k], c[k], keys[from]);
        }
    }
}

fn order_i64(x: i64, y: i64) -> (rel: Rel)
    ensures
        rel == int_rel(x as int, y as int),
{
    if x < y {
        Rel::Before
    } else if x == y {
        Rel::Same
    } else {
        Rel::After
    }
}

fn rank_of(value: &Value) -> (rank: i64)
    ensures
        rank == kind_rank(value@),
{
    match value {
        Value::Null => 0,
        Value::Int(_) => 1,
        Value::Float(_) => 2,
        Value::Text(_) => 3,
        Value::Date(_) => 4,
        Value::Timestamp(_) => 5,
    }
}

/// How two values stand in the total order of cells.
pub fn value_order(a: &Value, b: &Value) -> (rel: Rel)
    ensures
        rel == value_rel(a@, b@),
{
    match a.relate(b) {
        Some(rel) => rel,
        None => order_i64(rank_of(a), rank_of(b)),
    }
}

/// How two values stand under one sort key.
pub fn placed_order(a: &Value, b: &Value, key: SortAt) -> (rel: Rel)
    ensures
        rel == placed_rel(a@, b@, key),
{
    if a.is_null() && b.is_null() {
        Rel::Same
    } else if a.is_null() {
        if key.nulls_first {
            Rel::Before
        } else {
            Rel::After
        }
    } else if b.is_null() {
        if key.nulls_first {
            Rel::After
        } else {
            Rel::Before
        }
    } else {
        let rel = value_order(a, b);
        if key.descending {
            match rel {
                Rel::Before => Rel::After,
                Rel::Same => Rel::Same,
                Rel::After => Rel::Before,
            }
        } else {
            rel
        }
    }
}

/// How two rows stand under the sort keys.
pub fn rows_order(a: &Vec<Value>, b: &Vec<Value>, keys: &Vec<SortAt>) -> (rel: Rel)
    requires
        forall|k: int|
            0 <= k < keys@.len() ==> (#[trigger] keys@[k]).column < a@.len() && keys@[k].column
                < b@.len(),
    ensures
        rel == rows_rel(crate::table::row_view(a@), crate::table::row_view(b@), keys@, 0),
{
    let ghost x = crate::table::row_view(a@);
    let ghost y = crate::table::row_view(b@);
    let mut k: usize = 0;
    while k < keys.len()
        invariant
            k <= keys.len(),
            x == crate::table::row_view(a@),
            y == crate::table::row_view(b@),
            forall|k: int|
                0 <= k < keys@.len() ==> (#[trigger] keys@[k]).column < a@.len()
                    && keys@[k].column < b@.len(),
            rows_rel(x, y, keys@, 0) == rows_rel(x, y, keys@, k as int),
        decreases keys.len() - k,
    {
        let key = keys[k];
        let rel = placed_order(&a[key.column], &b[key.column], key);
        if rel != Rel::Same {
            return rel;
        }
        k += 1;
    }
    Rel::Same
}

} // verus!
