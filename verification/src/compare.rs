//! Deciding whether two results agree, row by row or as multisets of rows.

use vstd::prelude::*;
use vstd::laws_eq::{obeys_eq, obeys_eq_spec_properties};
use vstd::std_specs::cmp::PartialEqSpec;
use crate::distinct::{all_known, locate, positions_of, project};
use crate::error::EngineError;
use crate::schema::ColumnView;
use crate::table::{row_fits, row_view, rows_view, Table, TableView};
use crate::value::{Cell, Value};

verus! {

/// Whether two sequences have the same length and equal items at each index.
pub open spec fn pairwise_equal<T: PartialEq>(a: Seq<T>, b: Seq<T>) -> bool {
    &&& a.len() == b.len()
    &&& forall|i: int| 0 <= i < a.len() ==> (#[trigger] a[i]).eq_spec(&b[i])
}

/// How many items of `s` equal `x`.
pub open spec fn occurrences<T: PartialEq>(s: Seq<T>, x: T) -> nat
    decreases s.len(),
{
    if s.len() == 0 {
        0
    } else {
        occurrences(s.drop_last(), x) + if s.last().eq_spec(&x) {
            1nat
        } else {
            0nat
        }
    }
}

/// Whether every value occurs as often in `a` as in `b`.
pub open spec fn same_occurrences<T: PartialEq>(a: Seq<T>, b: Seq<T>) -> bool {
    forall|x: T| occurrences(a, x) == occurrences(b, x)
}

/// A value that no item equals does not occur.
pub proof fn lemma_absent<T: PartialEq>(s: Seq<T>, x: T)
    requires
        forall|k: int| 0 <= k < s.len() ==> !(#[trigger] s[k]).eq_spec(&x),
    ensures
        occurrences(s, x) == 0,
    decreases s.len(),
{
    if s.len() > 0 {
        let init = s.drop_last();
        assert forall|k: int| 0 <= k < init.len() implies !(#[trigger] init[k]).eq_spec(&x) by {
            assert(init[k] == s[k]);
        }
        lemma_absent(init, x);
        assert(s.last() == s[s.len() - 1]);
    }
}

/// Equal values occur equally often, where equality is an equivalence.
pub proof fn lemma_occurrences_of_equals<T: PartialEq>(s: Seq<T>, x: T, y: T)
    requires
        obeys_eq::<T>(),
        y.eq_spec(&x),
    ensures
        occurrences(s, x) == occurrences(s, y),
    decreases s.len(),
{
    reveal(obeys_eq_spec_properties);
    if s.len() > 0 {
        lemma_occurrences_of_equals(s.drop_last(), x, y);
        let e = s.last();
        assert(x.eq_spec(&y));
        if e.eq_spec(&x) {
            assert(e.eq_spec(&y));
        }
        if e.eq_spec(&y) {
            assert(e.eq_spec(&x));
        }
    }
}

/// How many items of `items` equal `x`.
fn count_equal<T: PartialEq>(items: &[T], x: &T) -> (n: usize)
    ensures
        T::obeys_eq_spec() ==> n == occurrences(items@, *x),
        n <= items@.len(),
{
    let mut n: usize = 0;
    let mut i: usize = 0;
    while i < items.len()
        invariant
            i <= items.len(),
            n <= i,
            T::obeys_eq_spec() ==> n == occurrences(items@.take(i as int), *x),
        decreases items.len() - i,
    {
        proof {
            assert(items@.take(i as int + 1).drop_last() == items@.take(i as int));
            assert(items@.take(i as int + 1).last() == items@[i as int]);
        }
        if items[i] == *x {
            n += 1;
        }
        i += 1;
    }
    proof {
        assert(items@.take(items.len() as int) == items@);
    }
    n
}

/// Order-sensitive comparison: whether the two slices have the same length
/// and equal items at each index.
pub fn compare_vecs<T: PartialEq>(vec1: &[T], vec2: &[T]) -> (same: bool)
    ensures
        T::obeys_eq_spec() ==> same == pairwise_equal(vec1@, vec2@),
{
    if vec1.len() != vec2.len() {
        return false;
    }
    let mut i: usize = 0;
    while i < vec1.len()
        invariant
            i <= vec1.len() == vec2.len(),
            T::obeys_eq_spec() ==> forall|k: int|
                0 <= k < i ==> (#[trigger] vec1@[k]).eq_spec(&vec2@[k]),
        decreases vec1.len() - i,
    {
        if !(vec1[i] == vec2[i]) {
            return false;
        }
        i += 1;
    }
    true
}

/// Order-insensitive comparison: whether every value occurs as often in one
/// slice as in the other. Duplicates are counted, not collapsed.
pub fn compare_vecs_unordered<T: PartialEq>(vec1: &[T], vec2: &[T]) -> (same: bool)
    ensures
        obeys_eq::<T>() ==> same == same_occurrences(vec1@, vec2@),
{
    let mut i: usize = 0;
    while i < vec1.len()
        invariant
            i <= vec1.len(),
            T::obeys_eq_spec() ==> forall|k: int|
                0 <= k < i ==> occurrences(vec1@, #[trigger] vec1@[k]) == occurrences(
                    vec2@,
                    vec1@[k],
                ),
        decreases vec1.len() - i,
    {
        if count_equal(vec1, &vec1[i]) != count_equal(vec2, &vec1[i]) {
            return false;
        }
        i += 1;
    }
    let mut j: usize = 0;
    while j < vec2.len()
        invariant
            j <= vec2.len(),
            T::obeys_eq_spec() ==> forall|k: int|
                0 <= k < vec1.len() ==> occurrences(vec1@, #[trigger] vec1@[k]) == occurrences(
                    vec2@,
                    vec1@[k],
                ),
            T::obeys_eq_spec() ==> forall|k: int|
                0 <= k < j ==> occurrences(vec1@, #[trigger] vec2@[k]) == occurrences(
                    vec2@,
                    vec2@[k],
                ),
        decreases vec2.len() - j,
    {
        if count_equal(vec1, &vec2[j]) != count_equal(vec2, &vec2[j]) {
            return false;
        }
        j += 1;
    }
    proof {
        if obeys_eq::<T>() {
            let a = vec1@;
            let b = vec2@;
            assert forall|x: T| occurrences(a, x) == occurrences(b, x) by {
                if exists|k: int| 0 <= k < a.len() && (#[trigger] a[k]).eq_spec(&x) {
                    let k = choose|k: int| 0 <= k < a.len() && (#[trigger] a[k]).eq_spec(&x);
                    lemma_occurrences_of_equals(a, x, a[k]);
                    lemma_occurrences_of_equals(b, x, a[k]);
                } else if exists|k: int| 0 <= k < b.len() && (#[trigger] b[k]).eq_spec(&x) {
                    let k = choose|k: int| 0 <= k < b.len() && (#[trigger] b[k]).eq_spec(&x);
                    lemma_occurrences_of_equals(a, x, b[k]);
                    lemma_occurrences_of_equals(b, x, b[k]);
                } else {
                    lemma_absent(a, x);
                    lemma_absent(b, x);
                }
            }
        }
    }
    true
}

/// Whether two schemas can be compared: as many columns, of the same kinds
/// position by position. Names play no part.
pub open spec fn comparable(a: Seq<ColumnView>, b: Seq<ColumnView>) -> bool {
    &&& a.len() == b.len()
    &&& forall|c: int| 0 <= c < a.len() ==> (#[trigger] a[c]).kind == b[c].kind
}

/// Whether two tables hold the same rows in the same order.
pub open spec fn agree_ordered(a: TableView, b: TableView) -> bool {
    a.rows == b.rows
}

/// Whether two tables hold the same rows, each as often in one as in the
/// other, in whatever order.
pub open spec fn agree_unordered(a: TableView, b: TableView) -> bool {
    a.rows.to_multiset() == b.rows.to_multiset()
}

/// Equality of rows of values is an equivalence.
pub proof fn lemma_rows_obey_eq()
    ensures
        obeys_eq::<Vec<Value>>(),
{
    reveal(obeys_eq_spec_properties);
    assert forall|x: Vec<Value>, y: Vec<Value>| #[trigger] x.eq_spec(&y) <==> y.eq_spec(&x) by {
        lemma_row_eq(x, y);
        lemma_row_eq(y, x);
    }
    assert forall|x: Vec<Value>, y: Vec<Value>, z: Vec<Value>|
        x.eq_spec(&y) && #[trigger] y.eq_spec(&z) implies #[trigger] x.eq_spec(&z) by {
        lemma_row_eq(x, y);
        lemma_row_eq(y, z);
        lemma_row_eq(x, z);
    }
}

/// Two rows of values are equal exactly when their cells are.
pub proof fn lemma_row_eq(x: Vec<Value>, y: Vec<Value>)
    ensures
        x.eq_spec(&y) <==> row_view(x@) == row_view(y@),
{
    if x.eq_spec(&y) {
        assert(row_view(x@) =~= row_view(y@)) by {
            assert forall|i: int| 0 <= i < x@.len() implies row_view(x@)[i] == row_view(y@)[i] by {
                assert(x[i].eq_spec(&y[i]));
            }
        }
    }
    if row_view(x@) == row_view(y@) {
        assert(x@.len() == row_view(x@).len());
        assert(y@.len() == row_view(y@).len());
        assert forall|i: int| 0 <= i < x.len() implies (#[trigger] x[i]).eq_spec(&y[i]) by {
            assert(row_view(x@)[i] == row_view(y@)[i]);
        }
    }
}

/// A row occurs among rows of values as often as its cells occur among
/// their views.
pub proof fn lemma_occurrences_view(rows: Seq<Vec<Value>>, x: Vec<Value>)
    ensures
        occurrences(rows, x) == rows_view(rows).to_multiset().count(row_view(x@)),
    decreases rows.len(),
{
    broadcast use vstd::multiset::group_multiset_axioms;

    if rows.len() == 0 {
        assert(rows_view(rows) =~= Seq::<Seq<Cell>>::empty());
        rows_view(rows).to_multiset_ensures();
        assert(rows_view(rows).to_multiset().len() == 0);
    } else {
        let init = rows.drop_last();
        let last = rows.last();
        lemma_occurrences_view(init, x);
        lemma_row_eq(last, x);
        assert(rows_view(rows) =~= rows_view(init).push(row_view(last@)));
        rows_view(init).to_multiset_ensures();
    }
}

/// Rows of values occur equally often in two sequences exactly when the
/// views of the two sequences are equal as multisets.
pub proof fn lemma_same_occurrences_view(a: Seq<Vec<Value>>, b: Seq<Vec<Value>>)
    ensures
        same_occurrences(a, b) <==> rows_view(a).to_multiset() == rows_view(b).to_multiset(),
{
    let ma = rows_view(a).to_multiset();
    let mb = rows_view(b).to_multiset();
    if same_occurrences(a, b) {
        assert forall|y: Seq<Cell>| ma.count(y) == mb.count(y) by {
            rows_view(a).to_multiset_ensures();
            rows_view(b).to_multiset_ensures();
            if ma.count(y) > 0 {
                assert(rows_view(a).contains(y));
                let i = choose|i: int| 0 <= i < rows_view(a).len() && rows_view(a)[i] == y;
                lemma_occurrences_view(a, a[i]);
                lemma_occurrences_view(b, a[i]);
            } else if mb.count(y) > 0 {
                assert(rows_view(b).contains(y));
                let i = choose|i: int| 0 <= i < rows_view(b).len() && rows_view(b)[i] == y;
                lemma_occurrences_view(a, b[i]);
                lemma_occurrences_view(b, b[i]);
            }
        }
        assert(ma =~= mb);
    }
    if ma == mb {
        assert forall|x: Vec<Value>| occurrences(a, x) == occurrences(b, x) by {
            lemma_occurrences_view(a, x);
            lemma_occurrences_view(b, x);
        }
    }
}

/// Whether the schemas of two tables can be compared.
pub fn schemas_comparable(a: &Table, b: &Table) -> (ok: bool)
    ensures
        ok == comparable(a@.columns, b@.columns),
{
    if a.width() != b.width() {
        return false;
    }
    let mut c: usize = 0;
    while c < a.width()
        invariant
            c <= a@.columns.len() == b@.columns.len(),
            forall|k: int| 0 <= k < c ==> (#[trigger] a@.columns[k]).kind == b@.columns[k].kind,
        decreases a@.columns.len() - c,
    {
        if a.schema().column(c).kind != b.schema().column(c).kind {
            return false;
        }
        c += 1;
    }
    true
}

/// Whether two sequences of rows hold equal rows at each index.
pub fn rows_agree_ordered(x: &Vec<Vec<Value>>, y: &Vec<Vec<Value>>) -> (same: bool)
    ensures
        same == (rows_view(x@) == rows_view(y@)),
{
    let same = compare_vecs(x.as_slice(), y.as_slice());
    proof {
        if same {
            assert(rows_view(x@) =~= rows_view(y@)) by {
                assert forall|i: int| 0 <= i < x@.len() implies rows_view(x@)[i] == rows_view(
                    y@,
                )[i] by {
                    assert(x@[i].eq_spec(&y@[i]));
                    lemma_row_eq(x@[i], y@[i]);
                }
            }
        }
        if rows_view(x@) == rows_view(y@) {
            assert(x@.len() == rows_view(x@).len());
            assert(y@.len() == rows_view(y@).len());
            assert forall|i: int| 0 <= i < x@.len() implies (#[trigger] x@[i]).eq_spec(&y@[i]) by {
                assert(rows_view(x@)[i] == rows_view(y@)[i]);
                lemma_row_eq(x@[i], y@[i]);
            }
        }
    }
    same
}

/// Whether two sequences of rows hold each row equally often.
pub fn rows_agree_unordered(x: &Vec<Vec<Value>>, y: &Vec<Vec<Value>>) -> (same: bool)
    ensures
        same == (rows_view(x@).to_multiset() == rows_view(y@).to_multiset()),
{
    let same = compare_vecs_unordered(x.as_slice(), y.as_slice());
    proof {
        lemma_rows_obey_eq();
        lemma_same_occurrences_view(x@, y@);
    }
    same
}

/// Order-sensitive comparison of two tables: whether they have as many rows
/// and equal cells in every row. Column names play no part. A difference in
/// content is an answer, not a failure: the comparison fails, with
/// `SchemaMismatch`, exactly when the schemas cannot be compared.
pub fn compare_ordered(a: &Table, b: &Table) -> (verdict: Result<bool, EngineError>)
    ensures
        match verdict {
            Ok(same) => comparable(a@.columns, b@.columns) && same == agree_ordered(a@, b@),
            Err(e) => e == EngineError::SchemaMismatch && !comparable(a@.columns, b@.columns),
        },
{
    if !schemas_comparable(a, b) {
        return Err(EngineError::SchemaMismatch);
    }
    Ok(rows_agree_ordered(a.rows(), b.rows()))
}

/// Order-insensitive comparison of two tables: whether every row occurs as
/// often in one as in the other. Column names play no part. The comparison
/// fails, with `SchemaMismatch`, exactly when the schemas cannot be compared.
pub fn compare_unordered(a: &Table, b: &Table) -> (verdict: Result<bool, EngineError>)
    ensures
        match verdict {
            Ok(same) => comparable(a@.columns, b@.columns) && same == agree_unordered(a@, b@),
            Err(e) => e == EngineError::SchemaMismatch && !comparable(a@.columns, b@.columns),
        },
{
    if !schemas_comparable(a, b) {
        return Err(EngineError::SchemaMismatch);
    }
    Ok(rows_agree_unordered(a.rows(), b.rows()))
}

/// A table agrees with itself, in order and as a multiset, and its schema can
/// be compared with itself.
pub proof fn lemma_agreement_reflexive(t: TableView)
    ensures
        comparable(t.columns, t.columns),
        agree_ordered(t, t),
        agree_unordered(t, t),
{
}

/// Order-insensitive agreement does not depend on which table is named
/// first, and neither does whether the schemas can be compared.
pub proof fn lemma_agreement_symmetric(a: TableView, b: TableView)
    ensures
        comparable(a.columns, b.columns) == comparable(b.columns, a.columns),
        agree_unordered(a, b) == agree_unordered(b, a),
        agree_ordered(a, b) == agree_ordered(b, a),
{
    if comparable(a.columns, b.columns) {
        assert forall|c: int| 0 <= c < b.columns.len() implies (#[trigger] b.columns[c]).kind
            == a.columns[c].kind by {
            assert(a.columns[c].kind == b.columns[c].kind);
        }
    }
    if comparable(b.columns, a.columns) {
        assert forall|c: int| 0 <= c < a.columns.len() implies (#[trigger] a.columns[c]).kind
            == b.columns[c].kind by {
            assert(b.columns[c].kind == a.columns[c].kind);
        }
    }
}

/// The rows cut down to the cells at the positions `at`, in the order of
/// `at`.
pub open spec fn projected_rows(rows: Seq<Seq<Cell>>, at: Seq<usize>) -> Seq<Seq<Cell>> {
    rows.map_values(|row: Seq<Cell>| project(row, at))
}

/// Whether each of the named columns is of the same kind in both schemas.
pub open spec fn kinds_agree_on(a: Seq<ColumnView>, b: Seq<ColumnView>, names: Seq<String>) -> bool {
    forall|i: int|
        0 <= i < names.len() ==> a[(#[trigger] positions_of(a, names)[i]) as int].kind
            == b[positions_of(b, names)[i] as int].kind
}

/// Why two tables cannot be compared on the named columns, if they cannot:
/// `UnknownColumn` where one of the tables lacks one of them, else
/// `SchemaMismatch` where one of them is of different kinds in the two.
pub open spec fn subset_fault(a: Seq<ColumnView>, b: Seq<ColumnView>, names: Seq<String>) -> Option<
    EngineError,
> {
    if !all_known(a, names) || !all_known(b, names) {
        Some(EngineError::UnknownColumn)
    } else if !kinds_agree_on(a, b, names) {
        Some(EngineError::SchemaMismatch)
    } else {
        None
    }
}

/// The rows of a table cut down to the cells at `at`.
fn cut_rows(table: &Table, at: &Vec<usize>) -> (cut: Vec<Vec<Value>>)
    requires
        forall|k: int| 0 <= k < at@.len() ==> (#[trigger] at@[k]) < table@.columns.len(),
    ensures
        rows_view(cut@) == projected_rows(table@.rows, at@),
{
    let rows = table.rows();
    let ghost all = table@.rows;
    let mut cut: Vec<Vec<Value>> = Vec::new();
    let mut r: usize = 0;
    while r < rows.len()
        invariant
            r <= rows.len(),
            all == rows_view(rows@),
            crate::table::rows_fit(table@.columns, all),
            forall|k: int| 0 <= k < at@.len() ==> (#[trigger] at@[k]) < table@.columns.len(),
            cut@.len() == r,
            forall|j: int| 0 <= j < r ==> row_view((#[trigger] cut@[j])@) == project(all[j], at@),
        decreases rows.len() - r,
    {
        let row = &rows[r];
        proof {
            assert(all[r as int] == row_view(row@));
            assert(row_fits(table@.columns, all[r as int]));
        }
        let mut cells: Vec<Value> = Vec::new();
        let mut k: usize = 0;
        while k < at.len()
            invariant
                k <= at.len(),
                row@.len() == table@.columns.len(),
                forall|k: int| 0 <= k < at@.len() ==> (#[trigger] at@[k]) < table@.columns.len(),
                cells@.len() == k,
                forall|j: int| 0 <= j < k ==> (#[trigger] cells@[j])@ == row@[at@[j] as int]@,
            decreases at.len() - k,
        {
            cells.push(row[at[k]].clone());
            k += 1;
        }
        proof {
            assert(row_view(cells@) =~= project(row_view(row@), at@));
        }
        cut.push(cells);
        r += 1;
    }
    proof {
        assert(rows_view(cut@) =~= projected_rows(all, at@));
    }
    cut
}

/// Finds the named columns in both tables, and checks their kinds.
fn locate_both(a: &Table, b: &Table, columns: &Vec<String>) -> (out: Result<
    (Vec<usize>, Vec<usize>),
    EngineError,
>)
    ensures
        match out {
            Ok((at_a, at_b)) => {
                &&& subset_fault(a@.columns, b@.columns, columns@) is None
                &&& at_a@ == positions_of(a@.columns, columns@)
                &&& at_b@ == positions_of(b@.columns, columns@)
                &&& forall|k: int|
                    0 <= k < at_a@.len() ==> (#[trigger] at_a@[k]) < a@.columns.len()
                &&& forall|k: int|
                    0 <= k < at_b@.len() ==> (#[trigger] at_b@[k]) < b@.columns.len()
            },
            Err(e) => subset_fault(a@.columns, b@.columns, columns@) == Some(e),
        },
{
    let at_a = match locate(a.schema(), columns) {
        Ok(at) => at,
        Err(e) => {
            return Err(e);
        },
    };
    let at_b = match locate(b.schema(), columns) {
        Ok(at) => at,
        Err(e) => {
            return Err(e);
        },
    };
    let mut i: usize = 0;
    while i < columns.len()
        invariant
            i <= columns.len(),
            all_known(a@.columns, columns@),
            all_known(b@.columns, columns@),
            at_a@ == positions_of(a@.columns, columns@),
            at_b@ == positions_of(b@.columns, columns@),
            forall|k: int| 0 <= k < at_a@.len() ==> (#[trigger] at_a@[k]) < a@.columns.len(),
            forall|k: int| 0 <= k < at_b@.len() ==> (#[trigger] at_b@[k]) < b@.columns.len(),
            forall|k: int|
                0 <= k < i ==> a@.columns[(#[trigger] positions_of(a@.columns, columns@)[k]) as int].kind
                    == b@.columns[positions_of(b@.columns, columns@)[k] as int].kind,
        decreases columns.len() - i,
    {
        if a.schema().column(at_a[i]).kind != b.schema().column(at_b[i]).kind {
            proof {
                let k = i as int;
                assert(a@.columns[positions_of(a@.columns, columns@)[k] as int].kind
                    != b@.columns[positions_of(b@.columns, columns@)[k] as int].kind);
            }
            return Err(EngineError::SchemaMismatch);
        }
        i += 1;
    }
    Ok((at_a, at_b))
}

/// Order-sensitive comparison of two tables on the named columns alone,
/// each found by its name, wherever it stands in either table: whether the
/// tables have as many rows and, in every row, equal cells under each name.
/// Fails exactly when `subset_fault` names a fault.
pub fn compare_ordered_on(a: &Table, b: &Table, columns: &Vec<String>) -> (verdict: Result<
    bool,
    EngineError,
>)
    ensures
        match verdict {
            Ok(same) => {
                &&& subset_fault(a@.columns, b@.columns, columns@) is None
                &&& same == (projected_rows(a@.rows, positions_of(a@.columns, columns@))
                    == projected_rows(b@.rows, positions_of(b@.columns, columns@)))
            },
            Err(e) => subset_fault(a@.columns, b@.columns, columns@) == Some(e),
        },
{
    match locate_both(a, b, columns) {
        Err(e) => Err(e),
        Ok((at_a, at_b)) => {
            let x = cut_rows(a, &at_a);
            let y = cut_rows(b, &at_b);
            Ok(rows_agree_ordered(&x, &y))
        },
    }
}

/// Order-insensitive comparison of two tables on the named columns alone,
/// each found by its name: whether every row of cells under these names
/// occurs as often in one table as in the other. Fails exactly when
/// `subset_fault` names a fault.
pub fn compare_unordered_on(a: &Table, b: &Table, columns: &Vec<String>) -> (verdict: Result<
    bool,
    EngineError,
>)
    ensures
        match verdict {
            Ok(same) => {
                &&& subset_fault(a@.columns, b@.columns, columns@) is None
                &&& same == (projected_rows(
                    a@.rows,
                    positions_of(a@.columns, columns@),
                ).to_multiset() == projected_rows(
                    b@.rows,
                    positions_of(b@.columns, columns@),
                ).to_multiset())
            },
            Err(e) => subset_fault(a@.columns, b@.columns, columns@) == Some(e),
        },
{
    match locate_both(a, b, columns) {
        Err(e) => Err(e),
        Ok((at_a, at_b)) => {
            let x = cut_rows(a, &at_a);
            let y = cut_rows(b, &at_b);
            Ok(rows_agree_unordered(&x, &y))
        },
    }
}

} // verus!
