//! Filtration: the rows on which a predicate is true.

use vstd::prelude::*;
use crate::error::EngineError;
use crate::predicate::{Predicate, Tri};
use crate::schema::names_of;
use crate::table::{copy_row, rows_fit, rows_view, Table, TableView};
use crate::value::{Cell, Value};

verus! {

/// The test for the rows on which `predicate` has the truth value `verdict`.
pub open spec fn judged(predicate: Predicate, names: Seq<Seq<char>>, verdict: Tri) -> spec_fn(
    Seq<Cell>,
) -> bool {
    |row: Seq<Cell>| predicate.holds(names, row) == verdict
}

/// The rows of `table` on which `predicate` has the truth value `verdict`,
/// in their order.
pub open spec fn rows_judged(table: TableView, predicate: Predicate, verdict: Tri) -> Seq<
    Seq<Cell>,
> {
    table.rows.filter(judged(predicate, names_of(table.columns), verdict))
}

/// The rows that `filter` keeps: those on which the predicate is true. A row
/// on which it is unknown is dropped like one on which it is false.
pub open spec fn rows_kept(table: TableView, predicate: Predicate) -> Seq<Seq<Cell>> {
    rows_judged(table, predicate, Tri::True)
}

/// The table of the rows of `table` on which `predicate` is true, in their
/// order and under the same schema. Fails, before any row is read, exactly
/// when the predicate does not suit the schema.
pub fn filter(table: &Table, predicate: &Predicate) -> (out: Result<Table, EngineError>)
    ensures
        match out {
            Ok(kept) => {
                &&& predicate.fault(table@.columns) is None
                &&& kept@.columns == table@.columns
                &&& kept@.rows == rows_kept(table@, *predicate)
                &&& kept@.wf()
            },
            Err(e) => predicate.fault(table@.columns) == Some(e),
        },
{
    let schema = table.schema();
    match predicate.check(schema) {
        Err(e) => {
            return Err(e);
        },
        Ok(_) => {},
    }
    let rows = table.rows();
    let ghost test = judged(*predicate, names_of(table@.columns), Tri::True);
    let mut kept: Vec<Vec<Value>> = Vec::new();
    let mut i: usize = 0;
    while i < rows.len()
        invariant
            i <= rows.len(),
            schema@ == table@.columns,
            predicate.fault(schema@) is None,
            rows_view(rows@) == table@.rows,
            rows_fit(schema@, table@.rows),
            test == judged(*predicate, names_of(table@.columns), Tri::True),
            rows_view(kept@) == table@.rows.take(i as int).filter(test),
            rows_fit(schema@, rows_view(kept@)),
        decreases rows.len() - i,
    {
        let ghost before = rows_view(kept@);
        proof {
            let row = table@.rows[i as int];
            assert(row == rows_view(rows@)[i as int]);
            assert(table@.rows.take(i as int + 1) == table@.rows.take(i as int).push(row));
            table@.rows.take(i as int).lemma_filter_push(row, test);
        }
        if predicate.evaluate(schema, &rows[i]) == Tri::True {
            kept.push(copy_row(&rows[i]));
            proof {
                assert(rows_view(kept@) =~= before.push(table@.rows[i as int]));
            }
        }
        i += 1;
    }
    proof {
        assert(table@.rows.take(rows.len() as int) == table@.rows);
    }
    Ok(Table::assemble(schema.clone(), kept))
}

/// Filtering by a predicate and filtering by its negation split a table
/// three ways: every row is kept by exactly one of the two, or by neither
/// where the predicate is unknown on it. Taken together with the rows on
/// which the predicate is unknown, the two results hold the rows of the
/// table, each as often as the table does; no row is in both results.
pub proof fn lemma_filter_partition(table: TableView, predicate: Predicate)
    ensures
        rows_kept(table, predicate).to_multiset().add(
            rows_kept(table, Predicate::Not(Box::new(predicate))).to_multiset(),
        ).add(rows_judged(table, predicate, Tri::Unknown).to_multiset())
            == table.rows.to_multiset(),
        forall|row: Seq<Cell>|
            !(rows_kept(table, predicate).contains(row) && rows_kept(
                table,
                Predicate::Not(Box::new(predicate)),
            ).contains(row)),
        rows_judged(table, predicate, Tri::Unknown).len() == 0 ==> rows_kept(
            table,
            predicate,
        ).to_multiset().add(rows_kept(table, Predicate::Not(Box::new(predicate))).to_multiset())
            == table.rows.to_multiset(),
{
    let names = names_of(table.columns);
    let negated = Predicate::Not(Box::new(predicate));
    let yes = rows_kept(table, predicate);
    let no = rows_kept(table, negated);
    let unknown = rows_judged(table, predicate, Tri::Unknown);
    lemma_partition_rows(table.rows, names, predicate);
    assert forall|row: Seq<Cell>| !(yes.contains(row) && no.contains(row)) by {
        if yes.contains(row) && no.contains(row) {
            table.rows.lemma_filter_contains_rev(judged(predicate, names, Tri::True), row);
            table.rows.lemma_filter_contains_rev(judged(negated, names, Tri::True), row);
        }
    }
    if unknown.len() == 0 {
        unknown.to_multiset_ensures();
        assert(unknown.to_multiset() =~= vstd::multiset::Multiset::empty());
        assert(yes.to_multiset().add(no.to_multiset()).add(unknown.to_multiset())
            =~= yes.to_multiset().add(no.to_multiset()));
    }
}

proof fn lemma_partition_rows(rows: Seq<Seq<Cell>>, names: Seq<Seq<char>>, predicate: Predicate)
    ensures
        rows.filter(judged(predicate, names, Tri::True)).to_multiset().add(
            rows.filter(
                judged(Predicate::Not(Box::new(predicate)), names, Tri::True),
            ).to_multiset(),
        ).add(rows.filter(judged(predicate, names, Tri::Unknown)).to_multiset())
            == rows.to_multiset(),
    decreases rows.len(),
{
    broadcast use vstd::multiset::group_multiset_axioms;

    let negated = Predicate::Not(Box::new(predicate));
    let yes = judged(predicate, names, Tri::True);
    let no = judged(negated, names, Tri::True);
    let unknown = judged(predicate, names, Tri::Unknown);
    if rows.len() == 0 {
        reveal(Seq::filter);
        rows.to_multiset_ensures();
        vstd::multiset::lemma_multiset_empty_len(rows.to_multiset());
        assert(rows.filter(yes) == rows);
        assert(rows.filter(no) == rows);
        assert(rows.filter(unknown) == rows);
        assert(rows.filter(yes).to_multiset().add(rows.filter(no).to_multiset()).add(
            rows.filter(unknown).to_multiset(),
        ) =~= rows.to_multiset());
    } else {
        let init = rows.drop_last();
        let last = rows.last();
        lemma_partition_rows(init, names, predicate);
        assert(rows == init.push(last));
        init.lemma_filter_push(last, yes);
        init.lemma_filter_push(last, no);
        init.lemma_filter_push(last, unknown);
        init.to_multiset_ensures();
        init.filter(yes).to_multiset_ensures();
        init.filter(no).to_multiset_ensures();
        init.filter(unknown).to_multiset_ensures();
        let verdict = predicate.holds(names, last);
        assert(negated.holds(names, last) == verdict.negation());
        assert(yes(last) == (verdict == Tri::True));
        assert(no(last) == (verdict == Tri::False));
        assert(unknown(last) == (verdict == Tri::Unknown));
        assert(rows.to_multiset() =~= init.to_multiset().insert(last));
        assert(rows.filter(yes).to_multiset().add(rows.filter(no).to_multiset()).add(
            rows.filter(unknown).to_multiset(),
        ) =~= rows.to_multiset());
    }
}

} // verus!
