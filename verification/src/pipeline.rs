//! Pipelines of operators, and reconciling the answers that independent
//! paths give to one question.
//!
//! A pipeline is a list of steps, each of them one operator with its
//! arguments; running it hands the result of each step to the next.
//!
//! A question is answered three times over: by a raw query, by a query
//! builder, and by a pipeline of this library's operators. The first two
//! come from a row source outside the library; the answer is handed on only
//! where all three agree.

use vstd::prelude::*;
use crate::compare::{agree_ordered, agree_unordered, comparable, compare_ordered, compare_unordered};
use crate::distinct::{all_known, first_occurrences, key_positions, positions_of, unique};
use crate::error::EngineError;
use crate::filter::{filter, rows_kept};
use crate::group::{
    aggregates_at, group_by, group_fault, grouped_columns, grouped_rows, Aggregate,
};
use crate::join::{
    anti_join, cross_join, cross_rows, join, join_fault, joined_columns, joined_rows, keys_at,
    keys_fault, lonely_rows, JoinKey, JoinKind,
};
use crate::predicate::Predicate;
use crate::schema::{distinct_names, names_of};
use crate::select::{select, select_fault, selected_columns, selected_rows, SelectItem};
use crate::setops::{except, except_rows, union, union_rows, united_columns};
use crate::sort::{arranged, is_sorting, order_by, sortable, sorts_at, SortKey};
use crate::table::{Table, TableView};

verus! {

/// How two answers are compared.
#[derive(Clone, Copy, Debug, PartialEq, Eq, Structural)]
pub enum Mode {
    /// Row by row: for questions that fix the order of their answer.
    Ordered,
    /// As multisets of rows: for questions that leave the order open.
    Unordered,
}

/// Whether two tables agree under a mode of comparison.
pub open spec fn agree(a: TableView, b: TableView, mode: Mode) -> bool {
    match mode {
        Mode::Ordered => agree_ordered(a, b),
        Mode::Unordered => agree_unordered(a, b),
    }
}

/// Compares two tables under a mode. Fails, with `SchemaMismatch`, exactly
/// when the schemas cannot be compared.
pub fn compare(a: &Table, b: &Table, mode: Mode) -> (verdict: Result<bool, EngineError>)
    ensures
        match verdict {
            Ok(same) => comparable(a@.columns, b@.columns) && same == agree(a@, b@, mode),
            Err(e) => e == EngineError::SchemaMismatch && !comparable(a@.columns, b@.columns),
        },
{
    match mode {
        Mode::Ordered => compare_ordered(a, b),
        Mode::Unordered => compare_unordered(a, b),
    }
}

/// The first failure among three answers, in the order raw, built, piped.
pub open spec fn first_failure(
    raw: Result<Table, EngineError>,
    built: Result<Table, EngineError>,
    piped: Result<Table, EngineError>,
) -> Option<EngineError> {
    match (raw, built, piped) {
        (Err(e), _, _) => Some(e),
        (Ok(_), Err(e), _) => Some(e),
        (Ok(_), Ok(_), Err(e)) => Some(e),
        (Ok(_), Ok(_), Ok(_)) => None,
    }
}

/// Reconciles the three answers to one question.
///
/// A failure of one of the paths ends the reconciliation: the first of them,
/// in the order raw, built, piped, is handed on as it is. Three answers whose
/// schemas cannot be compared, the raw with the built or the built with the
/// piped, are a `SchemaMismatch`. Otherwise the outcome is the piped answer
/// where the raw agrees with the built and the built with the piped, and
/// `None` where they differ: a difference is an outcome, not a failure.
pub fn reconcile(
    raw: Result<Table, EngineError>,
    built: Result<Table, EngineError>,
    piped: Result<Table, EngineError>,
    mode: Mode,
) -> (outcome: Result<Option<Table>, EngineError>)
    ensures
        match first_failure(raw, built, piped) {
            Some(e) => outcome == Err::<Option<Table>, EngineError>(e),
            None => {
                let a = raw.unwrap()@;
                let b = built.unwrap()@;
                let c = piped.unwrap();
                if comparable(a.columns, b.columns) && comparable(b.columns, c@.columns) {
                    if agree(a, b, mode) && agree(b, c@, mode) {
                        outcome == Ok::<Option<Table>, EngineError>(Some(c))
                    } else {
                        outcome == Ok::<Option<Table>, EngineError>(None)
                    }
                } else {
                    outcome == Err::<Option<Table>, EngineError>(EngineError::SchemaMismatch)
                }
            },
        },
{
    let a = match raw {
        Ok(a) => a,
        Err(e) => {
            return Err(e);
        },
    };
    let b = match built {
        Ok(b) => b,
        Err(e) => {
            return Err(e);
        },
    };
    let c = match piped {
        Ok(c) => c,
        Err(e) => {
            return Err(e);
        },
    };
    let first = match compare(&a, &b, mode) {
        Ok(first) => first,
        Err(e) => {
            return Err(e);
        },
    };
    let second = match compare(&b, &c, mode) {
        Ok(second) => second,
        Err(e) => {
            return Err(e);
        },
    };
    if first && second {
        Ok(Some(c))
    } else {
        Ok(None)
    }
}

/// One step of a pipeline: an operator and its arguments. The table that
/// the operator works on is the result of the step before; an operator on
/// two tables has it on its left.
#[derive(Debug)]
pub enum Step {
    Select(Vec<SelectItem>),
    Filter(Predicate),
    OrderBy(Vec<SortKey>),
    Unique(Option<Vec<String>>),
    GroupBy { by: Vec<String>, aggregates: Vec<Aggregate> },
    Join { right: Table, on: Vec<JoinKey>, kind: JoinKind },
    CrossJoin { right: Table },
    AntiJoin { right: Table, on: Vec<JoinKey> },
    Union { right: Table },
    Except { right: Table },
}

/// The view of a result: that of the table, or the failure as it is.
pub open spec fn outcome_view(out: Result<Table, EngineError>) -> Result<TableView, EngineError> {
    match out {
        Ok(table) => Ok(table@),
        Err(e) => Err(e),
    }
}

impl Step {
    /// Whether `out` is what the step makes of `input`: the table that its
    /// operator returns, or the failure that it reports.
    pub open spec fn yields(self, input: TableView, out: Result<TableView, EngineError>) -> bool {
        match self {
            Step::Select(items) => match out {
                Ok(made) => {
                    &&& select_fault(input.columns, items@) is None
                    &&& made.columns == selected_columns(input.columns, items@)
                    &&& made.rows == selected_rows(input, items@)
                },
                Err(e) => select_fault(input.columns, items@) == Some(e),
            },
            Step::Filter(predicate) => match out {
                Ok(made) => {
                    &&& predicate.fault(input.columns) is None
                    &&& made.columns == input.columns
                    &&& made.rows == rows_kept(input, predicate)
                },
                Err(e) => predicate.fault(input.columns) == Some(e),
            },
            Step::OrderBy(keys) => match out {
                Ok(made) => {
                    &&& sortable(input.columns, keys@)
                    &&& made.columns == input.columns
                    &&& exists|places: Seq<int>|
                        is_sorting(input.rows, sorts_at(input.columns, keys@), places)
                            && made.rows == arranged(input.rows, places)
                },
                Err(e) => e == EngineError::UnknownColumn && !sortable(input.columns, keys@),
            },
            Step::Unique(subset) => match out {
                Ok(made) => {
                    &&& subset matches Some(names) ==> all_known(input.columns, names@)
                    &&& made.columns == input.columns
                    &&& made.rows == first_occurrences(
                        input.rows,
                        match subset {
                            Some(names) => positions_of(input.columns, names@),
                            None => crate::distinct::all_positions(input.columns.len()),
                        },
                    )
                },
                Err(e) => {
                    &&& e == EngineError::UnknownColumn
                    &&& subset matches Some(names)
                    &&& !all_known(input.columns, names@)
                },
            },
            Step::GroupBy { by, aggregates } => match out {
                Ok(made) => {
                    &&& group_fault(input, by@, aggregates@) is None
                    &&& made.columns == grouped_columns(input.columns, by@, aggregates@)
                    &&& made.rows == grouped_rows(
                        input.rows,
                        positions_of(input.columns, by@),
                        aggregates_at(input.columns, aggregates@),
                    )
                },
                Err(e) => group_fault(input, by@, aggregates@) == Some(e),
            },
            Step::Join { right, on, kind } => match out {
                Ok(made) => {
                    &&& join_fault(input.columns, right@.columns, on@) is None
                    &&& made.columns == joined_columns(input.columns, right@.columns, kind)
                    &&& made.rows == joined_rows(
                        input,
                        right@,
                        keys_at(input.columns, right@.columns, on@),
                        kind,
                    )
                },
                Err(e) => join_fault(input.columns, right@.columns, on@) == Some(e),
            },
            Step::CrossJoin { right } => match out {
                Ok(made) => {
                    &&& distinct_names(names_of(input.columns + right@.columns))
                    &&& made.columns == input.columns + right@.columns
                    &&& made.rows == cross_rows(input.rows, right@.rows)
                },
                Err(e) => e == EngineError::SchemaMismatch && !distinct_names(
                    names_of(input.columns + right@.columns),
                ),
            },
            Step::AntiJoin { right, on } => match out {
                Ok(made) => {
                    &&& keys_fault(input.columns, right@.columns, on@) is None
                    &&& made.columns == input.columns
                    &&& made.rows == lonely_rows(
                        input.rows,
                        right@.rows,
                        keys_at(input.columns, right@.columns, on@),
                    )
                },
                Err(e) => keys_fault(input.columns, right@.columns, on@) == Some(e),
            },
            Step::Union { right } => match out {
                Ok(made) => {
                    &&& comparable(input.columns, right@.columns)
                    &&& made.columns == united_columns(input.columns, right@.columns)
                    &&& made.rows == union_rows(input, right@)
                },
                Err(e) => e == EngineError::SchemaMismatch && !comparable(
                    input.columns,
                    right@.columns,
                ),
            },
            Step::Except { right } => match out {
                Ok(made) => {
                    &&& comparable(input.columns, right@.columns)
                    &&& made.columns == input.columns
                    &&& made.rows == except_rows(input, right@)
                },
                Err(e) => e == EngineError::SchemaMismatch && !comparable(
                    input.columns,
                    right@.columns,
                ),
            },
        }
    }

    /// Applies the operator of the step to `input`.
    pub fn apply(&self, input: &Table) -> (out: Result<Table, EngineError>)
        ensures
            self.yields(input@, outcome_view(out)),
            out matches Ok(made) ==> made@.wf(),
    {
        match self {
            Step::Select(items) => select(input, items),
            Step::Filter(predicate) => filter(input, predicate),
            Step::OrderBy(keys) => order_by(input, keys),
            Step::Unique(subset) => match subset {
                Some(names) => unique(input, Some(names)),
                None => unique(input, None),
            },
            Step::GroupBy { by, aggregates } => group_by(input, by, aggregates),
            Step::Join { right, on, kind } => join(input, right, on, *kind),
            Step::CrossJoin { right } => cross_join(input, right),
            Step::AntiJoin { right, on } => anti_join(input, right, on),
            Step::Union { right } => union(input, right),
            Step::Except { right } => except(input, right),
        }
    }
}

/// Whether `out` follows from `mid` by one step: what the step makes of the
/// table, or the failure handed on.
pub open spec fn follows(
    mid: Result<TableView, EngineError>,
    step: Step,
    out: Result<TableView, EngineError>,
) -> bool {
    match mid {
        Ok(table) => step.yields(table, out),
        Err(e) => out == Err::<TableView, EngineError>(e),
    }
}

/// Whether `out` is what the steps make of `input`, one after the other:
/// each step works on the table that the step before it made, and the first
/// failure ends the run and is its outcome.
pub open spec fn runs(steps: Seq<Step>, input: TableView, out: Result<TableView, EngineError>) -> bool
    decreases steps.len(),
{
    if steps.len() == 0 {
        out == Ok::<TableView, EngineError>(input)
    } else {
        exists|mid: Result<TableView, EngineError>|
            runs(steps.drop_last(), input, mid) && #[trigger] follows(mid, steps.last(), out)
    }
}

/// One more step: what the last step makes of an outcome of the steps
/// before it is an outcome of them all.
proof fn lemma_run_step(
    steps: Seq<Step>,
    input: TableView,
    mid: Result<TableView, EngineError>,
    out: Result<TableView, EngineError>,
)
    requires
        steps.len() > 0,
        runs(steps.drop_last(), input, mid),
        follows(mid, steps.last(), out),
    ensures
        runs(steps, input, out),
{
}

/// A failure after the first steps is the outcome of the whole run.
proof fn lemma_failure_ends_run(steps: Seq<Step>, input: TableView, n: int, e: EngineError)
    requires
        0 <= n <= steps.len(),
        runs(steps.take(n), input, Err(e)),
    ensures
        runs(steps, input, Err(e)),
    decreases steps.len() - n,
{
    if n < steps.len() {
        assert(steps.take(n + 1).drop_last() == steps.take(n));
        lemma_run_step(steps.take(n + 1), input, Err(e), Err(e));
        lemma_failure_ends_run(steps, input, n + 1, e);
    } else {
        assert(steps.take(n) == steps);
    }
}

/// Runs a pipeline on `input`: the steps in their order, each on the result
/// of the one before. The outcome is the table that the last step makes, or
/// the failure of the first step that fails. Without steps it is `input`.
pub fn run(input: Table, steps: &Vec<Step>) -> (out: Result<Table, EngineError>)
    ensures
        runs(steps@, input@, outcome_view(out)),
{
    let ghost start = input@;
    let mut current = input;
    let mut i: usize = 0;
    while i < steps.len()
        invariant
            i <= steps.len(),
            start == input@,
            runs(steps@.take(i as int), start, Ok(current@)),
        decreases steps.len() - i,
    {
        proof {
            assert(steps@.take(i as int + 1).drop_last() == steps@.take(i as int));
            assert(steps@.take(i as int + 1).last() == steps@[i as int]);
        }
        let ghost before = current@;
        match steps[i].apply(&current) {
            Ok(next) => {
                proof {
                    assert(runs(steps@.take(i as int), start, Ok(before)));
                    assert(steps@[i as int].yields(before, Ok(next@)));
                    lemma_run_step(steps@.take(i as int + 1), start, Ok(before), Ok(next@));
                }
                current = next;
            },
            Err(e) => {
                proof {
                    assert(runs(steps@.take(i as int), start, Ok(before)));
                    assert(steps@[i as int].yields(before, Err(e)));
                    lemma_run_step(steps@.take(i as int + 1), start, Ok(before), Err(e));
                    lemma_failure_ends_run(steps@, start, i as int + 1, e);
                }
                return Err(e);
            },
        }
        i += 1;
    }
    proof {
        assert(steps@.take(steps.len() as int) == steps@);
    }
    Ok(current)
}

} // verus!
