use tabular::compare::compare_unordered;
use tabular::error::EngineError;
use tabular::filter::filter;
use tabular::group::{aggregate, group_by, Aggregate, AggregateFn};
use tabular::predicate::{Comparison, Predicate};
use tabular::schema::{Column, Schema};
use tabular::table::Table;
use tabular::value::{Kind, Value};

fn opt_text(text: Option<&str>) -> Value {
    match text {
        Some(t) => Value::text(t),
        None => Value::Null,
    }
}

fn opt_int(number: Option<i64>) -> Value {
    match number {
        Some(n) => Value::Int(n),
        None => Value::Null,
    }
}

fn people(rows: &[(i64, Option<&str>, Option<i64>)]) -> Table {
    let schema = Schema::new(vec![
        Column::new("id", Kind::Int, false),
        Column::new("country", Kind::Text, true),
        Column::new("score", Kind::Int, true),
    ])
    .unwrap();
    let rows = rows
        .iter()
        .map(|(id, country, score)| vec![Value::Int(*id), opt_text(*country), opt_int(*score)])
        .collect();
    Table::new(schema, rows).unwrap()
}

fn customers() -> Table {
    people(&[
        (1, Some("Germany"), Some(350)),
        (2, Some("USA"), Some(900)),
        (3, Some("UK"), Some(750)),
        (4, Some("Germany"), Some(500)),
        (5, Some("USA"), Some(0)),
    ])
}

fn by_country() -> Vec<String> {
    vec!["country".to_string()]
}

#[test]
fn sum_and_count_by_country() {
    let grouped = group_by(
        &customers(),
        &by_country(),
        &vec![
            Aggregate::new(AggregateFn::Sum, "score", "total_score"),
            Aggregate::new(AggregateFn::Count, "id", "total_customers"),
        ],
    )
    .unwrap();
    let schema = Schema::new(vec![
        Column::new("country", Kind::Text, true),
        Column::new("total_score", Kind::Int, false),
        Column::new("total_customers", Kind::Int, false),
    ])
    .unwrap();
    let expected = Table::new(
        schema,
        vec![
            vec![Value::text("UK"), Value::Int(750), Value::Int(1)],
            vec![Value::text("USA"), Value::Int(900), Value::Int(2)],
            vec![Value::text("Germany"), Value::Int(850), Value::Int(2)],
        ],
    )
    .unwrap();
    assert_eq!(compare_unordered(&grouped, &expected), Ok(true));
    assert_eq!(grouped.schema().column(0).name, "country");
    assert_eq!(grouped.schema().column(1).name, "total_score");
    assert_eq!(grouped.schema().column(2).name, "total_customers");
}

#[test]
fn groups_come_in_order_of_first_occurrence() {
    let grouped = group_by(
        &customers(),
        &by_country(),
        &vec![Aggregate::new(AggregateFn::Sum, "score", "total")],
    )
    .unwrap();
    assert_eq!(
        grouped.rows(),
        &vec![
            vec![Value::text("Germany"), Value::Int(850)],
            vec![Value::text("USA"), Value::Int(900)],
            vec![Value::text("UK"), Value::Int(750)],
        ]
    );
}

#[test]
fn having_is_a_filter_on_the_grouped_table() {
    let grouped = group_by(
        &customers(),
        &by_country(),
        &vec![Aggregate::new(AggregateFn::Sum, "score", "total_score")],
    )
    .unwrap();
    let kept = filter(
        &grouped,
        &Predicate::Compare {
            column: "total_score".to_string(),
            op: Comparison::Greater,
            value: Value::Int(800),
        },
    )
    .unwrap();
    assert_eq!(
        kept.rows(),
        &vec![
            vec![Value::text("Germany"), Value::Int(850)],
            vec![Value::text("USA"), Value::Int(900)],
        ]
    );
}

#[test]
fn average_of_the_scores_that_are_not_zero() {
    let scored = filter(
        &customers(),
        &Predicate::Compare {
            column: "score".to_string(),
            op: Comparison::NotEqual,
            value: Value::Int(0),
        },
    )
    .unwrap();
    let grouped = group_by(
        &scored,
        &by_country(),
        &vec![Aggregate::new(AggregateFn::Average, "score", "avg_score")],
    )
    .unwrap();
    assert_eq!(
        grouped.rows(),
        &vec![
            vec![Value::text("Germany"), Value::Int(425)],
            vec![Value::text("USA"), Value::Int(900)],
            vec![Value::text("UK"), Value::Int(750)],
        ]
    );
    let kept = filter(
        &grouped,
        &Predicate::Compare {
            column: "avg_score".to_string(),
            op: Comparison::Greater,
            value: Value::Int(430),
        },
    )
    .unwrap();
    assert_eq!(kept.row_count(), 2);
}

#[test]
fn null_is_a_group_of_its_own() {
    let t = people(&[
        (1, None, Some(1)),
        (2, Some("UK"), Some(2)),
        (3, None, Some(4)),
        (4, Some("UK"), None),
    ]);
    let grouped = group_by(
        &t,
        &by_country(),
        &vec![
            Aggregate::new(AggregateFn::Sum, "score", "sum"),
            Aggregate::new(AggregateFn::Count, "score", "rows"),
        ],
    )
    .unwrap();
    assert_eq!(
        grouped.rows(),
        &vec![
            vec![Value::Null, Value::Int(5), Value::Int(2)],
            vec![Value::text("UK"), Value::Int(2), Value::Int(2)],
        ]
    );
}

#[test]
fn aggregates_over_a_group_of_nulls() {
    let t = people(&[(1, Some("UK"), None), (2, Some("UK"), None), (3, Some("USA"), Some(-7))]);
    let grouped = group_by(
        &t,
        &by_country(),
        &vec![
            Aggregate::new(AggregateFn::Sum, "score", "sum"),
            Aggregate::new(AggregateFn::Count, "score", "rows"),
            Aggregate::new(AggregateFn::Average, "score", "avg"),
            Aggregate::new(AggregateFn::Min, "score", "min"),
            Aggregate::new(AggregateFn::Max, "score", "max"),
        ],
    )
    .unwrap();
    assert_eq!(
        grouped.rows(),
        &vec![
            vec![
                Value::text("UK"),
                Value::Int(0),
                Value::Int(2),
                Value::Null,
                Value::Null,
                Value::Null
            ],
            vec![
                Value::text("USA"),
                Value::Int(-7),
                Value::Int(1),
                Value::Int(-7),
                Value::Int(-7),
                Value::Int(-7)
            ],
        ]
    );
    assert!(!grouped.schema().column(1).nullable);
    assert!(!grouped.schema().column(2).nullable);
    assert!(grouped.schema().column(3).nullable);
    assert!(grouped.schema().column(4).nullable);
}

#[test]
fn average_leaves_nulls_out_of_both_sum_and_number() {
    let cells = vec![Value::Int(10), Value::Null, Value::Int(20), Value::Null];
    assert_eq!(aggregate(AggregateFn::Average, &cells), Value::Int(15));
    assert_eq!(aggregate(AggregateFn::Count, &cells), Value::Int(4));
    assert_eq!(aggregate(AggregateFn::Sum, &cells), Value::Int(30));
}

#[test]
fn average_rounds_toward_zero() {
    let up = vec![Value::Int(1), Value::Int(2)];
    assert_eq!(aggregate(AggregateFn::Average, &up), Value::Int(1));
    let down = vec![Value::Int(-1), Value::Int(-2)];
    assert_eq!(aggregate(AggregateFn::Average, &down), Value::Int(-1));
    let seven = vec![Value::Int(7), Value::Int(7), Value::Int(8)];
    assert_eq!(aggregate(AggregateFn::Average, &seven), Value::Int(7));
    let wide = vec![Value::Int(i64::MAX), Value::Int(i64::MAX)];
    assert_eq!(aggregate(AggregateFn::Average, &wide), Value::Int(i64::MAX));
    let low = vec![Value::Int(i64::MIN), Value::Int(i64::MIN), Value::Int(i64::MIN)];
    assert_eq!(aggregate(AggregateFn::Average, &low), Value::Int(i64::MIN));
}

#[test]
fn sum_wraps_at_64_bits() {
    let cells = vec![Value::Int(i64::MAX), Value::Int(1)];
    assert_eq!(aggregate(AggregateFn::Sum, &cells), Value::Int(i64::MIN));
    let cells = vec![Value::Int(i64::MIN), Value::Int(-1)];
    assert_eq!(aggregate(AggregateFn::Sum, &cells), Value::Int(i64::MAX));
    let cells = vec![Value::Int(i64::MAX), Value::Int(i64::MAX), Value::Int(2)];
    assert_eq!(aggregate(AggregateFn::Sum, &cells), Value::Int(0));
    let cells = vec![Value::Int(i64::MIN), Value::Int(i64::MIN)];
    assert_eq!(aggregate(AggregateFn::Sum, &cells), Value::Int(0));
    let cells = vec![Value::Int(-5), Value::Int(3)];
    assert_eq!(aggregate(AggregateFn::Sum, &cells), Value::Int(-2));
}

#[test]
fn minimum_and_maximum_of_any_kind() {
    let texts = vec![Value::text("pear"), Value::Null, Value::text("apple"), Value::text("plum")];
    assert_eq!(aggregate(AggregateFn::Min, &texts), Value::text("apple"));
    assert_eq!(aggregate(AggregateFn::Max, &texts), Value::text("plum"));
    let dates = vec![Value::Date(18722), Value::Date(18638), Value::Date(18796)];
    assert_eq!(aggregate(AggregateFn::Min, &dates), Value::Date(18638));
    assert_eq!(aggregate(AggregateFn::Max, &dates), Value::Date(18796));
    assert_eq!(aggregate(AggregateFn::Min, &Vec::new()), Value::Null);
    assert_eq!(aggregate(AggregateFn::Max, &vec![Value::Null]), Value::Null);
    assert_eq!(aggregate(AggregateFn::Sum, &Vec::new()), Value::Int(0));
    assert_eq!(aggregate(AggregateFn::Count, &Vec::new()), Value::Int(0));
    assert_eq!(aggregate(AggregateFn::Average, &Vec::new()), Value::Null);
}

#[test]
fn minimum_keeps_the_kind_of_its_column() {
    let grouped = group_by(
        &customers(),
        &Vec::new(),
        &vec![
            Aggregate::new(AggregateFn::Min, "country", "first"),
            Aggregate::new(AggregateFn::Max, "score", "best"),
        ],
    )
    .unwrap();
    assert_eq!(grouped.rows(), &vec![vec![Value::text("Germany"), Value::Int(900)]]);
    assert_eq!(grouped.schema().column(0).kind, Kind::Text);
    assert_eq!(grouped.schema().column(1).kind, Kind::Int);
}

#[test]
fn grouping_by_several_columns() {
    let t = people(&[
        (1, Some("UK"), Some(1)),
        (1, Some("UK"), Some(2)),
        (1, Some("USA"), Some(4)),
        (2, Some("UK"), Some(8)),
    ]);
    let grouped = group_by(
        &t,
        &vec!["id".to_string(), "country".to_string()],
        &vec![Aggregate::new(AggregateFn::Sum, "score", "sum")],
    )
    .unwrap();
    assert_eq!(
        grouped.rows(),
        &vec![
            vec![Value::Int(1), Value::text("UK"), Value::Int(3)],
            vec![Value::Int(1), Value::text("USA"), Value::Int(4)],
            vec![Value::Int(2), Value::text("UK"), Value::Int(8)],
        ]
    );
}

#[test]
fn grouping_without_aggregates_lists_the_keys() {
    let grouped = group_by(&customers(), &by_country(), &Vec::new()).unwrap();
    assert_eq!(
        grouped.rows(),
        &vec![vec![Value::text("Germany")], vec![Value::text("USA")], vec![Value::text("UK")]]
    );
}

#[test]
fn the_whole_table_is_one_group_without_grouping_columns() {
    let grouped = group_by(
        &customers(),
        &Vec::new(),
        &vec![
            Aggregate::new(AggregateFn::Sum, "score", "sum"),
            Aggregate::new(AggregateFn::Count, "id", "rows"),
            Aggregate::new(AggregateFn::Average, "score", "avg"),
        ],
    )
    .unwrap();
    assert_eq!(grouped.rows(), &vec![vec![Value::Int(2500), Value::Int(5), Value::Int(500)]]);
}

#[test]
fn an_empty_table_grouped_by_columns_has_no_groups() {
    let grouped = group_by(
        &people(&[]),
        &by_country(),
        &vec![Aggregate::new(AggregateFn::Max, "score", "best")],
    )
    .unwrap();
    assert_eq!(grouped.row_count(), 0);
    assert_eq!(grouped.width(), 2);
}

#[test]
fn an_empty_table_as_one_group_has_a_sum_and_a_count() {
    let grouped = group_by(
        &people(&[]),
        &Vec::new(),
        &vec![
            Aggregate::new(AggregateFn::Sum, "score", "sum"),
            Aggregate::new(AggregateFn::Count, "id", "rows"),
        ],
    )
    .unwrap();
    assert_eq!(grouped.rows(), &vec![vec![Value::Int(0), Value::Int(0)]]);
}

#[test]
fn an_empty_table_as_one_group_has_no_average_minimum_or_maximum() {
    for function in [AggregateFn::Average, AggregateFn::Min, AggregateFn::Max] {
        let out = group_by(
            &people(&[]),
            &Vec::new(),
            &vec![
                Aggregate::new(AggregateFn::Count, "id", "rows"),
                Aggregate::new(function, "score", "value"),
            ],
        );
        assert_eq!(out.unwrap_err(), EngineError::AggregateOnEmptyGroup);
    }
}

#[test]
fn grouping_reports_its_faults() {
    let t = customers();
    let sum = |column: &str, alias: &str| vec![Aggregate::new(AggregateFn::Sum, column, alias)];
    assert_eq!(
        group_by(&t, &vec!["nothing".to_string()], &sum("score", "s")).unwrap_err(),
        EngineError::UnknownColumn
    );
    assert_eq!(
        group_by(&t, &by_country(), &sum("nothing", "s")).unwrap_err(),
        EngineError::UnknownColumn
    );
    assert_eq!(
        group_by(&t, &by_country(), &sum("country", "s")).unwrap_err(),
        EngineError::TypeMismatch
    );
    assert_eq!(
        group_by(
            &t,
            &by_country(),
            &vec![Aggregate::new(AggregateFn::Average, "country", "a")]
        )
        .unwrap_err(),
        EngineError::TypeMismatch
    );
    assert_eq!(
        group_by(&t, &by_country(), &sum("score", "country")).unwrap_err(),
        EngineError::SchemaMismatch
    );
    assert_eq!(
        group_by(&t, &vec!["country".to_string(), "country".to_string()], &Vec::new())
            .unwrap_err(),
        EngineError::SchemaMismatch
    );
    assert_eq!(
        group_by(
            &t,
            &by_country(),
            &vec![
                Aggregate::new(AggregateFn::Sum, "score", "x"),
                Aggregate::new(AggregateFn::Count, "score", "x"),
            ]
        )
        .unwrap_err(),
        EngineError::SchemaMismatch
    );
    assert_eq!(
        group_by(&people(&[]), &Vec::new(), &sum("country", "s")).unwrap_err(),
        EngineError::TypeMismatch
    );
}
