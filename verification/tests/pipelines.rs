use tabular::compare::{compare_ordered_on, compare_unordered_on};
use tabular::error::EngineError;
use tabular::group::{Aggregate, AggregateFn};
use tabular::join::{JoinKey, JoinKind};
use tabular::order::{placed_order, rows_order, value_order, SortAt};
use tabular::pipeline::{reconcile, run, Mode, Step};
use tabular::predicate::{Comparison, Predicate};
use tabular::schema::{Column, Schema};
use tabular::select::SelectItem;
use tabular::sort::{Direction, NullPlacement, SortKey};
use tabular::table::Table;
use tabular::value::{Kind, Rel, Value};

fn float_key(x: f64) -> i64 {
    let bits = x.to_bits() as i64;
    bits ^ ((((bits >> 63) as u64) >> 1) as i64)
}

fn customers() -> Table {
    let schema = Schema::new(vec![
        Column::new("id", Kind::Int, false),
        Column::new("first_name", Kind::Text, false),
        Column::new("country", Kind::Text, true),
        Column::new("score", Kind::Int, true),
    ])
    .unwrap();
    let rows = [
        (1, "Maria", "Germany", 350),
        (2, "John", "USA", 900),
        (3, "Georg", "UK", 750),
        (4, "Martin", "Germany", 500),
        (5, "Peter", "USA", 0),
    ]
    .iter()
    .map(|(id, name, country, score)| {
        vec![Value::Int(*id), Value::text(name), Value::text(country), Value::Int(*score)]
    })
    .collect();
    Table::new(schema, rows).unwrap()
}

fn orders() -> Table {
    let schema = Schema::new(vec![
        Column::new("order_id", Kind::Int, false),
        Column::new("customer_id", Kind::Int, false),
        Column::new("sales", Kind::Int, true),
    ])
    .unwrap();
    let rows = [(1001, 1, 35), (1002, 2, 15), (1003, 3, 20), (1004, 6, 10)]
        .iter()
        .map(|(order, customer, sales)| {
            vec![Value::Int(*order), Value::Int(*customer), Value::Int(*sales)]
        })
        .collect();
    Table::new(schema, rows).unwrap()
}

fn score_over(limit: i64) -> Predicate {
    Predicate::Compare {
        column: "score".to_string(),
        op: Comparison::Greater,
        value: Value::Int(limit),
    }
}

#[test]
fn a_pipeline_without_steps_returns_its_input() {
    let out = run(customers(), &Vec::new()).unwrap();
    assert_eq!(out.rows(), customers().rows());
    assert_eq!(out.width(), 4);
}

#[test]
fn a_pipeline_hands_each_result_to_the_next_step() {
    let steps = vec![
        Step::Filter(score_over(0)),
        Step::GroupBy {
            by: vec!["country".to_string()],
            aggregates: vec![Aggregate::new(AggregateFn::Sum, "score", "total")],
        },
        Step::Filter(Predicate::Compare {
            column: "total".to_string(),
            op: Comparison::Greater,
            value: Value::Int(800),
        }),
        Step::OrderBy(vec![SortKey::new("total", Direction::Descending, NullPlacement::Default)]),
        Step::Select(vec![SelectItem::renamed("country", "where")]),
    ];
    let out = run(customers(), &steps).unwrap();
    assert_eq!(out.schema().column(0).name, "where");
    assert_eq!(out.rows(), &vec![vec![Value::text("USA")], vec![Value::text("Germany")]]);
}

#[test]
fn a_pipeline_joins_with_the_table_of_its_step() {
    let steps = vec![
        Step::Join {
            right: orders(),
            on: vec![JoinKey::new("id", "customer_id")],
            kind: JoinKind::LeftOuter,
        },
        Step::Filter(Predicate::IsNull { column: "order_id".to_string() }),
        Step::Select(vec![SelectItem::column("id"), SelectItem::column("first_name")]),
    ];
    let out = run(customers(), &steps).unwrap();
    assert_eq!(
        out.rows(),
        &vec![
            vec![Value::Int(4), Value::text("Martin")],
            vec![Value::Int(5), Value::text("Peter")],
        ]
    );
    let anti = run(
        customers(),
        &vec![
            Step::AntiJoin { right: orders(), on: vec![JoinKey::new("id", "customer_id")] },
            Step::Select(vec![SelectItem::column("id"), SelectItem::column("first_name")]),
        ],
    )
    .unwrap();
    assert_eq!(anti.rows(), out.rows());
}

#[test]
fn a_pipeline_runs_every_kind_of_step() {
    let countries = vec![Step::Select(vec![SelectItem::column("country")]), Step::Unique(None)];
    let distinct = run(customers(), &countries).unwrap();
    assert_eq!(distinct.row_count(), 3);
    let by_country =
        run(customers(), &vec![Step::Unique(Some(vec!["country".to_string()]))]).unwrap();
    assert_eq!(by_country.row_count(), 3);
    let crossed = run(customers(), &vec![Step::CrossJoin { right: orders() }]).unwrap();
    assert_eq!(crossed.row_count(), 20);
    let doubled = run(customers(), &vec![Step::Union { right: customers() }]).unwrap();
    assert_eq!(doubled.row_count(), 5);
    let nothing = run(customers(), &vec![Step::Except { right: customers() }]).unwrap();
    assert_eq!(nothing.row_count(), 0);
}

#[test]
fn a_pipeline_ends_at_its_first_failure() {
    let steps = vec![
        Step::Select(vec![SelectItem::column("id")]),
        Step::Filter(score_over(0)),
        Step::Select(vec![SelectItem::column("nothing")]),
    ];
    assert_eq!(run(customers(), &steps).unwrap_err(), EngineError::UnknownColumn);
    let steps = vec![
        Step::Union { right: orders() },
        Step::Select(vec![SelectItem::column("nothing")]),
    ];
    assert_eq!(run(customers(), &steps).unwrap_err(), EngineError::SchemaMismatch);
}

#[test]
fn a_pipeline_feeds_the_reconciliation() {
    let steps = || vec![Step::Filter(score_over(500))];
    let raw = run(customers(), &steps());
    let built = run(customers(), &steps());
    let piped = run(customers(), &steps());
    let out = reconcile(raw, built, piped, Mode::Ordered).unwrap().unwrap();
    assert_eq!(out.row_count(), 2);
    let failed = run(customers(), &vec![Step::Filter(score_over(0)), Step::Except { right: orders() }]);
    let out = reconcile(Ok(customers()), Ok(customers()), failed, Mode::Ordered);
    assert_eq!(out.unwrap_err(), EngineError::SchemaMismatch);
}

#[test]
fn comparison_on_named_columns_ignores_where_they_stand() {
    let a = customers();
    let swapped = Schema::new(vec![
        Column::new("score", Kind::Int, true),
        Column::new("extra", Kind::Text, true),
        Column::new("id", Kind::Int, false),
    ])
    .unwrap();
    let rows = [(350, 1), (900, 2), (750, 3), (500, 4), (0, 5)]
        .iter()
        .map(|(score, id)| vec![Value::Int(*score), Value::Null, Value::Int(*id)])
        .collect();
    let b = Table::new(swapped, rows).unwrap();
    let on = vec!["id".to_string(), "score".to_string()];
    assert_eq!(compare_ordered_on(&a, &b, &on), Ok(true));
    assert_eq!(compare_ordered_on(&b, &a, &on), Ok(true));
    assert_eq!(compare_unordered_on(&a, &b, &on), Ok(true));
    let reversed = vec!["score".to_string(), "id".to_string()];
    assert_eq!(compare_ordered_on(&a, &b, &reversed), Ok(true));
    assert_eq!(compare_ordered_on(&a, &b, &Vec::new()), Ok(true));
}

#[test]
fn comparison_on_named_columns_sees_differences_and_faults() {
    let a = customers();
    let two = Schema::new(vec![
        Column::new("id", Kind::Int, false),
        Column::new("score", Kind::Text, true),
    ])
    .unwrap();
    let b = Table::new(two, vec![vec![Value::Int(2), Value::Null], vec![Value::Int(1), Value::Null]])
        .unwrap();
    let ids = vec!["id".to_string()];
    assert_eq!(compare_ordered_on(&a, &b, &ids), Ok(false));
    assert_eq!(compare_unordered_on(&a, &b, &ids), Ok(false));
    let short = run(
        customers(),
        &vec![Step::Filter(Predicate::Compare {
            column: "id".to_string(),
            op: Comparison::LessOrEqual,
            value: Value::Int(2),
        })],
    )
    .unwrap();
    assert_eq!(compare_ordered_on(&short, &b, &ids), Ok(false));
    assert_eq!(compare_unordered_on(&short, &b, &ids), Ok(true));
    assert_eq!(
        compare_ordered_on(&a, &b, &vec!["first_name".to_string()]),
        Err(EngineError::UnknownColumn)
    );
    assert_eq!(
        compare_unordered_on(&b, &a, &vec!["first_name".to_string()]),
        Err(EngineError::UnknownColumn)
    );
    assert_eq!(
        compare_ordered_on(&a, &b, &vec!["score".to_string()]),
        Err(EngineError::SchemaMismatch)
    );
    assert_eq!(
        compare_unordered_on(&a, &b, &vec!["score".to_string()]),
        Err(EngineError::SchemaMismatch)
    );
}

#[test]
fn floating_point_cells_are_ordered_by_their_key() {
    let numbers = [f64::NEG_INFINITY, -2.5, -0.0, 0.0, 1.0e-300, 1.5, 3.0e10, f64::INFINITY];
    for i in 0..numbers.len() {
        for j in 0..numbers.len() {
            let a = Value::Float(float_key(numbers[i]));
            let b = Value::Float(float_key(numbers[j]));
            let expected = if i < j {
                Rel::Before
            } else if i == j {
                Rel::Same
            } else {
                Rel::After
            };
            assert_eq!(a.relate(&b), Some(expected));
        }
    }
}

#[test]
fn the_sort_order_is_total_over_all_cells() {
    assert_eq!(value_order(&Value::Null, &Value::Int(1)), Rel::Before);
    assert_eq!(value_order(&Value::Int(1), &Value::Float(0)), Rel::Before);
    assert_eq!(value_order(&Value::text("a"), &Value::Float(0)), Rel::After);
    assert_eq!(value_order(&Value::Date(9), &Value::Timestamp(1)), Rel::Before);
    assert_eq!(value_order(&Value::Int(2), &Value::Int(1)), Rel::After);
    assert_eq!(value_order(&Value::Null, &Value::Null), Rel::Same);
    let ascending = SortAt { column: 0, descending: false, nulls_first: false };
    let descending = SortAt { column: 0, descending: true, nulls_first: true };
    assert_eq!(placed_order(&Value::Null, &Value::Int(1), ascending), Rel::After);
    assert_eq!(placed_order(&Value::Null, &Value::Int(1), descending), Rel::Before);
    assert_eq!(placed_order(&Value::Int(2), &Value::Int(1), descending), Rel::Before);
    assert_eq!(placed_order(&Value::Int(2), &Value::Int(1), ascending), Rel::After);
    let second = SortAt { column: 1, descending: false, nulls_first: false };
    let a = vec![Value::Int(1), Value::text("b")];
    let b = vec![Value::Int(1), Value::text("a")];
    assert_eq!(rows_order(&a, &b, &vec![ascending]), Rel::Same);
    assert_eq!(rows_order(&a, &b, &vec![ascending, second]), Rel::After);
    assert_eq!(rows_order(&a, &b, &Vec::new()), Rel::Same);
}
