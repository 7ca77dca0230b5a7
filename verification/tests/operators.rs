use tabular::distinct::unique;
use tabular::error::EngineError;
use tabular::expr::Expr;
use tabular::filter::filter;
use tabular::predicate::{Comparison, Predicate, Tri};
use tabular::schema::{Column, Schema};
use tabular::select::{select, SelectItem};
use tabular::sort::{order_by, Direction, NullPlacement, SortKey};
use tabular::table::Table;
use tabular::value::{Kind, Value};

fn opt_text(text: Option<&str>) -> Value {
    match text {
        Some(t) => Value::text(t),
        None => Value::Null,
    }
}

fn opt_int(number: Option<i64>) -> Value {
    match number {
        Some(n) => Value::Int(n),
        None => Value::Null,
    }
}

fn people(rows: &[(i64, &str, Option<&str>, Option<i64>)]) -> Table {
    let schema = Schema::new(vec![
        Column::new("id", Kind::Int, false),
        Column::new("first_name", Kind::Text, false),
        Column::new("country", Kind::Text, true),
        Column::new("score", Kind::Int, true),
    ])
    .unwrap();
    let rows = rows
        .iter()
        .map(|(id, name, country, score)| {
            vec![Value::Int(*id), Value::text(name), opt_text(*country), opt_int(*score)]
        })
        .collect();
    Table::new(schema, rows).unwrap()
}

fn customers() -> Table {
    people(&[
        (1, "Maria", Some("Germany"), Some(350)),
        (2, "John", Some("USA"), Some(900)),
        (3, "Georg", Some("UK"), Some(750)),
        (4, "Martin", Some("Germany"), Some(500)),
        (5, "Peter", Some("USA"), Some(0)),
    ])
}

fn with_nulls() -> Table {
    people(&[
        (1, "Maria", Some("Germany"), Some(350)),
        (2, "John", None, Some(900)),
        (3, "Georg", Some("UK"), None),
        (4, "Martin", None, None),
    ])
}

fn ids(table: &Table) -> Vec<i64> {
    table
        .column("id")
        .unwrap()
        .iter()
        .map(|v| match v {
            Value::Int(i) => *i,
            _ => panic!("id is not an integer"),
        })
        .collect()
}

fn compare(column: &str, op: Comparison, value: Value) -> Predicate {
    Predicate::Compare { column: column.to_string(), op, value }
}

fn not(p: Predicate) -> Predicate {
    Predicate::Not(Box::new(p))
}

#[test]
fn three_valued_logic_tables() {
    assert_eq!(Tri::True.not(), Tri::False);
    assert_eq!(Tri::False.not(), Tri::True);
    assert_eq!(Tri::Unknown.not(), Tri::Unknown);
    assert_eq!(Tri::True.and(Tri::Unknown), Tri::Unknown);
    assert_eq!(Tri::False.and(Tri::Unknown), Tri::False);
    assert_eq!(Tri::Unknown.and(Tri::False), Tri::False);
    assert_eq!(Tri::True.and(Tri::True), Tri::True);
    assert_eq!(Tri::True.or(Tri::Unknown), Tri::True);
    assert_eq!(Tri::Unknown.or(Tri::True), Tri::True);
    assert_eq!(Tri::False.or(Tri::Unknown), Tri::Unknown);
    assert_eq!(Tri::False.or(Tri::False), Tri::False);
}

#[test]
fn filter_keeps_rows_where_the_predicate_is_true() {
    let kept = filter(&customers(), &compare("score", Comparison::NotEqual, Value::Int(0))).unwrap();
    assert_eq!(ids(&kept), vec![1, 2, 3, 4]);
    let kept =
        filter(&customers(), &compare("country", Comparison::Equal, Value::text("Germany")))
            .unwrap();
    assert_eq!(ids(&kept), vec![1, 4]);
    assert_eq!(kept.width(), 4);
}

#[test]
fn filter_supports_every_comparison() {
    let t = customers();
    let by = |op| ids(&filter(&t, &compare("score", op, Value::Int(500))).unwrap());
    assert_eq!(by(Comparison::Equal), vec![4]);
    assert_eq!(by(Comparison::NotEqual), vec![1, 2, 3, 5]);
    assert_eq!(by(Comparison::Less), vec![1, 5]);
    assert_eq!(by(Comparison::LessOrEqual), vec![1, 4, 5]);
    assert_eq!(by(Comparison::Greater), vec![2, 3]);
    assert_eq!(by(Comparison::GreaterOrEqual), vec![2, 3, 4]);
}

#[test]
fn filter_combines_conditions() {
    let both = Predicate::And(
        Box::new(compare("country", Comparison::Equal, Value::text("USA"))),
        Box::new(compare("score", Comparison::Greater, Value::Int(500))),
    );
    assert_eq!(ids(&filter(&customers(), &both).unwrap()), vec![2]);
    let either = Predicate::Or(
        Box::new(compare("country", Comparison::Equal, Value::text("UK"))),
        Box::new(compare("score", Comparison::Less, Value::Int(400))),
    );
    assert_eq!(ids(&filter(&customers(), &either).unwrap()), vec![1, 3, 5]);
}

#[test]
fn filter_by_set_membership() {
    let listed = Predicate::IsIn {
        column: "country".to_string(),
        values: vec![Value::text("Germany"), Value::text("USA")],
    };
    assert_eq!(ids(&filter(&customers(), &not(listed)).unwrap()), vec![3]);
    let listed = Predicate::IsIn {
        column: "country".to_string(),
        values: vec![Value::text("Germany"), Value::text("USA")],
    };
    assert_eq!(ids(&filter(&customers(), &listed).unwrap()), vec![1, 2, 4, 5]);
    let nothing = Predicate::IsIn { column: "country".to_string(), values: Vec::new() };
    assert_eq!(ids(&filter(&customers(), &nothing).unwrap()), Vec::<i64>::new());
}

#[test]
fn filter_compares_two_columns() {
    let schema = Schema::new(vec![
        Column::new("id", Kind::Int, false),
        Column::new("low", Kind::Int, true),
        Column::new("high", Kind::Int, true),
    ])
    .unwrap();
    let table = Table::new(
        schema,
        vec![
            vec![Value::Int(1), Value::Int(1), Value::Int(2)],
            vec![Value::Int(2), Value::Int(5), Value::Int(5)],
            vec![Value::Int(3), Value::Int(9), Value::Int(3)],
            vec![Value::Int(4), Value::Null, Value::Int(3)],
        ],
    )
    .unwrap();
    let p = Predicate::CompareColumns {
        left: "low".to_string(),
        op: Comparison::LessOrEqual,
        right: "high".to_string(),
    };
    assert_eq!(ids(&filter(&table, &p).unwrap()), vec![1, 2]);
}

#[test]
fn filter_drops_rows_where_the_predicate_is_unknown() {
    let t = with_nulls();
    let german = compare("country", Comparison::Equal, Value::text("Germany"));
    assert_eq!(ids(&filter(&t, &german).unwrap()), vec![1]);
    let german = compare("country", Comparison::Equal, Value::text("Germany"));
    assert_eq!(ids(&filter(&t, &not(german)).unwrap()), vec![3]);
    let against_null = compare("country", Comparison::Equal, Value::Null);
    assert_eq!(ids(&filter(&t, &against_null).unwrap()), Vec::<i64>::new());
    let against_null = compare("country", Comparison::NotEqual, Value::Null);
    assert_eq!(ids(&filter(&t, &against_null).unwrap()), Vec::<i64>::new());
}

#[test]
fn filter_and_its_negation_split_the_table_three_ways() {
    let t = with_nulls();
    let high = || compare("score", Comparison::Greater, Value::Int(500));
    let yes = ids(&filter(&t, &high()).unwrap());
    let no = ids(&filter(&t, &not(high())).unwrap());
    let unknown = ids(&filter(&t, &Predicate::IsNull { column: "score".to_string() }).unwrap());
    assert_eq!(yes, vec![2]);
    assert_eq!(no, vec![1]);
    assert_eq!(unknown, vec![3, 4]);
    let mut all: Vec<i64> = yes.iter().chain(no.iter()).chain(unknown.iter()).cloned().collect();
    all.sort();
    assert_eq!(all, ids(&t));
    let full = customers();
    let yes = ids(&filter(&full, &high()).unwrap());
    let no = ids(&filter(&full, &not(high())).unwrap());
    assert_eq!(yes, vec![2, 3]);
    assert_eq!(no, vec![1, 4, 5]);
}

#[test]
fn null_checks_are_never_unknown() {
    let t = with_nulls();
    let is_null = Predicate::IsNull { column: "country".to_string() };
    assert_eq!(ids(&filter(&t, &is_null).unwrap()), vec![2, 4]);
    let is_null = Predicate::IsNull { column: "country".to_string() };
    assert_eq!(ids(&filter(&t, &not(is_null)).unwrap()), vec![1, 3]);
}

#[test]
fn membership_with_nulls_is_unknown_unless_found() {
    let t = with_nulls();
    let listed = || Predicate::IsIn {
        column: "country".to_string(),
        values: vec![Value::text("Germany"), Value::Null],
    };
    assert_eq!(ids(&filter(&t, &listed()).unwrap()), vec![1]);
    assert_eq!(ids(&filter(&t, &not(listed())).unwrap()), Vec::<i64>::new());
}

#[test]
fn unknown_spreads_through_and_and_or() {
    let t = with_nulls();
    let unknown_or_true = Predicate::Or(
        Box::new(compare("score", Comparison::Greater, Value::Int(0))),
        Box::new(compare("id", Comparison::Equal, Value::Int(3))),
    );
    assert_eq!(ids(&filter(&t, &unknown_or_true).unwrap()), vec![1, 2, 3]);
    let unknown_and_false = not(Predicate::And(
        Box::new(compare("score", Comparison::Greater, Value::Int(0))),
        Box::new(compare("id", Comparison::Equal, Value::Int(0))),
    ));
    assert_eq!(ids(&filter(&t, &unknown_and_false).unwrap()), vec![1, 2, 3, 4]);
}

#[test]
fn filter_reports_unknown_columns_and_wrong_kinds() {
    let t = customers();
    let p = compare("salary", Comparison::Equal, Value::Int(1));
    assert_eq!(filter(&t, &p).unwrap_err(), EngineError::UnknownColumn);
    let p = compare("score", Comparison::Equal, Value::text("high"));
    assert_eq!(filter(&t, &p).unwrap_err(), EngineError::TypeMismatch);
    let p = Predicate::IsIn { column: "score".to_string(), values: vec![Value::text("x")] };
    assert_eq!(filter(&t, &p).unwrap_err(), EngineError::TypeMismatch);
    let p = Predicate::IsNull { column: "nothing".to_string() };
    assert_eq!(filter(&t, &p).unwrap_err(), EngineError::UnknownColumn);
    let p = Predicate::CompareColumns {
        left: "id".to_string(),
        op: Comparison::Equal,
        right: "country".to_string(),
    };
    assert_eq!(filter(&t, &p).unwrap_err(), EngineError::TypeMismatch);
    let p = Predicate::And(
        Box::new(compare("score", Comparison::Equal, Value::text("high"))),
        Box::new(compare("salary", Comparison::Equal, Value::Int(1))),
    );
    assert_eq!(filter(&t, &p).unwrap_err(), EngineError::TypeMismatch);
    let empty = people(&[]);
    let p = compare("salary", Comparison::Equal, Value::Int(1));
    assert_eq!(filter(&empty, &p).unwrap_err(), EngineError::UnknownColumn);
}

#[test]
fn select_restricts_and_renames() {
    let picked = select(
        &customers(),
        &vec![SelectItem::column("first_name"), SelectItem::renamed("score", "points")],
    )
    .unwrap();
    assert_eq!(picked.width(), 2);
    assert_eq!(picked.row_count(), 5);
    assert_eq!(picked.schema().column(0).name, "first_name");
    assert_eq!(picked.schema().column(1).name, "points");
    assert_eq!(picked.schema().column(1).kind, Kind::Int);
    assert!(picked.schema().column(1).nullable);
    assert_eq!(picked.rows()[0], vec![Value::text("Maria"), Value::Int(350)]);
    assert_eq!(picked.rows()[4], vec![Value::text("Peter"), Value::Int(0)]);
}

#[test]
fn select_concatenates_with_literals() {
    let joined = Expr::Concat(
        Box::new(Expr::Concat(
            Box::new(Expr::Column("first_name".to_string())),
            Box::new(Expr::Literal(Value::text("-"))),
        )),
        Box::new(Expr::Column("country".to_string())),
    );
    let made = select(
        &with_nulls(),
        &vec![SelectItem::column("id"), SelectItem::derived("name_country", joined)],
    )
    .unwrap();
    assert_eq!(
        made.column("name_country").unwrap(),
        vec![Value::text("Maria-Germany"), Value::Null, Value::text("Georg-UK"), Value::Null]
    );
    assert_eq!(made.schema().column(1).kind, Kind::Text);
    assert!(made.schema().column(1).nullable);
}

#[test]
fn select_changes_case() {
    let made = select(
        &customers(),
        &vec![
            SelectItem::column("first_name"),
            SelectItem::derived(
                "lower_name",
                Expr::Lower(Box::new(Expr::Column("first_name".to_string()))),
            ),
            SelectItem::derived(
                "upper_name",
                Expr::Upper(Box::new(Expr::Column("first_name".to_string()))),
            ),
        ],
    )
    .unwrap();
    assert_eq!(
        made.rows()[0],
        vec![Value::text("Maria"), Value::text("maria"), Value::text("MARIA")]
    );
    assert_eq!(
        made.rows()[3],
        vec![Value::text("Martin"), Value::text("martin"), Value::text("MARTIN")]
    );
    assert!(!made.schema().column(1).nullable);
}

#[test]
fn select_computes_with_integers() {
    let col = |name: &str| Box::new(Expr::Column(name.to_string()));
    let lit = |n: i64| Box::new(Expr::Literal(Value::Int(n)));
    let made = select(
        &with_nulls(),
        &vec![
            SelectItem::derived("sum", Expr::Add(col("id"), col("score"))),
            SelectItem::derived("difference", Expr::Subtract(col("score"), lit(50))),
            SelectItem::derived("product", Expr::Multiply(col("id"), lit(-3))),
        ],
    )
    .unwrap();
    assert_eq!(made.rows()[0], vec![Value::Int(351), Value::Int(300), Value::Int(-3)]);
    assert_eq!(made.rows()[2], vec![Value::Null, Value::Null, Value::Int(-9)]);
    assert!(made.schema().column(0).nullable);
    assert!(!made.schema().column(2).nullable);
}

#[test]
fn integer_arithmetic_wraps_at_64_bits() {
    let schema = Schema::new(vec![Column::new("n", Kind::Int, false)]).unwrap();
    let table = Table::new(
        schema,
        vec![vec![Value::Int(i64::MAX)], vec![Value::Int(i64::MIN)], vec![Value::Int(3)]],
    )
    .unwrap();
    let col = || Box::new(Expr::Column("n".to_string()));
    let lit = |n: i64| Box::new(Expr::Literal(Value::Int(n)));
    let made = select(
        &table,
        &vec![
            SelectItem::derived("plus", Expr::Add(col(), lit(1))),
            SelectItem::derived("minus", Expr::Subtract(col(), lit(1))),
            SelectItem::derived("times", Expr::Multiply(col(), lit(2))),
            SelectItem::derived("square", Expr::Multiply(col(), col())),
        ],
    )
    .unwrap();
    assert_eq!(
        made.rows()[0],
        vec![
            Value::Int(i64::MIN),
            Value::Int(i64::MAX - 1),
            Value::Int(-2),
            Value::Int(i64::MAX.wrapping_mul(i64::MAX)),
        ]
    );
    assert_eq!(
        made.rows()[1],
        vec![Value::Int(i64::MIN + 1), Value::Int(i64::MAX), Value::Int(0), Value::Int(0)]
    );
    assert_eq!(made.rows()[2], vec![Value::Int(4), Value::Int(2), Value::Int(6), Value::Int(9)]);
}

#[test]
fn select_reports_faults_before_reading_rows() {
    let t = customers();
    let col = |name: &str| Box::new(Expr::Column(name.to_string()));
    assert_eq!(
        select(&t, &vec![SelectItem::column("salary")]).unwrap_err(),
        EngineError::UnknownColumn
    );
    assert_eq!(
        select(&t, &vec![SelectItem::derived("x", Expr::Add(col("id"), col("first_name")))])
            .unwrap_err(),
        EngineError::TypeMismatch
    );
    assert_eq!(
        select(&t, &vec![SelectItem::derived("x", Expr::Concat(col("id"), col("first_name")))])
            .unwrap_err(),
        EngineError::TypeMismatch
    );
    assert_eq!(
        select(&t, &vec![SelectItem::derived("x", Expr::Lower(col("score")))]).unwrap_err(),
        EngineError::TypeMismatch
    );
    assert_eq!(
        select(&t, &vec![SelectItem::derived("x", Expr::Upper(col("nothing")))]).unwrap_err(),
        EngineError::UnknownColumn
    );
    assert_eq!(
        select(&t, &vec![SelectItem::derived("x", Expr::Literal(Value::Null))]).unwrap_err(),
        EngineError::TypeMismatch
    );
    assert_eq!(
        select(&t, &vec![SelectItem::column("id"), SelectItem::renamed("score", "id")])
            .unwrap_err(),
        EngineError::SchemaMismatch
    );
    assert_eq!(
        select(&people(&[]), &vec![SelectItem::column("salary")]).unwrap_err(),
        EngineError::UnknownColumn
    );
}

#[test]
fn select_of_nothing_keeps_the_row_count() {
    let made = select(&customers(), &Vec::new()).unwrap();
    assert_eq!(made.width(), 0);
    assert_eq!(made.row_count(), 5);
}

#[test]
fn select_the_same_column_twice_under_two_names() {
    let made = select(
        &customers(),
        &vec![SelectItem::renamed("first_name", "a"), SelectItem::renamed("first_name", "b")],
    )
    .unwrap();
    assert_eq!(made.rows()[1], vec![Value::text("John"), Value::text("John")]);
}

#[test]
fn sort_descending_by_score() {
    let sorted = order_by(
        &customers(),
        &vec![SortKey::new("score", Direction::Descending, NullPlacement::Default)],
    )
    .unwrap();
    assert_eq!(ids(&sorted), vec![2, 3, 4, 1, 5]);
}

#[test]
fn sort_is_stable() {
    let sorted = order_by(
        &customers(),
        &vec![SortKey::new("country", Direction::Ascending, NullPlacement::Default)],
    )
    .unwrap();
    assert_eq!(ids(&sorted), vec![1, 4, 3, 2, 5]);
    let sorted = order_by(
        &customers(),
        &vec![SortKey::new("country", Direction::Descending, NullPlacement::Default)],
    )
    .unwrap();
    assert_eq!(ids(&sorted), vec![2, 5, 3, 1, 4]);
}

#[test]
fn sort_by_several_keys() {
    let sorted = order_by(
        &customers(),
        &vec![
            SortKey::new("country", Direction::Ascending, NullPlacement::Default),
            SortKey::new("score", Direction::Descending, NullPlacement::Default),
        ],
    )
    .unwrap();
    assert_eq!(ids(&sorted), vec![4, 1, 3, 2, 5]);
}

#[test]
fn sort_places_nulls_last_ascending_and_first_descending_by_default() {
    let t = with_nulls();
    let by = |direction, nulls| {
        ids(&order_by(&t, &vec![SortKey::new("score", direction, nulls)]).unwrap())
    };
    assert_eq!(by(Direction::Ascending, NullPlacement::Default), vec![1, 2, 3, 4]);
    assert_eq!(by(Direction::Descending, NullPlacement::Default), vec![3, 4, 2, 1]);
    assert_eq!(by(Direction::Ascending, NullPlacement::First), vec![3, 4, 1, 2]);
    assert_eq!(by(Direction::Ascending, NullPlacement::Last), vec![1, 2, 3, 4]);
    assert_eq!(by(Direction::Descending, NullPlacement::First), vec![3, 4, 2, 1]);
    assert_eq!(by(Direction::Descending, NullPlacement::Last), vec![2, 1, 3, 4]);
}

#[test]
fn sort_without_keys_or_rows() {
    assert_eq!(ids(&order_by(&customers(), &Vec::new()).unwrap()), vec![1, 2, 3, 4, 5]);
    let sorted = order_by(
        &people(&[]),
        &vec![SortKey::new("id", Direction::Ascending, NullPlacement::Default)],
    )
    .unwrap();
    assert_eq!(sorted.row_count(), 0);
}

#[test]
fn sort_reports_unknown_columns() {
    let out = order_by(
        &customers(),
        &vec![SortKey::new("salary", Direction::Ascending, NullPlacement::Default)],
    );
    assert_eq!(out.unwrap_err(), EngineError::UnknownColumn);
}

#[test]
fn sort_orders_text_by_code_point() {
    let sorted = order_by(
        &customers(),
        &vec![SortKey::new("first_name", Direction::Ascending, NullPlacement::Default)],
    )
    .unwrap();
    assert_eq!(ids(&sorted), vec![3, 2, 1, 4, 5]);
}

#[test]
fn unique_keeps_first_occurrences_in_order() {
    let countries = select(&customers(), &vec![SelectItem::column("country")]).unwrap();
    let distinct = unique(&countries, None).unwrap();
    assert_eq!(
        distinct.column("country").unwrap(),
        vec![Value::text("Germany"), Value::text("USA"), Value::text("UK")]
    );
}

#[test]
fn unique_by_a_subset_of_columns() {
    let distinct = unique(&customers(), Some(&vec!["country".to_string()])).unwrap();
    assert_eq!(ids(&distinct), vec![1, 2, 3]);
    assert_eq!(distinct.width(), 4);
    let distinct =
        unique(&customers(), Some(&vec!["country".to_string(), "id".to_string()])).unwrap();
    assert_eq!(ids(&distinct), vec![1, 2, 3, 4, 5]);
}

#[test]
fn unique_treats_nulls_as_duplicates_of_each_other() {
    let distinct = unique(&with_nulls(), Some(&vec!["country".to_string()])).unwrap();
    assert_eq!(ids(&distinct), vec![1, 2, 3]);
}

#[test]
fn unique_with_an_empty_key_keeps_one_row() {
    let distinct = unique(&customers(), Some(&Vec::new())).unwrap();
    assert_eq!(ids(&distinct), vec![1]);
    assert_eq!(unique(&people(&[]), None).unwrap().row_count(), 0);
}

#[test]
fn unique_reports_unknown_columns() {
    let out = unique(&customers(), Some(&vec!["salary".to_string()]));
    assert_eq!(out.unwrap_err(), EngineError::UnknownColumn);
}
