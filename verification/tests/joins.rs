use tabular::error::EngineError;
use tabular::filter::filter;
use tabular::join::{anti_join, cross_join, join, JoinKey, JoinKind};
use tabular::predicate::Predicate;
use tabular::schema::{Column, Schema};
use tabular::select::{select, SelectItem};
use tabular::table::Table;
use tabular::value::{Kind, Value};

fn customers() -> Table {
    let schema = Schema::new(vec![
        Column::new("id", Kind::Int, false),
        Column::new("first_name", Kind::Text, false),
    ])
    .unwrap();
    let rows = [(1, "Maria"), (2, "John"), (3, "Georg"), (4, "Martin"), (5, "Peter")]
        .iter()
        .map(|(id, name)| vec![Value::Int(*id), Value::text(name)])
        .collect();
    Table::new(schema, rows).unwrap()
}

fn orders() -> Table {
    let schema = Schema::new(vec![
        Column::new("order_id", Kind::Int, false),
        Column::new("customer_id", Kind::Int, false),
        Column::new("order_date", Kind::Date, true),
        Column::new("sales", Kind::Int, true),
    ])
    .unwrap();
    let rows = [(1001, 1, 18638, 35), (1002, 2, 18722, 15), (1003, 3, 18796, 20), (1004, 6, 18870, 10)]
        .iter()
        .map(|(order, customer, day, sales)| {
            vec![Value::Int(*order), Value::Int(*customer), Value::Date(*day), Value::Int(*sales)]
        })
        .collect();
    Table::new(schema, rows).unwrap()
}

fn keyed(rows: &[(i64, Option<i64>)], id: &str, key: &str) -> Table {
    let schema =
        Schema::new(vec![Column::new(id, Kind::Int, false), Column::new(key, Kind::Int, true)])
            .unwrap();
    let rows = rows
        .iter()
        .map(|(id, key)| {
            vec![
                Value::Int(*id),
                match key {
                    Some(k) => Value::Int(*k),
                    None => Value::Null,
                },
            ]
        })
        .collect();
    Table::new(schema, rows).unwrap()
}

fn on_customer() -> Vec<JoinKey> {
    vec![JoinKey::new("id", "customer_id")]
}

fn picked(table: &Table) -> Vec<Vec<Value>> {
    select(
        table,
        &vec![
            SelectItem::column("id"),
            SelectItem::column("first_name"),
            SelectItem::column("order_id"),
            SelectItem::column("sales"),
        ],
    )
    .unwrap()
    .rows()
    .clone()
}

#[test]
fn inner_join_keeps_matched_pairs() {
    let joined = join(&customers(), &orders(), &on_customer(), JoinKind::Inner).unwrap();
    assert_eq!(joined.width(), 6);
    assert_eq!(joined.row_count(), 3);
    assert_eq!(
        joined.rows()[0],
        vec![
            Value::Int(1),
            Value::text("Maria"),
            Value::Int(1001),
            Value::Int(1),
            Value::Date(18638),
            Value::Int(35),
        ]
    );
    assert_eq!(joined.schema().column(0).name, "id");
    assert_eq!(joined.schema().column(2).name, "order_id");
    assert!(!joined.schema().column(2).nullable);
}

#[test]
fn left_join_fills_the_right_side_with_nulls() {
    let joined = join(&customers(), &orders(), &on_customer(), JoinKind::LeftOuter).unwrap();
    assert_eq!(
        picked(&joined),
        vec![
            vec![Value::Int(1), Value::text("Maria"), Value::Int(1001), Value::Int(35)],
            vec![Value::Int(2), Value::text("John"), Value::Int(1002), Value::Int(15)],
            vec![Value::Int(3), Value::text("Georg"), Value::Int(1003), Value::Int(20)],
            vec![Value::Int(4), Value::text("Martin"), Value::Null, Value::Null],
            vec![Value::Int(5), Value::text("Peter"), Value::Null, Value::Null],
        ]
    );
    assert!(joined.schema().column(2).nullable);
    assert!(!joined.schema().column(0).nullable);
}

#[test]
fn left_join_filtered_on_null_is_the_anti_join() {
    let joined = join(&customers(), &orders(), &on_customer(), JoinKind::LeftOuter).unwrap();
    let unmatched =
        filter(&joined, &Predicate::IsNull { column: "order_id".to_string() }).unwrap();
    let left_side =
        select(&unmatched, &vec![SelectItem::column("id"), SelectItem::column("first_name")])
            .unwrap();
    let expected = vec![
        vec![Value::Int(4), Value::text("Martin")],
        vec![Value::Int(5), Value::text("Peter")],
    ];
    assert_eq!(left_side.rows(), &expected);
    let anti = anti_join(&customers(), &orders(), &on_customer()).unwrap();
    assert_eq!(anti.rows(), &expected);
    assert_eq!(anti.width(), 2);
}

#[test]
fn full_join_keeps_the_unmatched_of_both_sides() {
    let joined = join(&customers(), &orders(), &on_customer(), JoinKind::FullOuter).unwrap();
    assert_eq!(joined.row_count(), 6);
    assert_eq!(
        picked(&joined),
        vec![
            vec![Value::Int(1), Value::text("Maria"), Value::Int(1001), Value::Int(35)],
            vec![Value::Int(2), Value::text("John"), Value::Int(1002), Value::Int(15)],
            vec![Value::Int(3), Value::text("Georg"), Value::Int(1003), Value::Int(20)],
            vec![Value::Int(4), Value::text("Martin"), Value::Null, Value::Null],
            vec![Value::Int(5), Value::text("Peter"), Value::Null, Value::Null],
            vec![Value::Null, Value::Null, Value::Int(1004), Value::Int(10)],
        ]
    );
    assert_eq!(joined.rows()[5][3], Value::Int(6));
    assert!(joined.schema().column(0).nullable);
    assert!(joined.schema().column(3).nullable);
    let either_side_missing = Predicate::Or(
        Box::new(Predicate::IsNull { column: "id".to_string() }),
        Box::new(Predicate::IsNull { column: "customer_id".to_string() }),
    );
    assert_eq!(filter(&joined, &either_side_missing).unwrap().row_count(), 3);
}

#[test]
fn null_keys_never_match() {
    let left = keyed(&[(1, Some(10)), (2, None)], "l", "lk");
    let right = keyed(&[(7, Some(10)), (8, None)], "r", "rk");
    let on = vec![JoinKey::new("lk", "rk")];
    let inner = join(&left, &right, &on, JoinKind::Inner).unwrap();
    assert_eq!(
        inner.rows(),
        &vec![vec![Value::Int(1), Value::Int(10), Value::Int(7), Value::Int(10)]]
    );
    let full = join(&left, &right, &on, JoinKind::FullOuter).unwrap();
    assert_eq!(
        full.rows(),
        &vec![
            vec![Value::Int(1), Value::Int(10), Value::Int(7), Value::Int(10)],
            vec![Value::Int(2), Value::Null, Value::Null, Value::Null],
            vec![Value::Null, Value::Null, Value::Int(8), Value::Null],
        ]
    );
    let anti = anti_join(&left, &right, &on).unwrap();
    assert_eq!(anti.rows(), &vec![vec![Value::Int(2), Value::Null]]);
}

#[test]
fn a_left_row_is_joined_with_each_of_its_matches() {
    let left = keyed(&[(1, Some(10)), (2, Some(20))], "l", "lk");
    let right = keyed(&[(7, Some(20)), (8, Some(10)), (9, Some(20))], "r", "rk");
    let on = vec![JoinKey::new("lk", "rk")];
    let inner = join(&left, &right, &on, JoinKind::Inner).unwrap();
    let pairs: Vec<(Value, Value)> =
        inner.rows().iter().map(|row| (row[0].clone(), row[2].clone())).collect();
    assert_eq!(
        pairs,
        vec![
            (Value::Int(1), Value::Int(8)),
            (Value::Int(2), Value::Int(7)),
            (Value::Int(2), Value::Int(9)),
        ]
    );
}

#[test]
fn join_on_several_keys() {
    let left = keyed(&[(1, Some(10)), (2, Some(20))], "a", "b");
    let right = keyed(&[(1, Some(20)), (2, Some(20))], "c", "d");
    let on = vec![JoinKey::new("a", "c"), JoinKey::new("b", "d")];
    let inner = join(&left, &right, &on, JoinKind::Inner).unwrap();
    assert_eq!(
        inner.rows(),
        &vec![vec![Value::Int(2), Value::Int(20), Value::Int(2), Value::Int(20)]]
    );
}

#[test]
fn join_without_keys_pairs_every_row() {
    let inner = join(&customers(), &orders(), &Vec::new(), JoinKind::Inner).unwrap();
    assert_eq!(inner.row_count(), 20);
}

#[test]
fn join_with_an_empty_side() {
    let none = keyed(&[], "r", "rk");
    let left = keyed(&[(1, Some(10))], "l", "lk");
    let on = vec![JoinKey::new("lk", "rk")];
    assert_eq!(join(&left, &none, &on, JoinKind::Inner).unwrap().row_count(), 0);
    assert_eq!(
        join(&left, &none, &on, JoinKind::LeftOuter).unwrap().rows(),
        &vec![vec![Value::Int(1), Value::Int(10), Value::Null, Value::Null]]
    );
    let none_left = keyed(&[], "l", "lk");
    let right = keyed(&[(7, Some(10))], "r", "rk");
    assert_eq!(join(&none_left, &right, &on, JoinKind::LeftOuter).unwrap().row_count(), 0);
    assert_eq!(
        join(&none_left, &right, &on, JoinKind::FullOuter).unwrap().rows(),
        &vec![vec![Value::Null, Value::Null, Value::Int(7), Value::Int(10)]]
    );
}

#[test]
fn join_reports_its_faults() {
    let c = customers();
    let o = orders();
    assert_eq!(
        join(&c, &o, &vec![JoinKey::new("nothing", "customer_id")], JoinKind::Inner).unwrap_err(),
        EngineError::UnknownColumn
    );
    assert_eq!(
        join(&c, &o, &vec![JoinKey::new("id", "nothing")], JoinKind::Inner).unwrap_err(),
        EngineError::UnknownColumn
    );
    assert_eq!(
        join(&c, &o, &vec![JoinKey::new("first_name", "customer_id")], JoinKind::Inner)
            .unwrap_err(),
        EngineError::TypeMismatch
    );
    assert_eq!(
        join(&c, &c, &vec![JoinKey::new("id", "id")], JoinKind::Inner).unwrap_err(),
        EngineError::SchemaMismatch
    );
    assert_eq!(
        anti_join(&c, &o, &vec![JoinKey::new("id", "nothing")]).unwrap_err(),
        EngineError::UnknownColumn
    );
    assert_eq!(
        anti_join(&c, &o, &vec![JoinKey::new("first_name", "sales")]).unwrap_err(),
        EngineError::TypeMismatch
    );
    assert_eq!(cross_join(&c, &c).unwrap_err(), EngineError::SchemaMismatch);
}

#[test]
fn anti_join_against_itself_by_name_is_allowed() {
    let c = customers();
    let anti = anti_join(&c, &c, &vec![JoinKey::new("id", "id")]).unwrap();
    assert_eq!(anti.row_count(), 0);
}

#[test]
fn cross_join_pairs_every_left_row_with_every_right_row() {
    let crossed = cross_join(&customers(), &orders()).unwrap();
    assert_eq!(crossed.row_count(), 20);
    assert_eq!(crossed.width(), 6);
    let c = customers();
    let o = orders();
    for i in 0..5 {
        for j in 0..4 {
            let mut expected = c.rows()[i].clone();
            expected.extend(o.rows()[j].iter().cloned());
            assert_eq!(crossed.rows()[i * 4 + j], expected);
        }
    }
}

#[test]
fn cross_join_with_an_empty_table_is_empty() {
    let none = keyed(&[], "r", "rk");
    let some = keyed(&[(1, Some(10)), (2, None)], "l", "lk");
    let crossed = cross_join(&some, &none).unwrap();
    assert_eq!(crossed.row_count(), 0);
    assert_eq!(crossed.width(), 4);
    assert_eq!(cross_join(&none, &some).unwrap().row_count(), 0);
    assert_eq!(cross_join(&none, &none).unwrap_err(), EngineError::SchemaMismatch);
    let other = keyed(&[], "x", "y");
    assert_eq!(cross_join(&none, &other).unwrap().row_count(), 0);
    assert_eq!(cross_join(&other, &some).unwrap().row_count(), 0);
}
