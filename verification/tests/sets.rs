use tabular::compare::{compare_ordered, compare_unordered};
use tabular::distinct::unique;
use tabular::error::EngineError;
use tabular::schema::{Column, Schema};
use tabular::setops::{except, union};
use tabular::table::Table;
use tabular::value::{Kind, Value};

fn opt_text(text: Option<&str>) -> Value {
    match text {
        Some(t) => Value::text(t),
        None => Value::Null,
    }
}

fn names(first: &str, last: &str, nullable: bool, rows: &[(Option<&str>, Option<&str>)]) -> Table {
    let schema = Schema::new(vec![
        Column::new(first, Kind::Text, nullable),
        Column::new(last, Kind::Text, nullable),
    ])
    .unwrap();
    let rows = rows.iter().map(|(a, b)| vec![opt_text(*a), opt_text(*b)]).collect();
    Table::new(schema, rows).unwrap()
}

fn employees() -> Table {
    names(
        "firstname",
        "lastname",
        true,
        &[
            (Some("Frank"), Some("Lee")),
            (Some("Kevin"), Some("Brown")),
            (Some("Mary"), None),
            (Some("Michael"), Some("Ray")),
            (Some("Carol"), Some("Baker")),
        ],
    )
}

fn customers() -> Table {
    names(
        "first",
        "last",
        true,
        &[
            (Some("Jossef"), Some("Goldberg")),
            (Some("Kevin"), Some("Brown")),
            (Some("Mary"), None),
            (Some("Mark"), Some("Schwarz")),
            (Some("Anna"), Some("Adams")),
        ],
    )
}

fn pair(a: &str, b: &str) -> Vec<Value> {
    vec![Value::text(a), Value::text(b)]
}

#[test]
fn union_holds_each_distinct_row_once() {
    let united = union(&employees(), &customers()).unwrap();
    assert_eq!(
        united.rows(),
        &vec![
            pair("Frank", "Lee"),
            pair("Kevin", "Brown"),
            vec![Value::text("Mary"), Value::Null],
            pair("Michael", "Ray"),
            pair("Carol", "Baker"),
            pair("Jossef", "Goldberg"),
            pair("Mark", "Schwarz"),
            pair("Anna", "Adams"),
        ]
    );
}

#[test]
fn union_adopts_the_names_of_the_left() {
    let united = union(&employees(), &customers()).unwrap();
    assert_eq!(united.schema().column(0).name, "firstname");
    assert_eq!(united.schema().column(1).name, "lastname");
    let strict = names("a", "b", false, &[(Some("x"), Some("y"))]);
    let loose = names("c", "d", true, &[(None, None)]);
    let united = union(&strict, &loose).unwrap();
    assert_eq!(united.schema().column(0).name, "a");
    assert!(united.schema().column(0).nullable);
    assert_eq!(united.row_count(), 2);
    let united = union(&strict, &strict).unwrap();
    assert!(!united.schema().column(0).nullable);
}

#[test]
fn union_removes_duplicates_within_one_side() {
    let doubled = names("a", "b", true, &[(Some("x"), None), (Some("x"), None), (None, None)]);
    let empty = names("a", "b", true, &[]);
    let united = union(&doubled, &empty).unwrap();
    assert_eq!(
        united.rows(),
        &vec![vec![Value::text("x"), Value::Null], vec![Value::Null, Value::Null]]
    );
    let united = union(&empty, &doubled).unwrap();
    assert_eq!(united.row_count(), 2);
    assert_eq!(union(&empty, &empty).unwrap().row_count(), 0);
}

#[test]
fn union_with_itself_is_unique() {
    let doubled = names(
        "a",
        "b",
        true,
        &[(Some("x"), None), (Some("y"), Some("z")), (Some("x"), None), (None, None)],
    );
    let united = union(&doubled, &doubled).unwrap();
    let distinct = unique(&doubled, None).unwrap();
    assert_eq!(compare_unordered(&united, &distinct), Ok(true));
    assert_eq!(compare_ordered(&united, &distinct), Ok(true));
    assert_eq!(united.row_count(), 3);
}

#[test]
fn except_keeps_the_left_rows_that_the_right_lacks() {
    let rest = except(&employees(), &customers()).unwrap();
    assert_eq!(
        rest.rows(),
        &vec![pair("Frank", "Lee"), pair("Michael", "Ray"), pair("Carol", "Baker")]
    );
    assert_eq!(rest.schema().column(0).name, "firstname");
}

#[test]
fn except_matches_null_with_null() {
    let left = names("a", "b", true, &[(Some("Mary"), None), (None, None), (None, Some("x"))]);
    let right = names("c", "d", true, &[(Some("Mary"), None), (None, Some("y"))]);
    let rest = except(&left, &right).unwrap();
    assert_eq!(
        rest.rows(),
        &vec![vec![Value::Null, Value::Null], vec![Value::Null, Value::text("x")]]
    );
}

#[test]
fn except_keeps_duplicates_of_the_left() {
    let left = names("a", "b", true, &[(Some("x"), None), (Some("y"), None), (Some("x"), None)]);
    let right = names("a", "b", true, &[(Some("y"), None)]);
    let rest = except(&left, &right).unwrap();
    assert_eq!(rest.row_count(), 2);
    let none = names("a", "b", true, &[]);
    assert_eq!(except(&left, &none).unwrap().rows(), left.rows());
    assert_eq!(except(&none, &left).unwrap().row_count(), 0);
}

#[test]
fn except_of_a_table_and_itself_is_empty() {
    assert_eq!(except(&employees(), &employees()).unwrap().row_count(), 0);
    let with_nulls =
        names("a", "b", true, &[(None, None), (Some("x"), None), (None, None), (None, Some("y"))]);
    assert_eq!(except(&with_nulls, &with_nulls).unwrap().row_count(), 0);
    let without = names("a", "b", false, &[(Some("x"), Some("y")), (Some("x"), Some("y"))]);
    assert_eq!(except(&without, &without).unwrap().row_count(), 0);
}

#[test]
fn set_operations_need_compatible_schemas() {
    let two = employees();
    let one = Table::new(
        Schema::new(vec![Column::new("firstname", Kind::Text, true)]).unwrap(),
        vec![vec![Value::text("Frank")]],
    )
    .unwrap();
    let other = Table::new(
        Schema::new(vec![
            Column::new("firstname", Kind::Text, true),
            Column::new("lastname", Kind::Int, true),
        ])
        .unwrap(),
        Vec::new(),
    )
    .unwrap();
    assert_eq!(union(&two, &one).unwrap_err(), EngineError::SchemaMismatch);
    assert_eq!(union(&one, &two).unwrap_err(), EngineError::SchemaMismatch);
    assert_eq!(union(&two, &other).unwrap_err(), EngineError::SchemaMismatch);
    assert_eq!(except(&two, &one).unwrap_err(), EngineError::SchemaMismatch);
    assert_eq!(except(&two, &other).unwrap_err(), EngineError::SchemaMismatch);
}
