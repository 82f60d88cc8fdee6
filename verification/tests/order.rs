use ic_dbms::order::{sort_query_results, OrderDirection, Row};
use ic_dbms::schema::{ColumnDef, DataTypeKind, Text, Uint32, Value, ValuesSource};

fn column(name: &'static str) -> ColumnDef {
    ColumnDef {
        name,
        data_type: DataTypeKind::Text,
        nullable: true,
        primary_key: false,
        foreign_key: None,
    }
}

fn row(id: u32, name: Option<&str>) -> Row {
    let mut cols = vec![(column("id"), Value::Uint32(Uint32(id)))];
    if let Some(name) = name {
        cols.push((column("name"), Value::Text(Text(name.to_string()))));
    }
    vec![
        (
            ValuesSource::Foreign {
                table: "users".to_string(),
                column: "user".to_string(),
            },
            vec![(column("name"), Value::Text(Text("zzz".to_string())))],
        ),
        (ValuesSource::This, cols),
    ]
}

fn ids(rows: &[Row]) -> Vec<u32> {
    rows.iter()
        .map(|r| match &r[1].1[0].1 {
            Value::Uint32(id) => id.0,
            _ => unreachable!(),
        })
        .collect()
}

#[test]
fn test_sort_by_name_descending() {
    let mut rows = vec![
        row(0, Some("Alice")),
        row(1, Some("Charlie")),
        row(2, None),
        row(3, Some("Bob")),
    ];
    sort_query_results(&mut rows, "name", OrderDirection::Descending);
    assert_eq!(ids(&rows), vec![2, 1, 3, 0]);
}

#[test]
fn test_sort_is_stable() {
    let mut rows = vec![
        row(0, Some("Bob")),
        row(1, Some("Alice")),
        row(2, Some("Bob")),
        row(3, Some("Alice")),
        row(4, None),
    ];
    sort_query_results(&mut rows, "name", OrderDirection::Ascending);
    assert_eq!(ids(&rows), vec![4, 1, 3, 0, 2]);
    // sorting by a second key first, then by the first one, orders by both
    let mut rows = vec![
        row(3, Some("Bob")),
        row(1, Some("Alice")),
        row(2, Some("Bob")),
        row(0, Some("Alice")),
    ];
    sort_query_results(&mut rows, "id", OrderDirection::Ascending);
    sort_query_results(&mut rows, "name", OrderDirection::Descending);
    assert_eq!(ids(&rows), vec![2, 3, 0, 1]);
}

#[test]
fn test_sort_orders_kinds_then_contents() {
    let mk = |id: u32, v: Value| -> Row { vec![(ValuesSource::This, vec![(column("id"), Value::Uint32(Uint32(id))), (column("v"), v)])] };
    let mut rows = vec![
        mk(0, Value::Uint32(Uint32(1))),
        mk(1, Value::Text(Text("b".to_string()))),
        mk(2, Value::Boolean(true)),
        mk(3, Value::Null),
        mk(4, Value::Text(Text("a".to_string()))),
        mk(5, Value::Boolean(false)),
    ];
    sort_query_results(&mut rows, "v", OrderDirection::Ascending);
    let order: Vec<u32> = rows
        .iter()
        .map(|r| match &r[0].1[0].1 {
            Value::Uint32(id) => id.0,
            _ => unreachable!(),
        })
        .collect();
    assert_eq!(order, vec![5, 2, 3, 4, 1, 0]);
}
