use ic_dbms::order::{order_query_results, sort_query_results, OrderDirection, Row};
use ic_dbms::query::{
    apply_patch, cascade_delete_filters, delete_outcome, find_primary_key, find_relation_keys,
    pk_update_patches, primary_key_values, project_columns, select_queried_fields,
    select_records, select_window, ValuesGroup,
};
use ic_dbms::record::{Filter, QueryError};
use ic_dbms::schema::{
    ColumnDef, DataTypeKind, ForeignKeyDef, Text, Uint32, Value, ValuesSource,
};
use ic_dbms::transaction::{DeleteBehavior, IcDbmsError};

const USERS_FIXTURES: &[&str] = &[
    "Alice", "Bob", "Charlie", "Diana", "Eve", "Frank", "Grace", "Heidi", "Ivan", "Judy",
];

fn col(name: &'static str, data_type: DataTypeKind, primary_key: bool) -> ColumnDef {
    ColumnDef {
        name,
        data_type,
        nullable: false,
        primary_key,
        foreign_key: None,
    }
}

fn fk_col(name: &'static str, table: &'static str) -> ColumnDef {
    ColumnDef {
        name,
        data_type: DataTypeKind::Uint32,
        nullable: false,
        primary_key: false,
        foreign_key: Some(ForeignKeyDef {
            local_column: name,
            foreign_table: table,
            foreign_column: "id",
        }),
    }
}

fn text(s: &str) -> Value {
    Value::Text(Text(s.to_string()))
}

fn uint(v: u32) -> Value {
    Value::Uint32(Uint32(v))
}

/// The values of the fixture user `id`: id, name, email and age.
fn user_values(id: u32) -> Vec<(ColumnDef, Value)> {
    let name = USERS_FIXTURES[id as usize];
    vec![
        (col("id", DataTypeKind::Uint32, true), uint(id)),
        (col("name", DataTypeKind::Text, false), text(name)),
        (
            col("email", DataTypeKind::Text, false),
            text(&format!("{}@example.com", name.to_lowercase())),
        ),
        (col("age", DataTypeKind::Uint32, false), uint(20 + id)),
    ]
}

/// Loads the fixture user that a foreign key points to.
fn fetch_user(
    table: &'static str,
    local_column: &'static str,
    value: Value,
) -> Result<Vec<ValuesGroup>, IcDbmsError> {
    match value {
        Value::Uint32(Uint32(id)) if (id as usize) < USERS_FIXTURES.len() => Ok(vec![(
            ValuesSource::Foreign {
                table: table.to_string(),
                column: local_column.to_string(),
            },
            user_values(id),
        )]),
        _ => Err(IcDbmsError::Query(QueryError::InvalidQuery(
            "no such user".to_string(),
        ))),
    }
}

fn this_values(groups: &[ValuesGroup]) -> Vec<(ColumnDef, Value)> {
    groups
        .iter()
        .find(|(source, _)| *source == ValuesSource::This)
        .map(|(_, cols)| cols.clone())
        .unwrap_or_default()
}

fn user_row(id: u32, name: &str, age: u32) -> Row {
    vec![(
        ValuesSource::This,
        vec![
            (col("id", DataTypeKind::Uint32, true), uint(id)),
            (col("name", DataTypeKind::Text, false), text(name)),
            (col("age", DataTypeKind::Uint32, false), uint(age)),
        ],
    )]
}

fn row_name_age(row: &Row) -> (String, u32) {
    let cols = &row[0].1;
    let name = match &cols[1].1 {
        Value::Text(t) => t.0.clone(),
        _ => unreachable!(),
    };
    let age = match &cols[2].1 {
        Value::Uint32(a) => a.0,
        _ => unreachable!(),
    };
    (name, age)
}

#[test]
fn dbms_test_should_select_queried_fields() {
    let record_values = vec![
        (col("id", DataTypeKind::Uint32, true), uint(1)),
        (col("name", DataTypeKind::Text, false), text("Alice")),
    ];
    let columns = vec!["name".to_string()];
    let selected_fields = select_queried_fields(
        record_values,
        Some(&columns),
        &[],
        "users",
        &fetch_user,
    )
    .expect("failed to select queried fields");
    let user_fields = this_values(&selected_fields);

    assert_eq!(user_fields.len(), 1);
    assert_eq!(user_fields[0].0.name, "name");
    assert_eq!(user_fields[0].1, text("Alice"));
}

#[test]
fn test_should_select_queried_fields_with_relations() {
    let record_values = vec![
        (col("id", DataTypeKind::Uint32, true), uint(1)),
        (col("title", DataTypeKind::Text, false), text("Title")),
        (col("content", DataTypeKind::Text, false), text("Content")),
        (fk_col("user", "users"), uint(2)),
    ];
    let columns = vec!["title".to_string()];
    let selected_fields = select_queried_fields(
        record_values,
        Some(&columns),
        &["users"],
        "posts",
        &fetch_user,
    )
    .expect("failed to select queried fields");

    let post_fields = this_values(&selected_fields);
    assert_eq!(post_fields.len(), 1);
    assert_eq!(post_fields[0].0.name, "title");
    assert_eq!(post_fields[0].1, text("Title"));

    let user_fields = selected_fields
        .iter()
        .find(|(source, _)| {
            *source
                == ValuesSource::Foreign {
                    table: "users".to_string(),
                    column: "user".to_string(),
                }
        })
        .map(|(_, cols)| cols.clone())
        .unwrap_or_default();
    let expected_user = USERS_FIXTURES[2];
    assert_eq!(user_fields.len(), 4);
    assert_eq!(user_fields[0].0.name, "id");
    assert_eq!(user_fields[0].1, uint(2));
    assert_eq!(user_fields[1].0.name, "name");
    assert_eq!(user_fields[1].1, text(expected_user));
    assert_eq!(user_fields[2].0.name, "email");
    assert_eq!(
        user_fields[2].1,
        text(&format!("{}@example.com", expected_user.to_lowercase()))
    );
    assert_eq!(user_fields[3].0.name, "age");
    assert_eq!(user_fields[3].1, uint(22));
}

#[test]
fn test_should_select_with_two_fk_on_the_same_table() {
    // messages: (text, sender, recipient); the query keeps the one with id 0
    let messages = [("Hello, World!", 0u32, 1u32), ("How are you?", 1, 0), ("Goodbye!", 1, 3)];
    let matched: Vec<bool> = (0..messages.len()).map(|id| id == 0).collect();
    let selected = select_window(&matched, None, None);
    assert_eq!(selected, vec![0]);

    let (msg_text, sender, recipient) = messages[selected[0]];
    let record_values = vec![
        (col("id", DataTypeKind::Uint32, true), uint(0)),
        (col("text", DataTypeKind::Text, false), text(msg_text)),
        (fk_col("sender", "users"), uint(sender)),
        (fk_col("recipient", "users"), uint(recipient)),
    ];
    let groups = select_queried_fields(record_values, None, &["users"], "messages", &fetch_user)
        .expect("failed to select messages");
    assert_eq!(groups.len(), 3);
    assert_eq!(
        groups[0].0,
        ValuesSource::Foreign {
            table: "users".to_string(),
            column: "sender".to_string()
        }
    );
    assert_eq!(groups[0].1[1].1, text("Alice"));
    assert_eq!(
        groups[1].0,
        ValuesSource::Foreign {
            table: "users".to_string(),
            column: "recipient".to_string()
        }
    );
    assert_eq!(groups[1].1[1].1, text("Bob"));
    assert_eq!(groups[2].0, ValuesSource::This);
    assert_eq!(groups[2].1[0].1, uint(0));
}

#[test]
fn test_should_fail_loading_relation_without_foreign_key() {
    let record_values = vec![
        (col("id", DataTypeKind::Uint32, true), uint(1)),
        (col("name", DataTypeKind::Text, false), text("Alice")),
    ];
    let result = select_queried_fields(record_values, None, &["posts"], "users", &fetch_user);
    assert_eq!(
        result,
        Err(IcDbmsError::Query(QueryError::InvalidQuery(
            "Cannot load relation 'posts' for table 'users': no foreign key found".to_string()
        )))
    );
}

#[test]
fn test_should_return_fetch_error() {
    let record_values = vec![
        (col("id", DataTypeKind::Uint32, true), uint(1)),
        (fk_col("user", "users"), uint(99)),
    ];
    let result = select_queried_fields(record_values, None, &["users"], "posts", &fetch_user);
    assert_eq!(
        result,
        Err(IcDbmsError::Query(QueryError::InvalidQuery(
            "no such user".to_string()
        )))
    );
}

#[test]
fn test_should_keep_all_columns_when_all_selected() {
    let values = user_values(3);
    assert_eq!(project_columns(values.clone(), None), values);
    let columns = vec!["age".to_string(), "id".to_string()];
    let projected = project_columns(values, Some(&columns));
    assert_eq!(projected.len(), 2);
    assert_eq!(projected[0].0.name, "id");
    assert_eq!(projected[1].0.name, "age");
}

#[test]
fn test_should_find_relation_keys() {
    let values = vec![
        (col("id", DataTypeKind::Uint32, true), uint(0)),
        (fk_col("sender", "users"), uint(4)),
        (fk_col("thread", "threads"), uint(7)),
        (fk_col("recipient", "users"), uint(5)),
    ];
    let keys = find_relation_keys(&values, "users");
    assert_eq!(keys.len(), 2);
    assert_eq!(keys[0].0.local_column, "sender");
    assert_eq!(keys[0].1, uint(4));
    assert_eq!(keys[1].0.local_column, "recipient");
    assert_eq!(keys[1].1, uint(5));
    assert!(find_relation_keys(&values, "posts").is_empty());
}

fn fixture_users() -> Vec<Vec<(ColumnDef, Value)>> {
    (0..USERS_FIXTURES.len() as u32).map(user_values).collect()
}

/// The id and the name of each selected user.
fn ids_and_names(rows: &[Row]) -> Vec<(Value, Value)> {
    rows.iter()
        .map(|row| {
            let values = this_values(row);
            (values[0].1.clone(), values[1].1.clone())
        })
        .collect()
}

#[test]
fn dbms_test_should_select_users_with_offset_and_limit() {
    let users = fixture_users();
    let matched = vec![true; users.len()];
    let selected = select_records(
        &users, &matched, Some(2), Some(3), None, &[], &[], "users", &fetch_user,
    )
    .expect("failed to select users");
    assert_eq!(selected.len(), 3);
    for (i, (id, name)) in ids_and_names(&selected).into_iter().enumerate() {
        let expected_index = i + 2;
        assert_eq!(id, uint(expected_index as u32));
        assert_eq!(name, text(USERS_FIXTURES[expected_index]));
    }
}

#[test]
fn dbms_test_should_select_users_with_offset_and_filter() {
    let users = fixture_users();
    // filter: id > 4
    let matched: Vec<bool> = (0..users.len()).map(|id| id > 4).collect();
    let selected = select_records(
        &users, &matched, Some(1), None, None, &[], &[], "users", &fetch_user,
    )
    .expect("failed to select users");
    assert_eq!(selected.len(), 4);
    for (i, (id, name)) in ids_and_names(&selected).into_iter().enumerate() {
        let expected_index = i + 6;
        assert_eq!(id, uint(expected_index as u32));
        assert_eq!(name, text(USERS_FIXTURES[expected_index]));
    }
}

#[test]
fn test_select_orders_before_paging() {
    let users = vec![user_values(2), user_values(1)];
    let order_by = vec![("id".to_string(), OrderDirection::Ascending)];
    let selected = select_records(
        &users, &[true, true], None, Some(1), None, &[], &order_by, "users", &fetch_user,
    )
    .expect("failed to select users");
    assert_eq!(ids_and_names(&selected), vec![(uint(1), text("Bob"))]);

    // pages of two users, ordered by name descending
    let all = fixture_users();
    let order_by = vec![("name".to_string(), OrderDirection::Descending)];
    let page = |k: usize| {
        select_records(
            &all,
            &vec![true; all.len()],
            Some(2 * k),
            Some(2),
            None,
            &[],
            &order_by,
            "users",
            &fetch_user,
        )
        .expect("failed to select users")
    };
    let names: Vec<Value> = (0..5)
        .flat_map(|k| ids_and_names(&page(k)).into_iter().map(|(_, name)| name))
        .collect();
    let mut expected: Vec<&str> = USERS_FIXTURES.to_vec();
    expected.sort_by(|a, b| b.cmp(a));
    assert_eq!(names, expected.into_iter().map(text).collect::<Vec<_>>());
}

#[test]
fn test_select_window_edges() {
    let matched = [true, false, true, true, false, true];
    assert_eq!(select_window(&matched, None, None), vec![0, 2, 3, 5]);
    // a limit of zero takes no record
    assert_eq!(select_window(&matched, None, Some(0)), Vec::<usize>::new());
    assert_eq!(select_window(&matched, Some(1), Some(2)), vec![2, 3]);
    assert_eq!(select_window(&matched, Some(4), None), Vec::<usize>::new());
    assert_eq!(select_window(&matched, Some(10), Some(2)), Vec::<usize>::new());
    assert_eq!(select_window(&matched, Some(3), Some(10)), vec![5]);
    assert_eq!(select_window(&[], None, Some(1)), Vec::<usize>::new());
}

#[test]
fn test_consecutive_pages() {
    let matched: Vec<bool> = (0..25).map(|i| i % 3 != 0).collect();
    let all = select_window(&matched, None, None);
    let page_size = 4;
    let mut pages = Vec::new();
    for page in 0..5 {
        pages.extend(select_window(&matched, Some(page * page_size), Some(page_size)));
    }
    assert_eq!(pages, all);
    let first = select_window(&matched, Some(3), Some(2));
    let second = select_window(&matched, Some(5), Some(4));
    let both = select_window(&matched, Some(3), Some(6));
    assert_eq!([first, second].concat(), both);
}

#[test]
fn test_should_select_users_sorted_by_name_descending() {
    let mut rows: Vec<Row> = USERS_FIXTURES
        .iter()
        .enumerate()
        .map(|(id, name)| user_row(id as u32, name, 20 + id as u32))
        .collect();
    sort_query_results(&mut rows, "name", OrderDirection::Descending);

    let mut sorted_usernames = USERS_FIXTURES.to_vec();
    sorted_usernames.sort_by(|a, b| b.cmp(a));
    assert_eq!(rows.len(), USERS_FIXTURES.len());
    for (i, row) in rows.iter().enumerate() {
        assert_eq!(row_name_age(row).0, sorted_usernames[i]);
    }
}

#[test]
fn test_should_select_users_sorted_by_multiple_columns() {
    let mut rows: Vec<Row> = [("Alice", 50u32), ("Alice", 30), ("Bob", 25), ("Bob", 40)]
        .iter()
        .enumerate()
        .map(|(id, (name, age))| user_row(500 + id as u32, name, *age))
        .collect();
    let order_by = vec![
        ("name".to_string(), OrderDirection::Ascending),
        ("age".to_string(), OrderDirection::Descending),
    ];
    order_query_results(&mut rows, &order_by);

    assert_eq!(rows.len(), 4);
    let expected = [("Alice", 50u32), ("Alice", 30), ("Bob", 40), ("Bob", 25)];
    for (i, row) in rows.iter().enumerate() {
        let (name, age) = row_name_age(row);
        assert_eq!(name, expected[i].0, "name mismatch at index {i}");
        assert_eq!(age, expected[i].1, "age mismatch at index {i}");
    }
}

#[test]
fn test_order_keeps_order_of_equal_rows() {
    let mut rows: Vec<Row> = vec![
        user_row(0, "Bob", 30),
        user_row(1, "Alice", 30),
        user_row(2, "Bob", 30),
        user_row(3, "Alice", 20),
    ];
    let order_by = vec![("age".to_string(), OrderDirection::Ascending)];
    order_query_results(&mut rows, &order_by);
    let ids: Vec<Value> = rows.iter().map(|r| r[0].1[0].1.clone()).collect();
    assert_eq!(ids, vec![uint(3), uint(0), uint(1), uint(2)]);

    let mut unchanged = vec![user_row(0, "Bob", 30), user_row(1, "Alice", 30)];
    order_query_results(&mut unchanged, &[]);
    assert_eq!(unchanged, vec![user_row(0, "Bob", 30), user_row(1, "Alice", 30)]);
}

#[test]
fn test_should_find_primary_key() {
    let values = user_values(4);
    assert_eq!(
        find_primary_key(&values),
        Some((col("id", DataTypeKind::Uint32, true), uint(4)))
    );
    let no_pk = vec![(col("name", DataTypeKind::Text, false), text("Eve"))];
    assert_eq!(find_primary_key(&no_pk), None);
}

#[test]
fn test_should_collect_primary_key_values() {
    let records: Vec<Vec<(ColumnDef, Value)>> = (3..6).map(user_values).collect();
    assert_eq!(
        primary_key_values(&records, "id"),
        vec![uint(3), uint(4), uint(5)]
    );
    assert_eq!(
        primary_key_values(&records, "name"),
        vec![text("Diana"), text("Eve"), text("Frank")]
    );
}

#[test]
fn test_should_apply_patch() {
    let mut values = user_values(1);
    let patch = vec![
        (col("name", DataTypeKind::Text, false), text("Robert")),
        (col("nickname", DataTypeKind::Text, false), text("Bobby")),
        (col("age", DataTypeKind::Uint32, false), uint(40)),
        (col("age", DataTypeKind::Uint32, false), uint(41)),
    ];
    apply_patch(&mut values, &patch);
    assert_eq!(values.len(), 4);
    assert_eq!(values[0].1, uint(1));
    assert_eq!(values[1].1, text("Robert"));
    assert_eq!(values[2].1, text("bob@example.com"));
    assert_eq!(values[3].1, uint(41));
    assert_eq!(values[3].0.name, "age");
}

#[test]
fn test_patch_replaces_first_column_of_a_name() {
    let mut values = vec![
        (col("tag", DataTypeKind::Text, false), text("a")),
        (col("tag", DataTypeKind::Text, false), text("b")),
    ];
    apply_patch(&mut values, &[(col("tag", DataTypeKind::Text, false), text("c"))]);
    assert_eq!(values[0].1, text("c"));
    assert_eq!(values[1].1, text("b"));
}

#[test]
fn test_should_build_pk_update_patches() {
    let referencing = vec![
        ("posts", vec!["user"]),
        ("messages", vec!["sender", "recipient"]),
    ];
    let patches = pk_update_patches(
        "users",
        "id",
        DataTypeKind::Uint32,
        &uint(1),
        &uint(100),
        &referencing,
    );
    assert_eq!(patches.len(), 3);
    let tables: Vec<&str> = patches.iter().map(|p| p.0).collect();
    assert_eq!(tables, vec!["posts", "messages", "messages"]);
    let (_, (def, value), filter) = &patches[1];
    assert_eq!(
        *def,
        ColumnDef {
            name: "sender",
            data_type: DataTypeKind::Uint32,
            nullable: false,
            primary_key: false,
            foreign_key: Some(ForeignKeyDef {
                foreign_table: "users",
                foreign_column: "id",
                local_column: "sender",
            }),
        }
    );
    assert_eq!(*value, uint(100));
    assert_eq!(*filter, Filter::Eq("sender", uint(1)));
    assert_eq!(patches[2].2, Filter::Eq("recipient", uint(1)));
    assert!(pk_update_patches("users", "id", DataTypeKind::Uint32, &uint(1), &uint(2), &[])
        .is_empty());
}

#[test]
fn test_should_build_cascade_delete_filters() {
    let referencing = vec![
        ("posts", vec!["user"]),
        ("messages", vec!["sender", "recipient"]),
    ];
    let filters = cascade_delete_filters(&user_values(2), &referencing).expect("filters");
    assert_eq!(
        filters,
        vec![
            ("posts", Filter::Eq("user", uint(2))),
            ("messages", Filter::Eq("sender", uint(2))),
            ("messages", Filter::Eq("recipient", uint(2))),
        ]
    );
    let no_pk = vec![(col("name", DataTypeKind::Text, false), text("Charlie"))];
    assert_eq!(
        cascade_delete_filters(&no_pk, &referencing),
        Err(QueryError::UnknownColumn("user".to_string()))
    );
    assert_eq!(cascade_delete_filters(&no_pk, &[]), Ok(vec![]));
}

#[test]
fn test_delete_outcome() {
    assert_eq!(
        delete_outcome(DeleteBehavior::Cascade, "users", "id", &[2, 0, 3]),
        Ok(8)
    );
    assert_eq!(
        delete_outcome(DeleteBehavior::Restrict, "users", "id", &[0, 1, 0]),
        Err(QueryError::ForeignKeyConstraintViolation {
            referencing_table: "users".to_string(),
            field: "id".to_string(),
        })
    );
    assert_eq!(
        delete_outcome(DeleteBehavior::Restrict, "users", "id", &[0, 0]),
        Ok(2)
    );
    assert_eq!(
        delete_outcome(DeleteBehavior::Break, "users", "id", &[5, 5]),
        Ok(2)
    );
    assert_eq!(delete_outcome(DeleteBehavior::Cascade, "users", "id", &[]), Ok(0));
}

fn post_values(id: u32, title: &str, user: u32) -> Vec<(ColumnDef, Value)> {
    vec![
        (col("id", DataTypeKind::Uint32, true), uint(id)),
        (col("title", DataTypeKind::Text, false), text(title)),
        (fk_col("user", "users"), uint(user)),
    ]
}

#[test]
fn test_should_select_records_with_relations_window_and_order() {
    let posts = vec![
        post_values(0, "First", 0),
        post_values(1, "Second", 1),
        post_values(2, "Third", 2),
        post_values(3, "Fourth", 3),
        post_values(4, "Fifth", 4),
    ];
    // filter: id >= 1; order by title descending; skip one, take three
    let matched: Vec<bool> = (0..posts.len()).map(|id| id >= 1).collect();
    let columns = vec!["title".to_string()];
    let order_by = vec![("title".to_string(), OrderDirection::Descending)];
    let rows = select_records(
        &posts,
        &matched,
        Some(1),
        Some(3),
        Some(&columns),
        &["users"],
        &order_by,
        "posts",
        &fetch_user,
    )
    .expect("failed to select posts");
    assert_eq!(rows.len(), 3);
    let titles: Vec<Value> = rows.iter().map(|r| r[1].1[0].1.clone()).collect();
    assert_eq!(titles, vec![text("Second"), text("Fourth"), text("Fifth")]);
    let authors: Vec<Value> = rows.iter().map(|r| r[0].1[1].1.clone()).collect();
    assert_eq!(authors, vec![text("Bob"), text("Diana"), text("Eve")]);

    // a post whose author does not exist fails the select
    let broken = vec![post_values(0, "First", 0), post_values(1, "Lost", 77)];
    let result = select_records(
        &broken,
        &[true, true],
        None,
        None,
        None,
        &["users"],
        &[],
        "posts",
        &fetch_user,
    );
    assert_eq!(
        result,
        Err(IcDbmsError::Query(QueryError::InvalidQuery(
            "no such user".to_string()
        )))
    );
}
