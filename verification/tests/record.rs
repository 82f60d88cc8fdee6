use ic_dbms::fixtures::{UserInsertRequest, UserUpdateRequest};
use ic_dbms::record::{Filter, InsertRecord, UpdateRecord};
use ic_dbms::schema::{Text, Uint32, Value};

#[test]
fn test_should_insert_make_into_untyped() {
    let typed = UserInsertRequest {
        id: Uint32(1),
        name: Text("Alice".to_string()),
    };

    let untyped = typed.into_untyped();
    assert_eq!(
        untyped.fields,
        vec![
            ("id".to_string(), Value::Uint32(Uint32(1))),
            ("name".to_string(), Value::Text(Text("Alice".to_string())))
        ]
    );

    let from_untyped = UserInsertRequest::from_untyped(untyped).unwrap();
    assert_eq!(from_untyped.id.0, 1);
    assert_eq!(from_untyped.name.0, "Alice".to_string());
}

#[test]
fn test_should_insert_make_from_untyped() {
    let typed = UserUpdateRequest {
        id: Some(Uint32(2)),
        name: Some(Text("Bob".to_string())),
        where_clause: Some(Filter::Eq("id", Value::Uint32(Uint32(1)))),
    };
    let untyped = typed.into_untyped();

    assert_eq!(
        untyped.update_fields,
        vec![
            ("id".to_string(), Value::Uint32(Uint32(2))),
            ("name".to_string(), Value::Text(Text("Bob".to_string())))
        ]
    );
    assert_eq!(
        untyped.where_clause,
        Some(Filter::Eq("id", Value::Uint32(Uint32(1))))
    );

    let from_untyped = UserUpdateRequest::from_untyped(untyped).unwrap();
    assert_eq!(from_untyped.id, Some(Uint32(2)));
    assert_eq!(from_untyped.name, Some(Text("Bob".to_string())));
    assert_eq!(
        from_untyped.where_clause,
        Some(Filter::Eq("id", Value::Uint32(Uint32(1))))
    );
}
