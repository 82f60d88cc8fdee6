use ic_dbms::schema::{
    get_referenced_tables, self_reference_values, ColumnDef, DataTypeKind, ForeignKeyDef, Text,
    Uint32, Uint64, Value, ValuesSource, Int32,
};
use ic_dbms::transaction::TransactionError;
use ic_dbms::validation::{RgbColorValidator, Validate};

const USER_COLUMNS: &[ColumnDef] = &[
    ColumnDef {
        name: "id",
        data_type: DataTypeKind::Uint32,
        nullable: false,
        primary_key: true,
        foreign_key: None,
    },
    ColumnDef {
        name: "name",
        data_type: DataTypeKind::Text,
        nullable: false,
        primary_key: false,
        foreign_key: None,
    },
];

const POST_COLUMNS: &[ColumnDef] = &[
    ColumnDef {
        name: "id",
        data_type: DataTypeKind::Uint32,
        nullable: false,
        primary_key: true,
        foreign_key: None,
    },
    ColumnDef {
        name: "title",
        data_type: DataTypeKind::Text,
        nullable: false,
        primary_key: false,
        foreign_key: None,
    },
    ColumnDef {
        name: "user",
        data_type: DataTypeKind::Uint32,
        nullable: false,
        primary_key: false,
        foreign_key: Some(ForeignKeyDef {
            local_column: "user",
            foreign_table: "users",
            foreign_column: "id",
        }),
    },
];

const MESSAGE_COLUMNS: &[ColumnDef] = &[
    ColumnDef {
        name: "id",
        data_type: DataTypeKind::Uint32,
        nullable: false,
        primary_key: true,
        foreign_key: None,
    },
    ColumnDef {
        name: "text",
        data_type: DataTypeKind::Text,
        nullable: false,
        primary_key: false,
        foreign_key: None,
    },
    ColumnDef {
        name: "sender",
        data_type: DataTypeKind::Uint32,
        nullable: false,
        primary_key: false,
        foreign_key: Some(ForeignKeyDef {
            local_column: "sender",
            foreign_table: "users",
            foreign_column: "id",
        }),
    },
    ColumnDef {
        name: "recipient",
        data_type: DataTypeKind::Uint32,
        nullable: false,
        primary_key: false,
        foreign_key: Some(ForeignKeyDef {
            local_column: "recipient",
            foreign_table: "users",
            foreign_column: "id",
        }),
    },
];

#[test]
fn test_should_get_referenced_tables() {
    let tables = &[
        ("users", USER_COLUMNS),
        ("posts", POST_COLUMNS),
        ("messages", MESSAGE_COLUMNS),
    ];
    let references = get_referenced_tables("users", tables);
    assert_eq!(references.len(), 2);
    assert_eq!(references[0].0, "posts");
    assert_eq!(references[0].1, vec!["user"]);
    assert_eq!(references[1].0, "messages");
    assert_eq!(references[1].1, vec!["sender", "recipient"]);
}

#[test]
fn test_self_reference_values() {
    let col = USER_COLUMNS[0]; // id column

    let values = vec![(
        ValuesSource::Foreign {
            table: "users".to_string(),
            column: "id".to_string(),
        },
        vec![(col, Value::Uint64(Uint64(42)))],
    )];

    let result = self_reference_values(&values, "users", "id");
    assert_eq!(result.len(), 1);
    assert_eq!(result[0].0, ValuesSource::This);
    assert_eq!(result[0].1, values[0].1);
}

#[test]
fn test_rgb_color_validator() {
    let validator = RgbColorValidator;

    // Valid RGB color
    let value = Value::Text(Text("#1A2B3C".to_string()));
    assert!(validator.validate(&value).is_ok());

    // Invalid RGB color (wrong length)
    let value = Value::Text(Text("#1A2B3".to_string()));
    assert!(validator.validate(&value).is_err());

    // Invalid RGB color (missing #)
    let value = Value::Text(Text("1A2B3C".to_string()));
    assert!(validator.validate(&value).is_err());

    // Invalid RGB color (non-hex character)
    let value = Value::Text(Text("#1A2B3G".to_string()));
    assert!(validator.validate(&value).is_err());

    // Invalid type
    let value = Value::Int32(Int32(123));
    assert!(validator.validate(&value).is_err());
}

#[test]
fn test_should_display_transaction_error() {
    let error = TransactionError::NoActiveTransaction;
    assert_eq!(error.to_string(), "No active transaction");
}
