use ic_dbms::encode::Encode;
use ic_dbms::fixtures::{DataWithAlignment, FixedSizeData, ShortRecord, User};
use ic_dbms::free_segment::{FreeSegment, FreeSegmentsTable};
use ic_dbms::ledger::{FreeSegmentsLedger, TablesIter};
use ic_dbms::memory::{align_up, MemoryManager, ACL_PAGE, SCHEMA_PAGE};
use ic_dbms::metadata::{collect_canister_metadata, collect_table_metadata, MetadataError};
use ic_dbms::provider::{HeapMemoryProvider, MemoryProvider};
use ic_dbms::raw_record::RawRecord;
use ic_dbms::record::QueryError;
use ic_dbms::schema::{str_eq, Text, Value};
use ic_dbms::transaction::{DeleteBehavior, IcDbmsError};
use ic_dbms::types::{DataSize, DecodeError, MemoryError, WASM_PAGE_SIZE};
use ic_dbms::validation::{NoValidation, RgbColorValidator, Validate};
use ic_dbms::fixtures::{find_field, UserInsertRequest};
use ic_dbms::record::{InsertRecord, UntypedInsertRecord};

fn manager() -> MemoryManager<HeapMemoryProvider> {
    MemoryManager::init(HeapMemoryProvider::default()).expect("Failed to init memory manager")
}

fn page_free(table: &FreeSegmentsTable, page: u32) -> u32 {
    table
        .records
        .iter()
        .filter(|r| r.page == page)
        .map(|r| r.size as u32)
        .sum()
}

#[test]
fn test_read_returns_written_bytes() {
    let mut mm = manager();
    let data = FixedSizeData { a: 0x0102, b: 0x03040506 };
    mm.write_at(ACL_PAGE, 12, &data).expect("write");
    let mut buf = vec![0u8; 6];
    let read = mm.read_at_raw(ACL_PAGE, 12, &mut buf).expect("read");
    assert_eq!(read, 6);
    assert_eq!(buf, vec![0x02, 0x01, 0x06, 0x05, 0x04, 0x03]);
    let back: FixedSizeData = mm.read_at(ACL_PAGE, 12).expect("read value");
    assert_eq!(back, data);
}

#[test]
fn test_write_keeps_other_bytes() {
    let mut mm = manager();
    mm.write_at(ACL_PAGE, 0, &FixedSizeData { a: 7, b: 9 }).expect("write");
    mm.write_at(ACL_PAGE, 6, &FixedSizeData { a: 1, b: 2 }).expect("write");
    let first: FixedSizeData = mm.read_at(ACL_PAGE, 0).expect("read");
    assert_eq!(first, FixedSizeData { a: 7, b: 9 });
    let schema: FixedSizeData = mm.read_at(SCHEMA_PAGE, 0).expect("read");
    assert_eq!(schema, FixedSizeData { a: 0, b: 0 });
}

#[test]
fn test_padding_is_zeroed_up_to_alignment() {
    let mut mm = manager();
    let mut ones = HeapMemoryProvider::default();
    ones.grow(2).expect("grow");
    ones.write(WASM_PAGE_SIZE, &[0xFFu8; 64]).expect("write");
    let mut mm_ones = MemoryManager::init(ones).expect("init");
    mm_ones
        .write_at(ACL_PAGE, 0, &DataWithAlignment { a: 0xFFFF, b: 0xFFFF_FFFF })
        .expect("write");
    let mut buf = vec![0u8; 64];
    mm_ones.read_at_raw(ACL_PAGE, 0, &mut buf).expect("read");
    assert!(buf[0..6].iter().all(|&b| b == 0xFF));
    assert!(buf[6..32].iter().all(|&b| b == 0));
    assert!(buf[32..64].iter().all(|&b| b == 0xFF));
    mm.write_at(ACL_PAGE, 0, &Text("abc".to_string())).expect("write");
}

#[test]
fn test_read_stops_at_end_of_page() {
    let mm = manager();
    let mut buf = vec![7u8; 10];
    let read = mm
        .read_at_raw(ACL_PAGE, (WASM_PAGE_SIZE - 4) as u16, &mut buf)
        .expect("read");
    assert_eq!(read, 4);
    assert_eq!(buf, vec![0, 0, 0, 0, 7, 7, 7, 7, 7, 7]);
}

#[test]
fn test_segmentation_fault_carries_position_and_size() {
    let mm = manager();
    let result: Result<FixedSizeData, MemoryError> = mm.read_at(2, 6);
    assert_eq!(
        result.err(),
        Some(MemoryError::SegmentationFault {
            page: 2,
            offset: 6,
            data_size: 6,
            page_size: WASM_PAGE_SIZE,
        })
    );
    let mut mm = manager();
    let result = mm.write_at(ACL_PAGE, 65534, &FixedSizeData { a: 1, b: 1 });
    assert_eq!(
        result,
        Err(MemoryError::OffsetNotAligned {
            offset: 65534,
            alignment: 6
        })
    );
    let result = mm.write_at(ACL_PAGE, 65532, &Text("x".to_string()));
    assert_eq!(
        result,
        Err(MemoryError::OffsetNotAligned {
            offset: 65532,
            alignment: 32
        })
    );
}

#[test]
fn test_allocated_page_is_zeroed() {
    let mut mm = manager();
    let page = mm.allocate_page().expect("allocate");
    assert_eq!(page, 2);
    let mut buf = vec![1u8; WASM_PAGE_SIZE as usize];
    let read = mm.read_at_raw(page, 0, &mut buf).expect("read");
    assert_eq!(read, WASM_PAGE_SIZE as usize);
    assert!(buf.iter().all(|&b| b == 0));
    assert_eq!(mm.last_page(), Some(2));
}

#[test]
fn test_provider_errors() {
    let mut provider = HeapMemoryProvider::default();
    assert_eq!(provider.grow(u64::MAX), Err(MemoryError::FailedToAllocatePage));
    assert_eq!(provider.size(), 0);
    assert_eq!(provider.grow(1), Ok(0));
    assert_eq!(provider.pages(), 1);
    assert_eq!(provider.write(WASM_PAGE_SIZE - 3, &[1, 2, 3, 4]), Err(MemoryError::OutOfBounds));
    let mut buf = [0u8; 4];
    assert_eq!(provider.read(WASM_PAGE_SIZE - 3, &mut buf), Err(MemoryError::OutOfBounds));
}

#[test]
fn test_zero_clears_aligned_space_only() {
    let mut mm = manager();
    mm.write_at(ACL_PAGE, 0, &FixedSizeData { a: 5, b: 5 }).expect("write");
    mm.write_at(ACL_PAGE, 6, &FixedSizeData { a: 6, b: 6 }).expect("write");
    mm.zero(ACL_PAGE, 0, &FixedSizeData { a: 0, b: 0 }).expect("zero");
    let first: FixedSizeData = mm.read_at(ACL_PAGE, 0).expect("read");
    let second: FixedSizeData = mm.read_at(ACL_PAGE, 6).expect("read");
    assert_eq!(first, FixedSizeData { a: 0, b: 0 });
    assert_eq!(second, FixedSizeData { a: 6, b: 6 });
}

#[test]
fn test_align_up_values() {
    assert_eq!(align_up::<FixedSizeData>(0), 0);
    assert_eq!(align_up::<FixedSizeData>(7), 12);
    assert_eq!(align_up::<ShortRecord>(4), 6);
    assert_eq!(FixedSizeData::data_size(), DataSize::Fixed(6));
    assert_eq!(DataSize::Fixed(6).get_fixed_size(), Some(6));
    assert_eq!(DataSize::Dynamic.get_fixed_size(), None);
}

#[test]
fn test_insert_conserves_free_space() {
    let mut table = FreeSegmentsTable::default();
    table.insert_free_segment(1, 0, 10);
    table.insert_free_segment(1, 40, 10);
    table.insert_free_segment(2, 10, 30);
    table.insert_free_segment(1, 10, 30); // touches both neighbours on page 1
    assert_eq!(page_free(&table, 1), 50);
    assert_eq!(page_free(&table, 2), 30);
    assert_eq!(
        table.records,
        vec![
            FreeSegment { page: 2, offset: 10, size: 30 },
            FreeSegment { page: 1, offset: 0, size: 50 },
        ]
    );
}

#[test]
fn test_remove_absent_segment_changes_nothing() {
    let mut table = FreeSegmentsTable::default();
    table.insert_free_segment(1, 0, 10);
    table.remove(1, 0, 11, 5);
    assert_eq!(table.records, vec![FreeSegment { page: 1, offset: 0, size: 10 }]);
}

#[test]
fn test_commit_reused_space_reloads() {
    let mut mm = manager();
    let page = mm.allocate_page().expect("allocate");
    let mut ledger = FreeSegmentsLedger::load(&mm, page).expect("load");
    ledger
        .insert_free_segment(&mut mm, 3, 0, &FixedSizeData { a: 0, b: 0 })
        .expect("insert");
    let segment = ledger
        .find_reusable_segment(&ShortRecord { a: 0, b: 0 })
        .expect("segment");
    assert_eq!(segment, FreeSegment { page: 3, offset: 0, size: 6 });
    ledger
        .commit_reused_space(&mut mm, &ShortRecord { a: 0, b: 0 }, segment)
        .expect("commit");
    let reloaded = FreeSegmentsLedger::load(&mm, page).expect("reload");
    assert_eq!(reloaded.table, ledger.table);
    assert_eq!(reloaded.table.records, vec![FreeSegment { page: 3, offset: 3, size: 3 }]);
}

#[test]
fn test_load_from_unallocated_page_fails() {
    let mm = manager();
    let result = FreeSegmentsLedger::load(&mm, 9);
    assert!(matches!(
        result,
        Err(MemoryError::SegmentationFault { page: 9, offset: 0, .. })
    ));
    let pages = vec![9u32];
    let mut iter = TablesIter::new(&pages);
    assert!(matches!(iter.next(&mm), Some(Err(MemoryError::SegmentationFault { .. }))));
    assert!(iter.next(&mm).is_none());
}

#[test]
fn test_roundtrips() {
    let table = FreeSegmentsTable {
        records: vec![FreeSegment { page: 7, offset: 8, size: 9 }],
    };
    let mut bytes = table.encode();
    assert_eq!(bytes.len(), table.size() as usize);
    bytes.extend_from_slice(&[1, 2, 3]);
    assert_eq!(FreeSegmentsTable::decode(&bytes), Ok(table));

    let raw = RawRecord::new(FixedSizeData { a: 3, b: 4 });
    assert_eq!(raw.size(), 8);
    let decoded = RawRecord::<FixedSizeData>::decode(&raw.encode()).expect("decode");
    assert_eq!(decoded.length(), 6);
    assert_eq!(*decoded.data(), FixedSizeData { a: 3, b: 4 });

    let text = Text("héllo".to_string());
    assert_eq!(text.size(), 8);
    assert_eq!(Text::decode(&text.encode()), Ok(text));
}

#[test]
fn test_decode_errors() {
    assert_eq!(
        FreeSegment::decode(&[1, 2, 3]),
        Err(MemoryError::DecodeError(DecodeError::TooShort))
    );
    assert_eq!(
        FreeSegmentsTable::decode(&[2, 0, 0, 0, 1, 2, 3, 4, 5, 6, 7, 8]),
        Err(MemoryError::DecodeError(DecodeError::TooShort))
    );
    assert!(matches!(
        RawRecord::<ShortRecord>::decode(&[5, 0, 1]),
        Err(MemoryError::DecodeError(DecodeError::TooShort))
    ));
    assert_eq!(
        User::decode(&[1, 0, 0, 0, 2, 0, 0xFF, 0xFE]),
        Err(MemoryError::DecodeError(DecodeError::Utf8Error))
    );
    assert_eq!(
        User::decode(&[1, 0, 0, 0, 2, 0, b'a']),
        Err(MemoryError::DecodeError(DecodeError::TooShort))
    );
    assert_eq!(
        User::decode(&[1, 0, 0, 0, 2, 0, b'h', b'i']),
        Ok(User { id: 1, name: "hi".to_string() })
    );
}

#[test]
fn test_validation_messages() {
    let validator = RgbColorValidator;
    assert_eq!(
        validator.validate(&Value::Text(Text("#12345".to_string()))),
        Err(IcDbmsError::Validation("Invalid RGB color format".to_string()))
    );
    assert_eq!(
        validator.validate(&Value::Null),
        Err(IcDbmsError::Validation(
            "RGB color validation requires a text value".to_string()
        ))
    );
    assert_eq!(validator.validate(&Value::Text(Text("#abcdef".to_string()))), Ok(()));
    assert_eq!(validator.validate(&Value::Text(Text("#abcdeé".to_string()))).is_err(), true);
    assert_eq!(NoValidation.validate(&Value::Null), Ok(()));
}

#[test]
fn test_metadata_collection() {
    let metadata = collect_table_metadata("User".to_string(), "users".to_string());
    assert_eq!(metadata.record, "UserRecord");
    assert_eq!(metadata.insert, "UserInsertRequest");
    assert_eq!(metadata.update, "UserUpdateRequest");

    let result = collect_canister_metadata(
        vec!["User".to_string(), "Post".to_string()],
        vec!["users".to_string()],
        Some("referenced_tables".to_string()),
    );
    assert_eq!(result.err(), Some(MetadataError::MismatchedCount { tables: 2, names: 1 }));

    let result = collect_canister_metadata(vec![], vec![], None);
    assert_eq!(result.err(), Some(MetadataError::MissingReferencedTables));

    let result = collect_canister_metadata(
        vec!["User".to_string()],
        vec!["users".to_string()],
        Some("refs".to_string()),
    )
    .expect("metadata");
    assert_eq!(result.tables.len(), 1);
    assert_eq!(result.tables[0].name, "users");
    assert_eq!(result.referenced_tables, "refs");
}

#[test]
fn test_fields_and_strings() {
    let fields = vec![
        ("id".to_string(), Value::Null),
        ("id".to_string(), Value::Text(Text("second".to_string()))),
    ];
    assert_eq!(find_field(&fields, "id"), Some(Value::Null));
    assert_eq!(find_field(&fields, "name"), None);
    assert!(str_eq("héllo", "héllo"));
    assert!(!str_eq("hello", "hellO"));
    assert!(!str_eq("hello", "hell"));
    assert_ne!(DeleteBehavior::Cascade, DeleteBehavior::Restrict);
}

#[test]
fn test_untyped_errors() {
    let missing = UntypedInsertRecord {
        fields: vec![("name".to_string(), Value::Text(Text("A".to_string())))],
    };
    assert_eq!(
        UserInsertRequest::from_untyped(missing).err(),
        Some(QueryError::MissingNonNullableField("id".to_string()))
    );
    let wrong = UntypedInsertRecord {
        fields: vec![("id".to_string(), Value::Null)],
    };
    assert!(matches!(
        UserInsertRequest::from_untyped(wrong),
        Err(QueryError::InvalidQuery(_))
    ));
}

#[test]
fn test_successive_allocations() {
    let mut mm = manager();
    for expected in 2..6u32 {
        assert_eq!(mm.allocate_page(), Ok(expected));
        assert_eq!(mm.last_page(), Some(expected));
    }
}

#[test]
fn test_remove_takes_one_copy_and_adds_remainder() {
    let mut table = FreeSegmentsTable::default();
    table.records.push(FreeSegment { page: 1, offset: 0, size: 10 });
    table.records.push(FreeSegment { page: 1, offset: 100, size: 50 });
    table.records.push(FreeSegment { page: 2, offset: 0, size: 8 });
    table.remove(1, 100, 50, 20);
    let mut records = table.records.clone();
    records.sort_by_key(|s| (s.page, s.offset, s.size));
    assert_eq!(
        records,
        vec![
            FreeSegment { page: 1, offset: 0, size: 10 },
            FreeSegment { page: 1, offset: 120, size: 30 },
            FreeSegment { page: 2, offset: 0, size: 8 },
        ]
    );
    table.remove(1, 120, 30, 30);
    table.remove(1, 120, 30, 30);
    assert_eq!(table.records.len(), 2);
}

#[test]
fn test_insert_keeps_segments_apart() {
    let mut table = FreeSegmentsTable::default();
    table.insert_free_segment(1, 0, 10);
    table.insert_free_segment(1, 20, 10);
    table.insert_free_segment(2, 10, 10);
    // fills the gap on page 1: the three ranges become one
    table.insert_free_segment(1, 10, 10);
    let mut records = table.records.clone();
    records.sort_by_key(|s| (s.page, s.offset));
    assert_eq!(
        records,
        vec![
            FreeSegment { page: 1, offset: 0, size: 30 },
            FreeSegment { page: 2, offset: 10, size: 10 },
        ]
    );
    // untouched ranges are appended as they are
    table.insert_free_segment(1, 100, 5);
    assert_eq!(table.records.last(), Some(&FreeSegment { page: 1, offset: 100, size: 5 }));
}
