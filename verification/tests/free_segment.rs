use ic_dbms::encode::Encode;
use ic_dbms::free_segment::{AdjacentSegment, FreeSegment, FreeSegmentsTable};

#[test]
fn test_should_encode_and_decode_free_segment() {
    let segment = FreeSegment {
        page: 42,
        offset: 1000,
        size: 256,
    };

    assert_eq!(segment.size(), 8);
    let encoded = segment.encode();
    let decoded = FreeSegment::decode(&encoded).expect("Decoding failed");

    assert_eq!(segment, decoded);
}

#[test]
fn test_should_encode_and_decode_free_segments_table() {
    let table = FreeSegmentsTable {
        records: vec![
            FreeSegment {
                page: 1,
                offset: 100,
                size: 50,
            },
            FreeSegment {
                page: 2,
                offset: 200,
                size: 75,
            },
        ],
    };

    let encoded = table.encode();
    let decoded = FreeSegmentsTable::decode(&encoded).expect("Decoding failed");

    assert_eq!(table, decoded);
}

#[test]
fn test_should_insert_free_segment() {
    let mut table = FreeSegmentsTable::default();

    table.insert_free_segment(1, 100, 50);
    table.insert_free_segment(2, 200, 75);

    assert_eq!(table.records.len(), 2);
    assert_eq!(table.records[0].page, 1);
    assert_eq!(table.records[1].page, 2);
}

#[test]
fn test_should_find_free_segment() {
    let mut table = FreeSegmentsTable::default();
    table.insert_free_segment(1, 100, 50);
    table.insert_free_segment(2, 200, 75);

    let record = table.find(|r| r.page == 2);
    assert!(record.is_some());
    assert_eq!(record.unwrap().offset, 200);
}

#[test]
fn test_should_remove_free_segment_with_same_size() {
    let mut table = FreeSegmentsTable::default();
    table.insert_free_segment(1, 100, 50);

    table.remove(1, 100, 50, 50);

    assert!(table.records.is_empty());
}

#[test]
fn test_should_remove_free_segment_and_create_remaining() {
    let mut table = FreeSegmentsTable::default();
    table.insert_free_segment(1, 100, 50);

    table.remove(1, 100, 50, 30);

    assert_eq!(table.records.len(), 1);
    assert_eq!(table.records[0].page, 1);
    assert_eq!(table.records[0].offset, 130);
    assert_eq!(table.records[0].size, 20);
}

#[test]
fn test_should_find_adjacent_segment_before() {
    let mut table = FreeSegmentsTable::default();
    table.insert_free_segment(1, 100, 50);

    let adjacent = table.has_adjacent_segment_before(1, 150);
    assert!(adjacent.is_some());
    match adjacent.unwrap() {
        AdjacentSegment::Before(seg) => {
            assert_eq!(seg.page, 1);
            assert_eq!(seg.offset, 100);
            assert_eq!(seg.size, 50);
        }
        _ => panic!("Expected AdjacentSegment::Before"),
    }
}

#[test]
fn test_should_find_adjacent_segment_after() {
    let mut table = FreeSegmentsTable::default();
    table.insert_free_segment(1, 100, 50);

    let adjacent = table.has_adjacent_segment_after(1, 0, 100);
    assert!(adjacent.is_some());
    match adjacent.unwrap() {
        AdjacentSegment::After(seg) => {
            assert_eq!(seg.page, 1);
            assert_eq!(seg.offset, 100);
            assert_eq!(seg.size, 50);
        }
        _ => panic!("Expected AdjacentSegment::After"),
    }
}

#[test]
fn test_should_insert_adjacent_segment() {
    let mut table = FreeSegmentsTable::default();
    table.insert_free_segment(1, 100, 50);
    table.insert_free_segment(1, 150, 50); // Adjacent to the first

    assert_eq!(table.records.len(), 1);
    assert_eq!(table.records[0].page, 1);
    assert_eq!(table.records[0].offset, 100);
    assert_eq!(table.records[0].size, 100); // Merged size
}
