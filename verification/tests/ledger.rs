use ic_dbms::encode::Encode;
use ic_dbms::fixtures::{BigTestRecord, TestRecord};
use ic_dbms::free_segment::{FreeSegment, FreeSegmentsTable};
use ic_dbms::ledger::{FreeSegmentsLedger, TablesIter};
use ic_dbms::memory::MemoryManager;
use ic_dbms::provider::HeapMemoryProvider;
use ic_dbms::types::Page;

fn manager() -> MemoryManager<HeapMemoryProvider> {
    MemoryManager::init(HeapMemoryProvider::default()).expect("Failed to init memory manager")
}

#[test]
fn test_should_load_free_segments_ledger() {
    let mut mm = manager();
    let page = mm.allocate_page().expect("Failed to allocate page");

    let ledger = FreeSegmentsLedger::load(&mm, page).expect("Failed to load DeletedRecordsLedger");
    assert_eq!(ledger.free_segments_page, page);
    assert!(ledger.table.records.is_empty());
}

#[test]
fn test_should_insert_record() {
    let mut mm = manager();
    let page = mm.allocate_page().expect("Failed to allocate page");

    let mut ledger =
        FreeSegmentsLedger::load(&mm, page).expect("Failed to load DeletedRecordsLedger");

    let record = TestRecord { data: [0; 100] };

    ledger
        .insert_free_segment(&mut mm, 4, 0, &record)
        .expect("Failed to insert deleted record");

    let found_record = ledger
        .table
        .find(|r| r.page == 4 && r.offset == 0 && r.size == record.size());
    assert!(found_record.is_some());

    // verify it's written (reload)
    let reloaded_ledger =
        FreeSegmentsLedger::load(&mm, page).expect("Failed to load DeletedRecordsLedger");
    let found_record = reloaded_ledger
        .table
        .find(|r| r.page == 4 && r.offset == 0 && r.size == record.size());
    assert!(found_record.is_some());
}

#[test]
fn test_should_find_suitable_reusable_space() {
    let mut mm = manager();
    let page = mm.allocate_page().expect("Failed to allocate page");

    let mut ledger =
        FreeSegmentsLedger::load(&mm, page).expect("Failed to load DeletedRecordsLedger");

    let record = TestRecord { data: [0; 100] };

    ledger
        .insert_free_segment(&mut mm, 4, 0, &record)
        .expect("Failed to insert deleted record");

    let record = TestRecord { data: [0; 100] };
    let reusable_space = ledger.find_reusable_segment(&record);
    assert_eq!(
        reusable_space,
        Some(FreeSegment {
            page: 4,
            offset: 0,
            size: record.size(),
        })
    );
}

#[test]
fn test_should_not_find_suitable_reusable_space() {
    let mut mm = manager();
    let page = mm.allocate_page().expect("Failed to allocate page");

    let mut ledger =
        FreeSegmentsLedger::load(&mm, page).expect("Failed to load DeletedRecordsLedger");

    let record = TestRecord { data: [0; 100] };

    ledger
        .insert_free_segment(&mut mm, 4, 0, &record)
        .expect("Failed to insert deleted record");

    let record = BigTestRecord { data: [0; 200] };
    let reusable_space = ledger.find_reusable_segment(&record);
    assert_eq!(reusable_space, None);
}

#[test]
fn test_should_commit_reused_space_without_creating_a_new_record() {
    let mut mm = manager();
    let page = mm.allocate_page().expect("Failed to allocate page");

    let mut ledger =
        FreeSegmentsLedger::load(&mm, page).expect("Failed to load DeletedRecordsLedger");

    let record = TestRecord { data: [0; 100] };

    ledger
        .insert_free_segment(&mut mm, 4, 0, &record)
        .expect("Failed to insert deleted record");

    let reusable_space = ledger
        .find_reusable_segment(&record)
        .expect("should find reusable space");

    ledger
        .commit_reused_space(&mut mm, &record, reusable_space)
        .expect("Failed to commit reused space");

    // should be empty
    let record = ledger
        .table
        .find(|r| r.page == 4 && r.offset == 0 && r.size == 100);
    assert!(record.is_none());

    // reload
    let reloaded_ledger =
        FreeSegmentsLedger::load(&mm, page).expect("Failed to load DeletedRecordsLedger");
    let record = reloaded_ledger
        .table
        .find(|r| r.page == 4 && r.offset == 0 && r.size == 100);
    assert!(record.is_none());
}

#[test]
fn test_should_commit_reused_space_creating_a_new_record() {
    let mut mm = manager();
    let page = mm.allocate_page().expect("Failed to allocate page");
    let mut ledger =
        FreeSegmentsLedger::load(&mm, page).expect("Failed to load DeletedRecordsLedger");

    let big_record = BigTestRecord { data: [1; 200] };

    ledger
        .insert_free_segment(&mut mm, 4, 0, &big_record)
        .expect("Failed to insert deleted record");

    let small_record = TestRecord { data: [0; 100] };
    let reusable_space = ledger
        .find_reusable_segment(&small_record)
        .expect("should find reusable space");

    ledger
        .commit_reused_space(&mut mm, &small_record, reusable_space)
        .expect("Failed to commit reused space");

    // should have a new record for the remaining space
    let record = ledger
        .table
        .find(|r| r.page == 4 && r.offset == 100 && r.size == 100);
    assert!(record.is_some());
}

#[test]
fn test_tables_iter_empty() {
    let mm = manager();
    let pages: Vec<Page> = vec![];
    let mut iter = TablesIter::new(&pages);
    assert!(iter.next(&mm).is_none());
}

#[test]
fn test_should_iter_tables() {
    const COUNT: usize = 5;
    let mut mm = manager();
    let mut pages = Vec::new();
    for _ in 0..COUNT {
        let page = mm.allocate_page().expect("Failed to allocate page");
        let mut table = FreeSegmentsTable::load(&mm, page).expect("Failed to load page");
        // insert a segment
        table.insert_free_segment(100 + page as Page, 0, 50);
        mm.write_at(page, 0, &table).expect("Failed to insert segment");
        pages.push(page);
    }

    let mut iter = TablesIter::new(&pages);
    for expected_page in &pages {
        let table_result = iter.next(&mm);
        assert!(table_result.is_some());
        let table = table_result.unwrap().expect("Failed to load table");
        // should have a segment
        let segment = table.find(|_| true).expect("Failed to find segment");
        assert_eq!(segment.page, expected_page + 100);
    }
    assert!(iter.next(&mm).is_none());
}
