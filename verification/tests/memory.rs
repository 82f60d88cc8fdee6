use ic_dbms::encode::Encode;
use ic_dbms::fixtures::{DataWithAlignment, FixedSizeData, User};
use ic_dbms::memory::{align_up, MemoryManager, ACL_PAGE};
use ic_dbms::provider::{HeapMemoryProvider, MemoryProvider};
use ic_dbms::schema::Text;
use ic_dbms::types::{MemoryError, MemoryResult, PageOffset, WASM_PAGE_SIZE};

fn manager() -> MemoryManager<HeapMemoryProvider> {
    MemoryManager::init(HeapMemoryProvider::default()).expect("Failed to init memory manager")
}

#[test]
fn test_should_init_memory_manager() {
    let manager = manager();
    assert_eq!(manager.last_page(), Some(1));
}

#[test]
fn test_should_get_last_page() {
    let manager = manager();
    let last_page = manager.last_page();
    assert_eq!(last_page, Some(1)); // schema and ACL pages
}

#[test]
fn test_should_get_memory_page_size() {
    let manager = manager();
    let page_size = manager.page_size();
    assert_eq!(page_size, WASM_PAGE_SIZE);
}

#[test]
fn test_should_write_and_read_fixed_data_size() {
    let mut manager = manager();
    let data_to_write = FixedSizeData { a: 42, b: 1337 };
    manager
        .write_at(ACL_PAGE, 0, &data_to_write)
        .expect("Failed to write data to ACL page");

    let out: FixedSizeData = manager
        .read_at(ACL_PAGE, 0)
        .expect("Failed to read data from ACL page");

    assert_eq!(out, data_to_write);
}

#[test]
fn test_write_should_zero_padding() {
    let mut manager = manager();
    let data_to_write = Text("very_long_string".to_string());
    manager
        .write_at(ACL_PAGE, 0, &data_to_write)
        .expect("Failed to write data to ACL page");

    // read first 32 bytes
    let mut buffer = vec![0; 32];
    manager
        .read_at_raw(ACL_PAGE, 0, &mut buffer)
        .expect("Failed to read data from ACL page");

    // count non-zero
    let non_zero_count = buffer.iter().filter(|&&b| b != 0).count();
    assert_eq!(non_zero_count, data_to_write.size() as usize - 1); // - 1 because one byte for length is zero

    // write shorter string
    let data_to_write_short = Text("short".to_string());
    manager
        .write_at(ACL_PAGE, 0, &data_to_write_short)
        .expect("Failed to write data to ACL page");

    // read first 32 bytes again
    let mut buffer = vec![0; 32];
    manager
        .read_at_raw(ACL_PAGE, 0, &mut buffer)
        .expect("Failed to read data from ACL page");

    // non-zero should match shorter string size
    let non_zero_count = buffer.iter().filter(|&&b| b != 0).count();
    assert_eq!(non_zero_count, data_to_write_short.size() as usize - 1); // - 1 because one byte for length is zero
}

#[test]
fn test_should_write_and_read_variable_data_size() {
    let mut manager = manager();
    let data_to_write = User {
        id: 30,
        name: "Alice".to_string(),
    };
    manager
        .write_at(ACL_PAGE, 32, &data_to_write)
        .expect("Failed to write data to ACL page");
}

#[test]
fn test_should_zero_data() {
    let mut manager = manager();
    let data_to_write = FixedSizeData { a: 100, b: 200 };
    manager
        .write_at(ACL_PAGE, 48, &data_to_write)
        .expect("Failed to write data to ACL page");

    // zero the data
    manager
        .zero(ACL_PAGE, 48, &data_to_write)
        .expect("Failed to zero data on ACL page");

    let mut buffer = vec![0; 50];

    manager
        .read_at_raw(ACL_PAGE, 48, &mut buffer)
        .expect("Failed to read data from ACL page");

    assert!(buffer.iter().all(|&b| b == 0));
}

#[test]
fn test_should_zero_with_alignment() {
    let mut manager = manager();
    let data_to_write = FixedSizeData { a: 100, b: 200 };
    manager
        .write_at(ACL_PAGE, 0, &data_to_write)
        .expect("Failed to write data to ACL page");
    let data_to_write = FixedSizeData { a: 100, b: 200 };
    manager
        .write_at(ACL_PAGE, 6, &data_to_write)
        .expect("Failed to write data to ACL page");

    // zero the data
    let data_with_alignment = DataWithAlignment { a: 100, b: 200 };
    manager
        .zero(ACL_PAGE, 0, &data_with_alignment)
        .expect("Failed to zero data on ACL page");

    // read first 32 bytes, all must be zero
    let mut buffer = vec![0; 32];
    manager
        .read_at_raw(ACL_PAGE, 0, &mut buffer)
        .expect("Failed to read data from ACL page");
    assert!(
        buffer.iter().all(|&b| b == 0),
        "First 32 bytes are not zeroed"
    );
}

#[test]
fn test_should_check_whether_write_is_aligned() {
    let mut manager = manager();
    let data_to_write = FixedSizeData { a: 100, b: 200 };
    let res = manager.write_at(ACL_PAGE, 2, &data_to_write);
    assert!(matches!(res, Err(MemoryError::OffsetNotAligned { .. })));
}

#[test]
fn test_should_check_whether_read_is_aligned() {
    let manager = manager();
    let result: MemoryResult<FixedSizeData> = manager.read_at(ACL_PAGE, 3);
    assert!(matches!(result, Err(MemoryError::OffsetNotAligned { .. })));
}

#[test]
fn test_should_check_whether_zero_is_aligned() {
    let mut manager = manager();
    let data_to_zero = FixedSizeData { a: 1, b: 2 };
    let result = manager.zero(ACL_PAGE, 5, &data_to_zero);
    assert!(matches!(result, Err(MemoryError::OffsetNotAligned { .. })));
}

#[test]
fn test_should_not_zero_unallocated_page() {
    let mut manager = manager();
    let data_to_zero = FixedSizeData { a: 1, b: 2 };
    let result = manager.zero(10, 0, &data_to_zero);
    assert!(matches!(result, Err(MemoryError::SegmentationFault { .. })));
}

#[test]
fn test_should_not_zero_out_of_bounds() {
    let mut manager = manager();
    let data_to_zero = FixedSizeData { a: 1, b: 2 };
    let result = manager.zero(ACL_PAGE, (WASM_PAGE_SIZE - 4) as PageOffset, &data_to_zero);
    assert!(matches!(result, Err(MemoryError::SegmentationFault { .. })));
}

#[test]
fn test_should_read_raw() {
    let mut provider = HeapMemoryProvider::default();
    provider.grow(2).expect("Failed to grow memory");
    let data_to_write = vec![1u8, 2, 3, 4, 5];
    provider
        .write(WASM_PAGE_SIZE * ACL_PAGE as u64 + 20, &data_to_write)
        .expect("Failed to write raw data to ACL page");
    let manager = MemoryManager::init(provider).expect("Failed to init memory manager");

    let mut buf = vec![0u8; 5];
    manager
        .read_at_raw(ACL_PAGE, 20, &mut buf)
        .expect("Failed to read raw data from ACL page");

    assert_eq!(buf, data_to_write);
}

#[test]
fn test_should_fail_out_of_bounds_access() {
    let mut manager = manager();
    let data_to_write = FixedSizeData { a: 1, b: 2 };
    let result = manager.write_at(ACL_PAGE, (WASM_PAGE_SIZE - 4) as PageOffset, &data_to_write);
    assert!(matches!(result, Err(MemoryError::SegmentationFault { .. })));

    // try to access unallocated page
    let result: MemoryResult<FixedSizeData> = manager.read_at(10, 0);
    assert!(matches!(result, Err(MemoryError::SegmentationFault { .. })));
    let result = manager.write_at(10, 0, &data_to_write);
    assert!(matches!(result, Err(MemoryError::SegmentationFault { .. })));
}

#[test]
fn test_should_allocate_new_page() {
    let mut manager = manager();
    let initial_last_page = manager.last_page().unwrap();
    let new_page = manager
        .allocate_page()
        .expect("Failed to allocate new page");
    assert_eq!(new_page, initial_last_page + 1);
    let updated_last_page = manager.last_page().unwrap();
    assert_eq!(updated_last_page, new_page);
}

#[test]
fn test_should_check_unallocated_page() {
    let manager = manager();
    let result = manager.check_unallocated_page(100, 0, 10);
    assert!(matches!(result, Err(MemoryError::SegmentationFault { .. })));

    let last_page = manager.last_page().unwrap();
    let result = manager.check_unallocated_page(last_page, 0, 10);
    assert!(result.is_ok());
}

#[test]
fn test_should_compute_padding() {
    // alignment is 32 bytes for User
    assert_eq!(align_up::<User>(0), 0);
    assert_eq!(align_up::<User>(1), 32);
    assert_eq!(align_up::<User>(2), 32);
    assert_eq!(align_up::<User>(3), 32);
    assert_eq!(align_up::<User>(31), 32);
    assert_eq!(align_up::<User>(32), 32);
    assert_eq!(align_up::<User>(48), 64);
    assert_eq!(align_up::<User>(147), 160);
}
