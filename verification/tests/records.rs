use ic_dbms::canister::Canister;
use ic_dbms::encode::Encode;
use ic_dbms::fixtures::{ShortRecord, User};
use ic_dbms::free_segment::FreeSegment;
use ic_dbms::raw_record::RawRecord;
use ic_dbms::write_at::WriteAt;

#[test]
fn test_raw_record_encode_decode() {
    let record = ShortRecord { a: 42, b: 65535 };
    let raw_record = RawRecord::new(record);
    let encoded = raw_record.encode();
    let decoded = RawRecord::<ShortRecord>::decode(&encoded).unwrap();
    assert_eq!(raw_record.length(), decoded.length());
    assert_eq!(raw_record.data(), decoded.data());
}

#[test]
fn test_write_at_free_segment() {
    let reused_segment = FreeSegment {
        page: 1,
        offset: 100,
        size: 50,
    };
    let write_at_reused = WriteAt::ReusedSegment(reused_segment);
    assert_eq!(write_at_reused.page(), 1);
    assert_eq!(write_at_reused.offset(), 100);
}

#[test]
fn test_write_at_end() {
    let write_at_end = WriteAt::End(2, 200);
    assert_eq!(write_at_end.page(), 2);
    assert_eq!(write_at_end.offset(), 200);
}

#[test]
fn tests_test_user_encode_decode() {
    let user = User {
        id: 42,
        name: "Alice".to_string(),
    };
    let encoded = user.encode();
    let decoded = User::decode(&encoded).unwrap();
    assert_eq!(user, decoded);
}

#[test]
fn user_test_user_encode_decode() {
    let user = User {
        id: 42u32,
        name: "Alice".to_string(),
    };
    let encoded = user.encode();
    let decoded = User::decode(&encoded).unwrap();
    assert_eq!(user, decoded);
}

#[test]
fn test_canister_path() {
    assert_eq!(Canister::DbmsCanister.as_path(), "../../.artifact/example.wasm.gz");
}
