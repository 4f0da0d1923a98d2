use rlb::string_pool::StringPool;
use rlb::table_of_contents::TableOfContents;
use rlb::raw_file::TableRecord;
use rlb::util::{checked_bool, checked_u32, resolve_string_from_raw_data};
use rlb::Error;

#[test]
fn interning_stores_each_string_once() {
    let mut pool = StringPool::new();
    assert_eq!(pool.intern("abc").unwrap(), 0);
    assert_eq!(pool.intern("de").unwrap(), 4);
    assert_eq!(pool.intern("abc").unwrap(), 0);
    assert_eq!(pool.data(), b"abc\0de\0");
    assert_eq!(pool.offset_of("de"), Some(4));
    assert_eq!(pool.offset_of("zz"), None);
}

#[test]
fn interned_string_reads_back_from_its_offset() {
    let mut pool = StringPool::new();
    pool.intern("first").unwrap();
    let at = pool.intern("second").unwrap();
    assert_eq!(resolve_string_from_raw_data(pool.data(), at).unwrap(), "second");
}

#[test]
fn shift_jis_text_is_encoded() {
    let mut pool = StringPool::new();
    pool.intern("ア").unwrap();
    assert_eq!(pool.data(), &[0x83, 0x41, 0]);
    assert_eq!(resolve_string_from_raw_data(pool.data(), 0).unwrap(), "ア");
}

#[test]
fn text_outside_shift_jis_is_rejected() {
    let mut pool = StringPool::new();
    assert!(matches!(pool.intern("\u{1F600}"), Err(Error::InvalidUtf8 { offset: 0, .. })));
    assert!(pool.data().is_empty());
}

#[test]
fn resolve_string_stops_at_nul_and_checks_bounds() {
    let data = b"ab\0cd";
    assert_eq!(resolve_string_from_raw_data(data, 0).unwrap(), "ab");
    assert_eq!(resolve_string_from_raw_data(data, 3).unwrap(), "cd");
    assert_eq!(resolve_string_from_raw_data(data, 5).unwrap(), "");
    assert!(matches!(
        resolve_string_from_raw_data(data, 6),
        Err(Error::OffsetOutOfBounds { offset: 6, length: 5, .. })
    ));
}

#[test]
fn checked_conversions() {
    assert_eq!(checked_u32(7, "x").unwrap(), 7);
    assert!(checked_bool(0, "b").map(|b| !b).unwrap());
    assert!(checked_bool(1, "b").unwrap());
    assert!(matches!(checked_bool(2, "b"), Err(Error::InvalidBoolean { value: 2, .. })));
}

#[test]
fn table_of_contents_finds_the_last_record_with_a_label() {
    let labels = b"one\0two\0";
    let records = vec![
        TableRecord { address: 10, label_offset: 0 },
        TableRecord { address: 20, label_offset: 4 },
        TableRecord { address: 30, label_offset: 0 },
    ];
    let toc = TableOfContents::new(records, labels).expect("labels resolve");
    assert_eq!(toc.len(), 3);
    assert!(!toc.is_empty());
    assert_eq!(toc.iter().len(), 3);
    assert_eq!(toc.find_by_name("one").map(|r| r.address), Some(30));
    assert_eq!(toc.find_by_name("two").map(|r| r.address), Some(20));
    assert!(toc.find_by_name("three").is_none());
}

#[test]
fn table_of_contents_rejects_a_label_outside_the_pool() {
    let records = vec![TableRecord { address: 0, label_offset: 99 }];
    assert!(TableOfContents::new(records, b"x\0").is_err());
}
