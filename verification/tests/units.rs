use pagedb::bucket::BucketData;
use pagedb::codec::{bytes_eq, key_compare, push_u64_be, read_u64_be, KeyOrder};
use pagedb::config::Config;
use pagedb::errors::Error;
use pagedb::freelist::Freelist;
use pagedb::inner::{crate_version, Inner};
use pagedb::meta::{read_current, BucketMeta, Meta, DATABASE_INTEGRITY_CHECK, VERSION};
use pagedb::node::{parse_freelist_block, parse_leaf_block, serialize_freelist_block, serialize_leaf_block};

fn sealed_meta(meta_page: u32, tx_id: u64, pagesize: u64) -> Meta {
    let mut m = Meta {
        meta_page,
        integrity_code: DATABASE_INTEGRITY_CHECK,
        version: VERSION,
        pagesize,
        root: BucketMeta {
            root_page: 3,
            next_int: 0,
        },
        num_pages: 4,
        freelist_page: 2,
        tx_id,
        hash: Vec::new(),
    };
    m.hash = m.hash_self();
    m
}

#[test]
fn u64_codec_round_trip() {
    let mut buf = Vec::new();
    push_u64_be(&mut buf, 0x0102030405060708);
    assert_eq!(buf, vec![1, 2, 3, 4, 5, 6, 7, 8]);
    assert_eq!(read_u64_be(&buf, 0), 0x0102030405060708);
}

#[test]
fn key_order_cases() {
    assert_eq!(key_compare(&b"a".to_vec(), &b"b".to_vec()), KeyOrder::Less);
    assert_eq!(key_compare(&b"b".to_vec(), &b"a".to_vec()), KeyOrder::Greater);
    assert_eq!(key_compare(&b"a".to_vec(), &b"a".to_vec()), KeyOrder::Equal);
    // A proper prefix comes before every extension of it.
    assert_eq!(key_compare(&b"a".to_vec(), &b"aa".to_vec()), KeyOrder::Less);
    assert_eq!(key_compare(&b"".to_vec(), &b"a".to_vec()), KeyOrder::Less);
    assert!(bytes_eq(&b"xy".to_vec(), &b"xy".to_vec()));
    assert!(!bytes_eq(&b"xy".to_vec(), &b"xz".to_vec()));
}

#[test]
fn meta_selection_prefers_higher_tx_id() {
    let a = sealed_meta(0, 5, 4096);
    let b = sealed_meta(1, 7, 4096);
    let current = read_current(&a, &b, 4096).unwrap();
    assert_eq!(current.tx_id, 7);
    let current = read_current(&b, &a, 4096).unwrap();
    assert_eq!(current.tx_id, 7);
}

#[test]
fn meta_selection_takes_the_only_valid_slot() {
    let a = sealed_meta(0, 5, 4096);
    let mut b = sealed_meta(1, 9, 4096);
    b.tx_id = 10; // corrupt b: its digest no longer matches
    let current = read_current(&a, &b, 4096).unwrap();
    assert_eq!(current.tx_id, 5);
}

#[test]
fn meta_selection_fails_when_no_slot_validates() {
    let mut a = sealed_meta(0, 5, 4096);
    let mut b = sealed_meta(1, 9, 4096);
    a.num_pages = 77;
    b.freelist_page = 99;
    match read_current(&a, &b, 4096) {
        Err(Error::InvalidDB(_)) => {}
        _ => panic!("two corrupt meta slots must be fatal"),
    }
}

#[test]
fn meta_hash_detects_every_field_mutation() {
    let m = sealed_meta(0, 5, 4096);
    assert!(m.valid(4096));
    let mut c = m.duplicate();
    c.meta_page = c.meta_page.wrapping_add(1);
    assert!(!c.self_consistent());
    let mut c = m.duplicate();
    c.integrity_code = c.integrity_code.wrapping_add(1);
    assert!(!c.self_consistent());
    let mut c = m.duplicate();
    c.version = c.version.wrapping_add(1);
    assert!(!c.self_consistent());
    let mut c = m.duplicate();
    c.pagesize = c.pagesize.wrapping_add(1);
    assert!(!c.self_consistent());
    let mut c = m.duplicate();
    c.root.root_page = c.root.root_page.wrapping_add(1);
    assert!(!c.self_consistent());
    let mut c = m.duplicate();
    c.root.next_int = c.root.next_int.wrapping_add(1);
    assert!(!c.self_consistent());
    let mut c = m.duplicate();
    c.num_pages = c.num_pages.wrapping_add(1);
    assert!(!c.self_consistent());
    let mut c = m.duplicate();
    c.freelist_page = c.freelist_page.wrapping_add(1);
    assert!(!c.self_consistent());
    let mut c = m.duplicate();
    c.tx_id = c.tx_id.wrapping_add(1);
    assert!(!c.self_consistent());
}

#[test]
fn freelist_allocates_lowest_contiguous_run() {
    let mut fl = Freelist::new();
    fl.init(&vec![4, 5, 7, 10, 11, 12]);
    // First fit, tie-break by lowest starting id.
    assert_eq!(fl.allocate(2), Some(4));
    assert_eq!(fl.allocate(2), Some(10)); // 7 alone cannot hold a run of 2
    assert_eq!(fl.allocate(2), None);
    assert_eq!(fl.allocate(1), Some(7));
    assert_eq!(fl.allocate(1), Some(12));
    assert_eq!(fl.allocate(1), None);
}

#[test]
fn freelist_pending_is_released_by_watermark() {
    let mut fl = Freelist::new();
    fl.init(&vec![]);
    fl.free(5, 40);
    fl.free(5, 41);
    fl.free(7, 50);
    // Nothing below the watermark 5: nothing is released.
    fl.release_pending(5);
    assert_eq!(fl.allocate(1), None);
    // Watermark 6 releases generation 5 only.
    fl.release_pending(6);
    assert_eq!(fl.allocate(2), Some(40));
    assert_eq!(fl.allocate(1), None);
    fl.release_pending(100);
    assert_eq!(fl.allocate(1), Some(50));
}

#[test]
fn freelist_never_holds_a_page_twice() {
    let mut fl = Freelist::new();
    fl.init(&vec![3]);
    // A page already free is not retired again.
    assert!(!fl.retire(9, 3));
    assert!(fl.retire(9, 8));
    // A page already pending is not retired again.
    assert!(!fl.retire(9, 8));
    // Pending pages are not allocatable.
    assert_eq!(fl.allocate(1), Some(3));
    assert_eq!(fl.allocate(1), None);
}

#[test]
fn bucket_model_round_trip() {
    let mut b = BucketData::new();
    b.put(b"k".to_vec(), b"v1".to_vec()).unwrap();
    assert_eq!(b.get(&b"k".to_vec()).unwrap(), b"v1".to_vec());
    b.put(b"k".to_vec(), b"v2".to_vec()).unwrap();
    assert_eq!(b.get(&b"k".to_vec()).unwrap(), b"v2".to_vec());
    b.delete(&b"k".to_vec()).unwrap();
    assert_eq!(b.get(&b"k".to_vec()).unwrap_err(), Error::KeyValueMissing);
}

#[test]
fn leaf_block_serialization_round_trips() {
    let mut b = BucketData::new();
    b.put(b"alpha".to_vec(), b"1".to_vec()).unwrap();
    b.put(b"beta".to_vec(), vec![0xAB; 100]).unwrap();
    b.create_bucket(b"gamma".to_vec()).unwrap();
    let block = serialize_leaf_block(&b.entries, 1024).unwrap();
    assert_eq!(block.len() % 1024, 0);
    let parsed = parse_leaf_block(&block).unwrap();
    assert_eq!(parsed.len(), 3);
    assert_eq!(parsed[0].key, b"alpha".to_vec());
    assert_eq!(parsed[1].key, b"beta".to_vec());
    assert_eq!(parsed[2].key, b"gamma".to_vec());
}

#[test]
fn freelist_block_serialization_round_trips() {
    let ids = vec![2, 9, 77];
    let block = serialize_freelist_block(&ids, 1024).unwrap();
    assert_eq!(parse_freelist_block(&block).unwrap(), ids);
}

#[test]
fn freelist_block_rejects_disorder() {
    let ids = vec![2, 9, 77];
    let mut block = serialize_freelist_block(&ids, 1024).unwrap();
    // Swap the order of the first two serialized ids.
    let a_off = 32;
    for i in 0..8 {
        block.swap(a_off + i, a_off + 8 + i);
    }
    match parse_freelist_block(&block) {
        Err(Error::InvalidDB(_)) => {}
        _ => panic!("an out-of-order freelist must be rejected"),
    }
}

#[test]
fn config_validate_checks_segment_size() {
    let config = Config::new();
    assert!(config.validate().is_ok());
    let mut bad = Config::new();
    bad.inner.segment_size = 4096 + 1;
    match bad.validate() {
        Err(Error::Unsupported(_)) => {}
        _ => panic!("a segment size that is not a power of two must be rejected"),
    }
    let mut small = Config::new();
    small.inner.segment_size = 128;
    assert!(small.validate().is_err());
    let mut large = Config::new();
    large.inner.segment_size = 1 << 25;
    assert!(large.validate().is_err());
}

#[test]
fn inner_paths_and_version() {
    let inner = Inner::new_default();
    assert_eq!(inner.get_path(), "default.db");
    assert_eq!(inner.db_path(), "default.db/db");
    assert_eq!(inner.config_path(), "default.db/conf");
    assert_eq!(crate_version(), (0, 1));
    assert_eq!(inner.normalize(0x80000 * 3 + 17), 0x80000 * 3);
}

#[test]
fn error_equality_and_messages() {
    assert_eq!(Error::BucketExists, Error::BucketExists);
    assert_ne!(Error::BucketExists, Error::BucketMissing);
    assert_eq!(
        Error::InvalidDB("x".to_string()),
        Error::InvalidDB("x".to_string())
    );
    assert_ne!(
        Error::InvalidDB("x".to_string()),
        Error::InvalidDB("y".to_string())
    );
    // Two storage failures never compare equal.
    assert_ne!(
        Error::Io(pagedb::errors::IoKind::Other, "a".to_string()),
        Error::Io(pagedb::errors::IoKind::Other, "a".to_string())
    );
    assert!(Error::KeyValueMissing.message().len() > 0);
}

#[test]
fn bytes_views() {
    let slice = pagedb::bytes::Bytes::Slice(b"abc");
    assert_eq!(slice.len(), 3);
    assert_eq!(slice.to_vec(), b"abc".to_vec());
    let owned = pagedb::bytes::Bytes::Vec(vec![1, 2]);
    assert_eq!(owned.len(), 2);
    assert_eq!(owned.to_vec(), vec![1, 2]);
}
