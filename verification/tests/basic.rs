use pagedb::add;
use pagedb::meta::{BucketMeta, Meta};

#[test]
fn it_works() {
    let result = add(2, 2);
    assert_eq!(result, 4);
}

#[test]
fn test_meta_hash() {
    let meta = Meta {
        meta_page: 0,
        integrity_code: 0,
        version: 0,
        pagesize: 0,
        root: BucketMeta {
            root_page: 0,
            next_int: 0,
        },
        num_pages: 0,
        freelist_page: 0,
        tx_id: 0,
        hash: vec![0; 32],
    };
    let hash = meta.hash_self();
    assert_eq!(hash.len(), 32);
}
