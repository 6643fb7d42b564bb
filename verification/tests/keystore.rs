use keycode::store::{append, encode_record, find_by_name, scan_all, StoreError};
use rand::RngCore;

#[test]
fn record_layout_is_exact() {
    let name = b"ab".to_vec();
    let secret = vec![0xDE, 0xAD, 0xBE, 0xEF];
    let rec = encode_record(&name, &secret).unwrap();
    assert_eq!(rec, vec![2, 0, 0, 0, 4, b'a', b'b', 0xDE, 0xAD, 0xBE, 0xEF]);
}

#[test]
fn store_round_trip_random_secret() {
    let mut secret = vec![0u8; 32];
    rand::thread_rng().fill_bytes(&mut secret);
    let mut store: Vec<u8> = Vec::new();
    append(&mut store, &b"alice".to_vec(), &secret).unwrap();
    assert_eq!(find_by_name(&store, &b"alice".to_vec()).unwrap(), secret);
}

#[test]
fn lookup_in_empty_store_is_not_found() {
    let store: Vec<u8> = Vec::new();
    assert_eq!(
        find_by_name(&store, &b"bob".to_vec()).unwrap_err(),
        StoreError::NotFound
    );
}

#[test]
fn colliding_name_lengths_stay_isolated() {
    let mut store: Vec<u8> = Vec::new();
    append(&mut store, &b"alice".to_vec(), &vec![1; 7]).unwrap();
    append(&mut store, &b"bobby".to_vec(), &vec![2; 9]).unwrap();
    assert_eq!(find_by_name(&store, &b"alice".to_vec()).unwrap(), vec![1; 7]);
    assert_eq!(find_by_name(&store, &b"bobby".to_vec()).unwrap(), vec![2; 9]);
}

#[test]
fn different_name_lengths_stay_isolated() {
    let mut store: Vec<u8> = Vec::new();
    append(&mut store, &b"a".to_vec(), &vec![3; 2]).unwrap();
    append(&mut store, &b"longername".to_vec(), &vec![4; 5]).unwrap();
    assert_eq!(find_by_name(&store, &b"a".to_vec()).unwrap(), vec![3; 2]);
    assert_eq!(
        find_by_name(&store, &b"longername".to_vec()).unwrap(),
        vec![4; 5]
    );
}

#[test]
fn lookup_returns_first_of_duplicate_names() {
    let mut store: Vec<u8> = Vec::new();
    append(&mut store, &b"dup".to_vec(), &vec![10, 11]).unwrap();
    append(&mut store, &b"dup".to_vec(), &vec![20, 21]).unwrap();
    assert_eq!(find_by_name(&store, &b"dup".to_vec()).unwrap(), vec![10, 11]);
}

#[test]
fn name_longer_than_255_bytes_is_rejected() {
    let name = vec![b'x'; 256];
    let secret = vec![1, 2, 3];
    assert_eq!(
        encode_record(&name, &secret).unwrap_err(),
        StoreError::NameTooLong
    );
    let mut store: Vec<u8> = vec![9, 9, 9];
    assert_eq!(
        append(&mut store, &name, &secret).unwrap_err(),
        StoreError::NameTooLong
    );
    assert_eq!(store, vec![9, 9, 9], "a rejected append writes nothing");
}

#[test]
fn name_of_exactly_255_bytes_is_accepted() {
    let name = vec![b'y'; 255];
    let mut store: Vec<u8> = Vec::new();
    append(&mut store, &name, &vec![8]).unwrap();
    assert_eq!(find_by_name(&store, &name).unwrap(), vec![8]);
}

#[test]
fn partial_header_is_not_found_for_lookup() {
    // The scan treats an unreadable header as the end of the store.
    let store: Vec<u8> = vec![3, 0, 0];
    assert_eq!(
        find_by_name(&store, &b"abc".to_vec()).unwrap_err(),
        StoreError::NotFound
    );
}

#[test]
fn truncated_matching_record_is_an_error() {
    let mut store: Vec<u8> = Vec::new();
    append(&mut store, &b"carol".to_vec(), &vec![6; 10]).unwrap();
    store.truncate(store.len() - 4);
    assert_eq!(
        find_by_name(&store, &b"carol".to_vec()).unwrap_err(),
        StoreError::TruncatedStore
    );
}

#[test]
fn truncated_skipped_record_ends_as_not_found() {
    let mut store: Vec<u8> = Vec::new();
    append(&mut store, &b"carol".to_vec(), &vec![6; 10]).unwrap();
    store.truncate(store.len() - 4);
    assert_eq!(
        find_by_name(&store, &b"other".to_vec()).unwrap_err(),
        StoreError::NotFound
    );
}

#[test]
fn scan_lists_records_in_order() {
    let mut store: Vec<u8> = Vec::new();
    append(&mut store, &b"one".to_vec(), &vec![1]).unwrap();
    append(&mut store, &b"two".to_vec(), &vec![2, 2]).unwrap();
    append(&mut store, &b"three".to_vec(), &vec![3, 3, 3]).unwrap();
    let records = scan_all(&store).unwrap();
    assert_eq!(records.len(), 3);
    assert_eq!(records[0].name, b"one".to_vec());
    assert_eq!(records[0].secret, vec![1]);
    assert_eq!(records[1].name, b"two".to_vec());
    assert_eq!(records[1].secret, vec![2, 2]);
    assert_eq!(records[2].name, b"three".to_vec());
    assert_eq!(records[2].secret, vec![3, 3, 3]);
}

#[test]
fn scan_of_empty_store_is_empty() {
    let store: Vec<u8> = Vec::new();
    assert_eq!(scan_all(&store).unwrap().len(), 0);
}

#[test]
fn scan_of_truncated_store_is_an_error() {
    let mut store: Vec<u8> = Vec::new();
    append(&mut store, &b"one".to_vec(), &vec![1]).unwrap();
    store.truncate(store.len() - 1);
    assert_eq!(scan_all(&store).unwrap_err(), StoreError::TruncatedStore);
}

#[test]
fn scan_of_partial_header_is_an_error() {
    let store: Vec<u8> = vec![5, 0];
    assert_eq!(scan_all(&store).unwrap_err(), StoreError::TruncatedStore);
}

#[test]
fn empty_name_and_empty_secret_round_trip() {
    let mut store: Vec<u8> = Vec::new();
    append(&mut store, &Vec::new(), &Vec::new()).unwrap();
    assert_eq!(find_by_name(&store, &Vec::new()).unwrap(), Vec::<u8>::new());
    let records = scan_all(&store).unwrap();
    assert_eq!(records.len(), 1);
    assert_eq!(records[0].name, Vec::<u8>::new());
    assert_eq!(records[0].secret, Vec::<u8>::new());
}
