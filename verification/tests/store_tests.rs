use rgit::digest::Digest;
use rgit::error::StoreError;
use rgit::object_store::ObjectStore;
use std::io::Read;

fn inflate(payload: &[u8]) -> Vec<u8> {
    let mut out = Vec::new();
    flate2::read::ZlibDecoder::new(payload).read_to_end(&mut out).unwrap();
    out
}

#[test]
fn get_returns_what_was_put() {
    let mut store = ObjectStore::new();
    let inputs: Vec<Vec<u8>> = vec![
        b"".to_vec(),
        b"hello".to_vec(),
        vec![0u8; 100_000],
        (0..=255u8).cycle().take(70_000).collect(),
    ];
    for content in &inputs {
        let d = store.put(content).unwrap();
        assert_eq!(d, Digest::of(content));
        assert_eq!(store.get(&d).unwrap(), *content);
    }
    for content in &inputs {
        assert_eq!(store.get(&Digest::of(content)).unwrap(), *content);
    }
    assert_eq!(store.len(), inputs.len());
}

#[test]
fn put_twice_keeps_one_object() {
    let mut store = ObjectStore::new();
    let first = store.put(b"same bytes").unwrap();
    assert_eq!(store.len(), 1);
    let second = store.put(b"same bytes").unwrap();
    assert_eq!(first, second);
    assert_eq!(store.len(), 1);
    store.put(b"other bytes").unwrap();
    assert_eq!(store.len(), 2);
    let count = (0..store.len()).filter(|&i| store.digest_at(i) == first).count();
    assert_eq!(count, 1);
}

#[test]
fn stored_payload_is_a_zlib_stream_of_the_content() {
    let mut store = ObjectStore::new();
    let content = b"compress me, compress me, compress me, compress me".to_vec();
    let d = store.put(&content).unwrap();
    assert_eq!(store.digest_at(0), d);
    let payload = store.payload_at(0).clone();
    assert_ne!(payload, content);
    assert_eq!(inflate(&payload), content);
}

#[test]
fn contains_tells_what_is_stored() {
    let mut store = ObjectStore::new();
    let d = Digest::of(b"x");
    assert!(!store.contains(&d));
    store.put(b"x").unwrap();
    assert!(store.contains(&d));
    assert!(!store.contains(&Digest::of(b"y")));
}

#[test]
fn get_of_an_unknown_digest_is_object_not_found() {
    let mut store = ObjectStore::new();
    assert_eq!(store.get(&Digest::of(b"nothing")), Err(StoreError::ObjectNotFound));
    store.put(b"something").unwrap();
    assert_eq!(store.get(&Digest::of(b"nothing")), Err(StoreError::ObjectNotFound));
}

#[test]
fn restore_takes_in_an_intact_file() {
    let mut first = ObjectStore::new();
    let d = first.put(b"persisted content").unwrap();
    let payload = first.payload_at(0).clone();

    let mut second = ObjectStore::new();
    assert_eq!(second.restore(d, payload.clone()), Ok(true));
    assert_eq!(second.get(&d).unwrap(), b"persisted content");
    assert_eq!(second.restore(d, payload), Ok(false));
    assert_eq!(second.len(), 1);
}

#[test]
fn restore_refuses_a_file_that_is_not_intact() {
    let mut first = ObjectStore::new();
    let d = first.put(b"persisted content").unwrap();
    let payload = first.payload_at(0).clone();

    let mut store = ObjectStore::new();
    assert_eq!(store.restore(d, b"not a zlib stream".to_vec()), Err(StoreError::StorageIoError));
    assert_eq!(store.restore(Digest::of(b"other"), payload.clone()), Err(StoreError::StorageIoError));
    assert_eq!(store.restore(d, payload[..payload.len() - 3].to_vec()), Err(StoreError::StorageIoError));
    assert_eq!(store.restore(d, Vec::new()), Err(StoreError::StorageIoError));
    assert_eq!(store.len(), 0);
    assert!(!store.contains(&d));
}

#[test]
fn put_encoded_checks_the_stream_it_is_given() {
    let mut donor = ObjectStore::new();
    donor.put(b"abc").unwrap();
    let stream = donor.payload_at(0).clone();

    let mut store = ObjectStore::new();
    assert_eq!(store.put_encoded(b"abc", None), Err(StoreError::StorageIoError));
    assert_eq!(store.put_encoded(b"abd", Some(stream.clone())), Err(StoreError::StorageIoError));
    assert_eq!(store.put_encoded(b"abc", Some(b"junk".to_vec())), Err(StoreError::StorageIoError));
    assert_eq!(store.len(), 0);
    assert_eq!(store.put_encoded(b"abc", Some(stream)), Ok(Digest::of(b"abc")));
    assert_eq!(store.get(&Digest::of(b"abc")).unwrap(), b"abc");
}

#[test]
fn objects_keep_their_place() {
    let mut store = ObjectStore::new();
    let a = store.put(b"a").unwrap();
    let b = store.put(b"b").unwrap();
    store.put(b"a").unwrap();
    let c = store.put(b"c").unwrap();
    assert_eq!(store.digest_at(0), a);
    assert_eq!(store.digest_at(1), b);
    assert_eq!(store.digest_at(2), c);
}

#[test]
fn objects_are_sharded_by_the_first_two_characters() {
    let d = Digest::of(b"hello");
    let (shard, file) = rgit::object_store::object_path(&d);
    assert_eq!(shard, "aa");
    assert_eq!(file, "f4c61ddcc5e8a2dabede0f3b482cd9aea9434d");
    assert_eq!(rgit::object_store::digest_of_path(shard.as_bytes(), file.as_bytes()), Some(d));
}

#[test]
fn names_that_are_no_object_path() {
    let file = b"f4c61ddcc5e8a2dabede0f3b482cd9aea9434d";
    assert_eq!(rgit::object_store::digest_of_path(b"info", b"exclude"), None);
    assert_eq!(rgit::object_store::digest_of_path(b"a", file), None);
    assert_eq!(rgit::object_store::digest_of_path(b"aaf", &file[1..]), None);
    assert_eq!(rgit::object_store::digest_of_path(b"aa", &file[1..]), None);
    assert_eq!(rgit::object_store::digest_of_path(b"AA", file), None);
    assert_eq!(rgit::object_store::digest_of_path(b"aa", b"f4c61ddcc5e8a2dabede0f3b482cd9aea9434d.tmp"), None);
}
