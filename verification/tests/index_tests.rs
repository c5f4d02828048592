use rgit::digest::Digest;
use rgit::error::StoreError;
use rgit::index::{is_valid_path, EntryKind, StagingEntry, StagingIndex};

const H1: &str = "aaf4c61ddcc5e8a2dabede0f3b482cd9aea9434d";
const H2: &str = "641e85b264a2499875422ed3b35b232a3cc710ab";

fn line(hex: &str, path: &str) -> Vec<u8> {
    format!("{} {}\n", hex, path).into_bytes()
}

#[test]
fn new_index_is_empty() {
    let index = StagingIndex::new();
    assert!(index.is_empty());
    assert_eq!(index.len(), 0);
    assert_eq!(index.persist(), b"");
}

#[test]
fn load_of_an_empty_form_is_an_empty_index() {
    let index = StagingIndex::load(Some(b"")).unwrap();
    assert!(index.is_empty());
}

#[test]
fn load_of_an_absent_form_is_an_empty_index() {
    let index = StagingIndex::load(None).unwrap();
    assert!(index.is_empty());
    assert_eq!(index.persist(), b"");
}

#[test]
fn record_adds_an_entry() {
    let mut index = StagingIndex::new();
    assert_eq!(index.record(b"README", Digest::of(b"hello"), EntryKind::File), Ok(()));
    assert_eq!(index.len(), 1);
    assert_eq!(index.entry(0).path, b"README");
    assert_eq!(index.entry(0).digest, Digest::of(b"hello"));
    assert_eq!(index.entry(0).kind, EntryKind::File);
    assert_eq!(index.position(b"README"), Some(0));
    assert_eq!(index.position(b"readme"), None);
}

#[test]
fn record_of_a_staged_path_supersedes_the_entry() {
    let mut index = StagingIndex::new();
    index.record(b"a", Digest::of(b"1"), EntryKind::File).unwrap();
    index.record(b"b", Digest::of(b"2"), EntryKind::File).unwrap();
    index.record(b"a", Digest::of(b"3"), EntryKind::File).unwrap();
    assert_eq!(index.len(), 2);
    assert_eq!(index.entry(0).path, b"a");
    assert_eq!(index.entry(0).digest, Digest::of(b"3"));
    assert_eq!(index.entry(1).path, b"b");
    assert_eq!(index.entry(1).digest, Digest::of(b"2"));
    index.record(b"a", Digest::of(b"3"), EntryKind::File).unwrap();
    assert_eq!(index.len(), 2);
}

#[test]
fn record_refuses_a_path_that_cannot_be_persisted() {
    let mut index = StagingIndex::new();
    index.record(b"kept", Digest::of(b"1"), EntryKind::File).unwrap();
    let d = Digest::of(b"x");
    assert_eq!(index.record(b"", d, EntryKind::File), Err(StoreError::IndexCorrupt));
    assert_eq!(index.record(b"two\nlines", d, EntryKind::File), Err(StoreError::IndexCorrupt));
    assert_eq!(index.record(b"dir/", d, EntryKind::Directory), Err(StoreError::IndexCorrupt));
    assert_eq!(index.len(), 1);
    assert_eq!(index.persist(), line("356a192b7913b04c54574d18c28d46e6395428ab", "kept"));
}

#[test]
fn valid_paths() {
    assert!(is_valid_path(b"a"));
    assert!(is_valid_path(b"/abs/olute"));
    assert!(is_valid_path(b"with space"));
    assert!(!is_valid_path(b""));
    assert!(!is_valid_path(b"/"));
    assert!(!is_valid_path(b"a\n"));
    assert!(!is_valid_path(b"\na"));
}

#[test]
fn persist_writes_one_line_for_each_entry() {
    let mut index = StagingIndex::new();
    index.record(b"README", Digest::of(b"hello"), EntryKind::File).unwrap();
    index.record(b"src/main", Digest::of(b"fn main(){}"), EntryKind::File).unwrap();
    let mut expected = line(H1, "README");
    expected.extend(line(H2, "src/main"));
    assert_eq!(index.persist(), expected);
}

#[test]
fn a_directory_is_persisted_with_a_separator_after_its_path() {
    let mut index = StagingIndex::new();
    index.record(b"empty", Digest::of(b"empty"), EntryKind::Directory).unwrap();
    let bytes = index.persist();
    assert_eq!(bytes, line(&Digest::of(b"empty").to_hex(), "empty/"));
    let back = StagingIndex::load(Some(&bytes)).unwrap();
    assert_eq!(back.entry(0).path, b"empty");
    assert_eq!(back.entry(0).kind, EntryKind::Directory);
}

#[test]
fn load_gives_back_what_was_persisted() {
    let mut index = StagingIndex::new();
    index.record(b"z last in name, first in order", Digest::of(b"1"), EntryKind::File).unwrap();
    index.record(b"dir", Digest::of(b"dir"), EntryKind::Directory).unwrap();
    index.record(b"dir/file", Digest::of(b""), EntryKind::File).unwrap();
    let back = StagingIndex::load(Some(&index.persist())).unwrap();
    assert_eq!(back.len(), index.len());
    for i in 0..index.len() {
        assert_eq!(back.entry(i).path, index.entry(i).path);
        assert_eq!(back.entry(i).digest, index.entry(i).digest);
        assert_eq!(back.entry(i).kind, index.entry(i).kind);
    }
}

#[test]
fn persist_after_load_gives_back_the_bytes() {
    let mut bytes = line(H2, "src/main");
    bytes.extend(line(H1, "README"));
    bytes.extend(line(H1, "docs/"));
    bytes.extend(line(H1, "a b  c"));
    let index = StagingIndex::load(Some(&bytes)).unwrap();
    assert_eq!(index.len(), 4);
    assert_eq!(index.persist(), bytes);
}

#[test]
fn load_refuses_what_is_no_persisted_form() {
    let good = line(H1, "README");
    let corrupt: Vec<Vec<u8>> = vec![
        b"\n".to_vec(),
        b"garbage".to_vec(),
        good[..good.len() - 1].to_vec(),
        format!("{} README\n", &H1[..39]).into_bytes(),
        format!("{}  README\n", H1).into_bytes()[..].iter().map(|b| if *b == b' ' { b'\t' } else { *b }).collect(),
        format!("{} \n", H1).into_bytes(),
        format!("{}\n", H1).into_bytes(),
        format!("{} /\n", H1).into_bytes(),
        format!("{} dir//\n", H1).into_bytes(),
        format!("{} README\n", H1.to_uppercase()).into_bytes(),
        format!("README {}\n", H1).into_bytes(),
        [good.clone(), good.clone()].concat(),
        [good.clone(), b"\n".to_vec()].concat(),
        [good.clone(), line(H2, "README/")].concat(),
    ];
    for bytes in &corrupt {
        assert!(matches!(StagingIndex::load(Some(bytes)), Err(StoreError::IndexCorrupt)));
        assert!(matches!(StagingIndex::parse(bytes), Err(StoreError::IndexCorrupt)));
    }
}

#[test]
fn clear_empties_the_index() {
    let mut index = StagingIndex::new();
    index.record(b"a", Digest::of(b"1"), EntryKind::File).unwrap();
    index.clear();
    assert!(index.is_empty());
    assert_eq!(index.persist(), b"");
}

#[test]
fn parse_line_reads_back_a_line() {
    let entry = StagingEntry { path: b"src/lib".to_vec(), digest: Digest::of(b"x"), kind: EntryKind::File };
    let body = entry.line();
    assert_eq!(body, format!("{} src/lib", Digest::of(b"x").to_hex()).into_bytes());
    let back = StagingEntry::parse_line(&body).unwrap();
    assert_eq!(back.path, entry.path);
    assert_eq!(back.digest, entry.digest);
    assert_eq!(back.kind, entry.kind);
    assert!(StagingEntry::parse_line(b"").is_none());
    assert!(StagingEntry::parse_line(&body[..41]).is_none());
}
