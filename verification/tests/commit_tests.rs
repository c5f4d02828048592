use rgit::commit::{Commit, CommitBuilder, Identity};
use rgit::digest::Digest;
use rgit::error::StoreError;
use rgit::index::{EntryKind, StagingIndex};
use rgit::object_store::ObjectStore;
use rgit::repository::{
    self, commit, commit_clocked, commit_now, names_component, refused, status_of, Added,
    FileStatus, Found,
};

const H1: &str = "aaf4c61ddcc5e8a2dabede0f3b482cd9aea9434d";
const H2: &str = "641e85b264a2499875422ed3b35b232a3cc710ab";
const SRC_TREE: &str = "91e21abbdbd4b7d588a01219b350f879420ee45d";
const ROOT_TREE: &str = "6ad2a01b5332fdb2d97861f694aa7940f0bfb071";
const COMMIT: &str = "8efc2267be00a232a0ebcd698dbd9f22c210846a";
const WHEN: &[u8] = b"2024-01-02T03:04:05+00:00";

fn ada() -> Identity {
    Identity { author: b"Ada".to_vec(), email: b"ada@example.org".to_vec() }
}

fn sample(parent: Option<Digest>, message: &[u8]) -> Commit {
    Commit {
        tree: Digest::from_hex(ROOT_TREE.as_bytes()).unwrap(),
        parent,
        author: b"Ada".to_vec(),
        email: b"ada@example.org".to_vec(),
        timestamp: WHEN.to_vec(),
        message: message.to_vec(),
    }
}

fn stage(store: &mut ObjectStore, index: &mut StagingIndex, path: &str, content: &[u8]) -> Digest {
    match repository::add(store, index, b".rgit", path.as_bytes(), &Found::File(content.to_vec())) {
        Ok(Added::Staged(d)) => d,
        other => panic!("not staged: {:?}", other),
    }
}

#[test]
fn commit_text_without_a_parent() {
    let expected = format!(
        "tree {}\nauthor Ada <ada@example.org>\ndate 2024-01-02T03:04:05+00:00\n\ninit\n",
        ROOT_TREE
    );
    assert_eq!(sample(None, b"init").serialize(), expected.into_bytes());
}

#[test]
fn commit_text_with_a_parent() {
    let parent = Digest::of(b"parent");
    let expected = format!(
        "tree {}\nparent {}\nauthor Ada <ada@example.org>\ndate 2024-01-02T03:04:05+00:00\n\nsecond\nline\n",
        ROOT_TREE,
        parent.to_hex()
    );
    assert_eq!(sample(Some(parent), b"second\nline").serialize(), expected.into_bytes());
}

#[test]
fn read_header_gives_tree_and_parent() {
    let parent = Digest::of(b"parent");
    let tree = Digest::from_hex(ROOT_TREE.as_bytes()).unwrap();
    assert_eq!(Commit::read_header(&sample(None, b"m").serialize()), Some((tree, None)));
    assert_eq!(Commit::read_header(&sample(Some(parent), b"m").serialize()), Some((tree, Some(parent))));
    let only_tree = format!("tree {}\n", ROOT_TREE).into_bytes();
    assert_eq!(Commit::read_header(&only_tree), Some((tree, None)));
}

#[test]
fn read_header_refuses_what_is_no_commit() {
    let text = sample(Some(Digest::of(b"p")), b"m").serialize();
    assert_eq!(Commit::read_header(b""), None);
    assert_eq!(Commit::read_header(b"hello"), None);
    assert_eq!(Commit::read_header(&text[..45]), None);
    assert_eq!(Commit::read_header(&text[1..]), None);
    assert_eq!(Commit::read_header(&text[..60]), None);
    let mut upper = text.clone();
    upper[10] = b'G';
    assert_eq!(Commit::read_header(&upper), None);
    let mut bad_parent = text.clone();
    bad_parent[60] = b'x';
    assert_eq!(Commit::read_header(&bad_parent), None);
    let blob = format!("100644 file {}\tREADME\n", H1).into_bytes();
    assert_eq!(Commit::read_header(&blob), None);
}

#[test]
fn commit_builder_stores_the_text() {
    let mut store = ObjectStore::new();
    let c = sample(None, b"init");
    let d = CommitBuilder::commit(&mut store, &c).unwrap();
    assert_eq!(d.to_hex(), COMMIT);
    assert_eq!(store.get(&d).unwrap(), c.serialize());
}

#[test]
fn commit_builder_refuses_an_empty_message() {
    let mut store = ObjectStore::new();
    assert_eq!(CommitBuilder::commit(&mut store, &sample(None, b"")), Err(StoreError::EmptyMessage));
    assert_eq!(store.len(), 0);
}

#[test]
fn commit_with_nothing_staged_is_refused() {
    let mut store = ObjectStore::new();
    let mut index = StagingIndex::new();
    assert_eq!(commit(&mut store, &mut index, b"", None, &ada(), b"init", WHEN), Err(StoreError::NothingStaged));
    assert_eq!(commit(&mut store, &mut index, b"", None, &ada(), b"", WHEN), Err(StoreError::NothingStaged));
    assert_eq!(commit_now(&mut store, &mut index, b"", None, &ada(), b"init"), Err(StoreError::NothingStaged));
    assert_eq!(store.len(), 0);
}

#[test]
fn commit_with_an_empty_message_is_refused() {
    let mut store = ObjectStore::new();
    let mut index = StagingIndex::new();
    stage(&mut store, &mut index, "README", b"hello");
    assert_eq!(commit(&mut store, &mut index, b"", None, &ada(), b"", WHEN), Err(StoreError::EmptyMessage));
    assert_eq!(store.len(), 1);
    assert_eq!(index.len(), 1);
}

#[test]
fn commit_of_a_stale_index_is_refused() {
    let mut store = ObjectStore::new();
    let mut index = StagingIndex::new();
    index.record(b"gone", Digest::of(b"never put"), EntryKind::File).unwrap();
    assert_eq!(commit(&mut store, &mut index, b"", None, &ada(), b"m", WHEN), Err(StoreError::StaleStagingEntry));
    assert_eq!(store.len(), 0);
    assert_eq!(index.len(), 1);
}

#[test]
fn end_to_end() {
    let mut store = ObjectStore::new();
    let mut index = StagingIndex::new();
    assert_eq!(stage(&mut store, &mut index, "README", b"hello").to_hex(), H1);
    assert_eq!(stage(&mut store, &mut index, "src/main", b"fn main(){}").to_hex(), H2);

    let d = commit(&mut store, &mut index, b"", None, &ada(), b"init", WHEN).unwrap();
    assert_eq!(d.to_hex(), COMMIT);

    let text = store.get(&d).unwrap();
    let root = Digest::from_hex(ROOT_TREE.as_bytes()).unwrap();
    assert_eq!(Commit::read_header(&text), Some((root, None)));
    assert_eq!(text, sample(None, b"init").serialize());

    let root_text = format!("100644 file {}\tREADME\n040000 tree {}\tsrc\n", H1, SRC_TREE);
    assert_eq!(store.get(&root).unwrap(), root_text.into_bytes());
    let src = Digest::from_hex(SRC_TREE.as_bytes()).unwrap();
    assert_eq!(store.get(&src).unwrap(), format!("100644 file {}\tmain\n", H2).into_bytes());

    assert!(index.is_empty());
    assert_eq!(index.persist(), b"");
    // two blobs, two trees, one commit
    assert_eq!(store.len(), 5);
}

#[test]
fn second_commit_names_the_first_as_its_parent() {
    let mut store = ObjectStore::new();
    let mut index = StagingIndex::new();
    stage(&mut store, &mut index, "README", b"hello");
    let first = commit(&mut store, &mut index, b"", None, &ada(), b"one", WHEN).unwrap();
    stage(&mut store, &mut index, "README", b"hello again");
    let second = commit(&mut store, &mut index, b"", Some(first), &ada(), b"two", WHEN).unwrap();
    assert_ne!(first, second);
    let (_, parent) = Commit::read_header(&store.get(&second).unwrap()).unwrap();
    assert_eq!(parent, Some(first));
    let (_, none) = Commit::read_header(&store.get(&first).unwrap()).unwrap();
    assert_eq!(none, None);
}

#[test]
fn commit_now_takes_the_time_from_the_clock() {
    let mut store = ObjectStore::new();
    let mut index = StagingIndex::new();
    stage(&mut store, &mut index, "README", b"hello");
    let d = commit_now(&mut store, &mut index, b"", None, &ada(), b"init").unwrap();
    let text = String::from_utf8(store.get(&d).unwrap()).unwrap();
    let date = text.lines().find(|l| l.starts_with("date ")).unwrap();
    let stamp = &date[5..];
    assert!(chrono::DateTime::parse_from_rfc3339(stamp).is_ok());
    assert!(stamp.starts_with("20"));
    assert_eq!(text.lines().count(), 5);
    assert!(text.ends_with("\n\ninit\n"));
    assert!(index.is_empty());
}

#[test]
fn add_passes_over_what_is_missing_or_the_repository_s_own() {
    let mut store = ObjectStore::new();
    let mut index = StagingIndex::new();
    assert_eq!(repository::add(&mut store, &mut index, b".rgit", b"nowhere", &Found::Missing), Ok(Added::Skipped));
    assert_eq!(repository::add(&mut store, &mut index, b".rgit", b".rgit/index", &Found::File(b"x".to_vec())), Ok(Added::Skipped));
    assert_eq!(repository::add(&mut store, &mut index, b".rgit", b"/w/.rgit", &Found::Directory), Ok(Added::Skipped));
    assert_eq!(repository::add(&mut store, &mut index, b".rgit", b"a/.rgit/b", &Found::File(b"x".to_vec())), Ok(Added::Skipped));
    assert!(index.is_empty());
    assert_eq!(store.len(), 0);
}

#[test]
fn add_stages_a_file() {
    let mut store = ObjectStore::new();
    let mut index = StagingIndex::new();
    let d = stage(&mut store, &mut index, "a.rgit", b"content");
    assert_eq!(d, Digest::of(b"content"));
    assert_eq!(store.get(&d).unwrap(), b"content");
    assert_eq!(index.len(), 1);
    assert_eq!(index.entry(0).path, b"a.rgit");
    assert_eq!(index.entry(0).digest, d);
    assert_eq!(index.entry(0).kind, EntryKind::File);
}

#[test]
fn add_records_nothing_for_a_directory() {
    let mut store = ObjectStore::new();
    let mut index = StagingIndex::new();
    stage(&mut store, &mut index, "src/main", b"fn main(){}");
    let persisted = index.persist();
    assert_eq!(repository::add(&mut store, &mut index, b".rgit", b"src", &Found::Directory), Ok(Added::Descend));
    assert_eq!(repository::add(&mut store, &mut index, b".rgit", b"src/", &Found::Directory), Ok(Added::Descend));
    assert_eq!(repository::add(&mut store, &mut index, b".rgit", b".", &Found::Directory), Ok(Added::Descend));
    assert_eq!(repository::add(&mut store, &mut index, b".rgit", b"", &Found::Directory), Ok(Added::Descend));
    assert_eq!(index.len(), 1);
    assert_eq!(index.persist(), persisted);
    assert_eq!(store.len(), 1);
}

#[test]
fn a_directory_shows_in_the_snapshot_through_its_files() {
    let mut store = ObjectStore::new();
    let mut index = StagingIndex::new();
    assert_eq!(repository::add(&mut store, &mut index, b".rgit", b"src", &Found::Directory), Ok(Added::Descend));
    stage(&mut store, &mut index, "src/main", b"fn main(){}");
    stage(&mut store, &mut index, "README", b"hello");
    let d = commit(&mut store, &mut index, b"", None, &ada(), b"init", WHEN).unwrap();
    assert_eq!(d.to_hex(), COMMIT);
}

#[test]
fn add_refuses_a_file_path_that_cannot_be_persisted() {
    let mut store = ObjectStore::new();
    let mut index = StagingIndex::new();
    assert_eq!(repository::add(&mut store, &mut index, b".rgit", b"bad\npath", &Found::File(b"x".to_vec())), Err(StoreError::IndexCorrupt));
    assert_eq!(repository::add(&mut store, &mut index, b".rgit", b"file/", &Found::File(b"x".to_vec())), Err(StoreError::IndexCorrupt));
    assert_eq!(repository::add(&mut store, &mut index, b".rgit", b"", &Found::File(b"x".to_vec())), Err(StoreError::IndexCorrupt));
    assert_eq!(store.len(), 0);
    assert!(index.is_empty());
}

#[test]
fn refused_tells_why_a_commit_would_fail() {
    let mut store = ObjectStore::new();
    let mut index = StagingIndex::new();
    assert_eq!(refused(&store, &index, b"", b"m"), Some(StoreError::NothingStaged));
    assert_eq!(refused(&store, &index, b"", b""), Some(StoreError::NothingStaged));
    stage(&mut store, &mut index, "README", b"hello");
    assert_eq!(refused(&store, &index, b"", b""), Some(StoreError::EmptyMessage));
    assert_eq!(refused(&store, &index, b"", b"m"), None);
    assert_eq!(refused(&store, &index, b"elsewhere", b"m"), Some(StoreError::StaleStagingEntry));
    index.record(b"gone", Digest::of(b"never put"), EntryKind::File).unwrap();
    assert_eq!(refused(&store, &index, b"", b"m"), Some(StoreError::StaleStagingEntry));
    assert_eq!(refused(&store, &index, b"", b""), Some(StoreError::EmptyMessage));
}

#[test]
fn commit_clocked_takes_the_time_from_the_reading() {
    let mut store = ObjectStore::new();
    let mut index = StagingIndex::new();
    stage(&mut store, &mut index, "README", b"hello");
    stage(&mut store, &mut index, "src/main", b"fn main(){}");
    let d = commit_clocked(&mut store, &mut index, b"", None, &ada(), b"init", Some(WHEN.to_vec())).unwrap();
    assert_eq!(d.to_hex(), COMMIT);
    assert_eq!(store.get(&d).unwrap(), sample(None, b"init").serialize());
    assert!(index.is_empty());
}

#[test]
fn commit_clocked_fails_when_the_clock_could_not_be_read() {
    let mut store = ObjectStore::new();
    let mut index = StagingIndex::new();
    assert_eq!(commit_clocked(&mut store, &mut index, b"", None, &ada(), b"init", None), Err(StoreError::NothingStaged));
    stage(&mut store, &mut index, "README", b"hello");
    assert_eq!(commit_clocked(&mut store, &mut index, b"", None, &ada(), b"", None), Err(StoreError::EmptyMessage));
    assert_eq!(commit_clocked(&mut store, &mut index, b"", None, &ada(), b"init", None), Err(StoreError::StorageIoError));
    assert_eq!(store.len(), 1);
    assert_eq!(index.len(), 1);
}

#[test]
fn what_a_commit_wrote_is_read_back() {
    let mut store = ObjectStore::new();
    let mut index = StagingIndex::new();
    let d = Digest::of(b"hello");
    stage(&mut store, &mut index, "x/f", b"hello");
    stage(&mut store, &mut index, "y/f", b"hello");
    let c = commit(&mut store, &mut index, b"", None, &ada(), b"twins", WHEN).unwrap();
    let (root, parent) = Commit::read_header(&store.get(&c).unwrap()).unwrap();
    assert_eq!(parent, None);
    let inner = format!("100644 file {}\tf\n", d.to_hex()).into_bytes();
    let twin = Digest::of(&inner);
    assert_eq!(store.get(&twin).unwrap(), inner);
    let listing = format!("040000 tree {}\tx\n040000 tree {}\ty\n", twin.to_hex(), twin.to_hex());
    assert_eq!(store.get(&root).unwrap(), listing.into_bytes());
    // one blob, one tree for both directories, the root tree, the commit
    assert_eq!(store.len(), 4);
}

#[test]
fn components_of_a_path() {
    assert!(names_component(b".rgit", b".rgit"));
    assert!(names_component(b".rgit/objects", b".rgit"));
    assert!(names_component(b"/home/u/.rgit", b".rgit"));
    assert!(names_component(b"a/.rgit/b", b".rgit"));
    assert!(!names_component(b"a.rgit", b".rgit"));
    assert!(!names_component(b".rgitx/a", b".rgit"));
    assert!(!names_component(b"x/.rgi", b".rgit"));
    assert!(!names_component(b"", b".rgit"));
}

#[test]
fn status_of_a_file() {
    let mut store = ObjectStore::new();
    let mut index = StagingIndex::new();
    assert_eq!(status_of(&store, &index, b"a", b"content"), FileStatus::Untracked);
    index.record(b"a", Digest::of(b"older content"), EntryKind::File).unwrap();
    assert_eq!(status_of(&store, &index, b"a", b"content"), FileStatus::Uncommitted);
    assert_eq!(status_of(&store, &index, b"b", b"content"), FileStatus::Untracked);
    store.put(b"content").unwrap();
    assert_eq!(status_of(&store, &index, b"a", b"content"), FileStatus::Stored);
    assert_eq!(status_of(&store, &index, b"b", b"content"), FileStatus::Stored);
}
