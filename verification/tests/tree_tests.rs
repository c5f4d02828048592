use rgit::builder::TreeBuilder;
use rgit::digest::Digest;
use rgit::error::StoreError;
use rgit::index::{EntryKind, StagingIndex};
use rgit::object_store::ObjectStore;
use rgit::tree::{Tree, TreeEntry};

const H1: &str = "aaf4c61ddcc5e8a2dabede0f3b482cd9aea9434d";
const H2: &str = "641e85b264a2499875422ed3b35b232a3cc710ab";
const SRC_TREE: &str = "91e21abbdbd4b7d588a01219b350f879420ee45d";
const ROOT_TREE: &str = "6ad2a01b5332fdb2d97861f694aa7940f0bfb071";
const EMPTY: &str = "da39a3ee5e6b4b0d3255bfef95601890afd80709";

fn file(name: &str, content: &[u8]) -> TreeEntry {
    TreeEntry { kind: EntryKind::File, name: name.as_bytes().to_vec(), digest: Digest::of(content) }
}

fn stage(store: &mut ObjectStore, index: &mut StagingIndex, path: &str, content: &[u8]) {
    let d = store.put(content).unwrap();
    index.record(path.as_bytes(), d, EntryKind::File).unwrap();
}

#[test]
fn tree_lists_its_entries_by_name() {
    let mut tree = Tree::new();
    assert!(tree.insert(file("src", b"1")));
    assert!(tree.insert(file("README", b"2")));
    assert!(tree.insert(file("a.txt", b"3")));
    assert!(tree.insert(file("Makefile", b"4")));
    let names: Vec<Vec<u8>> = (0..tree.len()).map(|i| tree.entry(i).name.clone()).collect();
    assert_eq!(names, vec![b"Makefile".to_vec(), b"README".to_vec(), b"a.txt".to_vec(), b"src".to_vec()]);
}

#[test]
fn tree_holds_each_name_once() {
    let mut tree = Tree::new();
    assert!(tree.insert(file("a", b"1")));
    assert!(!tree.insert(file("a", b"2")));
    assert_eq!(tree.len(), 1);
    assert_eq!(tree.entry(0).digest, Digest::of(b"1"));
    assert!(tree.has(b"a"));
    assert!(!tree.has(b"b"));
    assert!(!tree.has(b""));
}

#[test]
fn tree_serializes_one_line_for_each_entry() {
    let mut tree = Tree::new();
    tree.insert(TreeEntry { kind: EntryKind::Directory, name: b"src".to_vec(), digest: Digest::from_hex(SRC_TREE.as_bytes()).unwrap() });
    tree.insert(file("README", b"hello"));
    let expected = format!("100644 file {}\tREADME\n040000 tree {}\tsrc\n", H1, SRC_TREE);
    assert_eq!(tree.serialize(), expected.into_bytes());
    assert_eq!(Tree::new().serialize(), b"");
    assert_eq!(file("main", b"fn main(){}").line(), format!("100644 file {}\tmain\n", H2).into_bytes());
}

#[test]
fn serialized_form_does_not_depend_on_the_order_of_insertion() {
    let names = ["b", "a", "c", "ab", "B"];
    let mut one = Tree::new();
    for n in names.iter() {
        one.insert(file(n, n.as_bytes()));
    }
    let mut other = Tree::new();
    for n in names.iter().rev() {
        other.insert(file(n, n.as_bytes()));
    }
    assert_eq!(one.serialize(), other.serialize());
}

#[test]
fn build_stores_a_tree_for_each_directory() {
    let mut store = ObjectStore::new();
    let mut index = StagingIndex::new();
    stage(&mut store, &mut index, "README", b"hello");
    stage(&mut store, &mut index, "src/main", b"fn main(){}");
    let root = TreeBuilder::build(&mut store, b"", &index).unwrap();
    assert_eq!(root.to_hex(), ROOT_TREE);
    let root_text = format!("100644 file {}\tREADME\n040000 tree {}\tsrc\n", H1, SRC_TREE);
    assert_eq!(store.get(&root).unwrap(), root_text.into_bytes());
    let src = Digest::from_hex(SRC_TREE.as_bytes()).unwrap();
    assert_eq!(store.get(&src).unwrap(), format!("100644 file {}\tmain\n", H2).into_bytes());
    assert_eq!(store.len(), 4);
}

#[test]
fn build_does_not_depend_on_the_order_of_recording() {
    let entries: Vec<(&str, &[u8])> = vec![("a.txt", b"one"), ("b/c.txt", b"two"), ("b/d/e", b"three"), ("z", b"four")];
    let mut digests = Vec::new();
    for rotation in 0..entries.len() {
        let mut store = ObjectStore::new();
        let mut index = StagingIndex::new();
        for k in 0..entries.len() {
            let (path, content) = entries[(k + rotation) % entries.len()];
            stage(&mut store, &mut index, path, content);
        }
        digests.push(TreeBuilder::build(&mut store, b"", &index).unwrap());
    }
    for d in &digests {
        assert_eq!(*d, digests[0]);
    }
    let mut store = ObjectStore::new();
    let mut index = StagingIndex::new();
    stage(&mut store, &mut index, "b/c.txt", b"two");
    stage(&mut store, &mut index, "a.txt", b"one");
    let one = TreeBuilder::build(&mut store, b"", &index).unwrap();
    let mut index = StagingIndex::new();
    stage(&mut store, &mut index, "a.txt", b"one");
    stage(&mut store, &mut index, "b/c.txt", b"two");
    assert_eq!(TreeBuilder::build(&mut store, b"", &index).unwrap(), one);
}

#[test]
fn build_with_nothing_staged_stores_an_empty_tree() {
    let mut store = ObjectStore::new();
    let index = StagingIndex::new();
    let root = TreeBuilder::build(&mut store, b"", &index).unwrap();
    assert_eq!(root.to_hex(), EMPTY);
    assert_eq!(store.get(&root).unwrap(), b"");
}

#[test]
fn a_staged_directory_is_held_even_when_empty() {
    let mut store = ObjectStore::new();
    let mut index = StagingIndex::new();
    stage(&mut store, &mut index, "README", b"hello");
    index.record(b"empty", Digest::of(b"empty"), EntryKind::Directory).unwrap();
    let root = TreeBuilder::build(&mut store, b"", &index).unwrap();
    let expected = format!("100644 file {}\tREADME\n040000 tree {}\tempty\n", H1, EMPTY);
    assert_eq!(store.get(&root).unwrap(), expected.into_bytes());
    assert_eq!(store.get(&Digest::from_hex(EMPTY.as_bytes()).unwrap()).unwrap(), b"");
}

#[test]
fn build_below_a_root_directory() {
    let mut store = ObjectStore::new();
    let mut index = StagingIndex::new();
    stage(&mut store, &mut index, "/work/README", b"hello");
    stage(&mut store, &mut index, "/work/src/main", b"fn main(){}");
    assert_eq!(TreeBuilder::build(&mut store, b"/work", &index).unwrap().to_hex(), ROOT_TREE);
    assert_eq!(TreeBuilder::build(&mut store, b"/work/", &index).unwrap().to_hex(), ROOT_TREE);
    assert_eq!(TreeBuilder::prefix_of(b"/work"), b"/work/");
    assert_eq!(TreeBuilder::prefix_of(b"/work/"), b"/work/");
    assert_eq!(TreeBuilder::prefix_of(b""), b"");
    assert_eq!(TreeBuilder::prefix_of(b"/"), b"/");
}

#[test]
fn build_fails_when_staged_content_is_not_stored() {
    let mut store = ObjectStore::new();
    let mut index = StagingIndex::new();
    stage(&mut store, &mut index, "kept", b"kept");
    index.record(b"gone", Digest::of(b"never put"), EntryKind::File).unwrap();
    let before = store.len();
    assert_eq!(TreeBuilder::build(&mut store, b"", &index), Err(StoreError::StaleStagingEntry));
    assert_eq!(store.len(), before);
}

#[test]
fn build_fails_when_a_file_stands_where_a_directory_is_needed() {
    let mut store = ObjectStore::new();
    let mut index = StagingIndex::new();
    stage(&mut store, &mut index, "src", b"once a file");
    stage(&mut store, &mut index, "src/main", b"fn main(){}");
    let before = store.len();
    assert_eq!(TreeBuilder::build(&mut store, b"", &index), Err(StoreError::StaleStagingEntry));
    assert_eq!(store.len(), before);
}

#[test]
fn build_fails_when_a_path_lies_outside_the_root() {
    let mut store = ObjectStore::new();
    let mut index = StagingIndex::new();
    stage(&mut store, &mut index, "/work/a", b"a");
    stage(&mut store, &mut index, "/elsewhere/b", b"b");
    let before = store.len();
    assert_eq!(TreeBuilder::build(&mut store, b"/work", &index), Err(StoreError::StaleStagingEntry));
    assert_eq!(store.len(), before);
    assert!(TreeBuilder::build(&mut store, b"", &index).is_ok());
}

#[test]
fn is_stale_tells_whether_a_build_would_be_refused() {
    let mut store = ObjectStore::new();
    let mut index = StagingIndex::new();
    assert!(!TreeBuilder::is_stale(&store, b"", &index));
    stage(&mut store, &mut index, "/work/a", b"a");
    assert!(!TreeBuilder::is_stale(&store, b"/work", &index));
    assert!(TreeBuilder::is_stale(&store, b"/other", &index));
    stage(&mut store, &mut index, "/work/a/b", b"b");
    assert!(TreeBuilder::is_stale(&store, b"/work", &index));
}

#[test]
fn a_single_file_gives_a_tree_of_one_line() {
    let mut store = ObjectStore::new();
    let mut index = StagingIndex::new();
    stage(&mut store, &mut index, "a.txt", b"hello");
    let root = TreeBuilder::build(&mut store, b"", &index).unwrap();
    let line = b"100644 file aaf4c61ddcc5e8a2dabede0f3b482cd9aea9434d\ta.txt\n";
    assert_eq!(store.get(&root).unwrap(), line);
    assert_eq!(root, Digest::of(line));
}

#[test]
fn identical_directories_share_one_tree_object() {
    let mut store = ObjectStore::new();
    let mut index = StagingIndex::new();
    stage(&mut store, &mut index, "one/file", b"same");
    stage(&mut store, &mut index, "two/file", b"same");
    TreeBuilder::build(&mut store, b"", &index).unwrap();
    // one blob, one tree shared by both directories, one root tree
    assert_eq!(store.len(), 3);
}
