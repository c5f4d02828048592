//! Building trees from the staging index: one tree object for the root and
//! one for every directory below it, children before parents.

use crate::bytes::{bytes_lt, copy_range, find_byte, push_all, starts_with};
use crate::codec::codec_ok;
use crate::digest::Digest;
use crate::error::StoreError;
use crate::index::{EntryKind, Staged, StagingIndex, SLASH};
use crate::layout::{
    ascending, bounds, built, child, child_names, dir_prefix, file_at, file_entry, is_built_tree,
    item_of, lemma_all_valid, lemma_dir_descends, lemma_listing, lemma_only_trees_chain,
    lemma_only_trees_lift, lemma_paths_unique, lemma_reach, lemma_seen_all, lemma_seen_step,
    lemma_stored_grows, lemma_trees_read_back, lemma_trees_stored_grows, listing, missing, name_in, only_trees_added,
    outside, reach, root_digest, root_prefix, root_text, seen, shadowed, sorted_names, stale, tree_digest,
    tree_file, trees_read_back, trees_stored, unclashed, under,
};
use crate::object_store::{lemma_push_file, reads_back, stored, ObjectStore};
use crate::tree::{has_name, lemma_sorted_unique, strictly_sorted, Tree, TreeEntry, TreeItem};
use vstd::prelude::*;

verus! {

/// A listing with one entry added holds the names it held and the new one,
/// and each of its entries is the new one or one that it held.
pub proof fn lemma_inserted(before: Seq<TreeItem>, at: int, item: TreeItem)
    requires
        0 <= at <= before.len(),
    ensures
        forall|n: Seq<u8>|
            has_name(before.insert(at, item), n) <==> has_name(before, n) || n == item.name,
        forall|j: int|
            0 <= j < before.len() + 1 ==> #[trigger] before.insert(at, item)[j] == item || (exists|
                k: int,
            |
                0 <= k < before.len() && before[k] == before.insert(at, item)[j]),
{
    let after = before.insert(at, item);
    assert forall|j: int| 0 <= j < before.len() + 1 implies #[trigger] after[j] == item || (
    exists|k: int| 0 <= k < before.len() && before[k] == after[j]) by {
        if j < at {
            assert(before[j] == after[j]);
        } else if j > at {
            assert(before[j - 1] == after[j]);
        }
    }
    assert forall|n: Seq<u8>| has_name(after, n) <==> has_name(before, n) || n == item.name by {
        if has_name(before, n) {
            let j = choose|j: int| 0 <= j < before.len() && #[trigger] before[j].name == n;
            if j < at {
                assert(after[j].name == n);
            } else {
                assert(after[j + 1].name == n);
            }
        }
        if n == item.name {
            assert(after[at].name == n);
        }
        if has_name(after, n) {
            let j = choose|j: int| 0 <= j < after.len() && #[trigger] after[j].name == n;
            if j < at {
                assert(before[j].name == n);
            } else if j > at {
                assert(before[j - 1].name == n);
            }
        }
    }
}

/// A listing in ascending order that holds the names of a directory, each
/// with the entry of its name, is the tree of that directory.
pub proof fn lemma_is_listing(items: Seq<TreeItem>, set: Set<Staged>, prefix: Seq<u8>, bound: nat)
    requires
        strictly_sorted(items),
        forall|n: Seq<u8>| has_name(items, n) <==> child(set, prefix, n),
        forall|j: int|
            0 <= j < items.len() ==> #[trigger] items[j] == item_of(
                set,
                prefix,
                items[j].name,
                bound,
            ),
    ensures
        items == listing(set, prefix, bound),
{
    let names = Seq::new(items.len(), |j: int| items[j].name);
    assert forall|n: Seq<u8>| child_names(set, prefix).contains(n) <==> names.contains(n) by {
        if child(set, prefix, n) {
            assert(has_name(items, n));
            let j = choose|j: int| 0 <= j < items.len() && #[trigger] items[j].name == n;
            assert(names[j] == n);
        }
        if names.contains(n) {
            let j = choose|j: int| 0 <= j < names.len() && names[j] == n;
            assert(items[j].name == n);
            assert(has_name(items, n));
        }
    }
    assert(ascending(names)) by {
        assert forall|a: int, b: int| 0 <= a < b < names.len() implies bytes_lt(
            #[trigger] names[a],
            #[trigger] names[b],
        ) by {
            assert(bytes_lt(items[a].name, items[b].name));
        }
    }
    lemma_listing(set, prefix, bound, names);
    let expected = listing(set, prefix, bound);
    let sorted = sorted_names(child_names(set, prefix));
    assert(strictly_sorted(expected)) by {
        assert forall|a: int, b: int| 0 <= a < b < expected.len() implies bytes_lt(
            #[trigger] expected[a].name,
            #[trigger] expected[b].name,
        ) by {
            assert(bytes_lt(sorted[a], sorted[b]));
        }
    }
    assert forall|n: Seq<u8>| has_name(items, n) <==> has_name(expected, n) by {
        if has_name(items, n) {
            assert(child_names(set, prefix).contains(n));
            assert(sorted.contains(n));
            let m = choose|m: int| 0 <= m < sorted.len() && sorted[m] == n;
            assert(expected[m].name == n);
        }
        if has_name(expected, n) {
            let m = choose|m: int| 0 <= m < expected.len() && #[trigger] expected[m].name == n;
            assert(sorted[m] == n);
            assert(sorted.contains(n));
            assert(child_names(set, prefix).contains(n));
        }
    }
    lemma_sorted_unique(items, expected);
}

/// The digest of the file staged at `path`, if a file is staged there.
fn staged_file(index: &StagingIndex, path: &Vec<u8>) -> (found: Option<Digest>)
    requires
        index.wf(),
    ensures
        found is Some <==> file_at(index@.to_set(), path@),
        found matches Some(d) ==> d@ == file_entry(index@.to_set(), path@).digest,
{
    let ghost set = index@.to_set();
    proof {
        lemma_paths_unique(index@);
    }
    match index.position(path) {
        Some(k) => {
            let e = index.entry(k);
            assert(index@.contains(index@[k as int]));
            match e.kind {
                EntryKind::File => {
                    proof {
                        assert(set.contains(e@));
                        let c = file_entry(set, path@);
                        assert(set.contains(c) && c.path == path@);
                    }
                    Some(e.digest)
                },
                EntryKind::Directory => {
                    proof {
                        if file_at(set, path@) {
                            let c = file_entry(set, path@);
                            assert(set.contains(c) && set.contains(e@));
                        }
                    }
                    None
                },
            }
        },
        None => {
            proof {
                if file_at(set, path@) {
                    let c = file_entry(set, path@);
                    assert(index@.contains(c));
                    let j = choose|j: int| 0 <= j < index@.len() && index@[j] == c;
                    assert(index@[j].path == path@);
                }
            }
            None
        },
    }
}

/// The entry for the member of the directory of `prefix` under which the
/// staged path at place `at` shows, with the trees below it built and stored
/// where it is a directory.
fn build_member(
    store: &mut ObjectStore,
    index: &StagingIndex,
    prefix: &Vec<u8>,
    at: usize,
    Ghost(bound): Ghost<nat>,
) -> (res: Result<TreeEntry, StoreError>)
    requires
        old(store).wf(),
        index.wf(),
        bounds(index@.to_set(), bound),
        !shadowed(index@.to_set()),
        dir_prefix(prefix@),
        at < index@.len(),
        under(index@[at as int].path, prefix@),
    ensures
        final(store).wf(),
        old(store).files().is_prefix_of(final(store).files()),
        only_trees_added(
            index@.to_set(),
            old(store).files(),
            final(store).files(),
            prefix@,
            bound,
        ),
        match res {
            Ok(entry) => {
                &&& entry@.name == name_in(index@[at as int].path, prefix@)
                &&& entry@ == item_of(index@.to_set(), prefix@, entry@.name, bound)
                &&& !file_at(index@.to_set(), prefix@ + entry@.name) ==> trees_stored(
                    index@.to_set(),
                    final(store).files(),
                    prefix@ + entry@.name + seq![SLASH],
                    bound,
                )
            },
            Err(e) => e == StoreError::StorageIoError && exists|c: Seq<u8>| !codec_ok(c),
        },
    decreases bound + 1 - prefix@.len(), 0nat,
{
    let ghost set = index@.to_set();
    let e = index.entry(at);
    let end = find_byte(&e.path, prefix.len(), SLASH);
    let name = copy_range(&e.path, prefix.len(), end);
    let mut full = copy_range(prefix, 0, prefix.len());
    push_all(&mut full, &name);
    proof {
        assert(full@ =~= prefix@ + name@);
        assert(index@.contains(index@[at as int]));
        assert(set.contains(e@));
        assert(e@.path.len() <= bound);
        lemma_all_valid(index@);
    }
    match staged_file(index, &full) {
        Some(digest) => Ok(TreeEntry { kind: EntryKind::File, name, digest }),
        None => {
            full.push(SLASH);
            assert(full@ =~= prefix@ + name@ + seq![SLASH]);
            let res = build_dir(store, index, &full, Ghost(bound));
            proof {
                lemma_only_trees_lift(
                    set,
                    old(store).files(),
                    store.files(),
                    prefix@,
                    e@,
                    bound,
                );
            }
            match res {
                Ok(digest) => Ok(TreeEntry { kind: EntryKind::Directory, name, digest }),
                Err(err) => Err(err),
            }
        },
    }
}

/// Builds the tree of the directory of `prefix` and the trees of the
/// directories below it, stores each, and returns the digest of the first.
fn build_dir(
    store: &mut ObjectStore,
    index: &StagingIndex,
    prefix: &Vec<u8>,
    Ghost(bound): Ghost<nat>,
) -> (res: Result<Digest, StoreError>)
    requires
        old(store).wf(),
        index.wf(),
        bounds(index@.to_set(), bound),
        !shadowed(index@.to_set()),
        dir_prefix(prefix@),
    ensures
        final(store).wf(),
        old(store).files().is_prefix_of(final(store).files()),
        only_trees_added(
            index@.to_set(),
            old(store).files(),
            final(store).files(),
            prefix@,
            bound,
        ),
        match res {
            Ok(d) => {
                &&& d@ == tree_digest(index@.to_set(), prefix@, bound)
                &&& trees_stored(index@.to_set(), final(store).files(), prefix@, bound)
            },
            Err(e) => e == StoreError::StorageIoError && exists|c: Seq<u8>| !codec_ok(c),
        },
    decreases bound + 1 - prefix@.len(), 1nat,
{
    let ghost set = index@.to_set();
    let mut tree = Tree::new();
    let mut i: usize = 0;
    while i < index.len()
        invariant
            i <= index@.len(),
            index.wf(),
            set == index@.to_set(),
            bounds(set, bound),
            !shadowed(set),
            dir_prefix(prefix@),
            tree.wf(),
            forall|name: Seq<u8>| has_name(tree@, name) <==> seen(index@, i as int, prefix@, name),
            forall|j: int|
                0 <= j < tree@.len() ==> #[trigger] tree@[j] == item_of(
                    set,
                    prefix@,
                    tree@[j].name,
                    bound,
                ),
            forall|name: Seq<u8>|
                #[trigger] has_name(tree@, name) && !file_at(set, prefix@ + name) ==> trees_stored(
                    set,
                    store.files(),
                    prefix@ + name + seq![SLASH],
                    bound,
                ),
            store.wf(),
            old(store).files().is_prefix_of(store.files()),
            only_trees_added(set, old(store).files(), store.files(), prefix@, bound),
        decreases index@.len() - i,
    {
        let e = index.entry(i);
        let ghost before = tree@;
        let ghost files = store.files();
        let ghost mut shown: Option<Seq<u8>> = None;
        if starts_with(&e.path, prefix) && e.path.len() > prefix.len() {
            let end = find_byte(&e.path, prefix.len(), SLASH);
            let name = copy_range(&e.path, prefix.len(), end);
            proof {
                shown = Some(name@);
            }
            if !tree.has(&name) {
                let res = build_member(store, index, prefix, i, Ghost(bound));
                proof {
                    lemma_only_trees_chain(
                        set,
                        old(store).files(),
                        files,
                        store.files(),
                        prefix@,
                        bound,
                    );
                }
                let entry = match res {
                    Ok(entry) => entry,
                    Err(err) => {
                        return Err(err);
                    },
                };
                let ghost item = entry@;
                tree.insert(entry);
                proof {
                    let at = choose|at: int|
                        0 <= at <= before.len() && tree@ == #[trigger] before.insert(at, item);
                    lemma_inserted(before, at, item);
                    assert forall|n: Seq<u8>|
                        #[trigger] has_name(tree@, n) && !file_at(
                            set,
                            prefix@ + n,
                        ) implies trees_stored(
                        set,
                        store.files(),
                        prefix@ + n + seq![SLASH],
                        bound,
                    ) by {
                        if n != item.name {
                            assert(has_name(before, n));
                            lemma_trees_stored_grows(
                                set,
                                files,
                                store.files(),
                                prefix@ + n + seq![SLASH],
                                bound,
                            );
                        }
                    }
                }
            }
        }
        proof {
            lemma_seen_step(index@, i as int, prefix@);
            assert forall|n: Seq<u8>| has_name(tree@, n) <==> seen(
                index@,
                i + 1,
                prefix@,
                n,
            ) by {
                assert(has_name(before, n) <==> seen(index@, i as int, prefix@, n));
                assert(has_name(tree@, n) <==> has_name(before, n) || shown == Some(n));
            }
        }
        i += 1;
    }
    proof {
        lemma_seen_all(index@, prefix@);
        lemma_is_listing(tree@, set, prefix@, bound);
    }
    let bytes = tree.serialize();
    let ghost files = store.files();
    let res = store.put(&bytes);
    proof {
        if res is Err {
            assert(!codec_ok(bytes@));
        } else {
            let root = tree_file(set, prefix@, bound);
            assert(built(set, prefix@, prefix@));
            if !stored(files, root.digest) {
                assert(store.files() == files.push(root));
                lemma_push_file(files, root);
            }
            assert(files.is_prefix_of(store.files()));
            assert forall|k: int| files.len() <= k < store.files().len() implies is_built_tree(
                set,
                prefix@,
                bound,
                #[trigger] store.files()[k],
            ) by {
                assert(store.files()[k] == root);
            }
            lemma_only_trees_chain(set, old(store).files(), files, store.files(), prefix@, bound);
            lemma_all_valid(index@);
            lemma_paths_unique(index@);
            assert forall|p: Seq<u8>| #[trigger] built(set, prefix@, p) implies stored(
                store.files(),
                tree_digest(set, p, bound),
            ) by {
                if p != prefix@ {
                    lemma_dir_descends(set, prefix@, p);
                    let n = name_in(p, prefix@);
                    assert(seen(index@, index@.len() as int, prefix@, n));
                    assert(has_name(tree@, n));
                    assert(trees_stored(set, files, prefix@ + n + seq![SLASH], bound));
                    assert(built(set, prefix@ + n + seq![SLASH], p));
                    lemma_stored_grows(files, store.files(), tree_digest(set, p, bound));
                }
            }
        }
    }
    res
}

/// Whether every staged file has its content in the store.
fn all_stored(store: &ObjectStore, index: &StagingIndex) -> (ok: bool)
    ensures
        ok == !missing(index@.to_set(), store.files()),
{
    let ghost set = index@.to_set();
    let mut i: usize = 0;
    while i < index.len()
        invariant
            i <= index@.len(),
            set == index@.to_set(),
            forall|k: int|
                0 <= k < i ==> !((#[trigger] index@[k]).kind == EntryKind::File && !stored(
                    store.files(),
                    index@[k].digest,
                )),
        decreases index@.len() - i,
    {
        let e = index.entry(i);
        match e.kind {
            EntryKind::File => {
                if !store.contains(&e.digest) {
                    assert(index@.contains(index@[i as int]));
                    assert(set.contains(e@));
                    return false;
                }
            },
            EntryKind::Directory => {},
        }
        i += 1;
    }
    proof {
        if missing(set, store.files()) {
            let c = choose|c: Staged| #[trigger]
                set.contains(c) && c.kind == EntryKind::File && !stored(store.files(), c.digest);
            assert(index@.contains(c));
            let k = choose|k: int| 0 <= k < index@.len() && index@[k] == c;
            assert(index@[k].kind == EntryKind::File);
        }
    }
    true
}

/// Whether every staged path lies below the directory of `prefix`.
fn all_under(index: &StagingIndex, prefix: &Vec<u8>) -> (ok: bool)
    ensures
        ok == !outside(index@.to_set(), prefix@),
{
    let ghost set = index@.to_set();
    let mut i: usize = 0;
    while i < index.len()
        invariant
            i <= index@.len(),
            set == index@.to_set(),
            forall|k: int| 0 <= k < i ==> under((#[trigger] index@[k]).path, prefix@),
        decreases index@.len() - i,
    {
        let e = index.entry(i);
        if !(starts_with(&e.path, prefix) && e.path.len() > prefix.len()) {
            assert(index@.contains(index@[i as int]));
            assert(set.contains(e@));
            return false;
        }
        i += 1;
    }
    proof {
        if outside(set, prefix@) {
            let c = choose|c: Staged| #[trigger] set.contains(c) && !under(c.path, prefix@);
            assert(index@.contains(c));
            let k = choose|k: int| 0 <= k < index@.len() && index@[k] == c;
            assert(under(index@[k].path, prefix@));
        }
    }
    true
}

/// Whether no staged path lies below the directory of `prefix`.
fn none_under(index: &StagingIndex, prefix: &Vec<u8>) -> (ok: bool)
    ensures
        ok == (forall|k: int| 0 <= k < index@.len() ==> !under((#[trigger] index@[k]).path, prefix@)),
{
    let mut i: usize = 0;
    while i < index.len()
        invariant
            i <= index@.len(),
            forall|k: int| 0 <= k < i ==> !under((#[trigger] index@[k]).path, prefix@),
        decreases index@.len() - i,
    {
        let e = index.entry(i);
        if starts_with(&e.path, prefix) && e.path.len() > prefix.len() {
            return false;
        }
        i += 1;
    }
    true
}

/// Whether no path staged as a file is the directory of another staged path.
fn none_shadowed(index: &StagingIndex) -> (ok: bool)
    ensures
        ok == !shadowed(index@.to_set()),
{
    let ghost set = index@.to_set();
    let mut i: usize = 0;
    while i < index.len()
        invariant
            i <= index@.len(),
            set == index@.to_set(),
            forall|a: int, b: int|
                0 <= a < i && 0 <= b < index@.len() ==> !((#[trigger] index@[a]).kind
                    == EntryKind::File && under(
                    (#[trigger] index@[b]).path,
                    index@[a].path + seq![SLASH],
                )),
        decreases index@.len() - i,
    {
        let f = index.entry(i);
        match f.kind {
            EntryKind::File => {
                let mut below = copy_range(&f.path, 0, f.path.len());
                below.push(SLASH);
                assert(below@ =~= f@.path + seq![SLASH]);
                if !none_under(index, &below) {
                    proof {
                        let b = choose|b: int|
                            0 <= b < index@.len() && under((#[trigger] index@[b]).path, below@);
                        assert(index@.contains(index@[i as int]));
                        assert(index@.contains(index@[b]));
                        assert(set.contains(index@[i as int]) && set.contains(index@[b]));
                    }
                    return false;
                }
            },
            EntryKind::Directory => {},
        }
        i += 1;
    }
    proof {
        if shadowed(set) {
            let (f, e) = choose|f: Staged, e: Staged|
                #![trigger set.contains(f), set.contains(e)]
                set.contains(f) && set.contains(e) && f.kind == EntryKind::File && under(
                    e.path,
                    f.path + seq![SLASH],
                );
            assert(index@.contains(f));
            assert(index@.contains(e));
            let a = choose|a: int| 0 <= a < index@.len() && index@[a] == f;
            let b = choose|b: int| 0 <= b < index@.len() && index@[b] == e;
            assert(index@[a].kind == EntryKind::File && under(
                index@[b].path,
                index@[a].path + seq![SLASH],
            ));
        }
    }
    true
}

/// Builds trees from staged paths.
pub struct TreeBuilder;

impl TreeBuilder {
    /// The prefix with which the paths below the directory `root` begin.
    pub fn prefix_of(root: &[u8]) -> (prefix: Vec<u8>)
        ensures
            prefix@ == root_prefix(root@),
    {
        let mut prefix = copy_range(root, 0, root.len());
        assert(prefix@ =~= root@);
        if root.len() > 0 && root[root.len() - 1] != SLASH {
            prefix.push(SLASH);
        }
        prefix
    }

    /// Whether the staged entries have drifted from what a snapshot of the
    /// directory `root` can hold: a staged file has no content in the store,
    /// a path staged as a file is the directory of another staged path, or a
    /// staged path does not lie below `root`.
    pub fn is_stale(store: &ObjectStore, root: &[u8], index: &StagingIndex) -> (drifted: bool)
        ensures
            drifted == stale(index@.to_set(), store.files(), root_prefix(root@)),
    {
        let prefix = TreeBuilder::prefix_of(root);
        !all_stored(store, index) || !none_shadowed(index) || !all_under(index, &prefix)
    }

    /// Snapshots the directory `root` from the staged entries: builds the
    /// tree of `root` and of every directory below it, children before
    /// parents, stores each as an object of its own, and returns the digest
    /// of the tree of `root`. With nothing staged the tree is empty, and it
    /// is stored like any other. Nothing but these trees is added to the
    /// store, and each is read back from it as its serialized form, unless a
    /// digest stands for two things.
    ///
    /// The digest depends on the set of staged entries alone, not on the
    /// order in which they were recorded. Nothing is built, and the error is
    /// `StaleStagingEntry`, where a staged file has no content in the store,
    /// where a path staged as a file is the directory of another staged path,
    /// or where a staged path does not lie below `root`. Otherwise the build
    /// fails only where the codec does not give back a tree it was given.
    pub fn build(store: &mut ObjectStore, root: &[u8], index: &StagingIndex) -> (res: Result<
        Digest,
        StoreError,
    >)
        requires
            old(store).wf(),
            index.wf(),
        ensures
            final(store).wf(),
            old(store).files().is_prefix_of(final(store).files()),
            only_trees_added(
                index@.to_set(),
                old(store).files(),
                final(store).files(),
                root_prefix(root@),
                reach(index@.to_set()),
            ),
            match res {
                Ok(d) => {
                    &&& !stale(index@.to_set(), old(store).files(), root_prefix(root@))
                    &&& d@ == root_digest(index@.to_set(), root@)
                    &&& stored(final(store).files(), d@)
                    &&& trees_stored(
                        index@.to_set(),
                        final(store).files(),
                        root_prefix(root@),
                        reach(index@.to_set()),
                    )
                    &&& unclashed(
                        index@.to_set(),
                        old(store).files(),
                        root_prefix(root@),
                        reach(index@.to_set()),
                    ) ==> reads_back(final(store).files(), root_text(index@.to_set(), root@))
                        && trees_read_back(
                        index@.to_set(),
                        final(store).files(),
                        root_prefix(root@),
                        reach(index@.to_set()),
                    )
                },
                Err(e) => if stale(index@.to_set(), old(store).files(), root_prefix(root@)) {
                    e == StoreError::StaleStagingEntry && final(store).files() == old(
                        store,
                    ).files()
                } else {
                    e == StoreError::StorageIoError && exists|c: Seq<u8>| !codec_ok(c)
                },
            },
    {
        if TreeBuilder::is_stale(store, root, index) {
            return Err(StoreError::StaleStagingEntry);
        }
        build_fresh(store, root, index)
    }
}

/// Snapshots the directory `root` from staged entries that have not drifted.
pub(crate) fn build_fresh(store: &mut ObjectStore, root: &[u8], index: &StagingIndex) -> (res:
    Result<Digest, StoreError>)
    requires
        old(store).wf(),
        index.wf(),
        !stale(index@.to_set(), old(store).files(), root_prefix(root@)),
    ensures
        final(store).wf(),
        old(store).files().is_prefix_of(final(store).files()),
        only_trees_added(
            index@.to_set(),
            old(store).files(),
            final(store).files(),
            root_prefix(root@),
            reach(index@.to_set()),
        ),
        match res {
            Ok(d) => {
                &&& d@ == root_digest(index@.to_set(), root@)
                &&& stored(final(store).files(), d@)
                &&& trees_stored(
                    index@.to_set(),
                    final(store).files(),
                    root_prefix(root@),
                    reach(index@.to_set()),
                )
                &&& unclashed(
                    index@.to_set(),
                    old(store).files(),
                    root_prefix(root@),
                    reach(index@.to_set()),
                ) ==> reads_back(final(store).files(), root_text(index@.to_set(), root@))
                    && trees_read_back(
                    index@.to_set(),
                    final(store).files(),
                    root_prefix(root@),
                    reach(index@.to_set()),
                )
            },
            Err(e) => e == StoreError::StorageIoError && exists|c: Seq<u8>| !codec_ok(c),
        },
{
    let prefix = TreeBuilder::prefix_of(root);
    let ghost set = index@.to_set();
    proof {
        lemma_reach(index@);
    }
    let res = build_dir(store, index, &prefix, Ghost(reach(index@.to_set())));
    proof {
        assert(built(set, prefix@, prefix@));
        if res is Ok && unclashed(set, old(store).files(), prefix@, reach(set)) {
            lemma_trees_read_back(set, old(store).files(), store.files(), prefix@, reach(set));
        }
    }
    res
}

} // verus!
