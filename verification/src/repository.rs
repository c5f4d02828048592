//! The operations on a repository: staging a path, committing what is
//! staged, and telling where a file of the working tree stands.

use crate::builder::{build_fresh, TreeBuilder};
use crate::bytes::{bytes_eq, copy_range, lacks};
use crate::clock::now_rfc3339;
use crate::codec::{codec_ok, holds};
use crate::commit::{commit_bytes, Commit, CommitBuilder, CommitText, Identity};
use crate::digest::{sha1_of, Digest};
use crate::error::StoreError;
use crate::index::{
    is_valid_path, record_entries, staged, valid_path, EntryKind, Staged, StagingIndex, NEWLINE,
    SLASH,
};
use crate::layout::{
    built, is_built_tree, is_tree_file, lemma_trees_stored_grows, listing, only_trees_added, reach,
    root_digest, root_prefix, stale, tree_digest, trees_read_back, trees_stored, unclashed,
};
use crate::object_store::{
    clash, files_wf, lemma_place_of, lemma_prefix_wf, lemma_push_file, lemma_put_keeps,
    object_file, place_of, put_files, reads_back, storable, stored, ObjectStore, StoredFile,
};
use crate::tree::tree_bytes;
use vstd::prelude::*;
use vstd::slice::slice_subrange;

verus! {

/// What stands at a path of the working tree.
pub enum Found {
    /// Nothing.
    Missing,
    /// A file with this content.
    File(Vec<u8>),
    /// A directory.
    Directory,
}

/// What became of a path that was to be staged.
#[derive(Clone, Copy, Debug, PartialEq, Eq)]
pub enum Added {
    /// The path was passed over: nothing stands there, or it lies in the
    /// repository's own directory.
    Skipped,
    /// The path was recorded in the index with this digest.
    Staged(Digest),
    /// A directory stands there. Nothing was recorded for it: a snapshot
    /// holds a directory because of the files staged below it, which are
    /// staged path by path.
    Descend,
}

/// Where a file of the working tree stands.
#[derive(Clone, Copy, Debug, PartialEq, Eq, Structural)]
pub enum FileStatus {
    /// Not staged, and its content is not stored.
    Untracked,
    /// Staged, but its content is not stored.
    Uncommitted,
    /// Its content is stored.
    Stored,
}

/// The component `name` stands in `path` at position `from`: it begins at
/// the start of the path or after a separator, and ends at the end of the
/// path or before a separator.
pub open spec fn component_at(path: Seq<u8>, name: Seq<u8>, from: int) -> bool {
    &&& 0 <= from
    &&& from + name.len() <= path.len()
    &&& path.subrange(from, from + name.len()) == name
    &&& from == 0 || path[from - 1] == SLASH
    &&& from + name.len() == path.len() || path[from + name.len()] == SLASH
}

/// `name` is a component of `path`.
pub open spec fn has_component(path: Seq<u8>, name: Seq<u8>) -> bool {
    exists|from: int| component_at(path, name, from)
}

/// Where a file stands, from whether its path is staged and whether its
/// content is stored.
pub open spec fn status(is_staged: bool, is_stored: bool) -> FileStatus {
    if is_stored {
        FileStatus::Stored
    } else if is_staged {
        FileStatus::Uncommitted
    } else {
        FileStatus::Untracked
    }
}

/// Whether the component `name` stands in `path` at position `from`.
fn stands_at(path: &[u8], name: &[u8], from: usize) -> (found: bool)
    requires
        from + name.len() <= path.len(),
    ensures
        found == component_at(path@, name@, from as int),
{
    let starts = from == 0 || path[from - 1] == SLASH;
    let ends = from + name.len() == path.len() || path[from + name.len()] == SLASH;
    starts && ends && bytes_eq(slice_subrange(path, from, from + name.len()), name)
}

/// Whether `name` is a component of `path`.
pub fn names_component(path: &[u8], name: &[u8]) -> (found: bool)
    ensures
        found == has_component(path@, name@),
{
    if name.len() > path.len() {
        return false;
    }
    let last = path.len() - name.len();
    let mut from: usize = 0;
    while from < last
        invariant
            from <= last,
            last == path.len() - name.len(),
            name.len() <= path.len(),
            forall|k: int| 0 <= k < from ==> !component_at(path@, name@, k),
        decreases last - from,
    {
        if stands_at(path, name, from) {
            return true;
        }
        from += 1;
    }
    stands_at(path, name, last)
}

/// Where the file at `path` with the content `content` stands.
pub fn status_of(store: &ObjectStore, index: &StagingIndex, path: &[u8], content: &[u8]) -> (at:
    FileStatus)
    ensures
        at == status(staged(index@, path@), stored(store.files(), sha1_of(content@))),
{
    let digest = Digest::of(content);
    let is_stored = store.contains(&digest);
    let is_staged = index.position(path).is_some();
    if is_stored {
        FileStatus::Stored
    } else if is_staged {
        FileStatus::Uncommitted
    } else {
        FileStatus::Untracked
    }
}

/// What `add` owes for a path at which a file with the content `content`
/// stands.
pub open spec fn file_added(
    files: Seq<StoredFile>,
    entries: Seq<Staged>,
    path: Seq<u8>,
    content: Seq<u8>,
    res: Result<Added, StoreError>,
    files_after: Seq<StoredFile>,
    entries_after: Seq<Staged>,
) -> bool {
    if !valid_path(path) {
        res == Err::<Added, StoreError>(StoreError::IndexCorrupt) && files_after == files
            && entries_after == entries
    } else if !storable(files, content) {
        res == Err::<Added, StoreError>(StoreError::StorageIoError) && files_after == files
            && entries_after == entries
    } else {
        &&& res matches Ok(Added::Staged(d))
        &&& d@ == sha1_of(content)
        &&& files_after == put_files(files, content)
        &&& entries_after == record_entries(
            entries,
            Staged { path, digest: d@, kind: EntryKind::File },
        )
    }
}

/// Stages `path`, at which `found` stands in the working tree. A path at
/// which nothing stands, and one that names the repository's own directory
/// `repository` among its components, is passed over. A file has its content
/// put in the store and is recorded with the digest of that content; a file
/// path that cannot be persisted is refused with `IndexCorrupt`. For a
/// directory nothing is recorded, and the result says that what lies in it
/// is to be staged. On any error nothing changes.
pub fn add(
    store: &mut ObjectStore,
    index: &mut StagingIndex,
    repository: &[u8],
    path: &[u8],
    found: &Found,
) -> (res: Result<Added, StoreError>)
    requires
        old(store).wf(),
        old(index).wf(),
    ensures
        final(store).wf(),
        final(index).wf(),
        if found is Missing || has_component(path@, repository@) {
            res == Ok::<Added, StoreError>(Added::Skipped) && final(store).files() == old(
                store,
            ).files() && final(index)@ == old(index)@
        } else {
            match found {
                Found::File(content) => file_added(
                    old(store).files(),
                    old(index)@,
                    path@,
                    content@,
                    res,
                    final(store).files(),
                    final(index)@,
                ),
                _ => res == Ok::<Added, StoreError>(Added::Descend) && final(store).files()
                    == old(store).files() && final(index)@ == old(index)@,
            }
        },
{
    if names_component(path, repository) {
        return Ok(Added::Skipped);
    }
    match found {
        Found::Missing => Ok(Added::Skipped),
        Found::File(content) => {
            if !is_valid_path(path) {
                return Err(StoreError::IndexCorrupt);
            }
            let digest = match store.put(content) {
                Ok(digest) => digest,
                Err(e) => {
                    return Err(e);
                },
            };
            match index.record(path, digest, EntryKind::File) {
                Ok(_) => Ok(Added::Staged(digest)),
                Err(e) => Err(e),
            }
        },
        Found::Directory => Ok(Added::Descend),
    }
}

/// The commit that `commit` writes for the staged set `set` below `root`.
pub open spec fn commit_text(
    set: Set<Staged>,
    root: Seq<u8>,
    parent: Option<Digest>,
    identity: Identity,
    message: Seq<u8>,
    timestamp: Seq<u8>,
) -> CommitText {
    CommitText {
        tree: root_digest(set, root),
        parent: match parent {
            Some(p) => Some(p@),
            None => None,
        },
        author: identity.author@,
        email: identity.email@,
        timestamp,
        message,
    }
}

/// Why a commit is refused before anything is written, if it is: nothing
/// is staged, the message is empty, or the staged set has drifted.
pub open spec fn refusal(
    files: Seq<StoredFile>,
    entries: Seq<Staged>,
    root: Seq<u8>,
    message: Seq<u8>,
) -> Option<StoreError> {
    if entries.len() == 0 {
        Some(StoreError::NothingStaged)
    } else if message.len() == 0 {
        Some(StoreError::EmptyMessage)
    } else if stale(entries.to_set(), files, root_prefix(root)) {
        Some(StoreError::StaleStagingEntry)
    } else {
        None
    }
}

/// `file` is the object file of the commit `text`: it is named by the
/// commit's digest, it holds the stream that the encoder gives for the
/// commit's text, and that text is read back from it.
pub open spec fn is_commit_file(text: CommitText, file: StoredFile) -> bool {
    file == object_file(commit_bytes(text)) && holds(file.payload, commit_bytes(text))
}

/// What a commit may write: files are only added, and each file added is
/// the tree of `root` or of a directory below it, or the commit `text`.
pub open spec fn written(
    set: Set<Staged>,
    files: Seq<StoredFile>,
    files_after: Seq<StoredFile>,
    root: Seq<u8>,
    text: CommitText,
) -> bool {
    &&& files.is_prefix_of(files_after)
    &&& forall|i: int|
        files.len() <= i < files_after.len() ==> is_built_tree(
            set,
            root_prefix(root),
            reach(set),
            #[trigger] files_after[i],
        ) || is_commit_file(text, files_after[i])
}

/// No digest stands for two things: none of a tree of this commit, and not
/// that of the commit `text`, which no other stored object and no tree of
/// this commit shares.
pub open spec fn commit_unclashed(
    set: Set<Staged>,
    files: Seq<StoredFile>,
    root: Seq<u8>,
    text: CommitText,
) -> bool {
    &&& unclashed(set, files, root_prefix(root), reach(set))
    &&& !clash(files, commit_bytes(text))
    &&& forall|p: Seq<u8>| #[trigger]
        built(set, root_prefix(root), p) && tree_digest(set, p, reach(set)) == sha1_of(
            commit_bytes(text),
        ) ==> tree_bytes(listing(set, p, reach(set))) == commit_bytes(text)
}

/// What is read back once a commit was made: each tree as its serialized
/// form and the commit as its text.
pub open spec fn commit_reads_back(
    set: Set<Staged>,
    files: Seq<StoredFile>,
    root: Seq<u8>,
    text: CommitText,
) -> bool {
    trees_read_back(set, files, root_prefix(root), reach(set)) && reads_back(
        files,
        commit_bytes(text),
    )
}

/// What `commit` owes: the error for each input that is refused, with
/// nothing changed; and where nothing is refused, the commit's digest, the
/// commit and the trees of `root` and of every directory below it in the
/// store, nothing else added to it, each read back as what was written
/// unless a digest stands for two things, and the index empty, unless the
/// codec fails.
pub open spec fn committed(
    files: Seq<StoredFile>,
    entries: Seq<Staged>,
    root: Seq<u8>,
    parent: Option<Digest>,
    identity: Identity,
    message: Seq<u8>,
    timestamp: Seq<u8>,
    res: Result<Digest, StoreError>,
    files_after: Seq<StoredFile>,
    entries_after: Seq<Staged>,
) -> bool {
    let text = commit_text(entries.to_set(), root, parent, identity, message, timestamp);
    match refusal(files, entries, root, message) {
        Some(error) => res == Err::<Digest, StoreError>(error) && files_after == files
            && entries_after == entries,
        None => written(entries.to_set(), files, files_after, root, text) && match res {
            Ok(d) => {
                &&& d@ == sha1_of(commit_bytes(text))
                &&& stored(files_after, d@)
                &&& stored(files_after, text.tree)
                &&& trees_stored(
                    entries.to_set(),
                    files_after,
                    root_prefix(root),
                    reach(entries.to_set()),
                )
                &&& commit_unclashed(entries.to_set(), files, root, text) ==> commit_reads_back(
                    entries.to_set(),
                    files_after,
                    root,
                    text,
                )
                &&& entries_after == Seq::<Staged>::empty()
            },
            Err(e) => {
                &&& e == StoreError::StorageIoError
                &&& exists|c: Seq<u8>| !codec_ok(c)
                &&& entries_after == entries
            },
        },
    }
}

/// A reading of the clock as a value.
pub open spec fn read(reading: Option<Vec<u8>>) -> Option<Seq<u8>> {
    match reading {
        Some(text) => Some(text@),
        None => None,
    }
}

/// What a commit owes when the time is what a reading of the clock gave:
/// where the commit is not refused and the clock could not be read, the
/// error is `StorageIoError` and nothing changes; else what `committed`
/// says.
pub open spec fn clocked(
    files: Seq<StoredFile>,
    entries: Seq<Staged>,
    root: Seq<u8>,
    parent: Option<Digest>,
    identity: Identity,
    message: Seq<u8>,
    reading: Option<Seq<u8>>,
    res: Result<Digest, StoreError>,
    files_after: Seq<StoredFile>,
    entries_after: Seq<Staged>,
) -> bool {
    match reading {
        Some(timestamp) => committed(
            files,
            entries,
            root,
            parent,
            identity,
            message,
            timestamp,
            res,
            files_after,
            entries_after,
        ),
        None => res == Err::<Digest, StoreError>(
            match refusal(files, entries, root, message) {
                Some(error) => error,
                None => StoreError::StorageIoError,
            },
        ) && files_after == files && entries_after == entries,
    }
}

/// Once the trees of a commit were built and its text was put, each tree
/// and the text are read back as what was written, unless a digest stands
/// for two things.
pub proof fn lemma_commit_reads_back(
    set: Set<Staged>,
    files: Seq<StoredFile>,
    built_files: Seq<StoredFile>,
    root: Seq<u8>,
    text: CommitText,
)
    requires
        files_wf(built_files),
        files.is_prefix_of(built_files),
        only_trees_added(set, files, built_files, root_prefix(root), reach(set)),
        trees_read_back(set, built_files, root_prefix(root), reach(set)),
        storable(built_files, commit_bytes(text)),
        commit_unclashed(set, files, root, text),
    ensures
        commit_reads_back(set, put_files(built_files, commit_bytes(text)), root, text),
{
    let prefix = root_prefix(root);
    let bound = reach(set);
    let words = commit_bytes(text);
    let d = sha1_of(words);
    let after = put_files(built_files, words);
    if !stored(built_files, d) {
        lemma_push_file(built_files, object_file(words));
    } else {
        let i = place_of(built_files, d);
        lemma_place_of(built_files, i);
        if i < files.len() {
            assert(files[i] == built_files[i]);
            assert(stored(files, d));
            lemma_prefix_wf(files, built_files);
            lemma_place_of(files, i);
        } else {
            assert(is_built_tree(set, prefix, bound, built_files[i]));
            let p = choose|p: Seq<u8>| #[trigger]
                built(set, prefix, p) && is_tree_file(set, p, bound, built_files[i]);
            assert(built(set, prefix, p) && tree_digest(set, p, bound) == d);
        }
    }
    assert forall|p: Seq<u8>| #[trigger] built(set, prefix, p) implies reads_back(
        after,
        tree_bytes(listing(set, p, bound)),
    ) by {
        lemma_put_keeps(built_files, words, tree_digest(set, p, bound));
    }
}

/// Why a commit of what is staged would be refused before anything is
/// written, if it would be.
pub fn refused(store: &ObjectStore, index: &StagingIndex, root: &[u8], message: &[u8]) -> (error:
    Option<StoreError>)
    ensures
        error == refusal(store.files(), index@, root@, message@),
{
    if index.is_empty() {
        Some(StoreError::NothingStaged)
    } else if message.len() == 0 {
        Some(StoreError::EmptyMessage)
    } else if TreeBuilder::is_stale(store, root, index) {
        Some(StoreError::StaleStagingEntry)
    } else {
        None
    }
}

/// Commits what is staged, where nothing stands against it.
fn commit_staged(
    store: &mut ObjectStore,
    index: &mut StagingIndex,
    root: &[u8],
    parent: Option<Digest>,
    identity: &Identity,
    message: &[u8],
    timestamp: &[u8],
) -> (res: Result<Digest, StoreError>)
    requires
        old(store).wf(),
        old(index).wf(),
        refusal(old(store).files(), old(index)@, root@, message@) is None,
    ensures
        final(store).wf(),
        final(index).wf(),
        old(store).files().is_prefix_of(final(store).files()),
        committed(
            old(store).files(),
            old(index)@,
            root@,
            parent,
            *identity,
            message@,
            timestamp@,
            res,
            final(store).files(),
            final(index)@,
        ),
{
    let tree = match build_fresh(store, root, index) {
        Ok(tree) => tree,
        Err(e) => {
            return Err(e);
        },
    };
    let ghost built_files = store.files();
    let commit = Commit {
        tree,
        parent,
        author: copy_range(&identity.author, 0, identity.author.len()),
        email: copy_range(&identity.email, 0, identity.email.len()),
        timestamp: copy_range(timestamp, 0, timestamp.len()),
        message: copy_range(message, 0, message.len()),
    };
    let ghost set = index@.to_set();
    let ghost text = commit_text(set, root@, parent, *identity, message@, timestamp@);
    proof {
        assert(commit.author@ =~= identity.author@);
        assert(commit.email@ =~= identity.email@);
        assert(commit.timestamp@ =~= timestamp@);
        assert(commit.message@ =~= message@);
        assert(commit@ == text);
    }
    match CommitBuilder::commit(store, &commit) {
        Ok(digest) => {
            proof {
                lemma_put_keeps(built_files, commit_bytes(text), tree@);
                if !stored(built_files, digest@) {
                    lemma_push_file(built_files, object_file(commit_bytes(text)));
                }
                assert(built_files.is_prefix_of(store.files()));
                lemma_trees_stored_grows(
                    set,
                    built_files,
                    store.files(),
                    root_prefix(root@),
                    reach(set),
                );
                assert forall|i: int|
                    old(store).files().len() <= i < store.files().len() implies is_built_tree(
                    set,
                    root_prefix(root@),
                    reach(set),
                    #[trigger] store.files()[i],
                ) || is_commit_file(text, store.files()[i]) by {
                    if i < built_files.len() {
                        assert(store.files()[i] == built_files[i]);
                    }
                }
                assert(old(store).files() =~= store.files().subrange(
                    0,
                    old(store).files().len() as int,
                ));
                if commit_unclashed(set, old(store).files(), root@, text) {
                    lemma_commit_reads_back(set, old(store).files(), built_files, root@, text);
                }
            }
            index.clear();
            Ok(digest)
        },
        Err(e) => {
            assert(!codec_ok(commit_bytes(text)));
            Err(e)
        },
    }
}

/// Commits what is staged: builds and stores the trees of the directory
/// `root`, stores a commit that names the root tree, the parent `parent`,
/// the author and the time `timestamp`, empties the index, and returns the
/// commit's digest. With nothing staged the error is `NothingStaged`; with
/// an empty message, `EmptyMessage`; with a staged set that has drifted,
/// `StaleStagingEntry`; in each case nothing is written and the index stays.
pub fn commit(
    store: &mut ObjectStore,
    index: &mut StagingIndex,
    root: &[u8],
    parent: Option<Digest>,
    identity: &Identity,
    message: &[u8],
    timestamp: &[u8],
) -> (res: Result<Digest, StoreError>)
    requires
        old(store).wf(),
        old(index).wf(),
    ensures
        final(store).wf(),
        final(index).wf(),
        old(store).files().is_prefix_of(final(store).files()),
        committed(
            old(store).files(),
            old(index)@,
            root@,
            parent,
            *identity,
            message@,
            timestamp@,
            res,
            final(store).files(),
            final(index)@,
        ),
{
    match refused(store, index, root, message) {
        Some(error) => Err(error),
        None => commit_staged(store, index, root, parent, identity, message, timestamp),
    }
}

/// Commits what is staged at the time that a reading of the clock gave,
/// where nothing stands against the commit.
fn commit_reading(
    store: &mut ObjectStore,
    index: &mut StagingIndex,
    root: &[u8],
    parent: Option<Digest>,
    identity: &Identity,
    message: &[u8],
    reading: Option<Vec<u8>>,
) -> (res: Result<Digest, StoreError>)
    requires
        old(store).wf(),
        old(index).wf(),
        refusal(old(store).files(), old(index)@, root@, message@) is None,
    ensures
        final(store).wf(),
        final(index).wf(),
        old(store).files().is_prefix_of(final(store).files()),
        clocked(
            old(store).files(),
            old(index)@,
            root@,
            parent,
            *identity,
            message@,
            read(reading),
            res,
            final(store).files(),
            final(index)@,
        ),
{
    match reading {
        Some(timestamp) => commit_staged(store, index, root, parent, identity, message, &timestamp),
        None => Err(StoreError::StorageIoError),
    }
}

/// Commits what is staged, as `commit` does, at the time that a reading of
/// the clock gave. A commit that `commit` would refuse is refused in the
/// same way, whatever the reading; otherwise, where the clock could not be
/// read, the error is `StorageIoError` and nothing changes.
pub fn commit_clocked(
    store: &mut ObjectStore,
    index: &mut StagingIndex,
    root: &[u8],
    parent: Option<Digest>,
    identity: &Identity,
    message: &[u8],
    reading: Option<Vec<u8>>,
) -> (res: Result<Digest, StoreError>)
    requires
        old(store).wf(),
        old(index).wf(),
    ensures
        final(store).wf(),
        final(index).wf(),
        old(store).files().is_prefix_of(final(store).files()),
        clocked(
            old(store).files(),
            old(index)@,
            root@,
            parent,
            *identity,
            message@,
            read(reading),
            res,
            final(store).files(),
            final(index)@,
        ),
{
    match refused(store, index, root, message) {
        Some(error) => Err(error),
        None => commit_reading(store, index, root, parent, identity, message, reading),
    }
}

/// Commits what is staged, as `commit` does, at the time that the system
/// clock gives. The clock is read only where nothing stands against the
/// commit; what it gives is on one line.
pub fn commit_now(
    store: &mut ObjectStore,
    index: &mut StagingIndex,
    root: &[u8],
    parent: Option<Digest>,
    identity: &Identity,
    message: &[u8],
) -> (res: Result<Digest, StoreError>)
    requires
        old(store).wf(),
        old(index).wf(),
    ensures
        final(store).wf(),
        final(index).wf(),
        old(store).files().is_prefix_of(final(store).files()),
        exists|reading: Option<Seq<u8>>|
            (reading matches Some(t) ==> lacks(t, NEWLINE)) && #[trigger] clocked(
                old(store).files(),
                old(index)@,
                root@,
                parent,
                *identity,
                message@,
                reading,
                res,
                final(store).files(),
                final(index)@,
            ),
{
    if let Some(error) = refused(store, index, root, message) {
        proof {
            assert(clocked(
                old(store).files(),
                old(index)@,
                root@,
                parent,
                *identity,
                message@,
                None,
                Err(error),
                store.files(),
                index@,
            ));
        }
        return Err(error);
    }
    let reading = now_rfc3339();
    let ghost seen = read(reading);
    let res = commit_reading(store, index, root, parent, identity, message, reading);
    assert(clocked(
        old(store).files(),
        old(index)@,
        root@,
        parent,
        *identity,
        message@,
        seen,
        res,
        store.files(),
        index@,
    ));
    res
}

} // verus!
