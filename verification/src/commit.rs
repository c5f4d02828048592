//! Commits: a root tree, an optional parent, who made it and when, and a
//! message, in the canonical text whose digest names the commit.

use crate::bytes::{has_prefix, push_all, starts_with};
use crate::codec::zlib_encoded;
use crate::digest::{hex_of, lemma_hex_injective, lemma_hex_of_is_hex, sha1_of, Digest};
use crate::error::StoreError;
use crate::object_store::{
    clash, content_of, files_wf, lemma_push_file, lemma_put_keeps, lemma_put_twice, put_files,
    reads_back, storable, stored, ObjectStore, StoredFile,
};
use vstd::prelude::*;
use vstd::slice::slice_subrange;

verus! {

/// Who makes a commit.
#[derive(Clone, Debug)]
pub struct Identity {
    pub author: Vec<u8>,
    pub email: Vec<u8>,
}

/// A commit.
#[derive(Clone, Debug)]
pub struct Commit {
    pub tree: Digest,
    pub parent: Option<Digest>,
    pub author: Vec<u8>,
    pub email: Vec<u8>,
    pub timestamp: Vec<u8>,
    pub message: Vec<u8>,
}

/// A commit as a value.
pub struct CommitText {
    pub tree: Seq<u8>,
    pub parent: Option<Seq<u8>>,
    pub author: Seq<u8>,
    pub email: Seq<u8>,
    pub timestamp: Seq<u8>,
    pub message: Seq<u8>,
}

impl View for Commit {
    type V = CommitText;

    open spec fn view(&self) -> CommitText {
        CommitText {
            tree: self.tree@,
            parent: match self.parent {
                Some(p) => Some(p@),
                None => None,
            },
            author: self.author@,
            email: self.email@,
            timestamp: self.timestamp@,
            message: self.message@,
        }
    }
}

/// `tree ` as bytes.
pub open spec fn word_tree() -> Seq<u8> {
    seq![116u8, 114, 101, 101, 32]
}

/// `parent ` as bytes.
pub open spec fn word_parent() -> Seq<u8> {
    seq![112u8, 97, 114, 101, 110, 116, 32]
}

/// `author ` as bytes.
pub open spec fn word_author() -> Seq<u8> {
    seq![97u8, 117, 116, 104, 111, 114, 32]
}

/// `date ` as bytes.
pub open spec fn word_date() -> Seq<u8> {
    seq![100u8, 97, 116, 101, 32]
}

/// The line that names the root tree.
pub open spec fn tree_field(tree: Seq<u8>) -> Seq<u8> {
    word_tree() + hex_of(tree) + seq![10u8]
}

/// The line that names the parent, where there is one.
pub open spec fn parent_field(parent: Option<Seq<u8>>) -> Seq<u8> {
    match parent {
        Some(p) => word_parent() + hex_of(p) + seq![10u8],
        None => Seq::<u8>::empty(),
    }
}

/// What follows the tree and parent lines: author and email, the date, an
/// empty line, and the message with a line end.
pub open spec fn commit_rest(c: CommitText) -> Seq<u8> {
    word_author() + c.author + seq![32u8, 60] + c.email + seq![62u8, 10] + word_date()
        + c.timestamp + seq![10u8, 10] + c.message + seq![10u8]
}

/// The canonical text of a commit.
pub open spec fn commit_bytes(c: CommitText) -> Seq<u8> {
    tree_field(c.tree) + parent_field(c.parent) + commit_rest(c)
}

/// `bytes` begins as the text of a commit with the root tree `tree` and the
/// parent `parent` does.
pub open spec fn header(bytes: Seq<u8>, tree: Seq<u8>, parent: Option<Seq<u8>>) -> bool {
    &&& tree.len() == 20
    &&& has_prefix(bytes, tree_field(tree))
    &&& match parent {
        Some(p) => p.len() == 20 && has_prefix(bytes.skip(46), parent_field(Some(p))),
        None => !has_prefix(bytes.skip(46), word_parent()),
    }
}

/// The text of a commit begins with its own tree and parent.
pub proof fn lemma_header_of_commit(c: CommitText)
    requires
        c.tree.len() == 20,
        c.parent matches Some(p) ==> p.len() == 20,
    ensures
        header(commit_bytes(c), c.tree, c.parent),
{
    let bytes = commit_bytes(c);
    let first = tree_field(c.tree);
    assert(first.len() == 46);
    assert(bytes.subrange(0, 46) =~= first);
    let after = parent_field(c.parent) + commit_rest(c);
    assert(bytes.skip(46) =~= after);
    match c.parent {
        Some(p) => {
            assert(after.subrange(0, parent_field(c.parent).len() as int) =~= parent_field(
                c.parent,
            ));
        },
        None => {
            assert(after =~= commit_rest(c));
            assert(commit_rest(c)[0] == 97u8);
            if has_prefix(after, word_parent()) {
                assert(after.subrange(0, 7)[0] == word_parent()[0]);
            }
        },
    }
}

/// A text begins as a commit does in one way only: the tree and the parent
/// that it names are determined by it.
pub proof fn lemma_header_unique(
    bytes: Seq<u8>,
    tree: Seq<u8>,
    parent: Option<Seq<u8>>,
    tree2: Seq<u8>,
    parent2: Option<Seq<u8>>,
)
    requires
        header(bytes, tree, parent),
        header(bytes, tree2, parent2),
    ensures
        tree == tree2,
        parent == parent2,
{
    let a = tree_field(tree);
    let b = tree_field(tree2);
    assert(a.len() == 46 && b.len() == 46);
    assert(a == b);
    assert(hex_of(tree) =~= a.subrange(5, 45));
    assert(hex_of(tree2) =~= b.subrange(5, 45));
    lemma_hex_injective(tree, tree2);
    let rest = bytes.skip(46);
    match (parent, parent2) {
        (Some(p), Some(q)) => {
            let x = parent_field(Some(p));
            let y = parent_field(Some(q));
            assert(x.len() == 48 && y.len() == 48);
            assert(x == y);
            assert(hex_of(p) =~= x.subrange(7, 47));
            assert(hex_of(q) =~= y.subrange(7, 47));
            lemma_hex_injective(p, q);
        },
        (Some(p), None) => {
            let x = parent_field(Some(p));
            assert(x.len() == 48);
            assert(rest.subrange(0, 7) =~= x.subrange(0, 7));
            assert(x.subrange(0, 7) =~= word_parent());
        },
        (None, Some(q)) => {
            let y = parent_field(Some(q));
            assert(y.len() == 48);
            assert(rest.subrange(0, 7) =~= y.subrange(0, 7));
            assert(y.subrange(0, 7) =~= word_parent());
        },
        (None, None) => {},
    }
}

/// `tree ` as bytes.
fn tree_word() -> (out: Vec<u8>)
    ensures
        out@ == word_tree(),
{
    let mut out: Vec<u8> = Vec::new();
    out.push(116);
    out.push(114);
    out.push(101);
    out.push(101);
    out.push(32);
    assert(out@ =~= word_tree());
    out
}

/// `parent ` as bytes.
fn parent_word() -> (out: Vec<u8>)
    ensures
        out@ == word_parent(),
{
    let mut out: Vec<u8> = Vec::new();
    out.push(112);
    out.push(97);
    out.push(114);
    out.push(101);
    out.push(110);
    out.push(116);
    out.push(32);
    assert(out@ =~= word_parent());
    out
}

/// `author ` as bytes.
fn author_word() -> (out: Vec<u8>)
    ensures
        out@ == word_author(),
{
    let mut out: Vec<u8> = Vec::new();
    out.push(97);
    out.push(117);
    out.push(116);
    out.push(104);
    out.push(111);
    out.push(114);
    out.push(32);
    assert(out@ =~= word_author());
    out
}

/// `date ` as bytes.
fn date_word() -> (out: Vec<u8>)
    ensures
        out@ == word_date(),
{
    let mut out: Vec<u8> = Vec::new();
    out.push(100);
    out.push(97);
    out.push(116);
    out.push(101);
    out.push(32);
    assert(out@ =~= word_date());
    out
}

impl Commit {
    /// The canonical text of the commit.
    pub fn serialize(&self) -> (out: Vec<u8>)
        ensures
            out@ == commit_bytes(self@),
    {
        let mut out = tree_word();
        let hex = self.tree.hex_bytes();
        push_all(&mut out, &hex);
        out.push(10);
        assert(out@ =~= tree_field(self@.tree));
        match self.parent {
            Some(p) => {
                let word = parent_word();
                push_all(&mut out, &word);
                let hex = p.hex_bytes();
                push_all(&mut out, &hex);
                out.push(10);
            },
            None => {},
        }
        assert(out@ =~= tree_field(self@.tree) + parent_field(self@.parent));
        let ghost head = out@;
        let word = author_word();
        push_all(&mut out, &word);
        push_all(&mut out, &self.author);
        out.push(32);
        out.push(60);
        push_all(&mut out, &self.email);
        out.push(62);
        out.push(10);
        let word = date_word();
        push_all(&mut out, &word);
        push_all(&mut out, &self.timestamp);
        out.push(10);
        out.push(10);
        push_all(&mut out, &self.message);
        out.push(10);
        assert(out@ =~= head + commit_rest(self@));
        out
    }

    /// Reads the root tree and the parent from the text of a commit. There
    /// are some exactly when `bytes` begins as the text of a commit does.
    pub fn read_header(bytes: &[u8]) -> (found: Option<(Digest, Option<Digest>)>)
        ensures
            match found {
                Some((tree, parent)) => header(
                    bytes@,
                    tree@,
                    match parent {
                        Some(p) => Some(p@),
                        None => None,
                    },
                ),
                None => forall|tree: Seq<u8>, parent: Option<Seq<u8>>|
                    !header(bytes@, tree, parent),
            },
    {
        let word = tree_word();
        if bytes.len() < 46 || !starts_with(bytes, &word) || bytes[45] != 10 {
            proof {
                assert forall|tree: Seq<u8>, parent: Option<Seq<u8>>| !header(
                    bytes@,
                    tree,
                    parent,
                ) by {
                    if header(bytes@, tree, parent) {
                        let f = tree_field(tree);
                        assert(f.len() == 46);
                        assert(bytes@.subrange(0, 46)[45] == f[45]);
                        assert(bytes@.subrange(0, 5) =~= bytes@.subrange(0, 46).subrange(0, 5));
                        assert(f.subrange(0, 5) =~= word_tree());
                    }
                }
            }
            return None;
        }
        let tree = match Digest::from_hex(slice_subrange(bytes, 5, 45)) {
            Some(tree) => tree,
            None => {
                proof {
                    assert forall|tree: Seq<u8>, parent: Option<Seq<u8>>| !header(
                        bytes@,
                        tree,
                        parent,
                    ) by {
                        if header(bytes@, tree, parent) {
                            let f = tree_field(tree);
                            assert(f.len() == 46);
                            lemma_hex_of_is_hex(tree);
                            assert(bytes@.subrange(5, 45) =~= bytes@.subrange(0, 46).subrange(
                                5,
                                45,
                            ));
                            assert(f.subrange(5, 45) =~= hex_of(tree));
                        }
                    }
                }
                return None;
            },
        };
        proof {
            assert(bytes@.subrange(0, 46) =~= bytes@.subrange(0, 5) + bytes@.subrange(5, 45)
                + seq![10u8]);
        }
        let rest = slice_subrange(bytes, 46, bytes.len());
        assert(rest@ =~= bytes@.skip(46));
        let word = parent_word();
        if !starts_with(rest, &word) {
            return Some((tree, None));
        }
        if rest.len() < 48 || rest[47] != 10 {
            proof {
                assert forall|t: Seq<u8>, parent: Option<Seq<u8>>| !header(bytes@, t, parent) by {
                    if header(bytes@, t, parent) {
                        let f = parent_field(parent);
                        assert(f.len() == 48);
                        assert(rest@.subrange(0, 48)[47] == f[47]);
                    }
                }
            }
            return None;
        }
        match Digest::from_hex(slice_subrange(rest, 7, 47)) {
            Some(parent) => {
                proof {
                    assert(rest@.subrange(0, 48) =~= rest@.subrange(0, 7) + rest@.subrange(7, 47)
                        + seq![10u8]);
                }
                Some((tree, Some(parent)))
            },
            None => {
                proof {
                    assert forall|t: Seq<u8>, parent: Option<Seq<u8>>| !header(
                        bytes@,
                        t,
                        parent,
                    ) by {
                        if header(bytes@, t, parent) {
                            let f = parent_field(parent);
                            assert(f.len() == 48);
                            lemma_hex_of_is_hex(parent->0);
                            assert(rest@.subrange(7, 47) =~= rest@.subrange(0, 48).subrange(
                                7,
                                47,
                            ));
                            assert(f.subrange(7, 47) =~= hex_of(parent->0));
                        }
                    }
                }
                None
            },
        }
    }
}

/// Writes commits.
pub struct CommitBuilder;

impl CommitBuilder {
    /// Stores the commit `commit` and returns its digest. A commit with an
    /// empty message is refused with `EmptyMessage`. Otherwise the commit's
    /// text is put through the store, which fails, with `StorageIoError`,
    /// only where the text is not stored yet and the codec does not give it
    /// back. On an error the store stays as it was. Afterwards the text is
    /// what is read back under the digest, unless other content was stored
    /// under it before.
    pub fn commit(store: &mut ObjectStore, commit: &Commit) -> (res: Result<Digest, StoreError>)
        requires
            old(store).wf(),
        ensures
            final(store).wf(),
            match res {
                Ok(d) => {
                    &&& commit@.message.len() > 0
                    &&& d@ == sha1_of(commit_bytes(commit@))
                    &&& storable(old(store).files(), commit_bytes(commit@))
                    &&& final(store).files() == put_files(
                        old(store).files(),
                        commit_bytes(commit@),
                    )
                    &&& !clash(old(store).files(), commit_bytes(commit@)) ==> reads_back(
                        final(store).files(),
                        commit_bytes(commit@),
                    )
                },
                Err(e) => {
                    &&& final(store).files() == old(store).files()
                    &&& if commit@.message.len() == 0 {
                        e == StoreError::EmptyMessage
                    } else {
                        e == StoreError::StorageIoError && !storable(
                            old(store).files(),
                            commit_bytes(commit@),
                        )
                    }
                },
            },
    {
        if commit.message.len() == 0 {
            return Err(StoreError::EmptyMessage);
        }
        let bytes = commit.serialize();
        store.put(&bytes)
    }
}

/// The digest of a commit.
pub open spec fn commit_digest(c: CommitText) -> Seq<u8> {
    sha1_of(commit_bytes(c))
}

/// Commit chaining: when a commit is stored and then a second one that
/// names the first as its parent, both are in the store, the first as it
/// was, and the text of the second names the digest of the first as its
/// parent.
pub proof fn lemma_commit_chain(files: Seq<StoredFile>, first: CommitText, second: CommitText)
    requires
        files_wf(files),
        second.tree.len() == 20,
        commit_digest(first).len() == 20,
        second.parent == Some(commit_digest(first)),
        storable(files, commit_bytes(first)),
        storable(put_files(files, commit_bytes(first)), commit_bytes(second)),
    ensures
        header(commit_bytes(second), second.tree, Some(commit_digest(first))),
        files_wf(put_files(put_files(files, commit_bytes(first)), commit_bytes(second))),
        stored(
            put_files(put_files(files, commit_bytes(first)), commit_bytes(second)),
            commit_digest(first),
        ),
        stored(
            put_files(put_files(files, commit_bytes(first)), commit_bytes(second)),
            commit_digest(second),
        ),
        content_of(
            put_files(put_files(files, commit_bytes(first)), commit_bytes(second)),
            commit_digest(first),
        ) == content_of(put_files(files, commit_bytes(first)), commit_digest(first)),
{
    lemma_header_of_commit(second);
    let one = put_files(files, commit_bytes(first));
    lemma_put_twice(files, commit_bytes(first));
    if !stored(files, commit_digest(first)) {
        lemma_push_file(
            files,
            StoredFile {
                digest: commit_digest(first),
                payload: zlib_encoded(commit_bytes(first))->0,
            },
        );
    }
    lemma_put_keeps(one, commit_bytes(second), commit_digest(first));
    lemma_put_twice(one, commit_bytes(second));
    if !stored(one, commit_digest(second)) {
        lemma_push_file(
            one,
            StoredFile {
                digest: commit_digest(second),
                payload: zlib_encoded(commit_bytes(second))->0,
            },
        );
    }
}

} // verus!
