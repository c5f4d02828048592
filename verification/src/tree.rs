//! Trees: the snapshot of one directory, its entries listed by name in
//! ascending order, and the serialized form whose digest names the tree.

use crate::bytes::{
    bytes_eq, bytes_less, bytes_lt, lemma_lt_irreflexive, lemma_lt_total, lemma_lt_transitive,
    push_all,
};
use crate::digest::{hex_of, Digest};
use crate::index::{EntryKind, NEWLINE};
use vstd::prelude::*;

verus! {

/// The byte between the digest and the name of a line.
pub const TAB: u8 = 9;

/// One member of a directory snapshot, as a value.
pub struct TreeItem {
    pub kind: EntryKind,
    pub name: Seq<u8>,
    pub digest: Seq<u8>,
}

/// One member of a directory snapshot: a file with the digest of its
/// content, or a directory with the digest of its own tree.
#[derive(Clone, Debug)]
pub struct TreeEntry {
    pub kind: EntryKind,
    pub name: Vec<u8>,
    pub digest: Digest,
}

impl View for TreeEntry {
    type V = TreeItem;

    open spec fn view(&self) -> TreeItem {
        TreeItem { kind: self.kind, name: self.name@, digest: self.digest@ }
    }
}

/// How a line begins: `100644 file ` for a file, `040000 tree ` for a
/// directory.
pub open spec fn mode_of(kind: EntryKind) -> Seq<u8> {
    match kind {
        EntryKind::File => seq![49u8, 48, 48, 54, 52, 52, 32, 102, 105, 108, 101, 32],
        EntryKind::Directory => seq![48u8, 52, 48, 48, 48, 48, 32, 116, 114, 101, 101, 32],
    }
}

/// The line of one entry: mode and kind, the digest in hexadecimal, a tab,
/// the name, and a line end.
pub open spec fn tree_line(item: TreeItem) -> Seq<u8> {
    mode_of(item.kind) + hex_of(item.digest) + seq![TAB] + item.name + seq![NEWLINE]
}

/// The serialized form of a tree: the lines of its entries, in order.
pub open spec fn tree_bytes(items: Seq<TreeItem>) -> Seq<u8>
    decreases items.len(),
{
    if items.len() == 0 {
        Seq::<u8>::empty()
    } else {
        tree_bytes(items.drop_last()) + tree_line(items.last())
    }
}

/// The entries are listed by name in strictly ascending order, so no name
/// occurs twice.
pub open spec fn strictly_sorted(items: Seq<TreeItem>) -> bool {
    forall|i: int, j: int|
        0 <= i < j < items.len() ==> bytes_lt(#[trigger] items[i].name, #[trigger] items[j].name)
}

/// Some entry of `items` has the name `name`.
pub open spec fn has_name(items: Seq<TreeItem>, name: Seq<u8>) -> bool {
    exists|i: int| 0 <= i < items.len() && #[trigger] items[i].name == name
}

/// Two listings in strictly ascending order that hold the same names and
/// agree on the entry of each name are the same listing.
pub proof fn lemma_sorted_unique(a: Seq<TreeItem>, b: Seq<TreeItem>)
    requires
        strictly_sorted(a),
        strictly_sorted(b),
        forall|name: Seq<u8>| has_name(a, name) <==> has_name(b, name),
        forall|i: int, j: int|
            0 <= i < a.len() && 0 <= j < b.len() && #[trigger] a[i].name == #[trigger] b[j].name
                ==> a[i] == b[j],
    ensures
        a == b,
    decreases a.len(),
{
    if a.len() == 0 {
        if b.len() > 0 {
            assert(b[0].name == b[0].name);
            assert(has_name(b, b[0].name));
        }
        assert(a =~= b);
    } else if b.len() == 0 {
        assert(a[0].name == a[0].name);
        assert(has_name(a, a[0].name));
    } else {
        let x = a.last();
        let y = b.last();
        assert(a[a.len() - 1].name == x.name);
        assert(has_name(a, x.name));
        assert(b[b.len() - 1].name == y.name);
        assert(has_name(b, y.name));
        let i = choose|i: int| 0 <= i < a.len() && #[trigger] a[i].name == y.name;
        let j = choose|j: int| 0 <= j < b.len() && #[trigger] b[j].name == x.name;
        if x.name != y.name {
            assert(bytes_lt(a[i].name, x.name));
            assert(bytes_lt(b[j].name, y.name));
            lemma_lt_transitive(x.name, y.name, x.name);
            lemma_lt_irreflexive(x.name);
        }
        assert(x == y);
        let a0 = a.drop_last();
        let b0 = b.drop_last();
        assert forall|name: Seq<u8>| has_name(a0, name) <==> has_name(b0, name) by {
            if has_name(a0, name) {
                let k = choose|k: int| 0 <= k < a0.len() && #[trigger] a0[k].name == name;
                assert(a[k].name == name);
                assert(bytes_lt(a[k].name, x.name));
                assert(has_name(a, name));
                let m = choose|m: int| 0 <= m < b.len() && #[trigger] b[m].name == name;
                if m == b.len() - 1 {
                    lemma_lt_irreflexive(x.name);
                }
                assert(b0[m].name == name);
            }
            if has_name(b0, name) {
                let k = choose|k: int| 0 <= k < b0.len() && #[trigger] b0[k].name == name;
                assert(b[k].name == name);
                assert(bytes_lt(b[k].name, y.name));
                assert(has_name(b, name));
                let m = choose|m: int| 0 <= m < a.len() && #[trigger] a[m].name == name;
                if m == a.len() - 1 {
                    lemma_lt_irreflexive(x.name);
                }
                assert(a0[m].name == name);
            }
        }
        assert forall|i: int, j: int|
            0 <= i < a0.len() && 0 <= j < b0.len() && #[trigger] a0[i].name
                == #[trigger] b0[j].name implies a0[i] == b0[j] by {
            assert(a[i].name == b[j].name);
        }
        assert(strictly_sorted(a0)) by {
            assert forall|i: int, j: int| 0 <= i < j < a0.len() implies bytes_lt(
                #[trigger] a0[i].name,
                #[trigger] a0[j].name,
            ) by {
                assert(bytes_lt(a[i].name, a[j].name));
            }
        }
        assert(strictly_sorted(b0)) by {
            assert forall|i: int, j: int| 0 <= i < j < b0.len() implies bytes_lt(
                #[trigger] b0[i].name,
                #[trigger] b0[j].name,
            ) by {
                assert(bytes_lt(b[i].name, b[j].name));
            }
        }
        lemma_sorted_unique(a0, b0);
        assert(a =~= a0.push(x));
        assert(b =~= b0.push(y));
    }
}

/// The serialized form of a tree with one more entry at the end.
pub proof fn lemma_tree_bytes_push(items: Seq<TreeItem>, item: TreeItem)
    ensures
        tree_bytes(items.push(item)) == tree_bytes(items) + tree_line(item),
{
    assert(items.push(item).drop_last() =~= items);
}

/// The bytes with which the line of an entry of kind `kind` begins.
fn mode_bytes(kind: EntryKind) -> (out: Vec<u8>)
    ensures
        out@ == mode_of(kind),
{
    let mut out: Vec<u8> = Vec::new();
    match kind {
        EntryKind::File => {
            out.push(49);
            out.push(48);
            out.push(48);
            out.push(54);
            out.push(52);
            out.push(52);
            out.push(32);
            out.push(102);
            out.push(105);
            out.push(108);
            out.push(101);
            out.push(32);
        },
        EntryKind::Directory => {
            out.push(48);
            out.push(52);
            out.push(48);
            out.push(48);
            out.push(48);
            out.push(48);
            out.push(32);
            out.push(116);
            out.push(114);
            out.push(101);
            out.push(101);
            out.push(32);
        },
    }
    assert(out@ =~= mode_of(kind));
    out
}

impl TreeEntry {
    /// The entry's line in the serialized form of a tree.
    pub fn line(&self) -> (out: Vec<u8>)
        ensures
            out@ == tree_line(self@),
    {
        let mut out = mode_bytes(self.kind);
        let hex = self.digest.hex_bytes();
        push_all(&mut out, &hex);
        out.push(TAB);
        push_all(&mut out, &self.name);
        out.push(NEWLINE);
        assert(out@ =~= tree_line(self@));
        out
    }
}

/// The snapshot of one directory.
pub struct Tree {
    entries: Vec<TreeEntry>,
}

impl View for Tree {
    type V = Seq<TreeItem>;

    /// The entries, in the order in which they are listed.
    closed spec fn view(&self) -> Seq<TreeItem> {
        Seq::new(self.entries@.len(), |i: int| self.entries@[i]@)
    }
}

impl Tree {
    /// The tree's invariant: listed by name, each name once.
    pub open spec fn wf(&self) -> bool {
        strictly_sorted(self@)
    }

    /// A tree with no entries: the snapshot of an empty directory.
    pub fn new() -> (tree: Tree)
        ensures
            tree.wf(),
            tree@ == Seq::<TreeItem>::empty(),
    {
        let tree = Tree { entries: Vec::new() };
        assert(tree@ =~= Seq::<TreeItem>::empty());
        tree
    }

    /// The number of entries.
    pub fn len(&self) -> (n: usize)
        ensures
            n == self@.len(),
    {
        self.entries.len()
    }

    /// The entry at place `i`.
    pub fn entry(&self, i: usize) -> (e: &TreeEntry)
        requires
            i < self@.len(),
        ensures
            e@ == self@[i as int],
    {
        &self.entries[i]
    }

    /// The place at which an entry named `name` stands or would be added:
    /// every name before it is smaller and no name from it on is.
    fn slot(&self, name: &[u8]) -> (at: usize)
        requires
            self.wf(),
        ensures
            at <= self@.len(),
            forall|k: int| 0 <= k < at ==> bytes_lt((#[trigger] self@[k]).name, name@),
            forall|k: int| at <= k < self@.len() ==> !bytes_lt((#[trigger] self@[k]).name, name@),
    {
        let mut i: usize = 0;
        while i < self.entries.len() && bytes_less(&self.entries[i].name, name)
            invariant
                i <= self.entries@.len(),
                forall|k: int| 0 <= k < i ==> bytes_lt((#[trigger] self@[k]).name, name@),
            decreases self.entries@.len() - i,
        {
            i += 1;
        }
        proof {
            assert forall|k: int| i <= k < self@.len() implies !bytes_lt(
                (#[trigger] self@[k]).name,
                name@,
            ) by {
                if k > i && bytes_lt(self@[k].name, name@) {
                    assert(bytes_lt(self@[i as int].name, self@[k].name));
                    lemma_lt_transitive(self@[i as int].name, self@[k].name, name@);
                }
            }
        }
        i
    }

    /// Whether an entry is named `name`.
    pub fn has(&self, name: &[u8]) -> (found: bool)
        requires
            self.wf(),
        ensures
            found == has_name(self@, name@),
    {
        let at = self.slot(name);
        let found = at < self.entries.len() && bytes_eq(&self.entries[at].name, name);
        proof {
            if !found {
                assert forall|k: int| 0 <= k < self@.len() implies (#[trigger] self@[k]).name
                    != name@ by {
                    if k < at {
                        lemma_lt_irreflexive(name@);
                    } else if k > at {
                        lemma_lt_total(self@[at as int].name, name@);
                        assert(bytes_lt(self@[at as int].name, self@[k].name));
                        if self@[k].name == name@ {
                            lemma_lt_transitive(name@, self@[at as int].name, name@);
                            lemma_lt_irreflexive(name@);
                        }
                    }
                }
            } else {
                assert(self@[at as int].name == name@);
            }
        }
        found
    }

    /// Adds `entry` at its place in the order of names, unless an entry of
    /// that name is there already; the result says whether it was added.
    pub fn insert(&mut self, entry: TreeEntry) -> (added: bool)
        requires
            old(self).wf(),
        ensures
            final(self).wf(),
            added == !has_name(old(self)@, entry@.name),
            added ==> exists|at: int|
                0 <= at <= old(self)@.len() && final(self)@ == #[trigger] old(self)@.insert(
                    at,
                    entry@,
                ),
            !added ==> final(self)@ == old(self)@,
    {
        if self.has(&entry.name) {
            return false;
        }
        let at = self.slot(&entry.name);
        let ghost before = self@;
        let ghost item = entry@;
        self.entries.insert(at, entry);
        proof {
            assert(self@ =~= before.insert(at as int, item));
            assert forall|i: int, j: int| 0 <= i < j < self@.len() implies bytes_lt(
                #[trigger] self@[i].name,
                #[trigger] self@[j].name,
            ) by {
                if j < at {
                    assert(bytes_lt(before[i].name, before[j].name));
                } else if j == at {
                    assert(bytes_lt(before[i].name, item.name));
                } else if i == at {
                    assert(before[j - 1].name != item.name);
                    lemma_lt_total(before[j - 1].name, item.name);
                } else if i < at {
                    assert(bytes_lt(before[i].name, before[j - 1].name));
                } else {
                    assert(bytes_lt(before[i - 1].name, before[j - 1].name));
                }
            }
        }
        true
    }

    /// The serialized form of the tree: one line for each entry, in order.
    pub fn serialize(&self) -> (out: Vec<u8>)
        ensures
            out@ == tree_bytes(self@),
    {
        let mut out: Vec<u8> = Vec::new();
        let mut i: usize = 0;
        while i < self.entries.len()
            invariant
                i <= self.entries@.len(),
                out@ == tree_bytes(self@.subrange(0, i as int)),
            decreases self.entries@.len() - i,
        {
            let line = self.entries[i].line();
            push_all(&mut out, &line);
            proof {
                lemma_tree_bytes_push(self@.subrange(0, i as int), self@[i as int]);
                assert(self@.subrange(0, i + 1) =~= self@.subrange(0, i as int).push(
                    self@[i as int],
                ));
            }
            i += 1;
        }
        assert(self@.subrange(0, i as int) =~= self@);
        out
    }
}

} // verus!
