//! The trees that a staged set gives rise to: which names a directory
//! holds, the tree of each directory, and what a store holds once the trees
//! were built.

use crate::bytes::{
    bytes_lt, first_at, has_prefix, lemma_first_at, lemma_first_at_is, lemma_lt_total,
    lemma_lt_transitive,
};
use crate::codec::{holds, zlib_encoded};
use crate::digest::sha1_of;
use crate::index::{
    entries_wf, lemma_record_commutes, record_entries, valid_entry, valid_path, EntryKind, Staged,
    SLASH,
};
use crate::object_store::{
    clash, files_wf, lemma_place_of, lemma_prefix_wf, place_of, reads_back, stored, StoredFile,
};
use crate::tree::{tree_bytes, TreeItem};
use vstd::prelude::*;

verus! {

/// `path` lies below the directory whose paths begin with `prefix`.
pub open spec fn under(path: Seq<u8>, prefix: Seq<u8>) -> bool {
    path.len() > prefix.len() && has_prefix(path, prefix)
}

/// The name under which `path` shows in the directory of `prefix`: what
/// follows the prefix, up to the next separator.
pub open spec fn name_in(path: Seq<u8>, prefix: Seq<u8>) -> Seq<u8> {
    path.subrange(prefix.len() as int, first_at(path, prefix.len() as int, SLASH))
}

/// The directory of `prefix` has a member called `name`.
pub open spec fn child(set: Set<Staged>, prefix: Seq<u8>, name: Seq<u8>) -> bool {
    exists|e: Staged| #[trigger]
        set.contains(e) && under(e.path, prefix) && name_in(e.path, prefix) == name
}

/// The names of the members of the directory of `prefix`.
pub open spec fn child_names(set: Set<Staged>, prefix: Seq<u8>) -> Set<Seq<u8>> {
    Set::new(|name: Seq<u8>| child(set, prefix, name))
}

/// A file is staged at `path`.
pub open spec fn file_at(set: Set<Staged>, path: Seq<u8>) -> bool {
    exists|e: Staged| #[trigger] set.contains(e) && e.path == path && e.kind == EntryKind::File
}

/// The file staged at `path`.
pub open spec fn file_entry(set: Set<Staged>, path: Seq<u8>) -> Staged {
    choose|e: Staged| #[trigger] set.contains(e) && e.path == path && e.kind == EntryKind::File
}

/// The names come in strictly ascending order.
pub open spec fn ascending(names: Seq<Seq<u8>>) -> bool {
    forall|i: int, j: int|
        0 <= i < j < names.len() ==> bytes_lt(#[trigger] names[i], #[trigger] names[j])
}

/// `names` lists exactly the names in `wanted`, in ascending order.
pub open spec fn lists(names: Seq<Seq<u8>>, wanted: Set<Seq<u8>>) -> bool {
    ascending(names) && forall|name: Seq<u8>| wanted.contains(name) <==> names.contains(name)
}

/// The names in `wanted` in ascending order.
pub open spec fn sorted_names(wanted: Set<Seq<u8>>) -> Seq<Seq<u8>> {
    choose|names: Seq<Seq<u8>>| lists(names, wanted)
}

/// The entry for the member `name` of the directory of `prefix`: the staged
/// file where a file is staged at that path, else a directory with the digest
/// `below` of its own tree.
pub open spec fn make_item(set: Set<Staged>, prefix: Seq<u8>, name: Seq<u8>, below: Seq<u8>) -> TreeItem {
    if file_at(set, prefix + name) {
        TreeItem { kind: EntryKind::File, name, digest: file_entry(set, prefix + name).digest }
    } else {
        TreeItem { kind: EntryKind::Directory, name, digest: below }
    }
}

/// The tree of the directory of `prefix`: its members by name in ascending
/// order, each directory among them with the digest of its own tree. `bound`
/// is a length that no staged path exceeds.
pub open spec fn listing(set: Set<Staged>, prefix: Seq<u8>, bound: nat) -> Seq<TreeItem>
    decreases bound + 1 - prefix.len(),
{
    let names = sorted_names(child_names(set, prefix));
    Seq::new(
        names.len(),
        |i: int|
            make_item(
                set,
                prefix,
                names[i],
                if prefix.len() + names[i].len() <= bound {
                    sha1_of(tree_bytes(listing(set, prefix + names[i] + seq![SLASH], bound)))
                } else {
                    Seq::<u8>::empty()
                },
            ),
    )
}

/// The digest of the tree of the directory of `prefix`.
pub open spec fn tree_digest(set: Set<Staged>, prefix: Seq<u8>, bound: nat) -> Seq<u8> {
    sha1_of(tree_bytes(listing(set, prefix, bound)))
}

/// The entry for the member `name` of the directory of `prefix`.
pub open spec fn item_of(set: Set<Staged>, prefix: Seq<u8>, name: Seq<u8>, bound: nat) -> TreeItem {
    make_item(
        set,
        prefix,
        name,
        if prefix.len() + name.len() <= bound {
            tree_digest(set, prefix + name + seq![SLASH], bound)
        } else {
            Seq::<u8>::empty()
        },
    )
}

/// No staged path is longer than `bound`.
pub open spec fn bounds(set: Set<Staged>, bound: nat) -> bool {
    forall|e: Staged| #[trigger] set.contains(e) ==> e.path.len() <= bound
}

/// The length of the longest staged path: the least length that none
/// exceeds.
pub open spec fn reach(set: Set<Staged>) -> nat {
    choose|n: nat| bounds(set, n) && forall|m: nat| bounds(set, m) ==> n <= m
}

/// The length of the longest path among `s`.
pub open spec fn longest(s: Seq<Staged>) -> nat
    decreases s.len(),
{
    if s.len() == 0 {
        0
    } else if s.last().path.len() > longest(s.drop_last()) {
        s.last().path.len()
    } else {
        longest(s.drop_last())
    }
}

/// The longest path among `s` is as long as the least length that none
/// exceeds.
pub proof fn lemma_longest(s: Seq<Staged>)
    ensures
        bounds(s.to_set(), longest(s)),
        forall|m: nat| bounds(s.to_set(), m) ==> longest(s) <= m,
    decreases s.len(),
{
    if s.len() > 0 {
        let front = s.drop_last();
        lemma_longest(front);
        assert forall|e: Staged| #[trigger] s.to_set().contains(e) implies e.path.len() <= longest(
            s,
        ) by {
            let i = choose|i: int| 0 <= i < s.len() && s[i] == e;
            if i < s.len() - 1 {
                assert(front[i] == e);
                assert(front.to_set().contains(e));
            }
        }
        assert forall|m: nat| bounds(s.to_set(), m) implies longest(s) <= m by {
            assert(s[s.len() - 1] == s.last());
            assert(s.to_set().contains(s.last()));
            assert forall|e: Staged| #[trigger] front.to_set().contains(e) implies e.path.len()
                <= m by {
                let i = choose|i: int| 0 <= i < front.len() && front[i] == e;
                assert(s[i] == e);
                assert(s.to_set().contains(e));
            }
            assert(bounds(front.to_set(), m));
            assert(s.last().path.len() <= m);
        }
    }
}

/// No staged path is longer than the reach of the staged set.
pub proof fn lemma_reach(s: Seq<Staged>)
    ensures
        bounds(s.to_set(), reach(s.to_set())),
{
    lemma_longest(s);
    let n = longest(s);
    assert(bounds(s.to_set(), n) && forall|m: nat| bounds(s.to_set(), m) ==> n <= m);
}

/// No two staged entries have the same path.
pub open spec fn paths_unique(set: Set<Staged>) -> bool {
    forall|a: Staged, b: Staged|
        #![trigger set.contains(a), set.contains(b)]
        set.contains(a) && set.contains(b) && a.path == b.path ==> a == b
}

/// The entries of a well-formed index, taken as a set, have unique paths.
pub proof fn lemma_paths_unique(s: Seq<Staged>)
    requires
        entries_wf(s),
    ensures
        paths_unique(s.to_set()),
{
    assert forall|a: Staged, b: Staged|
        #![trigger s.to_set().contains(a), s.to_set().contains(b)]
        s.to_set().contains(a) && s.to_set().contains(b) && a.path == b.path implies a == b by {
        let i = choose|i: int| 0 <= i < s.len() && s[i] == a;
        let j = choose|j: int| 0 <= j < s.len() && s[j] == b;
        assert(s[i].path == s[j].path);
    }
}

/// The tree of a directory, entry by entry: as many entries as the directory
/// has names, in ascending order, each the entry of its name.
pub proof fn lemma_listing(set: Set<Staged>, prefix: Seq<u8>, bound: nat, names: Seq<Seq<u8>>)
    requires
        lists(names, child_names(set, prefix)),
    ensures
        listing(set, prefix, bound).len() == sorted_names(child_names(set, prefix)).len(),
        lists(sorted_names(child_names(set, prefix)), child_names(set, prefix)),
        forall|i: int|
            0 <= i < listing(set, prefix, bound).len() ==> #[trigger] listing(
                set,
                prefix,
                bound,
            )[i] == item_of(set, prefix, sorted_names(child_names(set, prefix))[i], bound),
        forall|i: int|
            0 <= i < listing(set, prefix, bound).len() ==> (#[trigger] listing(
                set,
                prefix,
                bound,
            )[i]).name == sorted_names(child_names(set, prefix))[i],
{
}

/// One of the first `upto` entries of `s` shows in the directory of `prefix`
/// under `name`.
pub open spec fn seen(s: Seq<Staged>, upto: int, prefix: Seq<u8>, name: Seq<u8>) -> bool {
    exists|k: int|
        0 <= k < upto && under(#[trigger] s[k].path, prefix) && name_in(s[k].path, prefix) == name
}

/// What the first `upto + 1` entries show is what the first `upto` show and
/// what the entry at `upto` shows.
pub proof fn lemma_seen_step(s: Seq<Staged>, upto: int, prefix: Seq<u8>)
    requires
        0 <= upto < s.len(),
    ensures
        forall|n: Seq<u8>|
            seen(s, upto + 1, prefix, n) <==> seen(s, upto, prefix, n) || (under(
                s[upto].path,
                prefix,
            ) && name_in(s[upto].path, prefix) == n),
{
    assert forall|n: Seq<u8>|
        seen(s, upto + 1, prefix, n) <==> seen(s, upto, prefix, n) || (under(s[upto].path, prefix)
            && name_in(s[upto].path, prefix) == n) by {
        if seen(s, upto, prefix, n) {
            let k = choose|k: int|
                0 <= k < upto && under(#[trigger] s[k].path, prefix) && name_in(s[k].path, prefix)
                    == n;
            assert(under(s[k].path, prefix));
        }
        if under(s[upto].path, prefix) && name_in(s[upto].path, prefix) == n {
            assert(seen(s, upto + 1, prefix, n));
        }
        if seen(s, upto + 1, prefix, n) {
            let k = choose|k: int|
                0 <= k < upto + 1 && under(#[trigger] s[k].path, prefix) && name_in(
                    s[k].path,
                    prefix,
                ) == n;
            if k < upto {
                assert(under(s[k].path, prefix));
                assert(seen(s, upto, prefix, n));
            }
        }
    }
}

/// What the entries of an index show in a directory is what the directory
/// holds.
pub proof fn lemma_seen_all(s: Seq<Staged>, prefix: Seq<u8>)
    ensures
        forall|n: Seq<u8>| seen(s, s.len() as int, prefix, n) <==> child(s.to_set(), prefix, n),
{
    let set = s.to_set();
    assert forall|n: Seq<u8>| seen(s, s.len() as int, prefix, n) <==> child(set, prefix, n) by {
        if seen(s, s.len() as int, prefix, n) {
            let k = choose|k: int|
                0 <= k < s.len() && under(#[trigger] s[k].path, prefix) && name_in(
                    s[k].path,
                    prefix,
                ) == n;
            assert(s.contains(s[k]));
            assert(set.contains(s[k]));
        }
        if child(set, prefix, n) {
            let c = choose|c: Staged| #[trigger]
                set.contains(c) && under(c.path, prefix) && name_in(c.path, prefix) == n;
            assert(s.contains(c));
            let k = choose|k: int| 0 <= k < s.len() && s[k] == c;
            assert(under(s[k].path, prefix));
        }
    }
}

/// `names` with `name` added at its place in the order.
pub proof fn insert_name(names: Seq<Seq<u8>>, name: Seq<u8>) -> (out: Seq<Seq<u8>>)
    requires
        ascending(names),
        !names.contains(name),
    ensures
        ascending(out),
        forall|m: Seq<u8>| out.contains(m) <==> names.contains(m) || m == name,
    decreases names.len(),
{
    if names.len() == 0 {
        let out = seq![name];
        assert(out[0] == name);
        out
    } else if bytes_lt(names.last(), name) {
        let out = names.push(name);
        assert forall|i: int, j: int| 0 <= i < j < out.len() implies bytes_lt(
            #[trigger] out[i],
            #[trigger] out[j],
        ) by {
            if j == names.len() && i < names.len() - 1 {
                assert(bytes_lt(names[i], names[names.len() - 1]));
                lemma_lt_transitive(names[i], names.last(), name);
            }
        }
        assert forall|m: Seq<u8>| out.contains(m) <==> names.contains(m) || m == name by {
            if names.contains(m) {
                let i = choose|i: int| 0 <= i < names.len() && names[i] == m;
                assert(out[i] == m);
            }
            if m == name {
                assert(out[names.len() as int] == m);
            }
            if out.contains(m) {
                let i = choose|i: int| 0 <= i < out.len() && out[i] == m;
                if i < names.len() {
                    assert(names[i] == m);
                }
            }
        }
        out
    } else {
        let front = names.drop_last();
        let last = names.last();
        assert(ascending(front)) by {
            assert forall|i: int, j: int| 0 <= i < j < front.len() implies bytes_lt(
                #[trigger] front[i],
                #[trigger] front[j],
            ) by {
                assert(bytes_lt(names[i], names[j]));
            }
        }
        if front.contains(name) {
            let i = choose|i: int| 0 <= i < front.len() && front[i] == name;
            assert(names[i] == name);
        }
        let placed = insert_name(front, name);
        let out = placed.push(last);
        assert(names[names.len() - 1] == last);
        lemma_lt_total(last, name);
        assert forall|i: int, j: int| 0 <= i < j < out.len() implies bytes_lt(
            #[trigger] out[i],
            #[trigger] out[j],
        ) by {
            if j == placed.len() {
                assert(placed.contains(placed[i]));
                if placed[i] != name {
                    let k = choose|k: int| 0 <= k < front.len() && front[k] == placed[i];
                    assert(bytes_lt(names[k], names[names.len() - 1]));
                }
            } else {
                assert(bytes_lt(placed[i], placed[j]));
            }
        }
        assert forall|m: Seq<u8>| out.contains(m) <==> names.contains(m) || m == name by {
            if names.contains(m) {
                let i = choose|i: int| 0 <= i < names.len() && names[i] == m;
                if i < front.len() {
                    assert(front[i] == m);
                    assert(front.contains(m));
                    assert(placed.contains(m));
                    let k = choose|k: int| 0 <= k < placed.len() && placed[k] == m;
                    assert(out[k] == m);
                } else {
                    assert(out[placed.len() as int] == m);
                }
            }
            if m == name {
                assert(placed.contains(m));
                let k = choose|k: int| 0 <= k < placed.len() && placed[k] == m;
                assert(out[k] == m);
            }
            if out.contains(m) {
                let i = choose|i: int| 0 <= i < out.len() && out[i] == m;
                if i < placed.len() {
                    assert(placed[i] == m);
                    assert(placed.contains(m));
                    if m != name {
                        assert(front.contains(m));
                        let k = choose|k: int| 0 <= k < front.len() && front[k] == m;
                        assert(names[k] == m);
                    }
                } else {
                    assert(names[names.len() - 1] == m);
                }
            }
        }
        out
    }
}

/// The names under which the first `upto` entries of `s` show in the
/// directory of `prefix`, in ascending order.
pub proof fn names_seen(s: Seq<Staged>, upto: int, prefix: Seq<u8>) -> (names: Seq<Seq<u8>>)
    requires
        0 <= upto <= s.len(),
    ensures
        ascending(names),
        forall|n: Seq<u8>| names.contains(n) <==> seen(s, upto, prefix, n),
    decreases upto,
{
    if upto == 0 {
        Seq::<Seq<u8>>::empty()
    } else {
        let before = names_seen(s, upto - 1, prefix);
        lemma_seen_step(s, upto - 1, prefix);
        let name = name_in(s[upto - 1].path, prefix);
        if under(s[upto - 1].path, prefix) && !before.contains(name) {
            insert_name(before, name)
        } else {
            before
        }
    }
}

/// Every directory of a staged set has a listing: the names of its members
/// can be put in ascending order.
pub proof fn lemma_sorted_names(s: Seq<Staged>, prefix: Seq<u8>)
    ensures
        lists(sorted_names(child_names(s.to_set(), prefix)), child_names(s.to_set(), prefix)),
{
    let names = names_seen(s, s.len() as int, prefix);
    lemma_seen_all(s, prefix);
    assert(lists(names, child_names(s.to_set(), prefix)));
}

/// The prefix with which the paths below the directory `root` begin: `root`
/// itself where it is empty or ends in a separator, else `root` and a
/// separator.
pub open spec fn root_prefix(root: Seq<u8>) -> Seq<u8> {
    if root.len() == 0 || root.last() == SLASH {
        root
    } else {
        root + seq![SLASH]
    }
}

/// A staged file has no object stored under its digest.
pub open spec fn missing(set: Set<Staged>, files: Seq<StoredFile>) -> bool {
    exists|e: Staged| #[trigger]
        set.contains(e) && e.kind == EntryKind::File && !stored(files, e.digest)
}

/// A path staged as a file is also the directory of another staged path.
pub open spec fn shadowed(set: Set<Staged>) -> bool {
    exists|f: Staged, e: Staged|
        #![trigger set.contains(f), set.contains(e)]
        set.contains(f) && set.contains(e) && f.kind == EntryKind::File && under(
            e.path,
            f.path + seq![SLASH],
        )
}

/// A staged path does not lie below the directory of `prefix`.
pub open spec fn outside(set: Set<Staged>, prefix: Seq<u8>) -> bool {
    exists|e: Staged| #[trigger] set.contains(e) && !under(e.path, prefix)
}

/// The staged set has drifted from what a snapshot below `prefix` can hold:
/// content is missing from the store, a file stands where a directory is
/// needed, or a path lies elsewhere.
pub open spec fn stale(set: Set<Staged>, files: Seq<StoredFile>, prefix: Seq<u8>) -> bool {
    missing(set, files) || shadowed(set) || outside(set, prefix)
}

/// The serialized form of the tree of the directory `root`.
pub open spec fn root_text(set: Set<Staged>, root: Seq<u8>) -> Seq<u8> {
    tree_bytes(listing(set, root_prefix(root), reach(set)))
}

/// The digest of the tree of the directory `root`.
pub open spec fn root_digest(set: Set<Staged>, root: Seq<u8>) -> Seq<u8> {
    tree_digest(set, root_prefix(root), reach(set))
}

/// `prefix` is what the paths below a directory begin with: nothing, or
/// something that ends in a separator.
pub open spec fn dir_prefix(prefix: Seq<u8>) -> bool {
    prefix.len() == 0 || prefix.last() == SLASH
}

/// Every staged path is valid.
pub open spec fn all_valid(set: Set<Staged>) -> bool {
    forall|e: Staged| #[trigger] set.contains(e) ==> valid_path(e.path)
}

/// The entry `e` lies in the directory whose paths begin with `p`, or is
/// that directory, staged as one.
pub open spec fn witnesses(e: Staged, p: Seq<u8>) -> bool {
    under(e.path, p) || (e.kind == EntryKind::Directory && e.path + seq![SLASH] == p)
}

/// The staged set gives rise to the directory whose paths begin with `p`:
/// something is staged below it, or it is staged as a directory itself.
pub open spec fn is_dir(set: Set<Staged>, p: Seq<u8>) -> bool {
    p.len() > 0 && p.last() == SLASH && exists|e: Staged| #[trigger]
        set.contains(e) && witnesses(e, p)
}

/// The directory of `p` is one whose tree is built with the tree of the
/// directory of `prefix`: that directory itself, or one below it.
pub open spec fn built(set: Set<Staged>, prefix: Seq<u8>, p: Seq<u8>) -> bool {
    p == prefix || (under(p, prefix) && is_dir(set, p))
}

/// The object file of the tree of the directory of `p`.
pub open spec fn tree_file(set: Set<Staged>, p: Seq<u8>, bound: nat) -> StoredFile {
    StoredFile {
        digest: tree_digest(set, p, bound),
        payload: zlib_encoded(tree_bytes(listing(set, p, bound)))->0,
    }
}

/// The tree of every directory built with that of `prefix` is among
/// `files`.
pub open spec fn trees_stored(
    set: Set<Staged>,
    files: Seq<StoredFile>,
    prefix: Seq<u8>,
    bound: nat,
) -> bool {
    forall|p: Seq<u8>| #[trigger] built(set, prefix, p) ==> stored(files, tree_digest(set, p, bound))
}

/// `file` is the tree of the directory of `p`: it is named by the tree's
/// digest, it holds the stream that the encoder gives for the tree's
/// serialized form, and that form is read back from it.
pub open spec fn is_tree_file(set: Set<Staged>, p: Seq<u8>, bound: nat, file: StoredFile) -> bool {
    file == tree_file(set, p, bound) && holds(file.payload, tree_bytes(listing(set, p, bound)))
}

/// `file` is the tree of a directory built with that of `prefix`.
pub open spec fn is_built_tree(set: Set<Staged>, prefix: Seq<u8>, bound: nat, file: StoredFile) -> bool {
    exists|p: Seq<u8>| #[trigger] built(set, prefix, p) && is_tree_file(set, p, bound, file)
}

/// No digest stands for two things: no object stored in `files` has the
/// digest of a tree built with that of `prefix` without being that tree, and
/// no two such trees that differ have the same digest.
pub open spec fn unclashed(
    set: Set<Staged>,
    files: Seq<StoredFile>,
    prefix: Seq<u8>,
    bound: nat,
) -> bool {
    &&& forall|p: Seq<u8>| #[trigger]
        built(set, prefix, p) ==> !clash(files, tree_bytes(listing(set, p, bound)))
    &&& forall|p: Seq<u8>, q: Seq<u8>|
        #![trigger built(set, prefix, p), built(set, prefix, q)]
        built(set, prefix, p) && built(set, prefix, q) && tree_digest(set, p, bound)
            == tree_digest(set, q, bound) ==> listing(set, p, bound) == listing(set, q, bound)
}

/// The tree of every directory built with that of `prefix` is read back
/// from `files`, under its digest, as its serialized form.
pub open spec fn trees_read_back(
    set: Set<Staged>,
    files: Seq<StoredFile>,
    prefix: Seq<u8>,
    bound: nat,
) -> bool {
    forall|p: Seq<u8>| #[trigger]
        built(set, prefix, p) ==> reads_back(files, tree_bytes(listing(set, p, bound)))
}

/// Every file of `after` that is not in `before` is the tree of a directory
/// built with that of `prefix`.
pub open spec fn only_trees_added(
    set: Set<Staged>,
    before: Seq<StoredFile>,
    after: Seq<StoredFile>,
    prefix: Seq<u8>,
    bound: nat,
) -> bool {
    forall|i: int|
        before.len() <= i < after.len() ==> is_built_tree(set, prefix, bound, #[trigger] after[i])
}

/// The entries of a well-formed index, taken as a set, are all valid.
pub proof fn lemma_all_valid(s: Seq<Staged>)
    requires
        entries_wf(s),
    ensures
        all_valid(s.to_set()),
{
    assert forall|e: Staged| #[trigger] s.to_set().contains(e) implies valid_path(e.path) by {
        let i = choose|i: int| 0 <= i < s.len() && s[i] == e;
        assert(valid_path(s[i].path));
    }
}

/// What was stored stays stored when files are added.
pub proof fn lemma_stored_grows(before: Seq<StoredFile>, after: Seq<StoredFile>, digest: Seq<u8>)
    requires
        before.is_prefix_of(after),
        stored(before, digest),
    ensures
        stored(after, digest),
{
    let i = choose|i: int| 0 <= i < before.len() && #[trigger] before[i].digest == digest;
    assert(after[i] == before[i]);
    assert(after[i].digest == digest);
}

/// Trees that were stored stay stored when files are added.
pub proof fn lemma_trees_stored_grows(
    set: Set<Staged>,
    before: Seq<StoredFile>,
    after: Seq<StoredFile>,
    prefix: Seq<u8>,
    bound: nat,
)
    requires
        before.is_prefix_of(after),
        trees_stored(set, before, prefix, bound),
    ensures
        trees_stored(set, after, prefix, bound),
{
    assert forall|p: Seq<u8>| #[trigger] built(set, prefix, p) implies stored(
        after,
        tree_digest(set, p, bound),
    ) by {
        lemma_stored_grows(before, after, tree_digest(set, p, bound));
    }
}

/// If only trees were added from `a` to `b` and from `b` to `c`, only trees
/// were added from `a` to `c`.
pub proof fn lemma_only_trees_chain(
    set: Set<Staged>,
    a: Seq<StoredFile>,
    b: Seq<StoredFile>,
    c: Seq<StoredFile>,
    prefix: Seq<u8>,
    bound: nat,
)
    requires
        a.is_prefix_of(b),
        b.is_prefix_of(c),
        only_trees_added(set, a, b, prefix, bound),
        only_trees_added(set, b, c, prefix, bound),
    ensures
        only_trees_added(set, a, c, prefix, bound),
        a.is_prefix_of(c),
{
    assert forall|i: int| a.len() <= i < c.len() implies is_built_tree(
        set,
        prefix,
        bound,
        #[trigger] c[i],
    ) by {
        if i < b.len() {
            assert(c[i] == b[i]);
        }
    }
    assert(a =~= c.subrange(0, a.len() as int));
}

/// The member under which a staged path shows in a directory, where no file
/// is staged at it, is a directory built with that directory's tree, and so
/// is every directory built with the member's.
pub proof fn lemma_member_is_dir(set: Set<Staged>, prefix: Seq<u8>, e: Staged)
    requires
        all_valid(set),
        set.contains(e),
        under(e.path, prefix),
        !file_at(set, prefix + name_in(e.path, prefix)),
    ensures
        built(set, prefix, prefix + name_in(e.path, prefix) + seq![SLASH]),
        forall|p: Seq<u8>|
            built(set, prefix + name_in(e.path, prefix) + seq![SLASH], p) ==> built(
                set,
                prefix,
                p,
            ),
{
    let name = name_in(e.path, prefix);
    let q = prefix + name + seq![SLASH];
    let end = first_at(e.path, prefix.len() as int, SLASH);
    lemma_first_at(e.path, prefix.len() as int, SLASH);
    assert(e.path.subrange(0, end) =~= prefix + name);
    assert(q.subrange(0, prefix.len() as int) =~= prefix);
    if end < e.path.len() {
        assert(e.path.subrange(0, end + 1) =~= q);
        assert(under(e.path, q));
    } else {
        assert(e.path =~= prefix + name);
        assert(e.kind == EntryKind::Directory);
        assert(e.path + seq![SLASH] =~= q);
    }
    assert(witnesses(e, q));
    assert(is_dir(set, q));
    assert(built(set, prefix, q));
    assert forall|p: Seq<u8>| built(set, q, p) implies built(set, prefix, p) by {
        if p != q {
            assert(p.subrange(0, prefix.len() as int) =~= p.subrange(0, q.len() as int).subrange(
                0,
                prefix.len() as int,
            ));
        }
    }
}

/// If only trees of the directories built with a member's tree were added,
/// only trees of the directories built with the directory's tree were.
pub proof fn lemma_only_trees_lift(
    set: Set<Staged>,
    before: Seq<StoredFile>,
    after: Seq<StoredFile>,
    prefix: Seq<u8>,
    e: Staged,
    bound: nat,
)
    requires
        all_valid(set),
        set.contains(e),
        under(e.path, prefix),
        !file_at(set, prefix + name_in(e.path, prefix)),
        only_trees_added(
            set,
            before,
            after,
            prefix + name_in(e.path, prefix) + seq![SLASH],
            bound,
        ),
    ensures
        only_trees_added(set, before, after, prefix, bound),
{
    let q = prefix + name_in(e.path, prefix) + seq![SLASH];
    lemma_member_is_dir(set, prefix, e);
    assert forall|i: int| before.len() <= i < after.len() implies is_built_tree(
        set,
        prefix,
        bound,
        #[trigger] after[i],
    ) by {
        assert(is_built_tree(set, q, bound, after[i]));
        let p = choose|p: Seq<u8>| #[trigger]
            built(set, q, p) && is_tree_file(set, p, bound, after[i]);
        assert(built(set, prefix, p) && is_tree_file(set, p, bound, after[i]));
    }
}

/// A directory below the directory of `prefix` lies in one of its members:
/// its first component is the name of a member at which no file is staged,
/// and the directory is built with that member's tree.
pub proof fn lemma_dir_descends(set: Set<Staged>, prefix: Seq<u8>, p: Seq<u8>)
    requires
        all_valid(set),
        paths_unique(set),
        !shadowed(set),
        dir_prefix(prefix),
        under(p, prefix),
        is_dir(set, p),
    ensures
        child(set, prefix, name_in(p, prefix)),
        !file_at(set, prefix + name_in(p, prefix)),
        built(set, prefix + name_in(p, prefix) + seq![SLASH], p),
{
    let from = prefix.len() as int;
    let k = first_at(p, from, SLASH);
    lemma_first_at(p, from, SLASH);
    assert(k < p.len()) by {
        if k == p.len() {
            assert(p[p.len() - 1] != SLASH);
        }
    }
    let name = name_in(p, prefix);
    let q = prefix + name + seq![SLASH];
    assert(p.subrange(0, from) == prefix);
    assert(q =~= p.subrange(0, k + 1));
    let e = choose|e: Staged| #[trigger] set.contains(e) && witnesses(e, p);
    // the witness lies below `prefix` and shows there under `name`
    if under(e.path, p) {
        assert(e.path.subrange(0, from) =~= e.path.subrange(0, p.len() as int).subrange(0, from));
        assert forall|i: int| from <= i < k implies e.path[i] != SLASH by {
            assert(e.path[i] == e.path.subrange(0, p.len() as int)[i]);
        }
        assert(e.path[k] == e.path.subrange(0, p.len() as int)[k]);
        lemma_first_at_is(e.path, from, SLASH, k);
        assert(name_in(e.path, prefix) =~= name);
        assert(e.path.subrange(0, q.len() as int) =~= e.path.subrange(0, p.len() as int).subrange(
            0,
            q.len() as int,
        ));
        assert(under(e.path, q));
    } else {
        let n = e.path.len() as int;
        assert((e.path + seq![SLASH]).len() == n + 1);
        assert(n == p.len() - 1);
        assert forall|i: int| 0 <= i < n implies e.path[i] == p[i] by {
            assert((e.path + seq![SLASH])[i] == e.path[i]);
        }
        if n == from {
            assert(e.path =~= prefix);
        }
        assert(e.path.subrange(0, from) =~= prefix);
        assert(under(e.path, prefix));
        assert forall|i: int| from <= i < k implies e.path[i] != SLASH by {
            assert(e.path[i] == p[i]);
        }
        if k < n {
            assert(e.path[k] == p[k]);
            lemma_first_at_is(e.path, from, SLASH, k);
            assert(e.path.subrange(0, q.len() as int) =~= q);
            if n == q.len() {
                assert(e.path.last() == q.last());
            }
            assert(under(e.path, q));
        } else {
            lemma_first_at_is(e.path, from, SLASH, n);
            assert(p =~= q);
        }
        assert(name_in(e.path, prefix) =~= name);
    }
    assert(child(set, prefix, name));
    if file_at(set, prefix + name) {
        let f = choose|f: Staged| #[trigger]
            set.contains(f) && f.path == prefix + name && f.kind == EntryKind::File;
        assert(f.path + seq![SLASH] =~= q);
        if under(e.path, q) {
            assert(set.contains(f) && set.contains(e));
            assert(shadowed(set));
        } else {
            assert(e.path + seq![SLASH] == q);
            assert(e.path =~= q.subrange(0, q.len() - 1));
            assert(f.path =~= q.subrange(0, q.len() - 1));
            assert(set.contains(f) && set.contains(e));
        }
    }
    if p != q {
        assert(p.subrange(0, q.len() as int) =~= q);
    }
}

/// The directory in which `path` lies: the longest beginning of `path` that
/// ends in a separator, and nothing where `path` holds none.
pub open spec fn dir_of(path: Seq<u8>) -> Seq<u8>
    decreases path.len(),
{
    if path.len() == 0 || path.last() == SLASH {
        path
    } else {
        dir_of(path.drop_last())
    }
}

/// What `dir_of` returns: a beginning of `path` that names a directory, with
/// no separator after it.
pub proof fn lemma_dir_of(path: Seq<u8>)
    ensures
        has_prefix(path, dir_of(path)),
        dir_prefix(dir_of(path)),
        forall|i: int| dir_of(path).len() <= i < path.len() ==> path[i] != SLASH,
    decreases path.len(),
{
    if path.len() == 0 || path.last() == SLASH {
        assert(path.subrange(0, path.len() as int) =~= path);
    } else {
        let front = path.drop_last();
        lemma_dir_of(front);
        let d = dir_of(front);
        assert(path.subrange(0, d.len() as int) =~= front.subrange(0, d.len() as int));
        assert forall|i: int| d.len() <= i < path.len() implies path[i] != SLASH by {
            if i < front.len() {
                assert(front[i] == path[i]);
            }
        }
    }
}

/// No staged file is passed over: a file staged below `root` stands, under
/// its name and with its digest, in the tree of the directory in which it
/// lies, and that tree is one of those built with the tree of `root`.
pub proof fn lemma_staged_file_is_listed(s: Seq<Staged>, e: Staged, root: Seq<u8>, bound: nat)
    requires
        entries_wf(s),
        s.to_set().contains(e),
        e.kind == EntryKind::File,
        under(e.path, root_prefix(root)),
    ensures
        built(s.to_set(), root_prefix(root), dir_of(e.path)),
        listing(s.to_set(), dir_of(e.path), bound).contains(
            TreeItem {
                kind: EntryKind::File,
                name: e.path.skip(dir_of(e.path).len() as int),
                digest: e.digest,
            },
        ),
{
    let set = s.to_set();
    let dir = dir_of(e.path);
    let prefix = root_prefix(root);
    let name = e.path.skip(dir.len() as int);
    lemma_dir_of(e.path);
    lemma_all_valid(s);
    lemma_paths_unique(s);
    assert(dir.len() < e.path.len()) by {
        if dir.len() == e.path.len() {
            assert(dir =~= e.path);
        }
    }
    assert(under(e.path, dir));
    // the directory lies at or below the root
    assert(prefix.len() <= dir.len()) by {
        if prefix.len() > dir.len() {
            assert(e.path.subrange(0, prefix.len() as int)[prefix.len() - 1] == prefix.last());
        }
    }
    assert(dir.subrange(0, prefix.len() as int) =~= prefix) by {
        assert(e.path.subrange(0, prefix.len() as int) == prefix);
        assert forall|i: int| 0 <= i < prefix.len() implies dir[i] == prefix[i] by {
            assert(dir[i] == e.path.subrange(0, dir.len() as int)[i]);
            assert(prefix[i] == e.path.subrange(0, prefix.len() as int)[i]);
        }
    }
    if dir != prefix {
        assert(dir.len() > prefix.len()) by {
            if dir.len() == prefix.len() {
                assert(dir =~= prefix);
            }
        }
        assert(witnesses(e, dir));
        assert(is_dir(set, dir));
    }
    // the file shows in its directory under its name
    lemma_first_at_is(e.path, dir.len() as int, SLASH, e.path.len() as int);
    assert(name_in(e.path, dir) =~= name);
    assert(child(set, dir, name));
    assert(dir + name =~= e.path);
    assert(file_at(set, dir + name));
    assert(file_entry(set, dir + name) == e);
    lemma_sorted_names(s, dir);
    let sorted = sorted_names(child_names(set, dir));
    assert(sorted.contains(name));
    let i = choose|i: int| 0 <= i < sorted.len() && sorted[i] == name;
    let item = TreeItem { kind: EntryKind::File, name, digest: e.digest };
    assert(listing(set, dir, bound)[i] == item);
}

/// Read-back: once the trees of `prefix` were built, each is read back
/// under its digest as its serialized form. Left out are the cases in which
/// a digest stands for two things, where the object that came first is read
/// back.
pub proof fn lemma_trees_read_back(
    set: Set<Staged>,
    before: Seq<StoredFile>,
    after: Seq<StoredFile>,
    prefix: Seq<u8>,
    bound: nat,
)
    requires
        files_wf(after),
        before.is_prefix_of(after),
        only_trees_added(set, before, after, prefix, bound),
        trees_stored(set, after, prefix, bound),
        unclashed(set, before, prefix, bound),
    ensures
        trees_read_back(set, after, prefix, bound),
{
    assert forall|p: Seq<u8>| #[trigger] built(set, prefix, p) implies reads_back(
        after,
        tree_bytes(listing(set, p, bound)),
    ) by {
        let text = tree_bytes(listing(set, p, bound));
        let d = tree_digest(set, p, bound);
        assert(stored(after, d));
        let i = place_of(after, d);
        lemma_place_of(after, i);
        if i < before.len() {
            assert(before[i] == after[i]);
            assert(stored(before, d));
            lemma_prefix_wf(before, after);
            lemma_place_of(before, i);
            assert(!clash(before, text));
        } else {
            assert(is_built_tree(set, prefix, bound, after[i]));
            let q = choose|q: Seq<u8>| #[trigger]
                built(set, prefix, q) && is_tree_file(set, q, bound, after[i]);
            assert(built(set, prefix, p) && built(set, prefix, q));
            assert(listing(set, q, bound) == listing(set, p, bound));
        }
    }
}

/// Tree determinism: two indexes that stage the same entries, in whatever
/// order, have the same root tree, and are stale or not together.
pub proof fn lemma_build_ignores_order(
    s: Seq<Staged>,
    t: Seq<Staged>,
    files: Seq<StoredFile>,
    root: Seq<u8>,
)
    requires
        s.to_set() == t.to_set(),
    ensures
        root_digest(s.to_set(), root) == root_digest(t.to_set(), root),
        stale(s.to_set(), files, root_prefix(root)) == stale(t.to_set(), files, root_prefix(root)),
{
}

/// Tree determinism: whichever of two paths is recorded first, the root
/// tree built from the index is the same.
pub proof fn lemma_tree_ignores_recording_order(
    s: Seq<Staged>,
    a: Staged,
    b: Staged,
    files: Seq<StoredFile>,
    root: Seq<u8>,
)
    requires
        entries_wf(s),
        valid_entry(a),
        valid_entry(b),
        a.path != b.path,
    ensures
        root_digest(record_entries(record_entries(s, a), b).to_set(), root) == root_digest(
            record_entries(record_entries(s, b), a).to_set(),
            root,
        ),
        stale(record_entries(record_entries(s, a), b).to_set(), files, root_prefix(root)) == stale(
            record_entries(record_entries(s, b), a).to_set(),
            files,
            root_prefix(root),
        ),
{
    lemma_record_commutes(s, a, b);
}

} // verus!
