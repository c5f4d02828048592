//! The staging index: the paths intended for the next snapshot, each bound to
//! a digest, in the order in which they were first recorded, and the
//! line-oriented form in which the index is persisted.

use crate::bytes::{
    bytes_eq, copy_range, find_byte, first_at, lacks, lemma_first_at, lemma_first_at_is, push_all,
};
use crate::digest::{hex_of, lemma_hex_injective, lemma_hex_of_is_hex, Digest};
use crate::error::StoreError;
use vstd::prelude::*;
use vstd::slice::slice_subrange;

verus! {

/// What a staged path names.
#[derive(Clone, Copy, Debug, PartialEq, Eq, Structural)]
pub enum EntryKind {
    /// A file, with the digest of its content.
    File,
    /// A directory that the snapshot is to hold even if nothing is staged
    /// below it.
    Directory,
}

/// One staged path.
#[derive(Clone, Debug)]
pub struct StagingEntry {
    pub path: Vec<u8>,
    pub digest: Digest,
    pub kind: EntryKind,
}

/// A staged path as a value: path, digest and kind.
pub struct Staged {
    pub path: Seq<u8>,
    pub digest: Seq<u8>,
    pub kind: EntryKind,
}

impl View for StagingEntry {
    type V = Staged;

    open spec fn view(&self) -> Staged {
        Staged { path: self.path@, digest: self.digest@, kind: self.kind }
    }
}

/// The byte that ends a line.
pub const NEWLINE: u8 = 10;

/// The byte between the digest and the path of a line.
pub const SPACE: u8 = 32;

/// The byte that separates the components of a path.
pub const SLASH: u8 = 47;

/// A path that can be staged: not empty, on one line, and not ending in a
/// separator.
pub open spec fn valid_path(path: Seq<u8>) -> bool {
    &&& path.len() > 0
    &&& lacks(path, NEWLINE)
    &&& path.last() != SLASH
}

/// An entry that can be staged: a valid path and a digest of twenty bytes.
pub open spec fn valid_entry(e: Staged) -> bool {
    valid_path(e.path) && e.digest.len() == 20
}

/// Some entry of `s` has the path `path`.
pub open spec fn staged(s: Seq<Staged>, path: Seq<u8>) -> bool {
    exists|i: int| 0 <= i < s.len() && #[trigger] s[i].path == path
}

/// The place of the entry of `s` with the path `path`.
pub open spec fn place_of_path(s: Seq<Staged>, path: Seq<u8>) -> int {
    choose|i: int| 0 <= i < s.len() && #[trigger] s[i].path == path
}

/// What an index must hold of its entries: each is valid and no two have the
/// same path.
pub open spec fn entries_wf(s: Seq<Staged>) -> bool {
    &&& forall|i: int| 0 <= i < s.len() ==> valid_entry(#[trigger] s[i])
    &&& forall|i: int, j: int|
        0 <= i < s.len() && 0 <= j < s.len() && i != j ==> #[trigger] s[i].path
            != #[trigger] s[j].path
}

/// The entries after `e` was recorded: `e` takes the place of the entry with
/// its path where there is one, and comes last where there is none.
pub open spec fn record_entries(s: Seq<Staged>, e: Staged) -> Seq<Staged> {
    if staged(s, e.path) {
        s.update(place_of_path(s, e.path), e)
    } else {
        s.push(e)
    }
}

/// A persisted line without the byte that ends it: the digest in
/// hexadecimal, a space, the path, and a separator after the path of a
/// directory.
pub open spec fn line_body(e: Staged) -> Seq<u8> {
    hex_of(e.digest) + seq![SPACE] + e.path + if e.kind == EntryKind::Directory {
        seq![SLASH]
    } else {
        Seq::<u8>::empty()
    }
}

/// A persisted line.
pub open spec fn line_of(e: Staged) -> Seq<u8> {
    line_body(e) + seq![NEWLINE]
}

/// The persisted form of the entries `s`: their lines, in order.
pub open spec fn index_bytes(s: Seq<Staged>) -> Seq<u8>
    decreases s.len(),
{
    if s.len() == 0 {
        Seq::<u8>::empty()
    } else {
        index_bytes(s.drop_last()) + line_of(s.last())
    }
}

/// The shape of a valid entry's line: nothing ends it before its last byte.
pub proof fn lemma_line_shape(e: Staged)
    requires
        valid_entry(e),
    ensures
        line_body(e).len() == 41 + e.path.len() + if e.kind == EntryKind::Directory {
            1int
        } else {
            0int
        },
        line_body(e).len() >= 42,
        lacks(line_body(e), NEWLINE),
        line_body(e).subrange(0, 40) == hex_of(e.digest),
        line_body(e)[40] == SPACE,
        e.kind == EntryKind::Directory ==> line_body(e).last() == SLASH && line_body(e).subrange(
            41,
            line_body(e).len() - 1,
        ) == e.path,
        e.kind == EntryKind::File ==> line_body(e).last() != SLASH && line_body(e).subrange(
            41,
            line_body(e).len() as int,
        ) == e.path,
{
    let b = line_body(e);
    let h = hex_of(e.digest);
    assert(h.len() == 40);
    assert forall|i: int| 0 <= i < b.len() implies b[i] != NEWLINE by {
        if i < 40 {
            assert(b[i] == h[i]);
        } else if i == 40 {
        } else if i < 41 + e.path.len() {
            assert(b[i] == e.path[i - 41]);
        }
    }
    assert(b.subrange(0, 40) =~= h);
    if e.kind == EntryKind::Directory {
        assert(b.subrange(41, b.len() - 1) =~= e.path);
    } else {
        assert(b.last() == e.path.last());
        assert(b.subrange(41, b.len() as int) =~= e.path);
    }
}

/// Two valid entries with the same line are the same entry.
pub proof fn lemma_line_injective(a: Staged, b: Staged)
    requires
        valid_entry(a),
        valid_entry(b),
        line_body(a) == line_body(b),
    ensures
        a == b,
{
    lemma_line_shape(a);
    lemma_line_shape(b);
    lemma_hex_injective(a.digest, b.digest);
}

/// The persisted form of two runs of entries, one after the other, is the
/// one's followed by the other's.
pub proof fn lemma_index_bytes_concat(a: Seq<Staged>, b: Seq<Staged>)
    ensures
        index_bytes(a + b) == index_bytes(a) + index_bytes(b),
    decreases b.len(),
{
    if b.len() == 0 {
        assert(a + b =~= a);
        assert(index_bytes(a) + index_bytes(b) =~= index_bytes(a));
    } else {
        lemma_index_bytes_concat(a, b.drop_last());
        assert((a + b).drop_last() =~= a + b.drop_last());
        assert((a + b).last() == b.last());
        assert(index_bytes(a + b) =~= index_bytes(a) + index_bytes(b));
    }
}

/// The persisted form of the entries `s` with `e` added at the end.
pub proof fn lemma_index_bytes_push(s: Seq<Staged>, e: Staged)
    ensures
        index_bytes(s.push(e)) == index_bytes(s) + line_of(e),
{
    assert(s.push(e).drop_last() =~= s);
}

/// The persisted form of entries begins with the line of the first.
pub proof fn lemma_index_bytes_front(s: Seq<Staged>)
    requires
        s.len() > 0,
    ensures
        index_bytes(s) == line_of(s[0]) + index_bytes(s.skip(1)),
{
    let head = seq![s[0]];
    assert(s =~= head + s.skip(1));
    lemma_index_bytes_concat(head, s.skip(1));
    assert(head.drop_last() =~= Seq::<Staged>::empty());
    assert(index_bytes(Seq::<Staged>::empty()) =~= Seq::<u8>::empty());
    assert(index_bytes(head) =~= line_of(s[0]));
}

/// How a persisted form goes on after the lines of its first `k` entries:
/// there is a further entry, its line runs up to the next line end, and no
/// line end comes before that.
pub proof fn lemma_load_step(bytes: Seq<u8>, pos: int, k: int, s: Seq<Staged>)
    requires
        entries_wf(s),
        index_bytes(s) == bytes,
        0 <= k <= s.len(),
        0 <= pos < bytes.len(),
        index_bytes(s.subrange(0, k)) == bytes.subrange(0, pos),
    ensures
        k < s.len(),
        valid_entry(s[k]),
        first_at(bytes, pos, NEWLINE) < bytes.len(),
        bytes.subrange(pos, first_at(bytes, pos, NEWLINE)) == line_body(s[k]),
{
    let head = s.subrange(0, k);
    let tail = s.skip(k);
    assert(s =~= head + tail);
    lemma_index_bytes_concat(head, tail);
    let rest = index_bytes(tail);
    assert(bytes.subrange(0, pos).len() == pos);
    assert(rest =~= bytes.skip(pos));
    if tail.len() == 0 {
        assert(rest.len() == 0);
    }
    lemma_index_bytes_front(tail);
    assert(tail[0] == s[k]);
    lemma_line_shape(s[k]);
    let body = line_body(s[k]);
    let end = pos + body.len();
    assert(rest.len() >= body.len() + 1);
    assert forall|i: int| pos <= i < end implies bytes[i] != NEWLINE by {
        assert(bytes[i] == rest[i - pos]);
        assert(rest[i - pos] == body[i - pos]);
    }
    assert(bytes[end] == rest[end - pos]);
    assert(rest[end - pos] == NEWLINE);
    lemma_first_at_is(bytes, pos, NEWLINE, end);
    assert(bytes.subrange(pos, end) =~= body);
}

/// Whether `path` can be staged.
pub fn is_valid_path(path: &[u8]) -> (ok: bool)
    ensures
        ok == valid_path(path@),
{
    if path.len() == 0 {
        return false;
    }
    if path[path.len() - 1] == SLASH {
        return false;
    }
    let mut i: usize = 0;
    while i < path.len()
        invariant
            i <= path.len(),
            forall|k: int| 0 <= k < i ==> path@[k] != NEWLINE,
        decreases path.len() - i,
    {
        if path[i] == NEWLINE {
            return false;
        }
        i += 1;
    }
    true
}

impl StagingEntry {
    /// The entry's persisted line without the byte that ends it.
    pub fn line(&self) -> (out: Vec<u8>)
        ensures
            out@ == line_body(self@),
    {
        let mut out = self.digest.hex_bytes();
        out.push(SPACE);
        push_all(&mut out, &self.path);
        match self.kind {
            EntryKind::Directory => {
                out.push(SLASH);
            },
            EntryKind::File => {},
        }
        assert(out@ =~= line_body(self@));
        out
    }

    /// Reads an entry back from a persisted line without the byte that ends
    /// it. There is one exactly when `body` is the line of a valid entry.
    pub fn parse_line(body: &[u8]) -> (found: Option<StagingEntry>)
        ensures
            match found {
                Some(e) => valid_entry(e@) && line_body(e@) == body@,
                None => forall|e: Staged| valid_entry(e) ==> line_body(e) != body@,
            },
    {
        let n = body.len();
        if n < 42 {
            proof {
                assert forall|e: Staged| valid_entry(e) implies line_body(e) != body@ by {
                    lemma_line_shape(e);
                }
            }
            return None;
        }
        let digest = Digest::from_hex(slice_subrange(body, 0, 40));
        if digest.is_none() || body[40] != SPACE {
            proof {
                assert forall|e: Staged| valid_entry(e) implies line_body(e) != body@ by {
                    lemma_line_shape(e);
                    lemma_hex_of_is_hex(e.digest);
                }
            }
            return None;
        }
        let digest = digest.unwrap();
        let (kind, end) = if body[n - 1] == SLASH {
            (EntryKind::Directory, n - 1)
        } else {
            (EntryKind::File, n)
        };
        let path = copy_range(body, 41, end);
        if !is_valid_path(&path) {
            proof {
                assert forall|e: Staged| valid_entry(e) implies line_body(e) != body@ by {
                    lemma_line_shape(e);
                }
            }
            return None;
        }
        let entry = StagingEntry { path, digest, kind };
        proof {
            lemma_line_shape(entry@);
            assert(line_body(entry@) =~= body@);
        }
        Some(entry)
    }
}

/// The staging index.
pub struct StagingIndex {
    entries: Vec<StagingEntry>,
}

impl View for StagingIndex {
    type V = Seq<Staged>;

    /// The staged entries, in the order in which their paths were first
    /// recorded.
    closed spec fn view(&self) -> Seq<Staged> {
        Seq::new(self.entries@.len(), |i: int| self.entries@[i]@)
    }
}

impl StagingIndex {
    /// The index's invariant.
    pub open spec fn wf(&self) -> bool {
        entries_wf(self@)
    }

    /// An index with nothing staged.
    pub fn new() -> (index: StagingIndex)
        ensures
            index.wf(),
            index@ == Seq::<Staged>::empty(),
    {
        let index = StagingIndex { entries: Vec::new() };
        assert(index@ =~= Seq::<Staged>::empty());
        index
    }

    /// The number of staged entries.
    pub fn len(&self) -> (n: usize)
        ensures
            n == self@.len(),
    {
        self.entries.len()
    }

    /// Whether nothing is staged.
    pub fn is_empty(&self) -> (empty: bool)
        ensures
            empty == (self@.len() == 0),
    {
        self.entries.len() == 0
    }

    /// The entry at place `i`.
    pub fn entry(&self, i: usize) -> (e: &StagingEntry)
        requires
            i < self@.len(),
        ensures
            e@ == self@[i as int],
    {
        &self.entries[i]
    }

    /// The place of the entry with the path `path`, if there is one.
    pub fn position(&self, path: &[u8]) -> (place: Option<usize>)
        ensures
            match place {
                Some(i) => i < self@.len() && self@[i as int].path == path@,
                None => !staged(self@, path@),
            },
    {
        let mut i: usize = 0;
        while i < self.entries.len()
            invariant
                i <= self.entries@.len(),
                forall|k: int| 0 <= k < i ==> (#[trigger] self@[k]).path != path@,
            decreases self.entries@.len() - i,
        {
            if bytes_eq(&self.entries[i].path, path) {
                return Some(i);
            }
            i += 1;
        }
        None
    }

    /// Records `path` with `digest` and `kind`. Where the path is staged
    /// already the new entry takes the place of the old one; where it is not,
    /// the entry is added at the end. A path that cannot be persisted on a
    /// line of its own is refused with `IndexCorrupt` and nothing changes.
    pub fn record(&mut self, path: &[u8], digest: Digest, kind: EntryKind) -> (res: Result<
        (),
        StoreError,
    >)
        requires
            old(self).wf(),
        ensures
            final(self).wf(),
            match res {
                Ok(_) => valid_path(path@) && final(self)@ == record_entries(
                    old(self)@,
                    Staged { path: path@, digest: digest@, kind },
                ),
                Err(e) => e == StoreError::IndexCorrupt && !valid_path(path@) && final(self)@
                    == old(self)@,
            },
    {
        if !is_valid_path(path) {
            return Err(StoreError::IndexCorrupt);
        }
        let entry = StagingEntry { path: copy_range(path, 0, path.len()), digest, kind };
        assert(entry.path@ =~= path@);
        let ghost before = self@;
        match self.position(path) {
            Some(i) => {
                proof {
                    lemma_place_of_path(before, i as int);
                }
                self.entries[i] = entry;
                assert(self@ =~= before.update(i as int, entry@));
            },
            None => {
                self.entries.push(entry);
                assert(self@ =~= before.push(entry@));
            },
        }
        proof {
            lemma_record_wf(before, entry@);
        }
        Ok(())
    }

    /// Empties the index.
    pub fn clear(&mut self)
        ensures
            final(self).wf(),
            final(self)@ == Seq::<Staged>::empty(),
    {
        self.entries.clear();
        assert(self@ =~= Seq::<Staged>::empty());
    }

    /// Reconstructs the index from its persisted form, where there is one.
    /// An absent form, like an empty one, gives an index with nothing staged.
    /// A form is accepted exactly when it is the persisted form of some
    /// well-formed entries, and those are the entries of the index returned;
    /// anything else is `IndexCorrupt`.
    pub fn load(form: Option<&[u8]>) -> (res: Result<StagingIndex, StoreError>)
        ensures
            match form {
                None => res matches Ok(index) && index.wf() && index@ == Seq::<Staged>::empty(),
                Some(bytes) => match res {
                    Ok(index) => index.wf() && index_bytes(index@) == bytes@,
                    Err(e) => e == StoreError::IndexCorrupt && forall|s: Seq<Staged>|
                        entries_wf(s) ==> #[trigger] index_bytes(s) != bytes@,
                },
            },
    {
        match form {
            None => Ok(StagingIndex::new()),
            Some(bytes) => StagingIndex::parse(bytes),
        }
    }

    /// Reads the index back from the persisted form `bytes`.
    pub fn parse(bytes: &[u8]) -> (res: Result<StagingIndex, StoreError>)
        ensures
            match res {
                Ok(index) => index.wf() && index_bytes(index@) == bytes@,
                Err(e) => e == StoreError::IndexCorrupt && forall|s: Seq<Staged>|
                    entries_wf(s) ==> #[trigger] index_bytes(s) != bytes@,
            },
    {
        let mut index = StagingIndex::new();
        let mut pos: usize = 0;
        assert(bytes@.subrange(0, 0) =~= Seq::<u8>::empty());
        while pos < bytes.len()
            invariant
                pos <= bytes.len(),
                index.wf(),
                index_bytes(index@) == bytes@.subrange(0, pos as int),
                forall|s: Seq<Staged>|
                    entries_wf(s) && #[trigger] index_bytes(s) == bytes@ ==> index@.len()
                        <= s.len() && s.subrange(0, index@.len() as int) == index@,
            decreases bytes.len() - pos,
        {
            let ghost parsed = index@;
            let ghost k = parsed.len() as int;
            let end = find_byte(bytes, pos, NEWLINE);
            if end == bytes.len() {
                proof {
                    assert forall|s: Seq<Staged>| entries_wf(s) implies #[trigger] index_bytes(s)
                        != bytes@ by {
                        if index_bytes(s) == bytes@ {
                            lemma_load_step(bytes@, pos as int, k, s);
                        }
                    }
                }
                return Err(StoreError::IndexCorrupt);
            }
            let body = slice_subrange(bytes, pos, end);
            let entry = match StagingEntry::parse_line(body) {
                Some(entry) => entry,
                None => {
                    proof {
                        assert forall|s: Seq<Staged>| entries_wf(s) implies #[trigger] index_bytes(
                            s,
                        ) != bytes@ by {
                            if index_bytes(s) == bytes@ {
                                lemma_load_step(bytes@, pos as int, k, s);
                            }
                        }
                    }
                    return Err(StoreError::IndexCorrupt);
                },
            };
            if index.position(&entry.path).is_some() {
                proof {
                    assert forall|s: Seq<Staged>| entries_wf(s) implies #[trigger] index_bytes(s)
                        != bytes@ by {
                        if index_bytes(s) == bytes@ {
                            lemma_load_step(bytes@, pos as int, k, s);
                            lemma_line_injective(entry@, s[k]);
                            let j = place_of_path(parsed, entry@.path);
                            assert(s.subrange(0, k)[j] == s[j]);
                        }
                    }
                }
                return Err(StoreError::IndexCorrupt);
            }
            index.entries.push(entry);
            proof {
                assert(index@ =~= parsed.push(entry@));
                lemma_record_wf(parsed, entry@);
                lemma_index_bytes_push(parsed, entry@);
                lemma_first_at(bytes@, pos as int, NEWLINE);
                assert(bytes@.subrange(0, end + 1) =~= bytes@.subrange(0, pos as int)
                    + bytes@.subrange(pos as int, end as int) + seq![NEWLINE]);
                assert forall|s: Seq<Staged>|
                    entries_wf(s) && #[trigger] index_bytes(s) == bytes@ implies index@.len()
                    <= s.len() && s.subrange(0, index@.len() as int) == index@ by {
                    lemma_load_step(bytes@, pos as int, k, s);
                    lemma_line_injective(entry@, s[k]);
                    assert(s.subrange(0, k + 1) =~= s.subrange(0, k).push(s[k]));
                }
            }
            pos = end + 1;
        }
        assert(bytes@.subrange(0, pos as int) =~= bytes@);
        Ok(index)
    }

    /// The persisted form of the index: one line for each entry, in order.
    /// It replaces what was persisted before.
    pub fn persist(&self) -> (out: Vec<u8>)
        ensures
            out@ == index_bytes(self@),
    {
        let mut out: Vec<u8> = Vec::new();
        let mut i: usize = 0;
        while i < self.entries.len()
            invariant
                i <= self.entries@.len(),
                out@ == index_bytes(self@.subrange(0, i as int)),
            decreases self.entries@.len() - i,
        {
            let line = self.entries[i].line();
            push_all(&mut out, &line);
            out.push(NEWLINE);
            proof {
                lemma_index_bytes_push(self@.subrange(0, i as int), self@[i as int]);
                assert(self@.subrange(0, i + 1) =~= self@.subrange(0, i as int).push(
                    self@[i as int],
                ));
                assert(out@ =~= index_bytes(self@.subrange(0, i as int)) + line_of(
                    self@[i as int],
                ));
            }
            i += 1;
        }
        assert(self@.subrange(0, i as int) =~= self@);
        out
    }
}

/// In well-formed entries, the entry at place `i` is the one found for its
/// path.
pub proof fn lemma_place_of_path(s: Seq<Staged>, i: int)
    requires
        entries_wf(s),
        0 <= i < s.len(),
    ensures
        staged(s, s[i].path),
        place_of_path(s, s[i].path) == i,
{
    let j = place_of_path(s, s[i].path);
    assert(s[j].path == s[i].path);
}

/// Recording a valid entry keeps the entries well formed; afterwards the
/// path is staged once, with the digest and kind recorded last, and every
/// other entry is as it was.
pub proof fn lemma_record_wf(s: Seq<Staged>, e: Staged)
    requires
        entries_wf(s),
        valid_entry(e),
    ensures
        entries_wf(record_entries(s, e)),
        staged(record_entries(s, e), e.path),
        record_entries(s, e)[place_of_path(record_entries(s, e), e.path)] == e,
        forall|p: Seq<u8>|
            p != e.path ==> (staged(record_entries(s, e), p) <==> staged(s, p)) && (staged(s, p)
                ==> record_entries(s, e)[place_of_path(record_entries(s, e), p)]
                == s[place_of_path(s, p)]),
{
    let r = record_entries(s, e);
    if staged(s, e.path) {
        let i = place_of_path(s, e.path);
        assert(r =~= s.update(i, e));
        assert forall|a: int, b: int| 0 <= a < r.len() && 0 <= b < r.len() && a != b implies (
        #[trigger] r[a]).path != (#[trigger] r[b]).path by {
            assert(r[a].path == s[a].path);
            assert(r[b].path == s[b].path);
        }
        assert(entries_wf(r));
        assert(r[i].path == e.path);
        lemma_place_of_path(r, i);
        assert forall|p: Seq<u8>| p != e.path implies (staged(r, p) <==> staged(s, p)) && (staged(
            s,
            p,
        ) ==> r[place_of_path(r, p)] == s[place_of_path(s, p)]) by {
            if staged(s, p) {
                let j = place_of_path(s, p);
                assert(r[j].path == p);
                lemma_place_of_path(s, j);
                lemma_place_of_path(r, j);
            }
            if staged(r, p) {
                let j = place_of_path(r, p);
                assert(s[j].path == p);
            }
        }
    } else {
        assert(r =~= s.push(e));
        assert forall|a: int, b: int| 0 <= a < r.len() && 0 <= b < r.len() && a != b implies (
        #[trigger] r[a]).path != (#[trigger] r[b]).path by {
            if a < s.len() {
                assert(r[a].path == s[a].path);
            }
            if b < s.len() {
                assert(r[b].path == s[b].path);
            }
        }
        assert(entries_wf(r));
        assert(r[s.len() as int].path == e.path);
        lemma_place_of_path(r, s.len() as int);
        assert forall|p: Seq<u8>| p != e.path implies (staged(r, p) <==> staged(s, p)) && (staged(
            s,
            p,
        ) ==> r[place_of_path(r, p)] == s[place_of_path(s, p)]) by {
            if staged(s, p) {
                let j = place_of_path(s, p);
                assert(r[j].path == p);
                lemma_place_of_path(s, j);
                lemma_place_of_path(r, j);
            }
            if staged(r, p) {
                let j = place_of_path(r, p);
                if j < s.len() {
                    assert(s[j].path == p);
                }
            }
        }
    }
}

/// Index persistence round trip: well-formed entries with the same
/// persisted form are the same entries. So loading what was persisted gives
/// back the entries that were persisted, and persisting what was loaded gives
/// back, byte for byte, the form that was loaded.
pub proof fn lemma_persisted_form_unique(s: Seq<Staged>, t: Seq<Staged>)
    requires
        entries_wf(s),
        entries_wf(t),
        index_bytes(s) == index_bytes(t),
    ensures
        s == t,
    decreases s.len(),
{
    let bytes = index_bytes(s);
    assert(index_bytes(Seq::<Staged>::empty()) =~= Seq::<u8>::empty());
    if s.len() == 0 || t.len() == 0 {
        if s.len() > 0 {
            lemma_index_bytes_front(s);
        }
        if t.len() > 0 {
            lemma_index_bytes_front(t);
        }
        assert(s =~= t);
    } else {
        lemma_index_bytes_front(s);
        lemma_index_bytes_front(t);
        assert(s.subrange(0, 0) =~= Seq::<Staged>::empty());
        assert(t.subrange(0, 0) =~= Seq::<Staged>::empty());
        assert(bytes.subrange(0, 0) =~= Seq::<u8>::empty());
        lemma_load_step(bytes, 0, 0, s);
        lemma_load_step(bytes, 0, 0, t);
        lemma_line_injective(s[0], t[0]);
        let n = line_of(s[0]).len() as int;
        assert(index_bytes(s.skip(1)) =~= bytes.skip(n));
        assert(index_bytes(t.skip(1)) =~= bytes.skip(n));
        lemma_persisted_form_unique(s.skip(1), t.skip(1));
        assert(s =~= seq![s[0]] + s.skip(1));
        assert(t =~= seq![t[0]] + t.skip(1));
    }
}

/// The staged set after an entry was recorded: the entry itself, and every
/// entry that was staged under another path.
pub proof fn lemma_record_set(s: Seq<Staged>, e: Staged)
    requires
        entries_wf(s),
        valid_entry(e),
    ensures
        forall|x: Staged|
            record_entries(s, e).to_set().contains(x) <==> x == e || (s.to_set().contains(x)
                && x.path != e.path),
{
    let r = record_entries(s, e);
    assert forall|x: Staged| r.to_set().contains(x) <==> x == e || (s.to_set().contains(x)
        && x.path != e.path) by {
        if staged(s, e.path) {
            let at = place_of_path(s, e.path);
            assert(r =~= s.update(at, e));
            if r.contains(x) {
                let j = choose|j: int| 0 <= j < r.len() && r[j] == x;
                if j != at {
                    assert(s[j] == x);
                    assert(s.contains(x));
                }
            }
            if x == e {
                assert(r[at] == e);
            }
            if s.contains(x) && x.path != e.path {
                let j = choose|j: int| 0 <= j < s.len() && s[j] == x;
                assert(r[j] == x);
            }
        } else {
            assert(r =~= s.push(e));
            if r.contains(x) {
                let j = choose|j: int| 0 <= j < r.len() && r[j] == x;
                if j < s.len() {
                    assert(s[j] == x);
                    assert(s.contains(x));
                    assert(s[j].path == x.path);
                }
            }
            if x == e {
                assert(r[s.len() as int] == e);
            }
            if s.contains(x) && x.path != e.path {
                let j = choose|j: int| 0 <= j < s.len() && s[j] == x;
                assert(r[j] == x);
            }
        }
    }
}

/// Recording two entries under different paths stages the same set in
/// either order.
pub proof fn lemma_record_commutes(s: Seq<Staged>, a: Staged, b: Staged)
    requires
        entries_wf(s),
        valid_entry(a),
        valid_entry(b),
        a.path != b.path,
    ensures
        record_entries(record_entries(s, a), b).to_set() == record_entries(
            record_entries(s, b),
            a,
        ).to_set(),
{
    lemma_record_wf(s, a);
    lemma_record_wf(s, b);
    lemma_record_set(s, a);
    lemma_record_set(s, b);
    let sa = record_entries(s, a);
    let sb = record_entries(s, b);
    lemma_record_set(sa, b);
    lemma_record_set(sb, a);
    assert forall|x: Staged|
        record_entries(sa, b).to_set().contains(x) <==> record_entries(sb, a).to_set().contains(
            x,
        ) by {
        assert(sa.to_set().contains(x) <==> x == a || (s.to_set().contains(x) && x.path
            != a.path));
        assert(sb.to_set().contains(x) <==> x == b || (s.to_set().contains(x) && x.path
            != b.path));
    }
    assert(record_entries(sa, b).to_set() =~= record_entries(sb, a).to_set());
}

} // verus!
