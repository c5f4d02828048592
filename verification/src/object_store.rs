//! The object store: immutable byte strings kept in compressed form, each
//! under the digest of its content, each at most once.

use crate::bytes::{bytes_eq, copy_range, push_all};
use crate::codec::{holds, zlib_decode, zlib_decoded, zlib_encode, zlib_encoded};
use crate::digest::{hex_chars, hex_of, is_hex, sha1_of, Digest};
use crate::error::StoreError;
use vstd::prelude::*;

verus! {

/// One object file: the digest that names it and the compressed bytes in it.
pub struct StoredFile {
    pub digest: Seq<u8>,
    pub payload: Seq<u8>,
}

/// Some file among `files` is named by `digest`.
pub open spec fn stored(files: Seq<StoredFile>, digest: Seq<u8>) -> bool {
    exists|i: int| 0 <= i < files.len() && #[trigger] files[i].digest == digest
}

/// The place of a file named by `digest` among `files`.
pub open spec fn place_of(files: Seq<StoredFile>, digest: Seq<u8>) -> int {
    choose|i: int| 0 <= i < files.len() && #[trigger] files[i].digest == digest
}

/// The content that is read back from the file named by `digest`.
pub open spec fn content_of(files: Seq<StoredFile>, digest: Seq<u8>) -> Seq<u8> {
    zlib_decoded(files[place_of(files, digest)].payload)->0
}

/// What a store must hold of its files: each one decodes to content whose
/// digest is the file's name, and no two have the same name.
pub open spec fn files_wf(files: Seq<StoredFile>) -> bool {
    &&& forall|i: int|
        0 <= i < files.len() ==> {
            &&& zlib_decoded(#[trigger] files[i].payload) is Some
            &&& sha1_of(zlib_decoded(files[i].payload)->0) == files[i].digest
        }
    &&& forall|i: int, j: int|
        0 <= i < files.len() && 0 <= j < files.len() && i != j ==> #[trigger] files[i].digest
            != #[trigger] files[j].digest
}

/// The objects of a store: from each digest that names a file to the content
/// read back from it.
pub open spec fn objects_of(files: Seq<StoredFile>) -> Map<Seq<u8>, Seq<u8>> {
    Map::new(|d: Seq<u8>| stored(files, d), |d: Seq<u8>| content_of(files, d))
}

/// `content` can be put: it is stored already, or the encoder gives a stream
/// for it from which the decoder reads it back.
pub open spec fn storable(files: Seq<StoredFile>, content: Seq<u8>) -> bool {
    stored(files, sha1_of(content)) || (zlib_encoded(content) matches Some(stream) && holds(
        stream,
        content,
    ))
}

/// The object file that is written for `content`: named by its digest, and
/// holding the stream that the encoder gives for it.
pub open spec fn object_file(content: Seq<u8>) -> StoredFile {
    StoredFile { digest: sha1_of(content), payload: zlib_encoded(content)->0 }
}

/// The files after `content` was put: unchanged where its digest names a file
/// already, else with one more file at the end.
pub open spec fn put_files(files: Seq<StoredFile>, content: Seq<u8>) -> Seq<StoredFile> {
    if stored(files, sha1_of(content)) {
        files
    } else {
        files.push(object_file(content))
    }
}

/// The files after the file `digest` with `payload` was taken in: unchanged
/// where that digest names a file already, else with it at the end.
pub open spec fn restored_files(files: Seq<StoredFile>, digest: Seq<u8>, payload: Seq<u8>) -> Seq<
    StoredFile,
> {
    if stored(files, digest) {
        files
    } else {
        files.push(StoredFile { digest, payload })
    }
}

/// `content` is read back from `files` under its digest.
pub open spec fn reads_back(files: Seq<StoredFile>, content: Seq<u8>) -> bool {
    stored(files, sha1_of(content)) && content_of(files, sha1_of(content)) == content
}

/// Other content than `content` is stored in `files` under its digest.
pub open spec fn clash(files: Seq<StoredFile>, content: Seq<u8>) -> bool {
    stored(files, sha1_of(content)) && content_of(files, sha1_of(content)) != content
}

/// `payload` is the file of an object named `digest`: it decodes, and to
/// content with that digest.
pub open spec fn intact(digest: Seq<u8>, payload: Seq<u8>) -> bool {
    zlib_decoded(payload) matches Some(content) && sha1_of(content) == digest
}

/// In well-formed files, the file at place `i` is the one found for its name.
pub proof fn lemma_place_of(files: Seq<StoredFile>, i: int)
    requires
        files_wf(files),
        0 <= i < files.len(),
    ensures
        stored(files, files[i].digest),
        place_of(files, files[i].digest) == i,
        content_of(files, files[i].digest) == zlib_decoded(files[i].payload)->0,
        sha1_of(content_of(files, files[i].digest)) == files[i].digest,
{
    let j = place_of(files, files[i].digest);
    assert(files[j].digest == files[i].digest);
}

/// The files with which well-formed files begin are well formed.
pub proof fn lemma_prefix_wf(before: Seq<StoredFile>, after: Seq<StoredFile>)
    requires
        files_wf(after),
        before.is_prefix_of(after),
    ensures
        files_wf(before),
{
    assert forall|i: int| 0 <= i < before.len() implies {
        &&& zlib_decoded(#[trigger] before[i].payload) is Some
        &&& sha1_of(zlib_decoded(before[i].payload)->0) == before[i].digest
    } by {
        assert(before[i] == after[i]);
    }
    assert forall|i: int, j: int|
        0 <= i < before.len() && 0 <= j < before.len() && i != j implies #[trigger] before[i].digest
        != #[trigger] before[j].digest by {
        assert(before[i] == after[i]);
        assert(before[j] == after[j]);
    }
}

/// Adding a file under a new name keeps well-formed files well formed and
/// leaves every object that was there as it was.
pub proof fn lemma_push_file(files: Seq<StoredFile>, file: StoredFile)
    requires
        files_wf(files),
        !stored(files, file.digest),
        intact(file.digest, file.payload),
    ensures
        files_wf(files.push(file)),
        stored(files.push(file), file.digest),
        content_of(files.push(file), file.digest) == zlib_decoded(file.payload)->0,
        forall|d: Seq<u8>| stored(files, d) ==> stored(files.push(file), d) && content_of(
            files.push(file),
            d,
        ) == content_of(files, d),
        forall|d: Seq<u8>| stored(files.push(file), d) ==> stored(files, d) || d == file.digest,
{
    let after = files.push(file);
    assert forall|i: int, j: int|
        0 <= i < after.len() && 0 <= j < after.len() && i != j implies #[trigger] after[i].digest
        != #[trigger] after[j].digest by {
        if i < files.len() {
            assert(files[i].digest == after[i].digest);
        }
        if j < files.len() {
            assert(files[j].digest == after[j].digest);
        }
    }
    assert(files_wf(after));
    assert(after[files.len() as int].digest == file.digest);
    lemma_place_of(after, files.len() as int);
    assert forall|d: Seq<u8>| stored(files, d) implies stored(after, d) && content_of(after, d)
        == content_of(files, d) by {
        let i = place_of(files, d);
        assert(after[i].digest == d);
        lemma_place_of(files, i);
        lemma_place_of(after, i);
    }
    assert forall|d: Seq<u8>| stored(after, d) implies stored(files, d) || d == file.digest by {
        let i = place_of(after, d);
        if i < files.len() {
            assert(files[i].digest == d);
        }
    }
}

/// Round trip: once `content` was put, the content read back under its
/// digest is `content`. Left out are stores that already hold other content
/// under that digest, which `put` leaves as it is.
pub proof fn lemma_get_after_put(files: Seq<StoredFile>, content: Seq<u8>)
    requires
        files_wf(files),
        storable(files, content),
        stored(files, sha1_of(content)) ==> content_of(files, sha1_of(content)) == content,
    ensures
        files_wf(put_files(files, content)),
        stored(put_files(files, content), sha1_of(content)),
        content_of(put_files(files, content), sha1_of(content)) == content,
{
    if !stored(files, sha1_of(content)) {
        lemma_push_file(
            files,
            StoredFile { digest: sha1_of(content), payload: zlib_encoded(content)->0 },
        );
    }
}

/// Deduplication: putting the same content a second time changes nothing,
/// and exactly one file is named by its digest.
pub proof fn lemma_put_twice(files: Seq<StoredFile>, content: Seq<u8>)
    requires
        files_wf(files),
        storable(files, content),
    ensures
        put_files(put_files(files, content), content) == put_files(files, content),
        forall|i: int, j: int|
            #![trigger put_files(files, content)[i], put_files(files, content)[j]]
            0 <= i < put_files(files, content).len() && 0 <= j < put_files(files, content).len()
                && put_files(files, content)[i].digest == sha1_of(content) && put_files(
                files,
                content,
            )[j].digest == sha1_of(content) ==> i == j,
        stored(put_files(files, content), sha1_of(content)),
{
    if !stored(files, sha1_of(content)) {
        lemma_push_file(
            files,
            StoredFile { digest: sha1_of(content), payload: zlib_encoded(content)->0 },
        );
    }
}

/// Putting content never removes or changes an object that was stored.
pub proof fn lemma_put_keeps(files: Seq<StoredFile>, content: Seq<u8>, digest: Seq<u8>)
    requires
        files_wf(files),
        storable(files, content),
        stored(files, digest),
    ensures
        stored(put_files(files, content), digest),
        content_of(put_files(files, content), digest) == content_of(files, digest),
{
    if !stored(files, sha1_of(content)) {
        lemma_push_file(
            files,
            StoredFile { digest: sha1_of(content), payload: zlib_encoded(content)->0 },
        );
    }
}

/// An object as it is kept: its digest and its compressed bytes.
struct StoredObject {
    digest: Digest,
    payload: Vec<u8>,
}

/// The object store. Objects are only ever added, at the end, so the place of
/// a file never changes and what was added since a given length is what has
/// yet to reach the storage medium.
pub struct ObjectStore {
    objects: Vec<StoredObject>,
}

impl View for ObjectStore {
    type V = Map<Seq<u8>, Seq<u8>>;

    /// From each stored digest to the content read back under it.
    open spec fn view(&self) -> Map<Seq<u8>, Seq<u8>> {
        objects_of(self.files())
    }
}

impl ObjectStore {
    /// The object files of this store, in the order in which they came.
    pub closed spec fn files(&self) -> Seq<StoredFile> {
        Seq::new(
            self.objects@.len(),
            |i: int|
                StoredFile { digest: self.objects@[i].digest@, payload: self.objects@[i].payload@ },
        )
    }

    /// The store's invariant.
    pub open spec fn wf(&self) -> bool {
        files_wf(self.files())
    }

    /// A store with no objects.
    pub fn new() -> (store: ObjectStore)
        ensures
            store.wf(),
            store.files() == Seq::<StoredFile>::empty(),
            store@ == Map::<Seq<u8>, Seq<u8>>::empty(),
    {
        let store = ObjectStore { objects: Vec::new() };
        assert(store.files() =~= Seq::<StoredFile>::empty());
        assert(store@ =~= Map::<Seq<u8>, Seq<u8>>::empty());
        store
    }

    /// The number of object files.
    pub fn len(&self) -> (n: usize)
        ensures
            n == self.files().len(),
    {
        self.objects.len()
    }

    /// The digest that names the file at place `i`.
    pub fn digest_at(&self, i: usize) -> (digest: Digest)
        requires
            i < self.files().len(),
        ensures
            digest@ == self.files()[i as int].digest,
    {
        self.objects[i].digest
    }

    /// The compressed bytes of the file at place `i`.
    pub fn payload_at(&self, i: usize) -> (payload: &Vec<u8>)
        requires
            i < self.files().len(),
        ensures
            payload@ == self.files()[i as int].payload,
    {
        &self.objects[i].payload
    }

    /// The place of the file named by `digest`, if there is one.
    fn find(&self, digest: &Digest) -> (place: Option<usize>)
        ensures
            match place {
                Some(i) => i < self.files().len() && self.files()[i as int].digest == digest@,
                None => !stored(self.files(), digest@),
            },
    {
        let mut i: usize = 0;
        while i < self.objects.len()
            invariant
                i <= self.objects@.len(),
                forall|k: int| 0 <= k < i ==> (#[trigger] self.files()[k]).digest != digest@,
            decreases self.objects@.len() - i,
        {
            if self.objects[i].digest.same_as(digest) {
                return Some(i);
            }
            i += 1;
        }
        None
    }

    /// Whether an object is stored under `digest`. Nothing is decompressed.
    pub fn contains(&self, digest: &Digest) -> (found: bool)
        ensures
            found == self@.contains_key(digest@),
            found == stored(self.files(), digest@),
    {
        self.find(digest).is_some()
    }

    /// The content stored under `digest`, or `ObjectNotFound` where none is.
    pub fn get(&self, digest: &Digest) -> (res: Result<Vec<u8>, StoreError>)
        requires
            self.wf(),
        ensures
            match res {
                Ok(content) => self@.contains_key(digest@) && content@ == self@[digest@]
                    && sha1_of(content@) == digest@,
                Err(e) => e == StoreError::ObjectNotFound && !self@.contains_key(digest@),
            },
    {
        match self.find(digest) {
            None => Err(StoreError::ObjectNotFound),
            Some(i) => {
                proof {
                    lemma_place_of(self.files(), i as int);
                }
                match zlib_decode(&self.objects[i].payload) {
                    Some(content) => Ok(content),
                    None => {
                        assert(false);
                        Err(StoreError::StorageIoError)
                    },
                }
            },
        }
    }

    /// Takes in an object file as it was found on the storage medium. The
    /// file is accepted where it decodes to content whose digest is `digest`;
    /// it is added unless that digest names a file already, and the result
    /// says whether it was added. A file that is not intact is refused with
    /// `StorageIoError` and the store stays as it was.
    pub fn restore(&mut self, digest: Digest, payload: Vec<u8>) -> (res: Result<bool, StoreError>)
        requires
            old(self).wf(),
        ensures
            final(self).wf(),
            match res {
                Ok(added) => {
                    &&& intact(digest@, payload@)
                    &&& added == !stored(old(self).files(), digest@)
                    &&& final(self).files() == restored_files(
                        old(self).files(),
                        digest@,
                        payload@,
                    )
                },
                Err(e) => {
                    &&& e == StoreError::StorageIoError
                    &&& !intact(digest@, payload@)
                    &&& final(self).files() == old(self).files()
                },
            },
    {
        let decoded = zlib_decode(&payload);
        match decoded {
            None => Err(StoreError::StorageIoError),
            Some(content) => {
                if !Digest::of(&content).same_as(&digest) {
                    return Err(StoreError::StorageIoError);
                }
                if self.find(&digest).is_some() {
                    return Ok(false);
                }
                let ghost before = self.files();
                let ghost file = StoredFile { digest: digest@, payload: payload@ };
                self.objects.push(StoredObject { digest, payload });
                proof {
                    assert(self.files() =~= before.push(file));
                    lemma_push_file(before, file);
                }
                Ok(true)
            },
        }
    }

    /// Stores `content`, for which the encoder gave `stream`, and returns
    /// its digest. Where an object is stored under that digest already,
    /// nothing changes. Otherwise the object is added where `stream` is there
    /// and `content` is read back from it; where it is not, nothing changes
    /// and the error is `StorageIoError`.
    pub fn put_encoded(&mut self, content: &[u8], stream: Option<Vec<u8>>) -> (res: Result<
        Digest,
        StoreError,
    >)
        requires
            old(self).wf(),
        ensures
            final(self).wf(),
            match res {
                Ok(digest) => {
                    &&& digest@ == sha1_of(content@)
                    &&& final(self)@.contains_key(digest@)
                    &&& if stored(old(self).files(), digest@) {
                        final(self).files() == old(self).files()
                    } else {
                        &&& stream matches Some(s) && holds(s@, content@)
                        &&& final(self).files() == old(self).files().push(
                            StoredFile { digest: digest@, payload: stream->0@ },
                        )
                    }
                },
                Err(e) => {
                    &&& e == StoreError::StorageIoError
                    &&& !stored(old(self).files(), sha1_of(content@))
                    &&& !(stream matches Some(s) && holds(s@, content@))
                    &&& final(self).files() == old(self).files()
                },
            },
    {
        self.put_as(Digest::of(content), content, stream)
    }

    /// Stores `content`, whose digest is `digest` and for which the encoder
    /// gave `stream`.
    fn put_as(&mut self, digest: Digest, content: &[u8], stream: Option<Vec<u8>>) -> (res: Result<
        Digest,
        StoreError,
    >)
        requires
            old(self).wf(),
            digest@ == sha1_of(content@),
        ensures
            final(self).wf(),
            match res {
                Ok(found) => {
                    &&& found == digest
                    &&& final(self)@.contains_key(digest@)
                    &&& if stored(old(self).files(), digest@) {
                        final(self).files() == old(self).files()
                    } else {
                        &&& stream matches Some(s) && holds(s@, content@)
                        &&& final(self).files() == old(self).files().push(
                            StoredFile { digest: digest@, payload: stream->0@ },
                        )
                    }
                },
                Err(e) => {
                    &&& e == StoreError::StorageIoError
                    &&& !stored(old(self).files(), digest@)
                    &&& !(stream matches Some(s) && holds(s@, content@))
                    &&& final(self).files() == old(self).files()
                },
            },
    {
        if self.find(&digest).is_some() {
            return Ok(digest);
        }
        let payload = match stream {
            Some(payload) => payload,
            None => {
                return Err(StoreError::StorageIoError);
            },
        };
        match zlib_decode(&payload) {
            None => Err(StoreError::StorageIoError),
            Some(back) => {
                if !bytes_eq(&back, content) {
                    return Err(StoreError::StorageIoError);
                }
                let ghost before = self.files();
                let ghost file = StoredFile { digest: digest@, payload: payload@ };
                self.objects.push(StoredObject { digest, payload });
                proof {
                    assert(self.files() =~= before.push(file));
                    lemma_push_file(before, file);
                }
                Ok(digest)
            },
        }
    }

    /// Stores `content` and returns its digest. Where an object is stored
    /// under that digest already, nothing is written. Otherwise the content
    /// is compressed, the compressed form is read back and compared, and the
    /// object is added at the end; where the encoder fails or the content
    /// does not come back, nothing changes and the error is `StorageIoError`.
    /// Afterwards `content` is what is read back under the digest, unless
    /// other content was stored under it before.
    pub fn put(&mut self, content: &[u8]) -> (res: Result<Digest, StoreError>)
        requires
            old(self).wf(),
        ensures
            final(self).wf(),
            match res {
                Ok(digest) => {
                    &&& digest@ == sha1_of(content@)
                    &&& storable(old(self).files(), content@)
                    &&& final(self).files() == put_files(old(self).files(), content@)
                    &&& final(self)@.contains_key(digest@)
                    &&& !clash(old(self).files(), content@) ==> reads_back(
                        final(self).files(),
                        content@,
                    )
                },
                Err(e) => {
                    &&& e == StoreError::StorageIoError
                    &&& !storable(old(self).files(), content@)
                    &&& final(self).files() == old(self).files()
                },
            },
    {
        let digest = Digest::of(content);
        let stream = if self.contains(&digest) {
            None
        } else {
            zlib_encode(content)
        };
        let res = self.put_as(digest, content, stream);
        proof {
            if res is Ok && !stored(old(self).files(), digest@) {
                lemma_push_file(old(self).files(), object_file(content@));
            }
        }
        res
    }
}

/// Where the object named by `digest` is kept: the directory named by the
/// first two characters of its hexadecimal display, and in it the file named
/// by the remaining thirty-eight.
pub fn object_path(digest: &Digest) -> (path: (String, String))
    ensures
        path.0@ == hex_chars(digest@).subrange(0, 2),
        path.1@ == hex_chars(digest@).subrange(2, 40),
        path.0@ + path.1@ == hex_chars(digest@),
{
    let shard = digest.hex_range(0, 2);
    let file = digest.hex_range(2, 40);
    assert(shard@ + file@ =~= hex_chars(digest@));
    (shard, file)
}

/// The digest of the object kept in the directory `shard` as the file
/// `file`. There is one exactly when the two names, one after the other, are
/// the hexadecimal display of a digest, two characters and thirty-eight.
pub fn digest_of_path(shard: &[u8], file: &[u8]) -> (found: Option<Digest>)
    ensures
        found is Some <==> shard@.len() == 2 && file@.len() == 38 && is_hex(shard@ + file@),
        found matches Some(d) ==> hex_of(d@) == shard@ + file@,
{
    if shard.len() != 2 {
        return None;
    }
    let mut name = copy_range(shard, 0, shard.len());
    assert(name@ =~= shard@);
    push_all(&mut name, file);
    Digest::from_hex(&name)
}

} // verus!
