//! Blob containers: files that hold several blobs one after the other, each
//! readable by its offset and length alone.

use vstd::prelude::*;
use vstd::slice::{slice_subrange, slice_to_vec};

verus! {

/// The four bytes that open every container.
pub open spec fn container_magic() -> Seq<u8> {
    seq![0x50u8, 0x46u8, 0x41u8, 0x31u8]
}

/// Where a blob lies in its container.
#[derive(Clone, Copy, Debug, PartialEq, Eq, Structural)]
pub struct BlobLocation {
    pub offset: u64,
    pub size: u64,
}

/// The blob at `offset` of `size` bytes in a container, where the container
/// holds that range.
pub open spec fn blob_at(container: Seq<u8>, offset: u64, size: u64) -> Option<Seq<u8>> {
    if offset + size <= container.len() {
        Some(container.subrange(offset as int, offset + size))
    } else {
        None
    }
}

/// Reads one blob of a container by its offset and length, looking at no other
/// byte of it. `None` where the range does not lie inside the container.
pub fn load_blob(container: &[u8], offset: u64, size: u64) -> (blob: Option<Vec<u8>>)
    ensures
        blob.is_some() == blob_at(container@, offset, size).is_some(),
        blob matches Some(bytes) ==> bytes@ == blob_at(container@, offset, size).unwrap(),
{
    let n = container.len() as u64;
    if offset > n || size > n - offset {
        return None;
    }
    let from = offset as usize;
    let to = (offset + size) as usize;
    Some(slice_to_vec(slice_subrange(container, from, to)))
}

/// A container of blobs; its view is the bytes of the file.
#[derive(Debug)]
pub struct PuffinFile {
    bytes: Vec<u8>,
}

impl View for PuffinFile {
    type V = Seq<u8>;

    closed spec fn view(&self) -> Seq<u8> {
        self.bytes@
    }
}

impl PuffinFile {
    /// A container that holds no blob yet: the magic alone.
    pub fn new() -> (file: Self)
        ensures
            file@ == container_magic(),
    {
        let mut bytes: Vec<u8> = Vec::new();
        bytes.push(0x50u8);
        bytes.push(0x46u8);
        bytes.push(0x41u8);
        bytes.push(0x31u8);
        assert(bytes@ =~= container_magic());
        PuffinFile { bytes }
    }

    /// Appends a blob and says where it lies.
    pub fn add_blob(&mut self, blob: &[u8]) -> (at: BlobLocation)
        ensures
            final(self)@ == old(self)@ + blob@,
            at.offset == old(self)@.len(),
            at.size == blob@.len(),
            blob_at(final(self)@, at.offset, at.size) == Some(blob@),
    {
        let offset = self.bytes.len() as u64;
        let size = blob.len() as u64;
        let mut copy = slice_to_vec(blob);
        self.bytes.append(&mut copy);
        assert(self.bytes@.subrange(offset as int, offset + size) =~= blob@);
        BlobLocation { offset, size }
    }

    /// The bytes of the file.
    pub fn bytes(&self) -> (bytes: &Vec<u8>)
        ensures
            bytes@ == self@,
    {
        &self.bytes
    }

    /// The length of the file in bytes.
    pub fn len(&self) -> (n: usize)
        ensures
            n == self@.len(),
    {
        self.bytes.len()
    }

    /// Reads the blob at `at`. `None` where the range does not lie inside the
    /// file.
    pub fn blob(&self, at: BlobLocation) -> (blob: Option<Vec<u8>>)
        ensures
            blob.is_some() == blob_at(self@, at.offset, at.size).is_some(),
            blob matches Some(bytes) ==> bytes@ == blob_at(self@, at.offset, at.size).unwrap(),
    {
        load_blob(self.bytes.as_slice(), at.offset, at.size)
    }
}

/// Blobs of a container stay where they are: whatever is appended later,
/// a range that could be read before reads the same.
pub proof fn lemma_blobs_independent(container: Seq<u8>, more: Seq<u8>, offset: u64, size: u64)
    requires
        blob_at(container, offset, size).is_some(),
    ensures
        blob_at(container + more, offset, size) == blob_at(container, offset, size),
{
    assert((container + more).subrange(offset as int, offset + size) =~= container.subrange(
        offset as int,
        offset + size,
    ));
}

/// The containers that a table has written, each known by its index.
#[derive(Debug)]
pub struct PuffinStore {
    files: Vec<PuffinFile>,
}

impl View for PuffinStore {
    type V = Seq<Seq<u8>>;

    closed spec fn view(&self) -> Seq<Seq<u8>> {
        Seq::new(self.files@.len(), |i: int| self.files@[i]@)
    }
}

impl PuffinStore {
    /// A store without containers.
    pub fn new() -> (store: Self)
        ensures
            store@ == Seq::<Seq<u8>>::empty(),
    {
        let store = PuffinStore { files: Vec::new() };
        assert(store@ =~= Seq::<Seq<u8>>::empty());
        store
    }

    /// The number of containers.
    pub fn len(&self) -> (n: usize)
        ensures
            n == self@.len(),
    {
        self.files.len()
    }

    /// Adds a container and returns its index.
    pub fn put(&mut self, file: PuffinFile) -> (id: u64)
        ensures
            id == old(self)@.len(),
            final(self)@ == old(self)@.push(file@),
    {
        let id = self.files.len() as u64;
        self.files.push(file);
        assert(self@ =~= old(self)@.push(file@));
        id
    }

    /// The container with index `id`, if there is one.
    pub fn get(&self, id: u64) -> (file: Option<&PuffinFile>)
        ensures
            file.is_some() == (id < self@.len()),
            file matches Some(found) ==> found@ == self@[id as int],
    {
        if id < self.files.len() as u64 {
            Some(&self.files[id as usize])
        } else {
            None
        }
    }
}

} // verus!
