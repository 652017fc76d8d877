//! The bytes of a table file.
//!
//! On disk a table file is its content followed by the checksum of the
//! content. A `FileObject` holds the content; reads are ranges of it.

use crate::checksum::{calculate_checksum, check_checksum, crc32, CHECKSUM_SIZE};
use crate::endian::{copy_range, get_u32, lemma_u32_round_trip, put_u32, u32_at, u32_be};
use crate::error::LsmError;
use vstd::prelude::*;

verus! {

/// The bytes of a file on disk: the content, then its checksum.
pub open spec fn file_image(content: Seq<u8>) -> Seq<u8> {
    content + u32_be(crc32(content))
}

/// What a file on disk holds: its content, if the checksum at its end is
/// that of the bytes before it.
pub open spec fn image_content(image: Seq<u8>) -> Result<Seq<u8>, LsmError> {
    if image.len() < CHECKSUM_SIZE {
        Err(LsmError::Truncated)
    } else {
        let content = image.subrange(0, image.len() - CHECKSUM_SIZE);
        let stored = u32_at(image, image.len() - CHECKSUM_SIZE);
        if crc32(content) == stored {
            Ok(content)
        } else {
            Err(LsmError::ChecksumMismatch { expected: stored, actual: crc32(content) })
        }
    }
}

/// A file that was written holds what was written.
pub proof fn lemma_image_round_trip(content: Seq<u8>)
    ensures
        image_content(file_image(content)) == Ok::<Seq<u8>, LsmError>(content),
{
    let image = file_image(content);
    lemma_u32_round_trip(content, crc32(content), Seq::empty());
    assert(image =~= content + u32_be(crc32(content)) + Seq::empty());
    assert(image.subrange(0, image.len() - CHECKSUM_SIZE) =~= content);
}

/// The content of a table file.
#[derive(Debug)]
pub struct FileObject {
    data: Vec<u8>,
}

impl View for FileObject {
    type V = Seq<u8>;

    closed spec fn view(&self) -> Seq<u8> {
        self.data@
    }
}

impl FileObject {
    /// A copy of `len` bytes of the content from `offset` on; `Truncated`
    /// where the content ends before them.
    pub fn read(&self, offset: usize, len: usize) -> (r: Result<Vec<u8>, LsmError>)
        ensures
            offset + len <= self@.len() ==> r is Ok && r->Ok_0@ == self@.subrange(
                offset as int,
                offset + len,
            ),
            offset + len > self@.len() ==> r == Err::<Vec<u8>, LsmError>(LsmError::Truncated),
    {
        let size = self.data.len();
        if offset > size || len > size - offset {
            return Err(LsmError::Truncated);
        }
        Ok(copy_range(self.data.as_slice(), offset, offset + len))
    }

    /// The content.
    pub fn bytes(&self) -> (data: &[u8])
        ensures
            data@ == self@,
    {
        self.data.as_slice()
    }

    /// The number of bytes of the content.
    pub fn size(&self) -> (n: usize)
        ensures
            n == self@.len(),
    {
        self.data.len()
    }

    /// The file of the content `data`.
    pub fn create(data: &[u8]) -> (file: Self)
        ensures
            file@ == data@,
    {
        Self { data: vstd::slice::slice_to_vec(data) }
    }

    /// The file of the content `data`, without a copy.
    pub fn from_vec(data: Vec<u8>) -> (file: Self)
        ensures
            file@ == data@,
    {
        Self { data }
    }

    /// The bytes to put on disk for this file: the content, then its
    /// checksum.
    pub fn image(&self) -> (image: Vec<u8>)
        ensures
            image@ == file_image(self@),
            image_content(image@) == Ok::<Seq<u8>, LsmError>(self@),
    {
        let mut image = self.data.clone();
        let checksum = calculate_checksum(self.data.as_slice());
        put_u32(&mut image, checksum);
        proof {
            lemma_image_round_trip(self@);
        }
        image
    }

    /// The file whose bytes on disk are `image`; fails with `Truncated`
    /// where there is no room for a checksum and with `ChecksumMismatch`
    /// where the checksum is not that of the content.
    pub fn open(image: Vec<u8>) -> (r: Result<Self, LsmError>)
        ensures
            match r {
                Ok(file) => image_content(image@) == Ok::<Seq<u8>, LsmError>(file@),
                Err(e) => image_content(image@) == Err::<Seq<u8>, LsmError>(e),
            },
    {
        let size = image.len();
        if size < CHECKSUM_SIZE {
            return Err(LsmError::Truncated);
        }
        let expected = get_u32(image.as_slice(), size - CHECKSUM_SIZE);
        let mut data = image;
        data.truncate(size - CHECKSUM_SIZE);
        assert(data@ =~= image@.subrange(0, size - CHECKSUM_SIZE));
        let actual = calculate_checksum(data.as_slice());
        match check_checksum(actual, expected) {
            Ok(()) => Ok(Self { data }),
            Err(e) => Err(e),
        }
    }
}

} // verus!
