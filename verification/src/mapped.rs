//! Memory-mapped files.

use vstd::prelude::*;
use vstd::slice::slice_subrange;
use memmap2::MmapMut;
use crate::errors::FillError;

verus! {

/// `memmap2::MmapMut`, a mapping that can be written to. Nothing is known
/// of a value of it but what the functions below say.
#[verifier::external_type_specification]
#[verifier::external_body]
pub struct ExMmapMut(memmap2::MmapMut);

/// `std::io::Error`, handed on as it comes.
#[verifier::external_type_specification]
#[verifier::external_body]
pub struct ExIoError(std::io::Error);

/// The bytes that a mapping holds, in order.
pub uninterp spec fn mmap_contents(map: memmap2::MmapMut) -> Seq<u8>;

/// `bytes` with the run starting at `start` replaced by `data`.
pub open spec fn overwrite(bytes: Seq<u8>, start: int, data: Seq<u8>) -> Seq<u8> {
    Seq::new(
        bytes.len(),
        |i: int|
            if start <= i < start + data.len() {
                data[i - start]
            } else {
                bytes[i]
            },
    )
}

/// `len` zero bytes.
pub open spec fn zeroes(len: nat) -> Seq<u8> {
    Seq::new(len, |i: int| 0u8)
}

/// Calls `memmap2::MmapMut::map_anon`. A mapping that is returned is
/// `length` bytes long; nothing is claimed of what it holds, nor of when the
/// call succeeds.
#[verifier::external_body]
fn mmap_anon(length: usize) -> (r: Result<MmapMut, std::io::Error>)
    ensures
        r matches Ok(map) ==> mmap_contents(map).len() == length,
{
    MmapMut::map_anon(length)
}

/// Dereferences a `memmap2::MmapMut` to the byte slice it maps.
#[verifier::external_body]
fn mmap_bytes(map: &MmapMut) -> (r: &[u8])
    ensures
        r@ == mmap_contents(*map),
{
    &map[..]
}

/// Dereferences a `memmap2::MmapMut` mutably and copies `data` over the
/// mapped bytes that start at `start`. All other bytes stay as they were.
#[verifier::external_body]
fn mmap_store(map: &mut MmapMut, start: usize, data: &[u8])
    requires
        start + data@.len() <= mmap_contents(*old(map)).len(),
    ensures
        mmap_contents(*final(map)) == overwrite(mmap_contents(*old(map)), start as int, data@),
{
    map[start..][..data.len()].copy_from_slice(data)
}

/// Dereferences a `memmap2::MmapMut` mutably and sets every mapped byte to
/// `value` with the slice method `fill`.
#[verifier::external_body]
fn mmap_fill(map: &mut MmapMut, value: u8)
    ensures
        mmap_contents(*final(map)) == Seq::new(mmap_contents(*old(map)).len(), |i: int| value),
{
    map.fill(value)
}

/// Calls `memmap2::MmapMut::flush`. Nothing is claimed of the outcome.
#[verifier::external_body]
fn mmap_flush(map: &MmapMut) -> (r: Result<(), std::io::Error>)
{
    map.flush()
}

/// A file with a corresponding memory map of the entire contents of the file
pub struct MappedFile {
    map: MmapMut,
    anonymous: bool,
}

impl View for MappedFile {
    type V = Seq<u8>;

    closed spec fn view(&self) -> Seq<u8> {
        mmap_contents(self.map)
    }
}

impl MappedFile {
    /// Whether the mapping is backed by anonymous memory instead of a file.
    pub closed spec fn anonymous(&self) -> bool {
        self.anonymous
    }

    /// Maps `size` bytes of anonymous memory, all of them zero.
    pub fn anon(size: usize) -> (r: Result<MappedFile, FillError>)
        ensures
            match r {
                Ok(file) => file@ == zeroes(size as nat) && file.anonymous(),
                Err(e) => e is Io,
            },
    {
        match mmap_anon(size) {
            Ok(map) => {
                let mut map = map;
                mmap_fill(&mut map, 0);
                Ok(MappedFile { map, anonymous: true })
            },
            Err(e) => Err(FillError::Io(e)),
        }
    }

    /// Wraps a mapping of a file.
    pub fn from_map(map: MmapMut) -> (r: MappedFile)
        ensures
            r@ == mmap_contents(map),
            !r.anonymous(),
    {
        MappedFile { map, anonymous: false }
    }

    /// Whether the mapping is backed by anonymous memory instead of a file.
    pub fn is_anonymous(&self) -> (r: bool)
        ensures
            r == self.anonymous(),
    {
        self.anonymous
    }

    /// Number of bytes mapped.
    pub fn len(&self) -> (r: usize)
        ensures
            r == self@.len(),
    {
        mmap_bytes(&self.map).len()
    }

    /// The mapped bytes from `start` on, `len` of them.
    pub fn read(&self, start: usize, len: usize) -> (r: &[u8])
        requires
            start + len <= self@.len(),
        ensures
            r@ == self@.subrange(start as int, start + len),
    {
        let bytes = mmap_bytes(&self.map);
        // The range ends within the slice, whose length fits a `usize`.
        let _total: usize = bytes.len();
        slice_subrange(bytes, start, start + len)
    }

    /// Copies `data` into the mapping, starting at `start`.
    pub fn store(&mut self, start: usize, data: &[u8])
        requires
            start + data@.len() <= old(self)@.len(),
        ensures
            final(self)@ == overwrite(old(self)@, start as int, data@),
            final(self).anonymous() == old(self).anonymous(),
    {
        mmap_store(&mut self.map, start, data)
    }

    /// Flushes the file to the backing disk, blocks until done. Anonymous
    /// memory has nothing behind it and is left alone.
    pub fn flush(&self) -> (r: Result<(), FillError>)
        ensures
            r matches Err(e) ==> e is Io && !self.anonymous(),
    {
        if self.anonymous {
            Ok(())
        } else {
            match mmap_flush(&self.map) {
                Ok(()) => Ok(()),
                Err(e) => Err(FillError::Io(e)),
            }
        }
    }
}

} // verus!
