use vstd::prelude::*;
use crate::error::DbError;
use crate::util::PAGE_SIZE;

verus! {

#[verifier::external_type_specification]
#[verifier::external_body]
pub struct ExMmapMut(memmap2::MmapMut);

/// The bytes a mapped region holds.
pub uninterp spec fn mmap_bytes(m: memmap2::MmapMut) -> Seq<u8>;

/// `bytes` with the range starting at `offset` overwritten by `data`.
pub open spec fn write_at(bytes: Seq<u8>, offset: int, data: Seq<u8>) -> Seq<u8> {
    Seq::new(
        bytes.len(),
        |i: int|
            if offset <= i < offset + data.len() {
                data[i - offset]
            } else {
                bytes[i]
            },
    )
}

/// Relies on memmap2::MmapMut's view as a byte slice: the region's length.
#[verifier::external_body]
pub(crate) fn mmap_len(m: &memmap2::MmapMut) -> (r: usize)
    ensures
        r == mmap_bytes(*m).len(),
{
    m.as_ref().len()
}

/// Relies on memmap2::MmapMut's view as a byte slice: a copy of the bytes in
/// `[offset, offset + len)`.
#[verifier::external_body]
pub(crate) fn mmap_read(m: &memmap2::MmapMut, offset: usize, len: usize) -> (r: Vec<u8>)
    requires
        offset + len <= mmap_bytes(*m).len(),
    ensures
        r@ == mmap_bytes(*m).subrange(offset as int, offset as int + len as int),
{
    m[offset..offset + len].to_vec()
}

/// Relies on memmap2::MmapMut's mutable view as a byte slice: overwrites the
/// bytes at `[offset, offset + data.len())` and leaves the rest unchanged.
#[verifier::external_body]
pub(crate) fn mmap_write(m: &mut memmap2::MmapMut, offset: usize, data: &[u8])
    requires
        offset + data@.len() <= mmap_bytes(*old(m)).len(),
    ensures
        mmap_bytes(*final(m)) == write_at(mmap_bytes(*old(m)), offset as int, data@),
{
    m[offset..offset + data.len()].copy_from_slice(data);
}

/// Relies on memmap2::MmapMut::flush: forces outstanding modifications to
/// durable storage; the mapped bytes are not changed by it.
#[verifier::external_body]
pub(crate) fn mmap_flush(m: &memmap2::MmapMut) -> (r: Result<(), DbError>)
    ensures
        r matches Err(e) ==> e == DbError::Io,
{
    match m.flush() {
        Ok(()) => Ok(()),
        Err(_) => Err(DbError::Io),
    }
}

/// Whether the whole page `page_id` lies inside a region of `total` bytes.
pub open spec fn page_in_bounds(total: int, page_id: u32) -> bool {
    (page_id as int + 1) * (PAGE_SIZE as int) <= total
}

/// The page `page_id` of a region.
pub open spec fn page_of(bytes: Seq<u8>, page_id: u32) -> Seq<u8> {
    bytes.subrange(
        page_id as int * (PAGE_SIZE as int),
        page_id as int * (PAGE_SIZE as int) + (PAGE_SIZE as int),
    )
}

/// The byte offset of any page, plus one page, stays far below the 64-bit
/// limit.
proof fn lemma_page_offset_bound(page_id: u32)
    ensures
        (page_id as int) * (PAGE_SIZE as int) + PAGE_SIZE <= 0x1_0000_0000_0000int,
{
    assert((page_id as int) * (PAGE_SIZE as int) <= 0xffff_ffffint * (PAGE_SIZE as int))
        by (nonlinear_arith)
        requires
            page_id as int <= 0xffff_ffffint,
    ;
}

/// The mapped-file pager: translates page identifiers into byte ranges of the
/// region it exclusively owns.
pub struct Pager {
    map: memmap2::MmapMut,
}

impl Pager {
    /// The bytes of the owned region.
    pub closed spec fn bytes(self) -> Seq<u8> {
        mmap_bytes(self.map)
    }

    /// Takes ownership of a mapped region.
    pub fn new(map: memmap2::MmapMut) -> (p: Pager)
        ensures
            p.bytes() == mmap_bytes(map),
    {
        Pager { map }
    }

    /// Gives the mapped region back.
    pub fn into_map(self) -> (m: memmap2::MmapMut)
        ensures
            mmap_bytes(m) == self.bytes(),
    {
        self.map
    }

    /// The region's length in bytes.
    pub fn len(&self) -> (n: usize)
        ensures
            n == self.bytes().len(),
    {
        mmap_len(&self.map)
    }

    /// A copy of page `page_id`, or `PageOutOfBounds` when its byte range
    /// exceeds the region.
    pub fn get_page(&self, page_id: u32) -> (r: Result<Vec<u8>, DbError>)
        ensures
            page_in_bounds(self.bytes().len() as int, page_id) ==> (r matches Ok(v) && v@
                == page_of(self.bytes(), page_id)),
            !page_in_bounds(self.bytes().len() as int, page_id) ==> r == Err::<
                Vec<u8>,
                DbError,
            >(DbError::PageOutOfBounds),
    {
        proof {
            lemma_page_offset_bound(page_id);
        }
        let off64 = (page_id as u64) * (PAGE_SIZE as u64);
        let end64 = off64 + (PAGE_SIZE as u64);
        let total = mmap_len(&self.map);
        if end64 > total as u64 {
            return Err(DbError::PageOutOfBounds);
        }
        Ok(mmap_read(&self.map, off64 as usize, PAGE_SIZE))
    }

    /// Copies `data` into the byte range of page `page_id`. Fails with
    /// `ValueTooLarge` when `data` exceeds one page and with `PageOutOfBounds`
    /// when the target range exceeds the region; on failure nothing changes.
    pub fn write_page(&mut self, page_id: u32, data: &[u8]) -> (r: Result<(), DbError>)
        ensures
            data@.len() > PAGE_SIZE ==> r == Err::<(), DbError>(DbError::ValueTooLarge)
                && *final(self) == *old(self),
            data@.len() <= PAGE_SIZE
                && page_id as int * (PAGE_SIZE as int) + data@.len() > old(self).bytes().len()
                ==> r == Err::<(), DbError>(DbError::PageOutOfBounds) && *final(self) == *old(self),
            data@.len() <= PAGE_SIZE
                && page_id as int * (PAGE_SIZE as int) + data@.len() <= old(self).bytes().len()
                ==> r is Ok && final(self).bytes() == write_at(
                    old(self).bytes(),
                    page_id as int * (PAGE_SIZE as int),
                    data@,
                ),
    {
        if data.len() > PAGE_SIZE {
            return Err(DbError::ValueTooLarge);
        }
        proof {
            lemma_page_offset_bound(page_id);
        }
        let off64 = (page_id as u64) * (PAGE_SIZE as u64);
        let end64 = off64 + (data.len() as u64);
        let total = mmap_len(&self.map);
        if end64 > total as u64 {
            return Err(DbError::PageOutOfBounds);
        }
        mmap_write(&mut self.map, off64 as usize, data);
        Ok(())
    }

    /// Forces all writes since the last flush to durable storage.
    pub fn flush(&mut self) -> (r: Result<(), DbError>)
        ensures
            *final(self) == *old(self),
            r is Ok || r == Err::<(), DbError>(DbError::Io),
    {
        mmap_flush(&self.map)
    }
}

} // verus!
