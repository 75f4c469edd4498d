//! Growable byte memories, and reading from and writing to them.
use crate::codec::{get_u32, get_u64};
use crate::error::WriteError;
use vstd::prelude::*;

verus! {

/// The size of one WebAssembly page in bytes.
pub const WASM_PAGE_SIZE: u64 = 65536;

/// A memory made of bytes, which grows by whole pages.
pub trait Memory64: Sized {
    /// The bytes of the memory.
    spec fn bytes(&self) -> Seq<u8>;

    /// Whether the memory can be made to have `len` bytes. Nothing that is done to the memory
    /// changes this. Unless it says otherwise, a memory can have as many bytes as can be addressed.
    open spec fn may_grow_to(&self, len: nat) -> bool {
        len <= u64::MAX
    }

    /// The number of whole pages in the memory.
    fn size(&self) -> (pages: u64)
        ensures
            pages == self.bytes().len() / WASM_PAGE_SIZE as nat,
    ;

    /// Tries to grow the memory by `pages` pages. Returns -1 if the memory cannot be that large,
    /// and leaves it as it was.
    fn grow(&mut self, pages: u64) -> (previous: i64)
        ensures
            forall|len: nat| #[trigger]
                final(self).may_grow_to(len) == old(self).may_grow_to(len),
            previous == -1 <==> !old(self).may_grow_to(
                old(self).bytes().len() + pages as nat * WASM_PAGE_SIZE as nat,
            ),
            previous == -1 ==> final(self).bytes() == old(self).bytes(),
            previous != -1 ==> {
                &&& final(self).bytes().len() == old(self).bytes().len() + pages * WASM_PAGE_SIZE
                &&& final(self).bytes().take(old(self).bytes().len() as int) == old(self).bytes()
            },
    ;

    /// Fills `dst` with the bytes that start at `offset`.
    fn read(&self, offset: u64, dst: &mut [u8])
        requires
            offset + old(dst)@.len() <= self.bytes().len(),
        ensures
            final(dst)@ == self.bytes().subrange(offset as int, offset + old(dst)@.len()),
    ;

    /// Replaces the bytes that start at `offset` by `src`.
    fn write(&mut self, offset: u64, src: &[u8])
        requires
            offset + src@.len() <= old(self).bytes().len(),
        ensures
            forall|len: nat| #[trigger]
                final(self).may_grow_to(len) == old(self).may_grow_to(len),
            final(self).bytes() == splice(old(self).bytes(), offset as int, src@),
    ;
}

/// Whether two memories can grow to the same sizes.
pub open spec fn same_bounds<M: Memory64>(a: M, b: M) -> bool {
    forall|len: nat| #[trigger] a.may_grow_to(len) == b.may_grow_to(len)
}

/// Whether a memory can be made large enough for `len` bytes at `offset`.
pub open spec fn has_place<M: Memory64>(memory: M, offset: int, len: int) -> bool {
    let pages = memory.bytes().len() as int / WASM_PAGE_SIZE as int;
    match missing_pages(pages, offset, len) {
        Some(delta) => delta == 0 || memory.may_grow_to(
            (memory.bytes().len() + delta * WASM_PAGE_SIZE) as nat,
        ),
        None => false,
    }
}

/// `bytes` with `src` in place of what stood at `offset`.
pub open spec fn splice(bytes: Seq<u8>, offset: int, src: Seq<u8>) -> Seq<u8> {
    Seq::new(
        bytes.len(),
        |i: int| if offset <= i < offset + src.len() { src[i - offset] } else { bytes[i] },
    )
}

/// `after` holds `src` at `offset`, and otherwise what `before` held, perhaps followed by more.
pub open spec fn overwritten(
    before: Seq<u8>,
    after: Seq<u8>,
    offset: int,
    src: Seq<u8>,
) -> bool {
    &&& before.len() <= after.len()
    &&& 0 <= offset
    &&& offset + src.len() <= after.len()
    &&& after.subrange(offset, offset + src.len()) == src
    &&& forall|i: int|
        0 <= i < before.len() && !(offset <= i < offset + src.len()) ==> #[trigger] after[i]
            == before[i]
}

/// The number of bytes in the whole pages of a memory.
pub open spec fn usable(bytes: Seq<u8>) -> int {
    bytes.len() as int / WASM_PAGE_SIZE as int * WASM_PAGE_SIZE
}

/// The number of pages that a memory of `pages` pages has to grow by before `len` bytes can be
/// written at `offset`, or `None` if the bytes cannot be addressed.
pub open spec fn missing_pages(pages: int, offset: int, len: int) -> Option<int> {
    let end = offset + len;
    let size = pages * WASM_PAGE_SIZE;
    if end > u64::MAX || size > u64::MAX {
        None
    } else if end <= size {
        Some(0)
    } else if end - size + WASM_PAGE_SIZE - 1 > u64::MAX {
        None
    } else {
        Some((end - size + WASM_PAGE_SIZE - 1) / WASM_PAGE_SIZE as int)
    }
}

impl Memory64 for Vec<u8> {
    open spec fn bytes(&self) -> Seq<u8> {
        self@
    }

    open spec fn may_grow_to(&self, len: nat) -> bool {
        len <= isize::MAX
    }

    fn size(&self) -> (pages: u64) {
        self.len() as u64 / WASM_PAGE_SIZE
    }

    /// A vector grows as long as its length stays within `isize::MAX`.
    fn grow(&mut self, pages: u64) -> (previous: i64)
        ensures
            previous == -1 <==> old(self)@.len() + pages * WASM_PAGE_SIZE > isize::MAX,
            previous != -1 ==> previous == old(self)@.len() / WASM_PAGE_SIZE as nat,
            forall|i: int| old(self)@.len() <= i < final(self)@.len() ==> final(self)@[i] == 0,
    {
        let previous: u64 = self.size();
        if self.len() > isize::MAX as usize {
            return -1;
        }
        let room: u64 = (isize::MAX as usize - self.len()) as u64 / WASM_PAGE_SIZE;
        if pages > room {
            return -1;
        }
        let new_len: usize = self.len() + (pages * WASM_PAGE_SIZE) as usize;
        let ghost before = self@;
        self.resize(new_len, 0);
        assert(self@.take(before.len() as int) == before);
        previous as i64
    }

    fn read(&self, offset: u64, dst: &mut [u8]) {
        let len: usize = dst.len();
        assert(offset + len <= self.len());
        let start: usize = offset as usize;
        let mut i: usize = 0;
        while i < len
            invariant
                i <= len,
                dst@.len() == len,
                start == offset,
                start + len <= self.len(),
                forall|j: int| 0 <= j < i ==> dst@[j] == self@[offset + j],
            decreases len - i,
        {
            dst[i] = self[start + i];
            i += 1;
        }
        assert(dst@ =~= self@.subrange(offset as int, offset + len));
    }

    fn write(&mut self, offset: u64, src: &[u8]) {
        let len: usize = src.len();
        assert(offset + len <= self.len());
        let start: usize = offset as usize;
        let ghost before = self@;
        let mut i: usize = 0;
        assert(self@ =~= splice(before, offset as int, src@.take(0)));
        while i < len
            invariant
                i <= len,
                src@.len() == len,
                start == offset,
                self@.len() == before.len(),
                start + len <= self.len(),
                self@ == splice(before, offset as int, src@.take(i as int)),
            decreases len - i,
        {
            self[start + i] = src[i];
            i += 1;
            assert(self@ =~= splice(before, offset as int, src@.take(i as int)));
        }
        assert(src@.take(len as int) =~= src@);
    }
}

/// How many pages a memory of `size_pages` pages has to grow by before `len` bytes can be
/// written at `offset`.
pub fn growth_needed(size_pages: u64, offset: u64, len: usize) -> (delta: Result<u64, WriteError>)
    ensures
        match missing_pages(size_pages as int, offset as int, len as int) {
            Some(d) => delta matches Ok(r) && r == d,
            None => delta == Err::<u64, WriteError>(WriteError::AddressSpaceOverflow),
        },
{
    let last_byte: u64 = match offset.checked_add(len as u64) {
        Some(last_byte) => last_byte,
        None => {
            return Err(WriteError::AddressSpaceOverflow);
        },
    };
    let size_bytes: u64 = match size_pages.checked_mul(WASM_PAGE_SIZE) {
        Some(size_bytes) => size_bytes,
        None => {
            return Err(WriteError::AddressSpaceOverflow);
        },
    };
    if size_bytes < last_byte {
        let diff_bytes: u64 = last_byte - size_bytes;
        match diff_bytes.checked_add(WASM_PAGE_SIZE - 1) {
            Some(rounded) => Ok(rounded / WASM_PAGE_SIZE),
            None => Err(WriteError::AddressSpaceOverflow),
        }
    } else {
        Ok(0)
    }
}

/// What it means that [`Memory64::grow`], asked of a memory of `current` pages for `delta` more,
/// returned `previous`.
pub fn grow_outcome(previous: i64, current: u64, delta: u64) -> (outcome: Result<(), WriteError>)
    ensures
        outcome == if previous == -1 {
            Err::<(), WriteError>(WriteError::GrowFailed { current, delta })
        } else {
            Ok(())
        },
{
    if previous == -1 {
        Err(WriteError::GrowFailed { current, delta })
    } else {
        Ok(())
    }
}

/// What writing `src` at `offset` may come to, for a memory that held `before`.
///
/// The memory grows by as many pages as are missing and by no more. It is left as it was if it
/// refuses to grow, or if the bytes cannot be addressed.
pub open spec fn write_result(
    before: Seq<u8>,
    after: Seq<u8>,
    offset: int,
    src: Seq<u8>,
    result: Result<(), WriteError>,
) -> bool {
    let pages = before.len() as int / WASM_PAGE_SIZE as int;
    match missing_pages(pages, offset, src.len() as int) {
        Some(delta) => match result {
            Ok(()) => {
                &&& overwritten(before, after, offset, src)
                &&& after.len() == before.len() + delta * WASM_PAGE_SIZE
            },
            Err(WriteError::GrowFailed { current, delta: asked }) => {
                &&& delta != 0
                &&& asked == delta
                &&& current == pages
                &&& after == before
            },
            Err(WriteError::AddressSpaceOverflow) => false,
        },
        None => {
            &&& result == Err::<(), WriteError>(WriteError::AddressSpaceOverflow)
            &&& after == before
        },
    }
}

/// Writes `bytes` at `offset`. The memory is grown first if it is too small, and only then.
pub fn write<M: Memory64>(memory: &mut M, offset: u64, bytes: &[u8]) -> (result: Result<
    (),
    WriteError,
>)
    ensures
        write_result(
            old(memory).bytes(),
            final(memory).bytes(),
            offset as int,
            bytes@,
            result,
        ),
        same_bounds(*old(memory), *final(memory)),
        result is Ok <==> has_place(*old(memory), offset as int, bytes@.len() as int),
{
    let ghost before = memory.bytes();
    let size_pages: u64 = memory.size();
    let diff_pages: u64 = match growth_needed(size_pages, offset, bytes.len()) {
        Ok(diff_pages) => diff_pages,
        Err(error) => {
            return Err(error);
        },
    };
    if diff_pages > 0 {
        let previous: i64 = memory.grow(diff_pages);
        match grow_outcome(previous, size_pages, diff_pages) {
            Ok(()) => {},
            Err(error) => {
                return Err(error);
            },
        }
    }
    let ghost grown = memory.bytes();
    assert(forall|i: int|
        0 <= i < before.len() ==> #[trigger] grown[i] == grown.take(before.len() as int)[i]);
    memory.write(offset, bytes);
    assert(memory.bytes().subrange(offset as int, offset + bytes@.len()) =~= bytes@);
    Ok(())
}

/// Reads a 32-bit integer, stored in little-endian order at `offset`.
pub fn read_u32<M: Memory64>(m: &M, offset: u64) -> (value: u32)
    requires
        offset + 4 <= m.bytes().len(),
    ensures
        value == crate::codec::le_value(m.bytes().subrange(offset as int, offset + 4)),
{
    let mut buf: [u8; 4] = [0; 4];
    m.read(offset, &mut buf);
    assert(buf@.subrange(0, 4) =~= buf@);
    get_u32(&buf, 0)
}

/// Reads a 64-bit integer, stored in little-endian order at `offset`.
pub fn read_u64<M: Memory64>(m: &M, offset: u64) -> (value: u64)
    requires
        offset + 8 <= m.bytes().len(),
    ensures
        value == crate::codec::le_value(m.bytes().subrange(offset as int, offset + 8)),
{
    let mut buf: [u8; 8] = [0; 8];
    m.read(offset, &mut buf);
    assert(buf@.subrange(0, 8) =~= buf@);
    get_u64(&buf, 0)
}

} // verus!
