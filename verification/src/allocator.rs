//! Chunks of equal size, handed out and taken back.
//!
//! The memory from the first chunk on is divided into chunks. Each chunk has a header, which
//! says whether the chunk is allocated, and a body for its user. The chunks that are not
//! allocated form a list. The last chunk of the list is the topmost chunk of all: when it is
//! allocated, a new chunk is made above it.
use crate::codec::{get_u64, le_value, u64_bytes};
use crate::error::{LoadError, WriteError};
use crate::memory::{
    has_place, missing_pages, overwritten, same_bounds, usable, write_result, Memory64,
    WASM_PAGE_SIZE,
};
use crate::node::{Ptr, LAYOUT_VERSION, NULL};
use vstd::prelude::*;

verus! {

/// The number of bytes of the header of an allocator.
pub const ALLOCATOR_HEADER_SIZE: u64 = 28;

/// The number of bytes of the header of a chunk.
pub const CHUNK_HEADER_SIZE: u64 = 13;

/// An allocator of chunks.
#[derive(Debug)]
pub struct Allocator {
    header_address: Ptr,
    allocation_size: u64,
    num_allocated_chunks: u64,
    free_list_head: Ptr,
}

/// The header of a chunk.
pub struct Chunk {
    pub allocated: bool,
    /// The next chunk in the list, if the chunk is not allocated.
    pub next: Ptr,
}

/// The bytes that the header of an allocator starts with: `BTA`.
pub open spec fn allocator_magic() -> Seq<u8> {
    seq![66u8, 84u8, 65u8]
}

/// The chunk whose header is stored at `address`, if there is one.
#[verifier::opaque]
pub open spec fn chunk_at(bytes: Seq<u8>, address: int) -> Option<Chunk> {
    if 0 <= address && address + CHUNK_HEADER_SIZE <= bytes.len() {
        chunk_in(bytes.subrange(address, address + CHUNK_HEADER_SIZE))
    } else {
        None
    }
}

/// The chunk whose header `header` is, if it is one.
pub open spec fn chunk_in(header: Seq<u8>) -> Option<Chunk> {
    if header[0] == 67 && header[1] == 72 && header[2] == 75 && header[3] == LAYOUT_VERSION && (
    header[4] == 0 || header[4] == 1) {
        Some(Chunk { allocated: header[4] == 1, next: le_value(header.subrange(5, 13)) as u64 })
    } else {
        None
    }
}

proof fn lemma_chunk_at_same(before: Seq<u8>, after: Seq<u8>, address: int)
    requires
        before.len() <= after.len(),
        0 <= address,
        address + CHUNK_HEADER_SIZE <= before.len(),
        forall|i: int|
            address <= i < address + CHUNK_HEADER_SIZE ==> #[trigger] after[i] == before[i],
    ensures
        chunk_at(after, address) == chunk_at(before, address),
{
    reveal(chunk_at);
    assert(after.subrange(address, address + CHUNK_HEADER_SIZE) =~= before.subrange(
        address,
        address + CHUNK_HEADER_SIZE,
    ));
}

/// The bytes of the header of a chunk.
fn chunk_image(allocated: bool, next: Ptr) -> (image: [u8; 13])
    ensures
        chunk_in(image@) == Some(Chunk { allocated, next }),
{
    let flag: u8 = if allocated {
        1
    } else {
        0
    };
    let n: [u8; 8] = u64_bytes(next);
    let image: [u8; 13] = [
        67,
        72,
        75,
        LAYOUT_VERSION,
        flag,
        n[0],
        n[1],
        n[2],
        n[3],
        n[4],
        n[5],
        n[6],
        n[7],
    ];
    assert(image@.subrange(5, 13) =~= n@);
    image
}

/// The number of chunks of `size` bytes that can be allocated from `first` on in a memory of `len`
/// bytes. There is always one more chunk, of which the header suffices.
#[verifier::opaque]
pub open spec fn chunks_within(first: int, size: int, len: nat) -> int {
    (len as int / WASM_PAGE_SIZE as int * WASM_PAGE_SIZE - first - CHUNK_HEADER_SIZE) / size
}

/// The number of bytes that a memory of `len` bytes has once `num` chunks of `size` bytes are
/// allocated in it from `first` on.
#[verifier::opaque]
pub open spec fn size_for(first: int, size: int, len: nat, num: int) -> int {
    len + missing_pages(
        len as int / WASM_PAGE_SIZE as int,
        first + num * size,
        CHUNK_HEADER_SIZE as int,
    )->0 * WASM_PAGE_SIZE
}

/// How the memory fails to grow from `len` bytes if `num` chunks are allocated and it has no room
/// for more.
#[verifier::opaque]
pub open spec fn error_for(first: int, size: int, len: nat, num: int) -> WriteError {
    let pages = len as int / WASM_PAGE_SIZE as int;
    let above = first + (num + 1) * size;
    if above + CHUNK_HEADER_SIZE + WASM_PAGE_SIZE - 1 > u64::MAX {
        WriteError::AddressSpaceOverflow
    } else {
        WriteError::GrowFailed {
            current: pages as u64,
            delta: missing_pages(pages, above, CHUNK_HEADER_SIZE as int)->0 as u64,
        }
    }
}

/// Whether `x` lies a multiple of `size` above `first`.
#[verifier::opaque]
spec fn is_slot(first: int, size: int, x: int) -> bool {
    first <= x && (x - first) % size == 0
}

/// Two slots lie at least `size` bytes apart.
proof fn lemma_slots_apart(first: int, size: int, x: int, y: int)
    requires
        size > 0,
        is_slot(first, size, x),
        is_slot(first, size, y),
        x < y,
    ensures
        x + size <= y,
{
    reveal(is_slot);
    vstd::arithmetic::div_mod::lemma_fundamental_div_mod(x - first, size);
    vstd::arithmetic::div_mod::lemma_fundamental_div_mod(y - first, size);
    let i = (x - first) / size;
    let j = (y - first) / size;
    assert(size * i + size <= size * j) by (nonlinear_arith)
        requires
            size * i < size * j,
            size > 0,
    ;
}

proof fn lemma_slot(first: int, size: int, n: int)
    requires
        size > 0,
        n >= 0,
    ensures
        is_slot(first, size, first + n * size),
{
    reveal(is_slot);
    vstd::arithmetic::div_mod::lemma_mod_multiples_basic(n, size);
    assert(n * size >= 0) by (nonlinear_arith)
        requires
            n >= 0,
            size > 0,
    ;
}

impl Allocator {
    /// Where the header of the allocator is stored.
    pub closed spec fn spec_header_address(&self) -> Ptr {
        self.header_address
    }

    /// The number of bytes that the body of each chunk has.
    pub closed spec fn spec_allocation_size(&self) -> u64 {
        self.allocation_size
    }

    /// The number of chunks that are allocated.
    pub closed spec fn spec_num_allocations(&self) -> u64 {
        self.num_allocated_chunks
    }

    /// The number of bytes that a chunk has.
    pub open spec fn spec_chunk_size(&self) -> int {
        self.spec_allocation_size() + CHUNK_HEADER_SIZE
    }

    /// Where the first chunk starts.
    pub open spec fn first_chunk(&self) -> int {
        self.spec_header_address() + ALLOCATOR_HEADER_SIZE
    }

    /// Whether `header` starts with the magic and the version of an allocator.
    pub open spec fn is_header(header: Seq<u8>) -> bool {
        header.take(3) == allocator_magic() && header[3] == LAYOUT_VERSION
    }

    /// The allocator whose header at `address` is `header`, if it is one.
    pub closed spec fn header_in(header: Seq<u8>, address: Ptr) -> Option<Allocator> {
        if Self::is_header(header) {
            Some(
                Allocator {
                    header_address: address,
                    allocation_size: le_value(header.subrange(4, 12)) as u64,
                    num_allocated_chunks: le_value(header.subrange(12, 20)) as u64,
                    free_list_head: le_value(header.subrange(20, 28)) as u64,
                },
            )
        } else {
            None
        }
    }

    /// The header of an allocator is recognized by its magic and its version, and holds its fields.
    pub proof fn lemma_header(header: Seq<u8>, address: Ptr)
        ensures
            Self::header_in(header, address) is Some <==> Self::is_header(header),
            Self::header_in(header, address) matches Some(allocator) ==> {
                &&& allocator.spec_header_address() == address
                &&& allocator.spec_allocation_size() == le_value(header.subrange(4, 12)) as u64
                &&& allocator.spec_num_allocations() == le_value(header.subrange(12, 20)) as u64
                &&& allocator.spec_next() == le_value(header.subrange(20, 28)) as u64
                    + CHUNK_HEADER_SIZE
            },
    {
    }

    /// Whether `x` is where a chunk starts.
    spec fn slot(self, x: int) -> bool {
        is_slot(self.first_chunk(), self.spec_chunk_size(), x)
    }

    /// Whether `free` are the chunks in the list, and `live` the addresses of the bodies of all
    /// chunks that are allocated.
    spec fn wf_with(self, bytes: Seq<u8>, live: Set<Ptr>, free: Seq<Ptr>) -> bool {
        let top = free.last() as int;
        &&& self.spec_chunk_size() <= u64::MAX
        &&& top + CHUNK_HEADER_SIZE <= usable(bytes) <= u64::MAX
        &&& free.len() > 0
        &&& free[0] == self.free_list_head
        &&& live.finite()
        &&& live.len() == self.num_allocated_chunks
        &&& top == self.first_chunk() + (live.len() + free.len() - 1) * self.spec_chunk_size()
        &&& forall|i: int|
            0 <= i < free.len() ==> {
                &&& self.slot(#[trigger] free[i] as int)
                &&& free[i] <= top
                &&& chunk_at(bytes, free[i] as int) == Some(
                    Chunk { allocated: false, next: Self::following(free, i) },
                )
            }
        &&& forall|a: Ptr| #[trigger]
            live.contains(a) ==> {
                &&& self.slot(a - CHUNK_HEADER_SIZE)
                &&& a - CHUNK_HEADER_SIZE < top
                &&& chunk_at(bytes, a - CHUNK_HEADER_SIZE) matches Some(chunk)
                &&& chunk.allocated
            }
    }

    /// The chunk that follows the `i`-th in the list.
    spec fn following(free: Seq<Ptr>, i: int) -> Ptr {
        if i + 1 < free.len() {
            free[i + 1]
        } else {
            NULL
        }
    }

    /// Whether the chunks in `bytes` are in order, and the bodies of those that are allocated
    /// are at the addresses in `live`.
    pub closed spec fn wf(self, bytes: Seq<u8>, live: Set<Ptr>) -> bool {
        exists|free: Seq<Ptr>| self.wf_with(bytes, live, free)
    }

    /// The number of chunks that can be allocated in all before the memory has to grow.
    pub open spec fn capacity(self, bytes: Seq<u8>) -> int {
        chunks_within(self.first_chunk(), self.spec_chunk_size(), bytes.len())
    }

    /// Whether the bodies of the chunks in `live` hold the same bytes before and after.
    pub open spec fn bodies_same(self, before: Seq<u8>, after: Seq<u8>, live: Set<Ptr>) -> bool {
        forall|a: Ptr, i: int|
            #![trigger live.contains(a), after[i]]
            live.contains(a) && a <= i < a + self.spec_allocation_size() ==> after[i] == before[i]
    }

    /// Whether everything before the first chunk is the same before and after.
    pub open spec fn low_same(self, before: Seq<u8>, after: Seq<u8>) -> bool {
        forall|i: int| 0 <= i < self.first_chunk() ==> #[trigger] after[i] == before[i]
    }

    /// Where the header of an allocated chunk lies, and what it says.
    pub proof fn lemma_live_header(self, bytes: Seq<u8>, live: Set<Ptr>, a: Ptr)
        requires
            self.wf(bytes, live),
            live.contains(a),
        ensures
            (a - CHUNK_HEADER_SIZE - self.first_chunk()) % self.spec_chunk_size() == 0,
            chunk_at(bytes, a - CHUNK_HEADER_SIZE) matches Some(chunk) && chunk.allocated,
    {
        reveal(is_slot);
        assert(self.slot(a - CHUNK_HEADER_SIZE));
    }

    /// Where the header of the chunk lies that will be allocated next, and what it says.
    pub proof fn lemma_next_header(self, bytes: Seq<u8>, live: Set<Ptr>)
        requires
            self.wf(bytes, live),
        ensures
            self.spec_next() >= self.first_chunk() + CHUNK_HEADER_SIZE,
            (self.spec_next() - CHUNK_HEADER_SIZE - self.first_chunk()) % self.spec_chunk_size()
                == 0,
            chunk_at(bytes, self.spec_next() - CHUNK_HEADER_SIZE) matches Some(chunk)
                && !chunk.allocated,
    {
        let free = choose|free: Seq<Ptr>| self.wf_with(bytes, live, free);
        reveal(is_slot);
        assert(self.slot(free[0] as int));
    }

    /// Where the body of an allocated chunk lies.
    pub proof fn lemma_live(self, bytes: Seq<u8>, live: Set<Ptr>, a: Ptr)
        requires
            self.wf(bytes, live),
            live.contains(a),
        ensures
            self.first_chunk() + CHUNK_HEADER_SIZE <= a,
            a + self.spec_allocation_size() <= usable(bytes),
            usable(bytes) <= bytes.len(),
            usable(bytes) <= u64::MAX,
    {
        let free = choose|free: Seq<Ptr>| self.wf_with(bytes, live, free);
        let top = free[free.len() - 1] as int;
        reveal(is_slot);
        assert(self.slot(top));
        lemma_slots_apart(
            self.first_chunk(),
            self.spec_chunk_size(),
            a - CHUNK_HEADER_SIZE,
            top,
        );
    }

    /// Where the first chunk lies.
    pub proof fn lemma_first(self, bytes: Seq<u8>, live: Set<Ptr>)
        requires
            self.wf(bytes, live),
        ensures
            self.first_chunk() + CHUNK_HEADER_SIZE <= usable(bytes),
            usable(bytes) <= bytes.len(),
            usable(bytes) <= u64::MAX,
            live.finite(),
            live.len() == self.spec_num_allocations(),
            self.chunk_above(live.len() - 1) + CHUNK_HEADER_SIZE <= usable(bytes),
            !self.overflows(live.len() as int),
            self.size_with(bytes.len(), live.len() as int) == bytes.len(),
    {
        let free = choose|free: Seq<Ptr>| self.wf_with(bytes, live, free);
        reveal(is_slot);
        reveal(size_for);
        assert(self.slot(free[free.len() - 1] as int));
        let size = self.spec_chunk_size();
        assert(live.len() * size <= (live.len() + free.len() - 1) * size) by (nonlinear_arith)
            requires
                free.len() > 0,
                size > 0,
        ;
    }

    /// A memory that has grown for some chunks has grown for more of them as one that grows for
    /// all of them at once.
    pub proof fn lemma_size_with(self, len: nat, num: int, more: int)
        requires
            0 <= num <= more,
            !self.overflows(more),
            len as int / WASM_PAGE_SIZE as int * WASM_PAGE_SIZE <= u64::MAX,
        ensures
            len <= self.size_with(len, num),
            self.size_with(self.size_with(len, num) as nat, more) == self.size_with(len, more),
    {
        reveal(size_for);
        let size = self.spec_chunk_size();
        assert(num * size <= more * size) by (nonlinear_arith)
            requires
                num <= more,
                size > 0,
        ;
    }

    /// Two chunks that are allocated do not overlap.
    pub proof fn lemma_live_apart(self, bytes: Seq<u8>, live: Set<Ptr>, a: Ptr, b: Ptr)
        requires
            self.wf(bytes, live),
            live.contains(a),
            live.contains(b),
            a < b,
        ensures
            a + self.spec_chunk_size() <= b,
    {
        let free = choose|free: Seq<Ptr>| self.wf_with(bytes, live, free);
        lemma_slots_apart(
            self.first_chunk(),
            self.spec_chunk_size(),
            a - CHUNK_HEADER_SIZE,
            b - CHUNK_HEADER_SIZE,
        );
    }

    /// An allocated chunk does not overlap a chunk in the list.
    proof fn lemma_live_free_apart(
        self,
        bytes: Seq<u8>,
        live: Set<Ptr>,
        free: Seq<Ptr>,
        a: Ptr,
        i: int,
    )
        requires
            self.wf_with(bytes, live, free),
            live.contains(a),
            0 <= i < free.len(),
        ensures
            ({
                let start = a - CHUNK_HEADER_SIZE;
                let size = self.spec_chunk_size();
                start + size <= free[i] || free[i] + size <= start
            }),
    {
        let start = a - CHUNK_HEADER_SIZE;
        let size = self.spec_chunk_size();
        assert(start != free[i]) by {
            assert(chunk_at(bytes, start) != chunk_at(bytes, free[i] as int));
        }
        if start < free[i] {
            lemma_slots_apart(self.first_chunk(), size, start, free[i] as int);
        } else {
            lemma_slots_apart(self.first_chunk(), size, free[i] as int, start);
        }
    }

    /// No chunk occurs twice in the list: the list would not end.
    proof fn lemma_free_distinct(
        self,
        bytes: Seq<u8>,
        live: Set<Ptr>,
        free: Seq<Ptr>,
        i: int,
        j: int,
    )
        requires
            self.wf_with(bytes, live, free),
            0 <= i < j < free.len(),
        ensures
            free[i] != free[j],
        decreases free.len() - j,
    {
        if free[i] == free[j] {
            assert(Self::following(free, i) == Self::following(free, j));
            if j + 1 < free.len() {
                self.lemma_free_distinct(bytes, live, free, i + 1, j + 1);
            } else {
                self.lemma_free_above(bytes, live, free, i + 1);
            }
        }
    }

    /// Two chunks in the list do not overlap.
    proof fn lemma_free_apart(
        self,
        bytes: Seq<u8>,
        live: Set<Ptr>,
        free: Seq<Ptr>,
        i: int,
        j: int,
    )
        requires
            self.wf_with(bytes, live, free),
            0 <= i < j < free.len(),
        ensures
            free[i] + self.spec_chunk_size() <= free[j] || free[j] + self.spec_chunk_size()
                <= free[i],
    {
        self.lemma_free_distinct(bytes, live, free, i, j);
        if free[i] < free[j] {
            lemma_slots_apart(
                self.first_chunk(),
                self.spec_chunk_size(),
                free[i] as int,
                free[j] as int,
            );
        } else {
            lemma_slots_apart(
                self.first_chunk(),
                self.spec_chunk_size(),
                free[j] as int,
                free[i] as int,
            );
        }
    }

    proof fn lemma_free_above(self, bytes: Seq<u8>, live: Set<Ptr>, free: Seq<Ptr>, i: int)
        requires
            self.wf_with(bytes, live, free),
            0 <= i < free.len(),
        ensures
            0 < self.first_chunk() <= free[i] <= free.last(),
            free[i] + CHUNK_HEADER_SIZE <= usable(bytes) <= bytes.len(),
    {
        reveal(is_slot);
        assert(self.slot(free[i] as int));
    }

    proof fn lemma_frame(self, before: Seq<u8>, after: Seq<u8>, live: Set<Ptr>, free: Seq<Ptr>)
        requires
            self.wf_with(before, live, free),
            before.len() <= after.len(),
            usable(after) <= u64::MAX,
            forall|i: int, k: int|
                #![trigger free[i], after[k]]
                0 <= i < free.len() && free[i] <= k < free[i] + CHUNK_HEADER_SIZE ==> after[k]
                    == before[k],
            forall|a: Ptr, k: int|
                #![trigger live.contains(a), after[k]]
                live.contains(a) && a - CHUNK_HEADER_SIZE <= k < a ==> after[k] == before[k],
        ensures
            self.wf_with(after, live, free),
    {
        assert(usable(before) <= usable(after)) by {
            vstd::arithmetic::div_mod::lemma_div_is_ordered(
                before.len() as int,
                after.len() as int,
                WASM_PAGE_SIZE as int,
            );
        }
        assert forall|i: int| 0 <= i < free.len() implies chunk_at(
            after,
            #[trigger] free[i] as int,
        ) == chunk_at(before, free[i] as int) by {
            lemma_chunk_at_same(before, after, free[i] as int);
        }
        assert forall|a: Ptr| #[trigger] live.contains(a) implies chunk_at(
            after,
            a - CHUNK_HEADER_SIZE,
        ) == chunk_at(before, a - CHUNK_HEADER_SIZE) by {
            self.lemma_live(before, live, a);
            lemma_chunk_at_same(before, after, a - CHUNK_HEADER_SIZE);
        }
    }

    /// Writing into the body of an allocated chunk disturbs neither the allocator nor the body of
    /// any other chunk.
    pub proof fn lemma_body_write(
        self,
        before: Seq<u8>,
        after: Seq<u8>,
        live: Set<Ptr>,
        a: Ptr,
        src: Seq<u8>,
    )
        requires
            self.wf(before, live),
            live.contains(a),
            overwritten(before, after, a as int, src),
            src.len() <= self.spec_allocation_size(),
            after.len() == before.len(),
        ensures
            self.wf(after, live),
            self.bodies_same(before, after, live.remove(a)),
            self.low_same(before, after),
    {
        let free = choose|free: Seq<Ptr>| self.wf_with(before, live, free);
        self.lemma_live(before, live, a);
        assert forall|b: Ptr, k: int|
            #![trigger live.contains(b), after[k]]
            live.contains(b) && b - CHUNK_HEADER_SIZE <= k < b + (if a == b {
                0
            } else {
                self.spec_allocation_size() as int
            }) implies after[k] == before[k] by {
            self.lemma_live(before, live, b);
            if a < b {
                self.lemma_live_apart(before, live, a, b);
            } else if b < a {
                self.lemma_live_apart(before, live, b, a);
            }
        }
        assert forall|b: Ptr, k: int|
            #![trigger live.remove(a).contains(b), after[k]]
            live.remove(a).contains(b) && b <= k < b + self.spec_allocation_size() implies after[k]
            == before[k] by {
            assert(live.contains(b));
        }
        assert forall|i: int, k: int|
            #![trigger free[i], after[k]]
            0 <= i < free.len() && free[i] <= k < free[i] + CHUNK_HEADER_SIZE implies after[k]
            == before[k] by {
            self.lemma_live_free_apart(before, live, free, a, i);
            self.lemma_free_above(before, live, free, i);
        }
        self.lemma_frame(before, after, live, free);
    }

    /// Writing before the first chunk does not disturb the allocator.
    pub proof fn lemma_low_write(
        self,
        before: Seq<u8>,
        after: Seq<u8>,
        live: Set<Ptr>,
        offset: int,
        src: Seq<u8>,
    )
        requires
            self.wf(before, live),
            overwritten(before, after, offset, src),
            offset + src.len() <= self.first_chunk(),
            after.len() == before.len(),
        ensures
            self.wf(after, live),
            self.bodies_same(before, after, live),
    {
        let free = choose|free: Seq<Ptr>| self.wf_with(before, live, free);
        assert forall|b: Ptr, i: int|
            #![trigger live.contains(b), after[i]]
            live.contains(b) && b - CHUNK_HEADER_SIZE <= i < b
                + self.spec_allocation_size() implies after[i] == before[i] by {
            self.lemma_live(before, live, b);
        }
        assert forall|i: int, k: int|
            #![trigger free[i], after[k]]
            0 <= i < free.len() && free[i] <= k < free[i] + CHUNK_HEADER_SIZE implies after[k]
            == before[k] by {
            self.lemma_free_above(before, live, free, i);
        }
        self.lemma_frame(before, after, live, free);
    }

    /// Where the chunk lies that has to be made when `num` chunks are allocated and only the
    /// topmost chunk is not.
    pub open spec fn chunk_above(self, num: int) -> int {
        self.first_chunk() + (num + 1) * self.spec_chunk_size()
    }

    /// The number of bytes that a memory of `len` bytes has once `num` chunks are allocated in it.
    pub open spec fn size_with(self, len: nat, num: int) -> int {
        size_for(self.first_chunk(), self.spec_chunk_size(), len, num)
    }

    /// Whether `num` chunks are more than can be addressed.
    pub open spec fn overflows(self, num: int) -> bool {
        self.chunk_above(num - 1) + CHUNK_HEADER_SIZE + WASM_PAGE_SIZE - 1 > u64::MAX
    }

    /// Whether a memory can be made large enough for `num` chunks.
    pub open spec fn obtains<M: Memory64>(self, memory: M, num: int) -> bool {
        let len = memory.bytes().len();
        &&& !self.overflows(num)
        &&& self.size_with(len, num) == len || memory.may_grow_to(self.size_with(len, num) as nat)
    }

    /// How `allocate` fails if `num` chunks are allocated and `bytes` has no room for more.
    pub open spec fn growth_error(self, bytes: Seq<u8>, num: int) -> WriteError {
        error_for(self.first_chunk(), self.spec_chunk_size(), bytes.len(), num)
    }

    /// A memory does not grow for chunks that it has room for.
    pub proof fn lemma_fits(self, bytes: Seq<u8>, num: int)
        requires
            num <= self.capacity(bytes),
            self.first_chunk() + CHUNK_HEADER_SIZE <= usable(bytes) <= u64::MAX,
        ensures
            self.size_with(bytes.len(), num) == bytes.len(),
    {
        reveal(size_for);
        reveal(chunks_within);
        let size = self.spec_chunk_size();
        let room = usable(bytes) - self.first_chunk() - CHUNK_HEADER_SIZE;
        assert(num * size <= room) by (nonlinear_arith)
            requires
                num <= room / size,
                size > 0,
        ;
    }

    /// Whether the header of the allocator is stored in `bytes`.
    pub open spec fn saved(self, bytes: Seq<u8>) -> bool {
        &&& self.first_chunk() <= bytes.len()
        &&& Self::header_in(
            bytes.subrange(self.spec_header_address() as int, self.first_chunk()),
            self.spec_header_address(),
        ) == Some(self)
    }

    /// The number of chunks that are allocated.
    #[verifier::when_used_as_spec(spec_num_allocations)]
    pub fn num_allocations(&self) -> (num: u64)
        ensures
            num == self.spec_num_allocations(),
    {
        self.num_allocated_chunks
    }

    fn header_image(&self) -> (image: [u8; 28])
        ensures
            Self::header_in(image@, self.header_address) == Some(*self),
    {
        let a: [u8; 8] = u64_bytes(self.allocation_size);
        let n: [u8; 8] = u64_bytes(self.num_allocated_chunks);
        let f: [u8; 8] = u64_bytes(self.free_list_head);
        let image: [u8; 28] = [
            66, 84, 65, LAYOUT_VERSION,
            a[0], a[1], a[2], a[3], a[4], a[5], a[6], a[7],
            n[0], n[1], n[2], n[3], n[4], n[5], n[6], n[7],
            f[0], f[1], f[2], f[3], f[4], f[5], f[6], f[7],
        ];
        assert(image@.take(3) =~= allocator_magic());
        assert(image@.subrange(4, 12) =~= a@);
        assert(image@.subrange(12, 20) =~= n@);
        assert(image@.subrange(20, 28) =~= f@);
        image
    }

    /// Stores the header of the allocator.
    pub fn save<M: Memory64>(&self, memory: &mut M) -> (result: Result<(), WriteError>)
        ensures
            exists|image: Seq<u8>|
                {
                    &&& #[trigger] Self::header_in(image, self.spec_header_address()) == Some(*self)
                    &&& image.len() == ALLOCATOR_HEADER_SIZE
                    &&& write_result(
                        old(memory).bytes(),
                        final(memory).bytes(),
                        self.spec_header_address() as int,
                        image,
                        result,
                    )
                },
            result is Ok ==> self.saved(final(memory).bytes()),
            result is Ok <==> has_place(
                *old(memory),
                self.spec_header_address() as int,
                ALLOCATOR_HEADER_SIZE as int,
            ),
            same_bounds(*old(memory), *final(memory)),
    {
        let image: [u8; 28] = self.header_image();
        let result = crate::memory::write(memory, self.header_address, image.as_slice());
        assert(Self::header_in(image@, self.spec_header_address()) == Some(*self));
        result
    }

    /// Loads an allocator whose header is stored at `address`.
    pub fn load<M: Memory64>(memory: &M, address: Ptr) -> (result: Result<Allocator, LoadError>)
        requires
            address + ALLOCATOR_HEADER_SIZE <= memory.bytes().len(),
        ensures
            ({
                let header = memory.bytes().subrange(
                    address as int,
                    address + ALLOCATOR_HEADER_SIZE,
                );
                match result {
                    Ok(allocator) => Self::header_in(header, address) == Some(allocator),
                    Err(LoadError::BadMagic(magic)) => {
                        &&& magic@ == header.take(3)
                        &&& magic@ != allocator_magic()
                    },
                    Err(LoadError::UnsupportedVersion(version)) => {
                        &&& header.take(3) == allocator_magic()
                        &&& version == header[3]
                        &&& version != LAYOUT_VERSION
                    },
                    Err(LoadError::MemoryEmpty) => false,
                }
            }),
            result matches Ok(allocator) ==> allocator.spec_header_address() == address,
    {
        let mut buf: [u8; 28] = [0;28];
        memory.read(address, &mut buf);
        let ghost header = buf@;
        if buf[0] != 66 || buf[1] != 84 || buf[2] != 65 {
            let magic: [u8; 3] = [buf[0], buf[1], buf[2]];
            assert(magic@ =~= header.take(3));
            assert(magic@ != allocator_magic()) by {
                assert(allocator_magic()[0] == 66 && allocator_magic()[1] == 84
                    && allocator_magic()[2] == 65);
            }
            return Err(LoadError::BadMagic(magic));
        }
        assert(header.take(3) =~= allocator_magic());
        if buf[3] != LAYOUT_VERSION {
            return Err(LoadError::UnsupportedVersion(buf[3]));
        }
        Ok(
            Allocator {
                header_address: address,
                allocation_size: get_u64(&buf, 4),
                num_allocated_chunks: get_u64(&buf, 12),
                free_list_head: get_u64(&buf, 20),
            },
        )
    }

    fn write_chunk<M: Memory64>(memory: &mut M, address: Ptr, chunk: Chunk) -> (result: Result<
        (),
        WriteError,
    >)
        ensures
            exists|image: Seq<u8>|
                {
                    &&& #[trigger] chunk_in(image) == Some(chunk)
                    &&& image.len() == CHUNK_HEADER_SIZE
                    &&& write_result(
                        old(memory).bytes(),
                        final(memory).bytes(),
                        address as int,
                        image,
                        result,
                    )
                },
            result is Ok ==> chunk_at(final(memory).bytes(), address as int) == Some(chunk),
            result is Ok <==> has_place(*old(memory), address as int, CHUNK_HEADER_SIZE as int),
            same_bounds(*old(memory), *final(memory)),
    {
        let image: [u8; 13] = chunk_image(chunk.allocated, chunk.next);
        let result = crate::memory::write(memory, address, image.as_slice());
        assert(chunk_in(image@) == Some(chunk));
        reveal(chunk_at);
        result
    }

    fn read_chunk<M: Memory64>(memory: &M, address: Ptr) -> (chunk: Chunk)
        requires
            chunk_at(memory.bytes(), address as int) is Some,
        ensures
            chunk_at(memory.bytes(), address as int) == Some(chunk),
    {
        let mut buf: [u8; 13] = [0;13];
        reveal(chunk_at);
        memory.read(address, &mut buf);
        Chunk { allocated: buf[4] == 1, next: get_u64(&buf, 5) }
    }

    /// Makes an allocator of chunks with bodies of `allocation_size` bytes, and stores its header
    /// at `address`. The first chunk follows the header.
    pub fn new<M: Memory64>(memory: &mut M, allocation_size: u64, address: Ptr) -> (result: Result<
        Allocator,
        WriteError,
    >)
        requires
            allocation_size + CHUNK_HEADER_SIZE <= u64::MAX,
            address + ALLOCATOR_HEADER_SIZE + CHUNK_HEADER_SIZE + WASM_PAGE_SIZE <= u64::MAX,
        ensures
            ({
                let pages = old(memory).bytes().len() as int / WASM_PAGE_SIZE as int;
                match missing_pages(
                    pages,
                    address + ALLOCATOR_HEADER_SIZE,
                    CHUNK_HEADER_SIZE as int,
                ) {
                    None => result == Err::<Allocator, WriteError>(
                        WriteError::AddressSpaceOverflow,
                    ),
                    Some(delta) => match result {
                        Ok(_) => final(memory).bytes().len() == old(memory).bytes().len() + delta
                            * WASM_PAGE_SIZE,
                        Err(error) => delta != 0 && error == (WriteError::GrowFailed {
                            current: pages as u64,
                            delta: delta as u64,
                        }),
                    },
                }
            }),
            result is Ok <==> has_place(
                *old(memory),
                address + ALLOCATOR_HEADER_SIZE,
                CHUNK_HEADER_SIZE as int,
            ),
            same_bounds(*old(memory), *final(memory)),
            match result {
                Ok(allocator) => {
                    &&& allocator.wf(final(memory).bytes(), Set::empty())
                    &&& allocator.saved(final(memory).bytes())
                    &&& allocator.spec_header_address() == address
                    &&& allocator.spec_allocation_size() == allocation_size
                    &&& allocator.spec_num_allocations() == 0
                    &&& allocator.spec_next() == allocator.first_chunk() + CHUNK_HEADER_SIZE
                    &&& forall|i: int|
                        0 <= i < address && i < old(memory).bytes().len()
                            ==> #[trigger] final(memory).bytes()[i] == old(memory).bytes()[i]
                },
                Err(_) => final(memory).bytes() == old(memory).bytes(),
            },
    {
        let first: u64 = address + ALLOCATOR_HEADER_SIZE;
        let allocator = Allocator {
            header_address: address,
            allocation_size,
            num_allocated_chunks: 0,
            free_list_head: first,
        };
        let ghost before = memory.bytes();
        match Self::write_chunk(memory, first, Chunk { allocated: false, next: NULL }) {
            Ok(()) => {},
            Err(error) => {
                return Err(error);
            },
        }
        let ghost middle = memory.bytes();
        let ghost live = Set::<Ptr>::empty();
        proof {
            lemma_usable_grown(before, middle, first as int, CHUNK_HEADER_SIZE as int);
            lemma_slot(allocator.first_chunk(), allocator.spec_chunk_size(), 0);
            assert(allocator.wf_with(middle, live, seq![first]));
        }
        let result = allocator.save(memory);
        proof {
            let image = choose|image: Seq<u8>|
                {
                    &&& #[trigger] Self::header_in(image, address) == Some(allocator)
                    &&& image.len() == ALLOCATOR_HEADER_SIZE
                    &&& write_result(middle, memory.bytes(), address as int, image, result)
                };
            lemma_write_in_place(middle, memory.bytes(), address as int, image, result);
            allocator.lemma_low_write(middle, memory.bytes(), live, address as int, image);
        }
        Ok(allocator)
    }
}

impl Allocator {
    /// The address of the body of the chunk that will be allocated next.
    pub closed spec fn spec_next(&self) -> int {
        self.free_list_head + CHUNK_HEADER_SIZE
    }

    /// Whether only the number of chunks and the list have changed.
    pub open spec fn same_layout(self, other: Allocator) -> bool {
        &&& self.spec_header_address() == other.spec_header_address()
        &&& self.spec_allocation_size() == other.spec_allocation_size()
    }

    /// Allocates a chunk, and returns the address of its body. If no chunk is left below the end
    /// of the memory, the memory has to grow. If it refuses to, nothing is changed.
    ///
    /// `live` are the chunks that are allocated already.
    pub fn allocate<M: Memory64>(
        &mut self,
        memory: &mut M,
        Ghost(live): Ghost<Set<Ptr>>,
    ) -> (result: Result<Ptr, WriteError>)
        requires
            old(self).wf(old(memory).bytes(), live),
        ensures
            final(self).same_layout(*old(self)),
            live.len() < old(self).capacity(old(memory).bytes()) ==> result is Ok,
            old(self).overflows(live.len() as int + 1) ==> result is Err,
            result is Ok <==> old(self).obtains(*old(memory), live.len() as int + 1),
            same_bounds(*old(memory), *final(memory)),
            match result {
                Ok(address) => {
                    &&& address == old(self).spec_next()
                    &&& !live.contains(address)
                    &&& final(self).wf(final(memory).bytes(), live.insert(address))
                    &&& final(self).bodies_same(old(memory).bytes(), final(memory).bytes(), live)
                    &&& final(self).low_same(old(memory).bytes(), final(memory).bytes())
                    &&& final(self).num_allocations() == old(self).num_allocations() + 1
                    &&& chunk_at(final(memory).bytes(), address - CHUNK_HEADER_SIZE) == Some(
                        Chunk { allocated: true, next: NULL },
                    )
                    &&& chunk_at(old(memory).bytes(), address - CHUNK_HEADER_SIZE) matches Some(
                        chunk,
                    ) && final(self).spec_next() == if chunk.next == NULL {
                        address + old(self).spec_chunk_size()
                    } else {
                        chunk.next + CHUNK_HEADER_SIZE
                    }
                    &&& final(memory).bytes().len() == old(self).size_with(
                        old(memory).bytes().len(),
                        live.len() as int + 1,
                    )
                },
                Err(error) => {
                    &&& *final(self) == *old(self)
                    &&& final(memory).bytes() == old(memory).bytes()
                    &&& error == old(self).growth_error(old(memory).bytes(), live.len() as int)
                },
            },
    {
        proof {
            reveal(size_for);
            reveal(error_for);
        }
        let ghost before = memory.bytes();
        let ghost free = choose|free: Seq<Ptr>| self.wf_with(before, live, free);
        let ghost size = self.spec_chunk_size();
        proof {
            self.lemma_first(before, live);
            self.lemma_room(before, live, free);
            assert(chunk_at(before, free[0] as int) is Some);
        }
        let head: Ptr = self.free_list_head;
        let address: Ptr = head + CHUNK_HEADER_SIZE;
        let chunk: Chunk = Self::read_chunk(memory, head);
        let mut next: Ptr = chunk.next;
        if next == NULL {
            assert(free.len() == 1) by {
                if free.len() > 1 {
                    assert(free[1] == next);
                    assert(self.first_chunk() <= free[1]) by {
                        self.lemma_free_above(before, live, free, 1);
                    }
                }
            }
            let end: u128 = head as u128 + self.allocation_size as u128 + CHUNK_HEADER_SIZE as u128
                + CHUNK_HEADER_SIZE as u128;
            assert(self.chunk_above(live.len() as int) == head + size) by {
                assert((live.len() + 1) * size == live.len() * size + size) by (nonlinear_arith);
            }
            if end + (WASM_PAGE_SIZE as u128) - 1 > u64::MAX as u128 {
                return Err(WriteError::AddressSpaceOverflow);
            }
            next = head + self.allocation_size + CHUNK_HEADER_SIZE;
            match Self::write_chunk(memory, next, Chunk { allocated: false, next: NULL }) {
                Ok(()) => {},
                Err(error) => {
                    return Err(error);
                },
            }
            proof {
                lemma_usable_grown(before, memory.bytes(), next as int, CHUNK_HEADER_SIZE as int);
            }
        } else {
            assert(free.len() > 1);
            assert(self.chunk_above(live.len() as int) <= free.last()) by {
                let m = live.len() + free.len() - 1;
                assert((live.len() + 1) * size <= m * size) by (nonlinear_arith)
                    requires
                        live.len() + 1 <= m,
                        size > 0,
                ;
            }
        }
        let ghost middle = memory.bytes();
        let result = Self::write_chunk(memory, head, Chunk { allocated: true, next: NULL });
        let ghost after = memory.bytes();
        proof {
            let image = choose|image: Seq<u8>|
                {
                    &&& #[trigger] chunk_in(image) == Some(Chunk { allocated: true, next: NULL })
                    &&& image.len() == CHUNK_HEADER_SIZE
                    &&& write_result(middle, after, head as int, image, result)
                };
            assert(head + CHUNK_HEADER_SIZE <= usable(middle));
            lemma_write_in_place(middle, after, head as int, image, result);
        }
        self.num_allocated_chunks = self.num_allocated_chunks + 1;
        self.free_list_head = next;
        proof {
            old(self).lemma_taken(*self, before, middle, after, live, free);
        }
        Ok(address)
    }

    /// Takes back the chunk whose body is at `address`. It is the next to be allocated.
    ///
    /// `live` are the chunks that are allocated.
    pub fn deallocate<M: Memory64>(
        &mut self,
        memory: &mut M,
        address: Ptr,
        Ghost(live): Ghost<Set<Ptr>>,
    )
        requires
            old(self).wf(old(memory).bytes(), live),
            live.contains(address),
        ensures
            final(self).same_layout(*old(self)),
            final(self).wf(final(memory).bytes(), live.remove(address)),
            final(self).bodies_same(
                old(memory).bytes(),
                final(memory).bytes(),
                live.remove(address),
            ),
            final(self).low_same(old(memory).bytes(), final(memory).bytes()),
            final(self).num_allocations() == old(self).num_allocations() - 1,
            same_bounds(*old(memory), *final(memory)),
            final(self).spec_next() == address,
            chunk_at(final(memory).bytes(), address - CHUNK_HEADER_SIZE) == Some(
                Chunk {
                    allocated: false,
                    next: (old(self).spec_next() - CHUNK_HEADER_SIZE) as u64,
                },
            ),
            final(memory).bytes().len() == old(memory).bytes().len(),
    {
        let ghost before = memory.bytes();
        let ghost free = choose|free: Seq<Ptr>| self.wf_with(before, live, free);
        proof {
            self.lemma_live(before, live, address);
            self.lemma_first(before, live);
        }
        let start: Ptr = address - CHUNK_HEADER_SIZE;
        let chunk = Chunk { allocated: false, next: self.free_list_head };
        let ghost written = chunk;
        let result = Self::write_chunk(memory, start, chunk);
        let ghost after = memory.bytes();
        proof {
            let image = choose|image: Seq<u8>|
                {
                    &&& #[trigger] chunk_in(image) == Some(written)
                    &&& image.len() == CHUNK_HEADER_SIZE
                    &&& write_result(before, after, start as int, image, result)
                };
            lemma_write_in_place(before, after, start as int, image, result);
            assert(live.len() > 0) by {
                if live.len() == 0 {
                    live.lemma_len0_is_empty();
                }
            }
        }
        self.num_allocated_chunks = self.num_allocated_chunks - 1;
        self.free_list_head = start;
        proof {
            old(self).lemma_returned(*self, before, after, live, free, address);
        }
    }

    /// There is room for another chunk unless the topmost chunk is the only one left, and the
    /// one above it does not lie within the whole pages of the memory.
    proof fn lemma_room(self, bytes: Seq<u8>, live: Set<Ptr>, free: Seq<Ptr>)
        requires
            self.wf_with(bytes, live, free),
        ensures
            live.len() < u64::MAX,
            free[0] + CHUNK_HEADER_SIZE <= u64::MAX,
            live.len() < self.capacity(bytes) <==> {
                ||| free.len() > 1
                ||| free[0] + self.spec_chunk_size() + CHUNK_HEADER_SIZE <= usable(bytes)
            },
    {
        reveal(chunks_within);
        let size = self.spec_chunk_size();
        let room = usable(bytes) - self.first_chunk() - CHUNK_HEADER_SIZE;
        let n = live.len() as int;
        let m = (live.len() + free.len() - 1) as int;
        self.lemma_free_above(bytes, live, free, 0);
        assert(m * size <= room);
        assert(m <= room / size) by (nonlinear_arith)
            requires
                m * size <= room,
                size > 0,
        ;
        assert(n < u64::MAX) by (nonlinear_arith)
            requires
                m * size <= room,
                n <= m,
                0 <= n,
                size >= 2,
                room <= u64::MAX,
        ;
        assert(n < room / size <==> (n + 1) * size <= room) by (nonlinear_arith)
            requires
                size > 0,
        ;
        assert((n + 1) * size == n * size + size) by (nonlinear_arith);
    }

    proof fn lemma_taken(
        self,
        new: Allocator,
        before: Seq<u8>,
        middle: Seq<u8>,
        after: Seq<u8>,
        live: Set<Ptr>,
        free: Seq<Ptr>,
    )
        requires
            self.wf_with(before, live, free),
            new.same_layout(self),
            new.num_allocated_chunks == self.num_allocated_chunks + 1,
            before.len() <= middle.len() == after.len(),
            usable(after) <= u64::MAX,
            forall|i: int|
                0 <= i < before.len() && i < free.last() + self.spec_chunk_size()
                    ==> #[trigger] middle[i] == before[i],
            forall|i: int|
                0 <= i < middle.len() && !(free[0] <= i < free[0] + CHUNK_HEADER_SIZE)
                    ==> #[trigger] after[i] == middle[i],
            chunk_at(after, free[0] as int) == Some(Chunk { allocated: true, next: NULL }),
            free.len() > 1 ==> middle == before && new.free_list_head == free[1],
            free.len() == 1 ==> {
                &&& new.free_list_head == free[0] + self.spec_chunk_size()
                &&& new.free_list_head + CHUNK_HEADER_SIZE <= usable(after)
                &&& chunk_at(middle, new.free_list_head as int) == Some(
                    Chunk { allocated: false, next: NULL },
                )
            },
        ensures
            ({
                let address = (free[0] + CHUNK_HEADER_SIZE) as u64;
                &&& !live.contains(address)
                &&& new.wf(after, live.insert(address))
                &&& new.bodies_same(before, after, live)
                &&& new.low_same(before, after)
            }),
    {
        let size = self.spec_chunk_size();
        let first = self.first_chunk();
        let head = free[0];
        self.lemma_room(before, live, free);
        self.lemma_free_above(before, live, free, 0);
        self.lemma_first(before, live);
        let address = (head + CHUNK_HEADER_SIZE) as u64;
        if live.contains(address) {
            self.lemma_live_free_apart(before, live, free, address, 0);
        }
        let live2 = live.insert(address);
        let free2 = if free.len() > 1 {
            free.skip(1)
        } else {
            seq![new.free_list_head]
        };
        let top = free.last() as int;
        let top2 = free2.last() as int;
        assert(top2 == first + (live2.len() + free2.len() - 1) * size) by {
            if free.len() == 1 {
                assert((live.len() + 1) * size == live.len() * size + size) by (nonlinear_arith);
            }
        }
        lemma_slot(first, size, live2.len() + free2.len() - 1);
        assert(head < top2) by {
            if free.len() > 1 {
                self.lemma_free_distinct(before, live, free, 0, free.len() - 1);
            }
        }
        assert forall|i: int| 0 <= i < free2.len() implies {
            &&& new.slot(#[trigger] free2[i] as int)
            &&& free2[i] <= top2
            &&& chunk_at(after, free2[i] as int) == Some(
                Chunk { allocated: false, next: Self::following(free2, i) },
            )
        } by {
            if free.len() > 1 {
                self.lemma_free_above(before, live, free, i + 1);
                assert(free2[i] == free[i + 1]);
                self.lemma_free_apart(before, live, free, 0, i + 1);
                assert(Self::following(free2, i) == Self::following(free, i + 1));
                lemma_chunk_at_same(before, after, free2[i] as int);
            } else {
                lemma_chunk_at_same(middle, after, free2[i] as int);
            }
        }
        assert forall|b: Ptr| #[trigger] live2.contains(b) implies {
            &&& new.slot(b - CHUNK_HEADER_SIZE)
            &&& b - CHUNK_HEADER_SIZE < top2
            &&& chunk_at(after, b - CHUNK_HEADER_SIZE) matches Some(chunk)
            &&& chunk.allocated
        } by {
            if b == address {
                assert(self.slot(free[0] as int));
            } else {
                assert(live.contains(b));
                self.lemma_live(before, live, b);
                self.lemma_live_free_apart(before, live, free, b, 0);
                lemma_chunk_at_same(before, after, b - CHUNK_HEADER_SIZE);
            }
        }
        assert forall|b: Ptr, i: int|
            #![trigger live.contains(b), after[i]]
            live.contains(b) && b <= i < b + new.spec_allocation_size() implies after[i]
            == before[i] by {
            self.lemma_live(before, live, b);
            self.lemma_live_free_apart(before, live, free, b, 0);
            self.lemma_live_free_apart(before, live, free, b, free.len() - 1);
            assert(after[i] == middle[i]);
        }
        assert forall|i: int| 0 <= i < first implies #[trigger] after[i] == before[i] by {
            assert(after[i] == middle[i]);
        }
        assert(new.wf_with(after, live2, free2));
    }

    proof fn lemma_returned(
        self,
        new: Allocator,
        before: Seq<u8>,
        after: Seq<u8>,
        live: Set<Ptr>,
        free: Seq<Ptr>,
        address: Ptr,
    )
        requires
            self.wf_with(before, live, free),
            live.contains(address),
            new.same_layout(self),
            new.num_allocated_chunks == self.num_allocated_chunks - 1,
            new.free_list_head == address - CHUNK_HEADER_SIZE,
            before.len() == after.len(),
            forall|i: int|
                0 <= i < before.len() && !(address - CHUNK_HEADER_SIZE <= i < address)
                    ==> #[trigger] after[i] == before[i],
            chunk_at(after, address - CHUNK_HEADER_SIZE) == Some(
                Chunk { allocated: false, next: free[0] },
            ),
        ensures
            new.wf(after, live.remove(address)),
            new.bodies_same(before, after, live.remove(address)),
            new.low_same(before, after),
    {
        let size = self.spec_chunk_size();
        let first = self.first_chunk();
        let start = (address - CHUNK_HEADER_SIZE) as u64;
        self.lemma_live(before, live, address);
        self.lemma_first(before, live);
        let live2 = live.remove(address);
        let free2 = seq![start] + free;
        let top = free.last() as int;
        assert(free2.last() == top);
        assert forall|i: int| 0 <= i < free2.len() implies {
            &&& new.slot(#[trigger] free2[i] as int)
            &&& free2[i] <= top
            &&& chunk_at(after, free2[i] as int) == Some(
                Chunk { allocated: false, next: Self::following(free2, i) },
            )
        } by {
            if i > 0 {
                assert(free2[i] == free[i - 1]);
                self.lemma_free_above(before, live, free, i - 1);
                self.lemma_live_free_apart(before, live, free, address, i - 1);
                assert(Self::following(free2, i) == Self::following(free, i - 1));
                lemma_chunk_at_same(before, after, free2[i] as int);
            }
        }
        assert forall|b: Ptr| #[trigger] live2.contains(b) implies {
            &&& new.slot(b - CHUNK_HEADER_SIZE)
            &&& b - CHUNK_HEADER_SIZE < top
            &&& chunk_at(after, b - CHUNK_HEADER_SIZE) matches Some(chunk)
            &&& chunk.allocated
        } by {
            assert(live.contains(b));
            self.lemma_live(before, live, b);
            if b < address {
                self.lemma_live_apart(before, live, b, address);
            } else {
                self.lemma_live_apart(before, live, address, b);
            }
            lemma_chunk_at_same(before, after, b - CHUNK_HEADER_SIZE);
        }
        assert forall|b: Ptr, i: int|
            #![trigger live2.contains(b), after[i]]
            live2.contains(b) && b <= i < b + new.spec_allocation_size() implies after[i]
            == before[i] by {
            assert(live.contains(b));
            self.lemma_live(before, live, b);
            if b < address {
                self.lemma_live_apart(before, live, b, address);
            } else {
                self.lemma_live_apart(before, live, address, b);
            }
        }
        assert(new.wf_with(after, live2, free2));
    }
}

/// Writing within the whole pages of a memory succeeds and does not make the memory grow.
pub proof fn lemma_write_in_place(
    before: Seq<u8>,
    after: Seq<u8>,
    offset: int,
    src: Seq<u8>,
    result: Result<(), WriteError>,
)
    requires
        write_result(before, after, offset, src, result),
        offset + src.len() <= usable(before) <= u64::MAX,
    ensures
        result is Ok,
        overwritten(before, after, offset, src),
        after.len() == before.len(),
{
}

/// After growing by the missing pages, the bytes lie within the whole pages of the memory.
proof fn lemma_usable_grown(before: Seq<u8>, after: Seq<u8>, offset: int, len: int)
    requires
        offset + len + WASM_PAGE_SIZE - 1 <= u64::MAX,
        missing_pages(before.len() as int / WASM_PAGE_SIZE as int, offset, len) matches Some(d)
            && after.len() == before.len() + d * WASM_PAGE_SIZE,
    ensures
        offset + len <= usable(after) <= u64::MAX,
{
}

} // verus!
