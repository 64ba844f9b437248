//! The bookkeeping record at the start of every region the allocator governs,
//! and the carve that splits a free region into an allocated block, optional
//! padding and the shrunken remainder.

use crate::pow2::{lemma_next_pow2_bounds, next_pow2, round_up_to_nearest_pow2};
use vstd::arithmetic::power2::is_pow2;
use vstd::prelude::*;

verus! {

/// Bytes occupied by a header. It is also the smallest block size and the
/// smallest alignment the allocator hands out.
pub const HEADER_SIZE: usize = 32;

/// Mathematical model of a header: the span `[addr, addr + size)` it governs,
/// header included, and whether the payload is handed out.
pub struct Block {
    pub addr: nat,
    pub size: nat,
    pub allocated: bool,
}

/// What a carve leaves at the low end and creates at the high end of a block.
pub struct Carve {
    /// The carved block, shrunk, still free and still at its old address.
    pub remainder: Block,
    /// The new block whose payload is handed out.
    pub allocated: Block,
    /// The new free block that fills the gap up to the old end, if there is a gap.
    pub padding: Option<Block>,
}

/// The size a request is served with: rounded up to a power of two and at
/// least one header. `None` when the request is empty or the rounded size
/// does not fit in `usize`.
pub open spec fn normalized_size(size: nat) -> Option<nat> {
    if size == 0 || next_pow2(size) > usize::MAX {
        None
    } else if next_pow2(size) < HEADER_SIZE {
        Some(HEADER_SIZE as nat)
    } else {
        Some(next_pow2(size))
    }
}

/// The alignment a request is served with: at least one header.
pub open spec fn normalized_align(align: nat) -> nat {
    if align < HEADER_SIZE {
        HEADER_SIZE as nat
    } else {
        align
    }
}

/// Whether `n` is a multiple of the header size.
pub open spec fn header_multiple(n: nat) -> bool {
    n % 32 == 0
}

/// The largest multiple of `align` that is at most `addr`.
#[verifier::opaque]
pub open spec fn align_down(addr: nat, align: nat) -> nat {
    (addr - addr % align) as nat
}

/// `align_down(addr, align)` is `addr` less its remainder by `align`: a
/// multiple of `align`, at most `addr` and less than `align` below it.
pub proof fn lemma_align_down(addr: nat, align: nat)
    requires
        align > 0,
    ensures
        align_down(addr, align) == addr - addr % align,
        align_down(addr, align) % align == 0,
        addr - align < align_down(addr, align) <= addr,
{
    reveal(align_down);
    assert(0 <= addr % align < align && addr % align <= addr && (addr - addr % align) % (
    align as int) == 0) by (nonlinear_arith)
        requires
            align > 0,
    ;
}

/// `align_down(addr, align)` is a multiple of every divisor of `align`.
pub proof fn lemma_align_down_divisor(addr: nat, align: nat, divisor: nat)
    requires
        align > 0,
        divisor > 0,
        align % divisor == 0,
    ensures
        align_down(addr, align) % divisor == 0,
{
    lemma_align_down(addr, align);
    let q = addr as int / align as int;
    let k = align as int / divisor as int;
    vstd::arithmetic::div_mod::lemma_fundamental_div_mod(addr as int, align as int);
    vstd::arithmetic::div_mod::lemma_fundamental_div_mod(align as int, divisor as int);
    assert(addr - addr % align == (q * k) * divisor) by (nonlinear_arith)
        requires
            addr == align * q + addr % align,
            align == divisor * k,
    ;
    vstd::arithmetic::div_mod::lemma_mod_multiples_basic(q * k, divisor as int);
}

impl Block {
    /// First address past the block.
    pub open spec fn end(self) -> nat {
        self.addr + self.size
    }

    /// Address of the payload, directly behind the header.
    pub open spec fn payload(self) -> nat {
        self.addr + HEADER_SIZE as nat
    }

    /// The block is not at address zero, is not empty and ends within the
    /// address space.
    pub open spec fn wf(self) -> bool {
        &&& self.addr > 0
        &&& self.size > 0
        &&& self.end() <= usize::MAX
    }

    /// The block starts on a header boundary and spans whole headers.
    pub open spec fn aligned(self) -> bool {
        &&& header_multiple(self.addr)
        &&& header_multiple(self.size)
        &&& self.size >= HEADER_SIZE
    }

    /// The block lies within the span of `outer`.
    pub open spec fn within(self, outer: Block) -> bool {
        outer.addr <= self.addr && self.end() <= outer.end()
    }

    /// The spans of the two blocks share no address.
    pub open spec fn disjoint(self, other: Block) -> bool {
        self.end() <= other.addr || other.end() <= self.addr
    }

    /// Whether the block can serve a request of `size` bytes aligned to
    /// `align`: it is free and holds the normalized size, the normalized
    /// alignment and two headers.
    pub open spec fn can_provide(self, size: nat, align: nat) -> bool {
        &&& !self.allocated
        &&& normalized_size(size) matches Some(s)
        &&& self.size >= s + 2 * HEADER_SIZE + normalized_align(align)
    }

    /// The blocks that serving the request from this block leaves behind.
    /// Meaningful when `self.can_provide(size, align)`.
    pub open spec fn carve(self, size: nat, align: nat) -> Carve {
        let s = normalized_size(size).unwrap();
        let payload = align_down((self.end() - s) as nat, normalized_align(align));
        let allocated = Block {
            addr: (payload - HEADER_SIZE) as nat,
            size: s + HEADER_SIZE as nat,
            allocated: true,
        };
        Carve {
            remainder: Block {
                addr: self.addr,
                size: (allocated.addr - self.addr) as nat,
                allocated: false,
            },
            allocated,
            padding: if allocated.end() != self.end() {
                Some(
                    Block {
                        addr: allocated.end(),
                        size: (self.end() - allocated.end()) as nat,
                        allocated: false,
                    },
                )
            } else {
                None
            },
        }
    }
}

impl Carve {
    /// The blocks in chain order: remainder, allocated block, padding.
    pub open spec fn blocks(self) -> Seq<Block> {
        match self.padding {
            Some(p) => seq![self.remainder, self.allocated, p],
            None => seq![self.remainder, self.allocated],
        }
    }
}

/// A carved block is split into adjacent pieces that cover it exactly; the
/// remainder keeps more than one header's worth of bytes, and the payload is
/// aligned and lies with its normalized size within the old block, behind
/// the remainder. The pieces of a well-formed block are well formed.
pub proof fn lemma_carve(b: Block, size: nat, align: nat)
    requires
        b.can_provide(size, align),
    ensures
        ({
            let c = b.carve(size, align);
            let s = normalized_size(size).unwrap();
            &&& c.allocated.payload() == align_down((b.end() - s) as nat, normalized_align(align))
            &&& c.remainder.addr == b.addr
            &&& c.remainder.size > HEADER_SIZE
            &&& c.remainder.end() == c.allocated.addr
            &&& c.allocated.size == s + HEADER_SIZE
            &&& c.allocated.payload() % normalized_align(align) == 0
            &&& c.allocated.payload() + s == c.allocated.end()
            &&& c.allocated.end() <= b.end()
            &&& b.end() - c.allocated.end() < normalized_align(align)
            &&& match c.padding {
                Some(p) => p.size > 0 && p.addr == c.allocated.end() && p.end() == b.end(),
                None => c.allocated.end() == b.end(),
            }
            &&& b.wf() ==> c.remainder.wf() && c.allocated.wf() && (c.padding matches Some(p)
                ==> p.wf())
        }),
{
    let s = normalized_size(size).unwrap();
    lemma_align_down((b.end() - s) as nat, normalized_align(align));
}

/// If the block and the normalized alignment are multiples of the header
/// size, so is every piece of the carve.
pub proof fn lemma_carve_aligned(b: Block, size: nat, align: nat)
    requires
        b.aligned(),
        b.can_provide(size, align),
        header_multiple(normalized_align(align)),
    ensures
        ({
            let c = b.carve(size, align);
            &&& c.remainder.aligned()
            &&& c.allocated.aligned()
            &&& c.padding matches Some(p) ==> p.aligned()
        }),
{
    let s = normalized_size(size).unwrap();
    let top = (b.end() - s) as nat;
    let payload = align_down(top, normalized_align(align));
    let c = b.carve(size, align);
    lemma_carve(b, size, align);
    lemma_normalized_size(size);
    lemma_align_down_divisor(top, normalized_align(align), 32);
    lemma_aligned_pieces(b.addr as int, b.size as int, s as int, payload as int);
    assert(c.allocated.addr == payload - 32);
    assert(c.remainder.size == payload - 32 - b.addr);
    assert(c.allocated.end() == payload + s);
}

/// Where a span, a size and a payload address within the span are multiples
/// of 32, so are the pieces around the payload, and a gap behind it is at
/// least 32 long.
proof fn lemma_aligned_pieces(addr: int, size: int, s: int, payload: int)
    requires
        addr % 32 == 0,
        size % 32 == 0,
        s % 32 == 0,
        payload % 32 == 0,
        addr + 32 < payload - 32,
        payload + s <= addr + size,
    ensures
        (payload - 32) % 32 == 0,
        (s + 32) % 32 == 0,
        (payload - 32 - addr) % 32 == 0,
        payload - 32 - addr >= 32,
        (payload + s) % 32 == 0,
        (addr + size - (payload + s)) % 32 == 0,
        addr + size != payload + s ==> addr + size - (payload + s) >= 32,
{
}

/// The header size is a power of two.
pub proof fn lemma_header_size_is_pow2()
    ensures
        is_pow2(HEADER_SIZE as int),
{
    reveal_with_fuel(is_pow2, 6);
}

/// A normalized size is a multiple of the header size and at least the size
/// asked for.
pub proof fn lemma_normalized_size(size: nat)
    requires
        normalized_size(size) is Some,
    ensures
        header_multiple(normalized_size(size).unwrap()),
        normalized_size(size).unwrap() >= size,
{
    reveal_with_fuel(is_pow2, 6);
    lemma_next_pow2_bounds(size);
}

/// The bookkeeping record of one region: its address, the bytes it spans
/// (its own storage included) and whether its payload is handed out. The
/// successor of a header is the next element of the chain that holds it.
#[derive(Clone, Copy, Debug)]
pub struct Header {
    addr: usize,
    size: usize,
    is_allocated: bool,
}

/// The headers that [`Header::provide`] creates behind the carved one.
#[derive(Clone, Copy, Debug)]
pub struct Split {
    /// Header of the block handed out.
    pub allocated: Header,
    /// Header of the free gap between the block and the old end, if any.
    pub padding: Option<Header>,
}

/// The size and the alignment that a request is served with, if the size
/// can be served at all.
fn normalize(size: usize, align: usize) -> (r: Option<(usize, usize)>)
    ensures
        match r {
            Some((block_size, block_align)) => normalized_size(size as nat) == Some(
                block_size as nat,
            ) && block_align == normalized_align(align as nat),
            None => normalized_size(size as nat) is None,
        },
{
    match round_up_to_nearest_pow2(size) {
        Err(_) => None,
        Ok(rounded) => Some(
            (
                if rounded < HEADER_SIZE { HEADER_SIZE } else { rounded },
                if align < HEADER_SIZE { HEADER_SIZE } else { align },
            ),
        ),
    }
}

impl View for Header {
    type V = Block;

    closed spec fn view(&self) -> Block {
        Block { addr: self.addr as nat, size: self.size as nat, allocated: self.is_allocated }
    }
}

impl Header {
    /// A free header at `addr` that spans nothing yet.
    pub fn new_from_addr(addr: usize) -> (h: Header)
        ensures
            h@ == (Block { addr: addr as nat, size: 0, allocated: false }),
    {
        Header { addr, size: 0, is_allocated: false }
    }

    /// A free header that governs `size` bytes from `addr` on.
    pub fn free_region(addr: usize, size: usize) -> (h: Header)
        ensures
            h@ == (Block { addr: addr as nat, size: size as nat, allocated: false }),
    {
        let mut h = Header::new_from_addr(addr);
        h.size = size;
        h
    }

    pub fn addr(&self) -> (a: usize)
        ensures
            a == self@.addr,
    {
        self.addr
    }

    pub fn size(&self) -> (s: usize)
        ensures
            s == self@.size,
    {
        self.size
    }

    pub fn is_allocated(&self) -> (b: bool)
        ensures
            b == self@.allocated,
    {
        self.is_allocated
    }

    /// First address past the region.
    pub fn end_addr(&self) -> (e: usize)
        requires
            self@.end() <= usize::MAX,
        ensures
            e == self@.end(),
    {
        self.addr + self.size
    }

    /// Address of the payload, one header past the header's own address.
    pub fn payload_addr(&self) -> (p: usize)
        requires
            self@.payload() <= usize::MAX,
        ensures
            p == self@.payload(),
    {
        self.addr + HEADER_SIZE
    }

    /// Marks the payload as handed out or as free again.
    pub fn set_allocated(&mut self, is_allocated: bool)
        ensures
            final(self)@ == (Block { allocated: is_allocated, ..old(self)@ }),
    {
        self.is_allocated = is_allocated;
    }

    /// Whether this header can serve `size` bytes aligned to `align`.
    pub fn can_provide(&self, size: usize, align: usize) -> (b: bool)
        ensures
            b == self@.can_provide(size as nat, align as nat),
    {
        match normalize(size, align) {
            None => false,
            Some((block_size, block_align)) => !self.is_allocated && self.has_room(
                block_size,
                block_align,
            ),
        }
    }

    /// Whether the region holds `size + align` bytes and two headers.
    fn has_room(&self, size: usize, align: usize) -> (b: bool)
        ensures
            b == (self.size >= size + 2 * HEADER_SIZE + align),
    {
        match size.checked_add(2 * HEADER_SIZE) {
            None => false,
            Some(with_headers) => match with_headers.checked_add(align) {
                None => false,
                Some(needed) => self.size >= needed,
            },
        }
    }

    /// Serves `size` bytes aligned to `align` from the high end of this
    /// region, if it can.
    ///
    /// On success the header keeps its address and shrinks to the bytes below
    /// the new block; the result holds the header of the block handed out,
    /// marked allocated, and the header of the free padding that fills the gap
    /// up to the old end, where there is a gap. The payload address is
    /// `align_down(end - size', align')`, over the normalized size and
    /// alignment. On failure the header is unchanged.
    pub fn provide(&mut self, size: usize, align: usize) -> (r: Option<Split>)
        requires
            old(self)@.end() <= usize::MAX,
        ensures
            match r {
                Some(split) => {
                    let carve = old(self)@.carve(size as nat, align as nat);
                    &&& old(self)@.can_provide(size as nat, align as nat)
                    &&& final(self)@ == carve.remainder
                    &&& split.allocated@ == carve.allocated
                    &&& match split.padding {
                        Some(p) => carve.padding == Some(p@),
                        None => carve.padding is None,
                    }
                },
                None => !old(self)@.can_provide(size as nat, align as nat) && *final(self) == *old(
                    self,
                ),
            },
    {
        let (block_size, block_align) = match normalize(size, align) {
            Some(normalized) => normalized,
            None => {
                return None;
            },
        };
        if self.is_allocated() || !self.has_room(block_size, block_align) {
            return None;
        }
        proof {
            lemma_carve(self@, size as nat, align as nat);
            lemma_align_down((self@.end() - block_size) as nat, block_align as nat);
        }
        let end = self.end_addr();
        let top = end - block_size;
        let allocated_addr = top - top % block_align;
        let mut allocated = Header::new_from_addr(allocated_addr - HEADER_SIZE);
        allocated.size = block_size + HEADER_SIZE;
        allocated.is_allocated = true;
        let mut size_used = allocated.size;
        let mut padding: Option<Header> = None;
        let allocated_end = allocated.end_addr();
        if allocated_end != end {
            let mut gap = Header::new_from_addr(allocated_end);
            gap.is_allocated = false;
            gap.size = end - allocated_end;
            size_used += gap.size;
            padding = Some(gap);
        }
        assert(self.size >= size_used + HEADER_SIZE);
        self.size -= size_used;
        Some(Split { allocated, padding })
    }
}

} // verus!
