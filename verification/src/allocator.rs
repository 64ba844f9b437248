//! The first-fit allocator: a chain of headers, searched from the head on
//! every request.

use crate::chain::{
    add_memory_map, add_region, allocate, chain_aligned, chain_disjoint, chain_wf,
    lemma_first_fit_at, lemma_first_fit_none, lemma_owner_at, lemma_owner_none, lemma_owner_some,
    memory_map_aligned, memory_map_disjoint, memory_map_fits, owner, region_block, region_span,
    release,
};
use crate::header::{
    header_multiple, lemma_carve, normalized_align, Block, Header, HEADER_SIZE,
};
use crate::laws::{
    lemma_add_memory_map, lemma_add_memory_map_disjoint, lemma_add_region,
    lemma_allocate_aligned, lemma_allocate_disjoint, lemma_allocation_has_owner,
    lemma_region_block, lemma_release,
};
use crate::uefi::{EfiMemoryDescriptor, EfiMemoryType, PAGE_BYTES};
use vstd::prelude::*;

verus! {

/// A first-fit allocator over the regions it was given. The chain lists every
/// header it knows, free and allocated alike, in search order; headers are
/// added and never removed.
pub struct FirstFitAllocator {
    chain: Vec<Header>,
}

impl View for FirstFitAllocator {
    type V = Seq<Block>;

    closed spec fn view(&self) -> Seq<Block> {
        self.chain@.map_values(|h: Header| h@)
    }
}

impl FirstFitAllocator {
    /// Every header is well formed.
    pub open spec fn wf(&self) -> bool {
        chain_wf(self@)
    }

    /// Every header starts on a header boundary, spans whole headers and at
    /// least one of them.
    pub open spec fn aligned(&self) -> bool {
        chain_aligned(self@)
    }

    /// No two headers govern the same address.
    pub open spec fn disjoint(&self) -> bool {
        chain_disjoint(self@)
    }

    /// An allocator that governs no memory yet.
    pub fn new() -> (a: Self)
        ensures
            a@ == Seq::<Block>::empty(),
            a.wf(),
            a.aligned(),
            a.disjoint(),
    {
        FirstFitAllocator { chain: Vec::new() }
    }

    /// Number of headers in the chain.
    pub fn len(&self) -> (n: usize)
        ensures
            n == self@.len(),
    {
        self.chain.len()
    }

    /// The header at position `index` of the chain.
    pub fn header(&self, index: usize) -> (h: Header)
        requires
            index < self@.len(),
        ensures
            h@ == self@[index as int],
    {
        self.chain[index]
    }

    /// Serves `size` bytes aligned to `align` from the first header, in chain
    /// order, that can provide them, and returns the payload address. Returns
    /// 0, the null address, and leaves the chain as it is when no header can.
    pub fn alloc_with_options(&mut self, size: usize, align: usize) -> (ptr: usize)
        requires
            old(self).wf(),
        ensures
            final(self).wf(),
            final(self)@ == allocate(old(self)@, size as nat, align as nat).chain,
            match allocate(old(self)@, size as nat, align as nat).addr {
                Some(addr) => ptr == addr && ptr != 0,
                None => ptr == 0,
            },
            ptr as nat % normalized_align(align as nat) == 0,
            ptr != 0 ==> owner(final(self)@, ptr as nat) is Some,
            old(self).disjoint() ==> final(self).disjoint(),
            old(self).aligned() && header_multiple(normalized_align(align as nat))
                ==> final(self).aligned(),
    {
        let mut i: usize = 0;
        while i < self.chain.len()
            invariant
                *self == *old(self),
                self.wf(),
                i <= self.chain.len(),
                forall|j: int|
                    0 <= j < i ==> !(#[trigger] self@[j]).can_provide(size as nat, align as nat),
            decreases self.chain.len() - i,
        {
            let mut header = self.chain[i];
            assert(header@ == self@[i as int]);
            match header.provide(size, align) {
                Some(split) => {
                    proof {
                        lemma_first_fit_at(self@, size as nat, align as nat, i as int);
                        lemma_carve(self@[i as int], size as nat, align as nat);
                        lemma_allocation_has_owner(self@, size as nat, align as nat);
                        if self.disjoint() {
                            lemma_allocate_disjoint(self@, size as nat, align as nat);
                        }
                        if self.aligned() && header_multiple(normalized_align(align as nat)) {
                            lemma_allocate_aligned(self@, size as nat, align as nat);
                        }
                    }
                    let ptr = split.allocated.payload_addr();
                    self.chain.set(i, header);
                    if let Some(padding) = split.padding {
                        self.chain.insert(i + 1, padding);
                    }
                    self.chain.insert(i + 1, split.allocated);
                    assert(self@ =~= allocate(old(self)@, size as nat, align as nat).chain);
                    return ptr;
                },
                None => {
                    i += 1;
                },
            }
        }
        proof {
            lemma_first_fit_none(self@, size as nat, align as nat);
        }
        0
    }

    /// Position in the chain of the first header whose payload starts at
    /// `ptr`, if there is one.
    pub fn from_allocated_region(&self, ptr: usize) -> (index: Option<usize>)
        ensures
            match index {
                Some(i) => owner(self@, ptr as nat) == Some(i as int),
                None => owner(self@, ptr as nat) is None,
            },
    {
        if ptr < HEADER_SIZE {
            proof {
                lemma_owner_none(self@, ptr as nat);
            }
            return None;
        }
        let header_addr = ptr - HEADER_SIZE;
        let mut i: usize = 0;
        while i < self.chain.len()
            invariant
                header_addr == ptr - HEADER_SIZE,
                i <= self.chain.len(),
                forall|j: int| 0 <= j < i ==> (#[trigger] self@[j]).payload() != ptr,
            decreases self.chain.len() - i,
        {
            let header = self.chain[i];
            assert(header@ == self@[i as int]);
            if header.addr() == header_addr {
                proof {
                    lemma_owner_at(self@, ptr as nat, i as int);
                }
                return Some(i);
            }
            i += 1;
        }
        proof {
            lemma_owner_none(self@, ptr as nat);
        }
        None
    }

    /// Gives the payload at `ptr` back: its header is marked free and stays
    /// in the chain. `ptr` must be the payload address of a header of the
    /// chain; any other address is a fatal error of the caller.
    pub fn dealloc(&mut self, ptr: usize)
        requires
            old(self).wf(),
            owner(old(self)@, ptr as nat) is Some,
        ensures
            final(self).wf(),
            final(self)@ == release(old(self)@, ptr as nat),
            old(self).disjoint() ==> final(self).disjoint(),
            old(self).aligned() ==> final(self).aligned(),
    {
        proof {
            lemma_release(self@, ptr as nat);
        }
        match self.from_allocated_region(ptr) {
            Some(i) => {
                proof {
                    lemma_owner_some(self@, ptr as nat);
                }
                let mut region = self.chain[i];
                assert(region@ == self@[i as int]);
                region.set_allocated(false);
                self.chain.set(i, region);
                assert(self@ =~= release(old(self)@, ptr as nat));
            },
            None => {},
        }
    }

    /// Offers every usable region of the memory map to the allocator, in map
    /// order; each region that contributes a block becomes the new head of
    /// the chain.
    pub fn init_with_mmap(&mut self, memory_map: &[EfiMemoryDescriptor])
        requires
            old(self).wf(),
            memory_map_fits(memory_map@.map_values(|d: EfiMemoryDescriptor| d@)),
        ensures
            final(self).wf(),
            final(self)@ == add_memory_map(
                old(self)@,
                memory_map@.map_values(|d: EfiMemoryDescriptor| d@),
            ),
            old(self).aligned() && memory_map_aligned(
                memory_map@.map_values(|d: EfiMemoryDescriptor| d@),
            ) ==> final(self).aligned(),
            old(self).disjoint() && memory_map_disjoint(
                old(self)@,
                memory_map@.map_values(|d: EfiMemoryDescriptor| d@),
            ) ==> final(self).disjoint(),
    {
        let ghost map = memory_map@.map_values(|d: EfiMemoryDescriptor| d@);
        proof {
            lemma_add_memory_map(self@, map);
            lemma_add_memory_map_disjoint(self@, map);
        }
        let mut i: usize = 0;
        while i < memory_map.len()
            invariant
                self.wf(),
                i <= memory_map.len(),
                map == memory_map@.map_values(|d: EfiMemoryDescriptor| d@),
                memory_map_fits(map),
                self@ == add_memory_map(old(self)@, map.take(i as int)),
            decreases memory_map.len() - i,
        {
            let e = &memory_map[i];
            assert(e@ == map[i as int]);
            assert(map.take(i + 1).drop_last() =~= map.take(i as int));
            if e.memory_type() == EfiMemoryType::ConventionalMemory {
                self.add_free_from_descriptor(e);
            }
            i += 1;
        }
        assert(map.take(i as int) =~= map);
    }

    /// Offers one region to the allocator. A region that starts at address
    /// zero loses its first page, so that no allocation is ever at address
    /// zero; a region of at most one page after that is skipped. Otherwise a
    /// free header for the whole region becomes the new head of the chain.
    pub fn add_free_from_descriptor(&mut self, desc: &EfiMemoryDescriptor)
        requires
            old(self).wf(),
            desc@.fits(),
        ensures
            final(self).wf(),
            final(self)@ == add_region(old(self)@, desc@),
            old(self).aligned() && header_multiple(desc@.start) ==> final(self).aligned(),
            old(self).disjoint() && (forall|k: int|
                0 <= k < old(self)@.len() ==> region_span(desc@).disjoint(#[trigger] old(self)@[k]))
                ==> final(self).disjoint(),
    {
        proof {
            lemma_add_region(self@, desc@);
            if region_block(desc@) is Some {
                lemma_region_block(desc@);
            }
        }
        let mut start_addr = desc.physical_start() as usize;
        let mut size = desc.number_of_bytes();
        if start_addr == 0 {
            start_addr += PAGE_BYTES;
            size = size.saturating_sub(PAGE_BYTES);
        }
        if size <= PAGE_BYTES {
            return ;
        }
        let header = Header::free_region(start_addr, size);
        self.chain.insert(0, header);
        assert(self@ =~= add_region(old(self)@, desc@));
    }
}

} // verus!
