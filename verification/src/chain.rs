//! The chain of blocks as a mathematical sequence, and what allocation,
//! release and region registration do to it.

use crate::header::{header_multiple, Block};
use crate::uefi::{Region, PAGE_BYTES};
use vstd::prelude::*;

verus! {

/// Every block of the chain is well formed.
pub open spec fn chain_wf(chain: Seq<Block>) -> bool {
    forall|i: int| 0 <= i < chain.len() ==> (#[trigger] chain[i]).wf()
}

/// Every block of the chain starts on a header boundary and spans whole
/// headers.
pub open spec fn chain_aligned(chain: Seq<Block>) -> bool {
    forall|i: int| 0 <= i < chain.len() ==> (#[trigger] chain[i]).aligned()
}

/// No two blocks of the chain share an address.
pub open spec fn chain_disjoint(chain: Seq<Block>) -> bool {
    forall|i: int, j: int|
        0 <= i < chain.len() && 0 <= j < chain.len() && i != j ==> (#[trigger] chain[i]).disjoint(
            #[trigger] chain[j],
        )
}

/// The block lies within some block of `outer`.
pub open spec fn within_some(block: Block, outer: Seq<Block>) -> bool {
    exists|j: int| 0 <= j < outer.len() && block.within(#[trigger] outer[j])
}

/// Every block of `chain` lies within some block of `outer`.
pub open spec fn chain_within(chain: Seq<Block>, outer: Seq<Block>) -> bool {
    forall|i: int| 0 <= i < chain.len() ==> within_some(#[trigger] chain[i], outer)
}

/// The bytes that the blocks of the chain govern together.
pub open spec fn total_size(chain: Seq<Block>) -> nat
    decreases chain.len(),
{
    if chain.len() == 0 {
        0
    } else {
        total_size(chain.drop_last()) + chain.last().size
    }
}

/// Index of the first block, in chain order, that can serve the request.
pub open spec fn first_fit(chain: Seq<Block>, size: nat, align: nat) -> Option<int>
    decreases chain.len(),
{
    if chain.len() == 0 {
        None
    } else if chain[0].can_provide(size, align) {
        Some(0)
    } else {
        match first_fit(chain.drop_first(), size, align) {
            Some(i) => Some(i + 1),
            None => None,
        }
    }
}

/// The outcome of an allocation request: the chain afterwards and the payload
/// address handed out, or `None` when no block could serve the request.
pub struct Allocation {
    pub chain: Seq<Block>,
    pub addr: Option<nat>,
}

/// First-fit allocation: the first block that can serve the request is
/// carved, and the new blocks follow it directly in the chain. When no block
/// can serve it, the chain is unchanged and nothing is handed out.
pub open spec fn allocate(chain: Seq<Block>, size: nat, align: nat) -> Allocation {
    match first_fit(chain, size, align) {
        Some(i) => {
            let carve = chain[i].carve(size, align);
            Allocation {
                chain: chain.subrange(0, i) + carve.blocks() + chain.subrange(
                    i + 1,
                    chain.len() as int,
                ),
                addr: Some(carve.allocated.payload()),
            }
        },
        None => Allocation { chain, addr: None },
    }
}

/// Index of the first block, in chain order, whose payload starts at `ptr`.
pub open spec fn owner(chain: Seq<Block>, ptr: nat) -> Option<int>
    decreases chain.len(),
{
    if chain.len() == 0 {
        None
    } else if chain[0].payload() == ptr {
        Some(0)
    } else {
        match owner(chain.drop_first(), ptr) {
            Some(i) => Some(i + 1),
            None => None,
        }
    }
}

/// The chain after the payload at `ptr` is given back: its block is marked
/// free and stays where it is. A chain without such a block is unchanged.
pub open spec fn release(chain: Seq<Block>, ptr: nat) -> Seq<Block> {
    match owner(chain, ptr) {
        Some(i) => chain.update(i, Block { allocated: false, ..chain[i] }),
        None => chain,
    }
}

/// The free block that a region contributes. A region that starts at address
/// zero loses its first page; a region of at most one page after that
/// contributes nothing.
pub open spec fn region_block(region: Region) -> Option<Block> {
    let (start, bytes) = if region.start == 0 {
        (
            PAGE_BYTES as nat,
            if region.bytes() >= PAGE_BYTES {
                (region.bytes() - PAGE_BYTES) as nat
            } else {
                0
            },
        )
    } else {
        (region.start, region.bytes())
    };
    if bytes <= PAGE_BYTES {
        None
    } else {
        Some(Block { addr: start, size: bytes, allocated: false })
    }
}

/// The chain after one region is offered: its block, if it contributes one,
/// becomes the new head.
pub open spec fn add_region(chain: Seq<Block>, region: Region) -> Seq<Block> {
    match region_block(region) {
        Some(b) => seq![b] + chain,
        None => chain,
    }
}

/// The chain after a memory map is consumed in order: every usable region is
/// offered, every other region is ignored.
pub open spec fn add_memory_map(chain: Seq<Block>, map: Seq<Region>) -> Seq<Block>
    decreases map.len(),
{
    if map.len() == 0 {
        chain
    } else {
        let before = add_memory_map(chain, map.drop_last());
        if map.last().usable() {
            add_region(before, map.last())
        } else {
            before
        }
    }
}

/// Every usable region of the map is addressable with `usize`.
pub open spec fn memory_map_fits(map: Seq<Region>) -> bool {
    forall|i: int| 0 <= i < map.len() && (#[trigger] map[i]).usable() ==> map[i].fits()
}

/// The whole span of a region, as a block.
pub open spec fn region_span(region: Region) -> Block {
    Block { addr: region.start, size: region.bytes(), allocated: false }
}

/// No usable region of the map overlaps another usable region or a block of
/// the chain.
pub open spec fn memory_map_disjoint(chain: Seq<Block>, map: Seq<Region>) -> bool {
    &&& forall|i: int, j: int|
        0 <= i < map.len() && 0 <= j < map.len() && i != j && (#[trigger] map[i]).usable() && (
        #[trigger] map[j]).usable() ==> region_span(map[i]).disjoint(region_span(map[j]))
    &&& forall|i: int, k: int|
        0 <= i < map.len() && 0 <= k < chain.len() && (#[trigger] map[i]).usable()
            ==> region_span(map[i]).disjoint(#[trigger] chain[k])
}

/// The block is a block of `chain` or lies within a usable region of `map`.
pub open spec fn from_chain_or_map(block: Block, chain: Seq<Block>, map: Seq<Region>) -> bool {
    ||| exists|k: int| 0 <= k < chain.len() && block == #[trigger] chain[k]
    ||| exists|i: int|
        0 <= i < map.len() && (#[trigger] map[i]).usable() && block.within(region_span(map[i]))
}

/// Every usable region of the map starts on a header boundary.
pub open spec fn memory_map_aligned(map: Seq<Region>) -> bool {
    forall|i: int|
        0 <= i < map.len() && (#[trigger] map[i]).usable() ==> header_multiple(map[i].start)
}

/// `first_fit` finds a block that can serve the request, and no block before
/// it can.
pub proof fn lemma_first_fit_some(chain: Seq<Block>, size: nat, align: nat)
    requires
        first_fit(chain, size, align) is Some,
    ensures
        ({
            let i = first_fit(chain, size, align).unwrap();
            &&& 0 <= i < chain.len()
            &&& chain[i].can_provide(size, align)
            &&& forall|j: int| 0 <= j < i ==> !(#[trigger] chain[j]).can_provide(size, align)
        }),
    decreases chain.len(),
{
    if !chain[0].can_provide(size, align) {
        let rest = chain.drop_first();
        lemma_first_fit_some(rest, size, align);
        let i = first_fit(rest, size, align).unwrap();
        assert forall|j: int| 0 <= j < i + 1 implies !(#[trigger] chain[j]).can_provide(
            size,
            align,
        ) by {
            if j > 0 {
                assert(chain[j] == rest[j - 1]);
            }
        }
    }
}

/// `first_fit` finds nothing exactly when no block can serve the request.
pub proof fn lemma_first_fit_none(chain: Seq<Block>, size: nat, align: nat)
    ensures
        first_fit(chain, size, align) is None <==> forall|j: int|
            0 <= j < chain.len() ==> !(#[trigger] chain[j]).can_provide(size, align),
    decreases chain.len(),
{
    if chain.len() > 0 {
        let rest = chain.drop_first();
        lemma_first_fit_none(rest, size, align);
        if first_fit(chain, size, align) is None {
            assert forall|j: int| 0 <= j < chain.len() implies !(#[trigger] chain[j]).can_provide(
                size,
                align,
            ) by {
                if j > 0 {
                    assert(chain[j] == rest[j - 1]);
                }
            }
        } else {
            lemma_first_fit_some(chain, size, align);
        }
    }
}

/// The first block that can serve the request, with none before it that can,
/// is the one `first_fit` names.
pub proof fn lemma_first_fit_at(chain: Seq<Block>, size: nat, align: nat, i: int)
    requires
        0 <= i < chain.len(),
        chain[i].can_provide(size, align),
        forall|j: int| 0 <= j < i ==> !(#[trigger] chain[j]).can_provide(size, align),
    ensures
        first_fit(chain, size, align) == Some(i),
{
    lemma_first_fit_none(chain, size, align);
    lemma_first_fit_some(chain, size, align);
}

/// `owner` finds a block whose payload starts at `ptr`, and no block before
/// it has its payload there.
pub proof fn lemma_owner_some(chain: Seq<Block>, ptr: nat)
    requires
        owner(chain, ptr) is Some,
    ensures
        ({
            let i = owner(chain, ptr).unwrap();
            &&& 0 <= i < chain.len()
            &&& chain[i].payload() == ptr
            &&& forall|j: int| 0 <= j < i ==> (#[trigger] chain[j]).payload() != ptr
        }),
    decreases chain.len(),
{
    if chain[0].payload() != ptr {
        let rest = chain.drop_first();
        lemma_owner_some(rest, ptr);
        let i = owner(rest, ptr).unwrap();
        assert forall|j: int| 0 <= j < i + 1 implies (#[trigger] chain[j]).payload() != ptr by {
            if j > 0 {
                assert(chain[j] == rest[j - 1]);
            }
        }
    }
}

/// `owner` finds nothing exactly when no block has its payload at `ptr`.
pub proof fn lemma_owner_none(chain: Seq<Block>, ptr: nat)
    ensures
        owner(chain, ptr) is None <==> forall|j: int|
            0 <= j < chain.len() ==> (#[trigger] chain[j]).payload() != ptr,
    decreases chain.len(),
{
    if chain.len() > 0 {
        let rest = chain.drop_first();
        lemma_owner_none(rest, ptr);
        if owner(chain, ptr) is None {
            assert forall|j: int| 0 <= j < chain.len() implies (#[trigger] chain[j]).payload()
                != ptr by {
                if j > 0 {
                    assert(chain[j] == rest[j - 1]);
                }
            }
        } else {
            lemma_owner_some(chain, ptr);
        }
    }
}

/// The first block whose payload starts at `ptr` is the one `owner` names.
pub proof fn lemma_owner_at(chain: Seq<Block>, ptr: nat, i: int)
    requires
        0 <= i < chain.len(),
        chain[i].payload() == ptr,
        forall|j: int| 0 <= j < i ==> (#[trigger] chain[j]).payload() != ptr,
    ensures
        owner(chain, ptr) == Some(i),
{
    lemma_owner_none(chain, ptr);
    lemma_owner_some(chain, ptr);
}

} // verus!
