//! What holds of every chain: the invariants that allocation, release and
//! region registration keep, and the guarantees that follow for callers.

use crate::chain::{
    add_memory_map, add_region, allocate, chain_aligned, chain_disjoint, chain_wf, chain_within,
    from_chain_or_map, memory_map_disjoint, region_span, total_size,
    first_fit, lemma_first_fit_none, lemma_first_fit_some, lemma_owner_at, lemma_owner_none,
    lemma_owner_some, memory_map_aligned,
    memory_map_fits, owner, region_block, release, within_some, Allocation,
};
use crate::header::{
    header_multiple, lemma_align_down_divisor, lemma_carve, lemma_carve_aligned,
    lemma_normalized_size, normalized_align, normalized_size, Block, HEADER_SIZE,
};
use crate::uefi::{Region, PAGE_BYTES};
use vstd::arithmetic::power2::is_pow2;
use vstd::prelude::*;

verus! {

/// Allocation keeps every block well formed.
pub proof fn lemma_allocate_wf(chain: Seq<Block>, size: nat, align: nat)
    requires
        chain_wf(chain),
    ensures
        chain_wf(allocate(chain, size, align).chain),
{
    if first_fit(chain, size, align) is Some {
        lemma_first_fit_some(chain, size, align);
        let i = first_fit(chain, size, align).unwrap();
        lemma_carve(chain[i], size, align);
    }
}

/// A successful allocation hands out a payload that is not at address zero,
/// is aligned to the normalized alignment, and lies with its normalized size
/// inside the block that was carved, behind that block's own header.
pub proof fn lemma_allocation_within_block(chain: Seq<Block>, size: nat, align: nat)
    requires
        chain_wf(chain),
        allocate(chain, size, align).addr is Some,
    ensures
        ({
            let i = first_fit(chain, size, align).unwrap();
            let addr = allocate(chain, size, align).addr.unwrap();
            let s = normalized_size(size).unwrap();
            &&& 0 <= i < chain.len()
            &&& !chain[i].allocated
            &&& addr > 0
            &&& addr % normalized_align(align) == 0
            &&& s >= size
            &&& chain[i].addr + 2 * HEADER_SIZE < addr
            &&& addr + s <= chain[i].end()
        }),
{
    lemma_first_fit_some(chain, size, align);
    let i = first_fit(chain, size, align).unwrap();
    lemma_carve(chain[i], size, align);
    lemma_normalized_size(size);
}

/// A successful allocation is aligned to the requested alignment whenever
/// that alignment divides the normalized one: every power of two does.
pub proof fn lemma_allocation_aligned(chain: Seq<Block>, size: nat, align: nat)
    requires
        chain_wf(chain),
        allocate(chain, size, align).addr is Some,
        align > 0,
        normalized_align(align) % align == 0,
    ensures
        allocate(chain, size, align).addr.unwrap() % align == 0,
{
    lemma_first_fit_some(chain, size, align);
    let block = chain[first_fit(chain, size, align).unwrap()];
    let s = normalized_size(size).unwrap();
    lemma_carve(block, size, align);
    lemma_align_down_divisor((block.end() - s) as nat, normalized_align(align), align);
}

/// A power of two divides the alignment it is normalized to, and that
/// alignment is a multiple of the header size: requests aligned to a power of
/// two are served at that alignment and keep every header on a header
/// boundary.
pub proof fn lemma_pow2_align(align: nat)
    requires
        is_pow2(align as int),
    ensures
        align > 0,
        normalized_align(align) % align == 0,
        header_multiple(normalized_align(align)),
{
    reveal_with_fuel(is_pow2, 6);
    if align < 32 {
        assert(align == 1 || align == 2 || align == 4 || align == 8 || align == 16);
        assert(32int % 1 == 0 && 32int % 2 == 0 && 32int % 4 == 0 && 32int % 8 == 0 && 32int % 16
            == 0);
    } else {
        vstd::arithmetic::div_mod::lemma_mod_self_0(align as int);
    }
}

/// Allocation fails exactly when no block of the chain can serve the request
/// on its own, whatever the blocks hold together; the chain is then unchanged.
pub proof fn lemma_allocate_fails(chain: Seq<Block>, size: nat, align: nat)
    ensures
        allocate(chain, size, align).addr is None <==> forall|i: int|
            0 <= i < chain.len() ==> !(#[trigger] chain[i]).can_provide(size, align),
        allocate(chain, size, align).addr is None ==> allocate(chain, size, align).chain == chain,
{
    lemma_first_fit_none(chain, size, align);
}

/// A request for more bytes than any single free block holds behind its
/// header fails, even where several free blocks together hold enough: blocks
/// are never merged.
pub proof fn lemma_oversized_request_fails(chain: Seq<Block>, size: nat, align: nat)
    requires
        forall|i: int|
            0 <= i < chain.len() && !(#[trigger] chain[i]).allocated ==> chain[i].size < size
                + HEADER_SIZE,
    ensures
        allocate(chain, size, align) == (Allocation { chain, addr: None }),
{
    lemma_first_fit_none(chain, size, align);
    assert forall|i: int| 0 <= i < chain.len() implies !(#[trigger] chain[i]).can_provide(
        size,
        align,
    ) by {
        if normalized_size(size) is Some {
            lemma_normalized_size(size);
        }
    }
}

/// An empty chain serves no request and stays empty.
pub proof fn lemma_empty_chain_never_allocates(size: nat, align: nat)
    ensures
        allocate(Seq::<Block>::empty(), size, align) == (Allocation {
            chain: Seq::<Block>::empty(),
            addr: None,
        }),
{
}

/// After an empty memory map is consumed by a fresh allocator, every request
/// fails.
pub proof fn lemma_empty_map_never_allocates(size: nat, align: nat)
    ensures
        add_memory_map(Seq::<Block>::empty(), Seq::<Region>::empty()) == Seq::<Block>::empty(),
        allocate(
            add_memory_map(Seq::<Block>::empty(), Seq::<Region>::empty()),
            size,
            align,
        ).addr is None,
{
}

/// The search is first-fit: the block that serves a request is the first in
/// chain order that can, so a block is only reused when no block before it
/// can serve the request.
pub proof fn lemma_first_fit_order(chain: Seq<Block>, size: nat, align: nat, j: int)
    requires
        first_fit(chain, size, align) is Some,
        0 <= j < first_fit(chain, size, align).unwrap(),
    ensures
        !chain[j].can_provide(size, align),
{
    lemma_first_fit_some(chain, size, align);
}

/// Allocation never removes or moves a header: every block of the old chain
/// is still in the new chain at the same address, in the same order, and the
/// new blocks stand directly behind the carved one.
pub proof fn lemma_allocate_keeps_headers(chain: Seq<Block>, size: nat, align: nat)
    requires
        chain_wf(chain),
        first_fit(chain, size, align) is Some,
    ensures
        ({
            let i = first_fit(chain, size, align).unwrap();
            let after = allocate(chain, size, align).chain;
            let grown = after.len() - chain.len();
            &&& 0 <= i < chain.len()
            &&& 1 <= grown <= 2
            &&& forall|k: int| 0 <= k < i ==> after[k] == chain[k]
            &&& after[i].addr == chain[i].addr && !after[i].allocated
            &&& after[i + 1].allocated && after[i + 1].payload() == allocate(
                chain,
                size,
                align,
            ).addr.unwrap()
            &&& grown == 2 ==> !after[i + 2].allocated
            &&& forall|k: int| i < k < chain.len() ==> after[k + grown] == chain[k]
        }),
{
    lemma_first_fit_some(chain, size, align);
}

/// Allocation keeps every block on header boundaries and at least one header
/// long, provided the normalized alignment is a multiple of the header size:
/// it is for every power of two.
pub proof fn lemma_allocate_aligned(chain: Seq<Block>, size: nat, align: nat)
    requires
        chain_aligned(chain),
        header_multiple(normalized_align(align)),
    ensures
        chain_aligned(allocate(chain, size, align).chain),
{
    if first_fit(chain, size, align) is Some {
        lemma_first_fit_some(chain, size, align);
        let i = first_fit(chain, size, align).unwrap();
        lemma_carve_aligned(chain[i], size, align);
    }
}

/// Allocation refines the chain: every block afterwards lies within a block
/// that was there before.
pub proof fn lemma_allocate_within(chain: Seq<Block>, size: nat, align: nat)
    requires
        chain_wf(chain),
    ensures
        chain_within(allocate(chain, size, align).chain, chain),
{
    let after = allocate(chain, size, align).chain;
    if first_fit(chain, size, align) is Some {
        lemma_first_fit_some(chain, size, align);
        let i = first_fit(chain, size, align).unwrap();
        lemma_carve(chain[i], size, align);
        let grown = after.len() - chain.len();
        assert forall|k: int| 0 <= k < after.len() implies within_some(
            #[trigger] after[k],
            chain,
        ) by {
            if k < i {
                assert(after[k].within(chain[k]));
            } else if k <= i + grown {
                assert(after[k].within(chain[i]));
            } else {
                assert(after[k].within(chain[k - grown]));
            }
        }
    } else {
        assert forall|k: int| 0 <= k < after.len() implies within_some(
            #[trigger] after[k],
            chain,
        ) by {
            assert(after[k].within(chain[k]));
        }
    }
}

/// Memory never enters the chain by allocation or release: where every block
/// lies within a block of `outer`, it still does after either, and a payload
/// handed out lies within a block of `outer` too.
pub proof fn lemma_stays_within(
    chain: Seq<Block>,
    outer: Seq<Block>,
    size: nat,
    align: nat,
    ptr: nat,
)
    requires
        chain_wf(chain),
        chain_within(chain, outer),
    ensures
        chain_within(allocate(chain, size, align).chain, outer),
        chain_within(release(chain, ptr), outer),
        allocate(chain, size, align).addr matches Some(addr) ==> exists|j: int|
            0 <= j < outer.len() && (#[trigger] outer[j]).addr < addr && addr + normalized_size(
                size,
            ).unwrap() <= outer[j].end(),
{
    let after = allocate(chain, size, align).chain;
    lemma_allocate_within(chain, size, align);
    assert forall|k: int| 0 <= k < after.len() implies within_some(#[trigger] after[k], outer) by {
        assert(within_some(after[k], chain));
        let i = choose|i: int| 0 <= i < chain.len() && after[k].within(#[trigger] chain[i]);
        assert(within_some(chain[i], outer));
        let j = choose|j: int| 0 <= j < outer.len() && chain[i].within(#[trigger] outer[j]);
        assert(after[k].within(outer[j]));
    }
    let freed = release(chain, ptr);
    lemma_release(chain, ptr);
    assert forall|k: int| 0 <= k < freed.len() implies within_some(#[trigger] freed[k], outer) by {
        assert(within_some(chain[k], outer));
        let j = choose|j: int| 0 <= j < outer.len() && chain[k].within(#[trigger] outer[j]);
        assert(freed[k].within(outer[j]));
    }
    if allocate(chain, size, align).addr is Some {
        lemma_allocation_within_block(chain, size, align);
        let i = first_fit(chain, size, align).unwrap();
        assert(within_some(chain[i], outer));
        let j = choose|j: int| 0 <= j < outer.len() && chain[i].within(#[trigger] outer[j]);
        assert(outer[j].addr < allocate(chain, size, align).addr.unwrap());
    }
}

/// Memory enters the chain only by registration: where every block lies
/// within a block of `outer`, after a region is offered every block lies
/// within a block of `outer` or within the block of that region.
pub proof fn lemma_add_region_within(chain: Seq<Block>, outer: Seq<Block>, region: Region)
    requires
        chain_within(chain, outer),
    ensures
        match region_block(region) {
            Some(b) => chain_within(add_region(chain, region), outer.push(b)),
            None => chain_within(add_region(chain, region), outer),
        },
{
    match region_block(region) {
        Some(b) => {
            let after = add_region(chain, region);
            let grown = outer.push(b);
            assert forall|k: int| 0 <= k < after.len() implies within_some(
                #[trigger] after[k],
                grown,
            ) by {
                if k == 0 {
                    assert(after[k].within(grown[outer.len() as int]));
                } else {
                    assert(within_some(chain[k - 1], outer));
                    let j = choose|j: int|
                        0 <= j < outer.len() && chain[k - 1].within(#[trigger] outer[j]);
                    assert(after[k].within(grown[j]));
                }
            }
        },
        None => {},
    }
}

/// Allocation keeps the blocks of the chain from overlapping.
pub proof fn lemma_allocate_disjoint(chain: Seq<Block>, size: nat, align: nat)
    requires
        chain_wf(chain),
        chain_disjoint(chain),
    ensures
        chain_disjoint(allocate(chain, size, align).chain),
{
    let after = allocate(chain, size, align).chain;
    if first_fit(chain, size, align) is Some {
        lemma_first_fit_some(chain, size, align);
        let i = first_fit(chain, size, align).unwrap();
        lemma_carve(chain[i], size, align);
        let grown = after.len() - chain.len();
        // Where a block of the new chain comes from in the old one.
        let origin = |k: int| if k < i { k } else if k <= i + grown { i } else { k - grown };
        assert forall|k: int, l: int|
            0 <= k < after.len() && 0 <= l < after.len() && k != l implies (
        #[trigger] after[k]).disjoint(#[trigger] after[l]) by {
            assert(after[k].within(chain[origin(k)]));
            assert(after[l].within(chain[origin(l)]));
            if origin(k) != origin(l) {
                assert(chain[origin(k)].disjoint(chain[origin(l)]));
            }
        }
    }
}

/// A new allocation overlaps no block that was in the chain before, but the
/// free block it was carved from: in a chain of non-overlapping blocks, no
/// two live allocations ever share an address.
pub proof fn lemma_allocation_is_fresh(chain: Seq<Block>, size: nat, align: nat, j: int)
    requires
        chain_wf(chain),
        chain_disjoint(chain),
        allocate(chain, size, align).addr is Some,
        0 <= j < chain.len(),
        j != first_fit(chain, size, align).unwrap(),
    ensures
        ({
            let addr = allocate(chain, size, align).addr.unwrap();
            let s = normalized_size(size).unwrap();
            addr + s <= chain[j].addr || chain[j].end() <= addr
        }),
{
    lemma_allocation_within_block(chain, size, align);
    let i = first_fit(chain, size, align).unwrap();
    assert(chain[i].disjoint(chain[j]));
}

/// Release changes nothing but the allocated flag of one block: the chain
/// keeps its length, its order, every address and every size, and with them
/// well-formedness, alignment and disjointness.
pub proof fn lemma_release(chain: Seq<Block>, ptr: nat)
    ensures
        release(chain, ptr).len() == chain.len(),
        forall|k: int|
            0 <= k < chain.len() ==> {
                let before = #[trigger] chain[k];
                let after = release(chain, ptr)[k];
                &&& after.addr == before.addr
                &&& after.size == before.size
                &&& after.allocated == (before.allocated && owner(chain, ptr) != Some(k))
            },
        chain_wf(chain) ==> chain_wf(release(chain, ptr)),
        chain_aligned(chain) ==> chain_aligned(release(chain, ptr)),
        chain_disjoint(chain) ==> chain_disjoint(release(chain, ptr)),
{
    if owner(chain, ptr) is Some {
        lemma_owner_some(chain, ptr);
        let after = release(chain, ptr);
        if chain_wf(chain) {
            assert forall|k: int| 0 <= k < after.len() implies (#[trigger] after[k]).wf() by {
                assert(chain[k].wf());
            }
        }
        if chain_aligned(chain) {
            assert forall|k: int| 0 <= k < after.len() implies (#[trigger] after[k]).aligned() by {
                assert(chain[k].aligned());
            }
        }
        if chain_disjoint(chain) {
            assert forall|k: int, l: int|
                0 <= k < after.len() && 0 <= l < after.len() && k != l implies (
            #[trigger] after[k]).disjoint(#[trigger] after[l]) by {
                assert(chain[k].disjoint(chain[l]));
            }
        }
    }
}

/// The bytes of two chains joined are the bytes of both.
pub proof fn lemma_total_size_joined(front: Seq<Block>, back: Seq<Block>)
    ensures
        total_size(front + back) == total_size(front) + total_size(back),
    decreases back.len(),
{
    if back.len() == 0 {
        assert(front + back =~= front);
    } else {
        assert((front + back).drop_last() =~= front + back.drop_last());
        lemma_total_size_joined(front, back.drop_last());
    }
}

/// No byte is lost or invented: allocation and release leave the bytes that
/// the chain governs as they are, and a registered region adds the bytes of
/// its block.
pub proof fn lemma_bytes_conserved(
    chain: Seq<Block>,
    size: nat,
    align: nat,
    ptr: nat,
    region: Region,
)
    ensures
        total_size(allocate(chain, size, align).chain) == total_size(chain),
        total_size(release(chain, ptr)) == total_size(chain),
        total_size(add_region(chain, region)) == total_size(chain) + match region_block(region) {
            Some(b) => b.size,
            None => 0,
        },
{
    reveal_with_fuel(total_size, 4);
    if first_fit(chain, size, align) is Some {
        lemma_first_fit_some(chain, size, align);
        let i = first_fit(chain, size, align).unwrap();
        let front = chain.subrange(0, i);
        let back = chain.subrange(i + 1, chain.len() as int);
        let pieces = chain[i].carve(size, align).blocks();
        lemma_carve(chain[i], size, align);
        assert(total_size(pieces) == chain[i].size) by {
            assert(pieces.drop_last().drop_last().len() <= 1);
            if pieces.len() == 3 {
                assert(pieces.drop_last().drop_last().drop_last().len() == 0);
            }
        }
        assert(total_size(seq![chain[i]]) == chain[i].size) by {
            assert(seq![chain[i]].drop_last().len() == 0);
        }
        assert(chain =~= front + seq![chain[i]] + back);
        lemma_total_size_joined(front, seq![chain[i]]);
        lemma_total_size_joined(front + seq![chain[i]], back);
        lemma_total_size_joined(front, pieces);
        lemma_total_size_joined(front + pieces, back);
    }
    if owner(chain, ptr) is Some {
        lemma_owner_some(chain, ptr);
        let k = owner(chain, ptr).unwrap();
        let freed = release(chain, ptr);
        let front = chain.subrange(0, k);
        let back = chain.subrange(k + 1, chain.len() as int);
        assert(total_size(seq![chain[k]]) == chain[k].size) by {
            assert(seq![chain[k]].drop_last().len() == 0);
        }
        assert(total_size(seq![freed[k]]) == chain[k].size) by {
            assert(seq![freed[k]].drop_last().len() == 0);
        }
        assert(chain =~= front + seq![chain[k]] + back);
        assert(freed =~= front + seq![freed[k]] + back);
        lemma_total_size_joined(front, seq![chain[k]]);
        lemma_total_size_joined(front + seq![chain[k]], back);
        lemma_total_size_joined(front, seq![freed[k]]);
        lemma_total_size_joined(front + seq![freed[k]], back);
    }
    if let Some(b) = region_block(region) {
        assert(total_size(seq![b]) == b.size) by {
            assert(seq![b].drop_last().len() == 0);
        }
        lemma_total_size_joined(seq![b], chain);
    }
}

/// A payload that was handed out can be given back: it has an owner in the
/// chain after the allocation. In a chain of well-formed blocks that do not
/// overlap, that owner is the new block, directly behind the carved one, and
/// it is marked allocated.
pub proof fn lemma_allocation_has_owner(chain: Seq<Block>, size: nat, align: nat)
    requires
        allocate(chain, size, align).addr is Some,
    ensures
        owner(allocate(chain, size, align).chain, allocate(chain, size, align).addr.unwrap())
            is Some,
        chain_wf(chain) && chain_disjoint(chain) ==> {
            let i = first_fit(chain, size, align).unwrap();
            let after = allocate(chain, size, align).chain;
            &&& owner(after, allocate(chain, size, align).addr.unwrap()) == Some(i + 1)
            &&& after[i + 1].allocated
        },
{
    let after = allocate(chain, size, align).chain;
    let addr = allocate(chain, size, align).addr.unwrap();
    lemma_first_fit_some(chain, size, align);
    let i = first_fit(chain, size, align).unwrap();
    assert(after[i + 1].payload() == addr);
    lemma_owner_none(after, addr);
    if chain_wf(chain) && chain_disjoint(chain) {
        lemma_allocate_wf(chain, size, align);
        lemma_allocate_disjoint(chain, size, align);
        lemma_owner_some(after, addr);
        let j = owner(after, addr).unwrap();
        if j != i + 1 {
            assert(after[j].disjoint(after[i + 1]));
            assert(after[j].wf() && after[i + 1].wf());
        }
    }
}

/// No owner is ever lost: a payload address that has an owner in the chain
/// still has one after an allocation, after a release, and after a region is
/// offered.
pub proof fn lemma_owner_persists(
    chain: Seq<Block>,
    ptr: nat,
    size: nat,
    align: nat,
    released: nat,
    region: Region,
)
    requires
        owner(chain, ptr) is Some,
    ensures
        owner(allocate(chain, size, align).chain, ptr) is Some,
        owner(release(chain, released), ptr) == owner(chain, ptr),
        owner(add_region(chain, region), ptr) is Some,
{
    lemma_owner_some(chain, ptr);
    let k = owner(chain, ptr).unwrap();
    let after = allocate(chain, size, align).chain;
    lemma_owner_none(after, ptr);
    if first_fit(chain, size, align) is Some {
        lemma_first_fit_some(chain, size, align);
        let i = first_fit(chain, size, align).unwrap();
        let grown = after.len() - chain.len();
        if k < i {
            assert(after[k].payload() == ptr);
        } else if k == i {
            assert(after[i].payload() == ptr);
        } else {
            assert(after[k + grown].payload() == ptr);
        }
    } else {
        assert(after[k].payload() == ptr);
    }
    let freed = release(chain, released);
    lemma_release(chain, released);
    assert forall|j: int| 0 <= j < k implies (#[trigger] freed[j]).payload() != ptr by {
        assert(chain[j].payload() != ptr);
    }
    assert(freed[k].payload() == ptr);
    lemma_owner_at(freed, ptr, k);
    let offered = add_region(chain, region);
    lemma_owner_none(offered, ptr);
    if region_block(region) is Some {
        assert(offered[k + 1].payload() == ptr);
    } else {
        assert(offered[k].payload() == ptr);
    }
}

/// A released block can serve a later request only when the search reaches
/// it: if the next allocation is carved from the released block, no block
/// before it in the chain could serve the request.
pub proof fn lemma_reuse_follows_chain_order(
    chain: Seq<Block>,
    ptr: nat,
    size: nat,
    align: nat,
    j: int,
)
    requires
        chain_wf(chain),
        owner(chain, ptr) is Some,
        first_fit(release(chain, ptr), size, align) == owner(chain, ptr),
        0 <= j < owner(chain, ptr).unwrap(),
    ensures
        !chain[j].can_provide(size, align),
{
    lemma_owner_some(chain, ptr);
    lemma_first_fit_some(release(chain, ptr), size, align);
    assert(release(chain, ptr)[j] == chain[j]);
}

/// The block of a region lies within the region, is free and well formed. A
/// region that starts at address zero contributes its bytes from the second
/// page on, so that no block ever holds an address of its first page.
pub proof fn lemma_region_block(region: Region)
    requires
        region.fits(),
        region_block(region) is Some,
    ensures
        ({
            let b = region_block(region).unwrap();
            &&& b.wf()
            &&& !b.allocated
            &&& b.size > PAGE_BYTES
            &&& b.end() == region.start + region.bytes()
            &&& region.start == 0 ==> b.addr == PAGE_BYTES
            &&& region.start != 0 ==> b.addr == region.start
            &&& header_multiple(region.start) ==> b.aligned()
        }),
{
    assert(region.bytes() == (region.pages * 128) * 32);
}

/// A region of at most one page, after a start at address zero was moved up
/// by a page, is not registered: the chain stays as it is.
pub proof fn lemma_small_region_not_registered(chain: Seq<Block>, region: Region)
    requires
        if region.start == 0 {
            region.bytes() <= 2 * PAGE_BYTES
        } else {
            region.bytes() <= PAGE_BYTES
        },
    ensures
        region_block(region) is None,
        add_region(chain, region) == chain,
{
}

/// A registered region becomes the head of the chain, before every block that
/// was there; a region on a header boundary keeps the chain aligned, and a
/// region that overlaps no block keeps the chain free of overlaps.
pub proof fn lemma_add_region(chain: Seq<Block>, region: Region)
    requires
        chain_wf(chain),
        region.fits(),
    ensures
        chain_wf(add_region(chain, region)),
        region_block(region) matches Some(b) ==> {
            &&& add_region(chain, region).len() == chain.len() + 1
            &&& add_region(chain, region)[0] == b
            &&& forall|k: int| 0 <= k < chain.len() ==> add_region(chain, region)[k + 1] == chain[k]
            &&& chain_aligned(chain) && header_multiple(region.start) ==> chain_aligned(
                add_region(chain, region),
            )
            &&& chain_disjoint(chain) && (forall|k: int|
                0 <= k < chain.len() ==> b.disjoint(#[trigger] chain[k])) ==> chain_disjoint(
                add_region(chain, region),
            )
        },
{
    if region_block(region) is Some {
        let b = region_block(region).unwrap();
        let after = add_region(chain, region);
        lemma_region_block(region);
        assert(after[0] == b);
        assert forall|k: int| 0 <= k < chain.len() implies after[k + 1] == chain[k] by {}
        assert forall|k: int| 0 <= k < after.len() implies (#[trigger] after[k]).wf() by {
            if k > 0 {
                assert(after[k] == chain[k - 1]);
            }
        }
        if chain_aligned(chain) && header_multiple(region.start) {
            assert forall|k: int| 0 <= k < after.len() implies (#[trigger] after[k]).aligned() by {
                if k > 0 {
                    assert(after[k] == chain[k - 1]);
                }
            }
        }
        if chain_disjoint(chain) && (forall|k: int|
            0 <= k < chain.len() ==> b.disjoint(#[trigger] chain[k])) {
            assert forall|k: int, l: int|
                0 <= k < after.len() && 0 <= l < after.len() && k != l implies (
            #[trigger] after[k]).disjoint(#[trigger] after[l]) by {
                if k > 0 {
                    assert(after[k] == chain[k - 1]);
                }
                if l > 0 {
                    assert(after[l] == chain[l - 1]);
                }
            }
        }
    }
}

/// What is required of a memory map holds of the map without its last region.
proof fn lemma_shorter_map(chain: Seq<Block>, map: Seq<Region>)
    requires
        map.len() > 0,
    ensures
        memory_map_fits(map) ==> memory_map_fits(map.drop_last()),
        memory_map_aligned(map) ==> memory_map_aligned(map.drop_last()),
        memory_map_disjoint(chain, map) ==> memory_map_disjoint(chain, map.drop_last()),
{
    let front = map.drop_last();
    assert forall|i: int| 0 <= i < front.len() implies #[trigger] front[i] == map[i] by {}
    if memory_map_disjoint(chain, map) {
        assert forall|i: int, j: int|
            0 <= i < front.len() && 0 <= j < front.len() && i != j && (
            #[trigger] front[i]).usable() && (
            #[trigger] front[j]).usable() implies region_span(front[i]).disjoint(
            region_span(front[j]),
        ) by {
            assert(front[i] == map[i] && front[j] == map[j]);
        }
        assert forall|i: int, k: int|
            0 <= i < front.len() && 0 <= k < chain.len() && (
            #[trigger] front[i]).usable() implies region_span(front[i]).disjoint(
            #[trigger] chain[k],
        ) by {
            assert(front[i] == map[i]);
        }
    }
}

/// Consuming a memory map keeps every block well formed, and never drops or
/// reorders a block that was in the chain: the old chain is the tail of the
/// new one. Where every usable region starts on a header boundary, an aligned
/// chain stays aligned.
pub proof fn lemma_add_memory_map(chain: Seq<Block>, map: Seq<Region>)
    requires
        chain_wf(chain),
        memory_map_fits(map),
    ensures
        chain_wf(add_memory_map(chain, map)),
        add_memory_map(chain, map).len() >= chain.len(),
        add_memory_map(chain, map).skip(add_memory_map(chain, map).len() - chain.len()) == chain,
        chain_aligned(chain) && memory_map_aligned(map) ==> chain_aligned(
            add_memory_map(chain, map),
        ),
    decreases map.len(),
{
    if map.len() > 0 {
        let before = add_memory_map(chain, map.drop_last());
        lemma_shorter_map(chain, map);
        lemma_add_memory_map(chain, map.drop_last());
        let after = add_memory_map(chain, map);
        if map.last().usable() {
            lemma_add_region(before, map.last());
        }
        assert(after.skip(after.len() - chain.len()) =~= before.skip(before.len() - chain.len()));
    } else {
        assert(chain.skip(0) =~= chain);
    }
}

/// After a memory map is consumed, every block is one that was in the chain
/// before or lies within a usable region of the map; if no usable region
/// overlaps another or a block of the chain, the blocks of the new chain do
/// not overlap either.
pub proof fn lemma_add_memory_map_disjoint(chain: Seq<Block>, map: Seq<Region>)
    requires
        chain_wf(chain),
        memory_map_fits(map),
    ensures
        forall|k: int|
            0 <= k < add_memory_map(chain, map).len() ==> from_chain_or_map(
                #[trigger] add_memory_map(chain, map)[k],
                chain,
                map,
            ),
        chain_disjoint(chain) && memory_map_disjoint(chain, map) ==> chain_disjoint(
            add_memory_map(chain, map),
        ),
    decreases map.len(),
{
    let after = add_memory_map(chain, map);
    if map.len() == 0 {
        assert forall|k: int| 0 <= k < after.len() implies from_chain_or_map(
            #[trigger] after[k],
            chain,
            map,
        ) by {
            assert(after[k] == chain[k]);
        }
    } else {
        let front = map.drop_last();
        let last = map.last();
        let before = add_memory_map(chain, front);
        lemma_shorter_map(chain, map);
        lemma_add_memory_map_disjoint(chain, front);
        lemma_add_memory_map(chain, front);
        // What held of the shorter map holds of the whole map.
        assert forall|k: int| 0 <= k < before.len() implies from_chain_or_map(
            #[trigger] before[k],
            chain,
            map,
        ) by {
            assert(from_chain_or_map(before[k], chain, front));
            if !(exists|c: int| 0 <= c < chain.len() && before[k] == #[trigger] chain[c]) {
                let i = choose|i: int|
                    0 <= i < front.len() && (#[trigger] front[i]).usable() && before[k].within(
                        region_span(front[i]),
                    );
                assert(map[i] == front[i]);
            }
        }
        if last.usable() && region_block(last) is Some {
            let b = region_block(last).unwrap();
            lemma_region_block(last);
            assert(map[map.len() - 1] == last);
            assert(b.within(region_span(last)));
            assert(after[0] == b);
            assert forall|k: int| 0 <= k < after.len() implies from_chain_or_map(
                #[trigger] after[k],
                chain,
                map,
            ) by {
                if k > 0 {
                    assert(after[k] == before[k - 1]);
                }
            }
            if chain_disjoint(chain) && memory_map_disjoint(chain, map) {
                assert forall|k: int| 0 <= k < before.len() implies b.disjoint(
                    #[trigger] before[k],
                ) by {
                    assert(from_chain_or_map(before[k], chain, front));
                    if exists|c: int| 0 <= c < chain.len() && before[k] == #[trigger] chain[c] {
                        let c = choose|c: int|
                            0 <= c < chain.len() && before[k] == #[trigger] chain[c];
                        assert(region_span(map[map.len() - 1]).disjoint(chain[c]));
                    } else {
                        let i = choose|i: int|
                            0 <= i < front.len() && (#[trigger] front[i]).usable()
                                && before[k].within(region_span(front[i]));
                        assert(map[i] == front[i]);
                        assert(region_span(map[i]).disjoint(region_span(map[map.len() - 1])));
                        assert(before[k].wf());
                    }
                }
                lemma_add_region(before, last);
            }
        }
    }
}

} // verus!
