//! How the number of free regions changes when blocks are taken and given
//! back: blocks that touch come back as one region, and a block that is
//! given back can be had again.

use crate::freelist::{
    allocation, carve, first_fit, has_fit, insertion_index, is_free, is_releasable,
    lemma_first_fit, lemma_insertion_index, lemma_insertion_index_unique, lemma_release, ordered,
    release, splits_at, FreeListEntry,
};
use crate::paging::{align_up_spec, is_aligned, lemma_align_up};
use vstd::prelude::*;

verus! {

/// The number of free regions that a block joins when it is given back:
/// the one that ends where it starts and the one that starts where it ends.
pub open spec fn joined(regions: Seq<FreeListEntry>, address: usize, size: usize) -> int {
    let index = insertion_index(regions, address);
    let lower: int = if index > 0 && regions[index - 1].end == address {
        1
    } else {
        0
    };
    let upper: int = if index < regions.len() && regions[index].start == address + size {
        1
    } else {
        0
    };
    lower + upper
}

/// The number of pieces that stay free of the region from which a request
/// is served: one below the block unless the block starts the region, and
/// one above it unless the block ends the region.
pub open spec fn remnants(regions: Seq<FreeListEntry>, size: usize, alignment: usize) -> int {
    let region = regions[first_fit(regions, size, alignment)];
    let address = align_up_spec(region.start as int, alignment as int);
    let below: int = if address == region.start {
        0
    } else {
        1
    };
    let above: int = if address + size == region.end {
        0
    } else {
        1
    };
    below + above
}

/// A block that is given back adds one region, less one for each region
/// that it joins.
pub proof fn law_release_region_count(regions: Seq<FreeListEntry>, address: usize, size: usize)
    requires
        ordered(regions),
        is_releasable(regions, address, size),
    ensures
        release(regions, address, size).len() == regions.len() + 1 - joined(
            regions,
            address,
            size,
        ),
{
    lemma_insertion_index(regions, address);
}

/// A request that is served takes one region away and leaves its remnants.
pub proof fn law_allocation_region_count(
    regions: Seq<FreeListEntry>,
    size: usize,
    alignment: usize,
)
    requires
        ordered(regions),
        alignment > 0,
        has_fit(regions, size, alignment),
    ensures
        allocation(regions, size, alignment) matches Some((_, rest)) && rest.len()
            == regions.len() - 1 + remnants(regions, size, alignment),
{
    lemma_first_fit(regions, size, alignment);
    let region = regions[first_fit(regions, size, alignment)];
    lemma_align_up(region.start as int, alignment as int);
}

/// Regions at or above the insertion index of a releasable block start at
/// or above the end of the block.
proof fn lemma_upper_regions(regions: Seq<FreeListEntry>, address: usize, size: usize)
    requires
        ordered(regions),
        is_releasable(regions, address, size),
    ensures
        splits_at(regions, insertion_index(regions, address), address),
        forall|j: int|
            insertion_index(regions, address) <= j < regions.len() ==> address + size <= (
            #[trigger] regions[j]).start,
{
    lemma_insertion_index(regions, address);
    let index = insertion_index(regions, address);
    assert forall|j: int| index <= j < regions.len() implies address + size <= (
    #[trigger] regions[j]).start by {
        assert(!regions[j].overlaps(address as int, address + size));
    }
}

/// Two blocks that touch and are both releasable are releasable as one.
proof fn lemma_releasable_as_one(
    regions: Seq<FreeListEntry>,
    address: usize,
    first: usize,
    second: usize,
)
    requires
        ordered(regions),
        is_releasable(regions, address, first),
        is_releasable(regions, (address + first) as usize, second),
    ensures
        is_releasable(regions, address, (first + second) as usize),
{
    assert forall|j: int| 0 <= j < regions.len() implies !(#[trigger] regions[j]).overlaps(
        address as int,
        address + first + second,
    ) by {
        assert(regions[j].valid());
        assert(!regions[j].overlaps(address as int, address + first));
        assert(!regions[j].overlaps(address + first, address + first + second));
    }
}

/// Giving back the lower of two touching blocks and then the upper one
/// leaves what giving back both as one block leaves.
proof fn lemma_lower_block_first(
    regions: Seq<FreeListEntry>,
    address: usize,
    first: usize,
    second: usize,
)
    requires
        ordered(regions),
        is_releasable(regions, address, first),
        is_releasable(regions, (address + first) as usize, second),
    ensures
        is_releasable(release(regions, address, first), (address + first) as usize, second),
        release(release(regions, address, first), (address + first) as usize, second) == release(
            regions,
            address,
            (first + second) as usize,
        ),
{
    let middle = (address + first) as usize;
    let end = (middle + second) as usize;
    let both = (first + second) as usize;
    let index = insertion_index(regions, address);
    lemma_releasable_as_one(regions, address, first, second);
    lemma_upper_regions(regions, address, both);
    let lower_first = release(regions, address, first);
    let whole = release(regions, address, both);
    let joins_lower = index > 0 && regions[index - 1].end == address;
    let joins_upper = index < regions.len() && regions[index].start == end;
    if joins_lower {
        let grown = FreeListEntry { start: regions[index - 1].start, end: middle };
        assert(lower_first == regions.update(index - 1, grown));
        assert forall|j: int| index <= j < lower_first.len() implies middle < (
        #[trigger] lower_first[j]).end by {
            assert(regions[j].valid());
        }
        assert(splits_at(lower_first, index, middle));
        lemma_insertion_index_unique(lower_first, index, middle);
        assert forall|j: int| 0 <= j < lower_first.len() implies !(
        #[trigger] lower_first[j]).overlaps(middle as int, middle + second) by {
            if j != index - 1 {
                assert(!regions[j].overlaps(middle as int, middle + second));
            }
        }
        if joins_upper {
            let merged = FreeListEntry { start: regions[index - 1].start, end: regions[index].end };
            assert(release(lower_first, middle, second) == lower_first.update(
                index - 1,
                merged,
            ).remove(index));
            assert(whole == regions.update(index - 1, merged).remove(index));
            assert(lower_first.update(index - 1, merged) =~= regions.update(index - 1, merged));
        } else {
            let merged = FreeListEntry { start: regions[index - 1].start, end };
            assert(release(lower_first, middle, second) == lower_first.update(index - 1, merged));
            assert(whole == regions.update(index - 1, merged));
            assert(lower_first.update(index - 1, merged) =~= regions.update(index - 1, merged));
        }
    } else {
        let block = FreeListEntry { start: address, end: middle };
        assert(lower_first == regions.insert(index, block));
        assert forall|j: int| index + 1 <= j < lower_first.len() implies middle < (
        #[trigger] lower_first[j]).end && lower_first[j] == regions[j - 1] by {
            assert(regions[j - 1].valid());
        }
        assert forall|j: int| 0 <= j < index + 1 implies (#[trigger] lower_first[j]).end
            <= middle by {
            if j < index {
                assert(lower_first[j] == regions[j]);
            }
        }
        assert(splits_at(lower_first, index + 1, middle));
        lemma_insertion_index_unique(lower_first, index + 1, middle);
        assert forall|j: int| 0 <= j < lower_first.len() implies !(
        #[trigger] lower_first[j]).overlaps(middle as int, middle + second) by {
            if j < index {
                assert(lower_first[j] == regions[j]);
                assert(!regions[j].overlaps(middle as int, middle + second));
            } else if j > index {
                assert(lower_first[j] == regions[j - 1]);
                assert(!regions[j - 1].overlaps(middle as int, middle + second));
            }
        }
        if joins_upper {
            let merged = FreeListEntry { start: address, end: regions[index].end };
            assert(lower_first[index + 1] == regions[index]);
            assert(release(lower_first, middle, second) == lower_first.update(
                index,
                merged,
            ).remove(index + 1));
            assert(whole == regions.update(index, merged));
            assert(lower_first.update(index, merged).remove(index + 1) =~= regions.update(
                index,
                merged,
            ));
        } else {
            let merged = FreeListEntry { start: address, end };
            if index < regions.len() {
                assert(lower_first[index + 1] == regions[index]);
            }
            assert(release(lower_first, middle, second) == lower_first.update(index, merged));
            assert(whole == regions.insert(index, merged));
            assert(lower_first.update(index, merged) =~= regions.insert(index, merged));
        }
    }
}

/// Giving back the upper of two touching blocks and then the lower one
/// leaves what giving back both as one block leaves.
proof fn lemma_upper_block_first(
    regions: Seq<FreeListEntry>,
    address: usize,
    first: usize,
    second: usize,
)
    requires
        ordered(regions),
        is_releasable(regions, address, first),
        is_releasable(regions, (address + first) as usize, second),
    ensures
        is_releasable(release(regions, (address + first) as usize, second), address, first),
        release(release(regions, (address + first) as usize, second), address, first) == release(
            regions,
            address,
            (first + second) as usize,
        ),
{
    let middle = (address + first) as usize;
    let end = (middle + second) as usize;
    let both = (first + second) as usize;
    let index = insertion_index(regions, address);
    lemma_releasable_as_one(regions, address, first, second);
    lemma_upper_regions(regions, address, both);
    assert forall|j: int| index <= j < regions.len() implies middle < (
    #[trigger] regions[j]).end by {
        assert(regions[j].valid());
    }
    assert(splits_at(regions, index, middle));
    lemma_insertion_index_unique(regions, index, middle);
    let upper_first = release(regions, middle, second);
    let whole = release(regions, address, both);
    let joins_lower = index > 0 && regions[index - 1].end == address;
    let joins_upper = index < regions.len() && regions[index].start == end;
    if joins_upper {
        let grown = FreeListEntry { start: middle, end: regions[index].end };
        assert(upper_first == regions.update(index, grown));
        assert(splits_at(upper_first, index, address));
        lemma_insertion_index_unique(upper_first, index, address);
        assert forall|j: int| 0 <= j < upper_first.len() implies !(
        #[trigger] upper_first[j]).overlaps(address as int, address + first) by {
            if j != index {
                assert(!regions[j].overlaps(address as int, address + first));
            }
        }
        if joins_lower {
            let merged = FreeListEntry { start: regions[index - 1].start, end: regions[index].end };
            assert(release(upper_first, address, first) == upper_first.update(
                index - 1,
                merged,
            ).remove(index));
            assert(whole == regions.update(index - 1, merged).remove(index));
            assert(upper_first.update(index - 1, merged).remove(index) =~= regions.update(
                index - 1,
                merged,
            ).remove(index));
        } else {
            let merged = FreeListEntry { start: address, end: regions[index].end };
            assert(release(upper_first, address, first) == upper_first.update(index, merged));
            assert(whole == regions.update(index, merged));
            assert(upper_first.update(index, merged) =~= regions.update(index, merged));
        }
    } else {
        let block = FreeListEntry { start: middle, end };
        assert(upper_first == regions.insert(index, block));
        assert forall|j: int| index <= j < upper_first.len() implies address < (
        #[trigger] upper_first[j]).end by {
            if j > index {
                assert(upper_first[j] == regions[j - 1]);
            }
        }
        assert forall|j: int| 0 <= j < index implies (#[trigger] upper_first[j]).end
            <= address by {
            assert(upper_first[j] == regions[j]);
        }
        assert(splits_at(upper_first, index, address));
        lemma_insertion_index_unique(upper_first, index, address);
        assert forall|j: int| 0 <= j < upper_first.len() implies !(
        #[trigger] upper_first[j]).overlaps(address as int, address + first) by {
            if j < index {
                assert(upper_first[j] == regions[j]);
                assert(!regions[j].overlaps(address as int, address + first));
            } else if j > index {
                assert(upper_first[j] == regions[j - 1]);
                assert(!regions[j - 1].overlaps(address as int, address + first));
            }
        }
        if joins_lower {
            let merged = FreeListEntry { start: regions[index - 1].start, end };
            assert(upper_first[index - 1] == regions[index - 1]);
            assert(release(upper_first, address, first) == upper_first.update(
                index - 1,
                merged,
            ).remove(index));
            assert(whole == regions.update(index - 1, merged));
            assert(upper_first.update(index - 1, merged).remove(index) =~= regions.update(
                index - 1,
                merged,
            ));
        } else {
            let merged = FreeListEntry { start: address, end };
            if index > 0 {
                assert(upper_first[index - 1] == regions[index - 1]);
            }
            assert(release(upper_first, address, first) == upper_first.update(index, merged));
            assert(whole == regions.insert(index, merged));
            assert(upper_first.update(index, merged) =~= regions.insert(index, merged));
        }
    }
}

/// Two blocks that touch, given back one after the other in either order,
/// leave the free regions that giving back both as one block leaves: one
/// region holds both.
pub proof fn law_adjacent_blocks_coalesce(
    regions: Seq<FreeListEntry>,
    address: usize,
    first: usize,
    second: usize,
)
    requires
        ordered(regions),
        is_releasable(regions, address, first),
        is_releasable(regions, (address + first) as usize, second),
    ensures
        is_releasable(release(regions, address, first), (address + first) as usize, second),
        release(release(regions, address, first), (address + first) as usize, second) == release(
            regions,
            address,
            (first + second) as usize,
        ),
        is_releasable(release(regions, (address + first) as usize, second), address, first),
        release(release(regions, (address + first) as usize, second), address, first) == release(
            regions,
            address,
            (first + second) as usize,
        ),
        is_free(
            release(regions, address, (first + second) as usize),
            address as int,
            address + first + second,
        ),
{
    lemma_lower_block_first(regions, address, first, second);
    lemma_upper_block_first(regions, address, first, second);
    lemma_releasable_as_one(regions, address, first, second);
    lemma_release(regions, address, (first + second) as usize);
}

/// A block that was given back can be had again: a request for its size,
/// at an alignment that its address has, is served.
pub proof fn law_reuse_succeeds(
    regions: Seq<FreeListEntry>,
    address: usize,
    size: usize,
    alignment: usize,
)
    requires
        ordered(regions),
        is_releasable(regions, address, size),
        alignment > 0,
        is_aligned(address as int, alignment as int),
    ensures
        allocation(release(regions, address, size), size, alignment) is Some,
{
    let after = release(regions, address, size);
    lemma_release(regions, address, size);
    let holder = choose|i: int|
        0 <= i < after.len() && (#[trigger] after[i]).covers(address as int, address + size);
    lemma_align_up(after[holder].start as int, alignment as int);
    assert(after[holder].fits(size, alignment));
}

/// The index, after a block is given back, of the region that holds it.
pub open spec fn holder(regions: Seq<FreeListEntry>, address: usize) -> int {
    let index = insertion_index(regions, address);
    if index > 0 && regions[index - 1].end == address {
        index - 1
    } else {
        index
    }
}

/// Taking a block out again right where it was given back undoes the
/// release.
proof fn lemma_carve_undoes_release(regions: Seq<FreeListEntry>, address: usize, size: usize)
    requires
        ordered(regions),
        is_releasable(regions, address, size),
    ensures
        0 <= holder(regions, address) < release(regions, address, size).len(),
        release(regions, address, size)[holder(regions, address)].covers(
            address as int,
            address + size,
        ),
        carve(release(regions, address, size), holder(regions, address), address, size)
            == regions,
{
    let end = (address + size) as usize;
    let after = release(regions, address, size);
    lemma_upper_regions(regions, address, size);
    let index = insertion_index(regions, address);
    let joins_lower = index > 0 && regions[index - 1].end == address;
    let joins_upper = index < regions.len() && regions[index].start == end;
    let rest = carve(after, holder(regions, address), address, size);
    if joins_lower && joins_upper {
        let merged = FreeListEntry { start: regions[index - 1].start, end: regions[index].end };
        let widened = regions.update(index - 1, merged);
        assert(after == widened.remove(index));
        assert(regions[index - 1].valid() && regions[index].valid());
        assert(after[index - 1] == merged);
        let upper = FreeListEntry { start: end, end: merged.end };
        let lower = FreeListEntry { start: merged.start, end: address };
        assert(rest == after.update(index - 1, upper).insert(index - 1, lower));
        assert(rest.len() == regions.len());
        assert forall|i: int| 0 <= i < regions.len() implies rest[i] == regions[i] by {
            if i < index - 1 {
                assert(rest[i] == after[i]);
            } else if i > index {
                assert(rest[i] == after[i - 1]);
                assert(after[i - 1] == widened[i]);
            }
        }
        assert(rest =~= regions);
    } else if joins_lower {
        let merged = FreeListEntry { start: regions[index - 1].start, end };
        assert(after == regions.update(index - 1, merged));
        assert(regions[index - 1].valid());
        assert(rest == after.update(
            index - 1,
            FreeListEntry { start: merged.start, end: address },
        ));
        assert(rest =~= regions);
    } else if joins_upper {
        let merged = FreeListEntry { start: address, end: regions[index].end };
        assert(after == regions.update(index, merged));
        assert(regions[index].valid());
        assert(rest == after.update(index, FreeListEntry { start: end, end: merged.end }));
        assert(rest =~= regions);
    } else {
        assert(after == regions.insert(index, FreeListEntry { start: address, end }));
        assert(rest == after.remove(index));
        assert(rest =~= regions);
    }
}

/// Where the request after giving a block back is answered with the
/// address of that block, the free regions are again what they were before
/// the block was given back.
pub proof fn law_reuse_restores(
    regions: Seq<FreeListEntry>,
    address: usize,
    size: usize,
    alignment: usize,
)
    requires
        ordered(regions),
        is_releasable(regions, address, size),
        alignment > 0,
        allocation(release(regions, address, size), size, alignment) matches Some((again, _))
            && again == address,
    ensures
        allocation(release(regions, address, size), size, alignment) == Some((address, regions)),
{
    let after = release(regions, address, size);
    lemma_release(regions, address, size);
    lemma_carve_undoes_release(regions, address, size);
    lemma_first_fit(after, size, alignment);
    let chosen = first_fit(after, size, alignment);
    let held = holder(regions, address);
    lemma_align_up(after[chosen].start as int, alignment as int);
    assert(after[chosen].covers(address as int, address + size));
    assert(chosen == held) by {
        if chosen < held {
            assert(after[chosen].end <= after[held].start);
        }
        if held < chosen {
            assert(after[held].end <= after[chosen].start);
        }
    }
}

/// After a block is given back and its size is asked for again, the
/// request is served, and there are no more free regions than before the
/// block was given back exactly when the request leaves no more remnants
/// than the block had joined regions.
pub proof fn law_reuse_region_count(
    regions: Seq<FreeListEntry>,
    address: usize,
    size: usize,
    alignment: usize,
)
    requires
        ordered(regions),
        is_releasable(regions, address, size),
        alignment > 0,
        is_aligned(address as int, alignment as int),
    ensures
        allocation(release(regions, address, size), size, alignment) matches Some((_, rest)) && (
        rest.len() <= regions.len() <==> remnants(
            release(regions, address, size),
            size,
            alignment,
        ) <= joined(regions, address, size)),
{
    let after = release(regions, address, size);
    law_reuse_succeeds(regions, address, size, alignment);
    lemma_release(regions, address, size);
    law_release_region_count(regions, address, size);
    law_allocation_region_count(after, size, alignment);
}

} // verus!
