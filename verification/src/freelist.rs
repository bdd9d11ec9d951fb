//! The pool of free memory regions: disjoint half-open address ranges kept in
//! address order, served first-fit and coalesced on release.

use crate::paging::{align_up, align_up_spec, is_aligned, lemma_align_up, BASE_PAGE_SIZE};
use vstd::prelude::*;

verus! {

/// The request cannot be served from any free region.
#[derive(Clone, Copy, Debug, PartialEq, Eq)]
pub struct AllocError;

/// A free range of addresses, `start` included and `end` excluded.
#[derive(Clone, Copy, Debug, PartialEq, Eq)]
pub struct FreeListEntry {
    pub start: usize,
    pub end: usize,
}

impl FreeListEntry {
    /// The range from `start` up to, but not including, `end`.
    pub fn new(start: usize, end: usize) -> (entry: Self)
        ensures
            entry.start == start,
            entry.end == end,
    {
        FreeListEntry { start, end }
    }

    /// A region holds at least one address.
    pub open spec fn valid(self) -> bool {
        self.start < self.end
    }

    /// The number of addresses in the region.
    pub open spec fn size(self) -> int {
        self.end - self.start
    }

    /// Whether the region shares an address with the range from `start` to `end`.
    pub open spec fn overlaps(self, start: int, end: int) -> bool {
        self.start < end && start < self.end
    }

    /// Whether the range from `start` to `end` lies inside the region.
    pub open spec fn covers(self, start: int, end: int) -> bool {
        self.start <= start && end <= self.end
    }

    /// Whether `size` bytes at the first multiple of `alignment` in the region
    /// still end inside the region.
    pub open spec fn fits(self, size: usize, alignment: usize) -> bool {
        align_up_spec(self.start as int, alignment as int) + size <= self.end
    }
}

/// Every region is non-empty and each one ends before the next one starts.
pub open spec fn ordered(regions: Seq<FreeListEntry>) -> bool {
    &&& forall|i: int| 0 <= i < regions.len() ==> (#[trigger] regions[i]).valid()
    &&& forall|i: int, j: int|
        0 <= i < j < regions.len() ==> (#[trigger] regions[i]).end <= (#[trigger] regions[j]).start
}

/// The number of addresses in all regions together.
pub open spec fn capacity(regions: Seq<FreeListEntry>) -> int
    decreases regions.len(),
{
    if regions.len() == 0 {
        0
    } else {
        capacity(regions.drop_last()) + regions.last().size()
    }
}

/// The alignment that a request is served with: its own, or that of a page.
pub open spec fn effective_alignment(alignment: Option<usize>) -> usize {
    match alignment {
        Some(bytes) => bytes,
        None => BASE_PAGE_SIZE,
    }
}

/// Appending a region raises the capacity by its size.
pub proof fn lemma_capacity_push(regions: Seq<FreeListEntry>, entry: FreeListEntry)
    ensures
        capacity(regions.push(entry)) == capacity(regions) + entry.size(),
{
    assert(regions.push(entry).drop_last() =~= regions);
}

/// Replacing a region changes the capacity by the difference of the sizes.
pub proof fn lemma_capacity_update(regions: Seq<FreeListEntry>, index: int, entry: FreeListEntry)
    requires
        0 <= index < regions.len(),
    ensures
        capacity(regions.update(index, entry)) == capacity(regions) - regions[index].size()
            + entry.size(),
    decreases regions.len(),
{
    let updated = regions.update(index, entry);
    if index == regions.len() - 1 {
        assert(updated.drop_last() =~= regions.drop_last());
    } else {
        assert(updated.drop_last() =~= regions.drop_last().update(index, entry));
        lemma_capacity_update(regions.drop_last(), index, entry);
    }
}

/// Inserting a region raises the capacity by its size.
pub proof fn lemma_capacity_insert(regions: Seq<FreeListEntry>, index: int, entry: FreeListEntry)
    requires
        0 <= index <= regions.len(),
    ensures
        capacity(regions.insert(index, entry)) == capacity(regions) + entry.size(),
    decreases regions.len(),
{
    let inserted = regions.insert(index, entry);
    if index == regions.len() {
        assert(inserted =~= regions.push(entry));
        lemma_capacity_push(regions, entry);
    } else {
        assert(inserted.drop_last() =~= regions.drop_last().insert(index, entry));
        assert(inserted.last() == regions.last());
        lemma_capacity_insert(regions.drop_last(), index, entry);
    }
}

/// Removing a region lowers the capacity by its size.
pub proof fn lemma_capacity_remove(regions: Seq<FreeListEntry>, index: int)
    requires
        0 <= index < regions.len(),
    ensures
        capacity(regions.remove(index)) == capacity(regions) - regions[index].size(),
    decreases regions.len(),
{
    let removed = regions.remove(index);
    if index == regions.len() - 1 {
        assert(removed =~= regions.drop_last());
    } else {
        assert(removed.drop_last() =~= regions.drop_last().remove(index));
        assert(removed.last() == regions.last());
        lemma_capacity_remove(regions.drop_last(), index);
    }
}

/// Ordered regions hold no more addresses than lie between the start of the
/// first and the end of the last, and no single region holds more than all.
pub proof fn lemma_capacity_bounds(regions: Seq<FreeListEntry>)
    requires
        ordered(regions),
    ensures
        0 <= capacity(regions),
        regions.len() > 0 ==> capacity(regions) <= regions.last().end - regions[0].start,
        forall|i: int| 0 <= i < regions.len() ==> (#[trigger] regions[i]).size() <= capacity(regions),
    decreases regions.len(),
{
    if regions.len() > 0 {
        let front = regions.drop_last();
        assert(ordered(front));
        lemma_capacity_bounds(front);
        if front.len() > 0 {
            assert(front.last() == regions[regions.len() - 2]);
            assert(front[0] == regions[0]);
        }
        assert forall|i: int| 0 <= i < regions.len() implies (#[trigger] regions[i]).size()
            <= capacity(regions) by {
            if i < front.len() {
                assert(front[i] == regions[i]);
            }
        }
    }
}

/// Whether the whole range from `start` to `end` lies inside one region.
pub open spec fn is_free(regions: Seq<FreeListEntry>, start: int, end: int) -> bool {
    exists|i: int| 0 <= i < regions.len() && (#[trigger] regions[i]).covers(start, end)
}

/// Whether `address` lies in a region.
pub open spec fn is_free_address(regions: Seq<FreeListEntry>, address: int) -> bool {
    exists|i: int| 0 <= i < regions.len() && (#[trigger] regions[i]).covers(address, address + 1)
}

/// Whether any region shares an address with the range from `start` to `end`.
pub open spec fn overlaps_any(regions: Seq<FreeListEntry>, start: int, end: int) -> bool {
    exists|i: int| 0 <= i < regions.len() && (#[trigger] regions[i]).overlaps(start, end)
}

/// Whether `index` is the first region in which the request fits.
pub open spec fn is_first_fit(
    regions: Seq<FreeListEntry>,
    index: int,
    size: usize,
    alignment: usize,
) -> bool {
    &&& 0 <= index < regions.len()
    &&& regions[index].fits(size, alignment)
    &&& forall|j: int| 0 <= j < index ==> !(#[trigger] regions[j]).fits(size, alignment)
}

/// Whether the request fits in any region.
pub open spec fn has_fit(regions: Seq<FreeListEntry>, size: usize, alignment: usize) -> bool {
    exists|i: int| 0 <= i < regions.len() && (#[trigger] regions[i]).fits(size, alignment)
}

/// The index of the first region in which the request fits, if there is one.
pub open spec fn first_fit(regions: Seq<FreeListEntry>, size: usize, alignment: usize) -> int {
    choose|i: int| is_first_fit(regions, i, size, alignment)
}

/// The regions that are left when `size` bytes at `address` are taken out of
/// region `index`: the region goes, shrinks at one end, or splits in two.
pub open spec fn carve(
    regions: Seq<FreeListEntry>,
    index: int,
    address: usize,
    size: usize,
) -> Seq<FreeListEntry> {
    let region = regions[index];
    let end = (address + size) as usize;
    if address == region.start && end == region.end {
        regions.remove(index)
    } else if address == region.start {
        regions.update(index, FreeListEntry { start: end, end: region.end })
    } else if end == region.end {
        regions.update(index, FreeListEntry { start: region.start, end: address })
    } else {
        regions.update(index, FreeListEntry { start: end, end: region.end }).insert(
            index,
            FreeListEntry { start: region.start, end: address },
        )
    }
}

/// What a request is answered with: the address of the block and the regions
/// that stay free, or `None` when the request fits in no region.
pub open spec fn allocation(regions: Seq<FreeListEntry>, size: usize, alignment: usize) -> Option<
    (usize, Seq<FreeListEntry>),
> {
    if has_fit(regions, size, alignment) {
        let index = first_fit(regions, size, alignment);
        let address = align_up_spec(regions[index].start as int, alignment as int) as usize;
        Some((address, carve(regions, index, address, size)))
    } else {
        None
    }
}

/// Where a request fits at all, `first_fit` names the lowest region in which
/// it does.
pub proof fn lemma_first_fit(regions: Seq<FreeListEntry>, size: usize, alignment: usize)
    requires
        has_fit(regions, size, alignment),
    ensures
        is_first_fit(regions, first_fit(regions, size, alignment), size, alignment),
{
    let witness = choose|i: int| 0 <= i < regions.len() && (#[trigger] regions[i]).fits(
        size,
        alignment,
    );
    lemma_lowest_fit(regions, witness, size, alignment);
}

/// Below a region in which the request fits there is a lowest such region.
proof fn lemma_lowest_fit(regions: Seq<FreeListEntry>, bound: int, size: usize, alignment: usize)
    requires
        0 <= bound < regions.len(),
        regions[bound].fits(size, alignment),
    ensures
        exists|i: int| is_first_fit(regions, i, size, alignment),
    decreases bound,
{
    if exists|j: int| 0 <= j < bound && (#[trigger] regions[j]).fits(size, alignment) {
        let lower = choose|j: int| 0 <= j < bound && (#[trigger] regions[j]).fits(size, alignment);
        lemma_lowest_fit(regions, lower, size, alignment);
    } else {
        assert(is_first_fit(regions, bound, size, alignment));
    }
}

/// The index that meets `is_first_fit` is the one that `first_fit` names.
pub proof fn lemma_first_fit_unique(
    regions: Seq<FreeListEntry>,
    index: int,
    size: usize,
    alignment: usize,
)
    requires
        is_first_fit(regions, index, size, alignment),
    ensures
        has_fit(regions, size, alignment),
        first_fit(regions, size, alignment) == index,
{
    let chosen = first_fit(regions, size, alignment);
    assert(is_first_fit(regions, chosen, size, alignment));
    if chosen < index {
        assert(!regions[chosen].fits(size, alignment));
    }
    if index < chosen {
        assert(!regions[index].fits(size, alignment));
    }
}

/// Taking a block out of the region that covers it leaves ordered regions,
/// each inside a region that was free before and none touching the block,
/// and lowers the capacity by the size of the block.
pub proof fn lemma_carve(regions: Seq<FreeListEntry>, index: int, address: usize, size: usize)
    requires
        ordered(regions),
        0 <= index < regions.len(),
        regions[index].covers(address as int, address + size),
    ensures
        ordered(carve(regions, index, address, size)),
        capacity(carve(regions, index, address, size)) == capacity(regions) - size,
        forall|j: int|
            0 <= j < carve(regions, index, address, size).len() ==> !(#[trigger] carve(
                regions,
                index,
                address,
                size,
            )[j]).overlaps(address as int, address + size),
        forall|j: int|
            0 <= j < carve(regions, index, address, size).len() ==> is_free(
                regions,
                (#[trigger] carve(regions, index, address, size)[j]).start as int,
                carve(regions, index, address, size)[j].end as int,
            ),
{
    let region = regions[index];
    let end = (address + size) as usize;
    let rest = carve(regions, index, address, size);
    let upper = FreeListEntry { start: end, end: region.end };
    let lower = FreeListEntry { start: region.start, end: address };
    if address == region.start && end == region.end {
        lemma_capacity_remove(regions, index);
        assert forall|j: int| 0 <= j < rest.len() implies is_free(
            regions,
            (#[trigger] rest[j]).start as int,
            rest[j].end as int,
        ) by {
            let i = if j < index { j } else { j + 1 };
            assert(regions[i].covers(rest[j].start as int, rest[j].end as int));
        }
    } else if address == region.start {
        lemma_capacity_update(regions, index, upper);
        assert forall|j: int| 0 <= j < rest.len() implies is_free(
            regions,
            (#[trigger] rest[j]).start as int,
            rest[j].end as int,
        ) by {
            assert(regions[j].covers(rest[j].start as int, rest[j].end as int));
        }
    } else if end == region.end {
        lemma_capacity_update(regions, index, lower);
        assert forall|j: int| 0 <= j < rest.len() implies is_free(
            regions,
            (#[trigger] rest[j]).start as int,
            rest[j].end as int,
        ) by {
            assert(regions[j].covers(rest[j].start as int, rest[j].end as int));
        }
    } else {
        let shrunk = regions.update(index, upper);
        lemma_capacity_update(regions, index, upper);
        lemma_capacity_insert(shrunk, index, lower);
        assert forall|j: int| 0 <= j < rest.len() implies is_free(
            regions,
            (#[trigger] rest[j]).start as int,
            rest[j].end as int,
        ) by {
            let i = if j <= index { j } else { j - 1 };
            assert(regions[i].covers(rest[j].start as int, rest[j].end as int));
        }
    }
}

/// A request that is served gets a block at a multiple of the alignment,
/// inside what was one free region and apart from all that stays free; the
/// regions that stay free are ordered, lie inside regions that were free,
/// and hold as many bytes less as the block has.  A request for more bytes
/// than are free is not served.
pub proof fn lemma_allocation(regions: Seq<FreeListEntry>, size: usize, alignment: usize)
    requires
        ordered(regions),
        alignment > 0,
    ensures
        allocation(regions, size, alignment) matches Some((address, rest)) ==> {
            &&& ordered(rest)
            &&& is_aligned(address as int, alignment as int)
            &&& is_free(regions, address as int, address + size)
            &&& !overlaps_any(rest, address as int, address + size)
            &&& capacity(rest) == capacity(regions) - size
            &&& forall|j: int|
                0 <= j < rest.len() ==> is_free(
                    regions,
                    (#[trigger] rest[j]).start as int,
                    rest[j].end as int,
                )
        },
        size > capacity(regions) ==> allocation(regions, size, alignment) is None,
{
    lemma_capacity_bounds(regions);
    if has_fit(regions, size, alignment) {
        lemma_first_fit(regions, size, alignment);
        let index = first_fit(regions, size, alignment);
        lemma_align_up(regions[index].start as int, alignment as int);
        let address = align_up_spec(regions[index].start as int, alignment as int) as usize;
        lemma_carve(regions, index, address, size);
        assert(regions[index].covers(address as int, address + size));
        assert(regions[index].size() <= capacity(regions));
    }
}

/// Whether the regions below `index` end at or below `address` and those
/// from `index` on end above it.
pub open spec fn splits_at(regions: Seq<FreeListEntry>, index: int, address: usize) -> bool {
    &&& 0 <= index <= regions.len()
    &&& forall|j: int| 0 <= j < index ==> (#[trigger] regions[j]).end <= address
    &&& forall|j: int| index <= j < regions.len() ==> address < (#[trigger] regions[j]).end
}

/// The number of regions that end at or below `address`.
pub open spec fn insertion_index(regions: Seq<FreeListEntry>, address: usize) -> int {
    choose|index: int| splits_at(regions, index, address)
}

/// Whether `size` bytes at `address` may be given back: the block is not
/// empty, ends within the address space and shares no address with a region.
pub open spec fn is_releasable(regions: Seq<FreeListEntry>, address: usize, size: usize) -> bool {
    &&& size > 0
    &&& address + size <= usize::MAX
    &&& !overlaps_any(regions, address as int, address + size)
}

/// The regions after `size` bytes at `address` are given back: the block
/// joins the region that ends where it starts and the region that starts
/// where it ends, and stands alone where there is neither.
pub open spec fn release(regions: Seq<FreeListEntry>, address: usize, size: usize) -> Seq<
    FreeListEntry,
> {
    let end = (address + size) as usize;
    let index = insertion_index(regions, address);
    let joins_lower = index > 0 && regions[index - 1].end == address;
    let joins_upper = index < regions.len() && regions[index].start == end;
    if joins_lower && joins_upper {
        regions.update(
            index - 1,
            FreeListEntry { start: regions[index - 1].start, end: regions[index].end },
        ).remove(index)
    } else if joins_lower {
        regions.update(index - 1, FreeListEntry { start: regions[index - 1].start, end })
    } else if joins_upper {
        regions.update(index, FreeListEntry { start: address, end: regions[index].end })
    } else {
        regions.insert(index, FreeListEntry { start: address, end })
    }
}

/// Ordered regions split at exactly one index, the one that
/// `insertion_index` names.
pub proof fn lemma_insertion_index(regions: Seq<FreeListEntry>, address: usize)
    requires
        ordered(regions),
    ensures
        splits_at(regions, insertion_index(regions, address), address),
    decreases regions.len(),
{
    if regions.len() == 0 {
        assert(splits_at(regions, 0, address));
    } else if regions.last().end <= address {
        assert(splits_at(regions, regions.len() as int, address));
    } else {
        let front = regions.drop_last();
        assert(ordered(front));
        lemma_insertion_index(front, address);
        let index = insertion_index(front, address);
        assert forall|j: int| index <= j < regions.len() implies address < (
        #[trigger] regions[j]).end by {
            if j < front.len() {
                assert(front[j] == regions[j]);
            }
        }
        assert forall|j: int| 0 <= j < index implies (#[trigger] regions[j]).end <= address by {
            assert(front[j] == regions[j]);
        }
        assert(splits_at(regions, index, address));
    }
}

/// An index that meets `splits_at` is the one that `insertion_index` names.
pub proof fn lemma_insertion_index_unique(regions: Seq<FreeListEntry>, index: int, address: usize)
    requires
        splits_at(regions, index, address),
    ensures
        insertion_index(regions, address) == index,
{
    let chosen = insertion_index(regions, address);
    assert(splits_at(regions, chosen, address));
    if chosen < index {
        assert(regions[chosen].end <= address);
    }
    if index < chosen {
        assert(regions[index].end <= address);
    }
}

/// Giving a block back leaves ordered regions that hold the block and all
/// that was free before, and raises the capacity by the size of the block.
pub proof fn lemma_release(regions: Seq<FreeListEntry>, address: usize, size: usize)
    requires
        ordered(regions),
        is_releasable(regions, address, size),
    ensures
        ordered(release(regions, address, size)),
        capacity(release(regions, address, size)) == capacity(regions) + size,
        is_free(release(regions, address, size), address as int, address + size),
        forall|i: int|
            0 <= i < regions.len() ==> is_free(
                release(regions, address, size),
                (#[trigger] regions[i]).start as int,
                regions[i].end as int,
            ),
{
    let end = (address + size) as usize;
    let index = insertion_index(regions, address);
    let after = release(regions, address, size);
    lemma_insertion_index(regions, address);
    assert forall|j: int| index <= j < regions.len() implies end <= (
    #[trigger] regions[j]).start by {
        assert(!regions[j].overlaps(address as int, address + size));
    }
    let joins_lower = index > 0 && regions[index - 1].end == address;
    let joins_upper = index < regions.len() && regions[index].start == end;
    if joins_lower && joins_upper {
        let merged = FreeListEntry { start: regions[index - 1].start, end: regions[index].end };
        let widened = regions.update(index - 1, merged);
        lemma_capacity_update(regions, index - 1, merged);
        lemma_capacity_remove(widened, index);
        assert(after[index - 1].covers(address as int, address + size));
        assert forall|i: int| 0 <= i < regions.len() implies is_free(
            after,
            (#[trigger] regions[i]).start as int,
            regions[i].end as int,
        ) by {
            let j = if i < index { i } else { i - 1 };
            assert(after[j].covers(regions[i].start as int, regions[i].end as int));
        }
    } else if joins_lower {
        let merged = FreeListEntry { start: regions[index - 1].start, end };
        lemma_capacity_update(regions, index - 1, merged);
        assert(after[index - 1].covers(address as int, address + size));
        assert forall|i: int| 0 <= i < regions.len() implies is_free(
            after,
            (#[trigger] regions[i]).start as int,
            regions[i].end as int,
        ) by {
            assert(after[i].covers(regions[i].start as int, regions[i].end as int));
        }
    } else if joins_upper {
        let merged = FreeListEntry { start: address, end: regions[index].end };
        lemma_capacity_update(regions, index, merged);
        assert(after[index].covers(address as int, address + size));
        assert forall|i: int| 0 <= i < regions.len() implies is_free(
            after,
            (#[trigger] regions[i]).start as int,
            regions[i].end as int,
        ) by {
            assert(after[i].covers(regions[i].start as int, regions[i].end as int));
        }
    } else {
        let block = FreeListEntry { start: address, end };
        lemma_capacity_insert(regions, index, block);
        assert(after[index].covers(address as int, address + size));
        assert forall|i: int| 0 <= i < regions.len() implies is_free(
            after,
            (#[trigger] regions[i]).start as int,
            regions[i].end as int,
        ) by {
            let j = if i < index { i } else { i + 1 };
            assert(after[j].covers(regions[i].start as int, regions[i].end as int));
        }
    }
}

/// A range that shares no address with a free region nor with the block
/// that is given back shares none with a free region afterwards.
pub proof fn lemma_release_keeps_apart(
    regions: Seq<FreeListEntry>,
    address: usize,
    size: usize,
    start: int,
    end: int,
)
    requires
        ordered(regions),
        is_releasable(regions, address, size),
        start < end,
        !overlaps_any(regions, start, end),
        end <= address || address + size <= start,
    ensures
        !overlaps_any(release(regions, address, size), start, end),
{
    let index = insertion_index(regions, address);
    let after = release(regions, address, size);
    lemma_insertion_index(regions, address);
    let joins_lower = index > 0 && regions[index - 1].end == address;
    let joins_upper = index < regions.len() && regions[index].start == address + size;
    assert forall|j: int| 0 <= j < after.len() implies !(#[trigger] after[j]).overlaps(
        start,
        end,
    ) by {
        if joins_lower && joins_upper {
            if j < index - 1 {
                assert(!regions[j].overlaps(start, end));
            } else if j == index - 1 {
                assert(!regions[index - 1].overlaps(start, end));
                assert(!regions[index].overlaps(start, end));
            } else {
                assert(!regions[j + 1].overlaps(start, end));
            }
        } else if joins_lower || joins_upper {
            assert(!regions[j].overlaps(start, end));
        } else {
            if j < index {
                assert(!regions[j].overlaps(start, end));
            } else if j > index {
                assert(!regions[j - 1].overlaps(start, end));
            }
        }
    }
}

/// One free region in a report: its bounds and its size in bytes.
#[derive(Clone, Copy, Debug, PartialEq, Eq)]
pub struct RegionInformation {
    pub start: usize,
    pub end: usize,
    pub size: usize,
}

/// A report on the free regions of a pool.
#[derive(Debug, PartialEq, Eq)]
pub struct Information {
    /// The heading of the report.
    pub header: String,
    /// The free regions, in address order.
    pub regions: Vec<RegionInformation>,
}

/// The report entries for `regions`: each region with its size.
pub open spec fn described(regions: Seq<FreeListEntry>) -> Seq<RegionInformation> {
    Seq::new(
        regions.len(),
        |i: int|
            RegionInformation {
                start: regions[i].start,
                end: regions[i].end,
                size: regions[i].size() as usize,
            },
    )
}

/// The free regions, in address order.
pub struct FreeList {
    list: Vec<FreeListEntry>,
}

impl View for FreeList {
    type V = Seq<FreeListEntry>;

    closed spec fn view(&self) -> Seq<FreeListEntry> {
        self.list@
    }
}

impl FreeList {
    /// The regions are non-empty, disjoint and in address order.
    pub open spec fn wf(&self) -> bool {
        ordered(self@)
    }

    /// A pool without any free region.
    pub fn new() -> (pool: Self)
        ensures
            pool@ == Seq::<FreeListEntry>::empty(),
            pool.wf(),
    {
        FreeList { list: Vec::new() }
    }

    /// Appends a region that lies above all regions of the pool.
    pub fn push_back(&mut self, entry: FreeListEntry)
        requires
            old(self).wf(),
            entry.valid(),
            old(self)@.len() > 0 ==> old(self)@.last().end <= entry.start,
        ensures
            final(self).wf(),
            final(self)@ == old(self)@.push(entry),
            capacity(final(self)@) == capacity(old(self)@) + entry.size(),
    {
        proof {
            lemma_capacity_push(self@, entry);
        }
        self.list.push(entry);
    }

    /// Takes `size` bytes out of the first region that can hold them at a
    /// multiple of `alignment`, or of the page size where none is given, and
    /// returns the address of the block.
    pub fn allocate(&mut self, size: usize, alignment: Option<usize>) -> (result: Result<
        usize,
        AllocError,
    >)
        requires
            old(self).wf(),
            alignment != Some(0usize),
        ensures
            final(self).wf(),
            match result {
                Ok(address) => allocation(old(self)@, size, effective_alignment(alignment))
                    == Some((address, final(self)@)),
                Err(_) => allocation(old(self)@, size, effective_alignment(alignment)) is None
                    && final(self)@ == old(self)@,
            },
            result matches Ok(address) ==> {
                &&& is_aligned(address as int, effective_alignment(alignment) as int)
                &&& is_free(old(self)@, address as int, address + size)
                &&& !overlaps_any(final(self)@, address as int, address + size)
                &&& capacity(final(self)@) == capacity(old(self)@) - size
            },
            size > capacity(old(self)@) ==> result is Err,
    {
        let step: usize = match alignment {
            Some(bytes) => bytes,
            None => BASE_PAGE_SIZE,
        };
        let ghost before = self@;
        let mut index: usize = 0;
        while index < self.list.len()
            invariant
                self@ == before,
                before == old(self)@,
                ordered(before),
                step > 0,
                step == effective_alignment(alignment),
                index <= self.list.len(),
                forall|j: int| 0 <= j < index ==> !(#[trigger] before[j]).fits(size, step),
            decreases self.list.len() - index,
        {
            let region = self.list[index];
            if let Some(address) = align_up(region.start, step) {
                if address <= region.end && size <= region.end - address {
                    proof {
                        assert(before[index as int].fits(size, step));
                        lemma_first_fit_unique(before, index as int, size, step);
                        lemma_allocation(before, size, step);
                    }
                    let end: usize = address + size;
                    if address == region.start && end == region.end {
                        self.list.remove(index);
                    } else if address == region.start {
                        self.list.set(index, FreeListEntry { start: end, end: region.end });
                    } else if end == region.end {
                        self.list.set(index, FreeListEntry { start: region.start, end: address });
                    } else {
                        self.list.set(index, FreeListEntry { start: end, end: region.end });
                        self.list.insert(index, FreeListEntry { start: region.start, end: address });
                    }
                    return Ok(address);
                }
            }
            index = index + 1;
        }
        Err(AllocError)
    }

    /// Whether `size` bytes at `address` may be given back to the pool.
    pub fn can_release(&self, address: usize, size: usize) -> (releasable: bool)
        ensures
            releasable == is_releasable(self@, address, size),
    {
        if size == 0 || size > usize::MAX - address {
            return false;
        }
        let end: usize = address + size;
        let mut index: usize = 0;
        while index < self.list.len()
            invariant
                index <= self.list.len(),
                end == address + size,
                forall|j: int|
                    0 <= j < index ==> !(#[trigger] self@[j]).overlaps(address as int, end as int),
            decreases self.list.len() - index,
        {
            if self.list[index].start < end && address < self.list[index].end {
                return false;
            }
            index = index + 1;
        }
        true
    }

    /// Gives `size` bytes at `address` back to the pool, joined with the free
    /// regions that touch the block.
    pub fn deallocate(&mut self, address: usize, size: usize)
        requires
            old(self).wf(),
            is_releasable(old(self)@, address, size),
        ensures
            final(self).wf(),
            final(self)@ == release(old(self)@, address, size),
            capacity(final(self)@) == capacity(old(self)@) + size,
            is_free(final(self)@, address as int, address + size),
    {
        let ghost before = self@;
        let end: usize = address + size;
        let mut index: usize = 0;
        while index < self.list.len() && self.list[index].end <= address
            invariant
                self@ == before,
                index <= self.list.len(),
                forall|j: int| 0 <= j < index ==> (#[trigger] before[j]).end <= address,
            decreases self.list.len() - index,
        {
            index = index + 1;
        }
        proof {
            assert(splits_at(before, index as int, address));
            lemma_insertion_index_unique(before, index as int, address);
            lemma_release(before, address, size);
        }
        let joins_lower = index > 0 && self.list[index - 1].end == address;
        let joins_upper = index < self.list.len() && self.list[index].start == end;
        if joins_lower && joins_upper {
            let merged = FreeListEntry {
                start: self.list[index - 1].start,
                end: self.list[index].end,
            };
            self.list.set(index - 1, merged);
            self.list.remove(index);
        } else if joins_lower {
            let merged = FreeListEntry { start: self.list[index - 1].start, end };
            self.list.set(index - 1, merged);
        } else if joins_upper {
            let merged = FreeListEntry { start: address, end: self.list[index].end };
            self.list.set(index, merged);
        } else {
            self.list.insert(index, FreeListEntry { start: address, end });
        }
    }

    /// Reports every free region with its size, under the given heading.
    pub fn print_information(&self, header: &str) -> (information: Information)
        requires
            self.wf(),
        ensures
            information.header@ == header@,
            information.regions@ == described(self@),
    {
        let mut regions: Vec<RegionInformation> = Vec::new();
        let mut index: usize = 0;
        while index < self.list.len()
            invariant
                self.wf(),
                index <= self.list.len(),
                regions@ == described(self@.subrange(0, index as int)),
            decreases self.list.len() - index,
        {
            let entry = self.list[index];
            regions.push(
                RegionInformation { start: entry.start, end: entry.end, size: entry.end - entry.start },
            );
            index = index + 1;
            assert(regions@ =~= described(self@.subrange(0, index as int)));
        }
        assert(self@.subrange(0, index as int) =~= self@);
        Information { header: header.to_owned(), regions }
    }

    /// The free regions, in address order.
    pub fn entries(&self) -> (entries: &Vec<FreeListEntry>)
        ensures
            entries@ == self@,
    {
        &self.list
    }

    /// The number of free regions.
    pub fn len(&self) -> (count: usize)
        ensures
            count == self@.len(),
    {
        self.list.len()
    }

    /// The number of free bytes.
    pub fn free_capacity(&self) -> (bytes: usize)
        requires
            self.wf(),
        ensures
            bytes == capacity(self@),
    {
        let mut bytes: usize = 0;
        let mut i: usize = 0;
        while i < self.list.len()
            invariant
                self.wf(),
                i <= self.list.len(),
                bytes == capacity(self@.subrange(0, i as int)),
            decreases self.list.len() - i,
        {
            proof {
                let next = self@.subrange(0, i + 1);
                assert(next.drop_last() =~= self@.subrange(0, i as int));
                assert(next.last() == self@[i as int]);
                assert(ordered(next));
                lemma_capacity_bounds(next);
                assert(next[0] == self@[0]);
            }
            bytes = bytes + (self.list[i].end - self.list[i].start);
            i = i + 1;
        }
        assert(self@.subrange(0, i as int) =~= self@);
        bytes
    }
}

} // verus!
