//! The physical memory manager: the pool of free physical memory that is
//! filled once at boot and then serves requests for page frames.

use crate::address::PhysAddr;
use crate::boot::{detect, BootContext};
use crate::freelist::{
    allocation, capacity, is_free, is_releasable, ordered, overlaps_any, release, AllocError,
    FreeList, FreeListEntry, Information,
};
use crate::paging::{is_aligned, BASE_PAGE_SIZE};
use vstd::prelude::*;

verus! {

/// The state of physical memory: what is free, how much memory the machine
/// has for use, and where the kernel image ends.
pub struct PhysicalMemory {
    free_list: FreeList,
    total_memory: usize,
    kernel_end: usize,
    initialized: bool,
}

/// What a `PhysicalMemory` stands for.
pub struct PhysicalMemoryView {
    /// The free regions, in address order.
    pub free: Seq<FreeListEntry>,
    /// The number of usable bytes that were found at boot.
    pub total_memory: usize,
    /// The address at which the kernel image ends.
    pub kernel_end: usize,
    /// Whether the usable memory has been detected.
    pub initialized: bool,
}

impl View for PhysicalMemory {
    type V = PhysicalMemoryView;

    closed spec fn view(&self) -> PhysicalMemoryView {
        PhysicalMemoryView {
            free: self.free_list@,
            total_memory: self.total_memory,
            kernel_end: self.kernel_end,
            initialized: self.initialized,
        }
    }
}

impl PhysicalMemory {
    /// The free regions are non-empty, disjoint and in address order, and
    /// before initialization nothing is free and nothing is counted.
    pub open spec fn wf(&self) -> bool {
        &&& ordered(self@.free)
        &&& !self@.initialized ==> self@.free.len() == 0 && self@.total_memory == 0
    }

    /// The manager before the usable memory has been detected.
    pub fn new() -> (memory: Self)
        ensures
            memory.wf(),
            memory@ == (PhysicalMemoryView {
                free: Seq::empty(),
                total_memory: 0,
                kernel_end: 0,
                initialized: false,
            }),
    {
        PhysicalMemory {
            free_list: FreeList::new(),
            total_memory: 0,
            kernel_end: 0,
            initialized: false,
        }
    }

    /// Whether the usable memory has been detected.
    pub fn is_initialized(&self) -> (initialized: bool)
        ensures
            initialized == self@.initialized,
    {
        self.initialized
    }

    /// The address at which the kernel image ends.
    pub fn kernel_end_address(&self) -> (address: usize)
        ensures
            address == self@.kernel_end,
    {
        self.kernel_end
    }

    /// The pool of free regions.
    pub fn free_list(&self) -> (pool: &FreeList)
        ensures
            pool@ == self@.free,
    {
        &self.free_list
    }
}

/// Detects the usable physical memory and makes all of it free.
pub fn init(memory: &mut PhysicalMemory, boot: &BootContext)
    requires
        old(memory).wf(),
        !old(memory)@.initialized,
        boot.limit != 0,
        boot.layout(),
    ensures
        final(memory).wf(),
        final(memory)@ == (PhysicalMemoryView {
            free: boot.usable_regions(),
            total_memory: boot.usable_bytes() as usize,
            kernel_end: boot.kernel_end_address,
            initialized: true,
        }),
        final(memory)@.total_memory == boot.usable_bytes(),
        final(memory)@.total_memory == capacity(final(memory)@.free),
{
    match detect(boot) {
        Ok(usable) => {
            let mut index: usize = 0;
            while index < usable.regions.len()
                invariant
                    index <= usable.regions.len(),
                    ordered(usable.regions@),
                    memory.free_list.wf(),
                    memory.free_list@ == usable.regions@.subrange(0, index as int),
                decreases usable.regions.len() - index,
            {
                memory.free_list.push_back(usable.regions[index]);
                index = index + 1;
                assert(memory.free_list@ =~= usable.regions@.subrange(0, index as int));
            }
            assert(memory.free_list@ =~= usable.regions@);
            memory.total_memory = usable.total;
            memory.kernel_end = boot.kernel_end_address;
            memory.initialized = true;
        },
        Err(_) => {},
    }
}

/// The number of usable bytes that were found at boot, free or not; zero
/// before initialization.
pub fn total_memory_size(memory: &PhysicalMemory) -> (bytes: usize)
    ensures
        bytes == memory@.total_memory,
{
    memory.total_memory
}

/// Nothing is to be done for the page tables of physical memory.
pub fn init_page_tables() {
}

/// Takes `size` bytes, a positive multiple of the page size, out of the
/// first free region that holds them at a page boundary.
pub fn allocate(memory: &mut PhysicalMemory, size: usize) -> (result: Result<PhysAddr, AllocError>)
    requires
        old(memory).wf(),
        old(memory)@.initialized,
        size > 0,
        size % BASE_PAGE_SIZE == 0,
    ensures
        final(memory).wf(),
        match result {
            Ok(address) => {
                &&& address.0 <= usize::MAX
                &&& allocation(old(memory)@.free, size, BASE_PAGE_SIZE) == Some(
                    (address.0 as usize, final(memory)@.free),
                )
                &&& final(memory)@ == (PhysicalMemoryView {
                    free: final(memory)@.free,
                    ..old(memory)@
                })
                &&& is_aligned(address.0 as int, BASE_PAGE_SIZE as int)
                &&& is_free(old(memory)@.free, address.0 as int, address.0 + size)
                &&& !overlaps_any(final(memory)@.free, address.0 as int, address.0 + size)
                &&& capacity(final(memory)@.free) == capacity(old(memory)@.free) - size
            },
            Err(_) => {
                &&& allocation(old(memory)@.free, size, BASE_PAGE_SIZE) is None
                &&& final(memory)@ == old(memory)@
            },
        },
        size > capacity(old(memory)@.free) ==> result is Err,
{
    match memory.free_list.allocate(size, None) {
        Ok(address) => Ok(PhysAddr(address as u64)),
        Err(error) => Err(error),
    }
}

/// Takes `size` bytes, a positive multiple of `alignment`, out of the first
/// free region that holds them at a multiple of `alignment`, which is itself
/// a positive multiple of the page size.
pub fn allocate_aligned(memory: &mut PhysicalMemory, size: usize, alignment: usize) -> (result:
    Result<PhysAddr, AllocError>)
    requires
        old(memory).wf(),
        old(memory)@.initialized,
        size > 0,
        alignment > 0,
        size % alignment == 0,
        alignment % BASE_PAGE_SIZE == 0,
    ensures
        final(memory).wf(),
        match result {
            Ok(address) => {
                &&& address.0 <= usize::MAX
                &&& allocation(old(memory)@.free, size, alignment) == Some(
                    (address.0 as usize, final(memory)@.free),
                )
                &&& final(memory)@ == (PhysicalMemoryView {
                    free: final(memory)@.free,
                    ..old(memory)@
                })
                &&& is_aligned(address.0 as int, alignment as int)
                &&& is_free(old(memory)@.free, address.0 as int, address.0 + size)
                &&& !overlaps_any(final(memory)@.free, address.0 as int, address.0 + size)
                &&& capacity(final(memory)@.free) == capacity(old(memory)@.free) - size
            },
            Err(_) => {
                &&& allocation(old(memory)@.free, size, alignment) is None
                &&& final(memory)@ == old(memory)@
            },
        },
        size > capacity(old(memory)@.free) ==> result is Err,
{
    match memory.free_list.allocate(size, Some(alignment)) {
        Ok(address) => Ok(PhysAddr(address as u64)),
        Err(error) => Err(error),
    }
}

/// Whether `size` bytes at `physical_address` may be given back: the block
/// lies at or above the end of the kernel image, is a positive multiple of
/// the page size, ends within the address space and holds no free address.
pub open spec fn is_returnable(
    memory: PhysicalMemoryView,
    physical_address: PhysAddr,
    size: usize,
) -> bool {
    &&& physical_address.0 >= memory.kernel_end
    &&& size % BASE_PAGE_SIZE == 0
    &&& physical_address.0 <= usize::MAX
    &&& is_releasable(memory.free, physical_address.0 as usize, size)
}

/// Gives `size` bytes at `physical_address` back, joined with the free
/// regions that touch the block.
pub fn deallocate(memory: &mut PhysicalMemory, physical_address: PhysAddr, size: usize)
    requires
        old(memory).wf(),
        old(memory)@.initialized,
        is_returnable(old(memory)@, physical_address, size),
    ensures
        final(memory).wf(),
        final(memory)@ == (PhysicalMemoryView {
            free: release(old(memory)@.free, physical_address.0 as usize, size),
            ..old(memory)@
        }),
        capacity(final(memory)@.free) == capacity(old(memory)@.free) + size,
        is_free(final(memory)@.free, physical_address.0 as int, physical_address.0 + size),
{
    memory.free_list.deallocate(physical_address.as_usize(), size);
}

/// The free regions of physical memory and their sizes, under the heading
/// of the physical free list.
pub fn print_information(memory: &PhysicalMemory) -> (information: Information)
    requires
        memory.wf(),
    ensures
        information.header@ == " PHYSICAL MEMORY FREE LIST "@,
        information.regions@ == crate::freelist::described(memory@.free),
{
    memory.free_list.print_information(" PHYSICAL MEMORY FREE LIST ")
}

} // verus!
