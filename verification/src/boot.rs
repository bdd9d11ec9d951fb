//! Discovery of the usable physical memory from what the boot environment
//! reports, under a direct boot by a minimal hypervisor or a full emulated
//! boot.

use crate::freelist::{capacity, ordered, FreeListEntry};
use crate::paging::{align_down, align_down_spec, lemma_align_down, BASE_PAGE_SIZE};
use vstd::prelude::*;

verus! {

/// What the boot environment reports about the machine and the kernel image.
#[derive(Clone, Copy, Debug, PartialEq, Eq)]
pub struct BootContext {
    /// Whether the kernel was started directly by the minimal hypervisor.
    pub uhyve: bool,
    /// The address at which physical memory ends, or zero if none is reported.
    pub limit: usize,
    /// The address of the boot information structure.
    pub boot_info_address: usize,
    /// The address at which RAM starts.
    pub ram_address: usize,
    /// The address at which the kernel image starts.
    pub kernel_start_address: usize,
    /// The address at which the kernel image ends.
    pub kernel_end_address: usize,
    /// The size of the stack that is reserved right below the kernel image.
    pub kernel_stack_size: usize,
}

/// The memory that a boot protocol found usable.
#[derive(Debug)]
pub struct UsableMemory {
    /// The usable regions, in address order.
    pub regions: Vec<FreeListEntry>,
    /// The number of bytes in all usable regions together.
    pub total: usize,
}

impl BootContext {
    /// The direct boot protocol applies to a kernel that was started by the
    /// minimal hypervisor with a memory limit.
    pub open spec fn direct_boot_applies(self) -> bool {
        self.uhyve && self.limit != 0
    }

    /// The emulated boot protocol applies wherever a memory limit is reported.
    pub open spec fn emulated_boot_applies(self) -> bool {
        self.limit != 0
    }

    /// Under a direct boot, memory extends beyond the kernel image.
    pub open spec fn direct_layout(self) -> bool {
        self.kernel_end_address < self.limit
    }

    /// The start of the page that holds the boot information structure.
    pub open spec fn boot_info_page(self) -> int {
        align_down_spec(self.boot_info_address as int, BASE_PAGE_SIZE as int)
    }

    /// The lowest address of the stack that is reserved below the kernel.
    pub open spec fn stack_base(self) -> int {
        self.kernel_start_address - self.kernel_stack_size
    }

    /// Under an emulated boot, RAM starts below the page of the boot
    /// information, the reserved stack lies above that page with free memory
    /// in between and not above the end of the kernel, and memory extends
    /// beyond the kernel image.
    pub open spec fn emulated_layout(self) -> bool {
        &&& self.ram_address < self.boot_info_page()
        &&& self.boot_info_page() + BASE_PAGE_SIZE < self.stack_base()
        &&& self.stack_base() <= self.kernel_end_address
        &&& self.kernel_end_address < self.limit
    }

    /// The layout that the protocol in force relies on.
    pub open spec fn layout(self) -> bool {
        if self.direct_boot_applies() {
            self.direct_layout()
        } else if self.emulated_boot_applies() {
            self.emulated_layout()
        } else {
            true
        }
    }

    /// The one region of a direct boot: all memory above the kernel image.
    pub open spec fn direct_regions(self) -> Seq<FreeListEntry> {
        seq![FreeListEntry { start: self.kernel_end_address, end: self.limit }]
    }

    /// The three regions of an emulated boot: RAM below the page of the boot
    /// information, the memory between that page and the reserved stack, and
    /// all memory above the kernel image.
    pub open spec fn emulated_regions(self) -> Seq<FreeListEntry> {
        seq![
            FreeListEntry { start: self.ram_address, end: self.boot_info_page() as usize },
            FreeListEntry {
                start: (self.boot_info_page() + BASE_PAGE_SIZE) as usize,
                end: self.stack_base() as usize,
            },
            FreeListEntry { start: self.kernel_end_address, end: self.limit },
        ]
    }

    /// The regions that the first applicable protocol reports.
    pub open spec fn usable_regions(self) -> Seq<FreeListEntry> {
        if self.direct_boot_applies() {
            self.direct_regions()
        } else {
            self.emulated_regions()
        }
    }

    /// The number of usable bytes that the first applicable protocol reports:
    /// the sum over all of its regions.
    pub open spec fn usable_bytes(self) -> int {
        if self.direct_boot_applies() {
            self.limit - self.kernel_end_address
        } else {
            (self.boot_info_page() - self.ram_address) + (self.stack_base() - (
            self.boot_info_page() + BASE_PAGE_SIZE)) + (self.limit - self.kernel_end_address)
        }
    }

    /// Whether the addresses lie as the direct boot protocol relies on.
    pub fn has_direct_layout(&self) -> (consistent: bool)
        ensures
            consistent == self.direct_layout(),
    {
        self.kernel_end_address < self.limit
    }

    /// Whether the addresses lie as the emulated boot protocol relies on.
    pub fn has_emulated_layout(&self) -> (consistent: bool)
        ensures
            consistent == self.emulated_layout(),
    {
        proof {
            lemma_align_down(self.boot_info_address as int, BASE_PAGE_SIZE as int);
        }
        let boot_info_page: usize = align_down(self.boot_info_address, BASE_PAGE_SIZE);
        if self.kernel_stack_size > self.kernel_start_address {
            return false;
        }
        let stack_base: usize = self.kernel_start_address - self.kernel_stack_size;
        self.ram_address < boot_info_page && boot_info_page < stack_base && BASE_PAGE_SIZE
            < stack_base - boot_info_page && stack_base <= self.kernel_end_address
            && self.kernel_end_address < self.limit
    }

    /// Whether the addresses lie as the protocol in force relies on.
    pub fn has_layout(&self) -> (consistent: bool)
        ensures
            consistent == self.layout(),
    {
        if self.limit == 0 {
            true
        } else if self.uhyve {
            self.has_direct_layout()
        } else {
            self.has_emulated_layout()
        }
    }
}

/// The capacity of one, two or three regions is the sum of their sizes.
pub proof fn lemma_capacity_of_few(regions: Seq<FreeListEntry>)
    requires
        1 <= regions.len() <= 3,
    ensures
        regions.len() == 1 ==> capacity(regions) == regions[0].size(),
        regions.len() == 2 ==> capacity(regions) == regions[0].size() + regions[1].size(),
        regions.len() == 3 ==> capacity(regions) == regions[0].size() + regions[1].size()
            + regions[2].size(),
    decreases regions.len(),
{
    if regions.len() > 1 {
        lemma_capacity_of_few(regions.drop_last());
    } else {
        assert(capacity(regions.drop_last()) == 0);
    }
}

/// Under the layout that the protocol in force relies on, the usable regions
/// are ordered and hold `usable_bytes` bytes.
pub proof fn lemma_usable_regions(boot: BootContext)
    requires
        boot.limit != 0,
        boot.layout(),
    ensures
        ordered(boot.usable_regions()),
        capacity(boot.usable_regions()) == boot.usable_bytes(),
        0 < boot.usable_bytes() <= usize::MAX,
{
    lemma_capacity_of_few(boot.usable_regions());
    lemma_align_down(boot.boot_info_address as int, BASE_PAGE_SIZE as int);
}

/// Detects the usable memory of a kernel that the minimal hypervisor started
/// directly: everything from the end of the kernel image up to the limit.
pub fn detect_from_uhyve(boot: &BootContext) -> (result: Result<UsableMemory, ()>)
    requires
        boot.direct_boot_applies() ==> boot.direct_layout(),
    ensures
        result is Ok <==> boot.direct_boot_applies(),
        result matches Ok(memory) ==> {
            &&& memory.regions@ == boot.direct_regions()
            &&& memory.total == boot.limit - boot.kernel_end_address
            &&& memory.total == capacity(memory.regions@)
            &&& ordered(memory.regions@)
        },
{
    if !boot.uhyve {
        return Err(());
    }
    let limit: usize = boot.limit;
    if limit == 0 {
        return Err(());
    }
    let entry = FreeListEntry { start: boot.kernel_end_address, end: limit };
    let total: usize = limit - boot.kernel_end_address;
    let mut regions: Vec<FreeListEntry> = Vec::new();
    regions.push(entry);
    proof {
        assert(regions@ =~= boot.direct_regions());
        lemma_capacity_of_few(regions@);
    }
    Ok(UsableMemory { regions, total })
}

/// Detects the usable memory after an emulated boot: RAM without the page of
/// the boot information, the reserved stack and the kernel image.  The total
/// is the sum over all three regions.
pub fn detect_from_qemu(boot: &BootContext) -> (result: Result<UsableMemory, ()>)
    requires
        boot.emulated_boot_applies() ==> boot.emulated_layout(),
    ensures
        result is Ok <==> boot.emulated_boot_applies(),
        result matches Ok(memory) ==> {
            &&& memory.regions@ == boot.emulated_regions()
            &&& memory.total == (boot.boot_info_page() - boot.ram_address) + (boot.stack_base() - (
            boot.boot_info_page() + BASE_PAGE_SIZE)) + (boot.limit - boot.kernel_end_address)
            &&& memory.total == capacity(memory.regions@)
            &&& ordered(memory.regions@)
        },
{
    let limit: usize = boot.limit;
    if limit == 0 {
        return Err(());
    }
    proof {
        lemma_align_down(boot.boot_info_address as int, BASE_PAGE_SIZE as int);
    }
    let boot_info: usize = align_down(boot.boot_info_address, BASE_PAGE_SIZE);
    let stack_base: usize = boot.kernel_start_address - boot.kernel_stack_size;
    let mut regions: Vec<FreeListEntry> = Vec::new();

    let entry = FreeListEntry { start: boot.ram_address, end: boot_info };
    let mut total: usize = boot_info - boot.ram_address;
    regions.push(entry);

    let entry = FreeListEntry { start: boot_info + BASE_PAGE_SIZE, end: stack_base };
    total = total + (stack_base - boot_info - BASE_PAGE_SIZE);
    regions.push(entry);

    let entry = FreeListEntry { start: boot.kernel_end_address, end: limit };
    total = total + (limit - boot.kernel_end_address);
    regions.push(entry);

    proof {
        assert(regions@ =~= boot.emulated_regions());
        lemma_capacity_of_few(regions@);
    }
    Ok(UsableMemory { regions, total })
}

/// Detects the usable memory with the first protocol that applies: the
/// direct boot, else the emulated boot.
pub fn detect(boot: &BootContext) -> (result: Result<UsableMemory, ()>)
    requires
        boot.layout(),
    ensures
        result is Ok <==> boot.limit != 0,
        result matches Ok(memory) ==> {
            &&& memory.regions@ == boot.usable_regions()
            &&& memory.total == boot.usable_bytes()
            &&& memory.total == capacity(memory.regions@)
            &&& ordered(memory.regions@)
        },
{
    proof {
        if boot.limit != 0 {
            lemma_usable_regions(*boot);
        }
    }
    match detect_from_uhyve(boot) {
        Ok(memory) => Ok(memory),
        Err(_) => detect_from_qemu(boot),
    }
}

} // verus!
