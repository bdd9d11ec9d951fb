use physmem::address::PhysAddr;
use physmem::boot::BootContext;
use physmem::freelist::{AllocError, FreeListEntry, RegionInformation};
use physmem::physicalmem::{
    allocate, allocate_aligned, deallocate, init, init_page_tables, print_information,
    total_memory_size, PhysicalMemory,
};

fn direct() -> BootContext {
    BootContext {
        uhyve: true,
        limit: 0x1000_0000,
        boot_info_address: 0,
        ram_address: 0,
        kernel_start_address: 0x0080_0000,
        kernel_end_address: 0x0100_0000,
        kernel_stack_size: 0x8000,
    }
}

fn emulated() -> BootContext {
    BootContext {
        uhyve: false,
        limit: 0x8000_0000,
        boot_info_address: 0x4000_9040,
        ram_address: 0x4000_0000,
        kernel_start_address: 0x4020_0000,
        kernel_end_address: 0x4060_0000,
        kernel_stack_size: 0x8000,
    }
}

fn booted(boot: &BootContext) -> PhysicalMemory {
    let mut memory = PhysicalMemory::new();
    init(&mut memory, boot);
    memory
}

fn regions(memory: &PhysicalMemory) -> Vec<(usize, usize)> {
    memory.free_list().entries().iter().map(|entry| (entry.start, entry.end)).collect()
}

#[test]
fn new_manager_is_uninitialized() {
    let memory = PhysicalMemory::new();
    assert!(!memory.is_initialized());
    assert_eq!(total_memory_size(&memory), 0);
    assert_eq!(memory.free_list().len(), 0);
}

#[test]
fn init_direct_boot() {
    let memory = booted(&direct());
    assert!(memory.is_initialized());
    assert_eq!(total_memory_size(&memory), 0x1000_0000 - 0x0100_0000);
    assert_eq!(
        memory.free_list().entries(),
        &vec![FreeListEntry::new(0x0100_0000, 0x1000_0000)]
    );
    assert_eq!(memory.kernel_end_address(), 0x0100_0000);
}

#[test]
fn init_emulated_boot() {
    let memory = booted(&emulated());
    assert_eq!(
        regions(&memory),
        vec![
            (0x4000_0000, 0x4000_9000),
            (0x4000_a000, 0x401f_8000),
            (0x4060_0000, 0x8000_0000),
        ]
    );
    assert_eq!(total_memory_size(&memory), 0x9000 + 0x1e_e000 + 0x3fa0_0000);
    assert_eq!(total_memory_size(&memory), memory.free_list().free_capacity());
    assert_eq!(memory.kernel_end_address(), 0x4060_0000);
}

#[test]
fn init_page_tables_does_nothing() {
    init_page_tables();
}

#[test]
fn allocate_returns_page_aligned_addresses() {
    let mut memory = booted(&direct());
    assert_eq!(allocate(&mut memory, 0x1000), Ok(PhysAddr(0x0100_0000)));
    assert_eq!(allocate(&mut memory, 0x3000), Ok(PhysAddr(0x0100_1000)));
    assert_eq!(allocate(&mut memory, 0x1000), Ok(PhysAddr(0x0100_4000)));
    assert_eq!(regions(&memory), vec![(0x0100_5000, 0x1000_0000)]);
}

#[test]
fn allocate_aligns_after_an_unaligned_kernel_end() {
    let mut memory = booted(&BootContext { kernel_end_address: 0x0100_0800, ..direct() });
    let address = allocate(&mut memory, 0x2000).unwrap();
    assert_eq!(address, PhysAddr(0x0100_1000));
    assert_eq!(address.as_u64() % 0x1000, 0);
    assert_eq!(regions(&memory), vec![(0x0100_0800, 0x0100_1000), (0x0100_3000, 0x1000_0000)]);
}

#[test]
fn allocate_aligned_returns_multiples_of_the_alignment() {
    let mut memory = booted(&direct());
    assert_eq!(allocate(&mut memory, 0x1000), Ok(PhysAddr(0x0100_0000)));
    let address = allocate_aligned(&mut memory, 0x20_0000, 0x20_0000).unwrap();
    assert_eq!(address, PhysAddr(0x0120_0000));
    assert_eq!(address.as_usize() % 0x20_0000, 0);
    assert_eq!(regions(&memory), vec![(0x0100_1000, 0x0120_0000), (0x0140_0000, 0x1000_0000)]);
}

#[test]
fn allocate_everything_then_out_of_memory() {
    let mut memory = booted(&direct());
    assert_eq!(allocate(&mut memory, 0x0f00_0000), Ok(PhysAddr(0x0100_0000)));
    assert_eq!(memory.free_list().len(), 0);
    assert_eq!(allocate(&mut memory, 0x1000), Err(AllocError));
    assert_eq!(allocate_aligned(&mut memory, 0x2000, 0x2000), Err(AllocError));
}

#[test]
fn allocate_more_than_free_is_out_of_memory() {
    let mut memory = booted(&direct());
    assert_eq!(allocate(&mut memory, 0x0f00_1000), Err(AllocError));
    assert_eq!(allocate_aligned(&mut memory, 0x1000_0000, 0x1000), Err(AllocError));
    assert_eq!(regions(&memory), vec![(0x0100_0000, 0x1000_0000)]);
}

#[test]
fn allocate_serves_the_lowest_region_first() {
    let mut memory = booted(&emulated());
    assert_eq!(allocate(&mut memory, 0x9000), Ok(PhysAddr(0x4000_0000)));
    assert_eq!(allocate(&mut memory, 0x1000), Ok(PhysAddr(0x4000_a000)));
    assert_eq!(allocate(&mut memory, 0x20_0000), Ok(PhysAddr(0x4060_0000)));
}

#[test]
fn deallocate_returns_a_block() {
    let mut memory = booted(&direct());
    let first = allocate(&mut memory, 0x2000).unwrap();
    let second = allocate(&mut memory, 0x1000).unwrap();
    deallocate(&mut memory, first, 0x2000);
    assert_eq!(regions(&memory), vec![(0x0100_0000, 0x0100_2000), (0x0100_3000, 0x1000_0000)]);
    deallocate(&mut memory, second, 0x1000);
    assert_eq!(regions(&memory), vec![(0x0100_0000, 0x1000_0000)]);
}

#[test]
fn deallocate_adjacent_blocks_merges_them() {
    let mut memory = booted(&direct());
    assert_eq!(allocate(&mut memory, 0x0f00_0000), Ok(PhysAddr(0x0100_0000)));
    deallocate(&mut memory, PhysAddr(0x0200_0000), 0x1000);
    deallocate(&mut memory, PhysAddr(0x0200_1000), 0x3000);
    assert_eq!(regions(&memory), vec![(0x0200_0000, 0x0200_4000)]);
    deallocate(&mut memory, PhysAddr(0x01ff_e000), 0x2000);
    assert_eq!(regions(&memory), vec![(0x01ff_e000, 0x0200_4000)]);
}

#[test]
fn deallocate_then_allocate_reuses_the_block() {
    let mut memory = booted(&direct());
    let block = allocate(&mut memory, 0x4000).unwrap();
    let keep = allocate(&mut memory, 0x1000).unwrap();
    assert_eq!(keep, PhysAddr(0x0100_4000));
    let count = memory.free_list().len();
    deallocate(&mut memory, block, 0x4000);
    assert_eq!(allocate(&mut memory, 0x4000), Ok(block));
    assert!(memory.free_list().len() <= count);
}

#[test]
fn free_and_allocated_bytes_add_up_to_the_total() {
    let mut memory = booted(&emulated());
    let total = total_memory_size(&memory);
    let a = allocate(&mut memory, 0x5000).unwrap();
    let b = allocate_aligned(&mut memory, 0x40_0000, 0x20_0000).unwrap();
    let c = allocate(&mut memory, 0x1000).unwrap();
    assert_eq!(memory.free_list().free_capacity() + 0x5000 + 0x40_0000 + 0x1000, total);
    assert_eq!(b, PhysAddr(0x4060_0000));
    deallocate(&mut memory, b, 0x40_0000);
    assert_eq!(memory.free_list().free_capacity() + 0x5000 + 0x1000, total);
    assert_eq!(total_memory_size(&memory), total);
    assert_eq!((a, c), (PhysAddr(0x4000_0000), PhysAddr(0x4000_5000)));
}

#[test]
fn print_information_has_the_heading_of_physical_memory() {
    let mut memory = booted(&direct());
    allocate(&mut memory, 0x1000).unwrap();
    let information = print_information(&memory);
    assert_eq!(information.header, " PHYSICAL MEMORY FREE LIST ");
    assert_eq!(
        information.regions,
        vec![RegionInformation { start: 0x0100_1000, end: 0x1000_0000, size: 0x0eff_f000 }]
    );
    assert_eq!(regions(&memory), vec![(0x0100_1000, 0x1000_0000)]);
}

#[test]
fn physical_addresses_are_ordered_by_value() {
    assert!(PhysAddr(0x1000) < PhysAddr(0x2000));
    assert!(PhysAddr(0x2000) >= PhysAddr(0x2000));
    assert_eq!(PhysAddr(0x1234).as_u64(), 0x1234);
    assert_eq!(PhysAddr(0x1234).as_usize(), 0x1234);
}
