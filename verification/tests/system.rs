use lumina_mm::devices::{maybe_create_device, DeviceManager, DeviceType, DtbNode};
use lumina_mm::kernel::{init_kernel, BootLayout, UART_BASE_ADDR};
use lumina_mm::pte::{physical_addr_to_ppn, PageTableEntry, PageTableEntryFlag};

#[test]
fn pte_bit_layout() {
    let mut e = PageTableEntry::new();
    assert!(!e.is_valid());
    assert!(!e.is_leaf());
    e.set_address(0x8020_0000, lumina_mm::flags::READ_WRITE);
    assert!(e.is_valid());
    assert!(e.is_leaf());
    assert_eq!(e.get_ppn(), 0x8020_0000 >> 12);
    assert!(e.has_flags(lumina_mm::flags::READABLE));
    assert!(!e.has_flags(lumina_mm::flags::EXECUTABLE));
    e.set_flags(lumina_mm::flags::EXECUTABLE);
    assert!(e.has_flags(lumina_mm::flags::EXECUTABLE));
    e.clear_flags(lumina_mm::flags::EXECUTABLE);
    assert!(!e.has_flags(lumina_mm::flags::EXECUTABLE));
    e.set_flag(PageTableEntryFlag::Dirty, true);
    assert!(e.get_flag(PageTableEntryFlag::Dirty));
    e.set_flag(PageTableEntryFlag::Dirty, false);
    assert!(!e.get_flag(PageTableEntryFlag::Dirty));
    e.set_ppn(0x123);
    assert_eq!(e.get_ppn(), 0x123);
    e.clear();
    assert!(!e.is_valid());
    assert_eq!(physical_addr_to_ppn(0x8020_0042).0, 0x8020_0042 >> 12);
}

#[test]
fn recognized_nodes_become_devices() {
    let mut dm = DeviceManager::new();
    maybe_create_device("uart0", "/soc/uart0", &mut dm);
    maybe_create_device("virtio", "/soc/virtio@10008000", &mut dm);
    maybe_create_device("plic", "/soc/plic", &mut dm);
    maybe_create_device("clint", "/soc/clint", &mut dm);
    maybe_create_device("cpu0", "/cpus/cpu0", &mut dm);
    maybe_create_device("memory", "/memory", &mut dm);
    maybe_create_device("chosen", "/chosen", &mut dm);
    assert_eq!(dm.num_devices(), 6);
    assert_eq!(dm.devices[0].device_type, DeviceType::Uart);
    assert_eq!(dm.devices[0].name, "/soc/uart0");
    assert_eq!(dm.devices[0].memory_regions[0].base, 0x10000000);
    assert_eq!(dm.devices[0].memory_regions[0].size, 0x100);
    assert_eq!(dm.devices[0].interrupts[0].irq, 10);
    assert_eq!(dm.devices[1].device_type, DeviceType::Block);
    // The block device's region base comes from the `@address` suffix.
    assert_eq!(dm.devices[1].memory_regions[0].base, 0x10008000);
    assert_eq!(dm.devices[1].interrupts[0].irq, 1);
    assert_eq!(dm.devices[2].device_type, DeviceType::Interrupt);
    assert_eq!(dm.devices[2].memory_regions[0].base, 0x0c000000);
    assert_eq!(dm.devices[3].device_type, DeviceType::Timer);
    assert_eq!(dm.devices[3].memory_regions[0].base, 0x02000000);
    assert_eq!(dm.devices[4].device_type, DeviceType::Cpu);
    assert_eq!(dm.devices[5].device_type, DeviceType::Memory);
}

#[test]
fn block_device_without_address_gets_default_region() {
    let mut dm = DeviceManager::new();
    maybe_create_device("virtio", "/soc/virtio", &mut dm);
    maybe_create_device("virtio", "/soc/virtio@nothex", &mut dm);
    assert_eq!(dm.devices[0].memory_regions[0].base, 0x10001000);
    assert_eq!(dm.devices[1].memory_regions[0].base, 0x10001000);
}

#[test]
fn discovery_walks_the_node_list() {
    let mut dm = DeviceManager::new();
    let nodes = vec![
        DtbNode { name: String::from("uart0"), path: String::from("/soc/uart0") },
        DtbNode { name: String::from("chosen"), path: String::from("/chosen") },
        DtbNode { name: String::from("clint"), path: String::from("/soc/clint") },
    ];
    dm.discover_devices(&nodes);
    assert_eq!(dm.num_devices(), 2);
}

#[test]
fn device_records_accumulate() {
    let mut d = lumina_mm::devices::Device::new("/soc/x", DeviceType::Unknown);
    d.add_compatible("acme,frob");
    d.add_memory_region(0x1000, 0x100);
    d.add_interrupt(7, 1);
    assert_eq!(d.compatible.len(), 1);
    assert_eq!(d.memory_regions.len(), 1);
    assert_eq!(d.interrupts.len(), 1);
    assert!(!d.initialized);
}

#[test]
fn bootstrap_sequence_maps_kernel_and_uart() {
    let layout = BootLayout {
        memory_start: 0x8000_0000,
        memory_end: 0x8020_0000,
        first_frame: 0x8400_0000,
        heap_start: 0x8800_0000,
        heap_size: 0x10000,
    };
    let boot = init_kernel(&layout);
    let ps = &boot.kernel.page_system;
    assert_eq!(ps.translate(0x8000_0000), Some(0x8000_0000));
    assert_eq!(ps.translate(0x8010_1234), Some(0x8010_1234));
    assert_eq!(ps.translate(0x801f_ffff), Some(0x801f_ffff));
    assert_eq!(ps.translate(UART_BASE_ADDR), Some(UART_BASE_ADDR));
    assert_eq!(ps.translate(UART_BASE_ADDR + 0x42), Some(UART_BASE_ADDR + 0x42));
    assert_eq!(boot.satp, (8u64 << 60) | (0x8400_0000u64 >> 12));
    assert!(boot.allocator.initialized);
    assert_eq!(boot.kernel.device_manager.devices.len(), 0);
}
