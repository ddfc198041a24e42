//! Bootstrap sequencer: drives the memory subsystem up in its strict order.
//!
//! (1) create and initialize the paging system; (2) map the kernel image
//! range with the largest page size possible at each step; (3) map the
//! fixed UART device page; (4) compute the translation-root register value
//! for activation; (5) initialize the global allocator facade over the heap
//! region; (6) hand an empty device manager to the device-discovery
//! collaborator. The boot environment performs the actual register write
//! and the device-tree walk; everything it needs comes out in `KernelBoot`.

use vstd::prelude::*;

use crate::devices::DeviceManager;
use crate::global::{global_wf, GlobalAllocator};
use crate::paging::{round_up_4k, translate_spec, wf, PageSystem, PAGE_SIZE, PA_LIMIT, VA_LIMIT};

verus! {

/// Base address of the UART data register, a fixed platform address.
pub const UART_BASE_ADDR: u64 = 0x1000_0000;

/// The kernel's long-lived subsystems.
pub struct Kernel {
    pub page_system: PageSystem,
    pub device_manager: DeviceManager,
}

/// Linker-provided configuration: named addresses supplied by the
/// surrounding bootstrap environment, consumed here, never computed.
pub struct BootLayout {
    /// Start of the kernel image.
    pub memory_start: u64,
    /// End of the kernel image.
    pub memory_end: u64,
    /// First physical frame the paging system may hand out.
    pub first_frame: u64,
    /// Start of the heap region.
    pub heap_start: usize,
    /// Size of the heap region in bytes.
    pub heap_size: usize,
}

/// A boot layout the sequencer can realize: aligned addresses, the kernel
/// image inside the virtual space, the device page outside the image, and
/// room in physical memory for the tables the mappings need.
pub open spec fn layout_wf(l: BootLayout) -> bool {
    &&& l.memory_start % PAGE_SIZE == 0
    &&& l.memory_start <= l.memory_end <= VA_LIMIT
    &&& l.memory_start + (round_up_4k(l.memory_end) - l.memory_start) <= PA_LIMIT
    &&& (round_up_4k(l.memory_end) <= UART_BASE_ADDR || UART_BASE_ADDR + PAGE_SIZE
        <= l.memory_start)
    &&& l.first_frame % PAGE_SIZE == 0
    &&& l.first_frame + PAGE_SIZE + 2 * (round_up_4k(l.memory_end) - l.memory_start) + 2
        * PAGE_SIZE <= PA_LIMIT
    &&& l.heap_start + l.heap_size <= usize::MAX
}

/// Everything `init_kernel` hands back to the boot environment.
pub struct KernelBoot {
    /// The kernel with its initialized paging system and the (still empty)
    /// device manager awaiting discovery.
    pub kernel: Kernel,
    /// The value to program into the hardware translation-root register.
    pub satp: u64,
    /// The initialized global allocator facade.
    pub allocator: GlobalAllocator,
}

/// Initialize the kernel: builds the page tables, identity-maps the kernel
/// image (2MiB pages where alignment allows) and the UART page, computes
/// the activation value, and initializes the allocator facade over the
/// heap region.
pub fn init_kernel(layout: &BootLayout) -> (r: KernelBoot)
    requires
        layout_wf(*layout),
    ensures
        wf(r.kernel.page_system),
        r.kernel.page_system.root_page_table is Some,
        forall|va: u64|
            layout.memory_start <= va < layout.memory_end ==> translate_spec(
                r.kernel.page_system,
                va,
            ) == Some(va),
        forall|va: u64|
            UART_BASE_ADDR <= va < UART_BASE_ADDR + PAGE_SIZE ==> translate_spec(
                r.kernel.page_system,
                va,
            ) == Some(va),
        r.satp == (8u64 << 60) | (crate::paging::root_addr(r.kernel.page_system) >> 12),
        global_wf(r.allocator),
        r.allocator.initialized,
        // The facade covers exactly the layout's heap region, carved into
        // its free lists.
        r.allocator.allocator.initialized,
        r.allocator.allocator.memory_start == layout.heap_start,
        r.allocator.allocator.memory_size == layout.heap_size,
        crate::buddy::lists(r.allocator.allocator) == crate::buddy::carve_region(
            crate::buddy::empty_free_lists(),
            layout.heap_start as int,
            layout.heap_size as int,
        ),
        r.kernel.device_manager.devices@.len() == 0,
{
    proof {
        assert(crate::flags::READ_WRITE_EXECUTE < 0x100 && crate::flags::READ_WRITE_EXECUTE
            & crate::flags::VALID != 0 && crate::flags::READ_WRITE_EXECUTE & (
        crate::flags::READABLE | crate::flags::WRITABLE | crate::flags::EXECUTABLE) != 0
            && crate::flags::READ_WRITE < 0x100 && crate::flags::READ_WRITE & crate::flags::VALID
            != 0) by (bit_vector);
    }
    // Phase 1: initialize the paging system.
    let mut page_system = PageSystem::new(layout.first_frame);
    page_system.init();
    // Phase 2: map the kernel image, preferring 2MiB pages.
    let res_range = page_system.map_range_optimized(
        layout.memory_start,
        layout.memory_end,
        layout.memory_start,
        crate::flags::READ_WRITE_EXECUTE,
    );
    proof {
        assert(res_range is Ok);
    }
    // Phase 3: map the UART device page.
    let ghost s_mid = page_system;
    let res_uart = page_system.map_page(
        UART_BASE_ADDR,
        UART_BASE_ADDR,
        crate::flags::READ_WRITE,
    );
    proof {
        assert(res_uart is Ok);
        assert forall|va: u64|
            layout.memory_start <= va < layout.memory_end implies translate_spec(
            page_system,
            va,
        ) == Some(va) by {
            assert(va >> 12 != UART_BASE_ADDR >> 12) by {
                crate::paging::lemma_page_of_aligned(va, UART_BASE_ADDR);
            }
            assert(translate_spec(s_mid, va) == Some(
                (layout.memory_start + (va - layout.memory_start)) as u64,
            ));
        }
        assert forall|va: u64|
            UART_BASE_ADDR <= va < UART_BASE_ADDR + PAGE_SIZE implies translate_spec(
            page_system,
            va,
        ) == Some(va) by {
            crate::paging::lemma_page_of_aligned(va, UART_BASE_ADDR);
            assert(translate_spec(page_system, va) == Some(
                (UART_BASE_ADDR + (va & 0xFFF)) as u64,
            ));
            assert(UART_BASE_ADDR + (va & 0xFFF) == va) by {
                crate::paging::lemma_page_of_aligned(va, UART_BASE_ADDR);
            }
        }
    }
    // Phase 4: the activation value for the hardware register.
    let satp = match page_system.satp_value() {
        Some(v) => v,
        None => 0,
    };
    // Phase 5: the global allocator over the heap region.
    let mut allocator = GlobalAllocator::new();
    allocator.init(layout.heap_start, layout.heap_size);
    // Phase 6: the device manager, ready for discovery.
    let device_manager = DeviceManager::new();
    KernelBoot { kernel: Kernel { page_system, device_manager }, satp, allocator }
}

} // verus!
