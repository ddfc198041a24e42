//! Boot-time memory subsystem of a bare-metal RISC-V kernel: Sv39 page-table
//! construction with create-on-demand population, a dual page-size (4KiB/2MiB)
//! mapping optimizer, a buddy-system heap allocator with split/merge logic,
//! the global-allocator facade over it, and the bootstrap sequencer that
//! drives them in order.
//!
//! Raw memory is represented by explicit side tables: page tables live in an
//! owned vector indexed by physical frame address, and free lists hold block
//! addresses directly instead of linking through the free memory itself.

pub mod flags;
pub mod pte;
pub mod paging;
pub mod buddy;
pub mod global;
pub mod heap;
pub mod devices;
pub mod kernel;
