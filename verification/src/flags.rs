//! Page-table entry flag bits for RISC-V Sv39 paging.

use vstd::prelude::*;

verus! {

/// Entry is valid (V=1)
pub const VALID: u64 = 0x01;
/// Page is readable (R=1)
pub const READABLE: u64 = 0x02;
/// Page is writable (W=1)
pub const WRITABLE: u64 = 0x04;
/// Page is executable (X=1)
pub const EXECUTABLE: u64 = 0x08;
/// Accessible in user mode (U=1)
pub const USER: u64 = 0x10;
/// Global mapping (G=1), present in all address spaces
pub const GLOBAL: u64 = 0x20;
/// Page has been accessed (A=1)
pub const ACCESSED: u64 = 0x40;
/// Page has been modified (D=1)
pub const DIRTY: u64 = 0x80;

/// Read-write access (valid + readable + writable)
pub const READ_WRITE: u64 = VALID | READABLE | WRITABLE;
/// Read-execute access (valid + readable + executable)
pub const READ_EXECUTE: u64 = VALID | READABLE | EXECUTABLE;
/// Full access (valid + readable + writable + executable)
pub const READ_WRITE_EXECUTE: u64 = VALID | READABLE | WRITABLE | EXECUTABLE;
/// User read-write access
pub const USER_RW: u64 = READ_WRITE | USER;
/// User read-execute access
pub const USER_RX: u64 = READ_EXECUTE | USER;

} // verus!
