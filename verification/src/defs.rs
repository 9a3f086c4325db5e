use vstd::prelude::*;

verus! {

/// Size of a page.
pub const PAGE_SIZE: u64 = 4096;

/// Start of the identity-mapped physical memory that the kernel owns (256 GB).
pub const PHY_LOWER_ADDR: u64 = 0x40_0000_0000;

/// End of the identity-mapped physical memory that the kernel owns (512 GB).
pub const PHY_UPPER_ADDR: u64 = 0x80_0000_0000;

/// Top of the lower (user) half of the canonical address space.
pub const LOWER_TOP: u64 = 0x0000_8000_0000_0000;

/// First entry of the first level-3 table that maps kernel memory.
pub const KERNEL_START_P2_ENTRY: u64 = 256;

/// One past the last entry of the first level-3 table that maps kernel memory.
pub const KERNEL_END_P2_ENTRY: u64 = 512;

/// Address of the page that the hypervisor watches for io events; it is
/// identity-mapped into every address space.
pub const KVM_IOEVENTFD_BASEADDR: u64 = 0;

/// Virtual address of the legacy vsyscall page.
pub const VSYSCALL_ADDR: u64 = 0xffff_ffff_ff60_0000;

/// Number of pages that back the vsyscall mapping (three tables and the page).
pub const VSYSCALL_PAGE_COUNT: u64 = 4;

/// Errors of the library.
#[derive(Debug, PartialEq, Eq)]
pub enum Error {
    /// A failure described by a message.
    Common(String),
    /// The address is not mapped.
    AddressNotMap(u64),
    /// No page could be allocated.
    NoEnoughMemory,
    /// An address that must be page aligned is not.
    UnallignedAddress,
    /// An address range is empty, reversed or outside what may be touched.
    AddressNotInRange,
    /// An argument names no valid object.
    InvalidInput,
}

} // verus!
