use vstd::prelude::*;
use x86_64::VirtAddr;

verus! {

/// Entry bit: the entry is present.
pub const PRESENT: u64 = 1;
/// Entry bit: writes are allowed.
pub const WRITABLE: u64 = 2;
/// Entry bit: user mode may access.
pub const USER_ACCESSIBLE: u64 = 4;
/// Entry bit: the translation is global.
pub const GLOBAL: u64 = 0x100;

/// Whether a virtual address is accepted by `VirtAddr::new`: bits 47..64 are
/// all zero, all one, or only bit 47 is set.
pub open spec fn vaddr_acceptable(vaddr: u64) -> bool {
    let high = vaddr >> 47u64;
    high == 0 || high == 1 || high == 0x1ffff
}

/// The level-4 (root) table index of `vaddr`.
pub open spec fn p4_of(vaddr: u64) -> u64 {
    (vaddr >> 39u64) & 0x1ffu64
}

/// The level-3 table index of `vaddr`.
pub open spec fn p3_of(vaddr: u64) -> u64 {
    (vaddr >> 30u64) & 0x1ffu64
}

/// The level-2 table index of `vaddr`.
pub open spec fn p2_of(vaddr: u64) -> u64 {
    (vaddr >> 21u64) & 0x1ffu64
}

/// The level-1 table index of `vaddr`.
pub open spec fn p1_of(vaddr: u64) -> u64 {
    (vaddr >> 12u64) & 0x1ffu64
}

/// Calls `x86_64::VirtAddr::p4_index`: the index is bits 39..48 of the
/// address (sign extension in `VirtAddr::new` only rewrites bits 48..64).
/// `VirtAddr::new` panics on other addresses, hence the `requires`.
#[verifier::external_body]
pub(crate) fn p4_index(vaddr: u64) -> (r: u64)
    requires
        vaddr_acceptable(vaddr),
    ensures
        r == p4_of(vaddr),
{
    u16::from(VirtAddr::new(vaddr).p4_index()) as u64
}

/// Calls `x86_64::VirtAddr::p3_index`: bits 30..39 of the address.
#[verifier::external_body]
pub(crate) fn p3_index(vaddr: u64) -> (r: u64)
    requires
        vaddr_acceptable(vaddr),
    ensures
        r == p3_of(vaddr),
{
    u16::from(VirtAddr::new(vaddr).p3_index()) as u64
}

/// Calls `x86_64::VirtAddr::p2_index`: bits 21..30 of the address.
#[verifier::external_body]
pub(crate) fn p2_index(vaddr: u64) -> (r: u64)
    requires
        vaddr_acceptable(vaddr),
    ensures
        r == p2_of(vaddr),
{
    u16::from(VirtAddr::new(vaddr).p2_index()) as u64
}

/// Calls `x86_64::VirtAddr::p1_index`: bits 12..21 of the address.
#[verifier::external_body]
pub(crate) fn p1_index(vaddr: u64) -> (r: u64)
    requires
        vaddr_acceptable(vaddr),
    ensures
        r == p1_of(vaddr),
{
    u16::from(VirtAddr::new(vaddr).p1_index()) as u64
}

/// The raw entry that `PageTableEntry::set_addr` writes: address bits or'ed
/// with the flag bits.
pub open spec fn make_entry(addr: u64, flags: u64) -> u64 {
    addr | flags
}

/// Whether `PageTableEntry::set_addr` accepts `addr`: page aligned and
/// without bits 52..64 (`PhysAddr::new` panics otherwise).
pub open spec fn entry_addr_acceptable(addr: u64) -> bool {
    addr % 4096 == 0 && addr < 0x10_0000_0000_0000
}

/// Encodes a page-table entry pointing at `addr` with `flags`.
pub fn entry_with_addr(addr: u64, flags: u64) -> (e: u64)
    requires
        entry_addr_acceptable(addr),
    ensures
        e == make_entry(addr, flags),
{
    addr | flags
}

/// The physical address held by an entry (what `PageTableEntry::addr` returns).
pub open spec fn entry_addr(e: u64) -> u64 {
    e & 0x000f_ffff_ffff_f000u64
}

/// Decodes the physical address of an entry.
pub fn addr_of_entry(e: u64) -> (a: u64)
    ensures
        a == entry_addr(e),
{
    e & 0x000f_ffff_ffff_f000u64
}

/// Decoding an entry built from an acceptable address and flags that stay
/// out of the address bits gives the address back.
pub proof fn lemma_entry_roundtrip(addr: u64, flags: u64)
    requires
        entry_addr_acceptable(addr),
        flags & 0x000f_ffff_ffff_f000u64 == 0,
    ensures
        entry_addr(make_entry(addr, flags)) == addr,
        make_entry(addr, flags) != 0 <== (addr != 0 || flags != 0),
{
    assert(((addr | flags) & 0x000f_ffff_ffff_f000u64) == addr) by (bit_vector)
        requires
            addr % 4096 == 0,
            addr < 0x10_0000_0000_0000,
            flags & 0x000f_ffff_ffff_f000u64 == 0,
    ;
    assert((addr != 0 || flags != 0) ==> (addr | flags) != 0) by (bit_vector);
}

/// The options of a mapping: the flag bits of its leaf entry.
#[derive(Clone, Copy, Debug, PartialEq, Eq)]
pub struct PageOpts(pub u64);

impl PageOpts {
    /// Kernel mapping: present, writable, global.
    pub fn Kernel() -> (o: PageOpts)
        ensures
            o.0 == PRESENT | WRITABLE | GLOBAL,
    {
        PageOpts(PRESENT | WRITABLE | GLOBAL)
    }

    /// User mapping that can be read and written.
    pub fn UserReadWrite() -> (o: PageOpts)
        ensures
            o.0 == PRESENT | WRITABLE | USER_ACCESSIBLE,
    {
        PageOpts(PRESENT | WRITABLE | USER_ACCESSIBLE)
    }

    /// User mapping that can only be read (or executed).
    pub fn UserReadOnly() -> (o: PageOpts)
        ensures
            o.0 == PRESENT | USER_ACCESSIBLE,
    {
        PageOpts(PRESENT | USER_ACCESSIBLE)
    }

    /// User mapping that is kept but not present: any access faults.
    pub fn UserNonAccessable() -> (o: PageOpts)
        ensures
            o.0 == USER_ACCESSIBLE,
    {
        PageOpts(USER_ACCESSIBLE)
    }

    /// Kernel mapping that can be read and written.
    pub fn KernelReadWrite() -> (o: PageOpts)
        ensures
            o.0 == PRESENT | WRITABLE,
    {
        PageOpts(PRESENT | WRITABLE)
    }

    /// Kernel mapping that can only be read.
    pub fn KernelReadOnly() -> (o: PageOpts)
        ensures
            o.0 == PRESENT,
    {
        PageOpts(PRESENT)
    }

    /// The flag bits.
    pub fn Val(&self) -> (v: u64)
        ensures
            v == self.0,
    {
        self.0
    }
}

/// The kinds of access a mapping must allow.
#[derive(Clone, Copy, Debug, PartialEq, Eq)]
pub struct AccessType {
    pub read: bool,
    pub write: bool,
    pub execute: bool,
}

impl AccessType {
    /// An access type from its three permissions.
    pub fn New(read: bool, write: bool, execute: bool) -> (at: AccessType)
        ensures
            at.read == read,
            at.write == write,
            at.execute == execute,
    {
        AccessType { read, write, execute }
    }

    /// Whether reads are allowed.
    pub fn Read(&self) -> (r: bool)
        ensures
            r == self.read,
    {
        self.read
    }

    /// Whether writes are allowed.
    pub fn Write(&self) -> (r: bool)
        ensures
            r == self.write,
    {
        self.write
    }

    /// Whether execution is allowed.
    pub fn Exec(&self) -> (r: bool)
        ensures
            r == self.execute,
    {
        self.execute
    }
}

/// The entry flags that a mapping with access `at` gets: for user mappings
/// writable if written, read-only if only read or executed, else kept but not
/// accessible; for kernel mappings writable if written, else read-only.
pub open spec fn opts_for_access(user: bool, at: AccessType) -> u64 {
    if user {
        if at.write {
            PRESENT | WRITABLE | USER_ACCESSIBLE
        } else if at.read || at.execute {
            PRESENT | USER_ACCESSIBLE
        } else {
            USER_ACCESSIBLE
        }
    } else {
        if at.write {
            PRESENT | WRITABLE
        } else {
            PRESENT
        }
    }
}

/// Chooses the options of a mapping from the access it must allow.
pub fn PageOptsForAccess(user: bool, at: &AccessType) -> (o: PageOpts)
    ensures
        o.0 == opts_for_access(user, *at),
{
    if user {
        if at.Write() {
            PageOpts::UserReadWrite()
        } else if at.Read() || at.Exec() {
            PageOpts::UserReadOnly()
        } else {
            PageOpts::UserNonAccessable()
        }
    } else {
        if at.Write() {
            PageOpts::KernelReadWrite()
        } else {
            PageOpts::KernelReadOnly()
        }
    }
}

} // verus!
