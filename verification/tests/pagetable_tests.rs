use quark::block_alloc::POOL_BASE;
use quark::defs::{Error, KVM_IOEVENTFD_BASEADDR, LOWER_TOP, PHY_LOWER_ADDR, PHY_UPPER_ADDR};
use quark::flags::{AccessType, PageOpts, PageOptsForAccess, GLOBAL, PRESENT, USER_ACCESSIBLE, WRITABLE};
use quark::pagetable::PageTables;
use quark::pma::PageMgr;
use quark::range::{IoVec, Range};
use x86_64::structures::paging::PageTableFlags;

const RW: u64 = 7;
const RO: u64 = 5;

fn fresh() -> (PageMgr, PageTables) {
    let mut mgr = PageMgr::New();
    let pt = PageTables::New(&mut mgr.pagepool).unwrap();
    (mgr, pt)
}

#[test]
fn flag_values_match_x86_64() {
    assert_eq!(PRESENT, PageTableFlags::PRESENT.bits());
    assert_eq!(WRITABLE, PageTableFlags::WRITABLE.bits());
    assert_eq!(USER_ACCESSIBLE, PageTableFlags::USER_ACCESSIBLE.bits());
    assert_eq!(GLOBAL, PageTableFlags::GLOBAL.bits());
}

#[test]
fn page_options_follow_access() {
    let w = AccessType::New(true, true, false);
    let r = AccessType::New(true, false, false);
    let x = AccessType::New(false, false, true);
    let none = AccessType::New(false, false, false);
    assert_eq!(PageOptsForAccess(true, &w).Val(), PageOpts::UserReadWrite().Val());
    assert_eq!(PageOptsForAccess(true, &r).Val(), PageOpts::UserReadOnly().Val());
    assert_eq!(PageOptsForAccess(true, &x).Val(), PageOpts::UserReadOnly().Val());
    assert_eq!(PageOptsForAccess(true, &none).Val(), PageOpts::UserNonAccessable().Val());
    assert_eq!(PageOptsForAccess(false, &w).Val(), PageOpts::KernelReadWrite().Val());
    assert_eq!(PageOptsForAccess(false, &r).Val(), PageOpts::KernelReadOnly().Val());
    assert_eq!(PageOptsForAccess(false, &none).Val(), PageOpts::KernelReadOnly().Val());
    assert_eq!(PageOpts::UserReadWrite().Val(), 7);
    assert_eq!(PageOpts::UserReadOnly().Val(), 5);
    assert_eq!(PageOpts::UserNonAccessable().Val(), 4);
    assert_eq!(PageOpts::KernelReadWrite().Val(), 3);
    assert_eq!(PageOpts::KernelReadOnly().Val(), 1);
    assert_eq!(PageOpts::Kernel().Val(), 0x103);
}

#[test]
fn new_table_has_zeroed_root() {
    let (mgr, pt) = fresh();
    assert_eq!(pt.GetRoot(), POOL_BASE);
    assert_eq!(mgr.GetRef(pt.GetRoot()), Ok(1));
    for i in 0..512 {
        assert_eq!(mgr.pagepool.ReadWord(pt.GetRoot(), i), 0);
    }
    assert_eq!(pt.VirtualToEntry(0x1000, &mgr), Err(Error::AddressNotMap(0x1000)));
}

#[test]
fn map_page_builds_four_levels() {
    let (mut mgr, mut pt) = fresh();
    // 0x8000_4020_3000: indices 1, 1, 1, 3.
    let va = 0x80_4020_3000u64;
    pt.MapPage(va, 0x5000, RW, &mut mgr).unwrap();
    assert_eq!(pt.VirtualToEntry(va, &mgr), Ok(0x5000 | RW));
    let root = pt.GetRoot();
    let l3 = POOL_BASE + 0x1000;
    let l2 = POOL_BASE + 0x2000;
    let l1 = POOL_BASE + 0x3000;
    assert_eq!(mgr.pagepool.ReadWord(root, 1), l3 | 7);
    assert_eq!(mgr.pagepool.ReadWord(l3, 1), l2 | 7);
    assert_eq!(mgr.pagepool.ReadWord(l2, 1), l1 | 7);
    assert_eq!(mgr.pagepool.ReadWord(l1, 3), 0x5000 | RW);
    assert_eq!(mgr.pagepool.ReadWord(root, 0), 0);
    // A neighbour reuses the tables.
    pt.MapPage(va + 0x1000, 0x9000, RO, &mut mgr).unwrap();
    assert_eq!(mgr.pagepool.ReadWord(l1, 4), 0x9000 | RO);
    assert_eq!(mgr.AllocPage(true), Ok(POOL_BASE + 0x4000));
}

#[test]
fn map_page_errors() {
    let (mut mgr, mut pt) = fresh();
    assert_eq!(pt.MapPage(0x1001, 0x5000, RW, &mut mgr), Err(Error::UnallignedAddress));
    assert_eq!(pt.MapPage(0x1000, 0x5001, RW, &mut mgr), Err(Error::UnallignedAddress));
    assert_eq!(pt.MapPage(PHY_LOWER_ADDR, 0x5000, RW, &mut mgr), Err(Error::AddressNotInRange));
    assert_eq!(pt.MapPage(LOWER_TOP, 0x5000, RW, &mut mgr), Err(Error::AddressNotInRange));
    assert_eq!(pt.MapPage(0x1000, 1u64 << 52, RW, &mut mgr), Err(Error::AddressNotInRange));
    assert_eq!(pt.VirtualToEntry(PHY_LOWER_ADDR, &mgr), Err(Error::AddressNotInRange));
}

#[test]
fn map_page_runs_out_of_pages() {
    let mut mgr = PageMgr::WithCapacity(3);
    let mut pt = PageTables::New(&mut mgr.pagepool).unwrap();
    assert_eq!(pt.MapPage(0x1000, 0x5000, RW, &mut mgr), Err(Error::NoEnoughMemory));
    assert_eq!(pt.VirtualToEntry(0x1000, &mgr), Err(Error::AddressNotMap(0x1000)));
}

#[test]
fn map_range_and_unmap() {
    let (mut mgr, mut pt) = fresh();
    pt.MapRange(0x10000, 0x13000, 0x200000, RW, &mut mgr, false).unwrap();
    assert_eq!(pt.VirtualToEntry(0x10000, &mgr), Ok(0x200000 | RW));
    assert_eq!(pt.VirtualToEntry(0x11000, &mgr), Ok(0x201000 | RW));
    assert_eq!(pt.VirtualToEntry(0x12000, &mgr), Ok(0x202000 | RW));
    assert_eq!(pt.VirtualToEntry(0x13000, &mgr), Err(Error::AddressNotMap(0x13000)));
    pt.Unmap(0x11000, 0x12000, &mut mgr).unwrap();
    assert_eq!(pt.VirtualToEntry(0x11000, &mgr), Err(Error::AddressNotMap(0x11000)));
    assert_eq!(pt.VirtualToEntry(0x12000, &mgr), Ok(0x202000 | RW));
    assert_eq!(pt.Unmap(0x12000, 0x11000, &mut mgr), Err(Error::AddressNotInRange));
    assert_eq!(pt.Unmap(0x12001, 0x13000, &mut mgr), Err(Error::UnallignedAddress));
    assert_eq!(pt.MapRange(0x2000, 0x1000, 0, RW, &mut mgr, true), Err(Error::AddressNotInRange));
    assert_eq!(
        pt.MapRange(PHY_LOWER_ADDR - 0x1000, PHY_LOWER_ADDR + 0x1000, 0, RW, &mut mgr, true),
        Err(Error::AddressNotInRange)
    );
    pt.MapRange(PHY_UPPER_ADDR, PHY_UPPER_ADDR + 0x1000, 0x7000, RO, &mut mgr, false).unwrap();
    assert_eq!(pt.VirtualToEntry(PHY_UPPER_ADDR, &mgr), Ok(0x7000 | RO));
}

#[test]
fn remap_moves_pages() {
    let (mut mgr, mut pt) = fresh();
    pt.MapRange(0x10000, 0x12000, 0x300000, RW, &mut mgr, false).unwrap();
    pt.Remap(0x40000, 0x43000, 0x10000, RO, &mut mgr).unwrap();
    assert_eq!(pt.VirtualToEntry(0x40000, &mgr), Ok(0x300000 | RO));
    assert_eq!(pt.VirtualToEntry(0x41000, &mgr), Ok(0x301000 | RO));
    assert_eq!(pt.VirtualToEntry(0x42000, &mgr), Err(Error::AddressNotMap(0x42000)));
    assert_eq!(pt.VirtualToEntry(0x10000, &mgr), Err(Error::AddressNotMap(0x10000)));
    assert_eq!(pt.VirtualToEntry(0x11000, &mgr), Err(Error::AddressNotMap(0x11000)));
}

#[test]
fn remap_with_overlap() {
    let (mut mgr, mut pt) = fresh();
    pt.MapRange(0x10000, 0x13000, 0x300000, RW, &mut mgr, false).unwrap();
    pt.Remap(0x11000, 0x14000, 0x10000, RW, &mut mgr).unwrap();
    assert_eq!(pt.VirtualToEntry(0x10000, &mgr), Err(Error::AddressNotMap(0x10000)));
    assert_eq!(pt.VirtualToEntry(0x11000, &mgr), Ok(0x300000 | RW));
    assert_eq!(pt.VirtualToEntry(0x12000, &mgr), Ok(0x301000 | RW));
    assert_eq!(pt.VirtualToEntry(0x13000, &mgr), Ok(0x302000 | RW));
}

#[test]
fn remap_ana_uses_access_options() {
    let (mut mgr, mut pt) = fresh();
    pt.MapRange(0x10000, 0x11000, 0x300000, RW, &mut mgr, false).unwrap();
    let range = Range::New(0x50000, 0x1000);
    pt.RemapAna(&range, 0x10000, &AccessType::New(true, false, false), true, &mut mgr).unwrap();
    assert_eq!(pt.VirtualToEntry(0x50000, &mgr), Ok(0x300000 | RO));
    assert_eq!(pt.VirtualToEntry(0x10000, &mgr), Err(Error::AddressNotMap(0x10000)));
    let bad = Range::New(0x60001, 0x1000);
    assert_eq!(
        pt.RemapAna(&bad, 0x50000, &AccessType::New(true, true, false), true, &mut mgr),
        Err(Error::UnallignedAddress)
    );
}

#[test]
fn map_host_maps_host_memory() {
    let (mut mgr, mut pt) = fresh();
    let iov = IoVec::New(0x7000_0000, 0x2000);
    pt.MapHost(0x20000, &iov, &AccessType::New(true, true, false), true, &mut mgr).unwrap();
    assert_eq!(pt.VirtualToEntry(0x20000, &mgr), Ok(0x7000_0000 | RW));
    assert_eq!(pt.VirtualToEntry(0x21000, &mgr), Ok(0x7000_1000 | RW));
    pt.MapHost(0x30000, &iov, &AccessType::New(true, false, false), false, &mut mgr).unwrap();
    assert_eq!(pt.VirtualToEntry(0x30000, &mgr), Ok(0x7000_0000 | PRESENT));
}

#[test]
fn remap_host_replaces_old_range() {
    let (mut mgr, mut pt) = fresh();
    pt.MapRange(0x10000, 0x12000, 0x300000, RW, &mut mgr, false).unwrap();
    let iov = IoVec::New(0x8000_0000, 0x1000);
    let old = Range::New(0x10000, 0x2000);
    pt.RemapHost(0x40000, &iov, &old, &AccessType::New(false, false, false), true, &mut mgr).unwrap();
    assert_eq!(pt.VirtualToEntry(0x40000, &mgr), Ok(0x8000_0000 | USER_ACCESSIBLE));
    assert_eq!(pt.VirtualToEntry(0x10000, &mgr), Err(Error::AddressNotMap(0x10000)));
    assert_eq!(pt.VirtualToEntry(0x11000, &mgr), Err(Error::AddressNotMap(0x11000)));
}

#[test]
fn munmap_removes_range() {
    let (mut mgr, mut pt) = fresh();
    pt.MapRange(0x10000, 0x13000, 0x300000, RW, &mut mgr, false).unwrap();
    pt.MUnmap(0x10000, 0x2000, &mut mgr).unwrap();
    assert_eq!(pt.VirtualToEntry(0x10000, &mgr), Err(Error::AddressNotMap(0x10000)));
    assert_eq!(pt.VirtualToEntry(0x11000, &mgr), Err(Error::AddressNotMap(0x11000)));
    assert_eq!(pt.VirtualToEntry(0x12000, &mgr), Ok(0x302000 | RW));
    assert_eq!(pt.MUnmap(0x10000, 0x10, &mut mgr), Err(Error::UnallignedAddress));
}

#[test]
fn print_zero_follows_entry_zero() {
    let (mut mgr, mut pt) = fresh();
    pt.MapPage(0, 0, PageOpts::Kernel().Val(), &mut mgr).unwrap();
    let (pud, pmd, pte) = pt.PrintZero(&mgr);
    assert_eq!(pud, POOL_BASE + 0x1000);
    assert_eq!(pmd, POOL_BASE + 0x2000);
    assert_eq!(pte, POOL_BASE + 0x3000);
}

#[test]
fn init_vsyscall_builds_path() {
    let (mut mgr, pt) = fresh();
    let mut pages = Vec::new();
    for _ in 0..4 {
        pages.push(mgr.AllocPage(true).unwrap());
    }
    pt.InitVsyscall(&pages, &mut mgr);
    let root = pt.GetRoot();
    assert_eq!(mgr.pagepool.ReadWord(root, 511), pages[3] | 5);
    assert_eq!(mgr.pagepool.ReadWord(pages[3], 511), pages[2] | 5);
    assert_eq!(mgr.pagepool.ReadWord(pages[2], 507), pages[1] | 5);
    assert_eq!(mgr.pagepool.ReadWord(pages[1], 0), pages[0] | 5);
}

#[test]
fn map_vsyscall_points_root_entry() {
    let (mut mgr, pt) = fresh();
    let pages = vec![0x1000u64, 0x2000, 0x3000, 0x4000];
    pt.MapVsyscall(&pages, &mut mgr);
    assert_eq!(mgr.pagepool.ReadWord(pt.GetRoot(), 511), 0x4000 | 5);
}

fn kernel_table(mgr: &mut PageMgr) -> PageTables {
    let mut kpt = PageTables::New(&mut mgr.pagepool).unwrap();
    kpt.MapPage(0x5000, 0x5000, PageOpts::Kernel().Val(), mgr).unwrap();
    kpt
}

#[test]
fn new_with_kernel_page_tables_shares_kernel_half() {
    let mut mgr = PageMgr::New();
    let kpt = kernel_table(&mut mgr);
    let kpud = POOL_BASE + 0x1000;
    let image = vec![0xc3u64];
    let pt = kpt.NewWithKernelPageTables(&mut mgr, &image).unwrap();
    assert_eq!(pt.GetRoot(), POOL_BASE + 0x4000);
    assert_eq!(
        pt.VirtualToEntry(KVM_IOEVENTFD_BASEADDR, &mgr),
        Ok(KVM_IOEVENTFD_BASEADDR | PageOpts::Kernel().Val())
    );
    assert_eq!(pt.VirtualToEntry(0x5000, &mgr), Err(Error::AddressNotMap(0x5000)));
    assert_eq!(kpt.VirtualToEntry(0x5000, &mgr), Ok(0x5000 | 0x103));
    let npud = POOL_BASE + 0x5000;
    assert_eq!(mgr.pagepool.ReadWord(pt.GetRoot(), 0), npud | 7);
    for i in 256..512 {
        assert_eq!(mgr.pagepool.ReadWord(npud, i), mgr.pagepool.ReadWord(kpud, i));
    }
    assert_eq!(mgr.vsyscallPages.len(), 4);
    assert_eq!(mgr.pagepool.ReadWord(pt.GetRoot(), 511), mgr.vsyscallPages[3] | 5);
    assert_eq!(mgr.pagepool.ReadWord(mgr.vsyscallPages[0], 0), 0xc3);
    let child = kpt.Fork(&mut mgr, &image).unwrap();
    assert_eq!(mgr.pagepool.ReadWord(child.GetRoot(), 511), mgr.vsyscallPages[3] | 5);
    assert_eq!(mgr.vsyscallPages.len(), 4);
}

#[test]
fn new_with_kernel_page_tables_needs_first_table() {
    let mut mgr = PageMgr::New();
    let kpt = PageTables::New(&mut mgr.pagepool).unwrap();
    let r = kpt.NewWithKernelPageTables(&mut mgr, &Vec::new());
    assert!(matches!(r, Err(Error::AddressNotMap(0))));
    let mut small = PageMgr::WithCapacity(5);
    let kpt = kernel_table(&mut small);
    let r = kpt.NewWithKernelPageTables(&mut small, &Vec::new());
    assert!(matches!(r, Err(Error::NoEnoughMemory)));
}

#[test]
fn unmap_all_and_drop_release_tables() {
    let (mut mgr, mut pt) = fresh();
    pt.MapPage(0, 0, PageOpts::Kernel().Val(), &mut mgr).unwrap();
    pt.MapRange(0x10000, 0x12000, 0x300000, RW, &mut mgr, false).unwrap();
    pt.MapRange(PHY_UPPER_ADDR, PHY_UPPER_ADDR + 0x1000, 0x7000, RW, &mut mgr, false).unwrap();
    let root = pt.GetRoot();
    let pud = POOL_BASE + 0x1000;
    assert_eq!(pt.UnmapAll(&mut mgr), Ok(()));
    assert_eq!(mgr.GetRef(root), Err(Error::InvalidInput));
    assert_eq!(mgr.GetRef(pud), Err(Error::InvalidInput));
    assert_eq!(pt.VirtualToEntry(0x10000, &mgr), Err(Error::AddressNotMap(0x10000)));

    let (mut mgr, mut pt) = fresh();
    pt.MapPage(0, 0, PageOpts::Kernel().Val(), &mut mgr).unwrap();
    let root = pt.GetRoot();
    mgr.Ref(root).unwrap();
    pt.Drop(&mut mgr);
    assert_eq!(pt.GetRoot(), 0);
    assert_eq!(mgr.GetRef(root), Ok(1));
    pt.drop(&mut mgr);
    assert_eq!(pt.GetRoot(), 0);
}

#[test]
fn drop_gives_back_lower_tables() {
    let (mut mgr, mut pt) = fresh();
    pt.MapPage(0, 0, PageOpts::Kernel().Val(), &mut mgr).unwrap();
    pt.MapRange(PHY_UPPER_ADDR, PHY_UPPER_ADDR + 0x1000, 0x7000, RW, &mut mgr, false).unwrap();
    let root = pt.GetRoot();
    let pud = POOL_BASE + 0x1000;
    let pmd = POOL_BASE + 0x2000;
    let pte = POOL_BASE + 0x3000;
    assert_eq!(mgr.GetRef(pmd), Ok(1));
    assert_eq!(mgr.GetRef(pte), Ok(1));
    pt.Drop(&mut mgr);
    assert_eq!(pt.GetRoot(), 0);
    for page in [root, pud, pmd, pte, POOL_BASE + 0x4000, POOL_BASE + 0x5000, POOL_BASE + 0x6000] {
        assert_eq!(mgr.GetRef(page), Err(Error::InvalidInput));
    }
    assert!(mgr.PrintRefs().is_empty());
}

#[test]
fn fork_twice_shares_vsyscall_pages() {
    let mut mgr = PageMgr::New();
    let kpt = kernel_table(&mut mgr);
    let image = vec![0xc3u64];
    let a = kpt.Fork(&mut mgr, &image).unwrap();
    let vs = mgr.vsyscallPages.clone();
    let b = kpt.Fork(&mut mgr, &image).unwrap();
    assert_ne!(a.GetRoot(), b.GetRoot());
    assert_ne!(mgr.pagepool.ReadWord(a.GetRoot(), 0), mgr.pagepool.ReadWord(b.GetRoot(), 0));
    assert_eq!(mgr.vsyscallPages, vs);
    assert_eq!(mgr.GetRef(a.GetRoot()), Ok(1));
    assert_eq!(mgr.GetRef(b.GetRoot()), Ok(1));
    assert_eq!(mgr.pagepool.ReadWord(b.GetRoot(), 511), vs[3] | 5);
}

#[test]
fn failed_copy_takes_only_the_root() {
    let mut mgr = PageMgr::New();
    let kpt = PageTables::New(&mut mgr.pagepool).unwrap();
    let before = mgr.PrintRefs().len();
    let r = kpt.NewWithKernelPageTables(&mut mgr, &Vec::new());
    assert!(matches!(r, Err(Error::AddressNotMap(0))));
    assert_eq!(mgr.PrintRefs().len(), before + 1);
}

#[test]
fn map_host_out_of_memory_empties_the_pool() {
    let mut mgr = PageMgr::WithCapacity(3);
    let mut pt = PageTables::New(&mut mgr.pagepool).unwrap();
    let at = AccessType::New(true, true, false);
    let r = pt.MapHost(0x1000, &IoVec::New(0x9000, 0x2000), &at, true, &mut mgr);
    assert_eq!(r, Err(Error::NoEnoughMemory));
    assert_eq!(mgr.AllocPage(false), Err(Error::NoEnoughMemory));
}
