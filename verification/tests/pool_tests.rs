use quark::block_alloc::{PageBlockAlloc, POOL_BASE};
use quark::defs::Error;
use quark::pma::PageMgr;

#[test]
fn alloc_hands_out_consecutive_pages() {
    let mut pool = PageBlockAlloc::WithLimit(8);
    let a = pool.AllocPage(true).unwrap();
    let b = pool.AllocPage(false).unwrap();
    assert_eq!(a, POOL_BASE);
    assert_eq!(b, POOL_BASE + 4096);
    assert_eq!(pool.GetRef(a), Ok(1));
    assert_eq!(pool.GetRef(b), Ok(0));
}

#[test]
fn freed_page_is_reused_zeroed() {
    let mut pool = PageBlockAlloc::WithLimit(8);
    let a = pool.AllocPage(true).unwrap();
    let _b = pool.AllocPage(true).unwrap();
    pool.WriteWord(a, 3, 0xdead);
    assert_eq!(pool.ReadWord(a, 3), 0xdead);
    assert_eq!(pool.FreePage(a), Ok(()));
    assert_eq!(pool.GetRef(a), Err(Error::InvalidInput));
    let c = pool.AllocPage(true).unwrap();
    assert_eq!(c, a);
    assert_eq!(pool.ReadWord(c, 3), 0);
}

#[test]
fn ref_then_deref_restores_count() {
    let mut pool = PageBlockAlloc::WithLimit(4);
    let a = pool.AllocPage(true).unwrap();
    assert_eq!(pool.Ref(a), Ok(2));
    assert_eq!(pool.Deref(a), Ok(1));
    assert_eq!(pool.GetRef(a), Ok(1));
}

#[test]
fn deref_to_zero_frees_the_page() {
    let mut pool = PageBlockAlloc::WithLimit(4);
    let a = pool.AllocPage(true).unwrap();
    assert_eq!(pool.Deref(a), Ok(0));
    assert_eq!(pool.GetRef(a), Err(Error::InvalidInput));
    assert_eq!(pool.Deref(a), Err(Error::InvalidInput));
    assert_eq!(pool.Ref(a), Err(Error::InvalidInput));
}

#[test]
fn invalid_addresses_are_refused() {
    let mut pool = PageBlockAlloc::WithLimit(4);
    let a = pool.AllocPage(true).unwrap();
    assert_eq!(pool.Ref(a + 8), Err(Error::InvalidInput));
    assert_eq!(pool.Ref(0), Err(Error::InvalidInput));
    assert_eq!(pool.FreePage(a + 4096), Err(Error::InvalidInput));
    assert_eq!(pool.ReadWord(0x1234_0000, 0), 0);
}

#[test]
fn exhausted_pool_refuses() {
    let mut pool = PageBlockAlloc::WithLimit(2);
    let a = pool.AllocPage(true).unwrap();
    let _b = pool.AllocPage(true).unwrap();
    assert_eq!(pool.AllocPage(true), Err(Error::NoEnoughMemory));
    pool.FreePage(a).unwrap();
    assert_eq!(pool.AllocPage(false), Ok(a));
}

#[test]
fn page_mgr_delegates_to_pool() {
    let mut mgr = PageMgr::New();
    let a = mgr.AllocPage(true).unwrap();
    assert_eq!(mgr.Ref(a), Ok(2));
    assert_eq!(mgr.GetRef(a), Ok(2));
    assert_eq!(mgr.Deref(a), Ok(1));
    mgr.DerefPage(a);
    assert_eq!(mgr.GetRef(a), Err(Error::InvalidInput));
    let b = mgr.AllocPage(false).unwrap();
    assert_eq!(b, a);
    assert_eq!(mgr.FreePage(b), Ok(()));
    assert_eq!(mgr.FreePage(b), Err(Error::InvalidInput));
}

#[test]
fn vsyscall_pages_are_created_once() {
    let mut mgr = PageMgr::WithCapacity(16);
    let image = vec![0x11u64, 0x22, 0x33];
    let pages = mgr.VsyscallPages(&image);
    assert_eq!(pages.len(), 4);
    assert_eq!(pages, vec![POOL_BASE, POOL_BASE + 4096, POOL_BASE + 8192, POOL_BASE + 12288]);
    assert_eq!(mgr.pagepool.ReadWord(pages[0], 0), 0x11);
    assert_eq!(mgr.pagepool.ReadWord(pages[0], 2), 0x33);
    assert_eq!(mgr.pagepool.ReadWord(pages[0], 3), 0);
    for p in &pages {
        assert_eq!(mgr.GetRef(*p), Ok(1));
    }
    let again = mgr.VsyscallPages(&vec![0x99u64]);
    assert_eq!(again, pages);
    assert_eq!(mgr.pagepool.ReadWord(pages[0], 0), 0x11);
}

#[test]
fn clear_releases_vsyscall_pages() {
    let mut mgr = PageMgr::WithCapacity(16);
    let pages = mgr.VsyscallPages(&Vec::new());
    mgr.Clear();
    assert!(mgr.vsyscallPages.is_empty());
    for p in &pages {
        assert_eq!(mgr.GetRef(*p), Err(Error::InvalidInput));
    }
}

#[test]
fn copy_vsyscall_page_writes_image() {
    let mut mgr = PageMgr::WithCapacity(4);
    let a = mgr.AllocPage(true).unwrap();
    mgr.CopyVsysCallPages(a, &vec![1u64, 2, 3]);
    assert_eq!(mgr.pagepool.ReadWord(a, 0), 1);
    assert_eq!(mgr.pagepool.ReadWord(a, 1), 2);
    assert_eq!(mgr.pagepool.ReadWord(a, 2), 3);
    assert_eq!(mgr.pagepool.ReadWord(a, 3), 0);
}

#[test]
fn print_refs_lists_handed_out_pages() {
    let mut mgr = PageMgr::WithCapacity(4);
    let a = mgr.AllocPage(true).unwrap();
    let b = mgr.AllocPage(false).unwrap();
    let c = mgr.AllocPage(true).unwrap();
    mgr.Ref(c).unwrap();
    mgr.FreePage(b).unwrap();
    assert_eq!(mgr.PrintRefs(), vec![(a, 1), (c, 2)]);
    assert_eq!(PageMgr::default().PrintRefs(), Vec::new());
}

#[test]
fn clear_then_create_again() {
    let mut mgr = PageMgr::WithCapacity(4);
    let first = mgr.VsyscallPages(&Vec::new());
    assert_eq!(mgr.AllocPage(false), Err(Error::NoEnoughMemory));
    mgr.Clear();
    let second = mgr.VsyscallPages(&Vec::new());
    assert_eq!(second, first);
}

#[test]
fn vsyscall_pages_take_lowest_free_in_order() {
    let mut mgr = PageMgr::WithCapacity(16);
    let a = mgr.AllocPage(true).unwrap();
    let b = mgr.AllocPage(true).unwrap();
    let c = mgr.AllocPage(true).unwrap();
    mgr.FreePage(b).unwrap();
    let pages = mgr.VsyscallPages(&Vec::new());
    assert_eq!(pages, vec![b, c + 4096, c + 8192, c + 12288]);
    assert!(a < b);
}
