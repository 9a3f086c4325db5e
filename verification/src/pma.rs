use vstd::prelude::*;
use crate::block_alloc::{lemma_page_bound, PageBlockAlloc, MAX_POOL_PAGES};
use crate::defs::{Error, LOWER_TOP, PAGE_SIZE, PHY_LOWER_ADDR, PHY_UPPER_ADDR, VSYSCALL_PAGE_COUNT};
use crate::flags::{
    addr_of_entry, entry_addr, entry_addr_acceptable, entry_with_addr, lemma_entry_roundtrip,
    make_entry, p1_index, p1_of, p2_index, p2_of, p3_index, p3_of, p4_index, p4_of,
    vaddr_acceptable, PRESENT, USER_ACCESSIBLE,
};
use crate::defs::{KERNEL_END_P2_ENTRY, KERNEL_START_P2_ENTRY, KVM_IOEVENTFD_BASEADDR, VSYSCALL_ADDR};
use crate::flags::{PageOpts, GLOBAL, WRITABLE};
use crate::flags::{opts_for_access, AccessType, PageOptsForAccess};
use crate::pagetable::{
    aligned, leaf_flags_ok, map_error, map_page_error, prefix_at, remap_error, unmap_error, PageTables,
};
use crate::range::{IoVec, Range};

verus! {

/// The flags chosen for any access are usable leaf flags.
pub proof fn lemma_access_flags(user: bool, at: AccessType)
    ensures
        leaf_flags_ok(opts_for_access(user, at)),
{
    assert(leaf_flags_ok(1u64 | 2u64 | 4u64)) by (bit_vector);
    assert(leaf_flags_ok(1u64 | 4u64)) by (bit_vector);
    assert(leaf_flags_ok(4u64)) by (bit_vector);
    assert(leaf_flags_ok(1u64 | 2u64)) by (bit_vector);
    assert(leaf_flags_ok(1u64)) by (bit_vector);
}

/// Flags of the entries on the vsyscall path: present and user accessible.
pub const VSYSCALL_FLAGS: u64 = 5;

/// The table indices of the vsyscall address.
pub proof fn lemma_vsyscall_indices()
    ensures
        vaddr_acceptable(VSYSCALL_ADDR),
        p4_of(VSYSCALL_ADDR) == 511,
        p3_of(VSYSCALL_ADDR) == 511,
        p2_of(VSYSCALL_ADDR) == 507,
        p1_of(VSYSCALL_ADDR) == 0,
        VSYSCALL_FLAGS == PRESENT | USER_ACCESSIBLE,
        VSYSCALL_FLAGS & 0x000f_ffff_ffff_f000u64 == 0,
{
    let v: u64 = 0xffff_ffff_ff60_0000;
    assert((v >> 47u64) == 0x1ffffu64) by (bit_vector)
        requires
            v == 0xffff_ffff_ff60_0000u64,
    ;
    assert(((v >> 39u64) & 0x1ffu64) == 511) by (bit_vector)
        requires
            v == 0xffff_ffff_ff60_0000u64,
    ;
    assert(((v >> 30u64) & 0x1ffu64) == 511 && ((v >> 21u64) & 0x1ffu64) == 507) by (bit_vector)
        requires
            v == 0xffff_ffff_ff60_0000u64,
    ;
    assert(((v >> 12u64) & 0x1ffu64) == 0) by (bit_vector)
        requires
            v == 0xffff_ffff_ff60_0000u64,
    ;
    assert(5u64 == 1u64 | 4u64 && 5u64 & 0x000f_ffff_ffff_f000u64 == 0) by (bit_vector);
}

/// How many of `pages` hold their last reference in `pool`.
pub open spec fn last_refs(pool: PageBlockAlloc, pages: Seq<u64>) -> nat
    decreases pages.len(),
{
    if pages.len() == 0 {
        0
    } else {
        last_refs(pool, pages.drop_last()) + (if pool.refcount(pages.last()) == 1 {
            1nat
        } else {
            0nat
        })
    }
}

/// The kernel's page manager: the page pool and the pages that back the
/// vsyscall mapping, created on first use and shared by all address spaces.
pub struct PageMgr {
    pub pagepool: PageBlockAlloc,
    pub vsyscallPages: Vec<u64>,
}

impl PageMgr {
    /// The pool is well-formed and the vsyscall pages are absent or four
    /// distinct pages of the pool.
    pub open spec fn wf(&self) -> bool {
        &&& self.pagepool.wf()
        &&& self.vsyscallPages@.len() == 0 || self.vsyscallPages@.len() == VSYSCALL_PAGE_COUNT
        &&& forall|k: int| 0 <= k < self.vsyscallPages@.len() ==> self.pagepool.is_page(#[trigger] self.vsyscallPages@[k])
        &&& forall|i: int, j: int|
            0 <= i < j < self.vsyscallPages@.len() ==> #[trigger] self.vsyscallPages@[i]
                != #[trigger] self.vsyscallPages@[j]
    }

    /// A page manager with an empty pool of the largest size.
    pub fn New() -> (m: Self)
        ensures
            m.wf(),
            m.pagepool.npages() == 0,
            m.pagepool.limit() == MAX_POOL_PAGES,
            m.pagepool.available() == MAX_POOL_PAGES,
            m.vsyscallPages@.len() == 0,
    {
        PageMgr { pagepool: PageBlockAlloc::WithLimit(MAX_POOL_PAGES), vsyscallPages: Vec::new() }
    }

    /// A page manager whose pool may create at most `pages` pages.
    pub fn WithCapacity(pages: u64) -> (m: Self)
        requires
            pages <= MAX_POOL_PAGES,
        ensures
            m.wf(),
            m.pagepool.npages() == 0,
            m.pagepool.limit() == pages,
            m.pagepool.available() == pages,
            m.vsyscallPages@.len() == 0,
    {
        PageMgr { pagepool: PageBlockAlloc::WithLimit(pages), vsyscallPages: Vec::new() }
    }

    /// Takes one more reference on an allocated page; returns the new count.
    pub fn Ref(&mut self, addr: u64) -> (res: Result<u64, Error>)
        requires
            old(self).wf(),
        ensures
            final(self).wf(),
            final(self).vsyscallPages@ == old(self).vsyscallPages@,
            final(self).pagepool.available() == old(self).pagepool.available(),
            old(self).pagepool.ref_post(&final(self).pagepool, addr, res),
            res is Err ==> *final(self) == *old(self),
    {
        self.pagepool.Ref(addr)
    }

    /// Drops one reference on an allocated page; returns the new count (a
    /// page whose count reaches zero goes back to the pool).
    pub fn Deref(&mut self, addr: u64) -> (res: Result<u64, Error>)
        requires
            old(self).wf(),
        ensures
            final(self).wf(),
            final(self).vsyscallPages@ == old(self).vsyscallPages@,
            old(self).pagepool.deref_post(&final(self).pagepool, addr, res),
            res is Err ==> *final(self) == *old(self),
            final(self).pagepool.available() == old(self).pagepool.available() + (if res is Ok && res->Ok_0
                == 0 {
                1nat
            } else {
                0nat
            }),
    {
        self.pagepool.Deref(addr)
    }

    /// The reference count of an allocated page.
    pub fn GetRef(&self, addr: u64) -> (res: Result<u64, Error>)
        requires
            self.wf(),
        ensures
            res is Ok <==> self.pagepool.allocated(addr),
            res is Ok ==> res->Ok_0 == self.pagepool.refcount(addr),
            res is Err ==> res->Err_0 == Error::InvalidInput,
    {
        self.pagepool.GetRef(addr)
    }

    /// Hands out a zeroed page (see `PageBlockAlloc::AllocPage`).
    pub fn AllocPage(&mut self, incrRef: bool) -> (res: Result<u64, Error>)
        requires
            old(self).wf(),
        ensures
            final(self).wf(),
            final(self).vsyscallPages@ == old(self).vsyscallPages@,
            final(self).pagepool.limit() == old(self).pagepool.limit(),
            res is Err <==> old(self).pagepool.available() == 0,
            res is Err ==> res->Err_0 == Error::NoEnoughMemory && *final(self) == *old(self),
            res is Ok ==> ({
                let a = res->Ok_0;
                &&& final(self).pagepool.available() + 1 == old(self).pagepool.available()
                &&& old(self).pagepool.has_free() ==> old(self).pagepool.lowest_free(a)
                &&& !old(self).pagepool.allocated(a)
                &&& final(self).pagepool.allocated(a)
                &&& final(self).pagepool.refcount(a) == (if incrRef { 1nat } else { 0nat })
                &&& forall|i: int| 0 <= i < 512 ==> #[trigger] final(self).pagepool.word(a, i) == 0
                &&& final(self).pagepool.others_unchanged(&old(self).pagepool, a)
            }),
    {
        self.pagepool.AllocPage(incrRef)
    }

    /// Drops one reference on a page that holds one.
    pub fn DerefPage(&mut self, addr: u64)
        requires
            old(self).wf(),
            old(self).pagepool.allocated(addr),
            old(self).pagepool.refcount(addr) > 0,
        ensures
            final(self).wf(),
            final(self).vsyscallPages@ == old(self).vsyscallPages@,
            final(self).pagepool.refcount(addr) == old(self).pagepool.refcount(addr) - 1,
            final(self).pagepool.allocated(addr) == (final(self).pagepool.refcount(addr) > 0),
            forall|i: int| #[trigger] final(self).pagepool.word(addr, i) == old(self).pagepool.word(addr, i),
            final(self).pagepool.others_unchanged(&old(self).pagepool, addr),
    {
        // The requirements make the call succeed.
        let _count = self.pagepool.Deref(addr);
    }

    /// Gives an allocated page back to the pool, whatever its count.
    pub fn FreePage(&mut self, addr: u64) -> (res: Result<(), Error>)
        requires
            old(self).wf(),
        ensures
            final(self).wf(),
            final(self).vsyscallPages@ == old(self).vsyscallPages@,
            res is Ok <==> old(self).pagepool.allocated(addr),
            res is Err ==> res->Err_0 == Error::InvalidInput && *final(self) == *old(self),
            res is Ok ==> {
                &&& !final(self).pagepool.allocated(addr)
                &&& final(self).pagepool.refcount(addr) == 0
                &&& final(self).pagepool.available() == old(self).pagepool.available() + 1
                &&& final(self).pagepool.others_unchanged(&old(self).pagepool, addr)
            },
    {
        self.pagepool.FreePage(addr)
    }
}

impl Default for PageMgr {
    /// A page manager with an empty pool of the largest size.
    fn default() -> (m: Self)
        ensures
            m.wf(),
            m.pagepool.npages() == 0,
            m.pagepool.limit() == MAX_POOL_PAGES,
            m.pagepool.available() == MAX_POOL_PAGES,
            m.vsyscallPages@.len() == 0,
    {
        Self::New()
    }
}

impl PageMgr {
    /// The pages of the pool that are handed out, by increasing address,
    /// with their reference counts.
    pub fn PrintRefs(&self) -> (r: Vec<(u64, u64)>)
        requires
            self.wf(),
        ensures
            forall|k: int|
                0 <= k < r@.len() ==> self.pagepool.allocated(#[trigger] r@[k].0) && self.pagepool.refcount(
                    r@[k].0,
                ) == r@[k].1,
            forall|k: int, m: int| 0 <= k < m < r@.len() ==> #[trigger] r@[k].0 < #[trigger] r@[m].0,
            forall|a: u64| #[trigger] self.pagepool.allocated(a) ==> exists|k: int| 0 <= k < r@.len() && r@[k].0 == a,
    {
        self.pagepool.AllocatedPages()
    }

    /// Copies `image` into the first words of the page at `addr`.
    pub fn CopyVsysCallPages(&mut self, addr: u64, image: &Vec<u64>)
        requires
            old(self).wf(),
            old(self).pagepool.is_page(addr),
            image@.len() <= 512,
        ensures
            final(self).wf(),
            final(self).vsyscallPages@ == old(self).vsyscallPages@,
            final(self).pagepool.npages() == old(self).pagepool.npages(),
            final(self).pagepool.available() == old(self).pagepool.available(),
            forall|b: u64| #[trigger] final(self).pagepool.allocated(b) == old(self).pagepool.allocated(b),
            forall|b: u64| #[trigger] final(self).pagepool.refcount(b) == old(self).pagepool.refcount(b),
            forall|i: int| 0 <= i < image@.len() ==> #[trigger] final(self).pagepool.word(addr, i) == image@[i],
            forall|b: u64, i: int|
                (b != addr || !(0 <= i < image@.len())) ==> #[trigger] final(self).pagepool.word(b, i)
                    == old(self).pagepool.word(b, i),
    {
        let mut j: usize = 0;
        while j < image.len()
            invariant
                self.wf(),
                self.pagepool.is_page(addr),
                self.vsyscallPages@ == old(self).vsyscallPages@,
                self.pagepool.npages() == old(self).pagepool.npages(),
                self.pagepool.available() == old(self).pagepool.available(),
                image@.len() <= 512,
                j <= image@.len(),
                forall|b: u64| #[trigger] self.pagepool.allocated(b) == old(self).pagepool.allocated(b),
                forall|b: u64| #[trigger] self.pagepool.refcount(b) == old(self).pagepool.refcount(b),
                forall|i: int| 0 <= i < j ==> #[trigger] self.pagepool.word(addr, i) == image@[i],
                forall|b: u64, i: int|
                    (b != addr || !(0 <= i < j)) ==> #[trigger] self.pagepool.word(b, i)
                        == old(self).pagepool.word(b, i),
            decreases image@.len() - j,
        {
            self.pagepool.WriteWord(addr, j as u64, image[j]);
            j = j + 1;
        }
    }

    /// The pages that back the vsyscall mapping. The first call takes four
    /// pages from the pool (one reference each) and copies `vsyscallImage`,
    /// the vsyscall code, into the first; later calls return the same pages.
    pub fn VsyscallPages(&mut self, vsyscallImage: &Vec<u64>) -> (pages: Vec<u64>)
        requires
            old(self).wf(),
            vsyscallImage@.len() <= 512,
            old(self).vsyscallPages@.len() == 0 ==> old(self).pagepool.available() >= 4,
        ensures
            final(self).wf(),
            pages@ == final(self).vsyscallPages@,
            pages@.len() == 4,
            old(self).vsyscallPages@.len() != 0 ==> *final(self) == *old(self),
            old(self).vsyscallPages@.len() == 0 ==> {
                &&& final(self).pagepool.available() + 4 == old(self).pagepool.available()
                &&& forall|k: int|
                    0 <= k < 4 ==> {
                        &&& !old(self).pagepool.allocated(#[trigger] pages@[k])
                        &&& final(self).pagepool.allocated(pages@[k])
                        &&& final(self).pagepool.refcount(pages@[k]) == 1
                    }
                &&& forall|i: int|
                    0 <= i < 512 ==> #[trigger] final(self).pagepool.word(pages@[0], i) == if i
                        < vsyscallImage@.len() {
                        vsyscallImage@[i]
                    } else {
                        0
                    }
                &&& forall|k: int, m: int| 0 <= k < m < 4 ==> #[trigger] pages@[k] < #[trigger] pages@[m]
                &&& forall|b: u64|
                    #![trigger old(self).pagepool.allocated(b)]
                    old(self).pagepool.is_page(b) && !old(self).pagepool.allocated(b) && b < pages@[3]
                        ==> pages@.contains(b)
                &&& forall|k: int, i: int|
                    1 <= k < 4 && 0 <= i < 512 ==> #[trigger] final(self).pagepool.word(pages@[k], i) == 0
                &&& forall|b: u64|
                    !pages@.contains(b) ==> #[trigger] final(self).pagepool.allocated(b) == old(self).pagepool.allocated(b)
                &&& forall|b: u64|
                    !pages@.contains(b) ==> #[trigger] final(self).pagepool.refcount(b) == old(self).pagepool.refcount(b)
                &&& forall|b: u64, i: int|
                    !pages@.contains(b) ==> #[trigger] final(self).pagepool.word(b, i) == old(self).pagepool.word(b, i)
            },
    {
        if self.vsyscallPages.len() == 0 {
            let ghost pool0 = self.pagepool;
            let mut vec: Vec<u64> = Vec::new();
            let mut n: u64 = 0;
            while n < VSYSCALL_PAGE_COUNT
                invariant
                    self.pagepool.wf(),
                    self.vsyscallPages@.len() == 0,
                    pool0 == old(self).pagepool,
                    old(self).vsyscallPages@.len() == 0,
                    pool0.available() >= 4,
                    n <= 4,
                    vec@.len() == n,
                    self.pagepool.available() + n == pool0.available(),
                    forall|k: int, m: int| 0 <= k < m < vec@.len() ==> #[trigger] vec@[k] < #[trigger] vec@[m],
                    self.pagepool.npages() >= pool0.npages(),
                    forall|b: u64|
                        #![trigger pool0.allocated(b)]
                        pool0.is_page(b) && !pool0.allocated(b) && vec@.len() > 0 && b < vec@.last()
                            ==> vec@.contains(b),
                    forall|b: u64|
                        #![trigger self.pagepool.allocated(b)]
                        self.pagepool.is_page(b) && vec@.len() > 0 && b <= vec@.last() ==> self.pagepool.allocated(b),
                    forall|k: int|
                        0 <= k < vec@.len() ==> {
                            &&& !pool0.allocated(#[trigger] vec@[k])
                            &&& self.pagepool.allocated(vec@[k])
                            &&& self.pagepool.is_page(vec@[k])
                            &&& self.pagepool.refcount(vec@[k]) == 1
                        },
                    forall|k: int, i: int|
                        0 <= k < vec@.len() && 0 <= i < 512 ==> #[trigger] self.pagepool.word(vec@[k], i) == 0,
                    forall|b: u64| !vec@.contains(b) ==> #[trigger] self.pagepool.allocated(b) == pool0.allocated(b),
                    forall|b: u64| !vec@.contains(b) ==> #[trigger] self.pagepool.refcount(b) == pool0.refcount(b),
                    forall|b: u64, i: int| !vec@.contains(b) ==> #[trigger] self.pagepool.word(b, i) == pool0.word(b, i),
                decreases VSYSCALL_PAGE_COUNT - n,
            {
                let ghost before = self.pagepool;
                let r = self.pagepool.AllocPage(true);
                let addr = match r {
                    Ok(a) => a,
                    Err(_) => {
                        // A page is available for each of the four.
                        proof {
                            assert(false);
                        }
                        return Vec::new();
                    },
                };
                proof {
                    self.pagepool.lemma_wf_facts();
                    assert forall|k: int| 0 <= k < vec@.len() implies #[trigger] vec@[k] != addr by {
                        assert(before.allocated(vec@[k]));
                    }
                }
                let ghost old_vec = vec@;
                proof {
                    before.lemma_wf_facts();
                    if old_vec.len() > 0 {
                        let last = old_vec.last();
                        assert(before.allocated(last));
                        assert(before.is_page(last));
                        if before.has_free() {
                            assert(!before.allocated(addr));
                        } else {
                            lemma_page_bound(last, before.npages() as int);
                        }
                        assert(last < addr);
                    }
                }
                vec.push(addr);
                proof {
                    let cur = self.pagepool;
                    assert(vec@.last() == addr);
                    assert forall|b: u64| cur.is_page(b) && b <= addr implies #[trigger] cur.allocated(b) by {
                        if cur.is_page(b) && b < addr {
                            if before.has_free() {
                                assert(before.is_page(b));
                                assert(before.allocated(b));
                            } else {
                                lemma_page_bound(b, before.npages() as int);
                                assert(before.is_page(b));
                                assert(!(before.is_page(b) && !before.allocated(b)));
                            }
                        }
                    }
                    assert forall|b: u64|
                        #![trigger pool0.allocated(b)]
                        pool0.is_page(b) && !pool0.allocated(b) && b < addr implies vec@.contains(b) by {
                        if old_vec.len() > 0 && b < old_vec.last() {
                            let k = choose|k: int| 0 <= k < old_vec.len() && old_vec[k] == b;
                            assert(vec@[k] == b);
                        } else if old_vec.contains(b) {
                            let k = choose|k: int| 0 <= k < old_vec.len() && old_vec[k] == b;
                            assert(vec@[k] == b);
                        } else {
                            assert(before.allocated(b) == pool0.allocated(b));
                            assert(before.is_page(b));
                            assert(!(before.is_page(b) && !before.allocated(b)));
                        }
                    }
                }
                proof {
                    assert forall|b: u64| !vec@.contains(b) implies b != addr && !old_vec.contains(b) by {
                        assert(vec@[old_vec.len() as int] == addr);
                        if old_vec.contains(b) {
                            let k = choose|k: int| 0 <= k < old_vec.len() && old_vec[k] == b;
                            assert(vec@[k] == b);
                        }
                    }
                    assert forall|b: u64| !vec@.contains(b) implies #[trigger] self.pagepool.allocated(b)
                        == pool0.allocated(b) by {
                        assert(!old_vec.contains(b));
                        assert(before.allocated(b) == pool0.allocated(b));
                    }
                    assert forall|b: u64| !vec@.contains(b) implies #[trigger] self.pagepool.refcount(b)
                        == pool0.refcount(b) by {
                        assert(!old_vec.contains(b));
                        assert(before.refcount(b) == pool0.refcount(b));
                    }
                    assert forall|b: u64, i: int| !vec@.contains(b) implies #[trigger] self.pagepool.word(b, i)
                        == pool0.word(b, i) by {
                        assert(!old_vec.contains(b));
                        assert(before.word(b, i) == pool0.word(b, i));
                    }
                }
                n = n + 1;
            }
            self.vsyscallPages = vec;
            let first = self.vsyscallPages[0];
            self.CopyVsysCallPages(first, vsyscallImage);
        }
        let pages = self.vsyscallPages.clone();
        proof {
            assert(pages@ =~= self.vsyscallPages@);
        }
        pages
    }

    /// Drops the reference on each vsyscall page and forgets them.
    pub fn Clear(&mut self)
        requires
            old(self).wf(),
            forall|k: int|
                0 <= k < old(self).vsyscallPages@.len() ==> old(self).pagepool.allocated(
                    #[trigger] old(self).vsyscallPages@[k],
                ) && old(self).pagepool.refcount(old(self).vsyscallPages@[k]) > 0,
        ensures
            final(self).wf(),
            final(self).vsyscallPages@.len() == 0,
            forall|k: int|
                0 <= k < old(self).vsyscallPages@.len() ==> {
                    &&& final(self).pagepool.refcount(#[trigger] old(self).vsyscallPages@[k]) == old(self).pagepool.refcount(old(self).vsyscallPages@[k]) - 1
                    &&& final(self).pagepool.allocated(old(self).vsyscallPages@[k]) == (final(self).pagepool.refcount(old(self).vsyscallPages@[k]) > 0)
                },
            forall|b: u64|
                !old(self).vsyscallPages@.contains(b) ==> #[trigger] final(self).pagepool.allocated(b)
                    == old(self).pagepool.allocated(b),
            forall|b: u64|
                !old(self).vsyscallPages@.contains(b) ==> #[trigger] final(self).pagepool.refcount(b)
                    == old(self).pagepool.refcount(b),
            forall|b: u64, i: int| #[trigger] final(self).pagepool.word(b, i) == old(self).pagepool.word(b, i),
            final(self).pagepool.available() == old(self).pagepool.available() + last_refs(
                old(self).pagepool,
                old(self).vsyscallPages@,
            ),
    {
        let ghost pool0 = self.pagepool;
        let ghost pages = self.vsyscallPages@;
        let n = self.vsyscallPages.len();
        let mut k: usize = 0;
        while k < n
            invariant
                self.pagepool.wf(),
                self.vsyscallPages@ == pages,
                pages == old(self).vsyscallPages@,
                pool0 == old(self).pagepool,
                old(self).wf(),
                n == pages.len(),
                k <= n,
                forall|j: int|
                    0 <= j < pages.len() ==> pool0.allocated(#[trigger] pages[j]) && pool0.refcount(pages[j]) > 0,
                forall|j: int|
                    0 <= j < k ==> {
                        &&& self.pagepool.refcount(#[trigger] pages[j]) == pool0.refcount(pages[j]) - 1
                        &&& self.pagepool.allocated(pages[j]) == (self.pagepool.refcount(pages[j]) > 0)
                    },
                forall|j: int| k <= j < n ==> #[trigger] self.pagepool.refcount(pages[j]) == pool0.refcount(pages[j])
                    && self.pagepool.allocated(pages[j]) == pool0.allocated(pages[j]),
                forall|b: u64| !pages.contains(b) ==> #[trigger] self.pagepool.allocated(b) == pool0.allocated(b),
                forall|b: u64| !pages.contains(b) ==> #[trigger] self.pagepool.refcount(b) == pool0.refcount(b),
                forall|b: u64, i: int| #[trigger] self.pagepool.word(b, i) == pool0.word(b, i),
                self.pagepool.available() == pool0.available() + last_refs(pool0, pages.take(k as int)),
            decreases n - k,
        {
            let p = self.vsyscallPages[k];
            proof {
                assert(pages.take(k + 1).drop_last() =~= pages.take(k as int));
                assert(pages.take(k + 1).last() == pages[k as int]);
            }
            let ghost before = self.pagepool;
            let r = self.pagepool.Deref(p);
            proof {
                assert(before.allocated(p) && before.refcount(p) > 0);
                assert forall|j: int| 0 <= j < pages.len() && j != k implies pages[j] != p by {
                    assert(old(self).vsyscallPages@[j] != old(self).vsyscallPages@[k as int]) by {
                        if j < k {
                        } else {
                        }
                    }
                }
                assert forall|b: u64| !pages.contains(b) implies b != p by {
                    assert(pages[k as int] == p);
                }
            }
            k = k + 1;
        }
        proof {
            assert(pages.take(n as int) =~= pages);
        }
        self.vsyscallPages = Vec::new();
    }
}

impl PageTables {
    /// Moves the pages mapped from `oldStart` to the range `newAddrRange`,
    /// with the options that access `at` needs (user or kernel mapping).
    pub fn RemapAna(
        &mut self,
        newAddrRange: &Range,
        oldStart: u64,
        at: &AccessType,
        user: bool,
        pagePool: &mut PageMgr,
    ) -> (res: Result<(), Error>)
        requires
            old(self).wf(&old(pagePool).pagepool),
            newAddrRange.start + newAddrRange.len <= u64::MAX,
        ensures
            final(self).wf(&final(pagePool).pagepool),
            final(self).root() == old(self).root(),
            final(pagePool).vsyscallPages@ == old(pagePool).vsyscallPages@,
            final(self).pool_step(old(self), &old(pagePool).pagepool, &final(pagePool).pagepool),
            remap_error(newAddrRange.start, (newAddrRange.start + newAddrRange.len) as u64, oldStart) is Some
                ==> res == Err::<(), Error>(
                remap_error(newAddrRange.start, (newAddrRange.start + newAddrRange.len) as u64, oldStart)->0,
            ) && *final(self) == *old(self) && *final(pagePool) == *old(pagePool),
            res is Ok <==> remap_error(
                newAddrRange.start,
                (newAddrRange.start + newAddrRange.len) as u64,
                oldStart,
            ) is None && res != Err::<(), Error>(Error::NoEnoughMemory),
            res is Ok ==> forall|va: u64|
                aligned(va) ==> #[trigger] final(self).mapping(&final(pagePool).pagepool, va)
                    == old(self).remap_view(
                    &old(pagePool).pagepool,
                    newAddrRange.start,
                    (newAddrRange.start + newAddrRange.len) as u64,
                    oldStart,
                    opts_for_access(user, *at),
                    va,
                ),
            res == Err::<(), Error>(Error::NoEnoughMemory) ==> forall|va: u64|
                aligned(va) ==> #[trigger] final(self).mapping(&final(pagePool).pagepool, va)
                    == old(self).remap_view(
                    &old(pagePool).pagepool,
                    newAddrRange.start,
                    (newAddrRange.start + newAddrRange.len) as u64,
                    oldStart,
                    opts_for_access(user, *at),
                    va,
                ) || final(self).mapping(&final(pagePool).pagepool, va) == old(self).unmap_view(
                    &old(pagePool).pagepool,
                    oldStart,
                    (oldStart + newAddrRange.len) as u64,
                    va,
                ),
            res == Err::<(), Error>(Error::NoEnoughMemory) ==> final(pagePool).pagepool.available() == 0
                && final(self).lacks_table_in(
                newAddrRange.start,
                (newAddrRange.start + newAddrRange.len) as u64,
            ),
    {
        let pageOpts = PageOptsForAccess(user, at);
        proof {
            lemma_access_flags(user, *at);
        }
        self.Remap(newAddrRange.Start(), newAddrRange.End(), oldStart, pageOpts.Val(), pagePool)?;
        Ok(())
    }

    /// Maps `[addr, addr + phyRange.len)` to the host memory `phyRange` in
    /// place of the old mappings of `oldar`, with the options that access
    /// `at` needs.
    pub fn RemapHost(
        &mut self,
        addr: u64,
        phyRange: &IoVec,
        oldar: &Range,
        at: &AccessType,
        user: bool,
        pagePool: &mut PageMgr,
    ) -> (res: Result<(), Error>)
        requires
            old(self).wf(&old(pagePool).pagepool),
            addr + phyRange.len <= u64::MAX,
            oldar.start + oldar.len <= u64::MAX,
        ensures
            final(self).wf(&final(pagePool).pagepool),
            final(self).root() == old(self).root(),
            final(pagePool).vsyscallPages@ == old(pagePool).vsyscallPages@,
            final(self).pool_step(old(self), &old(pagePool).pagepool, &final(pagePool).pagepool),
            unmap_error(oldar.start, (oldar.start + oldar.len) as u64) is Some ==> res == Err::<(), Error>(
                unmap_error(oldar.start, (oldar.start + oldar.len) as u64)->0,
            ) && *final(self) == *old(self) && *final(pagePool) == *old(pagePool),
            unmap_error(oldar.start, (oldar.start + oldar.len) as u64) is None && map_error(
                addr,
                (addr + phyRange.len) as u64,
                phyRange.start,
            ) is Some ==> res == Err::<(), Error>(
                map_error(addr, (addr + phyRange.len) as u64, phyRange.start)->0,
            ),
            res is Ok <==> unmap_error(oldar.start, (oldar.start + oldar.len) as u64) is None && map_error(
                addr,
                (addr + phyRange.len) as u64,
                phyRange.start,
            ) is None && res != Err::<(), Error>(Error::NoEnoughMemory),
            res is Ok ==> forall|va: u64|
                aligned(va) ==> #[trigger] final(self).mapping(&final(pagePool).pagepool, va)
                    == old(self).file_view(
                    &old(pagePool).pagepool,
                    addr,
                    (addr + phyRange.len) as u64,
                    phyRange.start,
                    oldar.start,
                    (oldar.start + oldar.len) as u64,
                    opts_for_access(user, *at),
                    va,
                ),
            res == Err::<(), Error>(Error::NoEnoughMemory) ==> forall|va: u64|
                aligned(va) ==> #[trigger] final(self).mapping(&final(pagePool).pagepool, va)
                    == old(self).file_view(
                    &old(pagePool).pagepool,
                    addr,
                    (addr + phyRange.len) as u64,
                    phyRange.start,
                    oldar.start,
                    (oldar.start + oldar.len) as u64,
                    opts_for_access(user, *at),
                    va,
                ) || final(self).mapping(&final(pagePool).pagepool, va) == old(self).unmap_view(
                    &old(pagePool).pagepool,
                    oldar.start,
                    (oldar.start + oldar.len) as u64,
                    va,
                ),
            res == Err::<(), Error>(Error::NoEnoughMemory) ==> final(pagePool).pagepool.available() == 0
                && final(self).lacks_table_in(addr, (addr + phyRange.len) as u64),
    {
        let pageOpts = PageOptsForAccess(user, at);
        proof {
            lemma_access_flags(user, *at);
        }
        self.RemapForFile(
            addr,
            addr + phyRange.Len() as u64,
            phyRange.Start(),
            oldar.Start(),
            oldar.End(),
            pageOpts.Val(),
            pagePool,
        )?;
        Ok(())
    }

    /// Maps `[addr, addr + phyRange.len)` to the host memory `phyRange`, with
    /// the options that access `at` needs.
    pub fn MapHost(
        &mut self,
        addr: u64,
        phyRange: &IoVec,
        at: &AccessType,
        user: bool,
        pagePool: &mut PageMgr,
    ) -> (res: Result<(), Error>)
        requires
            old(self).wf(&old(pagePool).pagepool),
            addr + phyRange.len <= u64::MAX,
        ensures
            final(self).wf(&final(pagePool).pagepool),
            final(self).root() == old(self).root(),
            final(pagePool).vsyscallPages@ == old(pagePool).vsyscallPages@,
            final(self).pool_step(old(self), &old(pagePool).pagepool, &final(pagePool).pagepool),
            map_error(addr, (addr + phyRange.len) as u64, phyRange.start) is Some ==> res == Err::<
                (),
                Error,
            >(map_error(addr, (addr + phyRange.len) as u64, phyRange.start)->0) && *final(self)
                == *old(self) && *final(pagePool) == *old(pagePool),
            res is Ok <==> map_error(addr, (addr + phyRange.len) as u64, phyRange.start) is None && res
                != Err::<(), Error>(Error::NoEnoughMemory),
            res is Ok ==> forall|va: u64|
                aligned(va) ==> #[trigger] final(self).mapping(&final(pagePool).pagepool, va)
                    == old(self).linear_view(
                    &old(pagePool).pagepool,
                    addr,
                    (addr + phyRange.len) as u64,
                    phyRange.start,
                    opts_for_access(user, *at),
                    va,
                ),
            res == Err::<(), Error>(Error::NoEnoughMemory) ==> forall|va: u64|
                aligned(va) ==> #[trigger] final(self).mapping(&final(pagePool).pagepool, va)
                    == old(self).mapping(&old(pagePool).pagepool, va) || final(self).mapping(
                    &final(pagePool).pagepool,
                    va,
                ) == old(self).linear_view(
                    &old(pagePool).pagepool,
                    addr,
                    (addr + phyRange.len) as u64,
                    phyRange.start,
                    opts_for_access(user, *at),
                    va,
                ),
            res == Err::<(), Error>(Error::NoEnoughMemory) ==> final(pagePool).pagepool.available() == 0
                && final(self).lacks_table_in(addr, (addr + phyRange.len) as u64),
    {
        let pageOpts = PageOptsForAccess(user, at);
        proof {
            lemma_access_flags(user, *at);
        }
        self.MapRange(
            addr,
            addr + phyRange.Len() as u64,
            phyRange.Start(),
            pageOpts.Val(),
            pagePool,
            !user,
        )?;
        Ok(())
    }

    /// Removes the mappings of `[addr, addr + len)`.
    pub fn MUnmap(&mut self, addr: u64, len: u64, pagePool: &mut PageMgr) -> (res: Result<(), Error>)
        requires
            old(self).wf(&old(pagePool).pagepool),
            addr + len <= u64::MAX,
        ensures
            final(self).wf(&final(pagePool).pagepool),
            *final(self) == *old(self),
            final(pagePool).vsyscallPages@ == old(pagePool).vsyscallPages@,
            final(self).pool_step(old(self), &old(pagePool).pagepool, &final(pagePool).pagepool),
            final(pagePool).pagepool.available() == old(pagePool).pagepool.available(),
            unmap_error(addr, (addr + len) as u64) is Some ==> res == Err::<(), Error>(
                unmap_error(addr, (addr + len) as u64)->0,
            ) && *final(pagePool) == *old(pagePool),
            res is Ok <==> unmap_error(addr, (addr + len) as u64) is None,
            res is Ok ==> forall|va: u64|
                aligned(va) ==> #[trigger] final(self).mapping(&final(pagePool).pagepool, va)
                    == old(self).unmap_view(&old(pagePool).pagepool, addr, (addr + len) as u64, va),
    {
        self.Unmap(addr, addr + len, pagePool)
    }

    /// Whether `va` lies in what `UnmapAll` takes down: everything this
    /// address space maps alone but the first page.
    pub open spec fn unmap_all_range(va: u64) -> bool {
        (PAGE_SIZE <= va < PHY_LOWER_ADDR) || (PHY_UPPER_ADDR <= va < LOWER_TOP)
    }

    /// Takes down every mapping but the first page, then drops the
    /// references of the first level-3 table and of the root table.
    pub fn UnmapAll(&mut self, pagePool: &mut PageMgr) -> (res: Result<(), Error>)
        requires
            old(self).wf(&old(pagePool).pagepool),
            old(pagePool).wf(),
            old(self).table(1, 0) is Some,
            old(pagePool).pagepool.refcount(old(self).table(1, 0)->0) > 0,
        ensures
            *final(self) == *old(self),
            final(pagePool).wf(),
            final(pagePool).vsyscallPages@ == old(pagePool).vsyscallPages@,
            res is Ok <==> old(pagePool).pagepool.refcount(old(self).root()) > 0,
            res is Err ==> res->Err_0 == Error::InvalidInput,
            final(pagePool).pagepool.refcount(old(self).table(1, 0)->0) == old(pagePool).pagepool.refcount(
                old(self).table(1, 0)->0,
            ) - 1,
            res is Ok ==> final(pagePool).pagepool.refcount(old(self).root()) == old(pagePool).pagepool.refcount(
                old(self).root(),
            ) - 1,
            res is Err ==> final(pagePool).pagepool.refcount(old(self).root()) == 0,
            final(pagePool).pagepool.allocated(old(self).table(1, 0)->0) == (final(pagePool).pagepool.refcount(
                old(self).table(1, 0)->0,
            ) > 0),
            res is Ok ==> final(pagePool).pagepool.allocated(old(self).root()) == (final(pagePool).pagepool.refcount(
                old(self).root(),
            ) > 0),
            forall|b: u64|
                b != old(self).root() && b != old(self).table(1, 0)->0 ==> #[trigger] final(pagePool).pagepool.allocated(b)
                    == old(pagePool).pagepool.allocated(b),
            forall|b: u64|
                b != old(self).root() && b != old(self).table(1, 0)->0 ==> #[trigger] final(pagePool).pagepool.refcount(b)
                    == old(pagePool).pagepool.refcount(b),
            forall|va: u64|
                aligned(va) ==> #[trigger] final(self).mapping(&final(pagePool).pagepool, va) == if Self::unmap_all_range(va) {
                    None
                } else {
                    old(self).mapping(&old(pagePool).pagepool, va)
                },
            forall|va: u64|
                aligned(va) && (0x1000 <= va < 0x40_0000_0000 || 0x80_0000_0000 <= va < 0x8000_0000_0000)
                    ==> #[trigger] final(self).mapping(&final(pagePool).pagepool, va) is None,
    {
        let ghost pool0 = pagePool.pagepool;
        proof {
            self.lemma_wf_root(&pagePool.pagepool);
        }
        let r1 = self.Unmap(PAGE_SIZE, PHY_LOWER_ADDR, pagePool);
        let r2 = self.Unmap(PHY_UPPER_ADDR, LOWER_TOP, pagePool);
        let ghost pool1 = pagePool.pagepool;
        proof {
            assert(r1 is Ok && r2 is Ok);
            self.lemma_wf_root(&pagePool.pagepool);
            self.lemma_child_entry(&pagePool.pagepool, 0, 0, 0);
            pool0.lemma_wf_facts();
            pool1.lemma_wf_facts();
            assert forall|b: u64| #[trigger] pool1.refcount(b) == pool0.refcount(b) by {
                if pool0.allocated(b) {
                } else {
                    assert(!pool1.allocated(b));
                }
            }
            self.lemma_child_entry(&pool0, 0, 0, 0);
        }
        let root = self.GetRoot();
        let pgdEntry = pagePool.pagepool.ReadWord(root, 0);
        let pudTblAddr = addr_of_entry(pgdEntry);
        pagePool.DerefPage(pudTblAddr);
        let ghost pool2 = pagePool.pagepool;
        let r = pagePool.Deref(root);
        proof {
            assert forall|va: u64| aligned(va) implies #[trigger] self.mapping(&pagePool.pagepool, va)
                == self.mapping(&pool1, va) by {
                self.lemma_mapping_frame(&pool1, &pagePool.pagepool);
            }
        }
        match r {
            Ok(_) => Ok(()),
            Err(e) => Err(e),
        }
    }

    /// What tearing this address space down does to the page manager, from
    /// `m0` to `m1`: every mapping but the first page is taken down, the first
    /// level-3 table and the root lose one reference each, each other table
    /// page (see `table_pages`) loses one reference if it holds one, and
    /// nothing else changes.
    pub open spec fn torn_down(&self, m0: &PageMgr, m1: &PageMgr) -> bool {
        let p0 = m0.pagepool;
        let p1 = m1.pagepool;
        let pud = self.table(1, 0)->0;
        let root = self.root();
        let tp = self.table_pages();
        &&& m1.wf()
        &&& m1.vsyscallPages@ == m0.vsyscallPages@
        &&& p1.refcount(pud) == p0.refcount(pud) - 1
        &&& p1.refcount(root) == p0.refcount(root) - 1
        &&& p1.allocated(pud) == (p1.refcount(pud) > 0)
        &&& p1.allocated(root) == (p1.refcount(root) > 0)
        &&& forall|j: int|
            0 <= j < tp.len() ==> {
                let b = #[trigger] tp[j];
                if p0.allocated(b) && p0.refcount(b) > 0 {
                    p1.refcount(b) == p0.refcount(b) - 1 && p1.allocated(b) == (p1.refcount(b) > 0)
                } else {
                    p1.refcount(b) == p0.refcount(b) && p1.allocated(b) == p0.allocated(b)
                }
            }
        &&& forall|b: u64|
            b != root && b != pud && !tp.contains(b) ==> #[trigger] p1.refcount(b) == p0.refcount(b)
        &&& forall|b: u64|
            b != root && b != pud && !tp.contains(b) ==> #[trigger] p1.allocated(b) == p0.allocated(b)
        &&& forall|va: u64|
            aligned(va) && (0x1000 <= va < 0x40_0000_0000 || 0x80_0000_0000 <= va < 0x8000_0000_0000)
                ==> #[trigger] self.mapping(&p1, va) is None
        &&& forall|va: u64|
            aligned(va) ==> #[trigger] self.mapping(&p1, va) == if Self::unmap_all_range(va) {
                None
            } else {
                self.mapping(&p0, va)
            }
    }

    /// Tears the address space down: takes its mappings down and drops the
    /// references of the root and the first level-3 table (see `UnmapAll`),
    /// gives the other tables back (see `FreePages`), and clears the root.
    pub fn Drop(&mut self, pagePool: &mut PageMgr)
        requires
            old(self).wf(&old(pagePool).pagepool),
            old(pagePool).wf(),
            old(self).table(1, 0) is Some,
            old(pagePool).pagepool.refcount(old(self).table(1, 0)->0) > 0,
            old(pagePool).pagepool.refcount(old(self).root()) > 0,
        ensures
            final(self).root() == 0,
            final(self).table_pages().len() == 0,
            old(self).torn_down(old(pagePool), final(pagePool)),
    {
        let ghost pt0 = *self;
        let ghost m0 = *pagePool;
        proof {
            self.lemma_table_pages(&pagePool.pagepool);
        }
        // The requirements make the tear-down succeed.
        let _unmapped = self.UnmapAll(pagePool);
        let ghost m1 = *pagePool;
        self.FreePages(pagePool);
        proof {
            let tp = pt0.table_pages();
            let pud = pt0.table(1, 0)->0;
            let root = pt0.root();
            assert(!tp.contains(pud)) by {
                if tp.contains(pud) {
                    let j = choose|j: int| 0 <= j < tp.len() && tp[j] == pud;
                    assert(tp[j] != pud);
                }
            }
            assert(!tp.contains(root)) by {
                if tp.contains(root) {
                    let j = choose|j: int| 0 <= j < tp.len() && tp[j] == root;
                    assert(tp[j] != root);
                }
            }
            assert forall|j: int| 0 <= j < tp.len() implies #[trigger] m1.pagepool.refcount(tp[j])
                == m0.pagepool.refcount(tp[j]) && m1.pagepool.allocated(tp[j]) == m0.pagepool.allocated(tp[j]) by {
                assert(tp[j] != root && tp[j] != pud);
            }
            assert forall|va: u64| aligned(va) implies #[trigger] pt0.mapping(&pagePool.pagepool, va)
                == pt0.mapping(&m1.pagepool, va) by {
                pt0.lemma_mapping_frame(&m1.pagepool, &pagePool.pagepool);
            }
        }
        self.SetRoot(0);
    }

    /// Tears the address space down unless it already was (root zero).
    pub fn drop(&mut self, pagePool: &mut PageMgr)
        requires
            old(self).root() != 0 ==> {
                &&& old(self).wf(&old(pagePool).pagepool)
                &&& old(pagePool).wf()
                &&& old(self).table(1, 0) is Some
                &&& old(pagePool).pagepool.refcount(old(self).table(1, 0)->0) > 0
                &&& old(pagePool).pagepool.refcount(old(self).root()) > 0
            },
        ensures
            final(self).root() == 0,
            old(self).root() == 0 ==> *final(pagePool) == *old(pagePool) && *final(self) == *old(self),
            old(self).root() != 0 ==> final(self).table_pages().len() == 0 && old(self).torn_down(
                old(pagePool),
                final(pagePool),
            ),
    {
        if self.GetRoot() == 0 {
            return;
        }
        self.Drop(pagePool);
    }

    /// The level-3, level-2 and level-1 tables on the path of address zero
    /// (entry zero at each level; an absent entry gives address zero).
    pub fn PrintZero(&self, pagePool: &PageMgr) -> (r: (u64, u64, u64))
        requires
            pagePool.pagepool.wf(),
            pagePool.pagepool.word(self.root(), 0) != 0,
        ensures
            r.0 == entry_addr(pagePool.pagepool.word(self.root(), 0)),
            r.1 == entry_addr(pagePool.pagepool.word(r.0, 0)),
            r.2 == entry_addr(pagePool.pagepool.word(r.1, 0)),
    {
        let pgdEntry = pagePool.pagepool.ReadWord(self.GetRoot(), 0);
        let pudTblAddr = addr_of_entry(pgdEntry);
        let pudEntry = pagePool.pagepool.ReadWord(pudTblAddr, 0);
        let pmdTblAddr = addr_of_entry(pudEntry);
        let pmdEntry = pagePool.pagepool.ReadWord(pmdTblAddr, 0);
        let pteTblAddr = addr_of_entry(pmdEntry);
        (pudTblAddr, pmdTblAddr, pteTblAddr)
    }

    /// Points the root entry of the vsyscall address at the shared vsyscall
    /// level-3 table `phyAddrs[3]`.
    pub fn MapVsyscall(&self, phyAddrs: &Vec<u64>, pagePool: &mut PageMgr)
        requires
            old(pagePool).wf(),
            self.wf(&old(pagePool).pagepool),
            phyAddrs@.len() >= 4,
            entry_addr_acceptable(phyAddrs@[3]),
            old(pagePool).pagepool.word(self.root(), 511) == 0,
        ensures
            final(pagePool).wf(),
            self.wf(&final(pagePool).pagepool),
            final(pagePool).vsyscallPages@ == old(pagePool).vsyscallPages@,
            final(pagePool).pagepool.available() == old(pagePool).pagepool.available(),
            final(pagePool).pagepool.word(self.root(), 511) == make_entry(phyAddrs@[3], VSYSCALL_FLAGS),
            forall|b: u64| #[trigger] final(pagePool).pagepool.allocated(b) == old(pagePool).pagepool.allocated(b),
            forall|b: u64| #[trigger] final(pagePool).pagepool.refcount(b) == old(pagePool).pagepool.refcount(b),
            forall|b: u64, j: int|
                (b != self.root() || j != 511) ==> #[trigger] final(pagePool).pagepool.word(b, j)
                    == old(pagePool).pagepool.word(b, j),
            forall|va: u64| #[trigger] self.mapping(&final(pagePool).pagepool, va) == self.mapping(&old(pagePool).pagepool, va),
    {
        proof {
            lemma_vsyscall_indices();
            self.lemma_wf_root(&pagePool.pagepool);
        }
        let root = self.GetRoot();
        let p4Idx = p4_index(VSYSCALL_ADDR);
        let e = entry_with_addr(phyAddrs[3], PRESENT | USER_ACCESSIBLE);
        self.set_shared_entry(&mut pagePool.pagepool, root, 0, p4Idx, e);
        proof {
            self.lemma_wf_root(&pagePool.pagepool);
        }
    }

    /// Builds the vsyscall path: the root entry points at the level-3 table
    /// `phyAddrs[3]`, whose entry points at the level-2 table `phyAddrs[2]`,
    /// whose entry points at the level-1 table `phyAddrs[1]`, whose entry
    /// maps the vsyscall page `phyAddrs[0]`; all present and user accessible.
    /// Each entry must be unused when it is written.
    pub fn InitVsyscall(&self, phyAddrs: &Vec<u64>, pagePool: &mut PageMgr)
        requires
            old(pagePool).wf(),
            self.wf(&old(pagePool).pagepool),
            phyAddrs@.len() >= 4,
            old(pagePool).pagepool.is_page(phyAddrs@[3]),
            old(pagePool).pagepool.is_page(phyAddrs@[2]),
            old(pagePool).pagepool.is_page(phyAddrs@[1]),
            entry_addr_acceptable(phyAddrs@[0]),
            old(pagePool).pagepool.word(self.root(), 511) == 0,
            phyAddrs@[3] != self.root(),
            old(pagePool).pagepool.word(phyAddrs@[3], 511) == 0,
            old(pagePool).pagepool.word(phyAddrs@[2], 507) == 0,
            old(pagePool).pagepool.word(phyAddrs@[1], 0) == 0,
        ensures
            final(pagePool).wf(),
            final(pagePool).vsyscallPages@ == old(pagePool).vsyscallPages@,
            final(pagePool).pagepool.available() == old(pagePool).pagepool.available(),
            final(pagePool).pagepool.word(self.root(), 511) == make_entry(phyAddrs@[3], VSYSCALL_FLAGS),
            final(pagePool).pagepool.word(phyAddrs@[3], 511) == make_entry(phyAddrs@[2], VSYSCALL_FLAGS),
            final(pagePool).pagepool.word(phyAddrs@[2], 507) == make_entry(phyAddrs@[1], VSYSCALL_FLAGS),
            final(pagePool).pagepool.word(phyAddrs@[1], 0) == make_entry(phyAddrs@[0], VSYSCALL_FLAGS),
            forall|b: u64| #[trigger] final(pagePool).pagepool.allocated(b) == old(pagePool).pagepool.allocated(b),
            forall|b: u64| #[trigger] final(pagePool).pagepool.refcount(b) == old(pagePool).pagepool.refcount(b),
            forall|b: u64, j: int|
                !((b == self.root() && j == 511) || (b == phyAddrs@[3] && j == 511) || (b == phyAddrs@[2]
                    && j == 507) || (b == phyAddrs@[1] && j == 0)) ==> #[trigger] final(pagePool).pagepool.word(b, j)
                    == old(pagePool).pagepool.word(b, j),
            !self.owns(phyAddrs@[3]) && !self.owns(phyAddrs@[2]) && !self.owns(phyAddrs@[1]) ==> {
                &&& self.wf(&final(pagePool).pagepool)
                &&& forall|va: u64| #[trigger] self.mapping(&final(pagePool).pagepool, va) == self.mapping(&old(pagePool).pagepool, va)
            },
    {
        let ghost pool0 = pagePool.pagepool;
        proof {
            lemma_vsyscall_indices();
            self.lemma_wf_root(&pagePool.pagepool);
            pagePool.pagepool.lemma_wf_facts();
        }
        let vaddr = VSYSCALL_ADDR;
        let p4Idx = p4_index(vaddr);
        let p3Idx = p3_index(vaddr);
        let p2Idx = p2_index(vaddr);
        let p1Idx = p1_index(vaddr);
        let root = self.GetRoot();
        let pudTbl = phyAddrs[3];
        let e = entry_with_addr(pudTbl, PRESENT | USER_ACCESSIBLE);
        self.set_shared_entry(&mut pagePool.pagepool, root, 0, p4Idx, e);
        let ghost pool1 = pagePool.pagepool;
        proof {
            self.lemma_wf_root(&pagePool.pagepool);
        }
        let pmdTbl = phyAddrs[2];
        let e = entry_with_addr(pmdTbl, PRESENT | USER_ACCESSIBLE);
        pagePool.pagepool.WriteWord(pudTbl, p3Idx, e);
        let pteTbl = phyAddrs[1];
        let e = entry_with_addr(pteTbl, PRESENT | USER_ACCESSIBLE);
        pagePool.pagepool.WriteWord(pmdTbl, p2Idx, e);
        let e = entry_with_addr(phyAddrs[0], PRESENT | USER_ACCESSIBLE);
        pagePool.pagepool.WriteWord(pteTbl, p1Idx, e);
        proof {
            if !self.owns(phyAddrs@[3]) && !self.owns(phyAddrs@[2]) && !self.owns(phyAddrs@[1]) {
                self.lemma_frame(&pool1, &pagePool.pagepool);
            }
        }
    }

    /// What building an address space that shares this one's kernel
    /// mappings gives, from page manager `p0` to `p1`: this address space is
    /// untouched and so are the pages handed out before. The new one has its
    /// own root and first level-3 table, whose kernel half copies this one's,
    /// the io-event page mapped to itself for the kernel, the vsyscall path,
    /// and nothing else. It takes four pages from the pool, and four more for
    /// the vsyscall pages if they did not exist yet. Without a first level-3
    /// table here the answer is `AddressNotMap(0)`; without pages it is
    /// `NoEnoughMemory`.
    pub open spec fn kernel_copy(&self, p0: &PageMgr, p1: &PageMgr, res: Result<PageTables, Error>) -> bool {
        let avail = p0.pagepool.available();
        let has_pud = self.table(1, 0) is Some;
        &&& p1.wf()
        &&& self.wf(&p1.pagepool)
        &&& forall|va: u64| #[trigger] self.mapping(&p1.pagepool, va) == self.mapping(&p0.pagepool, va)
        &&& forall|b: u64| #[trigger] p0.pagepool.allocated(b) ==> p1.pagepool.allocated(b)
        &&& forall|b: u64| #[trigger] p0.pagepool.allocated(b) ==> p1.pagepool.refcount(b) == p0.pagepool.refcount(b)
        &&& forall|b: u64, i: int| p0.pagepool.allocated(b) ==> #[trigger] p1.pagepool.word(b, i) == p0.pagepool.word(b, i)
        &&& (res is Ok <==> avail >= 4 && has_pud)
        &&& (res == Err::<PageTables, Error>(Error::AddressNotMap(0)) <==> avail >= 1 && !has_pud)
        &&& res == Err::<PageTables, Error>(Error::AddressNotMap(0)) ==> p1.pagepool.available() + 1 == avail
        &&& (res is Err && res != Err::<PageTables, Error>(Error::AddressNotMap(0)) ==> res == Err::<
            PageTables,
            Error,
        >(Error::NoEnoughMemory))
        &&& res is Ok ==> {
            let ret = res->Ok_0;
            &&& ret.wf(&p1.pagepool)
            &&& !p0.pagepool.allocated(ret.root())
            &&& ret.table(1, 0) is Some
            &&& p1.pagepool.refcount(ret.root()) == 1
            &&& p1.pagepool.refcount(ret.table(1, 0)->0) == 1
            &&& forall|b: u64| #[trigger] ret.owns(b) ==> !p0.pagepool.allocated(b)
            &&& forall|va: u64|
                aligned(va) ==> #[trigger] ret.mapping(&p1.pagepool, va) == if va == KVM_IOEVENTFD_BASEADDR {
                    Some(make_entry(KVM_IOEVENTFD_BASEADDR, PRESENT | WRITABLE | GLOBAL))
                } else {
                    None
                }
            &&& forall|i: int|
                KERNEL_START_P2_ENTRY <= i < KERNEL_END_P2_ENTRY ==> #[trigger] p1.pagepool.word(
                    ret.table(1, 0)->0,
                    i,
                ) == p0.pagepool.word(self.table(1, 0)->0, i)
            &&& p1.vsyscallPages@.len() == 4
            &&& p0.vsyscallPages@.len() == 4 ==> p1.vsyscallPages@ == p0.vsyscallPages@
            &&& p1.pagepool.word(ret.root(), 511) == make_entry(p1.vsyscallPages@[3], VSYSCALL_FLAGS)
            &&& p1.pagepool.available() + 4 + (if p0.vsyscallPages@.len() == 0 {
                4nat
            } else {
                0nat
            }) == avail
        }
    }

    /// A new address space that shares this one's kernel mappings (see
    /// `kernel_copy`). `vsyscallImage` is the vsyscall code, copied into the
    /// vsyscall page if it has to be created.
    pub fn NewWithKernelPageTables(&self, pagePool: &mut PageMgr, vsyscallImage: &Vec<u64>) -> (res: Result<
        Self,
        Error,
    >)
        requires
            old(pagePool).wf(),
            self.wf(&old(pagePool).pagepool),
            vsyscallImage@.len() <= 512,
            old(pagePool).vsyscallPages@.len() == 4 || self.table(1, 0) is None
                || old(pagePool).pagepool.available() < 4 || old(pagePool).pagepool.available() >= 8,
        ensures
            self.kernel_copy(old(pagePool), final(pagePool), res),
    {
        let ghost p0 = *pagePool;
        proof {
            self.lemma_wf_root(&pagePool.pagepool);
            pagePool.pagepool.lemma_wf_facts();
            self.lemma_child_entry(&pagePool.pagepool, 0, 0, 0);
        }
        let mut ret = match PageTables::New(&mut pagePool.pagepool) {
            Ok(pt) => pt,
            Err(e) => {
                return Err(e);
            },
        };
        let ghost p1 = *pagePool;
        let ghost ret0 = ret;
        proof {
            ret.lemma_wf_root(&pagePool.pagepool);
            assert(self.table(1, 0) is Some ==> self.table(1, 0)->0 != ret.root());
            self.lemma_frame(&p0.pagepool, &pagePool.pagepool);
        }
        let pgdEntry = pagePool.pagepool.ReadWord(self.GetRoot(), 0);
        if pgdEntry == 0 {
            return Err(Error::AddressNotMap(0));
        }
        let pudTbl = addr_of_entry(pgdEntry);
        let retRoot = ret.GetRoot();
        let r = ret.ensure_child(&mut pagePool.pagepool, retRoot, 0, Ghost(0nat), 0);
        let nPudTbl = match r {
            Ok(a) => a,
            Err(e) => {
                proof {
                    self.lemma_frame(&p0.pagepool, &pagePool.pagepool);
                }
                return Err(e);
            },
        };
        let ghost p2 = *pagePool;
        let ghost ret1 = ret;
        proof {
            assert(ret0.table(1, 0) is None);
            assert(pagePool.pagepool.refcount(nPudTbl) == 1);
            ret.lemma_wf_root(&pagePool.pagepool);
            ret.lemma_child_entry(&pagePool.pagepool, 0, 0, 0);
            assert forall|b: u64| #[trigger] ret.owns(b) implies !p0.pagepool.allocated(b) by {
                if ret0.owns(b) {
                    assert(b == ret0.root());
                } else {
                    assert(!p1.pagepool.allocated(b));
                }
            }
            assert forall|b: u64| #[trigger] p0.pagepool.allocated(b) implies pagePool.pagepool.allocated(b)
                && pagePool.pagepool.refcount(b) == p0.pagepool.refcount(b) by {
                assert(b != ret0.root());
                assert(p1.pagepool.allocated(b));
            }
            assert forall|b: u64, j: int| p0.pagepool.allocated(b) implies #[trigger] pagePool.pagepool.word(b, j)
                == p0.pagepool.word(b, j) by {
                assert(b != ret0.root());
                assert(!ret.owns(b));
                assert(p1.pagepool.word(b, j) == p0.pagepool.word(b, j));
            }
            assert forall|b: u64| #[trigger] self.owns(b) implies pagePool.pagepool.allocated(b) by {
                assert(p0.pagepool.allocated(b));
            }
            self.lemma_frame(&p0.pagepool, &pagePool.pagepool);
            assert(ret.shared_slot(1, 256));
            assert(nPudTbl != ret.root());
            assert(p0.pagepool.allocated(pudTbl));
            assert(ret0.shared_slot(0, 511));
            assert(pagePool.pagepool.word(ret.root(), 511) == p1.pagepool.word(ret.root(), 511));
        }
        // Share the kernel half of the first level-3 table.
        let mut i: u64 = KERNEL_START_P2_ENTRY;
        while i < KERNEL_END_P2_ENTRY
            invariant
                KERNEL_START_P2_ENTRY <= i <= KERNEL_END_P2_ENTRY,
                pagePool.wf(),
                pagePool.vsyscallPages@ == p0.vsyscallPages@,
                ret.wf(&pagePool.pagepool),
                self.wf(&p0.pagepool),
                ret.table(1, 0) == Some(nPudTbl),
                ret.root() == ret1.root(),
                ret == ret1,
                self.table(1, 0) == Some(pudTbl),
                ret.pool_step(&ret0, &p1.pagepool, &pagePool.pagepool),
                pagePool.pagepool.available() == p2.pagepool.available(),
                forall|b: u64| #[trigger] ret.owns(b) ==> !p0.pagepool.allocated(b),
                forall|b: u64| #[trigger] p0.pagepool.allocated(b) ==> pagePool.pagepool.allocated(b),
                forall|b: u64| #[trigger] p0.pagepool.allocated(b) ==> pagePool.pagepool.refcount(b) == p0.pagepool.refcount(b),
                forall|b: u64, j: int| p0.pagepool.allocated(b) ==> #[trigger] pagePool.pagepool.word(b, j) == p0.pagepool.word(b, j),
                forall|va: u64| #[trigger] ret.mapping(&pagePool.pagepool, va) is None,
                forall|j: int| KERNEL_START_P2_ENTRY <= j < i ==> #[trigger] pagePool.pagepool.word(nPudTbl, j)
                    == p0.pagepool.word(pudTbl, j),
                pagePool.pagepool.word(ret.root(), 511) == 0,
                pagePool.pagepool.refcount(nPudTbl) == 1,
                pagePool.pagepool.allocated(nPudTbl),
                nPudTbl != ret.root(),
                p0.pagepool.allocated(pudTbl),
            decreases KERNEL_END_P2_ENTRY - i,
        {
            let e = pagePool.pagepool.ReadWord(pudTbl, i);
            let ghost before = pagePool.pagepool;
            proof {
                ret.lemma_wf_root(&pagePool.pagepool);
                assert(ret.shared_slot(1, i as nat));
            }
            ret.set_shared_entry(&mut pagePool.pagepool, nPudTbl, 1, i, e);
            proof {
                PageTables::lemma_pool_step_trans(&ret0, &ret, &ret, &p1.pagepool, &before, &pagePool.pagepool);
                ret.lemma_wf_root(&pagePool.pagepool);
                assert(e == p0.pagepool.word(pudTbl, i as int));
            }
            i = i + 1;
        }
        let ghost p3 = *pagePool;
        proof {
            assert(p3.pagepool.allocated(nPudTbl));
            assert(leaf_flags_ok(1u64 | 2u64 | 0x100u64)) by (bit_vector);
            assert(0u64 >> 21u64 == 0 && 0u64 >> 30u64 == 0 && 0u64 >> 39u64 == 0) by (bit_vector);
            assert(prefix_at(KVM_IOEVENTFD_BASEADDR, 1) == 0);
            assert(prefix_at(KVM_IOEVENTFD_BASEADDR, 2) == 0);
            assert(prefix_at(KVM_IOEVENTFD_BASEADDR, 3) == 0);
            ret.lemma_missing_tables(KVM_IOEVENTFD_BASEADDR);
            assert(ret0.table(2, 0) is None);
            assert(ret0.table(3, 0) is None);
            assert(ret.table(2, 0) is None);
            assert(ret.table(3, 0) is None);
            assert(ret.missing_tables(KVM_IOEVENTFD_BASEADDR) == 2);
            assert(map_page_error(KVM_IOEVENTFD_BASEADDR, KVM_IOEVENTFD_BASEADDR) is None);
        }
        // The io-event page, mapped to itself for the kernel.
        let r = ret.MapPage(KVM_IOEVENTFD_BASEADDR, KVM_IOEVENTFD_BASEADDR, PageOpts::Kernel().Val(), pagePool);
        let ghost ret2 = ret;
        let ghost p4 = *pagePool;
        proof {
            PageTables::lemma_pool_step_trans(&ret0, &ret1, &ret, &p1.pagepool, &p3.pagepool, &pagePool.pagepool);
            ret.lemma_wf_root(&pagePool.pagepool);
            assert forall|b: u64| #[trigger] ret.owns(b) implies !p0.pagepool.allocated(b) by {
                if !ret1.owns(b) {
                    assert(!p3.pagepool.allocated(b));
                }
            }
            assert forall|b: u64, j: int| p0.pagepool.allocated(b) implies #[trigger] pagePool.pagepool.word(b, j)
                == p0.pagepool.word(b, j) by {
                assert(!ret.owns(b));
                assert(p3.pagepool.word(b, j) == p0.pagepool.word(b, j));
            }
            self.lemma_frame(&p0.pagepool, &pagePool.pagepool);
        }
        match r {
            Ok(()) => {},
            Err(e) => {
                return Err(e);
            },
        }
        proof {
            assert(ret1.shared_slot(1, 256));
            assert forall|j: int| KERNEL_START_P2_ENTRY <= j < KERNEL_END_P2_ENTRY implies #[trigger] pagePool.pagepool.word(
                nPudTbl,
                j,
            ) == p0.pagepool.word(pudTbl, j) by {
                assert(ret1.shared_slot(1, j as nat));
                assert(p3.pagepool.word(nPudTbl, j) == p0.pagepool.word(pudTbl, j));
            }
            assert(ret1.shared_slot(0, 511));
        }
        // The vsyscall pages, shared by all address spaces.
        let vsyscallPages = pagePool.VsyscallPages(vsyscallImage);
        let ghost p5 = *pagePool;
        proof {
            assert(p4.pagepool.refcount(nPudTbl) == 1);
            assert(p4.pagepool.allocated(nPudTbl));
            if p4.vsyscallPages@.len() == 0 && vsyscallPages@.contains(nPudTbl) {
                let k = choose|k: int| 0 <= k < vsyscallPages@.len() && vsyscallPages@[k] == nPudTbl;
                assert(!p4.pagepool.allocated(vsyscallPages@[k]));
            }
            assert(pagePool.pagepool.refcount(nPudTbl) == 1);
            pagePool.pagepool.lemma_wf_facts();
            p4.pagepool.lemma_wf_facts();
            assert forall|b: u64| #[trigger] ret.owns(b) implies !vsyscallPages@.contains(b) || p4.vsyscallPages@.len()
                != 0 by {
                if p4.vsyscallPages@.len() == 0 && vsyscallPages@.contains(b) {
                    let k = choose|k: int| 0 <= k < vsyscallPages@.len() && vsyscallPages@[k] == b;
                    assert(!p4.pagepool.allocated(vsyscallPages@[k]));
                }
            }
            assert forall|b: u64| #[trigger] ret.owns(b) implies pagePool.pagepool.allocated(b) by {
                if p4.vsyscallPages@.len() == 0 && vsyscallPages@.contains(b) {
                    let k = choose|k: int| 0 <= k < vsyscallPages@.len() && vsyscallPages@[k] == b;
                    assert(!p4.pagepool.allocated(vsyscallPages@[k]));
                }
            }
            assert forall|b: u64, j: int| ret.owns(b) implies #[trigger] pagePool.pagepool.word(b, j)
                == p4.pagepool.word(b, j) by {
                if p4.vsyscallPages@.len() == 0 && vsyscallPages@.contains(b) {
                    let k = choose|k: int| 0 <= k < vsyscallPages@.len() && vsyscallPages@[k] == b;
                    assert(!p4.pagepool.allocated(vsyscallPages@[k]));
                }
            }
            ret.lemma_frame(&p4.pagepool, &pagePool.pagepool);
            assert forall|b: u64| #[trigger] self.owns(b) implies pagePool.pagepool.allocated(b) by {
                if p4.vsyscallPages@.len() == 0 && vsyscallPages@.contains(b) {
                    let k = choose|k: int| 0 <= k < vsyscallPages@.len() && vsyscallPages@[k] == b;
                    assert(!p4.pagepool.allocated(vsyscallPages@[k]));
                }
            }
            assert forall|b: u64, j: int| p0.pagepool.allocated(b) implies #[trigger] pagePool.pagepool.word(b, j)
                == p0.pagepool.word(b, j) && pagePool.pagepool.allocated(b) && pagePool.pagepool.refcount(b)
                == p0.pagepool.refcount(b) by {
                if p4.vsyscallPages@.len() == 0 && vsyscallPages@.contains(b) {
                    let k = choose|k: int| 0 <= k < vsyscallPages@.len() && vsyscallPages@[k] == b;
                    assert(!p4.pagepool.allocated(vsyscallPages@[k]));
                }
            }
            self.lemma_frame(&p0.pagepool, &pagePool.pagepool);
            ret.lemma_wf_root(&pagePool.pagepool);
            pagePool.pagepool.lemma_wf_facts();
            if p4.vsyscallPages@.len() == 0 {
                assert(pagePool.pagepool.allocated(vsyscallPages@[3]));
                assert(pagePool.pagepool.is_page(vsyscallPages@[3]));
            }
            assert(entry_addr_acceptable(vsyscallPages@[3]));
        }
        ret.MapVsyscall(&vsyscallPages, pagePool);
        proof {
            self.lemma_frame(&p0.pagepool, &pagePool.pagepool);
        }
        Ok(ret)
    }

    /// A new address space for a forked process: it shares this one's kernel
    /// mappings (see `kernel_copy`).
    pub fn Fork(&self, pagePool: &mut PageMgr, vsyscallImage: &Vec<u64>) -> (res: Result<Self, Error>)
        requires
            old(pagePool).wf(),
            self.wf(&old(pagePool).pagepool),
            vsyscallImage@.len() <= 512,
            old(pagePool).vsyscallPages@.len() == 4 || self.table(1, 0) is None
                || old(pagePool).pagepool.available() < 4 || old(pagePool).pagepool.available() >= 8,
        ensures
            self.kernel_copy(old(pagePool), final(pagePool), res),
    {
        let pt = self.NewWithKernelPageTables(pagePool, vsyscallImage)?;
        Ok(pt)
    }
}

} // verus!
