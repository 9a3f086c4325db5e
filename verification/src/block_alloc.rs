use vstd::prelude::*;
use crate::defs::{Error, PAGE_SIZE, PHY_LOWER_ADDR, PHY_UPPER_ADDR};

verus! {

/// Largest number of pages a pool may hold (4 GB of memory).
pub const MAX_POOL_PAGES: u64 = 0x10_0000;

/// Address of the first page of a pool.
pub const POOL_BASE: u64 = PHY_LOWER_ADDR;

/// Address of the page with index `p`.
pub open spec fn page_addr(p: int) -> int {
    POOL_BASE + p * (PAGE_SIZE as int)
}

/// Index of the page that starts at `addr`.
pub open spec fn page_index(addr: u64) -> int {
    (addr - POOL_BASE) / (PAGE_SIZE as int)
}

/// A page address lies below the first page past index `n` exactly when its
/// index is below `n`.
pub proof fn lemma_page_bound(x: u64, n: int)
    requires
        x >= POOL_BASE,
        (x - POOL_BASE) % (PAGE_SIZE as int) == 0,
    ensures
        page_index(x) < n <==> x < page_addr(n),
{
    let d: int = x - POOL_BASE;
    assert(d == 4096 * (d / 4096)) by (nonlinear_arith)
        requires
            d % 4096 == 0,
    ;
    assert((d / 4096) < n <==> 4096 * (d / 4096) < n * 4096) by (nonlinear_arith);
}

/// Index of word `i` of page `p` in the flat word store.
pub open spec fn word_index(p: int, i: int) -> int {
    p * 512 + i
}

pub proof fn lemma_word_index(p: int, i: int, n: int)
    requires
        0 <= p < n,
        0 <= i < 512,
    ensures
        0 <= word_index(p, i) < n * 512,
        word_index(p, i) >= p * 512,
{
    assert(p * 512 + i < n * 512) by (nonlinear_arith)
        requires
            0 <= p < n,
            0 <= i < 512,
    ;
    assert(p * 512 >= 0) by (nonlinear_arith)
        requires
            0 <= p,
    ;
}

pub proof fn lemma_word_index_distinct(p: int, i: int, q: int, j: int)
    requires
        0 <= i < 512,
        0 <= j < 512,
        p != q || i != j,
    ensures
        word_index(p, i) != word_index(q, j),
{
    assert(p * 512 + i != q * 512 + j) by (nonlinear_arith)
        requires
            0 <= i < 512,
            0 <= j < 512,
            p != q || i != j,
    ;
}

pub proof fn lemma_page_addr_index(p: int)
    requires
        0 <= p < MAX_POOL_PAGES,
    ensures
        page_addr(p) < PHY_UPPER_ADDR,
        page_addr(p) >= POOL_BASE,
        (page_addr(p) - POOL_BASE) % (PAGE_SIZE as int) == 0,
        page_index(page_addr(p) as u64) == p,
        page_addr(p) % (PAGE_SIZE as int) == 0,
{
    assert(p * 4096 < 0x1_0000_0000) by (nonlinear_arith)
        requires
            0 <= p < 0x10_0000,
    ;
    assert(p * 4096 >= 0) by (nonlinear_arith)
        requires
            0 <= p,
    ;
    assert((p * 4096) % 4096 == 0 && (p * 4096) / 4096 == p) by (nonlinear_arith)
        requires
            0 <= p,
    ;
    assert((0x40_0000_0000 + p * 4096) % 4096 == 0) by (nonlinear_arith)
        requires
            0 <= p,
    ;
}

/// Number of `false` entries of `s`.
pub open spec fn count_free(s: Seq<bool>) -> nat
    decreases s.len(),
{
    if s.len() == 0 {
        0
    } else {
        count_free(s.drop_last()) + (if s.last() {
            0nat
        } else {
            1nat
        })
    }
}

pub proof fn lemma_count_free_push(s: Seq<bool>, b: bool)
    ensures
        count_free(s.push(b)) == count_free(s) + (if b {
            0nat
        } else {
            1nat
        }),
{
    assert(s.push(b).drop_last() =~= s);
}

pub proof fn lemma_count_free_update(s: Seq<bool>, p: int, b: bool)
    requires
        0 <= p < s.len(),
    ensures
        count_free(s.update(p, b)) + (if s[p] {
            0nat
        } else {
            1nat
        }) == count_free(s) + (if b {
            0nat
        } else {
            1nat
        }),
    decreases s.len(),
{
    if p == s.len() - 1 {
        assert(s.update(p, b).drop_last() =~= s.drop_last());
    } else {
        lemma_count_free_update(s.drop_last(), p, b);
        assert(s.update(p, b).drop_last() =~= s.drop_last().update(p, b));
    }
}

pub proof fn lemma_count_free_pos(s: Seq<bool>)
    ensures
        count_free(s) > 0 <==> exists|p: int| 0 <= p < s.len() && !s[p],
    decreases s.len(),
{
    if s.len() > 0 {
        lemma_count_free_pos(s.drop_last());
        if count_free(s) > 0 {
            if s.last() {
                let p = choose|p: int| 0 <= p < s.drop_last().len() && !s.drop_last()[p];
                assert(!s[p]);
            } else {
                assert(!s[s.len() - 1]);
            }
        }
        if exists|p: int| 0 <= p < s.len() && !s[p] {
            let p = choose|p: int| 0 <= p < s.len() && !s[p];
            if p < s.len() - 1 {
                assert(!s.drop_last()[p]);
            }
        }
    }
}

/// A pool of 4 KB pages with reference counts. Pages are handed out by
/// address; the pool grows one page at a time up to its limit, and a page
/// whose count drops to zero goes back to the pool.
pub struct PageBlockAlloc {
    words: Vec<u64>,
    refs: Vec<u64>,
    used: Vec<bool>,
    limit: u64,
}

impl PageBlockAlloc {
    /// Number of pages the pool has created so far.
    pub closed spec fn npages(&self) -> nat {
        self.used@.len()
    }

    /// Number of pages the pool may create.
    pub closed spec fn limit(&self) -> nat {
        self.limit as nat
    }

    pub closed spec fn wf(&self) -> bool {
        &&& self.limit <= MAX_POOL_PAGES
        &&& self.used@.len() <= self.limit
        &&& self.refs@.len() == self.used@.len()
        &&& self.words@.len() == self.used@.len() * 512
        &&& forall|p: int| 0 <= p < self.used@.len() && !self.used@[p] ==> self.refs@[p] == 0
    }

    /// Whether `addr` is the address of a page that the pool has created.
    pub open spec fn is_page(&self, addr: u64) -> bool {
        &&& addr >= POOL_BASE
        &&& (addr - POOL_BASE) % (PAGE_SIZE as int) == 0
        &&& page_index(addr) < self.npages()
    }

    /// Whether the page at `addr` is handed out.
    pub closed spec fn allocated(&self, addr: u64) -> bool {
        self.is_page(addr) && self.used@[page_index(addr)]
    }

    /// Reference count of the page at `addr` (zero for anything else).
    pub closed spec fn refcount(&self, addr: u64) -> nat {
        if self.is_page(addr) {
            self.refs@[page_index(addr)] as nat
        } else {
            0
        }
    }

    /// Word `i` of the page at `addr` (zero for anything else).
    pub closed spec fn word(&self, addr: u64, i: int) -> u64 {
        if self.is_page(addr) && 0 <= i < 512 {
            self.words@[word_index(page_index(addr), i)]
        } else {
            0
        }
    }

    /// Number of pages that can still be handed out: the free created pages
    /// and the pages the pool may still create.
    pub closed spec fn available(&self) -> nat {
        count_free(self.used@) + (self.limit - self.used@.len()) as nat
    }

    /// The pool can hand out a page exactly when one is available.
    pub proof fn lemma_available(&self)
        requires
            self.wf(),
        ensures
            self.exhausted() <==> self.available() == 0,
    {
        lemma_count_free_pos(self.used@);
        if self.has_free() {
            let a = choose|a: u64| #[trigger] self.is_page(a) && !self.allocated(a);
            assert(!self.used@[page_index(a)]);
        }
        if count_free(self.used@) > 0 {
            let p = choose|p: int| 0 <= p < self.used@.len() && !self.used@[p];
            lemma_page_addr_index(p);
            let a = page_addr(p) as u64;
            assert(self.is_page(a) && !self.allocated(a));
        }
    }

    /// Whether some created page is free.
    pub open spec fn has_free(&self) -> bool {
        exists|a: u64| #[trigger] self.is_page(a) && !self.allocated(a)
    }

    /// Whether no page can be handed out: all created pages are in use and
    /// the limit is reached.
    pub open spec fn exhausted(&self) -> bool {
        !self.has_free() && self.npages() >= self.limit()
    }

    /// Whether `a` is the free page with the lowest address.
    pub open spec fn lowest_free(&self, a: u64) -> bool {
        &&& self.is_page(a)
        &&& !self.allocated(a)
        &&& forall|b: u64| #[trigger] self.is_page(b) && b < a ==> self.allocated(b)
    }

    /// What taking a reference on `addr` does: it succeeds on an allocated
    /// page whose count can grow, returns the new count, and changes nothing
    /// else; otherwise nothing changes.
    pub open spec fn ref_post(&self, new: &Self, addr: u64, res: Result<u64, Error>) -> bool {
        &&& res is Ok <==> self.allocated(addr) && self.refcount(addr) < u64::MAX
        &&& res is Err ==> res->Err_0 == Error::InvalidInput && *new == *self
        &&& res is Ok ==> {
            &&& res->Ok_0 == self.refcount(addr) + 1
            &&& new.refcount(addr) == self.refcount(addr) + 1
            &&& new.allocated(addr)
            &&& forall|i: int| #[trigger] new.word(addr, i) == self.word(addr, i)
            &&& new.others_unchanged(self, addr)
        }
    }

    /// What dropping a reference on `addr` does: it succeeds on an allocated
    /// page with references, returns the new count, frees the page when the
    /// count reaches zero, and changes nothing else; otherwise nothing
    /// changes.
    pub open spec fn deref_post(&self, new: &Self, addr: u64, res: Result<u64, Error>) -> bool {
        &&& res is Ok <==> self.allocated(addr) && self.refcount(addr) > 0
        &&& res is Err ==> res->Err_0 == Error::InvalidInput && *new == *self
        &&& res is Ok ==> {
            &&& res->Ok_0 == self.refcount(addr) - 1
            &&& new.refcount(addr) == self.refcount(addr) - 1
            &&& new.allocated(addr) == (res->Ok_0 > 0)
            &&& forall|i: int| #[trigger] new.word(addr, i) == self.word(addr, i)
            &&& new.others_unchanged(self, addr)
        }
    }

    /// Pages other than `a` keep their state and contents from `old`, and no
    /// page of `old` stops being a page of the pool.
    pub open spec fn others_unchanged(&self, old: &Self, a: u64) -> bool {
        &&& self.npages() >= old.npages()
        &&& forall|b: u64| b != a ==> #[trigger] self.allocated(b) == old.allocated(b)
        &&& forall|b: u64| b != a ==> #[trigger] self.refcount(b) == old.refcount(b)
        &&& forall|b: u64, i: int| b != a ==> #[trigger] self.word(b, i) == old.word(b, i)
    }

    pub proof fn lemma_wf_facts(&self)
        requires
            self.wf(),
        ensures
            self.limit() <= MAX_POOL_PAGES,
            self.npages() <= self.limit(),
            forall|b: u64| !self.allocated(b) ==> #[trigger] self.refcount(b) == 0,
            forall|b: u64| #[trigger] self.allocated(b) ==> self.is_page(b),
            forall|b: u64| #[trigger] self.is_page(b) ==> b < PHY_UPPER_ADDR && b % 4096 == 0,
    {
        assert forall|b: u64| #[trigger] self.is_page(b) implies b < PHY_UPPER_ADDR && b % 4096 == 0 by {
            let p = page_index(b);
            assert(b == page_addr(p)) by (nonlinear_arith)
                requires
                    b >= POOL_BASE,
                    (b - POOL_BASE) % 4096 == 0,
                    p == (b - POOL_BASE) / 4096,
            ;
            lemma_page_addr_index(p);
        }
    }

    /// An empty pool that may create up to `limit` pages.
    pub fn WithLimit(limit: u64) -> (pool: Self)
        requires
            limit <= MAX_POOL_PAGES,
        ensures
            pool.wf(),
            pool.npages() == 0,
            pool.limit() == limit,
            pool.available() == limit,
            forall|a: u64| !#[trigger] pool.allocated(a),
    {
        PageBlockAlloc { words: Vec::new(), refs: Vec::new(), used: Vec::new(), limit }
    }

    /// The index of the page at `addr`, if it is one.
    fn index_of(&self, addr: u64) -> (r: Option<usize>)
        requires
            self.wf(),
        ensures
            self.is_page(addr) <==> r is Some,
            r is Some ==> r->0 == page_index(addr) && r->0 < self.used@.len(),
    {
        if addr < POOL_BASE {
            return None;
        }
        let off = addr - POOL_BASE;
        if off % PAGE_SIZE != 0 {
            return None;
        }
        let idx = off / PAGE_SIZE;
        if idx < self.used.len() as u64 {
            Some(idx as usize)
        } else {
            None
        }
    }

    /// Address of the page with index `idx`.
    fn addr_at(&self, idx: usize) -> (a: u64)
        requires
            self.wf(),
            idx < self.limit(),
        ensures
            a == page_addr(idx as int),
            page_index(a) == idx,
            a >= POOL_BASE,
            (a - POOL_BASE) % (PAGE_SIZE as int) == 0,
    {
        proof {
            lemma_page_addr_index(idx as int);
        }
        POOL_BASE + (idx as u64) * PAGE_SIZE
    }

    /// Hands out a page with zeroed contents: the free page with the lowest
    /// address, or else a new page. Its count is one if `incrRef`, else zero.
    pub fn AllocPage(&mut self, incrRef: bool) -> (res: Result<u64, Error>)
        requires
            old(self).wf(),
        ensures
            final(self).wf(),
            final(self).limit() == old(self).limit(),
            res is Err <==> old(self).exhausted(),
            res is Err <==> old(self).available() == 0,
            res is Ok ==> final(self).available() + 1 == old(self).available(),
            res is Err ==> res->Err_0 == Error::NoEnoughMemory && *final(self) == *old(self),
            res is Ok ==> ({
                let a = res->Ok_0;
                &&& old(self).has_free() ==> old(self).lowest_free(a) && final(self).npages()
                    == old(self).npages()
                &&& !old(self).has_free() ==> a == page_addr(old(self).npages() as int)
                    && final(self).npages() == old(self).npages() + 1
                &&& !old(self).allocated(a)
                &&& final(self).is_page(a)
                &&& final(self).allocated(a)
                &&& final(self).refcount(a) == (if incrRef { 1nat } else { 0nat })
                &&& forall|i: int| 0 <= i < 512 ==> #[trigger] final(self).word(a, i) == 0
                &&& final(self).others_unchanged(old(self), a)
            }),
    {
        let n = self.used.len();
        let mut p: usize = 0;
        while p < n
            invariant
                self.wf(),
                n == self.used@.len(),
                p <= n,
                forall|q: int| 0 <= q < p ==> self.used@[q],
            ensures
                p <= n,
                p < n ==> !self.used@[p as int],
                forall|q: int| 0 <= q < p ==> self.used@[q],
            decreases n - p,
        {
            if !self.used[p] {
                break;
            }
            p = p + 1;
        }
        if p == n && (n as u64) >= self.limit {
            proof {
                assert forall|a: u64| #[trigger] self.is_page(a) implies self.allocated(a) by {
                    assert(self.used@[page_index(a)]);
                }
            }
            proof {
                self.lemma_available();
            }
            return Err(Error::NoEnoughMemory);
        }
        let ghost pre = *self;
        proof {
            self.lemma_available();
            if p < n {
                let a = page_addr(p as int);
                lemma_page_addr_index(p as int);
                assert(self.is_page(a as u64));
                assert(!self.allocated(a as u64));
            } else {
                assert forall|a: u64| #[trigger] self.is_page(a) implies self.allocated(a) by {
                    assert(self.used@[page_index(a)]);
                }
            }
        }
        if p == n {
            let mut j: usize = 0;
            while j < 512
                invariant
                    j <= 512,
                    self.words@.len() == n * 512 + j,
                    self.words@.subrange(0, n * 512) == pre.words@,
                    forall|k: int| n * 512 <= k < n * 512 + j ==> self.words@[k] == 0,
                    self.used@ == pre.used@,
                    self.refs@ == pre.refs@,
                    self.limit == pre.limit,
                    n == pre.used@.len(),
                    pre.wf(),
                    n < pre.limit,
                decreases 512 - j,
            {
                self.words.push(0);
                j = j + 1;
                proof {
                    assert(self.words@.subrange(0, n * 512) =~= pre.words@);
                }
            }
            proof {
                lemma_count_free_push(self.used@, true);
            }
            self.used.push(true);
            self.refs.push(if incrRef { 1 } else { 0 });
        } else {
            let mut j: usize = 0;
            proof {
                lemma_word_index(p as int, 0, n as int);
            }
            while j < 512
                invariant
                    j <= 512,
                    p < n,
                    self.words@.len() == n * 512,
                    forall|k: int|
                        0 <= k < n * 512 && !(p * 512 <= k < p * 512 + j) ==> self.words@[k]
                            == pre.words@[k],
                    forall|k: int| p * 512 <= k < p * 512 + j ==> self.words@[k] == 0,
                    self.used@ == pre.used@,
                    self.refs@ == pre.refs@,
                    self.limit == pre.limit,
                    n == pre.used@.len(),
                    pre.wf(),
                decreases 512 - j,
            {
                proof {
                    lemma_word_index(p as int, j as int, n as int);
                }
                self.words.set(p * 512 + j, 0);
                j = j + 1;
            }
            proof {
                lemma_count_free_update(self.used@, p as int, true);
            }
            self.used.set(p, true);
            self.refs.set(p, if incrRef { 1 } else { 0 });
        }
        let a = self.addr_at(p);
        proof {
            assert(self.is_page(a));
            assert forall|i: int| 0 <= i < 512 implies #[trigger] self.word(a, i) == 0 by {
                lemma_word_index(p as int, i, self.used@.len() as int);
            }
            assert forall|b: u64, i: int| b != a implies #[trigger] self.word(b, i) == pre.word(b, i) by {
                if pre.is_page(b) && 0 <= i < 512 {
                    let q = page_index(b);
                    lemma_word_index(q, i, n as int);
                    lemma_word_index_distinct(q, i, p as int, 0);
                    if q * 512 + i >= p * 512 && q * 512 + i < p * 512 + 512 {
                        assert(q == p) by (nonlinear_arith)
                            requires
                                q * 512 + i >= p * 512,
                                q * 512 + i < p * 512 + 512,
                                0 <= i < 512,
                        ;
                        assert(b == a) by (nonlinear_arith)
                            requires
                                q == p,
                                q == (b - POOL_BASE) / 4096,
                                (b - POOL_BASE) % 4096 == 0,
                                b >= POOL_BASE,
                                a == POOL_BASE + p * 4096,
                        ;
                    }
                } else if self.is_page(b) && 0 <= i < 512 {
                    assert(page_index(b) == p);
                    assert(b == a) by (nonlinear_arith)
                        requires
                            p == (b - POOL_BASE) / 4096,
                            (b - POOL_BASE) % 4096 == 0,
                            b >= POOL_BASE,
                            a == POOL_BASE + p * 4096,
                    ;
                }
            }
            assert forall|b: u64| b != a implies #[trigger] self.allocated(b) == pre.allocated(b)
                && self.refcount(b) == pre.refcount(b) by {
                if self.is_page(b) && page_index(b) == p {
                    assert(b == a) by (nonlinear_arith)
                        requires
                            p == (b - POOL_BASE) / 4096,
                            (b - POOL_BASE) % 4096 == 0,
                            b >= POOL_BASE,
                            a == POOL_BASE + p * 4096,
                    ;
                }
            }
            assert forall|b: u64| b != a implies #[trigger] self.refcount(b) == pre.refcount(b) by {
                if self.is_page(b) && page_index(b) == p {
                    assert(b == a) by (nonlinear_arith)
                        requires
                            p == (b - POOL_BASE) / 4096,
                            (b - POOL_BASE) % 4096 == 0,
                            b >= POOL_BASE,
                            a == POOL_BASE + p * 4096,
                    ;
                }
            }
            if pre.has_free() {
                assert forall|b: u64| #[trigger] pre.is_page(b) && b < a implies pre.allocated(b) by {
                    assert(page_index(b) < p) by (nonlinear_arith)
                        requires
                            b < a,
                            b >= POOL_BASE,
                            a == POOL_BASE + p * 4096,
                            page_index(b) == (b - POOL_BASE) / 4096,
                    ;
                }
            }
        }
        Ok(a)
    }

    /// Proves that a page found at index `p` by address is that address.
    proof fn lemma_index_unique(&self, a: u64, b: u64)
        requires
            self.is_page(a),
            self.is_page(b),
            page_index(a) == page_index(b),
        ensures
            a == b,
    {
        assert(a == b) by (nonlinear_arith)
            requires
                a >= POOL_BASE,
                b >= POOL_BASE,
                (a - POOL_BASE) % 4096 == 0,
                (b - POOL_BASE) % 4096 == 0,
                (a - POOL_BASE) / 4096 == (b - POOL_BASE) / 4096,
        ;
    }

    /// Takes one more reference on an allocated page; returns the new count.
    pub fn Ref(&mut self, addr: u64) -> (res: Result<u64, Error>)
        requires
            old(self).wf(),
        ensures
            final(self).wf(),
            final(self).npages() == old(self).npages(),
            final(self).limit() == old(self).limit(),
            final(self).available() == old(self).available(),
            old(self).ref_post(final(self), addr, res),
    {
        match self.index_of(addr) {
            None => Err(Error::InvalidInput),
            Some(p) => {
                if !self.used[p] || self.refs[p] == u64::MAX {
                    return Err(Error::InvalidInput);
                }
                let c = self.refs[p] + 1;
                let ghost pre = *self;
                self.refs.set(p, c);
                proof {
                    assert forall|b: u64| b != addr implies #[trigger] self.refcount(b) == pre.refcount(b) by {
                        if self.is_page(b) && page_index(b) == p {
                            self.lemma_index_unique(addr, b);
                        }
                    }
                }
                Ok(c)
            },
        }
    }

    /// Drops one reference on an allocated page; returns the new count. A
    /// page whose count reaches zero goes back to the pool.
    pub fn Deref(&mut self, addr: u64) -> (res: Result<u64, Error>)
        requires
            old(self).wf(),
        ensures
            final(self).wf(),
            final(self).npages() == old(self).npages(),
            final(self).limit() == old(self).limit(),
            final(self).available() == old(self).available() + (if res is Ok && res->Ok_0 == 0 {
                1nat
            } else {
                0nat
            }),
            old(self).deref_post(final(self), addr, res),
    {
        match self.index_of(addr) {
            None => Err(Error::InvalidInput),
            Some(p) => {
                if !self.used[p] || self.refs[p] == 0 {
                    return Err(Error::InvalidInput);
                }
                let c = self.refs[p] - 1;
                let ghost pre = *self;
                self.refs.set(p, c);
                if c == 0 {
                    proof {
                        lemma_count_free_update(self.used@, p as int, false);
                    }
                    self.used.set(p, false);
                }
                proof {
                    assert forall|b: u64| b != addr implies #[trigger] self.refcount(b) == pre.refcount(b)
                        && self.allocated(b) == pre.allocated(b) by {
                        if self.is_page(b) && page_index(b) == p {
                            self.lemma_index_unique(addr, b);
                        }
                    }
                    assert forall|b: u64| b != addr implies #[trigger] self.allocated(b) == pre.allocated(b) by {
                        if self.is_page(b) && page_index(b) == p {
                            self.lemma_index_unique(addr, b);
                        }
                    }
                }
                Ok(c)
            },
        }
    }

    /// The reference count of an allocated page.
    pub fn GetRef(&self, addr: u64) -> (res: Result<u64, Error>)
        requires
            self.wf(),
        ensures
            res is Ok <==> self.allocated(addr),
            res is Ok ==> res->Ok_0 == self.refcount(addr),
            res is Err ==> res->Err_0 == Error::InvalidInput,
    {
        match self.index_of(addr) {
            None => Err(Error::InvalidInput),
            Some(p) => {
                if !self.used[p] {
                    return Err(Error::InvalidInput);
                }
                Ok(self.refs[p])
            },
        }
    }

    /// Gives an allocated page back to the pool, whatever its count.
    pub fn FreePage(&mut self, addr: u64) -> (res: Result<(), Error>)
        requires
            old(self).wf(),
        ensures
            final(self).wf(),
            final(self).npages() == old(self).npages(),
            final(self).limit() == old(self).limit(),
            res is Ok <==> old(self).allocated(addr),
            final(self).available() == old(self).available() + (if res is Ok {
                1nat
            } else {
                0nat
            }),
            res is Err ==> res->Err_0 == Error::InvalidInput && *final(self) == *old(self),
            res is Ok ==> {
                &&& !final(self).allocated(addr)
                &&& final(self).refcount(addr) == 0
                &&& forall|i: int| #[trigger] final(self).word(addr, i) == old(self).word(addr, i)
                &&& final(self).others_unchanged(old(self), addr)
            },
    {
        match self.index_of(addr) {
            None => Err(Error::InvalidInput),
            Some(p) => {
                if !self.used[p] {
                    return Err(Error::InvalidInput);
                }
                let ghost pre = *self;
                proof {
                    lemma_count_free_update(self.used@, p as int, false);
                }
                self.refs.set(p, 0);
                self.used.set(p, false);
                proof {
                    assert forall|b: u64| b != addr implies #[trigger] self.refcount(b) == pre.refcount(b)
                        && self.allocated(b) == pre.allocated(b) by {
                        if self.is_page(b) && page_index(b) == p {
                            self.lemma_index_unique(addr, b);
                        }
                    }
                    assert forall|b: u64| b != addr implies #[trigger] self.allocated(b) == pre.allocated(b) by {
                        if self.is_page(b) && page_index(b) == p {
                            self.lemma_index_unique(addr, b);
                        }
                    }
                }
                Ok(())
            },
        }
    }

    /// Reads word `i` of the page at `addr` (zero where no page is).
    pub fn ReadWord(&self, addr: u64, i: u64) -> (w: u64)
        requires
            self.wf(),
            i < 512,
        ensures
            w == self.word(addr, i as int),
    {
        match self.index_of(addr) {
            None => 0,
            Some(p) => {
                proof {
                    lemma_word_index(p as int, i as int, self.used@.len() as int);
                }
                self.words[p * 512 + i as usize]
            },
        }
    }

    /// Writes word `i` of the page at `addr`; nothing else changes.
    pub fn WriteWord(&mut self, addr: u64, i: u64, v: u64)
        requires
            old(self).wf(),
            old(self).is_page(addr),
            i < 512,
        ensures
            final(self).wf(),
            final(self).npages() == old(self).npages(),
            final(self).limit() == old(self).limit(),
            final(self).word(addr, i as int) == v,
            final(self).available() == old(self).available(),
            forall|b: u64| #[trigger] final(self).allocated(b) == old(self).allocated(b),
            forall|b: u64| #[trigger] final(self).refcount(b) == old(self).refcount(b),
            forall|b: u64, j: int|
                (b != addr || j != i) ==> #[trigger] final(self).word(b, j) == old(self).word(b, j),
    {
        let p = self.index_of(addr).unwrap();
        let ghost pre = *self;
        proof {
            lemma_word_index(p as int, i as int, self.used@.len() as int);
        }
        self.words.set(p * 512 + i as usize, v);
        proof {
            assert forall|b: u64, j: int| (b != addr || j != i) implies #[trigger] self.word(b, j)
                == pre.word(b, j) by {
                if self.is_page(b) && 0 <= j < 512 {
                    let q = page_index(b);
                    lemma_word_index(q, j, self.used@.len() as int);
                    if q == p {
                        self.lemma_index_unique(addr, b);
                    }
                    lemma_word_index_distinct(q, j, p as int, i as int);
                }
            }
        }
    }

    /// The pages that are handed out, by increasing address, with their
    /// reference counts.
    pub fn AllocatedPages(&self) -> (r: Vec<(u64, u64)>)
        requires
            self.wf(),
        ensures
            forall|k: int|
                0 <= k < r@.len() ==> self.allocated(#[trigger] r@[k].0) && self.refcount(r@[k].0)
                    == r@[k].1,
            forall|k: int, m: int| 0 <= k < m < r@.len() ==> #[trigger] r@[k].0 < #[trigger] r@[m].0,
            forall|a: u64| #[trigger] self.allocated(a) ==> exists|k: int| 0 <= k < r@.len() && r@[k].0 == a,
    {
        let n = self.used.len();
        let mut r: Vec<(u64, u64)> = Vec::new();
        let mut p: usize = 0;
        while p < n
            invariant
                self.wf(),
                n == self.used@.len(),
                p <= n,
                forall|k: int|
                    0 <= k < r@.len() ==> self.allocated(#[trigger] r@[k].0) && self.refcount(r@[k].0)
                        == r@[k].1 && page_index(r@[k].0) < p,
                forall|k: int, m: int| 0 <= k < m < r@.len() ==> #[trigger] r@[k].0 < #[trigger] r@[m].0,
                forall|a: u64|
                    #[trigger] self.allocated(a) && page_index(a) < p ==> exists|k: int|
                        0 <= k < r@.len() && r@[k].0 == a,
            decreases n - p,
        {
            if self.used[p] {
                proof {
                    self.lemma_wf_facts();
                }
                let a = self.addr_at(p);
                proof {
                    assert forall|k: int| 0 <= k < r@.len() implies r@[k].0 < a by {
                        let b = r@[k].0;
                        assert(b < a) by (nonlinear_arith)
                            requires
                                b >= POOL_BASE,
                                (b - POOL_BASE) % 4096 == 0,
                                (b - POOL_BASE) / 4096 < p,
                                a == POOL_BASE + p * 4096,
                        ;
                    }
                }
                let ghost r0 = r@;
                r.push((a, self.refs[p]));
                proof {
                    assert forall|b: u64| #[trigger] self.allocated(b) && page_index(b) < p + 1 implies exists|k: int|
                        0 <= k < r@.len() && r@[k].0 == b by {
                        if page_index(b) == p {
                            self.lemma_index_unique(a, b);
                            assert(r@[r@.len() - 1].0 == b);
                        } else {
                            let k = choose|k: int| 0 <= k < r0.len() && r0[k].0 == b;
                            assert(r@[k] == r0[k]);
                        }
                    }
                }
            }
            p = p + 1;
        }
        r
    }
}

} // verus!
