use vstd::prelude::*;
use crate::block_alloc::PageBlockAlloc;
use crate::pma::{last_refs, PageMgr};
use crate::defs::{Error, LOWER_TOP, PAGE_SIZE, PHY_LOWER_ADDR, PHY_UPPER_ADDR};
use crate::flags::{
    entry_addr, entry_addr_acceptable, lemma_entry_roundtrip, make_entry, p1_index, p2_index,
    p3_index, p4_index, p1_of, p2_of, p3_of, p4_of, vaddr_acceptable, addr_of_entry,
    entry_with_addr, PRESENT, USER_ACCESSIBLE, WRITABLE,
};

verus! {

/// Flags of an entry that points at a lower-level table: present, writable,
/// user accessible (the leaf entry decides the real permissions).
pub const TABLE_FLAGS: u64 = 7;

/// Bit position of the index of level `l` (0 is the root level).
pub open spec fn level_shift(l: nat) -> u64 {
    if l == 0 {
        39
    } else if l == 1 {
        30
    } else if l == 2 {
        21
    } else {
        12
    }
}

/// Index of `va` in the table of level `l`.
pub open spec fn index_at(va: u64, l: nat) -> nat {
    ((va >> level_shift(l)) & 0x1ffu64) as nat
}

/// The bits of `va` above level `l`: they name the table of level `l` that
/// `va` goes through.
pub open spec fn prefix_at(va: u64, l: nat) -> nat {
    (va >> (level_shift(l) + 9) as u64) as nat
}

/// Whether the child at index `i` of the table of level `l` named by `pre`
/// belongs to this address space alone. The upper half of the root table and
/// the upper half of the first level-3 table map kernel memory that all
/// address spaces share.
pub open spec fn managed_child(l: nat, pre: nat, i: nat) -> bool {
    if l == 0 {
        i < 256
    } else if l == 1 && pre == 0 {
        i < 256
    } else {
        true
    }
}

/// Whether `va` lies in the part of the address space that this module maps:
/// below the kernel's physical memory window, or above it in the lower half.
pub open spec fn managed_va(va: u64) -> bool {
    va < PHY_LOWER_ADDR || (PHY_UPPER_ADDR <= va && va < LOWER_TOP)
}

/// Whether `[start, end)` lies in one managed part of the address space.
pub open spec fn managed_range(start: u64, end: u64) -> bool {
    end <= PHY_LOWER_ADDR || (PHY_UPPER_ADDR <= start && end <= LOWER_TOP)
}

/// Whether `va` is page aligned.
pub open spec fn aligned(va: u64) -> bool {
    va % 4096 == 0
}

pub proof fn lemma_prefix_step(va: u64)
    requires
        va < LOWER_TOP,
    ensures
        prefix_at(va, 0) == 0,
        prefix_at(va, 1) == prefix_at(va, 0) * 512 + index_at(va, 0),
        prefix_at(va, 2) == prefix_at(va, 1) * 512 + index_at(va, 1),
        prefix_at(va, 3) == prefix_at(va, 2) * 512 + index_at(va, 2),
        index_at(va, 0) < 512,
        index_at(va, 1) < 512,
        index_at(va, 2) < 512,
        index_at(va, 3) < 512,
        index_at(va, 0) == p4_of(va),
        index_at(va, 1) == p3_of(va),
        index_at(va, 2) == p2_of(va),
        index_at(va, 3) == p1_of(va),
        vaddr_acceptable(va),
{
    assert((va >> 48u64) == 0) by (bit_vector)
        requires
            va < 0x8000_0000_0000u64,
    ;
    assert((va >> 39u64) == (va >> 48u64) * 512 + ((va >> 39u64) & 0x1ffu64)) by (bit_vector)
        requires
            va < 0x8000_0000_0000u64,
    ;
    assert((va >> 30u64) == (va >> 39u64) * 512 + ((va >> 30u64) & 0x1ffu64)) by (bit_vector);
    assert((va >> 21u64) == (va >> 30u64) * 512 + ((va >> 21u64) & 0x1ffu64)) by (bit_vector);
    assert(((va >> 39u64) & 0x1ffu64) < 512) by (bit_vector);
    assert(((va >> 30u64) & 0x1ffu64) < 512) by (bit_vector);
    assert(((va >> 21u64) & 0x1ffu64) < 512) by (bit_vector);
    assert(((va >> 12u64) & 0x1ffu64) < 512) by (bit_vector);
    assert((va >> 47u64) == 0) by (bit_vector)
        requires
            va < 0x8000_0000_0000u64,
    ;
}

/// Two page-aligned addresses with the same level-1 table and index are equal.
pub proof fn lemma_leaf_position_unique(va: u64, vb: u64)
    requires
        aligned(va),
        aligned(vb),
        prefix_at(va, 3) == prefix_at(vb, 3),
        index_at(va, 3) == index_at(vb, 3),
    ensures
        va == vb,
{
    assert(va == vb) by (bit_vector)
        requires
            va % 4096 == 0,
            vb % 4096 == 0,
            (va >> 21u64) == (vb >> 21u64),
            ((va >> 12u64) & 0x1ffu64) == ((vb >> 12u64) & 0x1ffu64),
    ;
}

/// A managed address only goes through managed children of the root table and
/// of the first level-3 table.
pub proof fn lemma_managed_path(va: u64)
    requires
        managed_va(va),
    ensures
        managed_child(0, prefix_at(va, 0), index_at(va, 0)),
        managed_child(1, prefix_at(va, 1), index_at(va, 1)),
        managed_child(2, prefix_at(va, 2), index_at(va, 2)),
{
    lemma_prefix_step(va);
    assert(((va >> 39u64) & 0x1ffu64) < 256) by (bit_vector)
        requires
            va < 0x8000_0000_0000u64,
    ;
    assert(va < 0x40_0000_0000u64 ==> (va >> 39u64) == 0 && ((va >> 30u64) & 0x1ffu64) < 256)
        by (bit_vector);
    assert(va >= 0x80_0000_0000u64 ==> (va >> 39u64) != 0) by (bit_vector);
}

pub proof fn lemma_table_flags()
    ensures
        TABLE_FLAGS & 0x000f_ffff_ffff_f000u64 == 0,
        TABLE_FLAGS == PRESENT | WRITABLE | USER_ACCESSIBLE,
{
    assert(7u64 & 0x000f_ffff_ffff_f000u64 == 0) by (bit_vector);
    assert(7u64 == 1u64 | 2u64 | 4u64) by (bit_vector);
}

pub proof fn lemma_child_key(pre: nat, i: nat)
    requires
        i < 512,
    ensures
        (pre * 512 + i) / 512 == pre,
        (pre * 512 + i) % 512 == i,
{
    assert((pre * 512 + i) / 512 == pre && (pre * 512 + i) % 512 == i) by (nonlinear_arith)
        requires
            i < 512,
    ;
}

pub proof fn lemma_child_key_unique(pre: nat, i: nat, pre2: nat, i2: nat)
    requires
        i < 512,
        i2 < 512,
        pre2 * 512 + i2 == pre * 512 + i,
    ensures
        pre2 == pre,
        i2 == i,
{
    lemma_child_key(pre, i);
    lemma_child_key(pre2, i2);
}

/// The first address above `va` whose bits from `s` up differ from `va`'s:
/// the end of the span that one table entry maps around `va`.
pub open spec fn span_end(va: u64, s: u64) -> u64 {
    (((va >> s) + 1) as u64) << s
}

/// The addresses from `va` up to the end of its span share the tables on
/// the way down with `va`.
pub proof fn lemma_span(va: u64, vb: u64)
    requires
        va < LOWER_TOP,
        va <= vb,
    ensures
        vb < span_end(va, 39) ==> prefix_at(vb, 1) == prefix_at(va, 1),
        vb < span_end(va, 30) ==> prefix_at(vb, 2) == prefix_at(va, 2) && prefix_at(vb, 1) == prefix_at(va, 1),
        vb < span_end(va, 21) ==> prefix_at(vb, 3) == prefix_at(va, 3) && prefix_at(vb, 2) == prefix_at(va, 2)
            && prefix_at(vb, 1) == prefix_at(va, 1),
        span_end(va, 39) <= LOWER_TOP,
        va < span_end(va, 39),
        va < span_end(va, 30),
        va < span_end(va, 21),
        span_end(va, 30) <= span_end(va, 39),
        span_end(va, 21) <= span_end(va, 39),
        aligned(span_end(va, 39)),
        aligned(span_end(va, 30)),
        aligned(span_end(va, 21)),
{
    assert((va >> 39u64) < 256 && (va >> 30u64) < 0x20000 && (va >> 21u64) < 0x400_0000) by (bit_vector)
        requires
            va < 0x8000_0000_0000u64,
    ;
    let h39 = ((va >> 39u64) + 1) as u64;
    let h30 = ((va >> 30u64) + 1) as u64;
    let h21 = ((va >> 21u64) + 1) as u64;
    assert(vb < (h39 << 39u64) ==> (vb >> 39u64) == (va >> 39u64)) by (bit_vector)
        requires
            va < 0x8000_0000_0000u64,
            va <= vb,
            h39 == (va >> 39u64) + 1,
    ;
    assert(vb < (h30 << 30u64) ==> (vb >> 30u64) == (va >> 30u64) && (vb >> 39u64) == (va >> 39u64))
        by (bit_vector)
        requires
            va < 0x8000_0000_0000u64,
            va <= vb,
            h30 == (va >> 30u64) + 1,
    ;
    assert(vb < (h21 << 21u64) ==> (vb >> 21u64) == (va >> 21u64) && (vb >> 30u64) == (va >> 30u64)
        && (vb >> 39u64) == (va >> 39u64)) by (bit_vector)
        requires
            va < 0x8000_0000_0000u64,
            va <= vb,
            h21 == (va >> 21u64) + 1,
    ;
    assert((h39 << 39u64) <= 0x8000_0000_0000u64 && va < (h39 << 39u64) && va < (h30 << 30u64) && va < (
    h21 << 21u64) && (h30 << 30u64) <= (h39 << 39u64) && (h21 << 21u64) <= (h39 << 39u64)) by (bit_vector)
        requires
            va < 0x8000_0000_0000u64,
            h39 == (va >> 39u64) + 1,
            h30 == (va >> 30u64) + 1,
            h21 == (va >> 21u64) + 1,
    ;
    assert((h39 << 39u64) % 4096 == 0 && (h30 << 30u64) % 4096 == 0 && (h21 << 21u64) % 4096 == 0)
        by (bit_vector)
        requires
            h39 == (va >> 39u64) + 1,
            h30 == (va >> 30u64) + 1,
            h21 == (va >> 21u64) + 1,
            va < 0x8000_0000_0000u64,
    ;
}

/// One past the largest physical address an entry can hold.
pub const MAX_PHYS_ADDR: u64 = 0x10_0000_0000_0000;

pub proof fn lemma_aligned_step(a: u64, b: u64)
    requires
        aligned(a),
        aligned(b),
        a < b,
    ensures
        a + 4096 <= b,
        aligned((a + 4096) as u64),
{
    assert(a + 4096 <= b) by (bit_vector)
        requires
            a % 4096 == 0,
            b % 4096 == 0,
            a < b,
    ;
    assert(((a + 4096) as u64) % 4096 == 0) by (bit_vector)
        requires
            a % 4096 == 0,
            a < b,
            b % 4096 == 0,
    ;
}

pub proof fn lemma_aligned_arith(a: u64, b: u64)
    requires
        aligned(a),
        aligned(b),
    ensures
        a >= b ==> aligned((a - b) as u64),
        a + b <= u64::MAX ==> aligned((a + b) as u64),
{
    assert(a >= b ==> ((a - b) as u64) % 4096 == 0) by (bit_vector)
        requires
            a % 4096 == 0,
            b % 4096 == 0,
    ;
    assert(a + b <= 0xffff_ffff_ffff_ffffu64 ==> ((a + b) as u64) % 4096 == 0) by (bit_vector)
        requires
            a % 4096 == 0,
            b % 4096 == 0,
    ;
}

pub proof fn lemma_entry_addr_acceptable(e: u64)
    ensures
        entry_addr_acceptable(entry_addr(e)),
{
    assert((e & 0x000f_ffff_ffff_f000u64) % 4096 == 0) by (bit_vector);
    assert((e & 0x000f_ffff_ffff_f000u64) < 0x10_0000_0000_0000u64) by (bit_vector);
}

/// The error with which a mapping of `[start, end)` to `physical` is
/// refused, if any: unaligned addresses first, then an empty-reversed or
/// unmanaged range, or a physical range beyond what entries can hold.
pub open spec fn map_error(start: u64, end: u64, physical: u64) -> Option<Error> {
    if !(aligned(start) && aligned(end) && aligned(physical)) {
        Some(Error::UnallignedAddress)
    } else if end < start || !managed_range(start, end) || physical > MAX_PHYS_ADDR - (end - start) {
        Some(Error::AddressNotInRange)
    } else {
        None
    }
}

/// The error with which mapping the page at `vaddr` to `phy` is refused,
/// if any.
pub open spec fn map_page_error(vaddr: u64, phy: u64) -> Option<Error> {
    if !(aligned(vaddr) && aligned(phy)) {
        Some(Error::UnallignedAddress)
    } else if !managed_va(vaddr) || phy >= MAX_PHYS_ADDR {
        Some(Error::AddressNotInRange)
    } else {
        None
    }
}

/// The error with which unmapping `[start, end)` is refused, if any.
pub open spec fn unmap_error(start: u64, end: u64) -> Option<Error> {
    if !(aligned(start) && aligned(end)) {
        Some(Error::UnallignedAddress)
    } else if end < start || !managed_range(start, end) {
        Some(Error::AddressNotInRange)
    } else {
        None
    }
}

/// The error with which moving the pages at `[old_start, ..)` to
/// `[start, end)` is refused, if any.
pub open spec fn remap_error(start: u64, end: u64, old_start: u64) -> Option<Error> {
    if !(aligned(start) && aligned(end) && aligned(old_start)) {
        Some(Error::UnallignedAddress)
    } else if end < start || !managed_range(start, end) || old_start > LOWER_TOP - (end - start)
        || !managed_range(old_start, (old_start + (end - start)) as u64) {
        Some(Error::AddressNotInRange)
    } else {
        None
    }
}

/// The leaf entry that maps `va` when `[start, ..)` is mapped to
/// `physical` with `flags`.
pub open spec fn linear_entry(start: u64, physical: u64, flags: u64, va: u64) -> u64 {
    make_entry((physical + (va - start)) as u64, flags)
}

/// Whether `flags` can be the flags of a leaf entry: not empty and without
/// address bits.
pub open spec fn leaf_flags_ok(flags: u64) -> bool {
    flags != 0 && flags & 0x000f_ffff_ffff_f000u64 == 0
}

/// Whether an entry has its present bit set.
pub open spec fn present(e: u64) -> bool {
    e & 1u64 == 1u64
}

/// What the MMU finds for `va` when it walks the tables from `root`: it
/// follows present entries down three levels and reads the level-1 entry,
/// which maps the page if it is not zero.
pub open spec fn hw_walk(pool: &PageBlockAlloc, root: u64, va: u64) -> Option<u64> {
    let e0 = pool.word(root, index_at(va, 0) as int);
    if !present(e0) {
        None
    } else {
        let e1 = pool.word(entry_addr(e0), index_at(va, 1) as int);
        if !present(e1) {
            None
        } else {
            let e2 = pool.word(entry_addr(e1), index_at(va, 2) as int);
            if !present(e2) {
                None
            } else {
                let e3 = pool.word(entry_addr(e2), index_at(va, 3) as int);
                if e3 == 0 {
                    None
                } else {
                    Some(e3)
                }
            }
        }
    }
}

/// The entry held by an optional mapping, zero for none.
pub open spec fn entry_or_zero(m: Option<u64>) -> u64 {
    match m {
        Some(e) => e,
        None => 0,
    }
}

/// A 4-level x86-64 page table whose tables live in pages of the pool.
pub struct PageTables {
    root: u64,
    /// The tables of this address space, by level and by the address bits
    /// above that level.
    tables: Ghost<Map<(nat, nat), u64>>,
    /// The pages of the tables below the root, but for the first level-3
    /// table: what `FreePages` gives back.
    tablePages: Vec<u64>,
}

impl PageTables {
    /// The pages of the tables of this address space.
    pub closed spec fn owns(&self, a: u64) -> bool {
        exists|k: (nat, nat)| self.tables@.contains_key(k) && #[trigger] self.tables@[k] == a
    }

    /// The slots of the root and of the first level-3 table that map shared
    /// memory hold in `pool1` what they held in `pool0`.
    pub open spec fn shared_kept(&self, pool0: &PageBlockAlloc, pool1: &PageBlockAlloc) -> bool {
        forall|l: nat, i: nat|
            #[trigger] self.shared_slot(l, i) ==> pool1.word(self.table(l, 0)->0, i as int) == pool0.word(
                self.table(l, 0)->0,
                i as int,
            )
    }

    /// The pages that `FreePages` gives back: the tables of levels 1 to 3,
    /// but for the first level-3 table.
    pub closed spec fn table_pages(&self) -> Seq<u64> {
        self.tablePages@
    }

    /// The root table.
    pub closed spec fn root(&self) -> u64 {
        self.root
    }

    /// The table of level `l` named by `pre`, if this address space has one.
    pub closed spec fn table(&self, l: nat, pre: nat) -> Option<u64> {
        if self.tables@.contains_key((l, pre)) {
            Some(self.tables@[(l, pre)])
        } else {
            None
        }
    }

    /// Entry `i` of a table of level `l` named by `pre` is consistent: a
    /// managed child is either absent with a zero entry, or present with an
    /// entry that points at it.
    pub closed spec fn child_ok(&self, pool: &PageBlockAlloc, l: nat, pre: nat, i: nat) -> bool {
        let t = self.tables@;
        let e = pool.word(t[(l, pre)], i as int);
        (t.contains_key((l, pre)) && l < 3 && i < 512 && managed_child(l, pre, i)) ==> {
            &&& t.contains_key((l + 1, pre * 512 + i)) <==> e != 0
            &&& e != 0 ==> e == make_entry(t[(l + 1, pre * 512 + i)], TABLE_FLAGS)
        }
    }

    /// Well-formedness: the root is the level-0 table, tables are distinct
    /// allocated pages, every managed entry agrees with the tables, and every
    /// table hangs below its parent.
    pub closed spec fn wf(&self, pool: &PageBlockAlloc) -> bool {
        let t = self.tables@;
        &&& pool.wf()
        &&& t.contains_key((0, 0))
        &&& t[(0, 0)] == self.root
        &&& forall|k: (nat, nat)| #[trigger] t.contains_key(k) ==> pool.allocated(t[k]) && k.0 <= 3
        &&& forall|k1: (nat, nat), k2: (nat, nat)|
            #![trigger t[k1], t[k2]]
            t.contains_key(k1) && t.contains_key(k2) && t[k1] == t[k2] ==> k1 == k2
        &&& forall|l: nat, pre: nat, i: nat| #[trigger] self.child_ok(pool, l, pre, i)
        &&& forall|l: nat, pre: nat|
            #![trigger t.contains_key((l, pre))]
            t.contains_key((l, pre)) && l >= 1 ==> t.contains_key(((l - 1) as nat, pre / 512))
                && managed_child((l - 1) as nat, pre / 512, pre % 512)
        &&& self.tables_listed()
    }

    /// Whether `b` is a table of levels 1 to 3 but the first level-3 table.
    pub closed spec fn lower_table(&self, b: u64) -> bool {
        exists|k: (nat, nat)|
            #![trigger self.tables@[k]]
            self.tables@.contains_key(k) && k != (0nat, 0nat) && k != (1nat, 0nat) && self.tables@[k] == b
    }

    /// The list of table pages holds each table of levels 1 to 3 but the
    /// first level-3 table, once.
    pub closed spec fn tables_listed(&self) -> bool {
        &&& self.tablePages@.no_duplicates()
        &&& forall|j: int|
            0 <= j < self.tablePages@.len() ==> #[trigger] self.lower_table(self.tablePages@[j])
        &&& forall|k: (nat, nat)|
            #![trigger self.tables@[k]]
            self.tables@.contains_key(k) && k != (0nat, 0nat) && k != (1nat, 0nat) ==> self.tablePages@.contains(
                self.tables@[k],
            )
    }

    /// The mapping of `va` after `[start, end)` is mapped to the physical
    /// pages from `physical` on with leaf flags `flags`.
    pub open spec fn linear_view(&self, pool: &PageBlockAlloc, start: u64, end: u64, physical: u64, flags: u64, va: u64) -> Option<u64> {
        if start <= va < end {
            Some(linear_entry(start, physical, flags, va))
        } else {
            self.mapping(pool, va)
        }
    }

    /// The mapping of `va` after the mappings of `[start, end)` are removed.
    pub open spec fn unmap_view(&self, pool: &PageBlockAlloc, start: u64, end: u64, va: u64) -> Option<u64> {
        if start <= va < end {
            None
        } else {
            self.mapping(pool, va)
        }
    }

    /// The mapping of `va` after the pages at `[old_start, ..)` are moved to
    /// `[start, end)` with leaf flags `flags`.
    pub open spec fn remap_view(&self, pool: &PageBlockAlloc, start: u64, end: u64, old_start: u64, flags: u64, va: u64) -> Option<u64> {
        let moved = self.mapping(pool, (old_start + (va - start)) as u64);
        if start <= va < end && moved is Some {
            Some(make_entry(entry_addr(moved->0), flags))
        } else if old_start <= va < old_start + (end - start) {
            None
        } else {
            self.mapping(pool, va)
        }
    }

    /// The mapping of `va` after the mappings of `[old_start, old_end)` are
    /// removed and `[start, end)` is mapped to the physical pages from
    /// `physical` on with leaf flags `flags`.
    pub open spec fn file_view(
        &self,
        pool: &PageBlockAlloc,
        start: u64,
        end: u64,
        physical: u64,
        old_start: u64,
        old_end: u64,
        flags: u64,
        va: u64,
    ) -> Option<u64> {
        if start <= va < end {
            Some(linear_entry(start, physical, flags, va))
        } else {
            self.unmap_view(pool, old_start, old_end, va)
        }
    }

    /// How many tables the path of `va` still lacks.
    pub closed spec fn missing_tables(&self, va: u64) -> nat {
        if self.tables@.contains_key((3nat, prefix_at(va, 3))) {
            0
        } else if self.tables@.contains_key((2nat, prefix_at(va, 2))) {
            1
        } else if self.tables@.contains_key((1nat, prefix_at(va, 1))) {
            2
        } else {
            3
        }
    }

    /// Whether some page of `[start, end)` still lacks a table on its path.
    pub open spec fn lacks_table_in(&self, start: u64, end: u64) -> bool {
        exists|va: u64| start <= va < end && aligned(va) && #[trigger] self.missing_tables(va) > 0
    }

    /// The leaf entry that maps the page at `va`, if any.
    pub closed spec fn mapping(&self, pool: &PageBlockAlloc, va: u64) -> Option<u64> {
        let k = (3nat, prefix_at(va, 3));
        let e = pool.word(self.tables@[k], index_at(va, 3) as int);
        if self.tables@.contains_key(k) && e != 0 {
            Some(e)
        } else {
            None
        }
    }

    /// The pool after an operation on this address space: pages handed out
    /// stay handed out with their counts, new pages became tables of this
    /// address space, and only its tables changed contents.
    pub open spec fn pool_step(&self, old_pt: &Self, old_pool: &PageBlockAlloc, pool: &PageBlockAlloc) -> bool {
        &&& pool.limit() == old_pool.limit()
        &&& pool.npages() >= old_pool.npages()
        &&& forall|b: u64| #[trigger] old_pool.allocated(b) ==> pool.allocated(b)
        &&& forall|b: u64| #[trigger] old_pool.allocated(b) ==> pool.refcount(b) == old_pool.refcount(b)
        &&& forall|b: u64| #[trigger] self.owns(b) && !old_pt.owns(b) ==> !old_pool.allocated(b)
        &&& forall|b: u64| #[trigger] pool.allocated(b) && !old_pool.allocated(b) ==> self.owns(b)
        &&& forall|b: u64, i: int| !self.owns(b) ==> #[trigger] pool.word(b, i) == old_pool.word(b, i)
        &&& forall|b: u64| #[trigger] old_pt.owns(b) ==> self.owns(b)
    }

    /// An address space with an empty root table taken from the pool.
    pub fn New(pool: &mut PageBlockAlloc) -> (res: Result<PageTables, Error>)
        requires
            old(pool).wf(),
        ensures
            final(pool).wf(),
            res is Err <==> old(pool).available() == 0,
            res is Err ==> res->Err_0 == Error::NoEnoughMemory && *final(pool) == *old(pool),
            res is Ok ==> ({
                let pt = res->Ok_0;
                &&& pt.wf(final(pool))
                &&& !old(pool).allocated(pt.root())
                &&& final(pool).allocated(pt.root())
                &&& final(pool).refcount(pt.root()) == 1
                &&& final(pool).available() + 1 == old(pool).available()
                &&& final(pool).others_unchanged(old(pool), pt.root())
                &&& forall|b: u64| #[trigger] pt.owns(b) <==> b == pt.root()
                &&& forall|l: nat, pre: nat| #[trigger] pt.table(l, pre) is Some <==> (l == 0 && pre == 0)
                &&& forall|va: u64| #[trigger] pt.mapping(final(pool), va) is None
                &&& forall|i: int| 0 <= i < 512 ==> #[trigger] final(pool).word(pt.root(), i) == 0
            }),
    {
        let root = pool.AllocPage(true)?;
        let pt = PageTables {
            root,
            tables: Ghost(Map::empty().insert((0nat, 0nat), root)),
            tablePages: Vec::new(),
        };
        proof {
            let t = pt.tables@;
            assert forall|l: nat, pre: nat, i: nat| #[trigger] pt.child_ok(pool, l, pre, i) by {
                if t.contains_key((l, pre)) && l < 3 && i < 512 {
                    assert(pool.word(root, i as int) == 0);
                }
            }
            assert forall|b: u64| #[trigger] pt.owns(b) <==> b == root by {
                if b == root {
                    assert(t[(0nat, 0nat)] == b);
                }
            }
            assert forall|va: u64| #[trigger] pt.mapping(pool, va) is None by {
            }
        }
        Ok(pt)
    }

    /// The root table.
    pub fn GetRoot(&self) -> (r: u64)
        ensures
            r == self.root(),
    {
        self.root
    }

    /// Replaces the root table (the address space is then no longer
    /// well-formed unless the new root is its level-0 table).
    pub fn SetRoot(&mut self, root: u64)
        ensures
            final(self).root() == root,
            final(self).table_pages() == old(self).table_pages(),
    {
        self.root = root;
    }

    /// Returns the child table at index `i` of the table of level `l` named
    /// by `pre`, creating an empty one from the pool if there is none.
    pub(crate) fn ensure_child(
        &mut self,
        pool: &mut PageBlockAlloc,
        table: u64,
        l: u64,
        Ghost(pre): Ghost<nat>,
        i: u64,
    ) -> (res: Result<u64, Error>)
        requires
            old(self).wf(old(pool)),
            old(self).table(l as nat, pre) == Some(table),
            l < 3,
            l == 0 ==> pre == 0,
            i < 512,
            managed_child(l as nat, pre, i as nat),
        ensures
            final(self).wf(final(pool)),
            final(self).root() == old(self).root(),
            final(self).pool_step(old(self), old(pool), final(pool)),
            forall|va: u64| #[trigger] final(self).mapping(final(pool), va) == old(self).mapping(old(pool), va),
            forall|l2: nat, pre2: nat| old(self).table(l2, pre2) is Some ==> #[trigger] final(self).table(l2, pre2)
                == old(self).table(l2, pre2),
            res is Ok ==> final(self).table(l as nat + 1, pre * 512 + i as nat) == Some(res->Ok_0),
            forall|l2: nat, pre2: nat|
                #[trigger] final(self).table(l2, pre2) is Some ==> old(self).table(l2, pre2) is Some || (l2
                    == l + 1 && pre2 == pre * 512 + i),
            old(self).shared_kept(old(pool), final(pool)),
            res is Err ==> res->Err_0 == Error::NoEnoughMemory && *final(self) == *old(self) && *final(pool)
                == *old(pool),
            old(self).table(l as nat + 1, pre * 512 + i as nat) is Some ==> res is Ok && *final(self)
                == *old(self) && *final(pool) == *old(pool),
            old(self).table(l as nat + 1, pre * 512 + i as nat) is None ==> (res is Err <==> old(pool).available()
                == 0) && (res is Ok ==> final(pool).available() + 1 == old(pool).available()),
            old(self).table(l as nat + 1, pre * 512 + i as nat) is None && res is Ok ==> final(pool).refcount(
                res->Ok_0,
            ) == 1,
    {
        let ghost t0 = self.tables@;
        let ghost pool0 = *pool;
        let ghost ck = ((l + 1) as nat, pre * 512 + i as nat);
        proof {
            assert(self.child_ok(pool, l as nat, pre, i as nat));
            lemma_child_key(pre, i as nat);
            pool.lemma_wf_facts();
            lemma_table_flags();
        }
        let e = pool.ReadWord(table, i);
        if e != 0 {
            proof {
                assert(pool.allocated(t0[ck]));
                lemma_entry_roundtrip(t0[ck], TABLE_FLAGS);
            }
            return Ok(addr_of_entry(e));
        }
        let new = pool.AllocPage(true)?;
        let ghost pool1 = *pool;
        proof {
            pool.lemma_wf_facts();
            assert(!t0.contains_key(ck));
            assert forall|k: (nat, nat)| t0.contains_key(k) implies t0[k] != new by {
                assert(pool0.allocated(t0[k]));
            }
        }
        let ent = entry_with_addr(new, TABLE_FLAGS);
        pool.WriteWord(table, i, ent);
        let ghost tp0 = self.tablePages@;
        self.tables = Ghost(t0.insert(ck, new));
        if !(l == 0 && i == 0) {
            self.tablePages.push(new);
        }
        proof {
            let t1 = self.tables@;
            let tp1 = self.tablePages@;
            assert(old(self).tables_listed());
            assert forall|k: (nat, nat)| t0.contains_key(k) implies #[trigger] t0[k] != new by {
                assert(pool0.allocated(t0[k]));
            }
            assert forall|j: int| 0 <= j < tp0.len() implies #[trigger] tp0[j] != new by {
                assert(old(self).lower_table(tp0[j]));
                let k = choose|k: (nat, nat)|
                    #![trigger t0[k]]
                    t0.contains_key(k) && k != (0nat, 0nat) && k != (1nat, 0nat) && t0[k] == tp0[j];
            }
            assert(tp1.no_duplicates());
            assert forall|j: int| 0 <= j < tp1.len() implies #[trigger] self.lower_table(tp1[j]) by {
                if j < tp0.len() {
                    assert(old(self).lower_table(tp0[j]));
                    let k = choose|k: (nat, nat)|
                        #![trigger t0[k]]
                        t0.contains_key(k) && k != (0nat, 0nat) && k != (1nat, 0nat) && t0[k] == tp0[j];
                    assert(k != ck);
                    assert(t1[k] == tp1[j]);
                } else {
                    assert(t1[ck] == tp1[j]);
                }
            }
            assert forall|k: (nat, nat)|
                #![trigger t1[k]]
                t1.contains_key(k) && k != (0nat, 0nat) && k != (1nat, 0nat) implies tp1.contains(t1[k]) by {
                if k == ck {
                    lemma_child_key(pre, i as nat);
                    assert(!(l == 0 && i == 0));
                    assert(tp1[tp1.len() - 1] == new);
                } else {
                    assert(t0[k] == t1[k]);
                    assert(tp0.contains(t0[k]));
                    let j = choose|j: int| 0 <= j < tp0.len() && tp0[j] == t0[k];
                    assert(tp1[j] == t0[k]);
                }
            }
            assert(self.tables_listed());
        }
        proof {
            let t1 = self.tables@;
            lemma_entry_roundtrip(new, TABLE_FLAGS);
            assert(t1[ck] == new);
            assert(self.owns(new));
            assert(t1[(l as nat, pre)] == table);
            assert(self.owns(table));
            // Tables keep their allocation.
            assert forall|k: (nat, nat)| #[trigger] t1.contains_key(k) implies pool.allocated(t1[k]) && k.0 <= 3 by {
                if k != ck {
                    assert(pool0.allocated(t0[k]));
                }
            }
            // Distinct keys name distinct pages.
            assert forall|k1: (nat, nat), k2: (nat, nat)|
                t1.contains_key(k1) && t1.contains_key(k2) && #[trigger] t1[k1] == #[trigger] t1[k2] implies k1 == k2 by {
                if k1 != ck && k2 != ck {
                    assert(t0[k1] == t0[k2]);
                }
            }
            // Every managed entry agrees with the tables.
            assert forall|l2: nat, pre2: nat, i2: nat| #[trigger] self.child_ok(pool, l2, pre2, i2) by {
                if t1.contains_key((l2, pre2)) && l2 < 3 && i2 < 512 && managed_child(l2, pre2, i2) {
                    let c2 = (l2 + 1, pre2 * 512 + i2);
                    lemma_child_key(pre2, i2);
                    if (l2, pre2) == (l as nat, pre) {
                        if i2 != i as nat {
                            if c2 == ck {
                                lemma_child_key_unique(pre, i as nat, pre2, i2);
                            }
                            assert(c2 != ck);
                            assert(old(self).child_ok(&pool0, l2, pre2, i2));
                        }
                    } else if (l2, pre2) == ck {
                        assert(pool.word(new, i2 as int) == 0);
                        if t0.contains_key(c2) {
                            assert(t0.contains_key((l2, pre2)));
                        }
                    } else {
                        assert(t0.contains_key((l2, pre2)));
                        assert(t0[(l2, pre2)] != table);
                        assert(t0[(l2, pre2)] != new);
                        assert(old(self).child_ok(&pool0, l2, pre2, i2));
                        if c2 == ck {
                            lemma_child_key_unique(pre, i as nat, pre2, i2);
                        }
                    }
                }
            }
            // Every table hangs below its parent.
            assert forall|l2: nat, pre2: nat|
                #![trigger t1.contains_key((l2, pre2))]
                t1.contains_key((l2, pre2)) && l2 >= 1 implies t1.contains_key(((l2 - 1) as nat, pre2 / 512))
                && managed_child((l2 - 1) as nat, pre2 / 512, pre2 % 512) by {
                if (l2, pre2) != ck {
                    assert(t0.contains_key((l2, pre2)));
                }
            }
            assert(self.wf(pool));
            // Mappings read level-1 tables only, and no level-1 table changed.
            assert forall|va: u64| #[trigger] self.mapping(pool, va) == old(self).mapping(&pool0, va) by {
                let k3 = (3nat, prefix_at(va, 3));
                assert(((va >> 12u64) & 0x1ffu64) < 512) by (bit_vector);
                if t0.contains_key(k3) {
                    assert(t0[k3] != table);
                    assert(t0[k3] != new);
                } else if k3 == ck {
                    assert(pool1.word(new, index_at(va, 3) as int) == 0);
                }
            }
            assert forall|b: u64| #[trigger] self.owns(b) && !old(self).owns(b) implies !pool0.allocated(b) by {
                let k = choose|k: (nat, nat)| t1.contains_key(k) && #[trigger] t1[k] == b;
                if k != ck {
                    assert(t0[k] == b);
                    assert(old(self).owns(b));
                }
            }
            assert forall|b: u64| #[trigger] old(self).owns(b) implies self.owns(b) by {
                let k = choose|k: (nat, nat)| t0.contains_key(k) && #[trigger] t0[k] == b;
                assert(t1[k] == b);
            }
            assert forall|b: u64| #[trigger] pool.allocated(b) && !pool0.allocated(b) implies self.owns(b) by {
                assert(b == new);
            }
            assert forall|l2: nat, i2: nat| #[trigger] old(self).shared_slot(l2, i2) implies pool.word(
                old(self).table(l2, 0)->0,
                i2 as int,
            ) == pool0.word(old(self).table(l2, 0)->0, i2 as int) by {
                let tb = t0[(l2, 0nat)];
                assert(tb != new);
                if tb == table {
                    assert((l2, 0nat) == (l as nat, pre));
                }
            }
        }
        Ok(new)
    }

    /// Two steps on the same address space compose into one step.
    pub proof fn lemma_pool_step_trans(
        pt0: &Self,
        pt1: &Self,
        pt2: &Self,
        p0: &PageBlockAlloc,
        p1: &PageBlockAlloc,
        p2: &PageBlockAlloc,
    )
        requires
            pt1.pool_step(pt0, p0, p1),
            pt2.pool_step(pt1, p1, p2),
        ensures
            pt2.pool_step(pt0, p0, p2),
    {
        assert forall|b: u64| #[trigger] pt2.owns(b) && !pt0.owns(b) implies !p0.allocated(b) by {
            if pt1.owns(b) {
            } else {
                assert(!p1.allocated(b));
            }
        }
        assert forall|b: u64| #[trigger] p2.allocated(b) && !p0.allocated(b) implies pt2.owns(b) by {
            if p1.allocated(b) {
                assert(pt1.owns(b));
            }
        }
        assert forall|b: u64, i: int| !pt2.owns(b) implies #[trigger] p2.word(b, i) == p0.word(b, i) by {
            assert(!pt1.owns(b));
            assert(p1.word(b, i) == p0.word(b, i));
        }
        assert forall|b: u64| #[trigger] p0.allocated(b) implies p2.refcount(b) == p0.refcount(b) by {
            assert(p1.allocated(b));
        }
    }

    /// Where `va`'s path goes through a table of level `l`, it also goes
    /// through the tables of the levels above.
    proof fn lemma_path_parents(&self, pool: &PageBlockAlloc, va: u64)
        requires
            self.wf(pool),
            va < LOWER_TOP,
        ensures
            self.tables@.contains_key((3nat, prefix_at(va, 3))) ==> self.tables@.contains_key(
                (2nat, prefix_at(va, 2)),
            ),
            self.tables@.contains_key((2nat, prefix_at(va, 2))) ==> self.tables@.contains_key(
                (1nat, prefix_at(va, 1)),
            ),
    {
        lemma_prefix_step(va);
        lemma_child_key(prefix_at(va, 2), index_at(va, 2));
        lemma_child_key(prefix_at(va, 1), index_at(va, 1));
        let t = self.tables@;
        if t.contains_key((3nat, prefix_at(va, 3))) {
            assert(t.contains_key(((3 - 1) as nat, prefix_at(va, 3) / 512)));
        }
        if t.contains_key((2nat, prefix_at(va, 2))) {
            assert(t.contains_key(((2 - 1) as nat, prefix_at(va, 2) / 512)));
        }
    }

    /// Maps the page at `va` by the leaf entry `pte`, creating tables on the
    /// way as needed.
    fn map_page(&mut self, pool: &mut PageBlockAlloc, va: u64, pte: u64) -> (res: Result<(), Error>)
        requires
            old(self).wf(old(pool)),
            managed_va(va),
            aligned(va),
            pte != 0,
        ensures
            final(self).wf(final(pool)),
            final(self).root() == old(self).root(),
            final(self).pool_step(old(self), old(pool), final(pool)),
            forall|l2: nat, pre2: nat| old(self).table(l2, pre2) is Some ==> #[trigger] final(self).table(l2, pre2)
                == old(self).table(l2, pre2),
            res is Ok ==> forall|vb: u64|
                aligned(vb) ==> #[trigger] final(self).mapping(final(pool), vb) == if vb == va {
                    Some(pte)
                } else {
                    old(self).mapping(old(pool), vb)
                },
            res is Err ==> res->Err_0 == Error::NoEnoughMemory && forall|vb: u64|
                #[trigger] final(self).mapping(final(pool), vb) == old(self).mapping(old(pool), vb),
            res is Err ==> final(pool).available() == 0 && final(self).missing_tables(va) > 0,
            old(self).shared_kept(old(pool), final(pool)),
            res is Ok <==> old(pool).available() >= old(self).missing_tables(va),
            res is Ok ==> final(pool).available() + old(self).missing_tables(va) == old(pool).available(),
    {
        proof {
            self.lemma_path_parents(pool, va);
        }
        let ghost pt0 = *self;
        let ghost pool0 = *pool;
        proof {
            lemma_prefix_step(va);
            lemma_managed_path(va);
            lemma_child_key(prefix_at(va, 0), index_at(va, 0));
        }
        let root = self.root;
        let i0 = p4_index(va);
        let ghost k1 = (1nat, prefix_at(va, 1));
        let ghost k2 = (2nat, prefix_at(va, 2));
        let ghost k3 = (3nat, prefix_at(va, 3));
        let t1 = self.ensure_child(pool, root, 0, Ghost(0nat), i0)?;
        let ghost pt1 = *self;
        let ghost pool1 = *pool;
        proof {
            assert(pt1.table(2, prefix_at(va, 2)) is Some ==> pt0.table(2, prefix_at(va, 2)) is Some);
            assert(pt1.table(3, prefix_at(va, 3)) is Some ==> pt0.table(3, prefix_at(va, 3)) is Some);
            assert(pool1.available() + (if pt0.tables@.contains_key(k1) { 0nat } else { 1nat })
                == pool0.available());
        }
        let i1 = p3_index(va);
        let r = self.ensure_child(pool, t1, 1, Ghost(prefix_at(va, 1)), i1);
        proof {
            PageTables::lemma_pool_step_trans(&pt0, &pt1, self, &pool0, &pool1, pool);
            self.lemma_path_parents(pool, va);
        }
        let t2 = r?;
        let ghost pt2 = *self;
        let ghost pool2 = *pool;
        proof {
            assert(pt2.table(3, prefix_at(va, 3)) is Some ==> pt1.table(3, prefix_at(va, 3)) is Some);
            assert(pool2.available() + (if pt1.tables@.contains_key(k2) { 0nat } else { 1nat })
                == pool1.available());
        }
        let i2 = p2_index(va);
        let r = self.ensure_child(pool, t2, 2, Ghost(prefix_at(va, 2)), i2);
        proof {
            PageTables::lemma_pool_step_trans(&pt0, &pt2, self, &pool0, &pool2, pool);
            assert forall|l2: nat, i2: nat| #[trigger] pt0.shared_slot(l2, i2) implies pool.word(
                pt0.table(l2, 0)->0,
                i2 as int,
            ) == pool0.word(pt0.table(l2, 0)->0, i2 as int) by {
                assert(pt1.shared_slot(l2, i2));
                assert(pt2.shared_slot(l2, i2));
            }
        }
        let t3 = r?;
        proof {
            assert(pool.available() + (if pt2.tables@.contains_key(k3) { 0nat } else { 1nat })
                == pool2.available());
        }
        let ghost pt3 = *self;
        let ghost pool3 = *pool;
        let i3 = p1_index(va);
        proof {
            assert(self.tables@[(3nat, prefix_at(va, 3))] == t3);
            assert(pool.allocated(t3));
            pool.lemma_wf_facts();
            assert forall|vb: u64| #[trigger] pt3.mapping(&pool3, vb) == pt0.mapping(&pool0, vb) by {
                assert(pt1.mapping(&pool1, vb) == pt0.mapping(&pool0, vb));
                assert(pt2.mapping(&pool2, vb) == pt1.mapping(&pool1, vb));
            }
        }
        pool.WriteWord(t3, i3, pte);
        proof {
            let t = self.tables@;
            let k3 = (3nat, prefix_at(va, 3));
            assert forall|l2: nat, i2: nat| #[trigger] pt0.shared_slot(l2, i2) implies pool.word(
                pt0.table(l2, 0)->0,
                i2 as int,
            ) == pool0.word(pt0.table(l2, 0)->0, i2 as int) by {
                assert(pt1.shared_slot(l2, i2));
                assert(pt2.shared_slot(l2, i2));
                assert(pt3.shared_slot(l2, i2));
                assert(t[(l2, 0nat)] != t3);
            }
            assert(self.owns(t3)) by {
                assert(t[k3] == t3);
            }
            assert forall|l2: nat, pre2: nat, i2: nat| #[trigger] self.child_ok(pool, l2, pre2, i2) by {
                assert(pt3.child_ok(&pool3, l2, pre2, i2));
                if t.contains_key((l2, pre2)) && l2 < 3 {
                    assert(t[(l2, pre2)] != t3);
                }
            }
            assert(self.wf(pool));
            assert forall|vb: u64| aligned(vb) implies #[trigger] self.mapping(pool, vb) == if vb == va {
                Some(pte)
            } else {
                pt0.mapping(&pool0, vb)
            } by {
                let kb = (3nat, prefix_at(vb, 3));
                assert(pt3.mapping(&pool3, vb) == pt0.mapping(&pool0, vb));
                if vb != va && t.contains_key(kb) && t[kb] == t3 {
                    assert(kb == k3);
                    if index_at(vb, 3) == index_at(va, 3) {
                        lemma_leaf_position_unique(va, vb);
                    }
                }
            }
        }
        Ok(())
    }

    /// Removes the mapping of the page at `va`, if any.
    fn unmap_page(&mut self, pool: &mut PageBlockAlloc, va: u64)
        requires
            old(self).wf(old(pool)),
            managed_va(va),
            aligned(va),
        ensures
            final(self).wf(final(pool)),
            *final(self) == *old(self),
            final(self).pool_step(old(self), old(pool), final(pool)),
            final(pool).available() == old(pool).available(),
            forall|b: u64| #[trigger] final(pool).allocated(b) == old(pool).allocated(b),
            forall|vb: u64|
                aligned(vb) ==> #[trigger] final(self).mapping(final(pool), vb) == if vb == va {
                    None
                } else {
                    old(self).mapping(old(pool), vb)
                },
    {
        let ghost pool0 = *pool;
        let ghost t = self.tables@;
        proof {
            lemma_prefix_step(va);
            lemma_managed_path(va);
            self.lemma_path_parents(pool, va);
            lemma_table_flags();
            pool.lemma_wf_facts();
            assert(self.child_ok(pool, 0, 0, index_at(va, 0)));
            assert(self.child_ok(pool, 1, prefix_at(va, 1), index_at(va, 1)));
            assert(self.child_ok(pool, 2, prefix_at(va, 2), index_at(va, 2)));
        }
        let e0 = pool.ReadWord(self.root, p4_index(va));
        if e0 == 0 {
            return;
        }
        proof {
            lemma_entry_roundtrip(t[(1nat, prefix_at(va, 1))], TABLE_FLAGS);
        }
        let t1 = addr_of_entry(e0);
        let e1 = pool.ReadWord(t1, p3_index(va));
        if e1 == 0 {
            return;
        }
        proof {
            lemma_entry_roundtrip(t[(2nat, prefix_at(va, 2))], TABLE_FLAGS);
        }
        let t2 = addr_of_entry(e1);
        let e2 = pool.ReadWord(t2, p2_index(va));
        if e2 == 0 {
            return;
        }
        proof {
            lemma_entry_roundtrip(t[(3nat, prefix_at(va, 3))], TABLE_FLAGS);
        }
        let t3 = addr_of_entry(e2);
        let i3 = p1_index(va);
        pool.WriteWord(t3, i3, 0);
        proof {
            let k3 = (3nat, prefix_at(va, 3));
            assert(t[k3] == t3);
            assert(self.owns(t3));
            assert forall|l2: nat, pre2: nat, i2: nat| #[trigger] self.child_ok(pool, l2, pre2, i2) by {
                assert(self.child_ok(&pool0, l2, pre2, i2));
                if t.contains_key((l2, pre2)) && l2 < 3 {
                    assert(t[(l2, pre2)] != t3);
                }
            }
            assert forall|vb: u64| aligned(vb) implies #[trigger] self.mapping(pool, vb) == if vb == va {
                None
            } else {
                self.mapping(&pool0, vb)
            } by {
                let kb = (3nat, prefix_at(vb, 3));
                if vb != va && t.contains_key(kb) && t[kb] == t3 {
                    assert(kb == k3);
                    if index_at(vb, 3) == index_at(va, 3) {
                        lemma_leaf_position_unique(va, vb);
                    }
                }
            }
        }
    }

    /// The leaf entry mapping the page at `va`, or zero.
    fn lookup(&self, pool: &PageBlockAlloc, va: u64) -> (e: u64)
        requires
            self.wf(pool),
            managed_va(va),
        ensures
            e == entry_or_zero(self.mapping(pool, va)),
    {
        let ghost t = self.tables@;
        proof {
            lemma_prefix_step(va);
            lemma_managed_path(va);
            self.lemma_path_parents(pool, va);
            lemma_table_flags();
            pool.lemma_wf_facts();
            assert(self.child_ok(pool, 0, 0, index_at(va, 0)));
            assert(self.child_ok(pool, 1, prefix_at(va, 1), index_at(va, 1)));
            assert(self.child_ok(pool, 2, prefix_at(va, 2), index_at(va, 2)));
        }
        let e0 = pool.ReadWord(self.root, p4_index(va));
        if e0 == 0 {
            return 0;
        }
        proof {
            lemma_entry_roundtrip(t[(1nat, prefix_at(va, 1))], TABLE_FLAGS);
        }
        let e1 = pool.ReadWord(addr_of_entry(e0), p3_index(va));
        if e1 == 0 {
            return 0;
        }
        proof {
            lemma_entry_roundtrip(t[(2nat, prefix_at(va, 2))], TABLE_FLAGS);
        }
        let e2 = pool.ReadWord(addr_of_entry(e1), p2_index(va));
        if e2 == 0 {
            return 0;
        }
        proof {
            lemma_entry_roundtrip(t[(3nat, prefix_at(va, 3))], TABLE_FLAGS);
        }
        pool.ReadWord(addr_of_entry(e2), p1_index(va))
    }

    /// Maps `[start, end)` to the physical pages from `physical` on, with
    /// leaf flags `flags`. The model keeps no per-mapping page references,
    /// so `kernel` does not change the result.
    pub fn MapRange(
        &mut self,
        start: u64,
        end: u64,
        physical: u64,
        flags: u64,
        pagePool: &mut PageMgr,
        kernel: bool,
    ) -> (res: Result<(), Error>)
        requires
            old(self).wf(&old(pagePool).pagepool),
            leaf_flags_ok(flags),
        ensures
            final(self).wf(&final(pagePool).pagepool),
            final(self).root() == old(self).root(),
            final(pagePool).vsyscallPages@ == old(pagePool).vsyscallPages@,
            final(self).pool_step(old(self), &old(pagePool).pagepool, &final(pagePool).pagepool),
            map_error(start, end, physical) is Some ==> res == Err::<(), Error>(
                map_error(start, end, physical)->0,
            ) && *final(self) == *old(self) && *final(pagePool) == *old(pagePool),
            res is Ok <==> map_error(start, end, physical) is None && res != Err::<(), Error>(
                Error::NoEnoughMemory,
            ),
            res is Ok ==> forall|va: u64|
                aligned(va) ==> #[trigger] final(self).mapping(&final(pagePool).pagepool, va)
                    == old(self).linear_view(&old(pagePool).pagepool, start, end, physical, flags, va),
            res == Err::<(), Error>(Error::NoEnoughMemory) ==> forall|va: u64|
                aligned(va) ==> #[trigger] final(self).mapping(&final(pagePool).pagepool, va)
                    == old(self).mapping(&old(pagePool).pagepool, va) || final(self).mapping(
                    &final(pagePool).pagepool,
                    va,
                ) == old(self).linear_view(&old(pagePool).pagepool, start, end, physical, flags, va),
            res == Err::<(), Error>(Error::NoEnoughMemory) ==> final(pagePool).pagepool.available() == 0
                && final(self).lacks_table_in(start, end),
    {
        if !(start % PAGE_SIZE == 0 && end % PAGE_SIZE == 0 && physical % PAGE_SIZE == 0) {
            return Err(Error::UnallignedAddress);
        }
        if end < start || !(end <= PHY_LOWER_ADDR || (PHY_UPPER_ADDR <= start && end <= LOWER_TOP))
            || physical > MAX_PHYS_ADDR - (end - start) {
            return Err(Error::AddressNotInRange);
        }
        let ghost pt0 = *self;
        let ghost pool0 = pagePool.pagepool;
        let mut va = start;
        while va < end
            invariant
                self.wf(&pagePool.pagepool),
                self.root() == pt0.root(),
                self.pool_step(&pt0, &pool0, &pagePool.pagepool),
                pagePool.vsyscallPages@ == old(pagePool).vsyscallPages@,
                pool0 == old(pagePool).pagepool,
                pt0 == *old(self),
                aligned(va),
                aligned(start),
                aligned(end),
                aligned(physical),
                start <= va <= end,
                managed_range(start, end),
                physical <= MAX_PHYS_ADDR - (end - start),
                leaf_flags_ok(flags),
                forall|vb: u64|
                    aligned(vb) ==> #[trigger] self.mapping(&pagePool.pagepool, vb) == if start <= vb < va {
                        Some(linear_entry(start, physical, flags, vb))
                    } else {
                        pt0.mapping(&pool0, vb)
                    },
            decreases end - va,
        {
            let pa = physical + (va - start);
            proof {
                lemma_aligned_arith(va, start);
                lemma_aligned_arith(physical, (va - start) as u64);
                lemma_entry_roundtrip(pa, flags);
                lemma_aligned_step(va, end);
            }
            let pte = entry_with_addr(pa, flags);
            let ghost pt1 = *self;
            let ghost pool1 = pagePool.pagepool;
            let r = self.map_page(&mut pagePool.pagepool, va, pte);
            proof {
                PageTables::lemma_pool_step_trans(&pt0, &pt1, self, &pool0, &pool1, &pagePool.pagepool);
            }
            match r {
                Ok(()) => {},
                Err(e) => {
                    proof {
                        assert(start <= va < end && aligned(va) && self.missing_tables(va) > 0);
                    }
                    return Err(e);
                },
            }
            va = va + PAGE_SIZE;
        }
        Ok(())
    }

    /// Removes the mappings of `[start, end)`.
    pub fn Unmap(&mut self, start: u64, end: u64, pagePool: &mut PageMgr) -> (res: Result<(), Error>)
        requires
            old(self).wf(&old(pagePool).pagepool),
        ensures
            final(self).wf(&final(pagePool).pagepool),
            *final(self) == *old(self),
            final(pagePool).vsyscallPages@ == old(pagePool).vsyscallPages@,
            final(self).pool_step(old(self), &old(pagePool).pagepool, &final(pagePool).pagepool),
            final(pagePool).pagepool.available() == old(pagePool).pagepool.available(),
            forall|b: u64| #[trigger] final(pagePool).pagepool.allocated(b) == old(pagePool).pagepool.allocated(b),
            unmap_error(start, end) is Some ==> res == Err::<(), Error>(unmap_error(start, end)->0)
                && *final(pagePool) == *old(pagePool),
            res is Ok <==> unmap_error(start, end) is None,
            res is Ok ==> forall|va: u64|
                aligned(va) ==> #[trigger] final(self).mapping(&final(pagePool).pagepool, va)
                    == old(self).unmap_view(&old(pagePool).pagepool, start, end, va),
    {
        if !(start % PAGE_SIZE == 0 && end % PAGE_SIZE == 0) {
            return Err(Error::UnallignedAddress);
        }
        if end < start || !(end <= PHY_LOWER_ADDR || (PHY_UPPER_ADDR <= start && end <= LOWER_TOP)) {
            return Err(Error::AddressNotInRange);
        }
        let ghost pt0 = *self;
        let ghost pool0 = pagePool.pagepool;
        let mut va = start;
        while va < end
            invariant
                self.wf(&pagePool.pagepool),
                *self == pt0,
                self.pool_step(&pt0, &pool0, &pagePool.pagepool),
                pagePool.pagepool.available() == pool0.available(),
                forall|b: u64| #[trigger] pagePool.pagepool.allocated(b) == pool0.allocated(b),
                pagePool.vsyscallPages@ == old(pagePool).vsyscallPages@,
                pool0 == old(pagePool).pagepool,
                pt0 == *old(self),
                aligned(va),
                aligned(end),
                start <= va <= end,
                managed_range(start, end),
                forall|vb: u64|
                    aligned(vb) ==> #[trigger] self.mapping(&pagePool.pagepool, vb) == if start <= vb < va {
                        None
                    } else {
                        pt0.mapping(&pool0, vb)
                    },
            decreases end - va,
        {
            let ghost pool1 = pagePool.pagepool;
            proof {
                lemma_aligned_step(va, end);
            }
            let next = self.unmap_span(&mut pagePool.pagepool, va);
            proof {
                PageTables::lemma_pool_step_trans(&pt0, &pt0, self, &pool0, &pool1, &pagePool.pagepool);
            }
            va = if next < end {
                next
            } else {
                end
            };
        }
        Ok(())
    }

    /// Moves the pages mapped at `[oldStart, oldStart + (end - start))` to
    /// `[start, end)`, with leaf flags `flags` and the same physical pages.
    /// All old pages are taken down before the new ones are put up, so the
    /// two ranges may overlap.
    pub fn Remap(
        &mut self,
        start: u64,
        end: u64,
        oldStart: u64,
        flags: u64,
        pagePool: &mut PageMgr,
    ) -> (res: Result<(), Error>)
        requires
            old(self).wf(&old(pagePool).pagepool),
            leaf_flags_ok(flags),
        ensures
            final(self).wf(&final(pagePool).pagepool),
            final(self).root() == old(self).root(),
            final(pagePool).vsyscallPages@ == old(pagePool).vsyscallPages@,
            final(self).pool_step(old(self), &old(pagePool).pagepool, &final(pagePool).pagepool),
            remap_error(start, end, oldStart) is Some ==> res == Err::<(), Error>(
                remap_error(start, end, oldStart)->0,
            ) && *final(self) == *old(self) && *final(pagePool) == *old(pagePool),
            res is Ok <==> remap_error(start, end, oldStart) is None && res != Err::<(), Error>(
                Error::NoEnoughMemory,
            ),
            res is Ok ==> forall|va: u64|
                aligned(va) ==> #[trigger] final(self).mapping(&final(pagePool).pagepool, va)
                    == old(self).remap_view(&old(pagePool).pagepool, start, end, oldStart, flags, va),
            res == Err::<(), Error>(Error::NoEnoughMemory) ==> forall|va: u64|
                aligned(va) ==> #[trigger] final(self).mapping(&final(pagePool).pagepool, va)
                    == old(self).remap_view(&old(pagePool).pagepool, start, end, oldStart, flags, va)
                    || final(self).mapping(&final(pagePool).pagepool, va) == old(self).unmap_view(
                    &old(pagePool).pagepool,
                    oldStart,
                    (oldStart + (end - start)) as u64,
                    va,
                ),
            res == Err::<(), Error>(Error::NoEnoughMemory) ==> final(pagePool).pagepool.available() == 0
                && final(self).lacks_table_in(start, end),
    {
        if !(start % PAGE_SIZE == 0 && end % PAGE_SIZE == 0 && oldStart % PAGE_SIZE == 0) {
            return Err(Error::UnallignedAddress);
        }
        if end < start || !(end <= PHY_LOWER_ADDR || (PHY_UPPER_ADDR <= start && end <= LOWER_TOP))
            || oldStart > LOWER_TOP - (end - start) {
            return Err(Error::AddressNotInRange);
        }
        let oldEnd = oldStart + (end - start);
        if !(oldEnd <= PHY_LOWER_ADDR || (PHY_UPPER_ADDR <= oldStart && oldEnd <= LOWER_TOP)) {
            return Err(Error::AddressNotInRange);
        }
        let ghost pt0 = *self;
        let ghost pool0 = pagePool.pagepool;
        proof {
            lemma_aligned_arith(end, start);
            lemma_aligned_arith(oldStart, (end - start) as u64);
        }
        // Take the old pages down, remembering their entries.
        let mut caps: Vec<u64> = Vec::new();
        let mut ov = oldStart;
        while ov < oldEnd
            invariant
                self.wf(&pagePool.pagepool),
                *self == pt0,
                self.pool_step(&pt0, &pool0, &pagePool.pagepool),
                pagePool.vsyscallPages@ == old(pagePool).vsyscallPages@,
                pool0 == old(pagePool).pagepool,
                pt0 == *old(self),
                aligned(ov),
                aligned(oldEnd),
                oldStart <= ov <= oldEnd,
                oldEnd == oldStart + (end - start),
                managed_range(oldStart, oldEnd),
                caps@.len() * 4096 == ov - oldStart,
                forall|j: int|
                    0 <= j < caps@.len() ==> #[trigger] caps@[j] == entry_or_zero(
                        pt0.mapping(&pool0, (oldStart + j * 4096) as u64),
                    ),
                forall|vb: u64|
                    aligned(vb) ==> #[trigger] self.mapping(&pagePool.pagepool, vb) == if oldStart <= vb < ov {
                        None
                    } else {
                        pt0.mapping(&pool0, vb)
                    },
            decreases oldEnd - ov,
        {
            proof {
                lemma_aligned_step(ov, oldEnd);
            }
            let e = self.lookup(&pagePool.pagepool, ov);
            caps.push(e);
            if e != 0 {
                let ghost pool1 = pagePool.pagepool;
                self.unmap_page(&mut pagePool.pagepool, ov);
                proof {
                    PageTables::lemma_pool_step_trans(&pt0, &pt0, self, &pool0, &pool1, &pagePool.pagepool);
                }
            }
            ov = ov + PAGE_SIZE;
        }
        let ghost pool_mid = pagePool.pagepool;
        // Put the remembered pages up at their new place.
        let ncaps = caps.len();
        let mut k: usize = 0;
        let mut nv = start;
        while nv < end
            invariant
                self.wf(&pagePool.pagepool),
                self.root() == pt0.root(),
                self.pool_step(&pt0, &pool0, &pagePool.pagepool),
                pagePool.vsyscallPages@ == old(pagePool).vsyscallPages@,
                pool0 == old(pagePool).pagepool,
                pt0 == *old(self),
                aligned(nv),
                aligned(start),
                aligned(end),
                start <= nv <= end,
                managed_range(start, end),
                leaf_flags_ok(flags),
                k * 4096 == nv - start,
                caps@.len() * 4096 == end - start,
                remap_error(start, end, oldStart) is None,
                ncaps == caps@.len(),
                oldEnd == oldStart + (end - start),
                forall|j: int|
                    0 <= j < caps@.len() ==> #[trigger] caps@[j] == entry_or_zero(
                        pt0.mapping(&pool0, (oldStart + j * 4096) as u64),
                    ),
                forall|vb: u64|
                    aligned(vb) ==> #[trigger] pt0.mapping(&pool_mid, vb) == if oldStart <= vb < oldEnd {
                        None
                    } else {
                        pt0.mapping(&pool0, vb)
                    },
                forall|vb: u64|
                    aligned(vb) ==> #[trigger] self.mapping(&pagePool.pagepool, vb) == ({
                        let moved = pt0.mapping(&pool0, (oldStart + (vb - start)) as u64);
                        if start <= vb < nv && moved is Some {
                            Some(make_entry(entry_addr(moved->0), flags))
                        } else {
                            pt0.mapping(&pool_mid, vb)
                        }
                    }),
            decreases end - nv,
        {
            proof {
                lemma_aligned_step(nv, end);
                assert(k < ncaps);
            }
            let c = caps[k];
            proof {
                assert(caps@[k as int] == entry_or_zero(pt0.mapping(&pool0, (oldStart + k * 4096) as u64)));
                assert((oldStart + k * 4096) as u64 == (oldStart + (nv - start)) as u64);
            }
            if c != 0 {
                let a = addr_of_entry(c);
                proof {
                    lemma_entry_addr_acceptable(c);
                    lemma_entry_roundtrip(a, flags);
                }
                let pte = entry_with_addr(a, flags);
                let ghost pt1 = *self;
                let ghost pool1 = pagePool.pagepool;
                let r = self.map_page(&mut pagePool.pagepool, nv, pte);
                proof {
                    PageTables::lemma_pool_step_trans(&pt0, &pt1, self, &pool0, &pool1, &pagePool.pagepool);
                }
                match r {
                    Ok(()) => {},
                    Err(e) => {
                        proof {
                            assert(start <= nv < end && aligned(nv) && self.missing_tables(nv) > 0);
                        }
                        return Err(e);
                    },
                }
            }
            k = k + 1;
            nv = nv + PAGE_SIZE;
        }
        Ok(())
    }

    /// Maps the page at `vaddr` to the physical page at `phyAddr` with leaf
    /// flags `flags`.
    pub fn MapPage(&mut self, vaddr: u64, phyAddr: u64, flags: u64, pagePool: &mut PageMgr) -> (res: Result<
        (),
        Error,
    >)
        requires
            old(self).wf(&old(pagePool).pagepool),
            leaf_flags_ok(flags),
        ensures
            final(self).wf(&final(pagePool).pagepool),
            final(self).root() == old(self).root(),
            final(pagePool).vsyscallPages@ == old(pagePool).vsyscallPages@,
            final(self).pool_step(old(self), &old(pagePool).pagepool, &final(pagePool).pagepool),
            map_page_error(vaddr, phyAddr) is Some ==> res == Err::<(), Error>(
                map_page_error(vaddr, phyAddr)->0,
            ) && *final(self) == *old(self) && *final(pagePool) == *old(pagePool),
            res is Ok <==> map_page_error(vaddr, phyAddr) is None && res != Err::<(), Error>(
                Error::NoEnoughMemory,
            ),
            res is Ok ==> forall|va: u64|
                aligned(va) ==> #[trigger] final(self).mapping(&final(pagePool).pagepool, va) == if va
                    == vaddr {
                    Some(make_entry(phyAddr, flags))
                } else {
                    old(self).mapping(&old(pagePool).pagepool, va)
                },
            res == Err::<(), Error>(Error::NoEnoughMemory) ==> forall|va: u64|
                #[trigger] final(self).mapping(&final(pagePool).pagepool, va) == old(self).mapping(
                    &old(pagePool).pagepool,
                    va,
                ),
            old(self).shared_kept(&old(pagePool).pagepool, &final(pagePool).pagepool),
            forall|l2: nat, pre2: nat| old(self).table(l2, pre2) is Some ==> #[trigger] final(self).table(l2, pre2)
                == old(self).table(l2, pre2),
            map_page_error(vaddr, phyAddr) is None ==> (res is Ok <==> old(pagePool).pagepool.available()
                >= old(self).missing_tables(vaddr)),
            res is Ok ==> final(pagePool).pagepool.available() + old(self).missing_tables(vaddr)
                == old(pagePool).pagepool.available(),
            res == Err::<(), Error>(Error::NoEnoughMemory) ==> final(pagePool).pagepool.available() == 0
                && final(self).missing_tables(vaddr) > 0,
    {
        if !(vaddr % PAGE_SIZE == 0 && phyAddr % PAGE_SIZE == 0) {
            return Err(Error::UnallignedAddress);
        }
        if !(vaddr < PHY_LOWER_ADDR || (PHY_UPPER_ADDR <= vaddr && vaddr < LOWER_TOP))
            || phyAddr >= MAX_PHYS_ADDR {
            return Err(Error::AddressNotInRange);
        }
        proof {
            lemma_entry_roundtrip(phyAddr, flags);
        }
        let pte = entry_with_addr(phyAddr, flags);
        self.map_page(&mut pagePool.pagepool, vaddr, pte)
    }

    /// Takes down the old mappings of `[oldStart, oldEnd)`, then maps
    /// `[start, end)` to the physical pages from `physical` on with leaf flags
    /// `flags` (a file's pages are known by their physical address, so nothing
    /// is carried over from the old range).
    pub fn RemapForFile(
        &mut self,
        start: u64,
        end: u64,
        physical: u64,
        oldStart: u64,
        oldEnd: u64,
        flags: u64,
        pagePool: &mut PageMgr,
    ) -> (res: Result<(), Error>)
        requires
            old(self).wf(&old(pagePool).pagepool),
            leaf_flags_ok(flags),
        ensures
            final(self).wf(&final(pagePool).pagepool),
            final(self).root() == old(self).root(),
            final(pagePool).vsyscallPages@ == old(pagePool).vsyscallPages@,
            final(self).pool_step(old(self), &old(pagePool).pagepool, &final(pagePool).pagepool),
            unmap_error(oldStart, oldEnd) is Some ==> res == Err::<(), Error>(
                unmap_error(oldStart, oldEnd)->0,
            ) && *final(self) == *old(self) && *final(pagePool) == *old(pagePool),
            unmap_error(oldStart, oldEnd) is None && map_error(start, end, physical) is Some ==> res
                == Err::<(), Error>(map_error(start, end, physical)->0),
            res is Ok <==> unmap_error(oldStart, oldEnd) is None && map_error(start, end, physical) is None
                && res != Err::<(), Error>(Error::NoEnoughMemory),
            res is Ok ==> forall|va: u64|
                aligned(va) ==> #[trigger] final(self).mapping(&final(pagePool).pagepool, va)
                    == old(self).file_view(&old(pagePool).pagepool, start, end, physical, oldStart, oldEnd, flags, va),
            res == Err::<(), Error>(Error::NoEnoughMemory) ==> forall|va: u64|
                aligned(va) ==> #[trigger] final(self).mapping(&final(pagePool).pagepool, va)
                    == old(self).file_view(&old(pagePool).pagepool, start, end, physical, oldStart, oldEnd, flags, va)
                    || final(self).mapping(&final(pagePool).pagepool, va) == old(self).unmap_view(
                    &old(pagePool).pagepool,
                    oldStart,
                    oldEnd,
                    va,
                ),
            res == Err::<(), Error>(Error::NoEnoughMemory) ==> final(pagePool).pagepool.available() == 0
                && final(self).lacks_table_in(start, end),
    {
        let ghost pt0 = *self;
        let ghost pool0 = pagePool.pagepool;
        self.Unmap(oldStart, oldEnd, pagePool)?;
        let ghost pt1 = *self;
        let ghost pool1 = pagePool.pagepool;
        let r = self.MapRange(start, end, physical, flags, pagePool, false);
        proof {
            PageTables::lemma_pool_step_trans(&pt0, &pt1, self, &pool0, &pool1, &pagePool.pagepool);
        }
        r
    }

    /// Pool changes outside the tables of an address space leave it
    /// well-formed and leave its mappings as they were.
    pub proof fn lemma_frame(&self, p0: &PageBlockAlloc, p1: &PageBlockAlloc)
        requires
            self.wf(p0),
            p1.wf(),
            forall|b: u64| #[trigger] self.owns(b) ==> p1.allocated(b),
            forall|b: u64, i: int| self.owns(b) ==> #[trigger] p1.word(b, i) == p0.word(b, i),
        ensures
            self.wf(p1),
            forall|va: u64| #[trigger] self.mapping(p1, va) == self.mapping(p0, va),
    {
        let t = self.tables@;
        assert forall|k: (nat, nat)| #[trigger] t.contains_key(k) implies p1.allocated(t[k]) && k.0 <= 3 by {
            assert(self.owns(t[k]));
        }
        assert forall|l: nat, pre: nat, i: nat| #[trigger] self.child_ok(p1, l, pre, i) by {
            assert(self.child_ok(p0, l, pre, i));
            if t.contains_key((l, pre)) {
                assert(self.owns(t[(l, pre)]));
            }
        }
        assert forall|va: u64| #[trigger] self.mapping(p1, va) == self.mapping(p0, va) by {
            let k = (3nat, prefix_at(va, 3));
            if t.contains_key(k) {
                assert(self.owns(t[k]));
            }
        }
    }

    /// The table of level `l` (the root, or the first level-3 table)
    /// exists, and index `i` of it maps memory shared by all address spaces.
    pub open spec fn shared_slot(&self, l: nat, i: nat) -> bool {
        &&& l <= 1
        &&& i < 512
        &&& !managed_child(l, 0, i)
        &&& self.table(l, 0) is Some
    }

    /// Writes entry `i` of a table at a slot that maps shared memory.
    pub(crate) fn set_shared_entry(&self, pool: &mut PageBlockAlloc, table: u64, l: u64, i: u64, v: u64)
        requires
            self.wf(old(pool)),
            self.shared_slot(l as nat, i as nat),
            self.table(l as nat, 0) == Some(table),
        ensures
            self.wf(final(pool)),
            self.pool_step(self, old(pool), final(pool)),
            final(pool).npages() == old(pool).npages(),
            final(pool).available() == old(pool).available(),
            final(pool).word(table, i as int) == v,
            forall|b: u64| #[trigger] final(pool).allocated(b) == old(pool).allocated(b),
            forall|b: u64| #[trigger] final(pool).refcount(b) == old(pool).refcount(b),
            forall|b: u64, j: int|
                (b != table || j != i) ==> #[trigger] final(pool).word(b, j) == old(pool).word(b, j),
            forall|va: u64| #[trigger] self.mapping(final(pool), va) == self.mapping(old(pool), va),
    {
        let ghost pool0 = *pool;
        let ghost t = self.tables@;
        proof {
            pool.lemma_wf_facts();
            assert(self.owns(table)) by {
                assert(t[(l as nat, 0nat)] == table);
            }
        }
        pool.WriteWord(table, i, v);
        proof {
            assert forall|l2: nat, pre2: nat, i2: nat| #[trigger] self.child_ok(pool, l2, pre2, i2) by {
                assert(self.child_ok(&pool0, l2, pre2, i2));
                if t.contains_key((l2, pre2)) && t[(l2, pre2)] == table {
                    assert((l2, pre2) == (l as nat, 0nat));
                }
            }
            assert forall|va: u64| #[trigger] self.mapping(pool, va) == self.mapping(&pool0, va) by {
                let k = (3nat, prefix_at(va, 3));
                if t.contains_key(k) {
                    assert(t[k] != table);
                }
            }
        }
    }

    /// What a well-formed address space says about one managed entry: it is
    /// zero exactly when the child table is absent, and otherwise a present
    /// entry that holds the child's address; the child is a distinct
    /// allocated page. The root is the level-0 table and is allocated.
    pub proof fn lemma_child_entry(&self, pool: &PageBlockAlloc, l: nat, pre: nat, i: nat)
        requires
            self.wf(pool),
            self.table(l, pre) is Some,
            l < 3,
            i < 512,
            managed_child(l, pre, i),
        ensures
            self.table(0, 0) == Some(self.root()),
            pool.allocated(self.root()),
            pool.allocated(self.table(l, pre)->0),
            self.table(l + 1, pre * 512 + i) is Some <==> pool.word(self.table(l, pre)->0, i as int) != 0,
            self.table(l + 1, pre * 512 + i) is Some ==> {
                let c = self.table(l + 1, pre * 512 + i)->0;
                &&& pool.word(self.table(l, pre)->0, i as int) == make_entry(c, TABLE_FLAGS)
                &&& entry_addr(pool.word(self.table(l, pre)->0, i as int)) == c
                &&& pool.allocated(c)
                &&& c != self.table(l, pre)->0
                &&& c != self.root()
            },
    {
        assert(self.child_ok(pool, l, pre, i));
        let t = self.tables@;
        assert(pool.allocated(t[(0nat, 0nat)]));
        assert(pool.allocated(t[(l, pre)]));
        if t.contains_key((l + 1, pre * 512 + i)) {
            let c = t[(l + 1, pre * 512 + i)];
            assert(pool.allocated(c));
            pool.lemma_wf_facts();
            lemma_table_flags();
            lemma_entry_roundtrip(c, TABLE_FLAGS);
            assert(t[(l + 1, pre * 512 + i)] != t[(l, pre)]);
            assert(t[(l + 1, pre * 512 + i)] != t[(0nat, 0nat)]);
        }
    }

    /// A well-formed address space has its root as level-0 table, the root
    /// is an allocated page, and the pool is well-formed.
    pub proof fn lemma_wf_root(&self, pool: &PageBlockAlloc)
        requires
            self.wf(pool),
        ensures
            pool.wf(),
            self.table(0, 0) == Some(self.root()),
            pool.allocated(self.root()),
            self.owns(self.root()),
            forall|l: nat, pre: nat| #[trigger] self.table(l, pre) is Some ==> self.owns(self.table(l, pre)->0)
                && pool.allocated(self.table(l, pre)->0),
            forall|b: u64| #[trigger] self.owns(b) ==> pool.allocated(b),
    {
        assert forall|b: u64| #[trigger] self.owns(b) implies pool.allocated(b) by {
            let k = choose|k: (nat, nat)| self.tables@.contains_key(k) && #[trigger] self.tables@[k] == b;
            assert(pool.allocated(self.tables@[k]));
        }
        let t = self.tables@;
        assert(pool.allocated(t[(0nat, 0nat)]));
        assert(t[(0nat, 0nat)] == self.root);
        assert forall|l: nat, pre: nat| #[trigger] self.table(l, pre) is Some implies self.owns(
            self.table(l, pre)->0,
        ) && pool.allocated(self.table(l, pre)->0) by {
            assert(t[(l, pre)] == self.table(l, pre)->0);
        }
    }

    /// Mappings only read the tables' pages.
    pub proof fn lemma_mapping_frame(&self, p0: &PageBlockAlloc, p1: &PageBlockAlloc)
        requires
            forall|b: u64, i: int| self.owns(b) ==> #[trigger] p1.word(b, i) == p0.word(b, i),
        ensures
            forall|va: u64| #[trigger] self.mapping(p1, va) == self.mapping(p0, va),
    {
        let t = self.tables@;
        assert forall|va: u64| #[trigger] self.mapping(p1, va) == self.mapping(p0, va) by {
            let k = (3nat, prefix_at(va, 3));
            if t.contains_key(k) {
                assert(self.owns(t[k]));
            }
        }
    }

    /// How many tables the path of `va` lacks, by the tables present.
    pub proof fn lemma_missing_tables(&self, va: u64)
        ensures
            self.missing_tables(va) == if self.table(3, prefix_at(va, 3)) is Some {
                0nat
            } else if self.table(2, prefix_at(va, 2)) is Some {
                1nat
            } else if self.table(1, prefix_at(va, 1)) is Some {
                2nat
            } else {
                3nat
            },
    {
    }

    /// The mappings of a well-formed address space are what the MMU finds:
    /// for every address this module manages, walking the tables from the
    /// root gives exactly `mapping`.
    pub proof fn law_mmu_walk(&self, pool: &PageBlockAlloc, va: u64)
        requires
            self.wf(pool),
            managed_va(va),
        ensures
            hw_walk(pool, self.root(), va) == self.mapping(pool, va),
    {
        lemma_prefix_step(va);
        lemma_managed_path(va);
        self.lemma_path_parents(pool, va);
        lemma_table_flags();
        pool.lemma_wf_facts();
        assert(make_entry(0, TABLE_FLAGS) & 1u64 == 1u64) by (bit_vector);
        let t = self.tables@;
        assert(present(0u64) == false) by (bit_vector);
        self.lemma_child_entry(pool, 0, 0, index_at(va, 0));
        if t.contains_key((1nat, prefix_at(va, 1))) {
            let t1 = t[(1nat, prefix_at(va, 1))];
            assert(present(make_entry(t1, TABLE_FLAGS))) by (bit_vector)
                requires
                    TABLE_FLAGS == 7u64,
            ;
            self.lemma_child_entry(pool, 1, prefix_at(va, 1), index_at(va, 1));
            if t.contains_key((2nat, prefix_at(va, 2))) {
                let t2 = t[(2nat, prefix_at(va, 2))];
                assert(present(make_entry(t2, TABLE_FLAGS))) by (bit_vector)
                    requires
                        TABLE_FLAGS == 7u64,
                ;
                self.lemma_child_entry(pool, 2, prefix_at(va, 2), index_at(va, 2));
                if t.contains_key((3nat, prefix_at(va, 3))) {
                    let t3 = t[(3nat, prefix_at(va, 3))];
                    assert(present(make_entry(t3, TABLE_FLAGS))) by (bit_vector)
                        requires
                            TABLE_FLAGS == 7u64,
                    ;
                }
            }
        }
    }

    /// The table pages of a well-formed address space are distinct tables,
    /// other than the root and the first level-3 table, and every other table
    /// is among them.
    pub proof fn lemma_table_pages(&self, pool: &PageBlockAlloc)
        requires
            self.wf(pool),
        ensures
            self.table_pages().no_duplicates(),
            forall|j: int|
                0 <= j < self.table_pages().len() ==> {
                    &&& #[trigger] self.table_pages()[j] != self.root()
                    &&& self.table(1, 0) is Some ==> self.table_pages()[j] != self.table(1, 0)->0
                    &&& self.owns(self.table_pages()[j])
                    &&& pool.allocated(self.table_pages()[j])
                },
            forall|l: nat, pre: nat|
                #[trigger] self.table(l, pre) is Some && (l, pre) != (0nat, 0nat) && (l, pre) != (1nat, 0nat)
                    ==> self.table_pages().contains(self.table(l, pre)->0),
    {
        let t = self.tables@;
        let tp = self.tablePages@;
        assert forall|j: int| 0 <= j < tp.len() implies {
            &&& #[trigger] tp[j] != self.root()
            &&& self.table(1, 0) is Some ==> tp[j] != self.table(1, 0)->0
            &&& self.owns(tp[j])
            &&& pool.allocated(tp[j])
        } by {
            assert(self.lower_table(tp[j]));
            let k = choose|k: (nat, nat)|
                #![trigger t[k]]
                t.contains_key(k) && k != (0nat, 0nat) && k != (1nat, 0nat) && t[k] == tp[j];
            assert(t[(0nat, 0nat)] == self.root);
            if self.table(1, 0) is Some {
                assert(t[(1nat, 0nat)] == self.table(1, 0)->0);
            }
        }
        assert forall|l: nat, pre: nat|
            #[trigger] self.table(l, pre) is Some && (l, pre) != (0nat, 0nat) && (l, pre) != (1nat, 0nat)
                implies tp.contains(self.table(l, pre)->0) by {
            assert(t[(l, pre)] == self.table(l, pre)->0);
        }
    }

    /// Drops one reference on each table page (see `table_pages`) that holds
    /// one, so that a table whose last reference goes returns to the pool, and
    /// forgets them.
    pub fn FreePages(&mut self, pagePool: &mut PageMgr)
        requires
            old(pagePool).wf(),
            old(self).table_pages().no_duplicates(),
        ensures
            final(self).table_pages().len() == 0,
            final(self).root() == old(self).root(),
            final(pagePool).wf(),
            final(pagePool).vsyscallPages@ == old(pagePool).vsyscallPages@,
            final(pagePool).pagepool.available() == old(pagePool).pagepool.available() + last_refs(
                old(pagePool).pagepool,
                old(self).table_pages(),
            ),
            forall|j: int|
                0 <= j < old(self).table_pages().len() ==> {
                    let b = #[trigger] old(self).table_pages()[j];
                    let p0 = old(pagePool).pagepool;
                    let p1 = final(pagePool).pagepool;
                    if p0.allocated(b) && p0.refcount(b) > 0 {
                        p1.refcount(b) == p0.refcount(b) - 1 && p1.allocated(b) == (p1.refcount(b) > 0)
                    } else {
                        p1.refcount(b) == p0.refcount(b) && p1.allocated(b) == p0.allocated(b)
                    }
                },
            forall|b: u64|
                !old(self).table_pages().contains(b) ==> #[trigger] final(pagePool).pagepool.allocated(b)
                    == old(pagePool).pagepool.allocated(b),
            forall|b: u64|
                !old(self).table_pages().contains(b) ==> #[trigger] final(pagePool).pagepool.refcount(b)
                    == old(pagePool).pagepool.refcount(b),
            forall|b: u64, i: int| #[trigger] final(pagePool).pagepool.word(b, i) == old(pagePool).pagepool.word(b, i),
    {
        let ghost pool0 = pagePool.pagepool;
        let ghost pages = self.tablePages@;
        let n = self.tablePages.len();
        let mut k: usize = 0;
        while k < n
            invariant
                pagePool.wf(),
                pagePool.vsyscallPages@ == old(pagePool).vsyscallPages@,
                self.tablePages@ == pages,
                pages == old(self).table_pages(),
                pages.no_duplicates(),
                self.root() == old(self).root(),
                pool0 == old(pagePool).pagepool,
                pool0.wf(),
                n == pages.len(),
                k <= n,
                forall|j: int|
                    0 <= j < k ==> {
                        let b = #[trigger] pages[j];
                        if pool0.allocated(b) && pool0.refcount(b) > 0 {
                            pagePool.pagepool.refcount(b) == pool0.refcount(b) - 1 && pagePool.pagepool.allocated(b)
                                == (pagePool.pagepool.refcount(b) > 0)
                        } else {
                            pagePool.pagepool.refcount(b) == pool0.refcount(b) && pagePool.pagepool.allocated(b)
                                == pool0.allocated(b)
                        }
                    },
                forall|j: int|
                    k <= j < n ==> #[trigger] pagePool.pagepool.refcount(pages[j]) == pool0.refcount(pages[j])
                        && pagePool.pagepool.allocated(pages[j]) == pool0.allocated(pages[j]),
                forall|b: u64| !pages.contains(b) ==> #[trigger] pagePool.pagepool.allocated(b) == pool0.allocated(b),
                forall|b: u64| !pages.contains(b) ==> #[trigger] pagePool.pagepool.refcount(b) == pool0.refcount(b),
                forall|b: u64, i: int| #[trigger] pagePool.pagepool.word(b, i) == pool0.word(b, i),
                pagePool.pagepool.available() == pool0.available() + last_refs(pool0, pages.take(k as int)),
            decreases n - k,
        {
            let p = self.tablePages[k];
            proof {
                assert(pages.take(k + 1).drop_last() =~= pages.take(k as int));
                assert(pages.take(k + 1).last() == pages[k as int]);
                pool0.lemma_wf_facts();
                assert forall|j: int| 0 <= j < n && j != k implies pages[j] != p by {
                    assert(pages[j] != pages[k as int]);
                }
                assert forall|b: u64| !pages.contains(b) implies b != p by {
                    assert(pages[k as int] == p);
                }
            }
            let _count = pagePool.Deref(p);
            k = k + 1;
        }
        proof {
            assert(pages.take(n as int) =~= pages);
        }
        self.tablePages = Vec::new();
    }

    /// The leaf entry that maps `vaddr`; `AddressNotMap` when there is none,
    /// `AddressNotInRange` outside the part of the address space this module
    /// maps.
    pub fn VirtualToEntry(&self, vaddr: u64, pagePool: &PageMgr) -> (res: Result<u64, Error>)
        requires
            self.wf(&pagePool.pagepool),
        ensures
            !managed_va(vaddr) ==> res == Err::<u64, Error>(Error::AddressNotInRange),
            managed_va(vaddr) ==> res == match self.mapping(&pagePool.pagepool, vaddr) {
                Some(e) => Ok::<u64, Error>(e),
                None => Err::<u64, Error>(Error::AddressNotMap(vaddr)),
            },
    {
        if !(vaddr < PHY_LOWER_ADDR || (PHY_UPPER_ADDR <= vaddr && vaddr < LOWER_TOP)) {
            return Err(Error::AddressNotInRange);
        }
        let e = self.lookup(&pagePool.pagepool, vaddr);
        if e == 0 {
            Err(Error::AddressNotMap(vaddr))
        } else {
            Ok(e)
        }
    }

    /// Removes the mapping of the page at `va`; where a table on its path is
    /// absent, nothing from `va` to the end of that table's span is mapped,
    /// and the span is skipped. Returns where to go on.
    fn unmap_span(&mut self, pool: &mut PageBlockAlloc, va: u64) -> (next: u64)
        requires
            old(self).wf(old(pool)),
            managed_va(va),
            aligned(va),
        ensures
            final(self).wf(final(pool)),
            *final(self) == *old(self),
            final(self).pool_step(old(self), old(pool), final(pool)),
            final(pool).available() == old(pool).available(),
            forall|b: u64| #[trigger] final(pool).allocated(b) == old(pool).allocated(b),
            va < next <= LOWER_TOP,
            aligned(next),
            forall|vb: u64|
                va + 4096 <= vb < next ==> #[trigger] old(self).mapping(old(pool), vb) is None,
            forall|vb: u64|
                aligned(vb) ==> #[trigger] final(self).mapping(final(pool), vb) == if va <= vb < next {
                    None
                } else {
                    old(self).mapping(old(pool), vb)
                },
    {
        let ghost t = self.tables@;
        proof {
            lemma_prefix_step(va);
            lemma_managed_path(va);
            lemma_table_flags();
            pool.lemma_wf_facts();
            assert(self.child_ok(pool, 0, 0, index_at(va, 0)));
            assert(self.child_ok(pool, 1, prefix_at(va, 1), index_at(va, 1)));
            assert(self.child_ok(pool, 2, prefix_at(va, 2), index_at(va, 2)));
            lemma_span(va, va);
        }
        let e0 = pool.ReadWord(self.root, p4_index(va));
        if e0 == 0 {
            let next = ((va >> 39u64) + 1) << 39u64;
            assert(next == span_end(va, 39));
            proof {
                assert forall|vb: u64| va <= vb < next implies #[trigger] self.mapping(pool, vb) is None by {
                    lemma_span(va, vb);
                    self.lemma_path_parents(pool, vb);
                }
            }
            return next;
        }
        proof {
            lemma_entry_roundtrip(t[(1nat, prefix_at(va, 1))], TABLE_FLAGS);
        }
        let t1 = addr_of_entry(e0);
        let e1 = pool.ReadWord(t1, p3_index(va));
        if e1 == 0 {
            let next = ((va >> 30u64) + 1) << 30u64;
            assert(next == span_end(va, 30));
            proof {
                assert forall|vb: u64| va <= vb < next implies #[trigger] self.mapping(pool, vb) is None by {
                    lemma_span(va, vb);
                    self.lemma_path_parents(pool, vb);
                }
            }
            return next;
        }
        proof {
            lemma_entry_roundtrip(t[(2nat, prefix_at(va, 2))], TABLE_FLAGS);
        }
        let t2 = addr_of_entry(e1);
        let e2 = pool.ReadWord(t2, p2_index(va));
        if e2 == 0 {
            let next = ((va >> 21u64) + 1) << 21u64;
            assert(next == span_end(va, 21));
            proof {
                assert forall|vb: u64| va <= vb < next implies #[trigger] self.mapping(pool, vb) is None by {
                    lemma_span(va, vb);
                    self.lemma_path_parents(pool, vb);
                }
            }
            return next;
        }
        self.unmap_page(pool, va);
        proof {
            lemma_aligned_step(va, LOWER_TOP);
        }
        va + PAGE_SIZE
    }
}

} // verus!
