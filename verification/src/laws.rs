use vstd::prelude::*;
use crate::block_alloc::PageBlockAlloc;
use crate::defs::Error;
use crate::fs::{mounted, stop_index};
use crate::mounts::{valid_destination, Mount};
use crate::pagetable::{aligned, PageTables};
use crate::pma::last_refs;
use crate::flags::{opts_for_access, AccessType, PRESENT, USER_ACCESSIBLE, WRITABLE};
use crate::fs::mount_flags_for;
use crate::mounts::{mount_option, mount_op_for, option_flags, options_of, MountOp, MS_NODEV, MS_NOEXEC, MS_NOSUID, MS_RDONLY};
use crate::path::{clean, clean_elems, clean_step, is_abs, is_dot, is_dotdot, join, join_slash, split_path};

verus! {

/// Taking a reference on a page that holds one and dropping it again
/// succeeds and leaves every page as it was.
pub proof fn law_ref_then_deref(
    p0: &PageBlockAlloc,
    p1: &PageBlockAlloc,
    p2: &PageBlockAlloc,
    addr: u64,
    r1: Result<u64, Error>,
    r2: Result<u64, Error>,
)
    requires
        p0.wf(),
        p0.refcount(addr) > 0,
        p0.ref_post(p1, addr, r1),
        p1.deref_post(p2, addr, r2),
        r1 is Ok,
    ensures
        r2 is Ok,
        r2->Ok_0 == p0.refcount(addr),
        forall|b: u64| #[trigger] p2.allocated(b) == p0.allocated(b),
        forall|b: u64| #[trigger] p2.refcount(b) == p0.refcount(b),
        forall|b: u64, i: int| #[trigger] p2.word(b, i) == p0.word(b, i),
{
    assert forall|b: u64| #[trigger] p2.allocated(b) == p0.allocated(b) by {
        if b != addr {
            assert(p1.allocated(b) == p0.allocated(b));
        }
    }
    assert forall|b: u64| #[trigger] p2.refcount(b) == p0.refcount(b) by {
        if b != addr {
            assert(p1.refcount(b) == p0.refcount(b));
        }
    }
    assert forall|b: u64, i: int| #[trigger] p2.word(b, i) == p0.word(b, i) by {
        assert(p1.word(b, i) == p0.word(b, i));
    }
}

/// Mapping a range and then unmapping it leaves the range unmapped and the
/// rest of the address space as it was before the mapping.
pub proof fn law_map_then_unmap(
    pt0: &PageTables,
    p0: &PageBlockAlloc,
    pt1: &PageTables,
    p1: &PageBlockAlloc,
    pt2: &PageTables,
    p2: &PageBlockAlloc,
    start: u64,
    end: u64,
    physical: u64,
    flags: u64,
)
    requires
        forall|va: u64|
            aligned(va) ==> #[trigger] pt1.mapping(p1, va) == pt0.linear_view(p0, start, end, physical, flags, va),
        forall|va: u64| aligned(va) ==> #[trigger] pt2.mapping(p2, va) == pt1.unmap_view(p1, start, end, va),
    ensures
        forall|va: u64| aligned(va) ==> #[trigger] pt2.mapping(p2, va) == pt0.unmap_view(p0, start, end, va),
{
    assert forall|va: u64| aligned(va) implies #[trigger] pt2.mapping(p2, va) == pt0.unmap_view(
        p0,
        start,
        end,
        va,
    ) by {
        assert(pt1.mapping(p1, va) == pt0.linear_view(p0, start, end, physical, flags, va));
    }
}

/// An operation on one address space never disturbs another one whose
/// tables it does not own: that one stays well-formed with the same
/// mappings.
pub proof fn law_separate_spaces(
    a0: &PageTables,
    a1: &PageTables,
    b: &PageTables,
    p0: &PageBlockAlloc,
    p1: &PageBlockAlloc,
)
    requires
        b.wf(p0),
        p1.wf(),
        a1.pool_step(a0, p0, p1),
        forall|x: u64| #[trigger] b.owns(x) ==> !a1.owns(x),
    ensures
        b.wf(p1),
        forall|va: u64| #[trigger] b.mapping(p1, va) == b.mapping(p0, va),
{
    b.lemma_wf_root(p0);
    assert forall|x: u64| #[trigger] b.owns(x) implies p1.allocated(x) by {
        assert(p0.allocated(x));
    }
    assert forall|x: u64, i: int| b.owns(x) implies #[trigger] p1.word(x, i) == p0.word(x, i) by {
        assert(!a1.owns(x));
    }
    b.lemma_frame(p0, p1);
}

/// A path joined onto an absolute directory is absolute.
pub proof fn law_join_absolute(dir: Seq<char>, file: Seq<char>)
    requires
        is_abs(dir),
    ensures
        is_abs(join(dir, file)),
{
    if file.len() > 0 {
        assert((dir + seq!['/'] + file)[0] == '/');
    }
}

pub proof fn lemma_stop_valid(ms: Seq<Mount>)
    ensures
        stop_index(ms) <= ms.len(),
        forall|j: int| 0 <= j < stop_index(ms) ==> valid_destination(#[trigger] ms[j].destination@),
    decreases ms.len(),
{
    if ms.len() > 0 {
        lemma_stop_valid(ms.drop_last());
        assert forall|j: int| 0 <= j < stop_index(ms) implies valid_destination(
            #[trigger] ms[j].destination@,
        ) by {
            if j < ms.len() - 1 {
                assert(ms[j] == ms.drop_last()[j]);
            }
        }
    }
}

pub proof fn lemma_mounted_members(s: Seq<Mount>)
    ensures
        mounted(s).len() <= s.len(),
        forall|j: int|
            0 <= j < mounted(s).len() ==> exists|k: int|
                0 <= k < s.len() && #[trigger] mounted(s)[j] == s[k] && s[k].typ@ != "cgroup"@,
    decreases s.len(),
{
    if s.len() > 0 {
        let t = s.drop_last();
        lemma_mounted_members(t);
        assert forall|j: int| 0 <= j < mounted(s).len() implies exists|k: int|
            0 <= k < s.len() && #[trigger] mounted(s)[j] == s[k] && s[k].typ@ != "cgroup"@ by {
            if j < mounted(t).len() {
                let k = choose|k: int| 0 <= k < t.len() && mounted(t)[j] == t[k] && t[k].typ@ != "cgroup"@;
                assert(mounted(s)[j] == mounted(t)[j]);
                assert(s[k] == t[k]);
            } else {
                assert(mounted(s)[j] == s[s.len() - 1]);
            }
        }
    }
}

/// Every mount that mounting a container's filesystem performs has an
/// absolute destination without `..` (so its target stays below the
/// sandbox root) and is not a cgroup mount.
pub proof fn law_planned_mounts_valid(ms: Seq<Mount>)
    ensures
        forall|j: int|
            0 <= j < mounted(ms.subrange(0, stop_index(ms) as int)).len() ==> {
                let m = #[trigger] mounted(ms.subrange(0, stop_index(ms) as int))[j];
                &&& valid_destination(m.destination@)
                &&& m.typ@ != "cgroup"@
            },
{
    lemma_stop_valid(ms);
    let s = ms.subrange(0, stop_index(ms) as int);
    lemma_mounted_members(s);
    assert forall|j: int| 0 <= j < mounted(s).len() implies {
        let m = #[trigger] mounted(s)[j];
        &&& valid_destination(m.destination@)
        &&& m.typ@ != "cgroup"@
    } by {
        let k = choose|k: int| 0 <= k < s.len() && mounted(s)[j] == s[k] && s[k].typ@ != "cgroup"@;
        assert(s[k] == ms[k]);
    }
}

/// Whether `c` holds no slash.
pub open spec fn no_slash(c: Seq<char>) -> bool {
    forall|i: int| 0 <= i < c.len() ==> c[i] != '/'
}

/// Whether `st` is what cleaning leaves: nonempty elements without slashes,
/// no `.`, the `..` elements in front, and none of them in an absolute path.
pub open spec fn clean_form(rooted: bool, st: Seq<Seq<char>>) -> bool {
    &&& forall|k: int|
        0 <= k < st.len() ==> (#[trigger] st[k]).len() > 0 && no_slash(st[k]) && !is_dot(st[k])
    &&& forall|k: int, m: int|
        0 <= k < m < st.len() && is_dotdot(#[trigger] st[m]) ==> is_dotdot(#[trigger] st[k])
    &&& rooted ==> forall|k: int| 0 <= k < st.len() ==> !is_dotdot(#[trigger] st[k])
}

proof fn lemma_split_no_slash(p: Seq<char>)
    ensures
        split_path(p).len() >= 1,
        forall|k: int| 0 <= k < split_path(p).len() ==> no_slash(#[trigger] split_path(p)[k]),
    decreases p.len(),
{
    if p.len() > 0 {
        lemma_split_no_slash(p.drop_last());
        let s = split_path(p.drop_last());
        if p.last() != '/' {
            let l = s.last().push(p.last());
            assert forall|i: int| 0 <= i < l.len() implies l[i] != '/' by {
                if i < l.len() - 1 {
                    assert(l[i] == s.last()[i]);
                }
            }
        }
    }
}

proof fn lemma_split_append(q: Seq<char>, x: Seq<char>)
    requires
        no_slash(x),
    ensures
        split_path(q).len() >= 1,
        split_path(q + x) == split_path(q).update(split_path(q).len() - 1, split_path(q).last() + x),
    decreases x.len(),
{
    lemma_split_no_slash(q);
    let s = split_path(q);
    if x.len() == 0 {
        assert(q + x =~= q);
        assert(s.last() + x =~= s.last());
        assert(s.update(s.len() - 1, s.last()) =~= s);
    } else {
        let y = x.drop_last();
        assert(no_slash(y)) by {
            assert forall|i: int| 0 <= i < y.len() implies y[i] != '/' by {
                assert(y[i] == x[i]);
            }
        }
        lemma_split_append(q, y);
        let z = q + x;
        assert(z.drop_last() =~= q + y);
        assert(z.last() == x[x.len() - 1]);
        assert(z.last() != '/');
        let sy = split_path(q + y);
        assert(sy.len() == s.len());
        assert(sy.last() == s.last() + y);
        assert((s.last() + y).push(x.last()) =~= s.last() + x);
        assert(split_path(z) == sy.update(sy.len() - 1, sy.last().push(z.last())));
        assert(sy.update(sy.len() - 1, (s.last() + y).push(x.last())) =~= s.update(
            s.len() - 1,
            s.last() + x,
        ));
    }
}

proof fn lemma_split_join(cs: Seq<Seq<char>>)
    requires
        cs.len() >= 1,
        forall|k: int| 0 <= k < cs.len() ==> no_slash(#[trigger] cs[k]),
    ensures
        split_path(join_slash(cs)) == cs,
    decreases cs.len(),
{
    if cs.len() == 1 {
        lemma_split_append(Seq::<char>::empty(), cs[0]);
        assert(Seq::<char>::empty() + cs[0] =~= cs[0]);
        assert(split_path(Seq::<char>::empty()) =~= seq![Seq::<char>::empty()]);
        assert(seq![Seq::<char>::empty()].update(0, Seq::<char>::empty() + cs[0]) =~= cs);
    } else {
        let d = cs.drop_last();
        lemma_split_join(d);
        let j = join_slash(d);
        assert(j + seq!['/'] =~= j.push('/'));
        assert(j.push('/').drop_last() =~= j);
        assert(split_path(j.push('/')) == split_path(j).push(Seq::<char>::empty()));
        lemma_split_append(j.push('/'), cs.last());
        assert(j + seq!['/'] + cs.last() =~= j.push('/') + cs.last());
        assert(d.push(Seq::<char>::empty()).update(d.len() as int, Seq::<char>::empty() + cs.last()) =~= cs);
    }
}

proof fn lemma_clean_form_step(rooted: bool, st: Seq<Seq<char>>, c: Seq<char>)
    requires
        clean_form(rooted, st),
        no_slash(c),
    ensures
        clean_form(rooted, clean_step(rooted, st, c)),
{
    let r = clean_step(rooted, st, c);
    if c.len() == 0 || is_dot(c) {
    } else if is_dotdot(c) {
        if st.len() > 0 && !is_dotdot(st.last()) {
            assert forall|k: int, m: int| 0 <= k < m < r.len() && is_dotdot(#[trigger] r[m]) implies is_dotdot(
                #[trigger] r[k],
            ) by {
                assert(r[m] == st[m] && r[k] == st[k]);
            }
        } else if rooted {
        } else {
            assert forall|k: int, m: int| 0 <= k < m < r.len() && is_dotdot(#[trigger] r[m]) implies is_dotdot(
                #[trigger] r[k],
            ) by {
                if m == r.len() - 1 {
                    if k < st.len() - 1 {
                        assert(is_dotdot(st[st.len() - 1]));
                    }
                }
            }
        }
    } else {
        assert forall|k: int, m: int| 0 <= k < m < r.len() && is_dotdot(#[trigger] r[m]) implies is_dotdot(
            #[trigger] r[k],
        ) by {
            assert(m < st.len());
        }
    }
}

proof fn lemma_clean_elems_form(rooted: bool, cs: Seq<Seq<char>>)
    requires
        forall|k: int| 0 <= k < cs.len() ==> no_slash(#[trigger] cs[k]),
    ensures
        clean_form(rooted, clean_elems(rooted, cs)),
    decreases cs.len(),
{
    if cs.len() > 0 {
        lemma_clean_elems_form(rooted, cs.drop_last());
        lemma_clean_form_step(rooted, clean_elems(rooted, cs.drop_last()), cs.last());
    }
}

proof fn lemma_clean_elems_fixed(rooted: bool, st: Seq<Seq<char>>)
    requires
        clean_form(rooted, st),
    ensures
        clean_elems(rooted, st) == st,
    decreases st.len(),
{
    if st.len() > 0 {
        let d = st.drop_last();
        assert(clean_form(rooted, d)) by {
            assert forall|k: int, m: int| 0 <= k < m < d.len() && is_dotdot(#[trigger] d[m]) implies is_dotdot(
                #[trigger] d[k],
            ) by {
                assert(d[m] == st[m] && d[k] == st[k]);
            }
        }
        lemma_clean_elems_fixed(rooted, d);
        assert(st.last() == st[st.len() - 1]);
        if is_dotdot(st.last()) && d.len() > 0 {
            assert(is_dotdot(st[d.len() - 1]));
        }
        assert(d.push(st.last()) =~= st);
    }
}

proof fn lemma_clean_elems_skip_empty(rooted: bool, st: Seq<Seq<char>>)
    ensures
        clean_elems(rooted, seq![Seq::<char>::empty()] + st) == clean_elems(rooted, st),
    decreases st.len(),
{
    let e = seq![Seq::<char>::empty()];
    assert(clean_elems(rooted, Seq::<Seq<char>>::empty()) == Seq::<Seq<char>>::empty());
    if st.len() == 0 {
        assert(e + st =~= e);
        assert(e.drop_last() =~= Seq::<Seq<char>>::empty());
        assert(e.last() == Seq::<char>::empty());
        assert(clean_elems(rooted, e) == clean_step(
            rooted,
            clean_elems(rooted, e.drop_last()),
            e.last(),
        ));
    } else {
        lemma_clean_elems_skip_empty(rooted, st.drop_last());
        assert((e + st).drop_last() =~= e + st.drop_last());
        assert((e + st).last() == st.last());
    }
}

proof fn lemma_join_rooted(st: Seq<Seq<char>>)
    requires
        st.len() >= 1,
    ensures
        seq!['/'] + join_slash(st) == join_slash(seq![Seq::<char>::empty()] + st),
    decreases st.len(),
{
    let e = seq![Seq::<char>::empty()];
    assert((e + st).drop_last() =~= e + st.drop_last());
    assert((e + st).last() == st.last());
    if st.len() == 1 {
        assert(e + st.drop_last() =~= e);
        assert(join_slash(e) == Seq::<char>::empty());
        assert(st.last() == st[0]);
        assert(seq!['/'] + st[0] =~= Seq::<char>::empty() + seq!['/'] + st[0]);
    } else {
        lemma_join_rooted(st.drop_last());
        assert(seq!['/'] + join_slash(st) =~= (seq!['/'] + join_slash(st.drop_last())) + seq!['/']
            + st.last());
    }
}

proof fn lemma_join_first(cs: Seq<Seq<char>>)
    requires
        cs.len() >= 1,
        cs[0].len() > 0,
    ensures
        join_slash(cs).len() > 0,
        join_slash(cs)[0] == cs[0][0],
    decreases cs.len(),
{
    if cs.len() > 1 {
        lemma_join_first(cs.drop_last());
    }
}

/// Cleaning a clean path changes nothing: `clean` is idempotent (so a path
/// that `join` built from a nonempty part, such as a sandbox root, is
/// already clean).
pub proof fn law_clean_idempotent(p: Seq<char>)
    ensures
        clean(clean(p)) == clean(p),
{
    let rooted = is_abs(p);
    let cs = split_path(p);
    lemma_split_no_slash(p);
    let st = clean_elems(rooted, cs);
    lemma_clean_elems_form(rooted, cs);
    let body = join_slash(st);
    let c = clean(p);
    if rooted {
        assert(is_abs(c));
        if st.len() == 0 {
            assert(c =~= seq!['/']);
            assert(seq!['/'] =~= Seq::<char>::empty().push('/'));
            assert(Seq::<char>::empty().push('/').drop_last() =~= Seq::<char>::empty());
            let e = seq![Seq::<char>::empty()];
            assert(split_path(Seq::<char>::empty()) == e);
            assert(c.drop_last() =~= Seq::<char>::empty());
            assert(c.last() == '/');
            let two = split_path(c);
            assert(two == e.push(Seq::<char>::empty()));
            assert(two.drop_last() =~= e);
            assert(e.drop_last() =~= Seq::<Seq<char>>::empty());
            assert(clean_elems(true, Seq::<Seq<char>>::empty()) == Seq::<Seq<char>>::empty());
            assert(clean_elems(true, e) == Seq::<Seq<char>>::empty());
            assert(clean_elems(true, two) == Seq::<Seq<char>>::empty());
            assert(join_slash(Seq::<Seq<char>>::empty()) == Seq::<char>::empty());
            assert(seq!['/'] + Seq::<char>::empty() =~= c);
        } else {
            lemma_join_rooted(st);
            let e = seq![Seq::<char>::empty()];
            assert forall|k: int| 0 <= k < (e + st).len() implies no_slash(#[trigger] (e + st)[k]) by {
                if k > 0 {
                    assert((e + st)[k] == st[k - 1]);
                }
            }
            lemma_split_join(e + st);
            lemma_clean_elems_skip_empty(true, st);
            lemma_clean_elems_fixed(true, st);
        }
    } else if body.len() == 0 {
        assert(c =~= seq!['.']);
        assert(!is_abs(c));
        assert(seq!['.'].drop_last() =~= Seq::<char>::empty());
        let e = seq![Seq::<char>::empty()];
        assert(split_path(Seq::<char>::empty()) == e);
        assert(c.last() == '.');
        let one = split_path(c);
        assert(one == e.update(0, Seq::<char>::empty().push('.')));
        assert(Seq::<char>::empty().push('.') =~= seq!['.']);
        assert(one =~= seq![seq!['.']]);
        assert(one.drop_last() =~= Seq::<Seq<char>>::empty());
        assert(clean_elems(false, Seq::<Seq<char>>::empty()) == Seq::<Seq<char>>::empty());
        assert(is_dot(one.last()));
        assert(clean_elems(false, one) == Seq::<Seq<char>>::empty());
        assert(join_slash(Seq::<Seq<char>>::empty()) == Seq::<char>::empty());
    } else {
        assert(st.len() > 0);
        lemma_join_first(st);
        assert(!is_abs(c));
        assert forall|k: int| 0 <= k < st.len() implies no_slash(#[trigger] st[k]) by {
        }
        lemma_split_join(st);
        lemma_clean_elems_fixed(false, st);
    }
}

/// Clearing vsyscall pages that hold one reference each, as
/// `VsyscallPages` leaves them, gives every one of them back to the pool: the
/// pool gains as many available pages as there were vsyscall pages, enough
/// for the next `VsyscallPages` to create them again.
pub proof fn law_clear_returns_fresh_pages(pool: PageBlockAlloc, pages: Seq<u64>)
    requires
        forall|k: int| 0 <= k < pages.len() ==> pool.refcount(#[trigger] pages[k]) == 1,
    ensures
        last_refs(pool, pages) == pages.len(),
    decreases pages.len(),
{
    if pages.len() > 0 {
        let d = pages.drop_last();
        assert forall|k: int| 0 <= k < d.len() implies pool.refcount(#[trigger] d[k]) == 1 by {
            assert(d[k] == pages[k]);
        }
        law_clear_returns_fresh_pages(pool, d);
        assert(pool.refcount(pages[pages.len() - 1]) == 1);
    }
}

/// The entry flags chosen for a mapping follow the access it must allow:
/// writable exactly when written, user accessible exactly for user
/// mappings, present unless a user mapping allows no access at all, and no
/// other bit. So a user mapping that is read or executed but not written is
/// exactly present and user accessible.
pub proof fn law_access_flags(user: bool, at: AccessType)
    ensures
        (opts_for_access(user, at) & WRITABLE != 0) <==> at.write,
        (opts_for_access(user, at) & USER_ACCESSIBLE != 0) <==> user,
        (opts_for_access(user, at) & PRESENT != 0) <==> (!user || at.read || at.write || at.execute),
        opts_for_access(user, at) & !7u64 == 0,
        user && !at.write && (at.read || at.execute) ==> opts_for_access(user, at) == 5,
{
    assert((7u64 & 2u64) != 0 && (7u64 & 4u64) != 0 && (7u64 & 1u64) != 0 && 7u64 & !7u64 == 0
        && (5u64 & 2u64) == 0 && (5u64 & 4u64) != 0 && (5u64 & 1u64) != 0 && 5u64 & !7u64 == 0
        && (4u64 & 2u64) == 0 && (4u64 & 4u64) != 0 && (4u64 & 1u64) == 0 && 4u64 & !7u64 == 0
        && (3u64 & 2u64) != 0 && (3u64 & 4u64) == 0 && (3u64 & 1u64) != 0 && 3u64 & !7u64 == 0
        && (1u64 & 2u64) == 0 && (1u64 & 4u64) == 0 && (1u64 & 1u64) != 0 && 1u64 & !7u64 == 0
        && 1u64 | 2u64 | 4u64 == 7u64 && 1u64 | 4u64 == 5u64 && 1u64 | 2u64 == 3u64) by (bit_vector);
}

/// Tearing an address space down covers everything it maps alone but the
/// first page: from the second page up to the kernel's physical window at
/// 256 GB, and from the end of that window at 512 GB up to the top of the
/// lower half.
pub proof fn law_unmap_all_range(va: u64)
    ensures
        PageTables::unmap_all_range(va) <==> (0x1000 <= va < 0x40_0000_0000 || 0x80_0000_0000 <= va
            < 0x8000_0000_0000),
{
}

/// A mount at `/dev` never is read only, and otherwise has the flags of its
/// options; a mount elsewhere has exactly the flags of its options.
pub proof fn law_dev_not_read_only(m: Mount)
    ensures
        m.destination@ == "/dev"@ ==> mount_flags_for(m) & MS_RDONLY == 0,
        m.destination@ == "/dev"@ ==> mount_flags_for(m) | MS_RDONLY == option_flags(options_of(m)) | MS_RDONLY,
        m.destination@ != "/dev"@ ==> mount_flags_for(m) == option_flags(options_of(m)),
{
    let f = option_flags(options_of(m));
    assert(f & !1u64 & 1u64 == 0 && (f & !1u64) | 1u64 == f | 1u64) by (bit_vector);
}

/// The flag options act on the flags of the options before them: `ro`,
/// `nosuid`, `nodev` and `noexec` set their flag, `rw`, `suid`, `dev` and
/// `exec` clear it.
pub proof fn law_option_flags(s: Seq<Seq<char>>)
    ensures
        option_flags(s.push("ro"@)) == option_flags(s) | MS_RDONLY,
        option_flags(s.push("rw"@)) == option_flags(s) & !MS_RDONLY,
        option_flags(s.push("nosuid"@)) == option_flags(s) | MS_NOSUID,
        option_flags(s.push("suid"@)) == option_flags(s) & !MS_NOSUID,
        option_flags(s.push("nodev"@)) == option_flags(s) | MS_NODEV,
        option_flags(s.push("dev"@)) == option_flags(s) & !MS_NODEV,
        option_flags(s.push("noexec"@)) == option_flags(s) | MS_NOEXEC,
        option_flags(s.push("exec"@)) == option_flags(s) & !MS_NOEXEC,
{
    reveal_strlit("defaults");
    reveal_strlit("ro");
    reveal_strlit("rw");
    reveal_strlit("suid");
    reveal_strlit("nosuid");
    reveal_strlit("dev");
    reveal_strlit("nodev");
    reveal_strlit("exec");
    reveal_strlit("noexec");
    assert(s.push("ro"@).drop_last() =~= s);
    assert(s.push("ro"@).last() == "ro"@);
    assert(mount_option("ro"@) == Some((false, MS_RDONLY)));
    assert(s.push("rw"@).drop_last() =~= s);
    assert(s.push("rw"@).last() == "rw"@);
    assert("rw"@[1] != "ro"@[1]);
    assert(mount_option("rw"@) == Some((true, MS_RDONLY)));
    assert(s.push("nosuid"@).drop_last() =~= s);
    assert(s.push("nosuid"@).last() == "nosuid"@);
    assert(mount_option("nosuid"@) == Some((false, MS_NOSUID)));
    assert(s.push("suid"@).drop_last() =~= s);
    assert(s.push("suid"@).last() == "suid"@);
    assert(mount_option("suid"@) == Some((true, MS_NOSUID)));
    assert(s.push("nodev"@).drop_last() =~= s);
    assert(s.push("nodev"@).last() == "nodev"@);
    assert(mount_option("nodev"@) == Some((false, MS_NODEV)));
    assert(s.push("dev"@).drop_last() =~= s);
    assert(s.push("dev"@).last() == "dev"@);
    assert(mount_option("dev"@) == Some((true, MS_NODEV)));
    assert(s.push("noexec"@).drop_last() =~= s);
    assert(s.push("noexec"@).last() == "noexec"@);
    assert("noexec"@[2] != "nosuid"@[2]);
    assert(mount_option("noexec"@) == Some((false, MS_NOEXEC)));
    assert(s.push("exec"@).drop_last() =~= s);
    assert(s.push("exec"@).last() == "exec"@);
    assert("exec"@[0] != "suid"@[0]);
    assert(mount_option("exec"@) == Some((true, MS_NOEXEC)));
}

/// The security label goes into the data of every mount but `proc` and
/// `sysfs` ones: those, and every mount when there is no label, get their
/// data unchanged; the others get more than their data.
pub proof fn law_label_data(op: MountOp, m: Mount, rootfs: Seq<char>, flags: u64, data: Seq<char>, label: Seq<char>)
    requires
        mount_op_for(op, m, rootfs, flags, data, label),
    ensures
        m.typ@ == "sysfs"@ || m.typ@ == "proc"@ || label.len() == 0 ==> op.data@ == data,
        m.typ@ != "sysfs"@ && m.typ@ != "proc"@ && label.len() > 0 ==> op.data@.len() > data.len()
            && op.data@.subrange(0, data.len() as int) == data,
{
    reveal_strlit("context=\"");
    reveal_strlit(",context=\"");
    reveal_strlit("\"");
    if m.typ@ != "sysfs"@ && m.typ@ != "proc"@ && label.len() > 0 {
        if data.len() == 0 {
            assert(op.data@.subrange(0, 0) =~= data);
        } else {
            assert((data + ",context=\""@ + label + "\""@).subrange(0, data.len() as int) =~= data);
        }
    }
}

} // verus!
