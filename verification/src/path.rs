use vstd::prelude::*;

verus! {

/// Whether `p` is absolute: it starts with a slash.
pub open spec fn is_abs(p: Seq<char>) -> bool {
    p.len() > 0 && p[0] == '/'
}

/// The pieces of `p` between slashes, empty ones included.
pub open spec fn split_path(p: Seq<char>) -> Seq<Seq<char>>
    decreases p.len(),
{
    if p.len() == 0 {
        seq![Seq::<char>::empty()]
    } else {
        let s = split_path(p.drop_last());
        if p.last() == '/' {
            s.push(Seq::<char>::empty())
        } else {
            s.update(s.len() - 1, s.last().push(p.last()))
        }
    }
}

/// The element `.`.
pub open spec fn is_dot(c: Seq<char>) -> bool {
    c == seq!['.']
}

/// The element `..`.
pub open spec fn is_dotdot(c: Seq<char>) -> bool {
    c == seq!['.', '.']
}

/// Adds element `c` to the cleaned elements `st`: empty elements and `.`
/// vanish, `..` removes the element before it (or vanishes at the root of
/// an absolute path, or stays at the front of a relative one).
pub open spec fn clean_step(rooted: bool, st: Seq<Seq<char>>, c: Seq<char>) -> Seq<Seq<char>> {
    if c.len() == 0 || is_dot(c) {
        st
    } else if is_dotdot(c) {
        if st.len() > 0 && !is_dotdot(st.last()) {
            st.drop_last()
        } else if rooted {
            st
        } else {
            st.push(c)
        }
    } else {
        st.push(c)
    }
}

/// The cleaned elements of the pieces `cs`.
pub open spec fn clean_elems(rooted: bool, cs: Seq<Seq<char>>) -> Seq<Seq<char>>
    decreases cs.len(),
{
    if cs.len() == 0 {
        seq![]
    } else {
        clean_step(rooted, clean_elems(rooted, cs.drop_last()), cs.last())
    }
}

/// The elements `cs` separated by slashes.
pub open spec fn join_slash(cs: Seq<Seq<char>>) -> Seq<char>
    decreases cs.len(),
{
    if cs.len() == 0 {
        seq![]
    } else if cs.len() == 1 {
        cs[0]
    } else {
        join_slash(cs.drop_last()) + seq!['/'] + cs.last()
    }
}

/// The shortest path equivalent to `p` by lexical processing alone: one
/// slash between elements, no `.` elements, no `..` after a name or at the
/// root, no trailing slash; `.` for an empty result of a relative path.
pub open spec fn clean(p: Seq<char>) -> Seq<char> {
    let rooted = is_abs(p);
    let body = join_slash(clean_elems(rooted, split_path(p)));
    if rooted {
        seq!['/'] + body
    } else if body.len() == 0 {
        seq!['.']
    } else {
        body
    }
}

/// `dir` and `file` joined by a slash and cleaned; an empty part is left
/// out, and two empty parts give the empty path.
pub open spec fn join(dir: Seq<char>, file: Seq<char>) -> Seq<char> {
    if dir.len() == 0 && file.len() == 0 {
        seq![]
    } else if dir.len() == 0 {
        clean(file)
    } else if file.len() == 0 {
        clean(dir)
    } else {
        clean(dir + seq!['/'] + file)
    }
}

/// Whether the path `p` is absolute.
pub fn IsAbs(p: &str) -> (r: bool)
    ensures
        r == is_abs(p@),
{
    p.unicode_len() > 0 && p.get_char(0) == '/'
}

/// The characters `[a, b)` of `p`.
pub open spec fn piece(p: Seq<char>, r: (usize, usize)) -> Seq<char> {
    p.subrange(r.0 as int, r.1 as int)
}

/// The pieces of `p` that the ranges `rs` name.
pub open spec fn pieces(p: Seq<char>, rs: Seq<(usize, usize)>) -> Seq<Seq<char>> {
    rs.map_values(|r: (usize, usize)| piece(p, r))
}

/// Every range of `rs` is nonempty and ends by `n`.
pub open spec fn ranges_ok(rs: Seq<(usize, usize)>, n: usize) -> bool {
    forall|k: int| 0 <= k < rs.len() ==> #[trigger] rs[k].0 < rs[k].1 <= n
}

/// Whether the characters `[a, b)` of `p` form `..`.
fn is_dotdot_at(p: &str, n: usize, a: usize, b: usize) -> (r: bool)
    requires
        a <= b <= n,
        n == p@.len(),
    ensures
        r == is_dotdot(p@.subrange(a as int, b as int)),
{
    let ghost c = p@.subrange(a as int, b as int);
    if b - a != 2 {
        proof {
            if is_dotdot(c) {
                assert(c.len() == 2);
            }
        }
        return false;
    }
    let c0 = p.get_char(a);
    let c1 = p.get_char(a + 1);
    proof {
        assert(c[0] == c0);
        assert(c[1] == c1);
    }
    if c0 == '.' && c1 == '.' {
        assert(c =~= seq!['.', '.']);
        true
    } else {
        proof {
            if is_dotdot(c) {
                assert(c[0] == '.' && c[1] == '.');
            }
        }
        false
    }
}

/// Adds the element `[a, b)` of `p` to the cleaned elements `st`.
fn clean_push(p: &str, n: usize, rooted: bool, st: &mut Vec<(usize, usize)>, a: usize, b: usize)
    requires
        a <= b <= n,
        n == p@.len(),
        ranges_ok(old(st)@, n),
    ensures
        pieces(p@, final(st)@) == clean_step(rooted, pieces(p@, old(st)@), p@.subrange(a as int, b as int)),
        ranges_ok(final(st)@, n),
{
    let ghost c = p@.subrange(a as int, b as int);
    let ghost before = pieces(p@, st@);
    if b == a {
        return;
    }
    if b - a == 1 && p.get_char(a) == '.' {
        assert(c =~= seq!['.']);
        return;
    }
    proof {
        if is_dot(c) {
            assert(c[0] == '.');
        }
    }
    if is_dotdot_at(p, n, a, b) {
        let len = st.len();
        if len > 0 {
            let top = st[len - 1];
            if !is_dotdot_at(p, n, top.0, top.1) {
                st.pop();
                proof {
                    assert(pieces(p@, st@) =~= before.drop_last());
                }
                return;
            }
        }
        if rooted {
            return;
        }
    }
    proof {
        assert(c.len() > 0);
        assert(c[0] == p@[a as int]);
        assert(!is_dot(c));
        if is_dotdot(c) {
            assert(!rooted);
            if before.len() > 0 {
                assert(before.last() == piece(p@, st@[st@.len() - 1]));
                assert(is_dotdot(before.last()));
            }
        }
        assert(clean_step(rooted, before, c) == before.push(c));
    }
    st.push((a, b));
    proof {
        assert(pieces(p@, st@) =~= before.push(c));
    }
}

/// `p` with the path cleaned (see `clean`).
pub fn Clean(p: &str) -> (r: String)
    ensures
        r@ == clean(p@),
{
    let n = p.unicode_len();
    let rooted = n > 0 && p.get_char(0) == '/';
    let mut st: Vec<(usize, usize)> = Vec::new();
    let mut cs: usize = 0;
    let mut i: usize = 0;
    proof {
        assert(p@.subrange(0, 0) =~= Seq::<char>::empty());
        assert(split_path(p@.subrange(0, 0)) =~= seq![Seq::<char>::empty()]);
        assert(p@.subrange(0, 0) =~= p@.subrange(0, 0));
    }
    while i < n
        invariant
            n == p@.len(),
            rooted == is_abs(p@),
            cs <= i <= n,
            split_path(p@.subrange(0, i as int)).len() >= 1,
            split_path(p@.subrange(0, i as int)).last() == p@.subrange(cs as int, i as int),
            pieces(p@, st@) == clean_elems(rooted, split_path(p@.subrange(0, i as int)).drop_last()),
            ranges_ok(st@, n),
        decreases n - i,
    {
        let ghost s = split_path(p@.subrange(0, i as int));
        let c = p.get_char(i);
        proof {
            assert(p@.subrange(0, i + 1).drop_last() =~= p@.subrange(0, i as int));
            assert(p@.subrange(0, i + 1).last() == c);
        }
        if c == '/' {
            clean_push(p, n, rooted, &mut st, cs, i);
            proof {
                let s2 = split_path(p@.subrange(0, i + 1));
                assert(s2 == s.push(Seq::<char>::empty()));
                assert(s2.drop_last() =~= s);
                assert(s.drop_last().push(s.last()) =~= s);
                assert(p@.subrange(i + 1, i + 1) =~= Seq::<char>::empty());
            }
            cs = i + 1;
        } else {
            proof {
                let s2 = split_path(p@.subrange(0, i + 1));
                assert(s2 == s.update(s.len() - 1, s.last().push(c)));
                assert(s2.drop_last() =~= s.drop_last());
                assert(p@.subrange(cs as int, i + 1) =~= p@.subrange(cs as int, i as int).push(c));
            }
        }
        i = i + 1;
    }
    proof {
        let s = split_path(p@.subrange(0, n as int));
        assert(p@.subrange(0, n as int) =~= p@);
        assert(s.drop_last().push(s.last()) =~= s);
    }
    clean_push(p, n, rooted, &mut st, cs, n);
    let ghost elems = pieces(p@, st@);
    let ghost sts = st@;
    proof {
        assert forall|j: int| 0 <= j < elems.len() implies #[trigger] elems[j].len() > 0 by {
            assert(st@[j].0 < st@[j].1);
        }
    }
    let mut out = if rooted {
        String::from_str("/")
    } else {
        String::new()
    };
    proof {
        reveal_strlit("/");
    }
    let m = st.len();
    let mut k: usize = 0;
    while k < m
        invariant
            m == st@.len(),
            k <= m,
            n == p@.len(),
            st@ == sts,
            "/"@ == seq!['/'],
            elems == pieces(p@, sts),
            ranges_ok(sts, n),
            out@ == (if rooted {
                seq!['/']
            } else {
                Seq::<char>::empty()
            }) + join_slash(elems.subrange(0, k as int)),
        decreases m - k,
    {
        let r = st[k];
        if k > 0 {
            out.append("/");
        }
        let ghost pre_out = out@;
        out.append(p.substring_char(r.0, r.1));
        proof {
            let prefix = if rooted {
                seq!['/']
            } else {
                Seq::<char>::empty()
            };
            assert(elems[k as int] == piece(p@, sts[k as int]));
            if k > 0 {
                assert(join_slash(elems.subrange(0, k + 1)) == join_slash(elems.subrange(0, k + 1).drop_last()) + seq!['/']
                    + elems.subrange(0, k + 1).last());
                assert(elems.subrange(0, k + 1).drop_last() =~= elems.subrange(0, k as int));
                assert(out@ =~= prefix + join_slash(elems.subrange(0, k + 1)));
            } else {
                assert(join_slash(elems.subrange(0, 0)) =~= Seq::<char>::empty());
                assert(join_slash(elems.subrange(0, 1)) == elems[0]);
                assert(out@ =~= prefix + join_slash(elems.subrange(0, k + 1)));
            }
            let sub = elems.subrange(0, k + 1);
            assert(sub.drop_last() =~= elems.subrange(0, k as int));
            assert(sub.last() == piece(p@, r));
            if k == 0 {
                assert(join_slash(elems.subrange(0, 0)) =~= Seq::<char>::empty());
                assert(sub.len() == 1);
            }
        }
        k = k + 1;
    }
    proof {
        assert(elems.subrange(0, m as int) =~= elems);
    }
    if !rooted && m == 0 {
        proof {
            reveal_strlit(".");
        }
        return String::from_str(".");
    }
    proof {
        if !rooted {
            assert(elems.len() > 0);
            lemma_join_slash_nonempty(elems);
        }
    }
    out
}

/// Pieces that are never empty join to a nonempty path.
proof fn lemma_join_slash_nonempty(cs: Seq<Seq<char>>)
    requires
        cs.len() > 0,
        cs.last().len() > 0,
    ensures
        join_slash(cs).len() > 0,
{
}

/// `dir` and `file` joined and cleaned (see `join`).
pub fn Join(dir: &str, file: &str) -> (r: String)
    ensures
        r@ == join(dir@, file@),
{
    let dn = dir.unicode_len();
    let fn_ = file.unicode_len();
    if dn == 0 && fn_ == 0 {
        return String::new();
    }
    if dn == 0 {
        return Clean(file);
    }
    if fn_ == 0 {
        return Clean(dir);
    }
    proof {
        reveal_strlit("/");
    }
    let mut s = String::from_str(dir);
    s.append("/");
    s.append(file);
    let r = Clean(s.as_str());
    proof {
        assert(s@ =~= dir@ + seq!['/'] + file@);
    }
    r
}

} // verus!
