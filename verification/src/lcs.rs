//! Longest common subsequences, as the editor of advanced options uses them to decide which
//! old lines stay where they are.
use vstd::prelude::*;

verus! {

pub open spec fn max_nat(x: nat, y: nat) -> nat {
    if x >= y {
        x
    } else {
        y
    }
}

/// Length of a longest common subsequence of `a` and `b`.
pub open spec fn lcs<A>(a: Seq<A>, b: Seq<A>) -> nat
    decreases a.len() + b.len(),
{
    if a.len() == 0 || b.len() == 0 {
        0
    } else if a.last() == b.last() {
        lcs(a.drop_last(), b.drop_last()) + 1
    } else {
        max_nat(lcs(a.drop_last(), b), lcs(a, b.drop_last()))
    }
}

/// `pairs` (shifted by `off`) matches equal elements of `a` and `b`, strictly increasing in
/// both coordinates: a common subsequence.
pub open spec fn is_matching<A>(pairs: Seq<(usize, usize)>, a: Seq<A>, b: Seq<A>, off: (usize, usize)) -> bool {
    &&& forall|k: int|
        0 <= k < pairs.len() ==> {
            &&& off.0 <= (#[trigger] pairs[k]).0 < off.0 + a.len()
            &&& off.1 <= pairs[k].1 < off.1 + b.len()
            &&& a[pairs[k].0 - off.0] == b[pairs[k].1 - off.1]
        }
    &&& forall|k1: int, k2: int|
        0 <= k1 < k2 < pairs.len() ==> (#[trigger] pairs[k1]).0 < (#[trigger] pairs[k2]).0
            && pairs[k1].1 < pairs[k2].1
}

pub proof fn lemma_lcs_bounds<A>(a: Seq<A>, b: Seq<A>)
    ensures
        lcs(a, b) <= a.len(),
        lcs(a, b) <= b.len(),
    decreases a.len() + b.len(),
{
    if a.len() > 0 && b.len() > 0 {
        lemma_lcs_bounds(a.drop_last(), b.drop_last());
        lemma_lcs_bounds(a.drop_last(), b);
        lemma_lcs_bounds(a, b.drop_last());
    }
}

/// Two matchings in boxes that follow one another make a matching of the whole.
pub proof fn lemma_matching_concat<A>(
    p1: Seq<(usize, usize)>,
    p2: Seq<(usize, usize)>,
    a: Seq<A>,
    b: Seq<A>,
    off: (usize, usize),
    m: int,
    s: int,
)
    requires
        0 <= m <= a.len(),
        0 <= s <= b.len(),
        off.0 + a.len() <= usize::MAX,
        off.1 + b.len() <= usize::MAX,
        is_matching(p1, a.take(m), b.take(s), off),
        is_matching(p2, a.skip(m), b.skip(s), ((off.0 + m) as usize, (off.1 + s) as usize)),
    ensures
        is_matching(p1 + p2, a, b, off),
{
    let p = p1 + p2;
    assert forall|k: int| 0 <= k < p.len() implies {
        &&& off.0 <= (#[trigger] p[k]).0 < off.0 + a.len()
        &&& off.1 <= p[k].1 < off.1 + b.len()
        &&& a[p[k].0 - off.0] == b[p[k].1 - off.1]
    } by {
        if k < p1.len() {
            assert(p[k] == p1[k]);
            assert(a.take(m)[p[k].0 - off.0] == a[p[k].0 - off.0]);
            assert(b.take(s)[p[k].1 - off.1] == b[p[k].1 - off.1]);
        } else {
            assert(p[k] == p2[k - p1.len()]);
            assert(a.skip(m)[p[k].0 - off.0 - m] == a[p[k].0 - off.0]);
            assert(b.skip(s)[p[k].1 - off.1 - s] == b[p[k].1 - off.1]);
        }
    }
    assert forall|k1: int, k2: int| 0 <= k1 < k2 < p.len() implies (#[trigger] p[k1]).0 < (
    #[trigger] p[k2]).0 && p[k1].1 < p[k2].1 by {
        if k2 < p1.len() {
            assert(p[k1] == p1[k1] && p[k2] == p1[k2]);
        } else if k1 >= p1.len() {
            assert(p[k1] == p2[k1 - p1.len()] && p[k2] == p2[k2 - p1.len()]);
        } else {
            assert(p[k1] == p1[k1] && p[k2] == p2[k2 - p1.len()]);
        }
    }
}

/// Dropping the last element of either side loses at most one common element, and never gains.
pub proof fn lemma_lcs_step<A>(a: Seq<A>, b: Seq<A>)
    ensures
        a.len() > 0 ==> lcs(a.drop_last(), b) <= lcs(a, b) <= lcs(a.drop_last(), b) + 1,
        b.len() > 0 ==> lcs(a, b.drop_last()) <= lcs(a, b) <= lcs(a, b.drop_last()) + 1,
    decreases a.len() + b.len(),
{
    if a.len() > 0 && b.len() > 0 {
        let a1 = a.drop_last();
        let b1 = b.drop_last();
        lemma_lcs_step(a1, b);
        lemma_lcs_step(a, b1);
        lemma_lcs_step(a1, b1);
    } else if a.len() > 0 {
        assert(lcs(a.drop_last(), b) == 0);
    } else if b.len() > 0 {
        assert(lcs(a, b.drop_last()) == 0);
    }
}

/// A one-element sequence has one element in common with `b` exactly when `b` holds it.
pub proof fn lemma_lcs_single<A>(x: A, b: Seq<A>)
    ensures
        lcs(seq![x], b) == (if b.contains(x) { 1nat } else { 0nat }),
        lcs(b, seq![x]) == (if b.contains(x) { 1nat } else { 0nat }),
    decreases b.len(),
{
    if b.len() > 0 {
        let b1 = b.drop_last();
        lemma_lcs_single(x, b1);
        let sx = seq![x];
        assert(sx.drop_last() =~= Seq::<A>::empty());
        assert(sx.last() == x);
        assert(sx.len() == 1);
        assert(lcs(sx.drop_last(), b1) == 0);
        assert(lcs(sx.drop_last(), b) == 0);
        assert(lcs(b1, sx.drop_last()) == 0);
        assert(lcs(b, sx.drop_last()) == 0);
        if b.last() == x {
            assert(lcs(sx, b) == lcs(sx.drop_last(), b1) + 1);
            assert(lcs(b, sx) == lcs(b1, sx.drop_last()) + 1);
        } else {
            assert(lcs(sx, b) == max_nat(lcs(sx.drop_last(), b), lcs(sx, b1)));
            assert(lcs(b, sx) == max_nat(lcs(b1, sx), lcs(b, sx.drop_last())));
        }
        assert(b.contains(x) <==> (b1.contains(x) || b.last() == x)) by {
            if b.contains(x) {
                let i = choose|i: int| 0 <= i < b.len() && b[i] == x;
                if i < b.len() - 1 {
                    assert(b1[i] == x);
                }
            }
            if b1.contains(x) {
                let i = choose|i: int| 0 <= i < b1.len() && b1[i] == x;
                assert(b[i] == x);
            }
            if b.last() == x {
                assert(b[b.len() - 1] == x);
            }
        }
    }
}

/// A common last part adds its length.
pub proof fn lemma_lcs_common_suffix<A>(x: Seq<A>, y: Seq<A>, s: Seq<A>)
    ensures
        lcs(x + s, y + s) == lcs(x, y) + s.len(),
    decreases s.len(),
{
    if s.len() == 0 {
        assert(x + s =~= x);
        assert(y + s =~= y);
    } else {
        let s1 = s.drop_last();
        lemma_lcs_common_suffix(x, y, s1);
        assert((x + s).drop_last() =~= x + s1);
        assert((y + s).drop_last() =~= y + s1);
        assert((x + s).last() == s.last());
        assert((y + s).last() == s.last());
    }
}

/// A common first element adds one.
pub proof fn lemma_lcs_cons<A>(c: A, a: Seq<A>, b: Seq<A>)
    ensures
        lcs(seq![c] + a, seq![c] + b) == lcs(a, b) + 1,
    decreases a.len() + b.len(),
{
    let ca = seq![c] + a;
    let cb = seq![c] + b;
    if a.len() == 0 {
        assert(ca =~= seq![c]);
        lemma_lcs_single(c, cb);
        assert(cb[0] == c);
    } else if b.len() == 0 {
        assert(cb =~= seq![c]);
        lemma_lcs_single(c, ca);
        assert(ca[0] == c);
    } else {
        let a1 = a.drop_last();
        let b1 = b.drop_last();
        assert(ca.drop_last() =~= seq![c] + a1);
        assert(cb.drop_last() =~= seq![c] + b1);
        assert(ca.last() == a.last());
        assert(cb.last() == b.last());
        lemma_lcs_cons(c, a1, b1);
        lemma_lcs_cons(c, a1, b);
        lemma_lcs_cons(c, a, b1);
    }
}

/// A common first part adds its length.
pub proof fn lemma_lcs_common_prefix<A>(s: Seq<A>, x: Seq<A>, y: Seq<A>)
    ensures
        lcs(s + x, s + y) == lcs(x, y) + s.len(),
    decreases s.len(),
{
    if s.len() > 0 {
        let s1 = s.drop_first();
        lemma_lcs_common_prefix(s1, x, y);
        assert(s + x =~= seq![s[0]] + (s1 + x));
        assert(s + y =~= seq![s[0]] + (s1 + y));
        lemma_lcs_cons(s[0], s1 + x, s1 + y);
    } else {
        assert(s + x =~= x);
        assert(s + y =~= y);
    }
}

/// A common subsequence is no longer than the longest one.
pub proof fn lemma_matching_upper<A>(p: Seq<(usize, usize)>, a: Seq<A>, b: Seq<A>)
    requires
        is_matching(p, a, b, (0usize, 0usize)),
    ensures
        p.len() <= lcs(a, b),
    decreases a.len() + b.len(),
{
    if p.len() > 0 {
        let n = p.len() - 1;
        let i = p[n].0 as int;
        let j = p[n].1 as int;
        lemma_lcs_step(a, b);
        assert forall|k: int| 0 <= k < n implies (#[trigger] p[k]).0 < i && p[k].1 < j by {
            assert(p[k].0 < p[n].0 && p[k].1 < p[n].1);
        }
        if i < a.len() - 1 {
            let a1 = a.drop_last();
            assert forall|k: int| 0 <= k < p.len() implies (#[trigger] p[k]).0 < a1.len() && a1[p[k].0 as int] == a[p[k].0 as int] by {
                if k < n {
                    assert(p[k].0 < i);
                }
            }
            assert(is_matching(p, a1, b, (0usize, 0usize)));
            lemma_matching_upper(p, a1, b);
        } else if j < b.len() - 1 {
            let b1 = b.drop_last();
            assert forall|k: int| 0 <= k < p.len() implies (#[trigger] p[k]).1 < b1.len() && b1[p[k].1 as int] == b[p[k].1 as int] by {
                if k < n {
                    assert(p[k].1 < j);
                }
            }
            assert(is_matching(p, a, b1, (0usize, 0usize)));
            lemma_matching_upper(p, a, b1);
        } else {
            let q = p.drop_last();
            let a1 = a.drop_last();
            let b1 = b.drop_last();
            assert(a.last() == b.last()) by {
                assert(a[p[n].0 - 0] == b[p[n].1 - 0]);
            }
            assert forall|k: int| 0 <= k < q.len() implies (#[trigger] q[k]).0 < a1.len() && q[k].1 < b1.len()
                && a1[q[k].0 as int] == a[q[k].0 as int] && b1[q[k].1 as int] == b[q[k].1 as int] by {
                assert(q[k] == p[k]);
                assert(p[k].0 < i && p[k].1 < j);
            }
            assert(is_matching(q, a1, b1, (0usize, 0usize))) by {
                assert forall|k1: int, k2: int| 0 <= k1 < k2 < q.len() implies (#[trigger] q[k1]).0 < (#[trigger] q[k2]).0
                    && q[k1].1 < q[k2].1 by {
                    assert(q[k1] == p[k1] && q[k2] == p[k2]);
                }
                assert forall|k: int| 0 <= k < q.len() implies a1[(#[trigger] q[k]).0 - 0] == b1[q[k].1 - 0] by {
                    assert(q[k] == p[k]);
                    assert(a[p[k].0 - 0] == b[p[k].1 - 0]);
                }
            }
            lemma_matching_upper(q, a1, b1);
        }
    }
}

/// Some common subsequence is a longest one.
pub proof fn lemma_lcs_witness<A>(a: Seq<A>, b: Seq<A>) -> (p: Seq<(usize, usize)>)
    requires
        a.len() <= usize::MAX,
        b.len() <= usize::MAX,
    ensures
        is_matching(p, a, b, (0usize, 0usize)),
        p.len() == lcs(a, b),
    decreases a.len() + b.len(),
{
    if a.len() == 0 || b.len() == 0 {
        Seq::<(usize, usize)>::empty()
    } else {
        let a1 = a.drop_last();
        let b1 = b.drop_last();
        if a.last() == b.last() {
            let q = lemma_lcs_witness(a1, b1);
            let r = q.push(((a.len() - 1) as usize, (b.len() - 1) as usize));
            assert forall|k: int| 0 <= k < r.len() implies {
                &&& 0 <= (#[trigger] r[k]).0 < 0 + a.len()
                &&& 0 <= r[k].1 < 0 + b.len()
                &&& a[r[k].0 - 0] == b[r[k].1 - 0]
            } by {
                if k < q.len() {
                    assert(r[k] == q[k]);
                    assert(a1[q[k].0 - 0] == b1[q[k].1 - 0]);
                }
            }
            assert forall|k1: int, k2: int| 0 <= k1 < k2 < r.len() implies (#[trigger] r[k1]).0 < (#[trigger] r[k2]).0
                && r[k1].1 < r[k2].1 by {
                assert(r[k1] == q[k1]);
                if k2 < q.len() {
                    assert(r[k2] == q[k2]);
                }
            }
            r
        } else if lcs(a1, b) >= lcs(a, b1) {
            let q = lemma_lcs_witness(a1, b);
            assert forall|k: int| 0 <= k < q.len() implies a[(#[trigger] q[k]).0 - 0] == b[q[k].1 - 0] by {
                assert(a1[q[k].0 - 0] == b[q[k].1 - 0]);
            }
            q
        } else {
            let q = lemma_lcs_witness(a, b1);
            assert forall|k: int| 0 <= k < q.len() implies a[(#[trigger] q[k]).0 - 0] == b[q[k].1 - 0] by {
                assert(a[q[k].0 - 0] == b1[q[k].1 - 0]);
            }
            q
        }
    }
}

/// The matching read from the other end of both sequences.
pub open spec fn reversed_matching(p: Seq<(usize, usize)>, n: nat, m: nat) -> Seq<(usize, usize)> {
    Seq::new(
        p.len(),
        |k: int| ((n - 1 - p[p.len() - 1 - k].0) as usize, (m - 1 - p[p.len() - 1 - k].1) as usize),
    )
}

proof fn lemma_reversed_matching<A>(p: Seq<(usize, usize)>, a: Seq<A>, b: Seq<A>)
    requires
        is_matching(p, a, b, (0usize, 0usize)),
        a.len() <= usize::MAX,
        b.len() <= usize::MAX,
    ensures
        is_matching(reversed_matching(p, a.len(), b.len()), a.reverse(), b.reverse(), (0usize, 0usize)),
{
    let r = reversed_matching(p, a.len(), b.len());
    let ra = a.reverse();
    let rb = b.reverse();
    assert forall|k: int| 0 <= k < r.len() implies {
        &&& 0 <= (#[trigger] r[k]).0 < 0 + ra.len()
        &&& 0 <= r[k].1 < 0 + rb.len()
        &&& ra[r[k].0 - 0] == rb[r[k].1 - 0]
    } by {
        let q = p[p.len() - 1 - k];
        assert(a[q.0 - 0] == b[q.1 - 0]);
        assert(ra[a.len() - 1 - q.0] == a[q.0 as int]);
        assert(rb[b.len() - 1 - q.1] == b[q.1 as int]);
    }
    assert forall|k1: int, k2: int| 0 <= k1 < k2 < r.len() implies (#[trigger] r[k1]).0 < (#[trigger] r[k2]).0
        && r[k1].1 < r[k2].1 by {
        let i1 = p.len() - 1 - k1;
        let i2 = p.len() - 1 - k2;
        assert(p[i2].0 < p[i1].0 && p[i2].1 < p[i1].1);
    }
}

/// Reading both sequences backwards keeps the length of a longest common subsequence.
pub proof fn lemma_lcs_reverse<A>(a: Seq<A>, b: Seq<A>)
    requires
        a.len() <= usize::MAX,
        b.len() <= usize::MAX,
    ensures
        lcs(a.reverse(), b.reverse()) == lcs(a, b),
{
    let p = lemma_lcs_witness(a, b);
    lemma_reversed_matching(p, a, b);
    lemma_matching_upper(reversed_matching(p, a.len(), b.len()), a.reverse(), b.reverse());
    let ra = a.reverse();
    let rb = b.reverse();
    let q = lemma_lcs_witness(ra, rb);
    lemma_reversed_matching(q, ra, rb);
    assert(ra.reverse() =~= a);
    assert(rb.reverse() =~= b);
    lemma_matching_upper(reversed_matching(q, ra.len(), rb.len()), a, b);
}

/// Where a matching crosses position `m` of `a`: pairs before `c` start before `m`, the rest
/// at `m` or later.
proof fn lemma_matching_cut<A>(p: Seq<(usize, usize)>, a: Seq<A>, b: Seq<A>, m: int) -> (c: int)
    requires
        is_matching(p, a, b, (0usize, 0usize)),
    ensures
        0 <= c <= p.len(),
        forall|k: int| 0 <= k < c ==> (#[trigger] p[k]).0 < m,
        forall|k: int| c <= k < p.len() ==> (#[trigger] p[k]).0 >= m,
    decreases p.len(),
{
    if p.len() == 0 {
        0
    } else if (p.last().0 as int) < m {
        assert forall|k: int| 0 <= k < p.len() implies (#[trigger] p[k]).0 < m by {
            if k < p.len() - 1 {
                assert(p[k].0 < p[p.len() - 1].0);
            }
        }
        p.len() as int
    } else {
        let q = p.drop_last();
        assert(is_matching(q, a, b, (0usize, 0usize))) by {
            assert forall|k: int| 0 <= k < q.len() implies #[trigger] q[k] == p[k] by {}
            assert forall|k1: int, k2: int| 0 <= k1 < k2 < q.len() implies (#[trigger] q[k1]).0 < (#[trigger] q[k2]).0
                && q[k1].1 < q[k2].1 by {
                assert(q[k1] == p[k1] && q[k2] == p[k2]);
            }
        }
        let c = lemma_matching_cut(q, a, b, m);
        assert forall|k: int| c <= k < p.len() implies (#[trigger] p[k]).0 >= m by {
            if k < q.len() {
                assert(q[k] == p[k]);
            }
        }
        assert forall|k: int| 0 <= k < c implies (#[trigger] p[k]).0 < m by {
            assert(q[k] == p[k]);
        }
        c
    }
}

/// A matching moved by `(di, dj)`.
pub open spec fn shifted(p: Seq<(usize, usize)>, di: int, dj: int) -> Seq<(usize, usize)> {
    Seq::new(p.len(), |k: int| ((p[k].0 + di) as usize, (p[k].1 + dj) as usize))
}

/// Cutting `a` at `m` and `b` at the best place, the two halves' longest common subsequences
/// add up to the whole one; at no place do they add up to more.
pub proof fn lemma_lcs_split<A>(a: Seq<A>, b: Seq<A>, m: int)
    requires
        0 <= m <= a.len(),
        a.len() <= usize::MAX,
        b.len() <= usize::MAX,
    ensures
        forall|j: int|
            0 <= j <= b.len() ==> #[trigger] lcs(a.take(m), b.take(j)) + lcs(a.skip(m), b.skip(j)) <= lcs(a, b),
        exists|j: int|
            0 <= j <= b.len() && #[trigger] lcs(a.take(m), b.take(j)) + lcs(a.skip(m), b.skip(j)) == lcs(a, b),
{
    assert forall|j: int| 0 <= j <= b.len() implies #[trigger] lcs(a.take(m), b.take(j)) + lcs(a.skip(m), b.skip(j)) <= lcs(a, b) by {
        let p1 = lemma_lcs_witness(a.take(m), b.take(j));
        let p2 = lemma_lcs_witness(a.skip(m), b.skip(j));
        let s2 = shifted(p2, m, j);
        assert(is_matching(p1, a.take(m), b.take(j), (0usize, 0usize)));
        assert(is_matching(s2, a.skip(m), b.skip(j), (m as usize, j as usize))) by {
            assert forall|k: int| 0 <= k < s2.len() implies {
                &&& m <= (#[trigger] s2[k]).0 < m + a.skip(m).len()
                &&& j <= s2[k].1 < j + b.skip(j).len()
                &&& a.skip(m)[s2[k].0 - m] == b.skip(j)[s2[k].1 - j]
            } by {
                assert(a.skip(m)[p2[k].0 - 0] == b.skip(j)[p2[k].1 - 0]);
            }
            assert forall|k1: int, k2: int| 0 <= k1 < k2 < s2.len() implies (#[trigger] s2[k1]).0 < (#[trigger] s2[k2]).0
                && s2[k1].1 < s2[k2].1 by {
                assert(p2[k1].0 < p2[k2].0 && p2[k1].1 < p2[k2].1);
            }
        }
        lemma_matching_concat(p1, s2, a, b, (0usize, 0usize), m, j);
        lemma_matching_upper(p1 + s2, a, b);
    }
    let p = lemma_lcs_witness(a, b);
    let c = lemma_matching_cut(p, a, b, m);
    let j: int = if c < p.len() {
        p[c].1 as int
    } else {
        b.len() as int
    };
    let p1 = p.take(c);
    let p2 = shifted(p.skip(c), -m, -j);
    assert forall|k: int| c <= k < p.len() implies (#[trigger] p[k]).1 >= j by {
        if k > c {
            assert(p[c].1 < p[k].1);
        }
    }
    assert(is_matching(p1, a.take(m), b.take(j), (0usize, 0usize))) by {
        assert forall|k: int| 0 <= k < p1.len() implies {
            &&& 0 <= (#[trigger] p1[k]).0 < 0 + a.take(m).len()
            &&& 0 <= p1[k].1 < 0 + b.take(j).len()
            &&& a.take(m)[p1[k].0 - 0] == b.take(j)[p1[k].1 - 0]
        } by {
            assert(p1[k] == p[k]);
            assert(p[k].0 < m);
            if c < p.len() {
                assert(p[k].1 < p[c].1);
            }
            assert(a[p[k].0 - 0] == b[p[k].1 - 0]);
        }
        assert forall|k1: int, k2: int| 0 <= k1 < k2 < p1.len() implies (#[trigger] p1[k1]).0 < (#[trigger] p1[k2]).0
            && p1[k1].1 < p1[k2].1 by {
            assert(p1[k1] == p[k1] && p1[k2] == p[k2]);
        }
    }
    assert(is_matching(p2, a.skip(m), b.skip(j), (0usize, 0usize))) by {
        assert forall|k: int| 0 <= k < p2.len() implies {
            &&& 0 <= (#[trigger] p2[k]).0 < 0 + a.skip(m).len()
            &&& 0 <= p2[k].1 < 0 + b.skip(j).len()
            &&& a.skip(m)[p2[k].0 - 0] == b.skip(j)[p2[k].1 - 0]
        } by {
            let q = p[c + k];
            assert(p.skip(c)[k] == q);
            assert(q.0 >= m);
            assert(q.1 >= j);
            assert(a[q.0 - 0] == b[q.1 - 0]);
        }
        assert forall|k1: int, k2: int| 0 <= k1 < k2 < p2.len() implies (#[trigger] p2[k1]).0 < (#[trigger] p2[k2]).0
            && p2[k1].1 < p2[k2].1 by {
            assert(p.skip(c)[k1] == p[c + k1] && p.skip(c)[k2] == p[c + k2]);
            assert(p[c + k1].0 < p[c + k2].0 && p[c + k1].1 < p[c + k2].1);
            assert(p[c + k1].0 >= m && p[c + k1].1 >= j);
        }
    }
    lemma_matching_upper(p1, a.take(m), b.take(j));
    lemma_matching_upper(p2, a.skip(m), b.skip(j));
    assert(lcs(a.take(m), b.take(j)) + lcs(a.skip(m), b.skip(j)) >= lcs(a, b));
    assert(0 <= j <= b.len());
}

} // verus!
