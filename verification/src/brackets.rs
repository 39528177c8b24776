//! Bracket matching over a sequence of nesting steps: `1` opens a loop, `-1`
//! closes one and `0` is any other command. Every part of the crate that pairs
//! `[` with `]` is specified through these definitions.
use vstd::prelude::*;

verus! {

/// The sum of the steps in `d[lo..hi]`.
pub open spec fn depth(d: Seq<int>, lo: int, hi: int) -> int
    decreases hi - lo,
{
    if hi <= lo {
        0
    } else {
        depth(d, lo, hi - 1) + d[hi - 1]
    }
}

/// No prefix of `d` closes more loops than it opened.
pub open spec fn never_below_zero(d: Seq<int>) -> bool {
    forall|k: int| 0 <= k <= d.len() ==> #[trigger] depth(d, 0, k) >= 0
}

/// Every step is `-1`, `0` or `1`.
pub open spec fn unit_steps(d: Seq<int>) -> bool {
    forall|i: int| 0 <= i < d.len() ==> -1 <= #[trigger] d[i] <= 1
}

/// The closing step at `j` is the one that matches the opening step at `p`:
/// `j` is the first position after `p` at which the nesting opened at `p`
/// returns to where it was.
pub open spec fn closes(d: Seq<int>, p: int, j: int) -> bool {
    &&& 0 <= p < j < d.len()
    &&& d[p] == 1
    &&& d[j] == -1
    &&& depth(d, p, j + 1) == 0
    &&& forall|k: int| p < k <= j ==> #[trigger] depth(d, p, k) > 0
}

/// The opening step at `p` is matched somewhere in `d`.
pub open spec fn has_match(d: Seq<int>, p: int) -> bool {
    exists|j: int| closes(d, p, j)
}

/// The position of the step that closes the one opened at `p`.
pub open spec fn match_of(d: Seq<int>, p: int) -> int {
    choose|j: int| closes(d, p, j)
}

/// The position of the step that opened the one closed at `j`.
pub open spec fn opener_of(d: Seq<int>, j: int) -> int {
    choose|p: int| closes(d, p, j)
}

pub proof fn lemma_depth_split(d: Seq<int>, a: int, b: int, c: int)
    requires
        a <= b <= c,
    ensures
        depth(d, a, c) == depth(d, a, b) + depth(d, b, c),
    decreases c - b,
{
    if c > b {
        lemma_depth_split(d, a, b, c - 1);
    }
}

pub proof fn lemma_depth_single(d: Seq<int>, a: int)
    ensures
        depth(d, a, a + 1) == d[a],
{
    assert(depth(d, a, a) == 0);
}

/// A matched opening step has exactly one closing step.
pub proof fn lemma_match_unique(d: Seq<int>, p: int, j1: int, j2: int)
    requires
        closes(d, p, j1),
        closes(d, p, j2),
    ensures
        j1 == j2,
{
    if j1 < j2 {
        assert(depth(d, p, j1 + 1) > 0);
    } else if j2 < j1 {
        assert(depth(d, p, j2 + 1) > 0);
    }
}

/// A closing step is matched by exactly one opening step.
pub proof fn lemma_opener_unique(d: Seq<int>, p1: int, p2: int, j: int)
    requires
        closes(d, p1, j),
        closes(d, p2, j),
    ensures
        p1 == p2,
{
    if p1 < p2 {
        lemma_depth_split(d, p1, p2, j + 1);
        assert(depth(d, p1, p2) > 0);
    } else if p2 < p1 {
        lemma_depth_split(d, p2, p1, j + 1);
        assert(depth(d, p2, p1) > 0);
    }
}

/// `match_of` and `opener_of` name the partners of a matched pair.
pub proof fn lemma_partners(d: Seq<int>, p: int, j: int)
    requires
        closes(d, p, j),
    ensures
        has_match(d, p),
        match_of(d, p) == j,
        opener_of(d, j) == p,
{
    lemma_match_unique(d, p, j, match_of(d, p));
    lemma_opener_unique(d, p, opener_of(d, j), j);
}

/// What a left-to-right scan that pushes each opening position and pops at
/// each closing step knows after the first `i` steps: `st` holds, in
/// increasing order, exactly the opening positions not yet closed, and the
/// nesting depth equals its length.
pub open spec fn scan_state(d: Seq<int>, i: int, st: Seq<int>) -> bool {
    &&& 0 <= i <= d.len()
    &&& st.len() == depth(d, 0, i)
    &&& forall|t: int| 0 <= t < st.len() ==> 0 <= #[trigger] st[t] < i && d[st[t]] == 1
    &&& forall|t1: int, t2: int| 0 <= t1 < t2 < st.len() ==> st[t1] < st[t2]
    &&& forall|t: int| 0 <= t < st.len() ==> depth(d, #[trigger] st[t], i) == st.len() - t
    &&& forall|t: int, k: int|
        0 <= t < st.len() && st[t] < k <= i ==> #[trigger] depth(d, st[t], k) > 0
    &&& forall|p: int|
        0 <= p < i && d[p] == 1 && !st.contains(p) ==> exists|j: int|
            j < i && #[trigger] closes(d, p, j)
}

pub proof fn lemma_scan_start(d: Seq<int>)
    ensures
        scan_state(d, 0, Seq::empty()),
{
}

/// A neutral step changes nothing.
pub proof fn lemma_scan_neutral(d: Seq<int>, i: int, st: Seq<int>)
    requires
        scan_state(d, i, st),
        i < d.len(),
        d[i] == 0,
    ensures
        scan_state(d, i + 1, st),
{
    assert forall|t: int| 0 <= t < st.len() implies depth(d, #[trigger] st[t], i + 1) == st.len()
        - t by {
        assert(depth(d, st[t], i + 1) == depth(d, st[t], i) + d[i]);
    }
    assert forall|p: int|
        0 <= p < i + 1 && d[p] == 1 && !st.contains(p) implies exists|j: int|
        j < i + 1 && #[trigger] closes(d, p, j) by {
        let j = choose|j: int| j < i && #[trigger] closes(d, p, j);
        assert(closes(d, p, j));
    }
}

/// An opening step is pushed.
pub proof fn lemma_scan_open(d: Seq<int>, i: int, st: Seq<int>)
    requires
        scan_state(d, i, st),
        i < d.len(),
        d[i] == 1,
    ensures
        scan_state(d, i + 1, st.push(i)),
{
    let ns = st.push(i);
    assert forall|t: int| 0 <= t < ns.len() implies depth(d, #[trigger] ns[t], i + 1) == ns.len()
        - t by {
        if t < st.len() {
            assert(ns[t] == st[t]);
            assert(depth(d, st[t], i + 1) == depth(d, st[t], i) + d[i]);
        } else {
            lemma_depth_single(d, i);
        }
    }
    assert forall|t: int, k: int| 0 <= t < ns.len() && ns[t] < k <= i + 1 implies #[trigger] depth(
        d,
        ns[t],
        k,
    ) > 0 by {
        if t < st.len() {
            assert(ns[t] == st[t]);
            if k == i + 1 {
                assert(depth(d, st[t], i + 1) == depth(d, st[t], i) + d[i]);
            }
        } else {
            lemma_depth_single(d, i);
        }
    }
    assert forall|p: int|
        0 <= p < i + 1 && d[p] == 1 && !ns.contains(p) implies exists|j: int|
        j < i + 1 && #[trigger] closes(d, p, j) by {
        assert(p != i) by {
            assert(ns[ns.len() - 1] == i);
        }
        assert(!st.contains(p)) by {
            if st.contains(p) {
                let t = choose|t: int| 0 <= t < st.len() && st[t] == p;
                assert(ns[t] == p);
            }
        }
        let j = choose|j: int| j < i && #[trigger] closes(d, p, j);
        assert(closes(d, p, j));
    }
}

/// A closing step with a non-empty stack closes the innermost open loop,
/// which is popped.
pub proof fn lemma_scan_close(d: Seq<int>, i: int, st: Seq<int>)
    requires
        scan_state(d, i, st),
        i < d.len(),
        d[i] == -1,
        st.len() > 0,
    ensures
        closes(d, st.last(), i),
        scan_state(d, i + 1, st.drop_last()),
{
    let p = st.last();
    let ns = st.drop_last();
    assert(depth(d, p, i + 1) == depth(d, p, i) + d[i]);
    assert forall|k: int| p < k <= i implies #[trigger] depth(d, p, k) > 0 by {
        assert(depth(d, st[st.len() - 1], k) > 0);
    }
    assert(closes(d, p, i));
    assert forall|t: int| 0 <= t < ns.len() implies depth(d, #[trigger] ns[t], i + 1) == ns.len()
        - t by {
        assert(ns[t] == st[t]);
        assert(depth(d, st[t], i + 1) == depth(d, st[t], i) + d[i]);
    }
    assert forall|t: int, k: int| 0 <= t < ns.len() && ns[t] < k <= i + 1 implies #[trigger] depth(
        d,
        ns[t],
        k,
    ) > 0 by {
        assert(ns[t] == st[t]);
        if k == i + 1 {
            assert(depth(d, st[t], i + 1) == depth(d, st[t], i) + d[i]);
        }
    }
    assert forall|p2: int|
        0 <= p2 < i + 1 && d[p2] == 1 && !ns.contains(p2) implies exists|j: int|
        j < i + 1 && #[trigger] closes(d, p2, j) by {
        if p2 == p {
            assert(closes(d, p2, i));
        } else {
            assert(!st.contains(p2)) by {
                if st.contains(p2) {
                    let t = choose|t: int| 0 <= t < st.len() && st[t] == p2;
                    if t < st.len() - 1 {
                        assert(ns[t] == p2);
                    }
                }
            }
            let j = choose|j: int| j < i && #[trigger] closes(d, p2, j);
            assert(closes(d, p2, j));
        }
    }
}

/// A closing step with an empty stack takes the depth below zero.
pub proof fn lemma_scan_underflow(d: Seq<int>, i: int, st: Seq<int>)
    requires
        scan_state(d, i, st),
        i < d.len(),
        d[i] == -1,
        st.len() == 0,
    ensures
        !never_below_zero(d),
{
    assert(depth(d, 0, i + 1) == depth(d, 0, i) + d[i]);
    assert(depth(d, 0, i + 1) < 0);
}

/// With unit steps, an opening step at `q` whose nesting has dropped to zero
/// or below by `hi` was closed before `hi`; otherwise it stays open up to `hi`.
pub proof fn lemma_first_return(d: Seq<int>, q: int, hi: int)
    requires
        unit_steps(d),
        0 <= q < hi <= d.len(),
        d[q] == 1,
    ensures
        (forall|k: int| q < k <= hi ==> #[trigger] depth(d, q, k) > 0) || exists|j: int|
            j < hi && #[trigger] closes(d, q, j),
    decreases hi - q,
{
    lemma_depth_single(d, q);
    if hi > q + 1 {
        lemma_first_return(d, q, hi - 1);
        if !(exists|j: int| j < hi - 1 && #[trigger] closes(d, q, j)) {
            assert(depth(d, q, hi) == depth(d, q, hi - 1) + d[hi - 1]);
            if depth(d, q, hi) <= 0 {
                assert(closes(d, q, hi - 1));
            } else {
                assert forall|k: int| q < k <= hi implies #[trigger] depth(d, q, k) > 0 by {
                    if k < hi {
                        assert(depth(d, q, k) > 0);
                    }
                }
            }
        } else {
            let j = choose|j: int| j < hi - 1 && #[trigger] closes(d, q, j);
            assert(closes(d, q, j));
        }
    }
}

/// Jumping from the opening step at `i` to just after its closing step `m`
/// leaves the scan's stack as it was at `i`.
pub proof fn lemma_scan_skip(d: Seq<int>, i: int, m: int, st: Seq<int>)
    requires
        unit_steps(d),
        scan_state(d, i, st),
        closes(d, i, m),
    ensures
        scan_state(d, m + 1, st),
{
    lemma_depth_split(d, 0, i, m + 1);
    assert forall|t: int| 0 <= t < st.len() implies depth(d, #[trigger] st[t], m + 1) == st.len()
        - t by {
        lemma_depth_split(d, st[t], i, m + 1);
    }
    assert forall|t: int, k: int| 0 <= t < st.len() && st[t] < k <= m + 1 implies #[trigger] depth(
        d,
        st[t],
        k,
    ) > 0 by {
        if k > i {
            lemma_depth_split(d, st[t], i, k);
            assert(depth(d, st[t], i) == st.len() - t);
            if k <= m {
                assert(depth(d, i, k) > 0);
            }
        }
    }
    assert forall|p: int|
        0 <= p < m + 1 && d[p] == 1 && !st.contains(p) implies exists|j: int|
        j < m + 1 && #[trigger] closes(d, p, j) by {
        if p < i {
            let j = choose|j: int| j < i && #[trigger] closes(d, p, j);
            assert(closes(d, p, j));
        } else if p == i {
            assert(closes(d, i, m));
        } else {
            lemma_depth_split(d, i, p, m + 1);
            assert(depth(d, i, p) > 0);
            lemma_first_return(d, p, m + 1);
            if forall|k: int| p < k <= m + 1 ==> #[trigger] depth(d, p, k) > 0 {
                assert(depth(d, p, m + 1) > 0);
            }
        }
    }
}

/// Going back from a closing step at `i` to just after the opening step on
/// top of the stack leaves the stack as it is.
pub proof fn lemma_scan_back(d: Seq<int>, i: int, st: Seq<int>)
    requires
        scan_state(d, i, st),
        st.len() > 0,
    ensures
        scan_state(d, st.last() + 1, st),
{
    let p = st.last();
    let tl = st.len() - 1;
    assert(depth(d, p, i) == 1);
    lemma_depth_single(d, p);
    lemma_depth_split(d, p, p + 1, i);
    lemma_depth_split(d, 0, p + 1, i);
    assert forall|t: int| 0 <= t < st.len() implies depth(d, #[trigger] st[t], p + 1) == st.len()
        - t by {
        if t < tl {
            lemma_depth_split(d, st[t], p + 1, i);
        }
    }
    assert forall|t: int, k: int| 0 <= t < st.len() && st[t] < k <= p + 1 implies #[trigger] depth(
        d,
        st[t],
        k,
    ) > 0 by {
        if t < tl {
            assert(st[t] < st[tl]);
        }
    }
    assert forall|q: int|
        0 <= q < p + 1 && d[q] == 1 && !st.contains(q) implies exists|j: int|
        j < p + 1 && #[trigger] closes(d, q, j) by {
        assert(q != p) by {
            assert(st[tl] == p);
        }
        let j = choose|j: int| j < i && #[trigger] closes(d, q, j);
        if j >= p {
            assert(j != p);
            lemma_depth_split(d, q, p, j + 1);
            assert(depth(d, q, p) > 0);
            assert(depth(d, p, j + 1) > 0);
        }
        assert(closes(d, q, j));
    }
}

/// Depths inside the first part of a concatenation are those of that part.
pub proof fn lemma_depth_concat_left(d1: Seq<int>, d2: Seq<int>, x: int, y: int)
    requires
        0 <= x <= y <= d1.len(),
    ensures
        depth(d1 + d2, x, y) == depth(d1, x, y),
    decreases y - x,
{
    if y > x {
        lemma_depth_concat_left(d1, d2, x, y - 1);
        assert((d1 + d2)[y - 1] == d1[y - 1]);
    }
}

/// Depths inside the second part of a concatenation are those of that part.
pub proof fn lemma_depth_concat_right(d1: Seq<int>, d2: Seq<int>, x: int, y: int)
    requires
        0 <= x <= y <= d2.len(),
    ensures
        depth(d1 + d2, d1.len() + x, d1.len() + y) == depth(d2, x, y),
    decreases y - x,
{
    if y > x {
        lemma_depth_concat_right(d1, d2, x, y - 1);
        assert((d1 + d2)[d1.len() + y - 1] == d2[y - 1]);
    }
}

/// A pair matched in the first part stays matched in a concatenation.
pub proof fn lemma_closes_left(d1: Seq<int>, d2: Seq<int>, p: int, j: int)
    requires
        closes(d1, p, j),
    ensures
        closes(d1 + d2, p, j),
{
    lemma_depth_concat_left(d1, d2, p, j + 1);
    assert forall|k: int| p < k <= j implies #[trigger] depth(d1 + d2, p, k) > 0 by {
        lemma_depth_concat_left(d1, d2, p, k);
    }
}

/// A pair matched in the second part stays matched, moved, in a
/// concatenation.
pub proof fn lemma_closes_right(d1: Seq<int>, d2: Seq<int>, p: int, j: int)
    requires
        closes(d2, p, j),
    ensures
        closes(d1 + d2, d1.len() + p, d1.len() + j),
{
    lemma_depth_concat_right(d1, d2, p, j + 1);
    assert forall|k: int| d1.len() + p < k <= d1.len() + j implies #[trigger] depth(
        d1 + d2,
        d1.len() + p,
        k,
    ) > 0 by {
        lemma_depth_concat_right(d1, d2, p, k - d1.len());
        assert(depth(d2, p, k - d1.len()) > 0);
    }
}

/// The scan's stack exists at every position of a sequence of unit steps
/// that never goes below zero.
pub proof fn lemma_scan_reach(d: Seq<int>, i: int) -> (st: Seq<int>)
    requires
        unit_steps(d),
        never_below_zero(d),
        0 <= i <= d.len(),
    ensures
        scan_state(d, i, st),
    decreases i,
{
    if i == 0 {
        lemma_scan_start(d);
        Seq::empty()
    } else {
        let st = lemma_scan_reach(d, i - 1);
        assert(-1 <= d[i - 1] <= 1);
        if d[i - 1] == 1 {
            lemma_scan_open(d, i - 1, st);
            st.push(i - 1)
        } else if d[i - 1] == 0 {
            lemma_scan_neutral(d, i - 1, st);
            st
        } else {
            if st.len() == 0 {
                lemma_scan_underflow(d, i - 1, st);
            }
            lemma_scan_close(d, i - 1, st);
            st.drop_last()
        }
    }
}

/// In a sequence of unit steps that never goes below zero and ends at zero,
/// every opening step is matched and every closing step has its opener.
pub proof fn lemma_balanced_matches(d: Seq<int>, k: int)
    requires
        unit_steps(d),
        never_below_zero(d),
        depth(d, 0, d.len() as int) == 0,
        0 <= k < d.len(),
    ensures
        d[k] == 1 ==> exists|j: int| closes(d, k, j),
        d[k] == -1 ==> exists|p: int| closes(d, p, k),
{
    if d[k] == 1 {
        lemma_first_return(d, k, d.len() as int);
        lemma_depth_split(d, 0, k, d.len() as int);
        assert(depth(d, 0, k) >= 0);
        if forall|m: int| k < m <= d.len() ==> #[trigger] depth(d, k, m) > 0 {
            assert(depth(d, k, d.len() as int) > 0);
        }
    }
    if d[k] == -1 {
        let st = lemma_scan_reach(d, k);
        assert(depth(d, 0, k + 1) == depth(d, 0, k) + d[k]);
        assert(depth(d, 0, k + 1) >= 0);
        lemma_scan_close(d, k, st);
    }
}

/// A pair matched in a concatenation within its first part is matched there.
pub proof fn lemma_closes_left_back(d1: Seq<int>, d2: Seq<int>, p: int, j: int)
    requires
        closes(d1 + d2, p, j),
        j < d1.len(),
    ensures
        closes(d1, p, j),
{
    lemma_depth_concat_left(d1, d2, p, j + 1);
    assert((d1 + d2)[p] == d1[p]);
    assert((d1 + d2)[j] == d1[j]);
    assert forall|k: int| p < k <= j implies #[trigger] depth(d1, p, k) > 0 by {
        lemma_depth_concat_left(d1, d2, p, k);
    }
}

/// A pair matched in a concatenation within its second part is matched there.
pub proof fn lemma_closes_right_back(d1: Seq<int>, d2: Seq<int>, p: int, j: int)
    requires
        closes(d1 + d2, d1.len() + p, d1.len() + j),
        0 <= p,
    ensures
        closes(d2, p, j),
{
    lemma_depth_concat_right(d1, d2, p, j + 1);
    assert((d1 + d2)[d1.len() + p] == d2[p]);
    assert((d1 + d2)[d1.len() + j] == d2[j]);
    assert forall|k: int| p < k <= j implies #[trigger] depth(d2, p, k) > 0 by {
        lemma_depth_concat_right(d1, d2, p, k);
        assert(depth(d1 + d2, d1.len() + p, d1.len() + k) > 0);
    }
}

/// Two sequences that never go below zero and end at zero give a
/// concatenation that does the same, and no pair of it is matched across the
/// two parts.
pub proof fn lemma_balanced_concat(d1: Seq<int>, d2: Seq<int>)
    requires
        never_below_zero(d1),
        depth(d1, 0, d1.len() as int) == 0,
        never_below_zero(d2),
        depth(d2, 0, d2.len() as int) == 0,
    ensures
        never_below_zero(d1 + d2),
        depth(d1 + d2, 0, (d1 + d2).len() as int) == 0,
        forall|p: int, j: int| #[trigger] closes(d1 + d2, p, j) ==> (j < d1.len() || p >= d1.len()),
{
    let d = d1 + d2;
    let n1 = d1.len() as int;
    assert forall|k: int| 0 <= k <= d.len() implies #[trigger] depth(d, 0, k) >= 0 by {
        if k <= n1 {
            lemma_depth_concat_left(d1, d2, 0, k);
        } else {
            lemma_depth_split(d, 0, n1, k);
            lemma_depth_concat_left(d1, d2, 0, n1);
            lemma_depth_concat_right(d1, d2, 0, k - n1);
        }
    }
    lemma_depth_split(d, 0, n1, d.len() as int);
    lemma_depth_concat_left(d1, d2, 0, n1);
    lemma_depth_concat_right(d1, d2, 0, d2.len() as int);
    assert forall|p: int, j: int| #[trigger] closes(d, p, j) implies (j < n1 || p >= n1) by {
        if p < n1 && j >= n1 {
            lemma_depth_split(d, 0, p, n1);
            lemma_depth_concat_left(d1, d2, 0, p);
            assert(depth(d1, 0, p) >= 0);
            assert(depth(d, p, n1) > 0);
        }
    }
}

} // verus!
