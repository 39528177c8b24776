//! Byte images made of consecutive pieces, and what changes when one piece is
//! replaced by another of the same length.
use vstd::prelude::*;

verus! {

/// The pieces `f(0)`, ..., `f(n - 1)` one after another.
pub open spec fn concat(f: spec_fn(int) -> Seq<u8>, n: int) -> Seq<u8>
    decreases n,
{
    if n <= 0 {
        Seq::empty()
    } else {
        concat(f, n - 1) + f(n - 1)
    }
}

/// `sz(0) + ... + sz(n - 1)`.
pub open spec fn sum(sz: spec_fn(int) -> int, n: int) -> int
    decreases n,
{
    if n <= 0 {
        0
    } else {
        sum(sz, n - 1) + sz(n - 1)
    }
}

pub proof fn lemma_sum_monotone(sz: spec_fn(int) -> int, m: int, n: int)
    requires
        0 <= m <= n,
        forall|k: int| 0 <= k < n ==> #[trigger] sz(k) >= 0,
    ensures
        sum(sz, m) <= sum(sz, n),
    decreases n - m,
{
    if m < n {
        lemma_sum_monotone(sz, m, n - 1);
    }
}

/// Pieces that agree give the same image.
pub proof fn lemma_concat_ext(f: spec_fn(int) -> Seq<u8>, g: spec_fn(int) -> Seq<u8>, n: int)
    requires
        forall|k: int| 0 <= k < n ==> #[trigger] f(k) == g(k),
    ensures
        concat(f, n) == concat(g, n),
    decreases n,
{
    if n > 0 {
        lemma_concat_ext(f, g, n - 1);
    }
}

/// The image is as long as its pieces together.
pub proof fn lemma_concat_len(f: spec_fn(int) -> Seq<u8>, sz: spec_fn(int) -> int, n: int)
    requires
        forall|k: int| 0 <= k < n ==> #[trigger] f(k).len() == sz(k),
    ensures
        concat(f, n).len() == sum(sz, n),
    decreases n,
{
    if n > 0 {
        lemma_concat_len(f, sz, n - 1);
    }
}

/// Piece `p` stands in the image right after the pieces before it.
pub proof fn lemma_concat_at(f: spec_fn(int) -> Seq<u8>, p: int, n: int)
    requires
        0 <= p < n,
    ensures
        concat(f, p).len() + f(p).len() <= concat(f, n).len(),
        forall|x: int|
            0 <= x < f(p).len() ==> #[trigger] concat(f, n)[concat(f, p).len() + x] == f(p)[x],
    decreases n,
{
    if p < n - 1 {
        lemma_concat_at(f, p, n - 1);
        assert forall|x: int| 0 <= x < f(p).len() implies #[trigger] concat(f, n)[concat(f, p).len()
            + x] == f(p)[x] by {
            assert(concat(f, n)[concat(f, p).len() + x] == concat(f, n - 1)[concat(f, p).len()
                + x]);
        }
    }
}

/// Replacing piece `p` by one of the same length changes the image only
/// where piece `p` stands.
pub proof fn lemma_concat_replace(
    f: spec_fn(int) -> Seq<u8>,
    g: spec_fn(int) -> Seq<u8>,
    n: int,
    p: int,
)
    requires
        0 <= p < n,
        forall|k: int| 0 <= k < n && k != p ==> #[trigger] f(k) == g(k),
        f(p).len() == g(p).len(),
    ensures
        concat(g, n).len() == concat(f, n).len(),
        concat(g, p) == concat(f, p),
        forall|x: int|
            0 <= x < concat(f, n).len() ==> #[trigger] concat(g, n)[x] == if concat(f, p).len() <= x
                < concat(f, p).len() + f(p).len() {
                g(p)[x - concat(f, p).len()]
            } else {
                concat(f, n)[x]
            },
    decreases n,
{
    lemma_concat_ext(f, g, p);
    if p < n - 1 {
        lemma_concat_replace(f, g, n - 1, p);
        lemma_concat_at(f, p, n - 1);
        assert(f(n - 1) == g(n - 1));
        assert forall|x: int| 0 <= x < concat(f, n).len() implies #[trigger] concat(g, n)[x] == if concat(
            f,
            p,
        ).len() <= x < concat(f, p).len() + f(p).len() {
            g(p)[x - concat(f, p).len()]
        } else {
            concat(f, n)[x]
        } by {
            if x < concat(f, n - 1).len() {
                assert(concat(g, n)[x] == concat(g, n - 1)[x]);
                assert(concat(f, n)[x] == concat(f, n - 1)[x]);
            } else {
                assert(concat(g, n)[x] == g(n - 1)[x - concat(g, n - 1).len()]);
            }
        }
    } else {
        assert forall|x: int| 0 <= x < concat(f, n).len() implies #[trigger] concat(g, n)[x] == if concat(
            f,
            p,
        ).len() <= x < concat(f, p).len() + f(p).len() {
            g(p)[x - concat(f, p).len()]
        } else {
            concat(f, n)[x]
        } by {
            if x < concat(f, p).len() {
                assert(concat(g, n)[x] == concat(g, p)[x]);
                assert(concat(f, n)[x] == concat(f, p)[x]);
            }
        }
    }
}

/// Where a jump with displacement field `disp` lands, counted from the end of
/// the jump instruction; the field is read as a signed 32-bit number.
pub open spec fn jump_target(end: int, disp: u32) -> int {
    end + (disp as i32)
}

/// A displacement that fits in 32 bits survives being stored as a `u32` and
/// read back as an `i32`.
pub proof fn lemma_disp_roundtrip(x: int)
    requires
        i32::MIN <= x <= i32::MAX,
    ensures
        ((x as u32) as i32) as int == x,
{
    let y = x as i32;
    assert(((y as u32) as i32) == y) by (bit_vector);
}

/// The image of `n + m` pieces is that of the first `n` followed by that of
/// the next `m`.
pub proof fn lemma_concat_split(f: spec_fn(int) -> Seq<u8>, g: spec_fn(int) -> Seq<u8>, n: int, m: int)
    requires
        0 <= n,
        0 <= m,
        forall|k: int| 0 <= k < m ==> #[trigger] g(k) == f(n + k),
    ensures
        concat(f, n + m) == concat(f, n) + concat(g, m),
    decreases m,
{
    if m == 0 {
        assert(concat(f, n) + concat(g, 0) =~= concat(f, n));
    } else {
        lemma_concat_split(f, g, n, m - 1);
        assert(g(m - 1) == f(n + m - 1));
        assert(concat(f, n + m) =~= concat(f, n) + concat(g, m));
    }
}

/// The sum of `n + m` sizes is the sum of the first `n` and of the next `m`.
pub proof fn lemma_sum_split(f: spec_fn(int) -> int, g: spec_fn(int) -> int, n: int, m: int)
    requires
        0 <= n,
        0 <= m,
        forall|k: int| 0 <= k < m ==> #[trigger] g(k) == f(n + k),
    ensures
        sum(f, n + m) == sum(f, n) + sum(g, m),
    decreases m,
{
    if m > 0 {
        lemma_sum_split(f, g, n, m - 1);
        assert(g(m - 1) == f(n + m - 1));
    }
}

/// Sizes that agree give the same sum.
pub proof fn lemma_sum_ext(f: spec_fn(int) -> int, g: spec_fn(int) -> int, n: int)
    requires
        forall|k: int| 0 <= k < n ==> #[trigger] f(k) == g(k),
    ensures
        sum(f, n) == sum(g, n),
    decreases n,
{
    if n > 0 {
        lemma_sum_ext(f, g, n - 1);
    }
}

/// `code` holds `bytes` starting at position `start`.
pub open spec fn code_at(code: Seq<u8>, start: int, bytes: Seq<u8>) -> bool {
    &&& 0 <= start
    &&& start + bytes.len() <= code.len()
    &&& forall|x: int| 0 <= x < bytes.len() ==> #[trigger] code[start + x] == bytes[x]
}

/// Where the pieces have the given sizes, piece `p` stands in the image at
/// the sum of the sizes before it.
pub proof fn lemma_piece_at(f: spec_fn(int) -> Seq<u8>, sz: spec_fn(int) -> int, p: int, n: int)
    requires
        0 <= p < n,
        forall|k: int| 0 <= k < n ==> #[trigger] f(k).len() == sz(k),
    ensures
        code_at(concat(f, n), sum(sz, p), f(p)),
{
    lemma_concat_at(f, p, n);
    lemma_concat_len(f, sz, p);
    assert forall|x: int| 0 <= x < f(p).len() implies #[trigger] concat(f, n)[sum(sz, p) + x] == f(p)[x] by {
        assert(concat(f, n)[concat(f, p).len() + x] == f(p)[x]);
    }
}

} // verus!
