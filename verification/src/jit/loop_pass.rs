//! What a replaceable loop body does to the tape, one pass at a time and
//! until its cell is zero, and how the optimiser's replacement does the same.
use vstd::prelude::*;
use vstd::arithmetic::div_mod::{
    lemma_add_mod_noop_right, lemma_mod_add_multiples_vanish, lemma_mod_sub_multiples_vanish,
    lemma_small_mod,
};
use crate::jit::ast::SyntaxTreeInst;
use crate::jit::optimiser::{
    changes_upto, is_linear, linear_prefix, loop_replacement, relative_adds, replaceable,
    shift_upto, touched_upto,
};

verus! {

/// A cell value plus `d`, modulo 256.
pub open spec fn add_mod(c: u8, d: int) -> u8 {
    ((c as int + d) % 256) as u8
}

/// Runs the first `n` instructions of a loop body on `tape` from position
/// `at`, without wrapping the position: the tape and the position after them.
/// Instructions other than moves and additions change nothing.
pub open spec fn run_linear(b: Seq<SyntaxTreeInst>, n: int, tape: spec_fn(int) -> u8, at: int) -> (
    spec_fn(int) -> u8,
    int,
)
    decreases n,
{
    if n <= 0 {
        (tape, at)
    } else {
        let (t, p) = run_linear(b, n - 1, tape, at);
        match b[n - 1] {
            SyntaxTreeInst::Shiftup(i) => (t, p + i),
            SyntaxTreeInst::ShiftDown(i) => (t, p - i),
            SyntaxTreeInst::Add(i) => (|k: int| if k == p { add_mod(t(k), i as int) } else { t(k) }, p),
            SyntaxTreeInst::Sub(i) => (
                |k: int| if k == p { add_mod(t(k), -(i as int)) } else { t(k) },
                p,
            ),
            _ => (t, p),
        }
    }
}

/// The position, relative to the start, after the first `n` instructions of
/// a loop body, without wrapping.
pub open spec fn offset_upto(b: Seq<SyntaxTreeInst>, n: int) -> int
    decreases n,
{
    if n <= 0 {
        0
    } else {
        offset_upto(b, n - 1) + match b[n - 1] {
            SyntaxTreeInst::Shiftup(i) => i as int,
            SyntaxTreeInst::ShiftDown(i) => -(i as int),
            _ => 0int,
        }
    }
}

/// Every position the body reaches lies within 16-bit offsets of its start,
/// so that the optimiser's offsets are exact.
pub open spec fn offsets_fit(b: Seq<SyntaxTreeInst>) -> bool {
    forall|n: int| 0 <= n <= b.len() ==> i16::MIN <= #[trigger] offset_upto(b, n) <= i16::MAX
}

/// The value of cell `k` once every offset in `m` has received its change.
pub open spec fn changed_cell(tape: spec_fn(int) -> u8, at: int, m: Map<i16, i8>, k: int) -> u8 {
    if i16::MIN <= k - at <= i16::MAX && m.contains_key((k - at) as i16) {
        add_mod(tape(k), m[(k - at) as i16] as int)
    } else {
        tape(k)
    }
}

proof fn lemma_add_mod_twice(c: u8, x: int, y: int)
    ensures
        add_mod(add_mod(c, x), y) == add_mod(c, x + y),
{
    lemma_add_mod_noop_right(y, c + x, 256);
    assert(0 <= (c + x) % 256 < 256);
}

proof fn lemma_add_mod_shift(c: u8, x: int, y: int)
    requires
        x == y || x == y + 256 || x == y - 256,
    ensures
        add_mod(c, x) == add_mod(c, y),
{
    lemma_mod_add_multiples_vanish(c + y, 256);
    lemma_mod_sub_multiples_vanish(c + y, 256);
}

proof fn lemma_byte_as_i8(i: u8)
    ensures
        (i as i8) == i || (i as i8) + 256 == i,
        ((-(i as i8)) as i8) == -(i as int) || ((-(i as i8)) as i8) == 256 - i,
{
    assert(i >= 128 ==> (i as i8) + 256 == i) by (bit_vector);
    assert(i < 128 ==> (i as i8) == i) by (bit_vector);
    assert(i != 128 ==> (-(i as i8)) as i8 == -(i as i8)) by (bit_vector);
    assert(i == 128 ==> (-(i as i8)) as i8 == -128) by (bit_vector);
}

/// After the first `n` instructions of the body the position has moved by
/// their offset, and each cell holds its start value plus the change recorded
/// for it so far.
#[verifier::rlimit(30)]
proof fn lemma_run_linear(b: Seq<SyntaxTreeInst>, n: int, tape: spec_fn(int) -> u8, at: int)
    requires
        0 <= n <= b.len(),
        offsets_fit(b),
    ensures
        run_linear(b, n, tape, at).1 == at + offset_upto(b, n),
        shift_upto(b, n) as int == offset_upto(b, n),
        forall|k: int| #[trigger] run_linear(b, n, tape, at).0(k) == changed_cell(
            tape,
            at,
            changes_upto(b, n),
            k,
        ),
    decreases n,
{
    if n == 0 {
        assert forall|k: int| #[trigger] run_linear(b, n, tape, at).0(k) == changed_cell(
            tape,
            at,
            changes_upto(b, n),
            k,
        ) by {
            assert(!changes_upto(b, 0).contains_key((k - at) as i16));
        }
    } else {
        lemma_run_linear(b, n - 1, tape, at);
        let (t, p) = run_linear(b, n - 1, tape, at);
        let m = changes_upto(b, n - 1);
        let o0 = shift_upto(b, n - 1);
        let m2 = changes_upto(b, n);
        let t2 = run_linear(b, n, tape, at).0;
        assert(i16::MIN <= offset_upto(b, n) <= i16::MAX);
        assert(i16::MIN <= offset_upto(b, n - 1) <= i16::MAX);
        assert(p == at + o0);
        assert(((p - at) as i16) == o0);
        match b[n - 1] {
            SyntaxTreeInst::Add(i) => {
                lemma_byte_as_i8(i);
                assert forall|k: int| #[trigger] t2(k) == changed_cell(tape, at, m2, k) by {
                    if k == p {
                        assert(t2(k) == add_mod(t(k), i as int));
                        assert(t(k) == changed_cell(tape, at, m, k));
                        if m.contains_key(o0) {
                            let w = vstd::wrapping::i8_specs::wrapping_add(m[o0], i as i8);
                            assert(m2[o0] == w);
                            lemma_add_mod_shift(tape(k), w as int, m[o0] + (i as i8));
                            lemma_add_mod_twice(tape(k), m[o0] as int, (i as i8) as int);
                            lemma_add_mod_shift(add_mod(tape(k), m[o0] as int), (i as i8) as int, i as int);
                        } else {
                            assert(m2[o0] == (i as i8));
                            lemma_add_mod_shift(tape(k), (i as i8) as int, i as int);
                        }
                    } else {
                        assert(t2(k) == t(k));
                        assert(t(k) == changed_cell(tape, at, m, k));
                    }
                }
            },
            SyntaxTreeInst::Sub(i) => {
                lemma_byte_as_i8(i);
                assert forall|k: int| #[trigger] t2(k) == changed_cell(tape, at, m2, k) by {
                    if k == p {
                        assert(t2(k) == add_mod(t(k), -(i as int)));
                        assert(t(k) == changed_cell(tape, at, m, k));
                        if m.contains_key(o0) {
                            let w = vstd::wrapping::i8_specs::wrapping_sub(m[o0], i as i8);
                            assert(m2[o0] == w);
                            lemma_add_mod_shift(tape(k), w as int, m[o0] - (i as i8));
                            lemma_add_mod_twice(tape(k), m[o0] as int, -((i as i8) as int));
                            lemma_add_mod_shift(
                                add_mod(tape(k), m[o0] as int),
                                -((i as i8) as int),
                                -(i as int),
                            );
                        } else {
                            assert(m2[o0] == ((-(i as i8)) as i8));
                            lemma_add_mod_shift(tape(k), ((-(i as i8)) as i8) as int, -(i as int));
                        }
                    } else {
                        assert(t2(k) == t(k));
                        assert(t(k) == changed_cell(tape, at, m, k));
                    }
                }
            },
            _ => {
                assert forall|k: int| #[trigger] t2(k) == changed_cell(tape, at, m2, k) by {
                    assert(t2(k) == t(k));
                    assert(t(k) == changed_cell(tape, at, m, k));
                }
            },
        }
    }
}

/// The offsets listed as touched are exactly those with a recorded change.
proof fn lemma_touched_keys(b: Seq<SyntaxTreeInst>, n: int)
    requires
        0 <= n <= b.len(),
    ensures
        forall|o: i16| #[trigger] changes_upto(b, n).contains_key(o) <==> touched_upto(b, n).contains(o),
    decreases n,
{
    if n > 0 {
        lemma_touched_keys(b, n - 1);
        let t = touched_upto(b, n - 1);
        let m = changes_upto(b, n - 1);
        let o0 = shift_upto(b, n - 1);
        let is_change = match b[n - 1] {
            SyntaxTreeInst::Add(_) | SyntaxTreeInst::Sub(_) => true,
            _ => false,
        };
        if !is_change {
            assert(changes_upto(b, n) == m);
            assert(touched_upto(b, n) == t);
        } else if m.contains_key(o0) {
            assert(touched_upto(b, n) == t);
            assert(changes_upto(b, n).dom() =~= m.dom());
        } else {
            assert(touched_upto(b, n) == t.push(o0));
            assert(changes_upto(b, n).dom() =~= m.dom().insert(o0));
            assert forall|o: i16| #[trigger] changes_upto(b, n).contains_key(o) <==> touched_upto(
                b,
                n,
            ).contains(o) by {
                assert(t.push(o0)[t.len() as int] == o0);
                if t.contains(o) {
                    let j = choose|j: int| 0 <= j < t.len() && t[j] == o;
                    assert(t.push(o0)[j] == o);
                }
                if t.push(o0).contains(o) && o != o0 {
                    let j = choose|j: int| 0 <= j < t.len() + 1 && t.push(o0)[j] == o;
                    assert(t[j] == o);
                }
            }
        }
    }
}

/// Each entry of `relative_adds(keys, m)` adds `m` at a non-zero offset of
/// `keys` times `m` at 0, and each non-zero offset of `keys` has an entry.
proof fn lemma_relative_adds(keys: Seq<i16>, m: Map<i16, i8>)
    ensures
        forall|i: int|
            0 <= i < relative_adds(keys, m).len() ==> (#[trigger] relative_adds(keys, m)[i] matches SyntaxTreeInst::AddRelative(
                o,
                c,
                per,
            ) && o != 0 && keys.contains(o) && c == m[o] && per == m[0]),
        forall|o: i16|
            #[trigger] keys.contains(o) && o != 0 ==> exists|i: int|
                0 <= i < relative_adds(keys, m).len() && relative_adds(keys, m)[i]
                    == SyntaxTreeInst::AddRelative(o, m[o], m[0]),
    decreases keys.len(),
{
    if keys.len() > 0 {
        let front = keys.drop_last();
        let last = keys.last();
        lemma_relative_adds(front, m);
        let r0 = relative_adds(front, m);
        let r = relative_adds(keys, m);
        assert forall|o: i16| #[trigger] front.contains(o) implies keys.contains(o) by {
            let j = choose|j: int| 0 <= j < front.len() && front[j] == o;
            assert(keys[j] == o);
        }
        assert forall|i: int| 0 <= i < r.len() implies (#[trigger] r[i] matches SyntaxTreeInst::AddRelative(
            o,
            c,
            per,
        ) && o != 0 && keys.contains(o) && c == m[o] && per == m[0]) by {
            if i < r0.len() {
                assert(r[i] == r0[i]);
            } else {
                assert(r[i] == SyntaxTreeInst::AddRelative(last, m[last], m[0]));
                assert(keys[keys.len() - 1] == last);
            }
        }
        assert forall|o: i16| #[trigger] keys.contains(o) && o != 0 implies exists|i: int|
            0 <= i < r.len() && r[i] == SyntaxTreeInst::AddRelative(o, m[o], m[0]) by {
            let j = choose|j: int| 0 <= j < keys.len() && keys[j] == o;
            if j < front.len() {
                assert(front[j] == o);
                assert(front.contains(o));
                let i = choose|i: int|
                    0 <= i < r0.len() && r0[i] == SyntaxTreeInst::AddRelative(o, m[o], m[0]);
                assert(r[i] == r0[i]);
            } else {
                assert(r[r0.len() as int] == SyntaxTreeInst::AddRelative(o, m[o], m[0]));
            }
        }
    }
}

/// One pass of a loop body that the optimiser replaces leaves the tape index
/// where it started and changes exactly the cells that the replacement names:
/// each `AddRelative(o, c, per)` of the replacement adds `c` to the cell at
/// offset `o` and `per` to the loop's own cell, modulo 256, and no other
/// cell changes. (This holds where the body's positions stay within 16-bit
/// offsets of its start.)
pub proof fn law_replacement_matches_one_pass(
    b: Seq<SyntaxTreeInst>,
    tape: spec_fn(int) -> u8,
    at: int,
)
    requires
        loop_replacement(b).len() > 0,
        offsets_fit(b),
    ensures
        ({
            let (after, end) = run_linear(b, b.len() as int, tape, at);
            let r = loop_replacement(b);
            &&& end == at
            &&& r.len() > 0 && r.last() == SyntaxTreeInst::Clear
            &&& forall|i: int|
                0 <= i < r.len() - 1 ==> (#[trigger] r[i] matches SyntaxTreeInst::AddRelative(
                    o,
                    c,
                    per,
                ) && o != 0 && after(at + o) == add_mod(tape(at + o), c as int) && after(at)
                    == add_mod(tape(at), per as int))
            &&& forall|k: int|
                k != at && (forall|i: int|
                    0 <= i < r.len() - 1 ==> !(#[trigger] r[i] matches SyntaxTreeInst::AddRelative(
                        o,
                        _,
                        _,
                    ) && at + o == k)) ==> #[trigger] after(k) == tape(k)
        }),
{
    let n = b.len() as int;
    let m = changes_upto(b, n);
    let keys = touched_upto(b, n);
    let (after, end) = run_linear(b, n, tape, at);
    let r = loop_replacement(b);
    let adds = relative_adds(keys, m);
    lemma_run_linear(b, n, tape, at);
    lemma_touched_keys(b, n);
    lemma_relative_adds(keys, m);
    assert(r == adds.push(SyntaxTreeInst::Clear));
    assert(m.contains_key(0));
    assert(((at - at) as i16) == 0i16);
    assert(after(at) == changed_cell(tape, at, m, at));
    assert forall|i: int| 0 <= i < r.len() - 1 implies (#[trigger] r[i] matches SyntaxTreeInst::AddRelative(
        o,
        c,
        per,
    ) && o != 0 && after(at + o) == add_mod(tape(at + o), c as int) && after(at) == add_mod(
        tape(at),
        per as int,
    )) by {
        assert(r[i] == adds[i]);
        if let SyntaxTreeInst::AddRelative(o, c, per) = adds[i] {
            assert(keys.contains(o));
            assert(m.contains_key(o));
            assert(((at + o - at) as i16) == o);
            assert(after(at + o) == changed_cell(tape, at, m, at + o));
        }
    }
    assert forall|k: int|
        k != at && (forall|i: int|
            0 <= i < r.len() - 1 ==> !(#[trigger] r[i] matches SyntaxTreeInst::AddRelative(
                o,
                _,
                _,
            ) && at + o == k)) implies #[trigger] after(k) == tape(k) by {
        assert(after(k) == changed_cell(tape, at, m, k));
        if i16::MIN <= k - at <= i16::MAX && m.contains_key((k - at) as i16) {
            let o = (k - at) as i16;
            assert(o != 0);
            assert(keys.contains(o));
            let i = choose|i: int| 0 <= i < adds.len() && adds[i] == SyntaxTreeInst::AddRelative(o, m[o], m[0]);
            assert(r[i] == adds[i]);
        }
    }
}

/// `k` passes of a loop body, each started from position `at`.
pub open spec fn run_passes(b: Seq<SyntaxTreeInst>, k: nat, tape: spec_fn(int) -> u8, at: int) -> spec_fn(
    int,
) -> u8
    decreases k,
{
    if k == 0 {
        tape
    } else {
        run_linear(b, b.len() as int, run_passes(b, (k - 1) as nat, tape, at), at).0
    }
}

/// A cell holding `v` that changes by `per` on each pass first reaches zero
/// after `k` passes (all modulo 256).
pub open spec fn stops_after(v: u8, per: int, k: nat) -> bool {
    &&& add_mod(v, k * per) == 0
    &&& forall|j: nat| j < k ==> #[trigger] add_mod(v, j * per) != 0
}

/// The number of passes after which a cell holding `v` that changes by `per`
/// on each pass first reaches zero, where there is one.
pub open spec fn stop_count(v: u8, per: int) -> nat {
    choose|k: nat| stops_after(v, per, k)
}

/// Runs a replacement from position `at`: `AddRelative(o, c, per)` adds `c`
/// to the cell at `at + o` once for each pass that the current cell, changing
/// by `per`, takes to reach zero; `Clear` empties the current cell; all modulo
/// 256.
pub open spec fn apply_replacement(r: Seq<SyntaxTreeInst>, tape: spec_fn(int) -> u8, at: int) -> spec_fn(
    int,
) -> u8
    decreases r.len(),
{
    if r.len() == 0 {
        tape
    } else {
        let t = apply_replacement(r.drop_last(), tape, at);
        match r.last() {
            SyntaxTreeInst::AddRelative(o, c, per) => |k: int|
                if k == at + o {
                    add_mod(t(k), c * stop_count(t(at), per as int))
                } else {
                    t(k)
                },
            SyntaxTreeInst::Clear => |k: int| if k == at { 0u8 } else { t(k) },
            _ => t,
        }
    }
}

/// The value of cell `k` once every offset in `m` has received its change
/// `j` times.
pub open spec fn changed_times(tape: spec_fn(int) -> u8, at: int, m: Map<i16, i8>, j: int, k: int) -> u8 {
    if i16::MIN <= k - at <= i16::MAX && m.contains_key((k - at) as i16) {
        add_mod(tape(k), j * m[(k - at) as i16])
    } else {
        tape(k)
    }
}

proof fn lemma_passes(b: Seq<SyntaxTreeInst>, j: nat, tape: spec_fn(int) -> u8, at: int)
    requires
        offsets_fit(b),
    ensures
        forall|k: int| #[trigger] run_passes(b, j, tape, at)(k) == changed_times(
            tape,
            at,
            changes_upto(b, b.len() as int),
            j as int,
            k,
        ),
    decreases j,
{
    let m = changes_upto(b, b.len() as int);
    if j == 0 {
        assert forall|k: int| #[trigger] run_passes(b, j, tape, at)(k) == changed_times(tape, at, m, 0, k) by {
            if i16::MIN <= k - at <= i16::MAX && m.contains_key((k - at) as i16) {
                lemma_add_mod_shift(tape(k), 0, 0);
                assert((tape(k) as int + 0) % 256 == tape(k)) by {
                    lemma_small_mod(tape(k) as nat, 256);
                }
            }
        }
    } else {
        let prev = run_passes(b, (j - 1) as nat, tape, at);
        lemma_passes(b, (j - 1) as nat, tape, at);
        lemma_run_linear(b, b.len() as int, prev, at);
        assert forall|k: int| #[trigger] run_passes(b, j, tape, at)(k) == changed_times(tape, at, m, j as int, k) by {
            assert(run_passes(b, j, tape, at)(k) == changed_cell(prev, at, m, k));
            assert(prev(k) == changed_times(tape, at, m, j - 1, k));
            if i16::MIN <= k - at <= i16::MAX && m.contains_key((k - at) as i16) {
                let c = m[(k - at) as i16] as int;
                lemma_add_mod_twice(tape(k), (j - 1) * c, c);
                assert((j - 1) * c + c == j * c) by (nonlinear_arith);
            }
        }
    }
}

/// The offsets listed as touched are listed once each.
proof fn lemma_touched_no_dup(b: Seq<SyntaxTreeInst>, n: int)
    requires
        0 <= n <= b.len(),
    ensures
        touched_upto(b, n).no_duplicates(),
    decreases n,
{
    if n > 0 {
        lemma_touched_no_dup(b, n - 1);
        lemma_touched_keys(b, n - 1);
        let t = touched_upto(b, n - 1);
        let o0 = shift_upto(b, n - 1);
        if touched_upto(b, n) != t {
            assert(touched_upto(b, n) == t.push(o0));
            assert(!t.contains(o0));
            assert forall|i: int, j: int|
                0 <= i < t.len() + 1 && 0 <= j < t.len() + 1 && i != j implies t.push(o0)[i] != t.push(o0)[j] by {
                if i == t.len() {
                    assert(t[j] != o0);
                } else if j == t.len() {
                    assert(t[i] != o0);
                }
            }
        }
    }
}

/// Running the additions of `relative_adds(keys, m)` from `at`, for offsets
/// listed once each.
proof fn lemma_apply_adds(keys: Seq<i16>, m: Map<i16, i8>, tape: spec_fn(int) -> u8, at: int)
    requires
        keys.no_duplicates(),
    ensures
        apply_replacement(relative_adds(keys, m), tape, at)(at) == tape(at),
        forall|k: int| #[trigger] apply_replacement(relative_adds(keys, m), tape, at)(k) == if i16::MIN
            <= k - at <= i16::MAX && (k - at) as i16 != 0 && keys.contains((k - at) as i16) {
            add_mod(tape(k), m[(k - at) as i16] * stop_count(tape(at), m[0] as int))
        } else {
            tape(k)
        },
    decreases keys.len(),
{
    if keys.len() > 0 {
        let front = keys.drop_last();
        let o = keys.last();
        assert(front.no_duplicates()) by {
            assert forall|i: int, j: int| 0 <= i < front.len() && 0 <= j < front.len() && i != j implies front[i] != front[j] by {
                assert(front[i] == keys[i] && front[j] == keys[j]);
            }
        }
        lemma_apply_adds(front, m, tape, at);
        let r0 = relative_adds(front, m);
        let t0 = apply_replacement(r0, tape, at);
        assert forall|x: i16| #[trigger] keys.contains(x) <==> front.contains(x) || x == o by {
            if keys.contains(x) {
                let i = choose|i: int| 0 <= i < keys.len() && keys[i] == x;
                if i < front.len() {
                    assert(front[i] == x);
                }
            }
            if front.contains(x) {
                let i = choose|i: int| 0 <= i < front.len() && front[i] == x;
                assert(keys[i] == x);
            }
            assert(keys[keys.len() - 1] == o);
        }
        assert(!front.contains(o)) by {
            if front.contains(o) {
                let i = choose|i: int| 0 <= i < front.len() && front[i] == o;
                assert(keys[i] == keys[keys.len() - 1]);
            }
        }
        if o != 0 {
            let r = relative_adds(keys, m);
            assert(r == r0.push(SyntaxTreeInst::AddRelative(o, m[o], m[0])));
            assert(r.drop_last() =~= r0);
            assert(((at + o - at) as i16) == o);
        } else {
            assert(relative_adds(keys, m) =~= r0);
        }
    }
}

proof fn lemma_stop_unique(v: u8, per: int, k1: nat, k2: nat)
    requires
        stops_after(v, per, k1),
        stops_after(v, per, k2),
    ensures
        k1 == k2,
{
    if k1 < k2 {
        assert(add_mod(v, k1 * per) != 0);
    } else if k2 < k1 {
        assert(add_mod(v, k2 * per) != 0);
    }
}

/// A replaced loop started on a cell holding `v`, whose cell changes by `per`
/// on each pass and first reaches zero after `k` passes, stops after exactly
/// `k` passes, and the tape it leaves is the one its replacement gives: each
/// `AddRelative(o, c, per)` adds `c * k` to the cell at offset `o`, and
/// `Clear` empties the loop's own cell (all modulo 256). (This holds where the
/// body's positions stay within 16-bit offsets of its start.)
pub proof fn law_replaced_loop_runs_as_replacement(
    b: Seq<SyntaxTreeInst>,
    tape: spec_fn(int) -> u8,
    at: int,
    k: nat,
)
    requires
        loop_replacement(b).len() > 0,
        offsets_fit(b),
        stops_after(tape(at), changes_upto(b, b.len() as int)[0] as int, k),
    ensures
        run_linear(b, b.len() as int, tape, at).1 == at,
        forall|j: nat| j < k ==> #[trigger] run_passes(b, j, tape, at)(at) != 0,
        run_passes(b, k, tape, at)(at) == 0,
        forall|x: int| #[trigger] run_passes(b, k, tape, at)(x) == apply_replacement(
            loop_replacement(b),
            tape,
            at,
        )(x),
{
    let n = b.len() as int;
    let m = changes_upto(b, n);
    let keys = touched_upto(b, n);
    let v = tape(at);
    let per = m[0] as int;
    let r = loop_replacement(b);
    lemma_run_linear(b, n, tape, at);
    lemma_touched_keys(b, n);
    lemma_touched_no_dup(b, n);
    assert(((at - at) as i16) == 0i16);
    assert(m.contains_key(0));
    assert forall|j: nat| #[trigger] run_passes(b, j, tape, at)(at) == add_mod(v, j * per) by {
        lemma_passes(b, j, tape, at);
    }
    lemma_stop_unique(v, per, k, stop_count(v, per));
    assert(stop_count(v, per) == k);
    assert forall|j: nat| j < k implies #[trigger] run_passes(b, j, tape, at)(at) != 0 by {
        assert(add_mod(v, j * per) != 0);
    }
    lemma_apply_adds(keys, m, tape, at);
    let adds = relative_adds(keys, m);
    assert(r == adds.push(SyntaxTreeInst::Clear));
    assert(r.drop_last() =~= adds);
    lemma_passes(b, k, tape, at);
    assert forall|x: int| #[trigger] run_passes(b, k, tape, at)(x) == apply_replacement(r, tape, at)(x) by {
        if x != at && i16::MIN <= x - at <= i16::MAX && m.contains_key((x - at) as i16) {
            let c = m[(x - at) as i16] as int;
            assert((x - at) as i16 != 0) by {
                if (x - at) as i16 == 0 {
                    assert(x - at == 0);
                }
            }
            assert(k * c == c * k) by (nonlinear_arith);
        }
    }
}

proof fn lemma_change_kept(b: Seq<SyntaxTreeInst>, j: int, n: int)
    requires
        0 <= j < n <= b.len(),
        b[j] is Add || b[j] is Sub,
    ensures
        changes_upto(b, n).contains_key(shift_upto(b, j)),
    decreases n,
{
    if n > j + 1 {
        lemma_change_kept(b, j, n - 1);
    }
}

/// Every loop body that only moves and adds, ends where it started and adds
/// to or subtracts from its own cell is replaced: the replacement ends with
/// `Clear` and holds an `AddRelative` for every other offset that the body
/// adds to or subtracts from. (This holds where the body's positions stay
/// within 16-bit offsets of its start.)
pub proof fn law_replaceable_loops_are_replaced(b: Seq<SyntaxTreeInst>, j0: int)
    requires
        forall|i: int| 0 <= i < b.len() ==> is_linear(#[trigger] b[i]),
        offset_upto(b, b.len() as int) == 0,
        offsets_fit(b),
        0 <= j0 < b.len(),
        b[j0] is Add || b[j0] is Sub,
        offset_upto(b, j0) == 0,
    ensures
        loop_replacement(b).len() > 0,
        loop_replacement(b).last() == SyntaxTreeInst::Clear,
        forall|j: int|
            0 <= j < b.len() && (b[j] is Add || b[j] is Sub) && offset_upto(b, j) != 0 ==> exists|i: int|
                0 <= i < loop_replacement(b).len() - 1 && (#[trigger] loop_replacement(b)[i]
                    matches SyntaxTreeInst::AddRelative(o, _, _) && o == offset_upto(b, j)),
{
    let n = b.len() as int;
    let m = changes_upto(b, n);
    let keys = touched_upto(b, n);
    lemma_run_linear(b, n, |k: int| 0u8, 0);
    lemma_run_linear(b, j0, |k: int| 0u8, 0);
    lemma_change_kept(b, j0, n);
    assert(shift_upto(b, j0) == 0i16);
    assert(linear_prefix(b, n));
    assert(replaceable(b));
    assert(m.contains_key(0));
    lemma_touched_keys(b, n);
    lemma_relative_adds(keys, m);
    let adds = relative_adds(keys, m);
    assert(loop_replacement(b) == adds.push(SyntaxTreeInst::Clear));
    assert forall|j: int|
        0 <= j < b.len() && (b[j] is Add || b[j] is Sub) && offset_upto(b, j) != 0 implies exists|i: int|
        0 <= i < loop_replacement(b).len() - 1 && (#[trigger] loop_replacement(b)[i]
            matches SyntaxTreeInst::AddRelative(o, _, _) && o == offset_upto(b, j)) by {
        lemma_run_linear(b, j, |k: int| 0u8, 0);
        lemma_change_kept(b, j, n);
        let o = shift_upto(b, j);
        assert(keys.contains(o));
        let i = choose|i: int| 0 <= i < adds.len() && adds[i] == SyntaxTreeInst::AddRelative(o, m[o], m[0]);
        assert(loop_replacement(b)[i] == adds[i]);
    }
}

} // verus!
