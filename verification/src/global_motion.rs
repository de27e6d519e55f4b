//! The global motion of a vector field: the most frequent component of its
//! vectors, refined by the mean of the vectors near it, doubled for the
//! next finer pyramid level.
use vstd::prelude::*;
use crate::arith::{abs, tdiv};
use crate::analyse_search::Vec8;

verus! {

/// The horizontal (`horizontal`) or vertical component of `v`.
pub open spec fn component(v: Vec8, horizontal: bool) -> int {
    if horizontal { v.dx as int } else { v.dy as int }
}

/// How many of the first `k` vectors of `f` have component `value`.
pub open spec fn count_in(f: Seq<Vec8>, horizontal: bool, value: int, k: int) -> nat
    decreases k,
{
    if k <= 0 {
        0
    } else {
        count_in(f, horizontal, value, k - 1) + (if component(f[k - 1], horizontal) == value { 1nat } else { 0nat })
    }
}

/// How many vectors of `f` have component `value`.
pub open spec fn count_of(f: Seq<Vec8>, horizontal: bool, value: int) -> nat {
    count_in(f, horizontal, value, f.len() as int)
}

/// `m` is the mode of the components of `f`: no value is more frequent,
/// every smaller value is less frequent, and `m` occurs; 0 for an empty
/// field.
pub open spec fn is_mode(f: Seq<Vec8>, horizontal: bool, m: int) -> bool {
    if f.len() == 0 {
        m == 0
    } else {
        &&& count_of(f, horizontal, m) >= 1
        &&& forall|v: int| #[trigger] count_of(f, horizontal, v) <= count_of(f, horizontal, m)
        &&& forall|v: int| v < m ==> #[trigger] count_of(f, horizontal, v) < count_of(f, horizontal, m)
    }
}

/// The mode of the components of `f` (see `is_mode`).
pub open spec fn mode_of(f: Seq<Vec8>, horizontal: bool) -> int {
    choose|m: int| is_mode(f, horizontal, m)
}

/// The first `k` vectors of `f` lie within 5 of (`mx`, `my`) in both
/// components.
pub open spec fn is_near(v: Vec8, mx: int, my: int) -> bool {
    abs(v.dx - mx) < 6 && abs(v.dy - my) < 6
}

/// The sum of the chosen component over the near vectors among the first
/// `k` of `f`.
pub open spec fn near_sum(f: Seq<Vec8>, mx: int, my: int, horizontal: bool, k: int) -> int
    decreases k,
{
    if k <= 0 {
        0
    } else {
        near_sum(f, mx, my, horizontal, k - 1) + (if is_near(f[k - 1], mx, my) { component(f[k - 1], horizontal) } else { 0 })
    }
}

/// How many of the first `k` vectors of `f` are near.
pub open spec fn near_count(f: Seq<Vec8>, mx: int, my: int, k: int) -> int
    decreases k,
{
    if k <= 0 {
        0
    } else {
        near_count(f, mx, my, k - 1) + (if is_near(f[k - 1], mx, my) { 1int } else { 0int })
    }
}

/// Twice the mean of the near vectors, rounded toward zero, or twice the
/// modes when none is near.
pub open spec fn doubled_spec(f: Seq<Vec8>, mx: int, my: int) -> (int, int) {
    let n = near_count(f, mx, my, f.len() as int);
    if n == 0 {
        (2 * mx, 2 * my)
    } else {
        (
            tdiv(2 * near_sum(f, mx, my, true, f.len() as int), n),
            tdiv(2 * near_sum(f, mx, my, false, f.len() as int), n),
        )
    }
}

/// Two modes of the same components are the same value.
pub proof fn lemma_mode_unique(f: Seq<Vec8>, horizontal: bool, a: int, b: int)
    requires
        is_mode(f, horizontal, a),
        is_mode(f, horizontal, b),
    ensures
        a == b,
{
    if f.len() != 0 {
        if a < b {
            assert(count_of(f, horizontal, a) < count_of(f, horizontal, b));
            assert(count_of(f, horizontal, a) <= count_of(f, horizontal, b));
            assert(count_of(f, horizontal, b) <= count_of(f, horizontal, a));
        } else if b < a {
            assert(count_of(f, horizontal, b) < count_of(f, horizontal, a));
            assert(count_of(f, horizontal, a) <= count_of(f, horizontal, b));
        }
    }
}

/// A value outside the range of `i16` never occurs.
proof fn lemma_count_outside(f: Seq<Vec8>, horizontal: bool, value: int, k: int)
    requires
        value < -0x8000 || value > 0x7fff,
    ensures
        count_in(f, horizontal, value, k) == 0,
    decreases k,
{
    if k > 0 {
        lemma_count_outside(f, horizontal, value, k - 1);
    }
}

/// A value that occurs among the first `j` vectors occurs among the first
/// `k >= j`.
proof fn lemma_count_grows(f: Seq<Vec8>, horizontal: bool, value: int, j: int, k: int)
    requires
        j <= k,
    ensures
        count_in(f, horizontal, value, j) <= count_in(f, horizontal, value, k),
    decreases k - j,
{
    if k > j {
        lemma_count_grows(f, horizontal, value, j, k - 1);
    }
}

/// The near vectors of the first `k` have components within `i16`.
proof fn lemma_near_bounds(f: Seq<Vec8>, mx: int, my: int, horizontal: bool, k: int)
    requires
        0 <= k,
    ensures
        0 <= near_count(f, mx, my, k) <= k,
        -0x8000 * near_count(f, mx, my, k) <= near_sum(f, mx, my, horizontal, k) <= 0x7fff * near_count(f, mx, my, k),
    decreases k,
{
    if k > 0 {
        lemma_near_bounds(f, mx, my, horizontal, k - 1);
    }
}

/// The mode of the horizontal (`horizontal`) or vertical components of
/// `field`: the most frequent value, the smallest of equally frequent
/// ones; 0 for an empty field.
pub fn field_mode(field: &[Vec8], horizontal: bool) -> (m: i32)
    ensures
        is_mode(field@, horizontal, m as int),
        m as int == mode_of(field@, horizontal),
{
    let n = field.len();
    let mut counts: Vec<usize> = vec![0usize; 65536];
    proof {
        assert(counts@ =~= Seq::new(65536nat, |i: int| 0usize));
    }
    let mut i: usize = 0;
    while i < n
        invariant
            0 <= i <= n,
            n == field@.len(),
            counts@.len() == 65536,
            forall|v: int| -0x8000 <= v <= 0x7fff ==> #[trigger] counts@[v + 0x8000] == count_in(field@, horizontal, v, i as int),
        decreases n - i,
    {
        let c: i32 = if horizontal { field[i].dx as i32 } else { field[i].dy as i32 };
        let slot: usize = (c + 0x8000) as usize;
        proof {
            assert(counts@[c + 0x8000] == count_in(field@, horizontal, c as int, i as int));
            assert(count_in(field@, horizontal, c as int, i as int) <= i) by {
                lemma_count_bound(field@, horizontal, c as int, i as int);
            }
        }
        let old_count = counts[slot];
        let ghost before = counts@;
        counts.set(slot, old_count + 1);
        proof {
            assert forall|v: int| -0x8000 <= v <= 0x7fff implies #[trigger] counts@[v + 0x8000] == count_in(field@, horizontal, v, i + 1) by {
                if v != c as int {
                    assert(counts@[v + 0x8000] == before[v + 0x8000]);
                }
            }
        }
        i = i + 1;
    }
    let mut best: i32 = 0;
    let mut best_count: usize = 0;
    let mut v: i32 = -0x8000;
    while v <= 0x7fff
        invariant
            -0x8000 <= v <= 0x8000,
            n == field@.len(),
            counts@.len() == 65536,
            forall|w: int| -0x8000 <= w <= 0x7fff ==> #[trigger] counts@[w + 0x8000] == count_of(field@, horizontal, w),
            forall|w: int| -0x8000 <= w < v ==> #[trigger] count_of(field@, horizontal, w) <= best_count,
            best_count > 0 ==> -0x8000 <= best < v && count_of(field@, horizontal, best as int) == best_count,
            best_count > 0 ==> forall|w: int| w < best ==> #[trigger] count_of(field@, horizontal, w) < best_count,
            best_count == 0 ==> best == 0,
        decreases 0x8000 - v,
    {
        let c = counts[(v + 0x8000) as usize];
        if c > best_count {
            proof {
                assert forall|w: int| w < v implies #[trigger] count_of(field@, horizontal, w) < c by {
                    if w < -0x8000 {
                        lemma_count_outside(field@, horizontal, w, n as int);
                    }
                }
            }
            best = v;
            best_count = c;
        }
        v = v + 1;
    }
    proof {
        assert forall|w: int| #[trigger] count_of(field@, horizontal, w) <= best_count by {
            if w < -0x8000 || w > 0x7fff {
                lemma_count_outside(field@, horizontal, w, n as int);
            }
        }
        if n > 0 {
            let first = component(field@[0], horizontal);
            lemma_count_grows(field@, horizontal, first, 1, n as int);
            assert(count_in(field@, horizontal, first, 0) == 0);
            assert(count_of(field@, horizontal, first) >= 1);
            assert(best_count >= 1);
        } else {
            assert(best_count == 0) by {
                assert(count_of(field@, horizontal, best as int) == 0);
            }
        }
        assert(is_mode(field@, horizontal, best as int));
        lemma_mode_unique(field@, horizontal, best as int, mode_of(field@, horizontal));
    }
    best
}

/// At most `k` of the first `k` vectors have a given component.
proof fn lemma_count_bound(f: Seq<Vec8>, horizontal: bool, value: int, k: int)
    requires
        0 <= k,
    ensures
        count_in(f, horizontal, value, k) <= k,
    decreases k,
{
    if k > 0 {
        lemma_count_bound(f, horizontal, value, k - 1);
    }
}

/// The global motion of `field` for the next finer level: twice the mean
/// of the vectors within 5 of the modes of both components (rounded
/// toward zero), or twice the modes when none is that near.
pub fn exact_global_doubled(field: &[Vec8]) -> (r: (i32, i32))
    requires
        field@.len() <= 0x1_0000_0000,
    ensures
        (r.0 as int, r.1 as int) == doubled_spec(field@, mode_of(field@, true), mode_of(field@, false)),
{
    let mx = field_mode(field, true);
    let my = field_mode(field, false);
    let n = field.len();
    proof {
        if n > 0 {
            if mx < -0x8000 || mx > 0x7fff {
                lemma_count_outside(field@, true, mx as int, n as int);
            }
            if my < -0x8000 || my > 0x7fff {
                lemma_count_outside(field@, false, my as int, n as int);
            }
        }
    }
    let mut sx: i64 = 0;
    let mut sy: i64 = 0;
    let mut count: i64 = 0;
    let mut i: usize = 0;
    while i < n
        invariant
            0 <= i <= n,
            n == field@.len(),
            n <= 0x1_0000_0000,
            -0x8000 <= mx <= 0x7fff,
            -0x8000 <= my <= 0x7fff,
            count == near_count(field@, mx as int, my as int, i as int),
            sx == near_sum(field@, mx as int, my as int, true, i as int),
            sy == near_sum(field@, mx as int, my as int, false, i as int),
        decreases n - i,
    {
        proof {
            lemma_near_bounds(field@, mx as int, my as int, true, i as int);
            lemma_near_bounds(field@, mx as int, my as int, false, i as int);
        }
        let v = field[i];
        let ax = v.dx as i32 - mx;
        let ay = v.dy as i32 - my;
        let near_x = if ax < 0 { -ax < 6 } else { ax < 6 };
        let near_y = if ay < 0 { -ay < 6 } else { ay < 6 };
        if near_x && near_y {
            sx = sx + v.dx as i64;
            sy = sy + v.dy as i64;
            count = count + 1;
        }
        i = i + 1;
    }
    proof {
        lemma_near_bounds(field@, mx as int, my as int, true, n as int);
        lemma_near_bounds(field@, mx as int, my as int, false, n as int);
    }
    if count == 0 {
        (2 * mx, 2 * my)
    } else {
        let qx = crate::arith::div_i64(2 * sx, count);
        let qy = crate::arith::div_i64(2 * sy, count);
        proof {
            lemma_tdiv_mean(2 * sx as int, count as int);
            lemma_tdiv_mean(2 * sy as int, count as int);
        }
        (qx as i32, qy as i32)
    }
}

/// A sum of `n` values within `i16`, doubled and divided by `n`, stays
/// within twice the `i16` range.
proof fn lemma_tdiv_mean(s: int, n: int)
    requires
        n > 0,
        -0x10000 * n <= s <= 0xfffe * n,
    ensures
        -0x10000 <= tdiv(s, n) <= 0xfffe,
{
    if s >= 0 {
        assert(s / n <= 0xfffe) by (nonlinear_arith)
            requires n > 0, 0 <= s <= 0xfffe * n;
    } else {
        assert(-s / n <= 0x10000) by (nonlinear_arith)
            requires n > 0, 0 < -s <= 0x10000 * n;
    }
}

} // verus!
