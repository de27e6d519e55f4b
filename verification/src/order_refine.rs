//! The search order of a finer pyramid level, refined from the order of the
//! coarser one: each coarse block hands on its four children, those on the
//! main path first, then the rest; blocks that no coarse block reaches
//! follow in the order of a first search.
use vstd::prelude::*;
use crate::search_order::{initial_search_order, initial_order_spec, snake_row, snake_rows, top_bottom, left_right};

verus! {

/// Whether `c` is a cell of a `gw` x `gh` grid.
pub open spec fn in_grid(c: (i32, i32), gw: int, gh: int) -> bool {
    0 <= c.0 < gw && 0 <= c.1 < gh
}

/// The row-major index of `c` in a grid `gw` wide.
pub open spec fn cell_index(c: (i32, i32), gw: int) -> int {
    c.1 * gw + c.0
}

/// Child `k` (0 to 3) of coarse block (`x`, `y`): top left, top right,
/// bottom right, bottom left.
pub open spec fn child_of(x: int, y: int, k: int) -> (int, int) {
    if k == 0 {
        (2 * x, 2 * y)
    } else if k == 1 {
        (2 * x + 1, 2 * y)
    } else if k == 2 {
        (2 * x + 1, 2 * y + 1)
    } else {
        (2 * x, 2 * y + 1)
    }
}

/// Whether child `k` of (`x`, `y`) lies on the main path: away from the
/// border of the grid on the sides the child faces.
pub open spec fn on_main_path(x: int, y: int, k: int, gw: int, gh: int) -> bool {
    let c = child_of(x, y, k);
    if k == 0 {
        x > 0 && y > 0
    } else if k == 1 {
        c.0 < gw - 1 && y > 0
    } else if k == 2 {
        c.0 < gw - 1 && c.1 < gh - 1
    } else {
        x > 0 && c.1 < gh - 1
    }
}

/// The main-path and the other cells placed so far.
pub type OrderParts = (Seq<(i32, i32)>, Seq<(i32, i32)>);

/// Places child `k` of (`x`, `y`): skipped outside the grid or when
/// already placed, else appended to its part.
pub open spec fn place(parts: OrderParts, x: int, y: int, k: int, gw: int, gh: int) -> OrderParts {
    let c = child_of(x, y, k);
    let cell = (c.0 as i32, c.1 as i32);
    if c.0 < 0 || c.1 < 0 || c.0 >= gw || c.1 >= gh || parts.0.contains(cell) || parts.1.contains(cell) {
        parts
    } else if on_main_path(x, y, k, gw, gh) {
        (parts.0.push(cell), parts.1)
    } else {
        (parts.0, parts.1.push(cell))
    }
}

/// Places the first `k` children of (`x`, `y`).
pub open spec fn place_children(parts: OrderParts, x: int, y: int, k: int, gw: int, gh: int) -> OrderParts
    decreases k,
{
    if k <= 0 {
        parts
    } else {
        place(place_children(parts, x, y, k - 1, gw, gh), x, y, k - 1, gw, gh)
    }
}

/// Places the children of the first `n` coarse blocks, in order.
pub open spec fn place_all(coarse: Seq<(i32, i32)>, n: int, gw: int, gh: int) -> OrderParts
    decreases n,
{
    if n <= 0 {
        (Seq::empty(), Seq::empty())
    } else {
        place_children(place_all(coarse, n - 1, gw, gh), coarse[n - 1].0 as int, coarse[n - 1].1 as int, 4, gw, gh)
    }
}

/// `base` followed by those of the first `n` cells of `rest` not yet in it.
pub open spec fn append_unseen(base: Seq<(i32, i32)>, rest: Seq<(i32, i32)>, n: int) -> Seq<(i32, i32)>
    decreases n,
{
    if n <= 0 {
        base
    } else {
        let acc = append_unseen(base, rest, n - 1);
        if acc.contains(rest[n - 1]) { acc } else { acc.push(rest[n - 1]) }
    }
}

/// The refined order of a `gw` x `gh` grid from the `coarse` order: the
/// main-path children, the other children, then the unreached blocks in
/// the order of a first search.
pub open spec fn refine_order_spec(coarse: Seq<(i32, i32)>, gw: int, gh: int) -> Seq<(i32, i32)> {
    let parts = place_all(coarse, coarse.len() as int, gw, gh);
    let first = initial_order_spec(gw, gh);
    append_unseen(parts.0 + parts.1, first, first.len() as int)
}

/// Whether the coordinates of `coarse` can be doubled, and one added,
/// within `i32`.
pub open spec fn coarse_ok(coarse: Seq<(i32, i32)>) -> bool {
    forall|i: int| 0 <= i < coarse.len() ==> -0x4000_0000 <= #[trigger] coarse[i].0 <= 0x3fff_ffff
        && -0x4000_0000 <= coarse[i].1 <= 0x3fff_ffff
}

/// A cell of a grid whose size fits in `i32` has its index in range.
pub proof fn lemma_cell_fits(a: int, b: int, w: int, h: int)
    requires
        0 <= a < w,
        0 <= b < h,
        w * h <= i32::MAX,
    ensures
        0 <= b * w <= b * w + a < w * h <= i32::MAX,
{
    assert(0 <= b * w <= b * w + a < w * h) by (nonlinear_arith)
        requires
            0 <= a < w,
            0 <= b < h,
    ;
}

/// Different cells of a grid have different indices.
proof fn lemma_index_injective(a: (i32, i32), b: (i32, i32), gw: int, gh: int)
    requires
        in_grid(a, gw, gh),
        in_grid(b, gw, gh),
        a != b,
        gw <= i32::MAX,
        gh <= i32::MAX,
    ensures
        cell_index(a, gw) != cell_index(b, gw),
{
    let (a0, a1, b0, b1) = (a.0 as int, a.1 as int, b.0 as int, b.1 as int);
    if a1 < b1 {
        assert(a1 * gw + a0 < b1 * gw + b0) by (nonlinear_arith)
            requires 0 <= a0 < gw, 0 <= b0, a1 < b1, 0 <= a1;
    } else if b1 < a1 {
        assert(b1 * gw + b0 < a1 * gw + a0) by (nonlinear_arith)
            requires 0 <= b0 < gw, 0 <= a0, b1 < a1, 0 <= b1;
    } else {
        assert(a0 != b0);
    }
}

/// The cells of the snake rows lie in the grid.
proof fn lemma_snake_in_grid(gw: int, gh: int, k: int)
    requires
        1 <= gw,
        k <= gh - 1,
        gw <= i32::MAX,
        gh <= i32::MAX,
    ensures
        forall|i: int| 0 <= i < snake_rows(gw, k).len() ==> in_grid(#[trigger] snake_rows(gw, k)[i], gw, gh),
    decreases k,
{
    if k > 1 {
        lemma_snake_in_grid(gw, gh, k - 1);
        let prev = snake_rows(gw, k - 1);
        let row = snake_row(gw, k - 1);
        assert forall|i: int| 0 <= i < snake_rows(gw, k).len() implies in_grid(#[trigger] snake_rows(gw, k)[i], gw, gh) by {
            if i >= prev.len() {
                assert(snake_rows(gw, k)[i] == row[i - prev.len()]);
            } else {
                assert(snake_rows(gw, k)[i] == prev[i]);
            }
        }
    }
}

/// The cells of the top and bottom rows lie in the grid.
proof fn lemma_top_bottom_in_grid(gw: int, gh: int, k: int)
    requires
        1 <= gh,
        k <= gw,
        gw <= i32::MAX,
        gh <= i32::MAX,
    ensures
        forall|i: int| 0 <= i < top_bottom(gh, k).len() ==> in_grid(#[trigger] top_bottom(gh, k)[i], gw, gh),
    decreases k,
{
    if k > 0 {
        lemma_top_bottom_in_grid(gw, gh, k - 1);
        let prev = top_bottom(gh, k - 1);
        assert forall|i: int| 0 <= i < top_bottom(gh, k).len() implies in_grid(#[trigger] top_bottom(gh, k)[i], gw, gh) by {
            if i < prev.len() {
                assert(top_bottom(gh, k)[i] == prev[i]);
            }
        }
    }
}

/// The cells of the left and right columns lie in the grid.
proof fn lemma_left_right_in_grid(gw: int, gh: int, k: int)
    requires
        1 <= gw,
        k <= gh - 1,
        gw <= i32::MAX,
        gh <= i32::MAX,
    ensures
        forall|i: int| 0 <= i < left_right(gw, k).len() ==> in_grid(#[trigger] left_right(gw, k)[i], gw, gh),
    decreases k,
{
    if k > 1 {
        lemma_left_right_in_grid(gw, gh, k - 1);
        let prev = left_right(gw, k - 1);
        assert forall|i: int| 0 <= i < left_right(gw, k).len() implies in_grid(#[trigger] left_right(gw, k)[i], gw, gh) by {
            if i < prev.len() {
                assert(left_right(gw, k)[i] == prev[i]);
            }
        }
    }
}

/// Every cell of a first-search order lies in its grid.
pub proof fn lemma_initial_in_grid(gw: int, gh: int)
    requires
        1 <= gw && 1 <= gh && gw * gh <= i32::MAX,
    ensures
        forall|i: int| 0 <= i < initial_order_spec(gw, gh).len() ==> in_grid(#[trigger] initial_order_spec(gw, gh)[i], gw, gh),
{
    assert(gw <= gw * gh && gh <= gw * gh) by (nonlinear_arith)
        requires
            1 <= gw,
            1 <= gh,
    ;
    let a = snake_rows(gw, gh - 1);
    let b = top_bottom(gh, gw);
    let c = left_right(gw, gh - 1);
    lemma_snake_in_grid(gw, gh, gh - 1);
    lemma_top_bottom_in_grid(gw, gh, gw);
    lemma_left_right_in_grid(gw, gh, gh - 1);
    assert forall|i: int| 0 <= i < initial_order_spec(gw, gh).len() implies in_grid(#[trigger] initial_order_spec(gw, gh)[i], gw, gh) by {
        let s = initial_order_spec(gw, gh);
        assert(s == a + b + c);
        if i < a.len() {
            assert(s[i] == a[i]);
        } else if i < a.len() + b.len() {
            assert(s[i] == b[i - a.len()]);
        } else {
            assert(s[i] == c[i - a.len() - b.len()]);
        }
    }
}

/// The bookkeeping of the exec loops: `placed` lies in the grid, and
/// `seen` marks exactly its cells.
pub open spec fn seen_matches(seen: Seq<bool>, placed: Seq<(i32, i32)>, gw: int, gh: int) -> bool {
    &&& seen.len() == gw * gh
    &&& forall|i: int| 0 <= i < placed.len() ==> in_grid(#[trigger] placed[i], gw, gh)
    &&& forall|c: (i32, i32)| #![trigger placed.contains(c)] #![trigger seen[cell_index(c, gw)]]
        in_grid(c, gw, gh) ==> (seen[cell_index(c, gw)] <==> placed.contains(c))
}

/// Adding a new cell of the grid to `placed` and marking it keeps the
/// bookkeeping.
proof fn lemma_mark(seen: Seq<bool>, placed: Seq<(i32, i32)>, c0: (i32, i32), gw: int, gh: int)
    requires
        1 <= gw && 1 <= gh && gw * gh <= i32::MAX,
        seen_matches(seen, placed, gw, gh),
        in_grid(c0, gw, gh),
        !placed.contains(c0),
    ensures
        0 <= cell_index(c0, gw) < gw * gh,
        seen_matches(seen.update(cell_index(c0, gw), true), placed.push(c0), gw, gh),
{
    assert(gw <= gw * gh && gh <= gw * gh) by (nonlinear_arith)
        requires
            1 <= gw,
            1 <= gh,
    ;
    lemma_cell_fits(c0.0 as int, c0.1 as int, gw, gh);
    let s2 = seen.update(cell_index(c0, gw), true);
    let p2 = placed.push(c0);
    assert forall|i: int| 0 <= i < p2.len() implies in_grid(#[trigger] p2[i], gw, gh) by {
        if i < placed.len() {
            assert(p2[i] == placed[i]);
        }
    }
    assert forall|c: (i32, i32)| in_grid(c, gw, gh) implies (s2[cell_index(c, gw)] <==> p2.contains(c)) by {
        lemma_cell_fits(c.0 as int, c.1 as int, gw, gh);
        if c == c0 {
            assert(p2[placed.len() as int] == c0);
        } else {
            lemma_index_injective(c, c0, gw, gh);
            if placed.contains(c) {
                let j = choose|j: int| 0 <= j < placed.len() && placed[j] == c;
                assert(p2[j] == c);
            }
            if p2.contains(c) {
                let j = choose|j: int| 0 <= j < p2.len() && p2[j] == c;
                assert(placed[j] == c);
            }
        }
    }
}

/// `a + b` contains a cell exactly when `a` or `b` does.
proof fn lemma_concat_contains(a: Seq<(i32, i32)>, b: Seq<(i32, i32)>, c: (i32, i32))
    ensures
        (a + b).contains(c) <==> (a.contains(c) || b.contains(c)),
{
    if a.contains(c) {
        let j = choose|j: int| 0 <= j < a.len() && a[j] == c;
        assert((a + b)[j] == c);
    }
    if b.contains(c) {
        let j = choose|j: int| 0 <= j < b.len() && b[j] == c;
        assert((a + b)[a.len() + j] == c);
    }
    if (a + b).contains(c) {
        let j = choose|j: int| 0 <= j < (a + b).len() && (a + b)[j] == c;
        if j < a.len() {
            assert(a[j] == c);
        } else {
            assert(b[j - a.len()] == c);
        }
    }
}

/// Places child `k` of (`x`, `y`) into `interior` or `boundary`, keeping
/// `seen` in step (see `place`).
fn place_child(
    interior: &mut Vec<(i32, i32)>,
    boundary: &mut Vec<(i32, i32)>,
    seen: &mut Vec<bool>,
    x: i32,
    y: i32,
    k: i32,
    gw: i32,
    gh: i32,
)
    requires
        1 <= gw && 1 <= gh && gw * gh <= i32::MAX,
        0 <= k < 4,
        -0x4000_0000 <= x <= 0x3fff_ffff,
        -0x4000_0000 <= y <= 0x3fff_ffff,
        seen_matches(old(seen)@, old(interior)@ + old(boundary)@, gw as int, gh as int),
    ensures
        (final(interior)@, final(boundary)@) == place((old(interior)@, old(boundary)@), x as int, y as int, k as int, gw as int, gh as int),
        seen_matches(final(seen)@, final(interior)@ + final(boundary)@, gw as int, gh as int),
{
    let cx: i32 = if k == 0 || k == 3 { 2 * x } else { 2 * x + 1 };
    let cy: i32 = if k == 0 || k == 1 { 2 * y } else { 2 * y + 1 };
    assert((cx as int, cy as int) == child_of(x as int, y as int, k as int));
    if cx < 0 || cy < 0 || cx >= gw || cy >= gh {
        return;
    }
    let cell = (cx, cy);
    let ghost placed = interior@ + boundary@;
    proof {
        lemma_cell_fits(cx as int, cy as int, gw as int, gh as int);
        lemma_concat_contains(interior@, boundary@, cell);
    }
    let idx = (cy * gw + cx) as usize;
    if seen[idx] {
        assert(placed.contains(cell));
        return;
    }
    let main = if k == 0 {
        x > 0 && y > 0
    } else if k == 1 {
        cx < gw - 1 && y > 0
    } else if k == 2 {
        cx < gw - 1 && cy < gh - 1
    } else {
        x > 0 && cy < gh - 1
    };
    proof {
        lemma_mark(seen@, placed, cell, gw as int, gh as int);
    }
    seen.set(idx, true);
    if main {
        interior.push(cell);
        proof {
            let p2 = interior@ + boundary@;
            assert forall|c: (i32, i32)| #[trigger] p2.contains(c) <==> placed.push(cell).contains(c) by {
                lemma_concat_contains(interior@, boundary@, c);
                lemma_concat_contains(old(interior)@, old(boundary)@, c);
                lemma_push_contains(placed, cell, c);
                lemma_push_contains(old(interior)@, cell, c);
            }
            lemma_matches_same_cells(seen@, placed.push(cell), p2, gw as int, gh as int);
        }
    } else {
        boundary.push(cell);
        assert(interior@ + boundary@ =~= placed.push(cell));
    }
}

/// A pushed sequence contains its old cells and the new one.
proof fn lemma_push_contains(s: Seq<(i32, i32)>, x: (i32, i32), c: (i32, i32))
    ensures
        s.push(x).contains(c) <==> (s.contains(c) || c == x),
{
    if s.contains(c) {
        let j = choose|j: int| 0 <= j < s.len() && s[j] == c;
        assert(s.push(x)[j] == c);
    }
    if c == x {
        assert(s.push(x)[s.len() as int] == c);
    }
    if s.push(x).contains(c) {
        let j = choose|j: int| 0 <= j < s.push(x).len() && s.push(x)[j] == c;
        if j < s.len() {
            assert(s[j] == c);
        }
    }
}

/// The bookkeeping holds of any sequence with the same cells, in the grid.
proof fn lemma_matches_same_cells(seen: Seq<bool>, a: Seq<(i32, i32)>, b: Seq<(i32, i32)>, gw: int, gh: int)
    requires
        seen_matches(seen, a, gw, gh),
        forall|c: (i32, i32)| #[trigger] b.contains(c) <==> a.contains(c),
    ensures
        seen_matches(seen, b, gw, gh),
{
    assert forall|i: int| 0 <= i < b.len() implies in_grid(#[trigger] b[i], gw, gh) by {
        assert(b.contains(b[i]));
        let j = choose|j: int| 0 <= j < a.len() && a[j] == b[i];
    }
}

/// The search order of a `gw` x `gh` level refined from the `coarse` order
/// of the level above (see `refine_order_spec`): every block of the grid
/// once, the children of the coarse blocks first.
pub fn refine_search_order(coarse: &[(i32, i32)], gw: i32, gh: i32) -> (r: Vec<(i32, i32)>)
    requires
        1 <= gw && 1 <= gh && gw * gh <= i32::MAX,
        coarse_ok(coarse@),
    ensures
        r@ == refine_order_spec(coarse@, gw as int, gh as int),
        no_dup(r@),
        all_in_grid(r@, gw as int, gh as int),
        forall|c: (i32, i32)| in_grid(c, gw as int, gh as int) ==> #[trigger] r@.contains(c),
        children_placed(coarse@, gw as int, gh as int) <= r@.len(),
        prefix_only_children(r@, coarse@, children_placed(coarse@, gw as int, gh as int)),
        children_in_prefix(r@, coarse@, children_placed(coarse@, gw as int, gh as int), gw as int, gh as int),
{
    let mut interior: Vec<(i32, i32)> = Vec::new();
    let mut boundary: Vec<(i32, i32)> = Vec::new();
    assert(1 <= gw * gh <= i32::MAX) by (nonlinear_arith)
        requires 1 <= gw, 1 <= gh, gw * gh <= i32::MAX;
    let total = (gw * gh) as usize;
    let mut seen: Vec<bool> = vec![false; total];
    proof {
        assert(seen@ =~= Seq::new(total as nat, |q: int| false));
        assert forall|c: (i32, i32)| in_grid(c, gw as int, gh as int) implies !seen@[cell_index(c, gw as int)] by {
            lemma_cell_fits(c.0 as int, c.1 as int, gw as int, gh as int);
        }
        assert(interior@ + boundary@ =~= Seq::<(i32, i32)>::empty());
    }
    let n = coarse.len();
    let mut i: usize = 0;
    while i < n
        invariant
            1 <= gw && 1 <= gh && gw * gh <= i32::MAX,
            0 <= i <= n,
            n == coarse@.len(),
            coarse_ok(coarse@),
            (interior@, boundary@) == place_all(coarse@, i as int, gw as int, gh as int),
            seen_matches(seen@, interior@ + boundary@, gw as int, gh as int),
        decreases n - i,
    {
        let (x, y) = coarse[i];
        assert(-0x4000_0000 <= coarse@[i as int].0 <= 0x3fff_ffff);
        let mut k: i32 = 0;
        while k < 4
            invariant
                1 <= gw && 1 <= gh && gw * gh <= i32::MAX,
                0 <= k <= 4,
                -0x4000_0000 <= x <= 0x3fff_ffff,
                -0x4000_0000 <= y <= 0x3fff_ffff,
                (interior@, boundary@) == place_children(place_all(coarse@, i as int, gw as int, gh as int), x as int, y as int, k as int, gw as int, gh as int),
                seen_matches(seen@, interior@ + boundary@, gw as int, gh as int),
            decreases 4 - k,
        {
            place_child(&mut interior, &mut boundary, &mut seen, x, y, k, gw, gh);
            k = k + 1;
        }
        i = i + 1;
    }
    let ghost parts = (interior@, boundary@);
    let mut j: usize = 0;
    let nb = boundary.len();
    let ghost base = interior@;
    while j < nb
        invariant
            0 <= j <= nb,
            nb == boundary@.len(),
            interior@ == base + boundary@.take(j as int),
            base == parts.0,
            boundary@ == parts.1,
            1 <= gw && 1 <= gh && gw * gh <= i32::MAX,
            seen_matches(seen@, parts.0 + parts.1, gw as int, gh as int),
        decreases nb - j,
    {
        interior.push(boundary[j]);
        assert(interior@ =~= base + boundary@.take(j + 1));
        j = j + 1;
    }
    assert(boundary@.take(nb as int) =~= boundary@);
    assert(interior@ == parts.0 + parts.1);
    let first = initial_search_order(gw, gh);
    proof {
        lemma_initial_in_grid(gw as int, gh as int);
    }
    let m = first.len();
    let mut t: usize = 0;
    while t < m
        invariant
            1 <= gw && 1 <= gh && gw * gh <= i32::MAX,
            0 <= t <= m,
            m == first@.len(),
            first@ == initial_order_spec(gw as int, gh as int),
            forall|q: int| 0 <= q < first@.len() ==> in_grid(#[trigger] first@[q], gw as int, gh as int),
            interior@ == append_unseen(parts.0 + parts.1, first@, t as int),
            seen_matches(seen@, interior@, gw as int, gh as int),
        decreases m - t,
    {
        let cell = first[t];
        assert(in_grid(first@[t as int], gw as int, gh as int));
        proof {
            lemma_cell_fits(cell.0 as int, cell.1 as int, gw as int, gh as int);
        }
        let idx = (cell.1 * gw + cell.0) as usize;
        if !seen[idx] {
            proof {
                lemma_mark(seen@, interior@, cell, gw as int, gh as int);
            }
            seen.set(idx, true);
            interior.push(cell);
        }
        t = t + 1;
    }
    proof {
        lemma_refine_order_permutes(coarse@, gw as int, gh as int);
        lemma_children_first(coarse@, gw as int, gh as int);
    }
    interior
}

/// No cell of `s` occurs twice.
pub open spec fn no_dup(s: Seq<(i32, i32)>) -> bool {
    forall|i: int, j: int| 0 <= i < j < s.len() ==> #[trigger] s[i] != #[trigger] s[j]
}

/// Every cell of `s` lies in the grid.
pub open spec fn all_in_grid(s: Seq<(i32, i32)>, gw: int, gh: int) -> bool {
    forall|i: int| 0 <= i < s.len() ==> in_grid(#[trigger] s[i], gw, gh)
}

/// Appending a new cell keeps a sequence free of repeats.
proof fn lemma_push_no_dup(s: Seq<(i32, i32)>, x: (i32, i32))
    requires
        no_dup(s),
        !s.contains(x),
    ensures
        no_dup(s.push(x)),
{
    let t = s.push(x);
    assert forall|i: int, j: int| 0 <= i < j < t.len() implies #[trigger] t[i] != #[trigger] t[j] by {
        if j == s.len() {
            assert(t[i] == s[i]);
        } else {
            assert(t[i] == s[i] && t[j] == s[j]);
        }
    }
}

/// Inserting a new cell at the end of the first part keeps the two parts
/// free of repeats.
proof fn lemma_push_front_no_dup(a: Seq<(i32, i32)>, b: Seq<(i32, i32)>, x: (i32, i32))
    requires
        no_dup(a + b),
        !(a + b).contains(x),
    ensures
        no_dup(a.push(x) + b),
{
    let s = a + b;
    let t = a.push(x) + b;
    let n = a.len() as int;
    assert forall|i: int, j: int| 0 <= i < j < t.len() implies #[trigger] t[i] != #[trigger] t[j] by {
        let ii = if i < n { i } else { i - 1 };
        let jj = if j < n { j } else { j - 1 };
        if i == n {
            assert(t[j] == s[jj]);
            assert(s.contains(s[jj]));
        } else if j == n {
            assert(t[i] == s[ii]);
            assert(s.contains(s[ii]));
        } else {
            assert(t[i] == s[ii] && t[j] == s[jj]);
        }
    }
}

/// Placing a child keeps the placed cells in the grid and free of repeats.
proof fn lemma_place_ok(parts: OrderParts, x: int, y: int, k: int, gw: int, gh: int)
    requires
        gw <= i32::MAX,
        gh <= i32::MAX,
        -0x4000_0000 <= x <= 0x3fff_ffff,
        -0x4000_0000 <= y <= 0x3fff_ffff,
        no_dup(parts.0 + parts.1),
        all_in_grid(parts.0 + parts.1, gw, gh),
    ensures
        no_dup(place(parts, x, y, k, gw, gh).0 + place(parts, x, y, k, gw, gh).1),
        all_in_grid(place(parts, x, y, k, gw, gh).0 + place(parts, x, y, k, gw, gh).1, gw, gh),
{
    let c = child_of(x, y, k);
    let cell = (c.0 as i32, c.1 as i32);
    let p = place(parts, x, y, k, gw, gh);
    if p != parts {
        lemma_concat_contains(parts.0, parts.1, cell);
        if on_main_path(x, y, k, gw, gh) {
            lemma_push_front_no_dup(parts.0, parts.1, cell);
            assert forall|i: int| 0 <= i < (p.0 + p.1).len() implies in_grid(#[trigger] (p.0 + p.1)[i], gw, gh) by {
                let n = parts.0.len() as int;
                if i < n {
                    assert((p.0 + p.1)[i] == (parts.0 + parts.1)[i]);
                } else if i > n {
                    assert((p.0 + p.1)[i] == (parts.0 + parts.1)[i - 1]);
                }
            }
        } else {
            assert(p.0 + p.1 =~= (parts.0 + parts.1).push(cell));
            lemma_push_no_dup(parts.0 + parts.1, cell);
        }
    }
}

/// Placing the first `k` children keeps the placed cells in the grid and
/// free of repeats.
proof fn lemma_place_children_ok(parts: OrderParts, x: int, y: int, k: int, gw: int, gh: int)
    requires
        gw <= i32::MAX,
        gh <= i32::MAX,
        -0x4000_0000 <= x <= 0x3fff_ffff,
        -0x4000_0000 <= y <= 0x3fff_ffff,
        no_dup(parts.0 + parts.1),
        all_in_grid(parts.0 + parts.1, gw, gh),
    ensures
        no_dup(place_children(parts, x, y, k, gw, gh).0 + place_children(parts, x, y, k, gw, gh).1),
        all_in_grid(place_children(parts, x, y, k, gw, gh).0 + place_children(parts, x, y, k, gw, gh).1, gw, gh),
    decreases k,
{
    if k > 0 {
        lemma_place_children_ok(parts, x, y, k - 1, gw, gh);
        lemma_place_ok(place_children(parts, x, y, k - 1, gw, gh), x, y, k - 1, gw, gh);
    }
}

/// Placing the children of the first `n` coarse blocks keeps the placed
/// cells in the grid and free of repeats.
proof fn lemma_place_all_ok(coarse: Seq<(i32, i32)>, n: int, gw: int, gh: int)
    requires
        gw <= i32::MAX,
        gh <= i32::MAX,
        n <= coarse.len(),
        coarse_ok(coarse),
    ensures
        no_dup(place_all(coarse, n, gw, gh).0 + place_all(coarse, n, gw, gh).1),
        all_in_grid(place_all(coarse, n, gw, gh).0 + place_all(coarse, n, gw, gh).1, gw, gh),
    decreases n,
{
    if n <= 0 {
        assert(place_all(coarse, n, gw, gh).0 + place_all(coarse, n, gw, gh).1 =~= Seq::<(i32, i32)>::empty());
    } else {
        lemma_place_all_ok(coarse, n - 1, gw, gh);
        assert(-0x4000_0000 <= coarse[n - 1].0 <= 0x3fff_ffff);
        lemma_place_children_ok(place_all(coarse, n - 1, gw, gh), coarse[n - 1].0 as int, coarse[n - 1].1 as int, 4, gw, gh);
    }
}

/// Appending the unseen cells of `rest` keeps the order in the grid and
/// free of repeats, and takes in every one of the first `n` cells of
/// `rest`.
proof fn lemma_append_unseen_ok(base: Seq<(i32, i32)>, rest: Seq<(i32, i32)>, n: int, gw: int, gh: int)
    requires
        n <= rest.len(),
        no_dup(base),
        all_in_grid(base, gw, gh),
        all_in_grid(rest, gw, gh),
    ensures
        no_dup(append_unseen(base, rest, n)),
        all_in_grid(append_unseen(base, rest, n), gw, gh),
        forall|q: int| 0 <= q < n ==> append_unseen(base, rest, n).contains(#[trigger] rest[q]),
    decreases n,
{
    if n > 0 {
        lemma_append_unseen_ok(base, rest, n - 1, gw, gh);
        let acc = append_unseen(base, rest, n - 1);
        let x = rest[n - 1];
        if !acc.contains(x) {
            lemma_push_no_dup(acc, x);
            assert forall|q: int| 0 <= q < n implies acc.push(x).contains(#[trigger] rest[q]) by {
                lemma_push_contains(acc, x, rest[q]);
            }
            assert forall|i: int| 0 <= i < acc.push(x).len() implies in_grid(#[trigger] acc.push(x)[i], gw, gh) by {
                if i < acc.len() {
                    assert(acc.push(x)[i] == acc[i]);
                }
            }
        }
    }
}

/// Row `k - 1` is in `snake_rows` of any later length.
proof fn lemma_snake_grows(gw: int, k: int, k2: int, c: (i32, i32))
    requires
        k <= k2,
        snake_rows(gw, k).contains(c),
    ensures
        snake_rows(gw, k2).contains(c),
    decreases k2 - k,
{
    if k < k2 {
        lemma_snake_grows(gw, k, k2 - 1, c);
        lemma_concat_contains(snake_rows(gw, k2 - 1), snake_row(gw, k2 - 1), c);
    }
}

/// Columns grow with `top_bottom`.
proof fn lemma_top_bottom_grows(gh: int, k: int, k2: int, c: (i32, i32))
    requires
        k <= k2,
        top_bottom(gh, k).contains(c),
    ensures
        top_bottom(gh, k2).contains(c),
    decreases k2 - k,
{
    if k < k2 {
        lemma_top_bottom_grows(gh, k, k2 - 1, c);
        let x = (k2 - 1) as i32;
        let cell = seq![(x, 0i32)];
        lemma_concat_contains(top_bottom(gh, k2 - 1), if gh > 1 { cell.push((x, (gh - 1) as i32)) } else { cell }, c);
    }
}

/// Rows grow with `left_right`.
proof fn lemma_left_right_grows(gw: int, k: int, k2: int, c: (i32, i32))
    requires
        k <= k2,
        left_right(gw, k).contains(c),
    ensures
        left_right(gw, k2).contains(c),
    decreases k2 - k,
{
    if k < k2 {
        lemma_left_right_grows(gw, k, k2 - 1, c);
        let y = (k2 - 1) as i32;
        let cell = seq![(0i32, y)];
        lemma_concat_contains(left_right(gw, k2 - 1), if gw > 1 { cell.push(((gw - 1) as i32, y)) } else { cell }, c);
    }
}

/// A first-search order reaches every cell of its grid.
pub proof fn lemma_initial_covers(gw: int, gh: int, c: (i32, i32))
    requires
        1 <= gw && 1 <= gh && gw * gh <= i32::MAX,
        in_grid(c, gw, gh),
    ensures
        initial_order_spec(gw, gh).contains(c),
{
    let a = snake_rows(gw, gh - 1);
    let b = top_bottom(gh, gw);
    let l = left_right(gw, gh - 1);
    let x = c.0 as int;
    let y = c.1 as int;
    if y == 0 || y == gh - 1 {
        let k = x + 1;
        let xx = x as i32;
        let cell = seq![(xx, 0i32)];
        let tail = if gh > 1 { cell.push((xx, (gh - 1) as i32)) } else { cell };
        if y == 0 {
            assert(tail[0] == c);
        } else {
            assert(tail[1] == c);
        }
        lemma_concat_contains(top_bottom(gh, k - 1), tail, c);
        lemma_top_bottom_grows(gh, k, gw, c);
        lemma_concat_contains(a, b, c);
        lemma_concat_contains(a + b, l, c);
    } else if x == 0 || x == gw - 1 {
        let k = y + 1;
        let yy = y as i32;
        let cell = seq![(0i32, yy)];
        let tail = if gw > 1 { cell.push(((gw - 1) as i32, yy)) } else { cell };
        if x == 0 {
            assert(tail[0] == c);
        } else {
            assert(tail[1] == c);
        }
        lemma_concat_contains(left_right(gw, k - 1), tail, c);
        lemma_left_right_grows(gw, k, gh - 1, c);
        lemma_concat_contains(a + b, l, c);
    } else {
        let row = snake_row(gw, y);
        if y % 2 == 0 {
            assert(row[x - 1] == c);
        } else {
            assert(row[gw - 2 - x] == c);
        }
        lemma_concat_contains(snake_rows(gw, y), row, c);
        lemma_snake_grows(gw, y + 1, gh - 1, c);
        lemma_concat_contains(a, b, c);
        lemma_concat_contains(a + b, l, c);
    }
}

/// The refined order visits every block of the grid exactly once.
pub proof fn lemma_refine_order_permutes(coarse: Seq<(i32, i32)>, gw: int, gh: int)
    requires
        1 <= gw && 1 <= gh && gw * gh <= i32::MAX,
        coarse_ok(coarse),
    ensures
        no_dup(refine_order_spec(coarse, gw, gh)),
        all_in_grid(refine_order_spec(coarse, gw, gh), gw, gh),
        forall|c: (i32, i32)| in_grid(c, gw, gh) ==> #[trigger] refine_order_spec(coarse, gw, gh).contains(c),
{
    assert(gw <= gw * gh && gh <= gw * gh) by (nonlinear_arith)
        requires
            1 <= gw,
            1 <= gh,
    ;
    let parts = place_all(coarse, coarse.len() as int, gw, gh);
    let first = initial_order_spec(gw, gh);
    lemma_place_all_ok(coarse, coarse.len() as int, gw, gh);
    lemma_initial_in_grid(gw, gh);
    lemma_append_unseen_ok(parts.0 + parts.1, first, first.len() as int, gw, gh);
    assert forall|c: (i32, i32)| in_grid(c, gw, gh) implies #[trigger] refine_order_spec(coarse, gw, gh).contains(c) by {
        lemma_initial_covers(gw, gh, c);
        let q = choose|q: int| 0 <= q < first.len() && first[q] == c;
        assert(append_unseen(parts.0 + parts.1, first, first.len() as int).contains(first[q]));
    }
}

/// Two sequences without repeats and without a common cell concatenate
/// into one without repeats.
proof fn lemma_concat_no_dup(s: Seq<(i32, i32)>, t: Seq<(i32, i32)>)
    requires
        no_dup(s),
        no_dup(t),
        forall|i: int, j: int| 0 <= i < s.len() && 0 <= j < t.len() ==> #[trigger] s[i] != #[trigger] t[j],
    ensures
        no_dup(s + t),
{
    let u = s + t;
    assert forall|i: int, j: int| 0 <= i < j < u.len() implies #[trigger] u[i] != #[trigger] u[j] by {
        let n = s.len() as int;
        if j < n {
            assert(u[i] == s[i] && u[j] == s[j]);
        } else if i >= n {
            assert(u[i] == t[i - n] && u[j] == t[j - n]);
        } else {
            assert(u[i] == s[i] && u[j] == t[j - n]);
        }
    }
}

/// The snake rows `1 ..= k - 1` hold interior cells of rows below `k`,
/// each once.
proof fn lemma_snake_facts(gw: int, k: int)
    requires
        1 <= gw <= i32::MAX,
        k <= i32::MAX,
    ensures
        no_dup(snake_rows(gw, k)),
        forall|i: int| 0 <= i < snake_rows(gw, k).len() ==> 1 <= (#[trigger] snake_rows(gw, k)[i]).0 <= gw - 2
            && 1 <= snake_rows(gw, k)[i].1 <= k - 1,
    decreases k,
{
    if k > 1 {
        lemma_snake_facts(gw, k - 1);
        let prev = snake_rows(gw, k - 1);
        let row = snake_row(gw, k - 1);
        assert forall|i: int, j: int| 0 <= i < j < row.len() implies #[trigger] row[i] != #[trigger] row[j] by {}
        assert forall|i: int, j: int| 0 <= i < prev.len() && 0 <= j < row.len() implies #[trigger] prev[i] != #[trigger] row[j] by {}
        lemma_concat_no_dup(prev, row);
        assert forall|i: int| 0 <= i < snake_rows(gw, k).len() implies 1 <= (#[trigger] snake_rows(gw, k)[i]).0 <= gw - 2
            && 1 <= snake_rows(gw, k)[i].1 <= k - 1 by {
            if i < prev.len() {
                assert(snake_rows(gw, k)[i] == prev[i]);
            } else {
                assert(snake_rows(gw, k)[i] == row[i - prev.len()]);
            }
        }
    }
}

/// Columns `0 .. k` of the top and bottom rows hold each of their cells
/// once.
proof fn lemma_top_bottom_facts(gh: int, k: int)
    requires
        1 <= gh <= i32::MAX,
        k <= i32::MAX,
    ensures
        no_dup(top_bottom(gh, k)),
        forall|i: int| 0 <= i < top_bottom(gh, k).len() ==> 0 <= (#[trigger] top_bottom(gh, k)[i]).0 <= k - 1
            && (top_bottom(gh, k)[i].1 == 0 || top_bottom(gh, k)[i].1 == gh - 1),
    decreases k,
{
    if k > 0 {
        lemma_top_bottom_facts(gh, k - 1);
        let prev = top_bottom(gh, k - 1);
        let x = (k - 1) as i32;
        let cell = seq![(x, 0i32)];
        let tail = if gh > 1 { cell.push((x, (gh - 1) as i32)) } else { cell };
        assert forall|i: int, j: int| 0 <= i < j < tail.len() implies #[trigger] tail[i] != #[trigger] tail[j] by {}
        assert forall|i: int, j: int| 0 <= i < prev.len() && 0 <= j < tail.len() implies #[trigger] prev[i] != #[trigger] tail[j] by {}
        lemma_concat_no_dup(prev, tail);
        assert forall|i: int| 0 <= i < top_bottom(gh, k).len() implies 0 <= (#[trigger] top_bottom(gh, k)[i]).0 <= k - 1
            && (top_bottom(gh, k)[i].1 == 0 || top_bottom(gh, k)[i].1 == gh - 1) by {
            if i < prev.len() {
                assert(top_bottom(gh, k)[i] == prev[i]);
            } else {
                assert(top_bottom(gh, k)[i] == tail[i - prev.len()]);
            }
        }
    }
}

/// Rows `1 ..= k - 1` of the left and right columns hold each of their
/// cells once.
proof fn lemma_left_right_facts(gw: int, k: int)
    requires
        1 <= gw <= i32::MAX,
        k <= i32::MAX,
    ensures
        no_dup(left_right(gw, k)),
        forall|i: int| 0 <= i < left_right(gw, k).len() ==> 1 <= (#[trigger] left_right(gw, k)[i]).1 <= k - 1
            && (left_right(gw, k)[i].0 == 0 || left_right(gw, k)[i].0 == gw - 1),
    decreases k,
{
    if k > 1 {
        lemma_left_right_facts(gw, k - 1);
        let prev = left_right(gw, k - 1);
        let y = (k - 1) as i32;
        let cell = seq![(0i32, y)];
        let tail = if gw > 1 { cell.push(((gw - 1) as i32, y)) } else { cell };
        assert forall|i: int, j: int| 0 <= i < j < tail.len() implies #[trigger] tail[i] != #[trigger] tail[j] by {}
        assert forall|i: int, j: int| 0 <= i < prev.len() && 0 <= j < tail.len() implies #[trigger] prev[i] != #[trigger] tail[j] by {}
        lemma_concat_no_dup(prev, tail);
        assert forall|i: int| 0 <= i < left_right(gw, k).len() implies 1 <= (#[trigger] left_right(gw, k)[i]).1 <= k - 1
            && (left_right(gw, k)[i].0 == 0 || left_right(gw, k)[i].0 == gw - 1) by {
            if i < prev.len() {
                assert(left_right(gw, k)[i] == prev[i]);
            } else {
                assert(left_right(gw, k)[i] == tail[i - prev.len()]);
            }
        }
    }
}

/// A first-search order visits every block of its grid exactly once.
pub proof fn lemma_initial_order_permutes(gw: int, gh: int)
    requires
        1 <= gw && 1 <= gh && gw * gh <= i32::MAX,
    ensures
        no_dup(initial_order_spec(gw, gh)),
        all_in_grid(initial_order_spec(gw, gh), gw, gh),
        forall|c: (i32, i32)| in_grid(c, gw, gh) ==> #[trigger] initial_order_spec(gw, gh).contains(c),
{
    assert(gw <= gw * gh && gh <= gw * gh) by (nonlinear_arith)
        requires
            1 <= gw,
            1 <= gh,
    ;
    let a = snake_rows(gw, gh - 1);
    let b = top_bottom(gh, gw);
    let l = left_right(gw, gh - 1);
    lemma_snake_facts(gw, gh - 1);
    lemma_top_bottom_facts(gh, gw);
    lemma_left_right_facts(gw, gh - 1);
    assert forall|i: int, j: int| 0 <= i < a.len() && 0 <= j < b.len() implies #[trigger] a[i] != #[trigger] b[j] by {}
    lemma_concat_no_dup(a, b);
    assert forall|i: int, j: int| 0 <= i < (a + b).len() && 0 <= j < l.len() implies #[trigger] (a + b)[i] != #[trigger] l[j] by {
        if i < a.len() {
            assert((a + b)[i] == a[i]);
        } else {
            assert((a + b)[i] == b[i - a.len()]);
        }
    }
    lemma_concat_no_dup(a + b, l);
    assert(initial_order_spec(gw, gh) == a + b + l);
    lemma_initial_in_grid(gw, gh);
    assert forall|c: (i32, i32)| in_grid(c, gw, gh) implies #[trigger] initial_order_spec(gw, gh).contains(c) by {
        lemma_initial_covers(gw, gh, c);
    }
}

/// Child `k` of coarse block `c` as a cell.
pub open spec fn child_cell(c: (i32, i32), k: int) -> (i32, i32) {
    ((child_of(c.0 as int, c.1 as int, k)).0 as i32, (child_of(c.0 as int, c.1 as int, k)).1 as i32)
}

/// Whether `c` is one of the placed cells.
pub open spec fn in_parts(parts: OrderParts, c: (i32, i32)) -> bool {
    parts.0.contains(c) || parts.1.contains(c)
}

/// How many cells the children of the coarse order place, before the
/// cells that only the first-search order brings in.
pub open spec fn children_placed(coarse: Seq<(i32, i32)>, gw: int, gh: int) -> int {
    let parts = place_all(coarse, coarse.len() as int, gw, gh);
    (parts.0.len() + parts.1.len()) as int
}

/// Placing a child keeps the cells placed before, and adds at most that
/// child; a child inside the grid is placed afterwards.
proof fn lemma_place_facts(parts: OrderParts, x: int, y: int, k: int, gw: int, gh: int, c: (i32, i32))
    requires
        -0x4000_0000 <= x <= 0x3fff_ffff,
        -0x4000_0000 <= y <= 0x3fff_ffff,
        0 <= k < 4,
    ensures
        in_parts(parts, c) ==> in_parts(place(parts, x, y, k, gw, gh), c),
        in_parts(place(parts, x, y, k, gw, gh), c) ==> in_parts(parts, c) || c == child_cell((x as i32, y as i32), k),
        in_grid(child_cell((x as i32, y as i32), k), gw, gh) ==> in_parts(place(parts, x, y, k, gw, gh), child_cell((x as i32, y as i32), k)),
{
    let cell = child_cell((x as i32, y as i32), k);
    assert(cell.0 == child_of(x, y, k).0 && cell.1 == child_of(x, y, k).1);
    lemma_push_contains(parts.0, cell, c);
    lemma_push_contains(parts.1, cell, c);
    lemma_push_contains(parts.0, cell, cell);
    lemma_push_contains(parts.1, cell, cell);
}

/// Placing the first `k` children of (`x`, `y`) keeps the cells placed
/// before, adds only those children, and places each of them that lies
/// inside the grid.
proof fn lemma_place_children_facts(parts: OrderParts, x: int, y: int, k: int, gw: int, gh: int, c: (i32, i32))
    requires
        -0x4000_0000 <= x <= 0x3fff_ffff,
        -0x4000_0000 <= y <= 0x3fff_ffff,
        0 <= k <= 4,
    ensures
        in_parts(parts, c) ==> in_parts(place_children(parts, x, y, k, gw, gh), c),
        in_parts(place_children(parts, x, y, k, gw, gh), c) ==> in_parts(parts, c)
            || exists|j: int| 0 <= j < k && c == #[trigger] child_cell((x as i32, y as i32), j),
        forall|j: int| 0 <= j < k && c == #[trigger] child_cell((x as i32, y as i32), j) && in_grid(c, gw, gh)
            ==> in_parts(place_children(parts, x, y, k, gw, gh), c),
    decreases k,
{
    if k > 0 {
        let prev = place_children(parts, x, y, k - 1, gw, gh);
        lemma_place_children_facts(parts, x, y, k - 1, gw, gh, c);
        lemma_place_facts(prev, x, y, k - 1, gw, gh, c);
        if in_parts(place_children(parts, x, y, k, gw, gh), c) && !in_parts(parts, c) {
            if !in_parts(prev, c) {
                assert(c == child_cell((x as i32, y as i32), k - 1));
            }
        }
    }
}

/// After the children of the first `n` coarse blocks are placed, every
/// placed cell is such a child, and every such child inside the grid is
/// placed.
proof fn lemma_place_all_facts(coarse: Seq<(i32, i32)>, n: int, gw: int, gh: int, c: (i32, i32))
    requires
        coarse_ok(coarse),
        0 <= n <= coarse.len(),
    ensures
        in_parts(place_all(coarse, n, gw, gh), c) ==>
            exists|i: int, k: int| 0 <= i < n && 0 <= k < 4 && c == #[trigger] child_cell(coarse[i], k),
        forall|i: int, k: int| 0 <= i < n && 0 <= k < 4 && c == #[trigger] child_cell(coarse[i], k) && in_grid(c, gw, gh)
            ==> in_parts(place_all(coarse, n, gw, gh), c),
    decreases n,
{
    if n > 0 {
        let prev = place_all(coarse, n - 1, gw, gh);
        let last = coarse[n - 1];
        lemma_place_all_facts(coarse, n - 1, gw, gh, c);
        lemma_place_children_facts(prev, last.0 as int, last.1 as int, 4, gw, gh, c);
        assert((last.0 as int as i32, last.1 as int as i32) == last);
        if in_parts(place_all(coarse, n, gw, gh), c) && !in_parts(prev, c) {
            let j = choose|j: int| 0 <= j < 4 && c == #[trigger] child_cell((last.0 as int as i32, last.1 as int as i32), j);
            assert(c == child_cell(coarse[n - 1], j));
        }
    }
}

/// `append_unseen` keeps `base` as its beginning.
proof fn lemma_append_unseen_prefix(base: Seq<(i32, i32)>, rest: Seq<(i32, i32)>, n: int)
    ensures
        append_unseen(base, rest, n).len() >= base.len(),
        append_unseen(base, rest, n).subrange(0, base.len() as int) == base,
    decreases n,
{
    if n > 0 {
        lemma_append_unseen_prefix(base, rest, n - 1);
        let acc = append_unseen(base, rest, n - 1);
        assert(acc.push(rest[n - 1]).subrange(0, base.len() as int) =~= acc.subrange(0, base.len() as int));
    } else {
        assert(base.subrange(0, base.len() as int) =~= base);
    }
}

/// Each of the first `m` cells of `order` is a child of a block of
/// `coarse`.
pub open spec fn prefix_only_children(order: Seq<(i32, i32)>, coarse: Seq<(i32, i32)>, m: int) -> bool {
    forall|j: int| 0 <= j < m ==> is_child(coarse, #[trigger] order[j])
}

/// Whether `c` is a child of a block of `coarse`.
pub open spec fn is_child(coarse: Seq<(i32, i32)>, c: (i32, i32)) -> bool {
    exists|i: int, k: int| 0 <= i < coarse.len() && 0 <= k < 4 && c == #[trigger] child_cell(coarse[i], k)
}

/// Every child of a block of `coarse` that lies inside the grid is among
/// the first `m` cells of `order`.
pub open spec fn children_in_prefix(order: Seq<(i32, i32)>, coarse: Seq<(i32, i32)>, m: int, gw: int, gh: int) -> bool {
    forall|i: int, k: int| 0 <= i < coarse.len() && 0 <= k < 4 && in_grid(#[trigger] child_cell(coarse[i], k), gw, gh) ==>
        exists|j: int| 0 <= j < m && order[j] == child_cell(coarse[i], k)
}

/// Each of the first `children_placed` cells of the refined order is a
/// child of a coarse block.
proof fn lemma_child_at(coarse: Seq<(i32, i32)>, gw: int, gh: int, j: int)
    requires
        coarse_ok(coarse),
        0 <= j < children_placed(coarse, gw, gh),
    ensures
        is_child(coarse, refine_order_spec(coarse, gw, gh)[j]),
{
    let parts = place_all(coarse, coarse.len() as int, gw, gh);
    let base = parts.0 + parts.1;
    let first = initial_order_spec(gw, gh);
    let r = refine_order_spec(coarse, gw, gh);
    lemma_append_unseen_prefix(base, first, first.len() as int);
    assert(r == append_unseen(base, first, first.len() as int));
    assert(r.subrange(0, base.len() as int) == base);
    assert(r[j] == r.subrange(0, base.len() as int)[j]);
    let c = base[j];
    assert(base.contains(c));
    lemma_concat_contains(parts.0, parts.1, c);
    lemma_place_all_facts(coarse, coarse.len() as int, gw, gh, c);
    assert(in_parts(parts, c));
    let (i, k) = choose|i: int, k: int| 0 <= i < coarse.len() && 0 <= k < 4 && c == #[trigger] child_cell(coarse[i], k);
    assert(r[j] == child_cell(coarse[i], k));
}

/// The refined order begins with the children of the coarse blocks: its
/// first `children_placed` cells are each a child of a coarse block, and
/// every child of a coarse block that lies inside the grid is among them,
/// so before every cell that only the first-search order brings in.
pub proof fn lemma_children_first(coarse: Seq<(i32, i32)>, gw: int, gh: int)
    requires
        coarse_ok(coarse),
    ensures
        children_placed(coarse, gw, gh) <= refine_order_spec(coarse, gw, gh).len(),
        prefix_only_children(refine_order_spec(coarse, gw, gh), coarse, children_placed(coarse, gw, gh)),
        children_in_prefix(refine_order_spec(coarse, gw, gh), coarse, children_placed(coarse, gw, gh), gw, gh),
{
    let parts = place_all(coarse, coarse.len() as int, gw, gh);
    let base = parts.0 + parts.1;
    let first = initial_order_spec(gw, gh);
    let r = refine_order_spec(coarse, gw, gh);
    lemma_append_unseen_prefix(base, first, first.len() as int);
    assert(r == append_unseen(base, first, first.len() as int));
    assert(base.len() == children_placed(coarse, gw, gh));
    assert(r.subrange(0, base.len() as int) == base);
    let m = children_placed(coarse, gw, gh);
    assert forall|j: int| 0 <= j < m implies is_child(coarse, #[trigger] r[j]) by {
        lemma_child_at(coarse, gw, gh, j);
    }
    assert(prefix_only_children(r, coarse, m));
    assert forall|i: int, k: int| 0 <= i < coarse.len() && 0 <= k < 4 && in_grid(#[trigger] child_cell(coarse[i], k), gw, gh) implies
        exists|j: int| 0 <= j < children_placed(coarse, gw, gh) && r[j] == child_cell(coarse[i], k) by {
        let c = child_cell(coarse[i], k);
        lemma_place_all_facts(coarse, coarse.len() as int, gw, gh, c);
        lemma_concat_contains(parts.0, parts.1, c);
        let j = choose|j: int| 0 <= j < base.len() && base[j] == c;
        assert(r.subrange(0, base.len() as int)[j] == c);
        assert(r[j] == c);
    }
}

} // verus!
