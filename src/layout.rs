//! The layered layout of a network for drawing: comparators grouped into
//! layers, each layer packed into columns where comparators do not overlap.
use vstd::prelude::*;
use crate::plan::shares_wire;

verus! {

/// Where the comparators of a network are drawn.
#[derive(Clone, Debug)]
pub struct SvgPos {
    pub n: usize,
    /// The number of layers.
    pub d: usize,
    pub cmp: Vec<(usize, usize)>,
    pub width: usize,
    pub height: usize,
    /// The horizontal position of each comparator.
    pub x_pos: Vec<usize>,
}

pub const X_SCALE: usize = 35;

pub const X_SCALE_THIN: usize = 11;

pub const Y_SCALE: usize = 20;

/// A network short enough that its layout's positions fit in `usize`.
pub open spec fn layout_fits(m: int) -> bool {
    46 * m + 70 <= usize::MAX
}

/// A comparator list with every comparator `(a, b)` on wires `a < b < n`.
pub open spec fn layout_valid(n: int, cmp: Seq<(usize, usize)>) -> bool {
    forall|k: int| 0 <= k < cmp.len() ==> (#[trigger] cmp[k]).0 < cmp[k].1 && cmp[k].1 < n
}

impl SvgPos {
    pub fn new(n: usize, cmp: &[(usize, usize)]) -> (r: Self)
        requires
            n <= 64,
            layout_fits(cmp@.len() as int),
        ensures
            layout_post(n as int, cmp@, r),
    {
        gen_svg_pos(n, cmp)
    }
}

/// Comparator `e` shares a wire with one of `cmp[s..e]`.
pub open spec fn conflicts(cmp: Seq<(usize, usize)>, s: int, e: int) -> bool {
    exists|t: int| s <= t < e && #[trigger] shares_wire(cmp[t], cmp[e])
}

/// Where the block that starts at `s` ends, searching from `e`: the first
/// comparator that shares a wire with an earlier one of the block.
pub open spec fn block_end_from(cmp: Seq<(usize, usize)>, s: int, e: int) -> int
    decreases cmp.len() - e,
{
    if e >= cmp.len() || conflicts(cmp, s, e) {
        e
    } else {
        block_end_from(cmp, s, e + 1)
    }
}

/// The end of the greedy block of wire-disjoint comparators starting at `s`.
pub open spec fn block_end(cmp: Seq<(usize, usize)>, s: int) -> int {
    block_end_from(cmp, s, s + 1)
}

/// The number of greedy blocks that `cmp[s..]` falls into.
pub open spec fn num_blocks(cmp: Seq<(usize, usize)>, s: int) -> nat
    decreases cmp.len() - s,
{
    if s < 0 || s >= cmp.len() || block_end(cmp, s) <= s || block_end(cmp, s) > cmp.len() {
        0
    } else {
        1 + num_blocks(cmp, block_end(cmp, s))
    }
}

/// The spans `a..=b` of two comparators meet.
pub open spec fn spans_overlap(p: (usize, usize), q: (usize, usize)) -> bool {
    p.0 <= q.1 && q.0 <= p.1
}

/// What a layout states. For a valid network: one layer per greedy block of
/// wire-disjoint comparators; a comparator drawn right of every earlier one
/// on its wires; comparators whose spans meet at distinct places; and a width
/// of the rightmost place plus `X_SCALE` (just `X_SCALE` with nothing to draw).
pub open spec fn layout_post(n: int, cmp: Seq<(usize, usize)>, r: SvgPos) -> bool {
    &&& r.n == n
    &&& r.cmp@ == cmp
    &&& r.height == Y_SCALE * (n + 1)
    &&& r.x_pos@.len() == cmp.len()
    &&& if layout_valid(n, cmp) {
        &&& r.d == num_blocks(cmp, 0)
        &&& forall|i: int, j: int|
            0 <= i < j < cmp.len() && shares_wire(cmp[i], cmp[j]) ==> #[trigger] r.x_pos@[i] < #[trigger] r.x_pos@[j]
        &&& forall|i: int, j: int|
            0 <= i < cmp.len() && 0 <= j < cmp.len() && i != j && spans_overlap(cmp[i], cmp[j]) ==> #[trigger] r.x_pos@[i]
                != #[trigger] r.x_pos@[j]
        &&& forall|i: int| 0 <= i < cmp.len() ==> X_SCALE <= #[trigger] r.x_pos@[i] && r.x_pos@[i] + X_SCALE <= r.width
        &&& cmp.len() > 0 ==> exists|i: int| 0 <= i < cmp.len() && #[trigger] r.x_pos@[i] + X_SCALE == r.width
        &&& cmp.len() == 0 ==> r.width == X_SCALE
    } else {
        &&& r.d == 0
        &&& r.width == X_SCALE * 2 + X_SCALE_THIN * (if cmp.len() > 0 { cmp.len() - 1 } else { 0 })
        &&& forall|i: int| 0 <= i < cmp.len() ==> #[trigger] r.x_pos@[i] == i * X_SCALE_THIN + X_SCALE
    }
}

proof fn lemma_block_end_ge(cmp: Seq<(usize, usize)>, s: int, e: int)
    ensures
        block_end_from(cmp, s, e) >= e,
    decreases cmp.len() - e,
{
    if !(e >= cmp.len() || conflicts(cmp, s, e)) {
        lemma_block_end_ge(cmp, s, e + 1);
    }
}

/// Marks wires `a..=b` of `row`.
fn fill_range(row: &mut Vec<bool>, a: usize, b: usize)
    requires
        a <= b < old(row)@.len(),
        b < 64,
    ensures
        final(row)@.len() == old(row)@.len(),
        forall|k: int| 0 <= k < old(row)@.len() ==> #[trigger] final(row)@[k] == (old(row)@[k] || (a <= k <= b)),
{
    let mut k = a;
    while k <= b
        invariant
            a <= k <= b + 1,
            b < row@.len(),
            b < 64,
            row@.len() == old(row)@.len(),
            forall|q: int| 0 <= q < row@.len() ==> #[trigger] row@[q] == (old(row)@[q] || (a <= q < k)),
        decreases b + 1 - k,
    {
        row.set(k, true);
        k += 1;
    }
}

/// Whether any of wires `a..=b` is marked in `row`.
fn any_in_range(row: &Vec<bool>, a: usize, b: usize) -> (r: bool)
    requires
        a <= b < row@.len(),
        b < 64,
    ensures
        r == exists|k: int| a <= k <= b && #[trigger] row@[k],
{
    let mut k = a;
    while k <= b
        invariant
            a <= k <= b + 1,
            b < row@.len(),
            b < 64,
            forall|q: int| a <= q < k ==> !#[trigger] row@[q],
        decreases b + 1 - k,
    {
        if row[k] {
            return true;
        }
        k += 1;
    }
    false
}

/// Lays out the comparators of a network on `n` wires.
#[verifier::rlimit(50)]
pub fn gen_svg_pos(n: usize, cmp: &[(usize, usize)]) -> (r: SvgPos)
    requires
        n <= 64,
        layout_fits(cmp@.len() as int),
    ensures
        layout_post(n as int, cmp@, r),
{
    let m = cmp.len();
    let mm: usize = if m > 0 { m - 1 } else { 0 };
    let mut width = X_SCALE * 2 + X_SCALE_THIN * mm;
    let height = Y_SCALE * (n + 1);
    let mut x_pos: Vec<usize> = Vec::new();
    let mut i: usize = 0;
    while i < m
        invariant
            m == cmp@.len(),
            layout_fits(m as int),
            i <= m,
            x_pos@.len() == i,
            forall|k: int| 0 <= k < i ==> #[trigger] x_pos@[k] == k * X_SCALE_THIN + X_SCALE,
        decreases m - i,
    {
        x_pos.push(i * X_SCALE_THIN + X_SCALE);
        i += 1;
    }
    let mut cmp_copy: Vec<(usize, usize)> = Vec::new();
    let mut valid = true;
    let mut k: usize = 0;
    while k < m
        invariant
            m == cmp@.len(),
            k <= m,
            cmp_copy@ == cmp@.take(k as int),
            valid == layout_valid(n as int, cmp@.take(k as int)),
        decreases m - k,
    {
        let (a, b) = cmp[k];
        proof {
            let t0 = cmp@.take(k as int);
            let t1 = cmp@.take(k + 1);
            assert(t1 =~= t0.push((a, b)));
            if layout_valid(n as int, t1) {
                assert(t1[k as int] == (a, b));
                assert forall|q: int| 0 <= q < t0.len() implies (#[trigger] t0[q]).0 < t0[q].1 && t0[q].1 < n by {
                    assert(t1[q] == t0[q]);
                }
            }
            if layout_valid(n as int, t0) && a < b && b < n {
                assert forall|q: int| 0 <= q < t1.len() implies (#[trigger] t1[q]).0 < t1[q].1 && t1[q].1 < n by {
                    if q < k {
                        assert(t1[q] == t0[q]);
                    }
                }
            }
        }
        if a >= n || b >= n || a >= b {
            valid = false;
        }
        cmp_copy.push((a, b));
        k += 1;
    }
    proof {
        assert(cmp@.take(m as int) =~= cmp@);
    }
    if !valid {
        return SvgPos { n, d: 0, cmp: cmp_copy, width, height, x_pos };
    }
    let mut d: usize = 0;
    let mut w: usize = X_SCALE;
    let mut s: usize = 0;
    let ghost mut maxq: int = 0;
    while s < m
        invariant
            m == cmp@.len(),
            layout_fits(m as int),
            n <= 64,
            layout_valid(n as int, cmp@),
            x_pos@.len() == m,
            s <= m,
            d <= s,
            X_SCALE <= w <= X_SCALE + 46 * s,
            s == 0 ==> w == X_SCALE,
            d + num_blocks(cmp@, s as int) == num_blocks(cmp@, 0),
            forall|q: int| 0 <= q < s ==> X_SCALE <= #[trigger] x_pos@[q] && x_pos@[q] + X_SCALE <= w,
            s > 0 ==> 0 <= maxq < s && x_pos@[maxq] + X_SCALE == w,
            forall|i: int, j: int|
                0 <= i < j < s && shares_wire(cmp@[i], cmp@[j]) ==> #[trigger] x_pos@[i] < #[trigger] x_pos@[j],
            forall|i: int, j: int|
                0 <= i < s && 0 <= j < s && i != j && spans_overlap(cmp@[i], cmp@[j]) ==> #[trigger] x_pos@[i]
                    != #[trigger] x_pos@[j],
        decreases m - s,
    {
        // The block: the longest run from `s` of comparators on distinct wires.
        let mut used: Vec<bool> = Vec::new();
        let mut t: usize = 0;
        while t < n
            invariant
                t <= n,
                used@.len() == t,
                forall|q: int| 0 <= q < t ==> !#[trigger] used@[q],
            decreases n - t,
        {
            used.push(false);
            t += 1;
        }
        let mut e: usize = s;
        while e < m
            invariant
                m == cmp@.len(),
                n <= 64,
                layout_valid(n as int, cmp@),
                s < m,
                s <= e <= m,
                used@.len() == n,
                forall|q: int|
                    0 <= q < n ==> (#[trigger] used@[q] <==> exists|t: int| s <= t < e && (cmp@[t].0 == q || cmp@[t].1 == q)),
                e > s ==> block_end_from(cmp@, s as int, e as int) == block_end(cmp@, s as int),
                forall|t1: int, t2: int| s <= t1 < t2 < e ==> !shares_wire(#[trigger] cmp@[t1], #[trigger] cmp@[t2]),
            ensures
                e > s,
                block_end(cmp@, s as int) == e,
                forall|t1: int, t2: int| s <= t1 < t2 < e ==> !shares_wire(#[trigger] cmp@[t1], #[trigger] cmp@[t2]),
            decreases m - e,
        {
            let (a, b) = cmp[e];
            proof {
                assert(cmp@[e as int].0 < cmp@[e as int].1 && cmp@[e as int].1 < n);
            }
            let ghost u0 = used@;
            if used[a] || used[b] {
                proof {
                    let q = if u0[a as int] { a as int } else { b as int };
                    let t = choose|t: int| s <= t < e && (cmp@[t].0 == q || cmp@[t].1 == q);
                    assert(shares_wire(cmp@[t], cmp@[e as int]));
                    assert(conflicts(cmp@, s as int, e as int));
                    assert(e > s);
                }
                break;
            }
            proof {
                assert(!conflicts(cmp@, s as int, e as int)) by {
                    if conflicts(cmp@, s as int, e as int) {
                        let t = choose|t: int| s <= t < e && #[trigger] shares_wire(cmp@[t], cmp@[e as int]);
                        let q = if cmp@[t].0 == a || cmp@[t].1 == a { a as int } else { b as int };
                        assert(u0[q]);
                    }
                }
            }
            used.set(a, true);
            used.set(b, true);
            proof {
                assert forall|q: int|
                    0 <= q < n implies (#[trigger] used@[q] <==> exists|t: int| s <= t < e + 1 && (cmp@[t].0 == q || cmp@[t].1 == q)) by {
                    if u0[q] {
                        let t = choose|t: int| s <= t < e && (cmp@[t].0 == q || cmp@[t].1 == q);
                    }
                    if exists|t: int| s <= t < e + 1 && (cmp@[t].0 == q || cmp@[t].1 == q) {
                        let t = choose|t: int| s <= t < e + 1 && (cmp@[t].0 == q || cmp@[t].1 == q);
                        if t < e {
                            assert(u0[q]);
                        }
                    }
                }
                assert forall|t1: int, t2: int| s <= t1 < t2 < e + 1 implies !shares_wire(#[trigger] cmp@[t1], #[trigger] cmp@[t2]) by {
                    if t2 == e {
                        if shares_wire(cmp@[t1], cmp@[t2]) {
                            assert(conflicts(cmp@, s as int, e as int));
                        }
                    }
                }
            }
            e += 1;
        }
        proof {
            lemma_block_end_ge(cmp@, s as int, s + 1);
            assert(num_blocks(cmp@, s as int) == 1 + num_blocks(cmp@, e as int));
        }
        // Columns: each comparator goes to the first column its span fits.
        let ghost xp0 = x_pos@;
        let ghost mut col: Seq<int> = Seq::new(m as nat, |q: int| 0int);
        let ghost mut top: int = 0;
        let mut gfill: Vec<Vec<bool>> = Vec::new();
        let mut i: usize = s;
        while i < e
            invariant
                m == cmp@.len(),
                layout_fits(m as int),
                n <= 64,
                layout_valid(n as int, cmp@),
                x_pos@.len() == m,
                xp0.len() == m,
                col.len() == m,
                s <= i <= e <= m,
                X_SCALE <= w <= X_SCALE + 46 * s,
                gfill@.len() <= i - s,
                i > s ==> gfill@.len() >= 1 && s <= top < i && col[top] == gfill@.len() - 1,
                forall|c: int| 0 <= c < gfill@.len() ==> (#[trigger] gfill@[c])@.len() == n,
                forall|q: int| 0 <= q < m && !(s <= q < i) ==> #[trigger] x_pos@[q] == xp0[q],
                forall|q: int| s <= q < i ==> 0 <= #[trigger] col[q] < gfill@.len() && x_pos@[q] == w + X_SCALE_THIN * col[q],
                forall|q: int, t: int| s <= q < i && cmp@[q].0 <= t <= cmp@[q].1 ==> #[trigger] gfill@[col[q]]@[t],
                forall|q1: int, q2: int|
                    s <= q1 < q2 < i && #[trigger] col[q1] == #[trigger] col[q2] ==> !spans_overlap(cmp@[q1], cmp@[q2]),
            decreases e - i,
        {
            let (a, b) = cmp[i];
            proof {
                assert(cmp@[i as int].0 < cmp@[i as int].1 && cmp@[i as int].1 < n);
            }
            let ghost g0 = gfill@;
            let ghost c0 = col;
            let ghost xs0 = x_pos@;
            let mut j: usize = 0;
            let mut placed = false;
            while j < gfill.len() && !placed
                invariant
                    n <= 64,
                    a < b < n,
                    s <= i < e <= m,
                    x_pos@.len() == m,
                    xs0.len() == m,
                    layout_fits(m as int),
                    X_SCALE <= w <= X_SCALE + 46 * s,
                    gfill@.len() == g0.len(),
                    g0.len() <= i - s,
                    j <= g0.len(),
                    forall|c: int| 0 <= c < g0.len() ==> (#[trigger] g0[c])@.len() == n,
                    forall|c: int| 0 <= c < gfill@.len() ==> (#[trigger] gfill@[c])@.len() == n,
                    !placed ==> x_pos@ == xs0 && gfill@ == g0 && col == c0,
                    placed ==> {
                        &&& j < g0.len()
                        &&& col == c0.update(i as int, j as int)
                        &&& x_pos@ == xs0.update(i as int, (w + X_SCALE_THIN * j) as usize)
                        &&& forall|c: int| 0 <= c < g0.len() && c != j ==> (#[trigger] gfill@[c])@ == g0[c]@
                        &&& forall|t: int| 0 <= t < n ==> (#[trigger] gfill@[j as int]@[t] <==> (g0[j as int]@[t] || a <= t <= b))
                        &&& forall|t: int| a <= t <= b ==> !#[trigger] g0[j as int]@[t]
                    },
                decreases g0.len() - j + (if placed { 0int } else { 1int }),
            {
                if !any_in_range(&gfill[j], a, b) {
                    x_pos.set(i, w + X_SCALE_THIN * j);
                    fill_range(&mut gfill[j], a, b);
                    placed = true;
                    proof {
                        col = col.update(i as int, j as int);
                    }
                } else {
                    j += 1;
                }
            }
            if !placed {
                x_pos.set(i, w + X_SCALE_THIN * gfill.len());
                let mut row: Vec<bool> = Vec::new();
                let mut t: usize = 0;
                while t < n
                    invariant
                        t <= n,
                        row@.len() == t,
                        forall|q: int| 0 <= q < t ==> !#[trigger] row@[q],
                    decreases n - t,
                {
                    row.push(false);
                    t += 1;
                }
                let ghost r0 = row@;
                fill_range(&mut row, a, b);
                gfill.push(row);
                proof {
                    col = col.update(i as int, g0.len() as int);
                    top = i as int;
                    assert forall|q: int, t: int| s <= q < i + 1 && cmp@[q].0 <= t <= cmp@[q].1 implies #[trigger] gfill@[col[q]]@[t] by {
                        if q < i {
                            assert(col[q] == c0[q]);
                            assert(gfill@[col[q]] == g0[col[q]]);
                        }
                    }
                    assert forall|q1: int, q2: int|
                        s <= q1 < q2 < i + 1 && #[trigger] col[q1] == #[trigger] col[q2] implies !spans_overlap(cmp@[q1], cmp@[q2]) by {
                        if q2 == i {
                            assert(c0[q1] < g0.len());
                        }
                    }
                }
            } else {
                proof {
                    assert forall|q: int, t: int| s <= q < i + 1 && cmp@[q].0 <= t <= cmp@[q].1 implies #[trigger] gfill@[col[q]]@[t] by {
                        if q < i {
                            assert(col[q] == c0[q]);
                            if c0[q] != j {
                                assert(gfill@[c0[q]]@ == g0[c0[q]]@);
                            }
                        }
                    }
                    assert forall|q1: int, q2: int|
                        s <= q1 < q2 < i + 1 && #[trigger] col[q1] == #[trigger] col[q2] implies !spans_overlap(cmp@[q1], cmp@[q2]) by {
                        if q2 == i {
                            assert(c0[q1] == j);
                            if spans_overlap(cmp@[q1], cmp@[q2]) {
                                let t = if cmp@[q1].0 <= a { a as int } else { cmp@[q1].0 as int };
                                assert(g0[j as int]@[t]);
                            }
                        } else {
                            assert(c0[q1] == col[q1] && c0[q2] == col[q2]);
                        }
                    }
                    if i > s {
                        assert(col[top] == c0[top]);
                    }
                }
            }
            i += 1;
        }
        let ghost w0 = w;
        let ghost x_block = x_pos@;
        w = w + (gfill.len() - 1) * X_SCALE_THIN + X_SCALE;
        proof {
            maxq = top;
            let gl = gfill@.len() as int;
            assert forall|q: int| 0 <= q < e implies X_SCALE <= #[trigger] x_pos@[q] && x_pos@[q] + X_SCALE <= w by {
                if q >= s {
                    assert(col[q] <= gl - 1);
                } else {
                    assert(x_pos@[q] == xp0[q]);
                }
            }
            assert forall|p: int, q: int|
                0 <= p < q < e && shares_wire(cmp@[p], cmp@[q]) implies #[trigger] x_pos@[p] < #[trigger] x_pos@[q] by {
                if q < s {
                    assert(x_pos@[p] == xp0[p] && x_pos@[q] == xp0[q]);
                    assert(xp0[p] < xp0[q]);
                } else if p < s {
                    assert(x_pos@[p] == xp0[p]);
                    assert(xp0[p] + X_SCALE <= w0);
                    assert(x_pos@[q] == w0 + X_SCALE_THIN * col[q]);
                } else {
                    assert(!shares_wire(cmp@[p], cmp@[q]));
                }
            }
            assert forall|p: int, q: int|
                0 <= p < e && 0 <= q < e && p != q && spans_overlap(cmp@[p], cmp@[q]) implies #[trigger] x_pos@[p]
                != #[trigger] x_pos@[q] by {
                if p < s && q < s {
                    assert(x_pos@[p] == xp0[p] && x_pos@[q] == xp0[q]);
                } else if p < s {
                    assert(x_pos@[p] == xp0[p]);
                } else if q < s {
                    assert(x_pos@[q] == xp0[q]);
                } else if col[p] == col[q] {
                    if p < q {
                        assert(!spans_overlap(cmp@[p], cmp@[q]));
                    } else {
                        assert(!spans_overlap(cmp@[q], cmp@[p]));
                    }
                }
            }
        }
        d += 1;
        s = e;
    }
    proof {
        assert(num_blocks(cmp@, m as int) == 0);
        assert(d == num_blocks(cmp@, 0));
        if m > 0 {
            assert(x_pos@[maxq] + X_SCALE == w);
        }
    }
    width = w;
    proof {
        let r = SvgPos { n, d, cmp: cmp_copy, width, height, x_pos };
        assert(forall|i: int| 0 <= i < m ==> X_SCALE <= #[trigger] r.x_pos@[i] && r.x_pos@[i] + X_SCALE <= r.width);
        assert(r.d == num_blocks(cmp@, 0));
        assert(forall|i: int, j: int|
            0 <= i < j < m && shares_wire(cmp@[i], cmp@[j]) ==> #[trigger] r.x_pos@[i] < #[trigger] r.x_pos@[j]);
        if m > 0 {
            assert(0 <= maxq < m && r.x_pos@[maxq] + X_SCALE == r.width);
        }
    }
    SvgPos { n, d, cmp: cmp_copy, width, height, x_pos }
}

} // verus!
