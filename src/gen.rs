//! Classic comparator networks, to feed the verifier.
use vstd::prelude::*;

verus! {

/// Each comparator `(a, b)` has `a < b < n`.
pub open spec fn comparators_in(n: int, cmp: Seq<(usize, usize)>) -> bool {
    forall|k: int| 0 <= k < cmp.len() ==> (#[trigger] cmp[k]).0 < cmp[k].1 && cmp[k].1 < n
}

/// Each comparator joins neighbouring wires below `n`.
pub open spec fn adjacent_in(n: int, cmp: Seq<(usize, usize)>) -> bool {
    forall|k: int| 0 <= k < cmp.len() ==> (#[trigger] cmp[k]).1 == cmp[k].0 + 1 && cmp[k].1 < n
}

pub open spec fn tri(r: int) -> int {
    r * (r + 1) / 2
}

proof fn lemma_tri_step(r: int)
    requires
        r >= 0,
    ensures
        tri(r + 1) == tri(r) + r + 1,
        tri(r) >= 0,
{
    assert((r + 1) * (r + 2) == r * (r + 1) + 2 * (r + 1)) by (nonlinear_arith);
    assert(r * (r + 1) >= 0) by (nonlinear_arith)
        requires r >= 0;
}

/// The row of `d`, searching from row `r`, when 0, 1, 2, ... fill a triangle
/// row by row: row `r` holds the `r + 1` numbers from `r (r + 1) / 2`.
pub open spec fn tri_row_from(d: int, r: int) -> int
    decreases d - r,
{
    if r < 0 || r >= d || tri(r + 1) > d {
        r
    } else {
        tri_row_from(d, r + 1)
    }
}

pub open spec fn tri_row(d: int) -> int {
    tri_row_from(d, 0)
}

proof fn lemma_tri_ge(r: int)
    requires
        r >= 0,
    ensures
        tri(r) >= r,
        tri(r + 1) >= r + 1,
{
    assert(r * (r + 1) >= 2 * r) by (nonlinear_arith)
        requires r >= 0;
    lemma_tri_step(r);
}

/// The row and column of `d` when 0, 1, 2, ... fill a triangle row by row:
/// row `r` holds the `r + 1` numbers from `r (r + 1) / 2`.
pub fn triangular_indices(d: usize) -> (r: (usize, usize))
    requires
        8 * d + 1 <= usize::MAX,
    ensures
        r.0 == tri_row(d as int),
        tri(r.0 as int) <= d < tri(r.0 + 1),
        r.1 == d - tri(r.0 as int),
        r.1 <= r.0,
{
    let mut row: usize = 0;
    let mut start: usize = 0;
    proof {
        lemma_tri_step(0);
    }
    while start + row + 1 <= d
        invariant
            start == tri(row as int),
            start <= d,
            row <= d,
            8 * d + 1 <= usize::MAX,
            tri_row_from(d as int, row as int) == tri_row(d as int),
        decreases d - start,
    {
        proof {
            lemma_tri_step(row as int);
            lemma_tri_ge(row as int);
        }
        start = start + row + 1;
        row += 1;
    }
    proof {
        lemma_tri_step(row as int);
        lemma_tri_ge(row as int);
    }
    (row, d - start)
}

/// Neighbours `(i, i + 1)` for `i = lo, lo + 2, ...` below `hi`.
pub open spec fn step2_pairs(lo: int, hi: int) -> Seq<(usize, usize)> {
    Seq::new(if hi > lo { ((hi - lo + 1) / 2) as nat } else { 0nat }, |k: int| ((lo + 2 * k) as usize, (lo + 2 * k + 1) as usize))
}

/// Round `q` of odd-even transposition on `n` wires.
pub open spec fn oddeven_round(n: int, q: int) -> Seq<(usize, usize)> {
    step2_pairs(q % 2, n - 1)
}

/// The first `p` rounds of odd-even transposition, in order.
pub open spec fn oddeven_rounds(n: int, p: int) -> Seq<(usize, usize)>
    decreases p,
{
    if p <= 0 {
        seq![]
    } else {
        oddeven_rounds(n, p - 1) + oddeven_round(n, p - 1)
    }
}

/// The high end of round `q` of the bubble network that carries maxima up.
pub open spec fn bubble_max_hi(n: int, q: int) -> int {
    if q + 1 < 2 * n - q - 2 { q + 1 } else { 2 * n - q - 2 }
}

/// The first `p` rounds of the bubble network that carries maxima up.
pub open spec fn bubble_max_rounds(n: int, p: int) -> Seq<(usize, usize)>
    decreases p,
{
    if p <= 0 {
        seq![]
    } else {
        bubble_max_rounds(n, p - 1) + step2_pairs((p - 1) % 2, bubble_max_hi(n, p - 1))
    }
}

/// The low end of round `q` of the bubble network that carries minima down.
pub open spec fn bubble_min_lo(n: int, q: int) -> int {
    if n > q + 2 { n - (q + 2) } else { q + 2 - n }
}

/// The first `p` rounds of the bubble network that carries minima down.
pub open spec fn bubble_min_rounds(n: int, p: int) -> Seq<(usize, usize)>
    decreases p,
{
    if p <= 0 {
        seq![]
    } else {
        bubble_min_rounds(n, p - 1) + step2_pairs(bubble_min_lo(n, p - 1), n - 1)
    }
}

/// Appends `(i, i + 1)` for `i = lo, lo + 2, ...` below `hi`.
fn push_step2(cmp: &mut Vec<(usize, usize)>, lo: usize, hi: usize)
    requires
        hi <= 64,
    ensures
        final(cmp)@ == old(cmp)@ + step2_pairs(lo as int, hi as int),
{
    let ghost base = cmp@;
    let ghost pairs = step2_pairs(lo as int, hi as int);
    if lo >= hi {
        proof {
            assert(pairs.len() == 0);
            assert(cmp@ =~= base + pairs);
        }
        return;
    }
    let mut i: usize = lo;
    while i < hi
        invariant
            lo < hi <= 64,
            lo <= i <= hi + 1,
            (i - lo) % 2 == 0,
            pairs == step2_pairs(lo as int, hi as int),
            cmp@ == base + pairs.take(((i - lo) / 2) as int),
        decreases hi + 2 - i,
    {
        let ghost k = ((i - lo) / 2) as int;
        proof {
            assert(k < pairs.len());
            assert(pairs[k] == (i, (i + 1) as usize));
            assert(pairs.take(k + 1) =~= pairs.take(k).push((i, (i + 1) as usize)));
        }
        cmp.push((i, i + 1));
        i += 2;
    }
    proof {
        assert((i - lo) / 2 == pairs.len());
        assert(pairs.take(pairs.len() as int) =~= pairs);
    }
}

proof fn lemma_step2_adjacent(s: Seq<(usize, usize)>, lo: int, hi: int, n: int)
    requires
        adjacent_in(n, s),
        0 <= lo,
        hi <= n - 1,
        n <= 64,
    ensures
        adjacent_in(n, s + step2_pairs(lo, hi)),
{
    let t = s + step2_pairs(lo, hi);
    assert forall|k: int| 0 <= k < t.len() implies (#[trigger] t[k]).1 == t[k].0 + 1 && t[k].1 < n by {
        if k >= s.len() {
            let u = k - s.len();
            assert(t[k] == step2_pairs(lo, hi)[u]);
            assert(hi > lo);
            assert(2 * u < hi - lo) by (nonlinear_arith)
                requires 0 <= u < (hi - lo + 1) / 2, hi > lo;
        } else {
            assert(t[k] == s[k]);
        }
    }
}

/// The bubble network that carries each maximum to the top.
pub fn gen_bubble_max(n: usize) -> (r: Vec<(usize, usize)>)
    requires
        2 <= n <= 64,
    ensures
        r@ == bubble_max_rounds(n as int, 2 * n - 3),
        adjacent_in(n as int, r@),
{
    let mut cmp: Vec<(usize, usize)> = Vec::new();
    let mut p: usize = 0;
    while p < 2 * n - 3
        invariant
            2 <= n <= 64,
            p <= 2 * n - 3,
            cmp@ == bubble_max_rounds(n as int, p as int),
            adjacent_in(n as int, cmp@),
        decreases 2 * n - 3 - p,
    {
        let hi = if p + 1 < 2 * n - p - 2 { p + 1 } else { 2 * n - p - 2 };
        proof {
            lemma_step2_adjacent(cmp@, (p % 2) as int, hi as int, n as int);
        }
        push_step2(&mut cmp, p % 2, hi);
        p += 1;
    }
    cmp
}

/// The bubble network that carries each minimum to the bottom.
pub fn gen_bubble_min(n: usize) -> (r: Vec<(usize, usize)>)
    requires
        2 <= n <= 64,
    ensures
        r@ == bubble_min_rounds(n as int, 2 * n - 3),
        adjacent_in(n as int, r@),
{
    let mut cmp: Vec<(usize, usize)> = Vec::new();
    let mut p: usize = 0;
    while p < 2 * n - 3
        invariant
            2 <= n <= 64,
            p <= 2 * n - 3,
            cmp@ == bubble_min_rounds(n as int, p as int),
            adjacent_in(n as int, cmp@),
        decreases 2 * n - 3 - p,
    {
        let lo: usize = if n > p + 2 { n - (p + 2) } else { p + 2 - n };
        proof {
            lemma_step2_adjacent(cmp@, lo as int, n - 1, n as int);
        }
        push_step2(&mut cmp, lo, n - 1);
        p += 1;
    }
    cmp
}

/// Odd-even transposition sort: `n` rounds of neighbour comparisons.
pub fn gen_oddeven(n: usize) -> (r: Vec<(usize, usize)>)
    requires
        2 <= n <= 64,
    ensures
        r@ == oddeven_rounds(n as int, n as int),
        adjacent_in(n as int, r@),
{
    let mut cmp: Vec<(usize, usize)> = Vec::new();
    let mut p: usize = 0;
    while p < n
        invariant
            2 <= n <= 64,
            p <= n,
            cmp@ == oddeven_rounds(n as int, p as int),
            adjacent_in(n as int, cmp@),
        decreases n - p,
    {
        proof {
            lemma_step2_adjacent(cmp@, (p % 2) as int, n - 1, n as int);
        }
        push_step2(&mut cmp, p % 2, n - 1);
        p += 1;
    }
    cmp
}

/// The exponent of the least power of two at least `n`, searching up from
/// `p == 2^r`.
pub open spec fn clog2_from(n: int, r: int, p: int) -> int
    decreases n - r,
{
    if p <= 0 || p >= n || r >= n {
        r
    } else {
        clog2_from(n, r + 1, 2 * p)
    }
}

proof fn lemma_clog2_ge(n: int, r: int, p: int)
    ensures
        clog2_from(n, r, p) >= r,
    decreases n - r,
{
    if !(p <= 0 || p >= n || r >= n) {
        lemma_clog2_ge(n, r + 1, 2 * p);
    }
}

/// The exponent of the least power of two at least `n`.
pub open spec fn clog2(n: int) -> int {
    clog2_from(n, 0, 1)
}

fn ceil_log2(n: usize) -> (r: usize)
    requires
        1 <= n <= 64,
    ensures
        r == clog2(n as int),
        r <= 6,
{
    let mut r: usize = 0;
    let mut p: usize = 1;
    while p < n
        invariant
            1 <= n <= 64,
            r <= 6,
            clog2_from(n as int, r as int, p as int) == clog2(n as int),
            r < p,
            p == if r == 0 { 1usize } else if r == 1 { 2 } else if r == 2 { 4 } else if r == 3 { 8 } else if r
                == 4 { 16 } else if r == 5 { 32 } else { 64 },
        decreases 64 - p,
    {
        p = p * 2;
        r += 1;
    }
    r
}

/// The three layered constructions.
#[derive(Clone, Copy, Debug)]
pub enum Construction {
    Bitonic,
    Batcher,
    Pairwise,
}

/// The parameters `(m, p)` of layer `d` of a construction with `2^r` wires.
pub open spec fn layer_params(c: Construction, r: int, d: int) -> (int, int) {
    match c {
        Construction::Pairwise => if d < r {
            (0, d)
        } else {
            (tri_row(d - r) + 1, d - r - tri(tri_row(d - r)))
        },
        _ => (tri_row(d), d - tri(tri_row(d))),
    }
}

/// The wire that `i` is compared with in the layer with parameters `(m, p)`.
pub open spec fn partner(c: Construction, i: usize, m: usize, p: usize, r: usize) -> usize {
    match c {
        Construction::Bitonic => if p == 0 {
            i ^ (((2usize << m) - 1) as usize)
        } else {
            i ^ (1usize << ((m - p) as usize))
        },
        Construction::Batcher => if p == 0 {
            i ^ (1usize << m)
        } else {
            let scale = (m - p) as usize;
            let boxmask = ((2usize << p) - 1) as usize;
            let sn = (i >> scale) & boxmask;
            if sn == 0 || sn == boxmask {
                i
            } else if (sn & 1) == 0 {
                (i - (1usize << scale)) as usize
            } else {
                (i + (1usize << scale)) as usize
            }
        },
        Construction::Pairwise => if m == 0 {
            i ^ (1usize << p)
        } else {
            let dj = ((1usize << ((r - p - 1) as usize)) - (1usize << ((r - m - 1) as usize))) as usize;
            if ((i >> ((r - m - 1) as usize)) & 1) == 0 {
                if i >= dj {
                    (i - dj) as usize
                } else {
                    i
                }
            } else {
                (i + dj) as usize
            }
        },
    }
}

/// `(i, j)` when it is a comparator on `n` wires.
pub open spec fn pair_if_valid(n: int, i: usize, j: usize) -> Seq<(usize, usize)> {
    if i < j && j < n {
        seq![(i, j)]
    } else {
        seq![]
    }
}

/// The comparators of one layer from wires `0..k`.
pub open spec fn layer(c: Construction, n: int, m: usize, p: usize, r: usize, k: int) -> Seq<(usize, usize)>
    decreases k,
{
    if k <= 0 {
        seq![]
    } else {
        layer(c, n, m, p, r, k - 1) + pair_if_valid(n, (k - 1) as usize, partner(c, (k - 1) as usize, m, p, r))
    }
}

/// The first `d` layers of a construction on `n` wires.
pub open spec fn layers(c: Construction, n: int, r: int, d: int) -> Seq<(usize, usize)>
    decreases d,
{
    if d <= 0 {
        seq![]
    } else {
        let mp = layer_params(c, r, d - 1);
        layers(c, n, r, d - 1) + layer(c, n, mp.0 as usize, mp.1 as usize, r as usize, n)
    }
}

/// The whole network of a construction on `n` wires: `r (r + 1) / 2` layers
/// for the least `2^r >= n`.
pub open spec fn construction_net(c: Construction, n: int) -> Seq<(usize, usize)> {
    layers(c, n, clog2(n), tri(clog2(n)))
}

pub open spec fn bitonic_net(n: int) -> Seq<(usize, usize)> {
    construction_net(Construction::Bitonic, n)
}

pub open spec fn batcher_net(n: int) -> Seq<(usize, usize)> {
    construction_net(Construction::Batcher, n)
}

pub open spec fn pairwise_net(n: int) -> Seq<(usize, usize)> {
    construction_net(Construction::Pairwise, n)
}

/// Pushes `(i, j)` when it is a comparator on `n` wires.
fn push_if_valid(cmp: &mut Vec<(usize, usize)>, n: usize, i: usize, j: usize)
    requires
        comparators_in(n as int, old(cmp)@),
    ensures
        comparators_in(n as int, final(cmp)@),
        final(cmp)@ == old(cmp)@ + pair_if_valid(n as int, i, j),
{
    let ghost before = cmp@;
    if i < j && j < n {
        cmp.push((i, j));
        proof {
            assert(cmp@ =~= before + seq![(i, j)]);
        }
    } else {
        proof {
            assert(cmp@ =~= before + Seq::<(usize, usize)>::empty());
        }
    }
}

proof fn lemma_shift_bounds(i: usize, s: usize, b: usize)
    requires
        s < 6,
    ensures
        1 <= (1usize << s) <= 32,
        ((i >> s) & b) != 0 ==> i >= (1usize << s),
        (2usize << s) >= 2,
{
    assert(1 <= (1usize << s) <= 32 && (((i >> s) & b) != 0 ==> i >= (1usize << s)) && (2usize << s) >= 2) by (bit_vector)
        requires s < 6;
}

proof fn lemma_shift_mono(a: usize, b: usize)
    requires
        b <= a < 6,
    ensures
        (1usize << b) <= (1usize << a) <= 32,
{
    assert((1usize << b) <= (1usize << a) <= 32) by (bit_vector)
        requires b <= a < 6;
}

/// The parameters of a layer, with the bounds its partner needs.
fn layer_params_exec(c: Construction, r: usize, d: usize) -> (mp: (usize, usize))
    requires
        1 <= r <= 6,
        d < tri(r as int),
    ensures
        mp.0 as int == layer_params(c, r as int, d as int).0,
        mp.1 as int == layer_params(c, r as int, d as int).1,
        mp.0 < r,
        match c {
            Construction::Pairwise => (mp.0 == 0 ==> mp.1 < r) && (mp.0 > 0 ==> mp.1 < mp.0),
            _ => mp.1 <= mp.0,
        },
{
    proof {
        assert(r * (r + 1) <= 42) by (nonlinear_arith)
            requires r <= 6;
    }
    match c {
        Construction::Pairwise => {
            if d < r {
                (0, d)
            } else {
                let (tm, tp) = triangular_indices(d - r);
                proof {
                    assert(r * (r + 1) / 2 - r == (r - 1) * r / 2) by (nonlinear_arith)
                        requires r >= 1;
                    assert(tm < r - 1) by (nonlinear_arith)
                        requires tm * (tm + 1) / 2 <= d - r, d - r < (r - 1) * r / 2, tm >= 0, r >= 1;
                }
                (tm + 1, tp)
            }
        },
        _ => {
            let (m, p) = triangular_indices(d);
            proof {
                assert(m < r) by (nonlinear_arith)
                    requires m * (m + 1) / 2 <= d, d < r * (r + 1) / 2, m >= 0, r >= 1;
            }
            (m, p)
        },
    }
}

/// The wire that `i` is compared with.
fn partner_exec(c: Construction, i: usize, m: usize, p: usize, r: usize) -> (j: usize)
    requires
        i < 64,
        1 <= r <= 6,
        m < r,
        match c {
            Construction::Pairwise => (m == 0 ==> p < r) && (m > 0 ==> p < m),
            _ => p <= m,
        },
    ensures
        j == partner(c, i, m, p, r),
{
    match c {
        Construction::Bitonic => {
            proof {
                lemma_shift_bounds(i, m, 0);
            }
            if p == 0 {
                i ^ ((2usize << m) - 1)
            } else {
                i ^ (1usize << (m - p))
            }
        },
        Construction::Batcher => {
            if p == 0 {
                i ^ (1usize << m)
            } else {
                let scale = m - p;
                proof {
                    lemma_shift_bounds(i, p, 0);
                }
                let boxmask = (2usize << p) - 1;
                let sn = (i >> scale) & boxmask;
                proof {
                    lemma_shift_bounds(i, scale, boxmask);
                }
                if sn == 0 || sn == boxmask {
                    i
                } else if (sn & 1) == 0 {
                    i - (1usize << scale)
                } else {
                    i + (1usize << scale)
                }
            }
        },
        Construction::Pairwise => {
            if m == 0 {
                proof {
                    lemma_shift_bounds(i, p, 0);
                }
                i ^ (1usize << p)
            } else {
                proof {
                    lemma_shift_mono((r - p - 1) as usize, (r - m - 1) as usize);
                    lemma_shift_bounds(i, (r - m - 1) as usize, 1);
                }
                let dj = (1usize << (r - p - 1)) - (1usize << (r - m - 1));
                if ((i >> (r - m - 1)) & 1) == 0 {
                    if i >= dj {
                        i - dj
                    } else {
                        i
                    }
                } else {
                    i + dj
                }
            }
        },
    }
}

/// The network of a layered construction on `n` wires.
fn gen_layered(n: usize, c: Construction) -> (r: Vec<(usize, usize)>)
    requires
        2 <= n <= 64,
    ensures
        r@ == construction_net(c, n as int),
        comparators_in(n as int, r@),
        r@.len() <= 64 * 21,
{
    let mut cmp: Vec<(usize, usize)> = Vec::new();
    let r = ceil_log2(n);
    proof {
        assert(r >= 1) by {
            assert(clog2_from(n as int, 0, 1) == clog2_from(n as int, 1, 2));
            lemma_clog2_ge(n as int, 1, 2);
        }
        assert(r * (r + 1) <= 42) by (nonlinear_arith)
            requires r <= 6;
    }
    let total = r * (r + 1) / 2;
    let mut d: usize = 0;
    while d < total
        invariant
            2 <= n <= 64,
            1 <= r <= 6,
            r == clog2(n as int),
            total == r * (r + 1) / 2,
            total == tri(r as int),
            total <= 21,
            d <= total,
            cmp@ == layers(c, n as int, r as int, d as int),
            cmp@.len() <= 64 * d,
            comparators_in(n as int, cmp@),
        decreases total - d,
    {
        let (m, p) = layer_params_exec(c, r, d);
        let ghost base = cmp@;
        let mut i: usize = 0;
        while i < n
            invariant
                2 <= n <= 64,
                1 <= r <= 6,
                m < r,
                match c {
                    Construction::Pairwise => (m == 0 ==> p < r) && (m > 0 ==> p < m),
                    _ => p <= m,
                },
                i <= n,
                cmp@ == base + layer(c, n as int, m, p, r, i as int),
                cmp@.len() <= base.len() + i,
                comparators_in(n as int, cmp@),
            decreases n - i,
        {
            let j = partner_exec(c, i, m, p, r);
            push_if_valid(&mut cmp, n, i, j);
            proof {
                assert(((i + 1) - 1) as usize == i);
                assert(base + layer(c, n as int, m, p, r, i + 1) =~= base + layer(c, n as int, m, p, r, i as int)
                    + pair_if_valid(n as int, i, j));
            }
            i += 1;
        }
        d += 1;
    }
    cmp
}

/// Batcher's bitonic sorting network.
pub fn gen_bitonic(n: usize) -> (r: Vec<(usize, usize)>)
    requires
        2 <= n <= 64,
    ensures
        r@ == bitonic_net(n as int),
        comparators_in(n as int, r@),
        r@.len() <= 64 * 21,
{
    gen_layered(n, Construction::Bitonic)
}

/// Batcher's odd-even merge sorting network.
pub fn gen_batcher(n: usize) -> (r: Vec<(usize, usize)>)
    requires
        2 <= n <= 64,
    ensures
        r@ == batcher_net(n as int),
        comparators_in(n as int, r@),
        r@.len() <= 64 * 21,
{
    gen_layered(n, Construction::Batcher)
}

/// The pairwise sorting network.
pub fn gen_pairwise(n: usize) -> (r: Vec<(usize, usize)>)
    requires
        2 <= n <= 64,
    ensures
        r@ == pairwise_net(n as int),
        comparators_in(n as int, r@),
        r@.len() <= 64 * 21,
{
    gen_layered(n, Construction::Pairwise)
}

} // verus!
