//! What a state pair stands for: a set of 0/1 assignments to wires. A
//! comparator job turns the assignments of a pair into exactly the
//! assignments of its output pairs, and an unsorted bit marks a pair with an
//! assignment that is out of order.
use vstd::prelude::*;
use crate::bits::bit;
use crate::exec::{lemma_step_support, outs_all, fired_all, fired_from, or_pair, product, entries_ok, flip, may_swap, must_swap, outs_from, support, swap_bits, unsorted_in, StatePair};
use crate::plan::{shares_wire, CeEntry};

verus! {

/// `x` (bit `i` the value on wire `i`) is one of the assignments that the
/// pair `(z, o)` stands for: a 1 only where 1 may stand, a 0 only where 0
/// may stand, and nothing outside the pair's wires.
pub open spec fn cube_bv(x: u64, z: u64, o: u64) -> bool {
    &&& x & !o == 0
    &&& ((z | o) & !x) & !z == 0
    &&& x & !(z | o) == 0
}

pub open spec fn in_cube(x: u64, p: StatePair) -> bool {
    cube_bv(x, p.0, p.1)
}

/// Comparator `(a, b)` on an assignment: a 1 at `a` over a 0 at `b` swap.
pub open spec fn cmp_bv(x: u64, a: u64, b: u64) -> u64 {
    if (x >> a) & 1 == 1 && (x >> b) & 1 == 0 {
        x ^ (1u64 << a) ^ (1u64 << b)
    } else {
        x
    }
}

/// The comparators `es[i..]` applied in order to an assignment.
pub open spec fn run_entries(x: u64, es: Seq<CeEntry>, i: int) -> u64
    decreases es.len() - i,
{
    if i < 0 || i >= es.len() {
        x
    } else {
        run_entries(cmp_bv(x, es[i].a as u64, es[i].b as u64), es, i + 1)
    }
}

/// The wires of the comparators `es[i..]` are wires of `mask`.
pub open spec fn entries_within(es: Seq<CeEntry>, i: int, mask: u64) -> bool {
    forall|k: int| i <= k < es.len() ==> bit(mask, (#[trigger] es[k]).a as int) && bit(mask, es[k].b as int)
}

proof fn lemma_step_noop(x: u64, z: u64, o: u64, a: u64, b: u64)
    requires
        a < b < 64,
        ((z | o) >> b) & 1 == 1,
        !((o >> a) & 1 == 1 && (z >> b) & 1 == 1),
        cube_bv(x, z, o),
    ensures
        cmp_bv(x, a, b) == x,
{
    assert(cmp_bv(x, a, b) == x) by (bit_vector)
        requires
            a < b < 64,
            ((z | o) >> b) & 1 == 1,
            !((o >> a) & 1 == 1 && (z >> b) & 1 == 1),
            cube_bv(x, z, o);
}

proof fn lemma_step_swap(x: u64, y: u64, z: u64, o: u64, a: u64, b: u64)
    requires
        a < b < 64,
        (o >> a) & 1 == 1,
        (z >> b) & 1 == 1,
        !((z >> a) & 1 == 1 && (o >> b) & 1 == 1),
    ensures
        cube_bv(x, z, o) ==> cube_bv(cmp_bv(x, a, b), swap_bits(z, a as int, b as int), swap_bits(o, a as int, b as int)),
        cube_bv(y, swap_bits(z, a as int, b as int), swap_bits(o, a as int, b as int)) ==> {
            let w = if (y >> a) & 1 == 0 && (y >> b) & 1 == 1 { y ^ (1u64 << a) ^ (1u64 << b) } else { y };
            cube_bv(w, z, o) && cmp_bv(w, a, b) == y
        },
{
    let sz = swap_bits(z, a as int, b as int);
    let so = swap_bits(o, a as int, b as int);
    assert(sz == z ^ (((((z >> a) ^ (z >> b)) & 1u64) << a) | ((((z >> a) ^ (z >> b)) & 1u64) << b)));
    assert(so == o ^ (((((o >> a) ^ (o >> b)) & 1u64) << a) | ((((o >> a) ^ (o >> b)) & 1u64) << b)));
    assert(cube_bv(x, z, o) ==> cube_bv(cmp_bv(x, a, b), sz, so)) by (bit_vector)
        requires
            a < b < 64,
            (o >> a) & 1 == 1,
            (z >> b) & 1 == 1,
            !((z >> a) & 1 == 1 && (o >> b) & 1 == 1),
            sz == z ^ (((((z >> a) ^ (z >> b)) & 1u64) << a) | ((((z >> a) ^ (z >> b)) & 1u64) << b)),
            so == o ^ (((((o >> a) ^ (o >> b)) & 1u64) << a) | ((((o >> a) ^ (o >> b)) & 1u64) << b));
    assert(cube_bv(y, sz, so) ==> {
        let w = if (y >> a) & 1 == 0 && (y >> b) & 1 == 1 { y ^ (1u64 << a) ^ (1u64 << b) } else { y };
        cube_bv(w, z, o) && cmp_bv(w, a, b) == y
    }) by (bit_vector)
        requires
            a < b < 64,
            (o >> a) & 1 == 1,
            (z >> b) & 1 == 1,
            !((z >> a) & 1 == 1 && (o >> b) & 1 == 1),
            sz == z ^ (((((z >> a) ^ (z >> b)) & 1u64) << a) | ((((z >> a) ^ (z >> b)) & 1u64) << b)),
            so == o ^ (((((o >> a) ^ (o >> b)) & 1u64) << a) | ((((o >> a) ^ (o >> b)) & 1u64) << b));
}

proof fn lemma_step_branch(x: u64, y: u64, z: u64, o: u64, a: u64, b: u64)
    requires
        a < b < 64,
        (o >> a) & 1 == 1,
        (z >> b) & 1 == 1,
        (z >> a) & 1 == 1,
        (o >> b) & 1 == 1,
    ensures
        cube_bv(x, z, o) ==> cube_bv(cmp_bv(x, a, b), z, o ^ (1u64 << a) ^ (1u64 << b)) || cube_bv(
            cmp_bv(x, a, b),
            z ^ (1u64 << b),
            o,
        ),
        cube_bv(y, z, o ^ (1u64 << a) ^ (1u64 << b)) || cube_bv(y, z ^ (1u64 << b), o) ==> cube_bv(y, z, o)
            && cmp_bv(y, a, b) == y,
{
    assert(cube_bv(x, z, o) ==> cube_bv(cmp_bv(x, a, b), z, o ^ (1u64 << a) ^ (1u64 << b)) || cube_bv(
        cmp_bv(x, a, b),
        z ^ (1u64 << b),
        o,
    )) by (bit_vector)
        requires
            a < b < 64,
            (o >> a) & 1 == 1,
            (z >> b) & 1 == 1,
            (z >> a) & 1 == 1,
            (o >> b) & 1 == 1;
    assert(cube_bv(y, z, o ^ (1u64 << a) ^ (1u64 << b)) || cube_bv(y, z ^ (1u64 << b), o) ==> cube_bv(y, z, o)
        && cmp_bv(y, a, b) == y) by (bit_vector)
        requires
            a < b < 64,
            (o >> a) & 1 == 1,
            (z >> b) & 1 == 1,
            (z >> a) & 1 == 1,
            (o >> b) & 1 == 1;
}

/// Every assignment of `(z, o)`, run through the comparators `es[i..]`,
/// is an assignment of one of the pairs that the job makes of `(z, o)`.
pub proof fn lemma_job_covers(z: u64, o: u64, es: Seq<CeEntry>, i: int, x: u64)
    requires
        entries_ok(es, u64::MAX as int),
        0 <= i,
        entries_within(es, i, z | o),
        cube_bv(x, z, o),
    ensures
        exists|q: StatePair| #[trigger] outs_from(z, o, es, i).contains(q) && in_cube(run_entries(x, es, i), q),
    decreases es.len() - i,
{
    if i >= es.len() {
        assert(outs_from(z, o, es, i).contains((z, o)));
    } else {
        let e = es[i];
        let a = e.a as u64;
        let b = e.b as u64;
        assert(bit(z | o, a as int) && bit(z | o, b as int));
        let cx = cmp_bv(x, a, b);
        assert(run_entries(x, es, i) == run_entries(cx, es, i + 1));
        if !may_swap(z, o, a as int, b as int) {
            lemma_step_noop(x, z, o, a, b);
            lemma_job_covers(z, o, es, i + 1, x);
            let q = choose|q: StatePair| #[trigger] outs_from(z, o, es, i + 1).contains(q) && in_cube(run_entries(x, es, i + 1), q);
            assert(outs_from(z, o, es, i).contains(q));
        } else {
            lemma_step_support(z, o, a, b);
            if must_swap(z, o, a as int, b as int) {
                let sz = swap_bits(z, a as int, b as int);
                let so = swap_bits(o, a as int, b as int);
                lemma_step_swap(x, x, z, o, a, b);
                lemma_job_covers(sz, so, es, i + 1, cx);
                let q = choose|q: StatePair| #[trigger] outs_from(sz, so, es, i + 1).contains(q) && in_cube(run_entries(cx, es, i + 1), q);
                assert(outs_from(z, o, es, i).contains(q));
            } else {
                lemma_step_branch(x, x, z, o, a, b);
                let po = flip(flip(o, a as int), b as int);
                let iz = flip(z, b as int);
                if cube_bv(cx, z, po) {
                    lemma_job_covers(z, po, es, i + 1, cx);
                    let q = choose|q: StatePair| #[trigger] outs_from(z, po, es, i + 1).contains(q) && in_cube(run_entries(cx, es, i + 1), q);
                    assert(outs_from(z, o, es, i).contains(q));
                } else {
                    lemma_job_covers(iz, o, es, i + 1, cx);
                    let q = choose|q: StatePair| #[trigger] outs_from(iz, o, es, i + 1).contains(q) && in_cube(run_entries(cx, es, i + 1), q);
                    assert(outs_from(z, o, es, i).contains(q));
                }
            }
        }
    }
}

/// Every assignment of a pair that the job makes of `(z, o)` is the result
/// of running the comparators `es[i..]` on some assignment of `(z, o)`: the
/// pairs stand for the outputs and nothing more.
#[verifier::rlimit(50)]
pub proof fn lemma_job_exact(z: u64, o: u64, es: Seq<CeEntry>, i: int, q: StatePair, y: u64)
    requires
        entries_ok(es, u64::MAX as int),
        0 <= i,
        entries_within(es, i, z | o),
        outs_from(z, o, es, i).contains(q),
        in_cube(y, q),
    ensures
        exists|x: u64| #[trigger] cube_bv(x, z, o) && run_entries(x, es, i) == y,
    decreases es.len() - i,
{
    if i >= es.len() {
        assert(q == (z, o));
        assert(cube_bv(y, z, o) && run_entries(y, es, i) == y);
    } else {
        let e = es[i];
        let a = e.a as u64;
        let b = e.b as u64;
        assert(bit(z | o, a as int) && bit(z | o, b as int));
        if !may_swap(z, o, a as int, b as int) {
            lemma_job_exact(z, o, es, i + 1, q, y);
            let x = choose|x: u64| #[trigger] cube_bv(x, z, o) && run_entries(x, es, i + 1) == y;
            lemma_step_noop(x, z, o, a, b);
            assert(run_entries(x, es, i) == run_entries(cmp_bv(x, a, b), es, i + 1));
            assert(cube_bv(x, z, o) && run_entries(x, es, i) == y);
        } else {
            lemma_step_support(z, o, a, b);
            if must_swap(z, o, a as int, b as int) {
                let sz = swap_bits(z, a as int, b as int);
                let so = swap_bits(o, a as int, b as int);
                lemma_job_exact(sz, so, es, i + 1, q, y);
                let x1 = choose|x: u64| #[trigger] cube_bv(x, sz, so) && run_entries(x, es, i + 1) == y;
                lemma_step_swap(x1, x1, z, o, a, b);
                let w = if (x1 >> a) & 1 == 0 && (x1 >> b) & 1 == 1 { x1 ^ (1u64 << a) ^ (1u64 << b) } else { x1 };
                assert(run_entries(w, es, i) == run_entries(cmp_bv(w, a, b), es, i + 1));
                assert(cube_bv(w, z, o) && run_entries(w, es, i) == y);
            } else {
                let po = flip(flip(o, a as int), b as int);
                let iz = flip(z, b as int);
                let x1 = if outs_from(z, po, es, i + 1).contains(q) {
                    lemma_job_exact(z, po, es, i + 1, q, y);
                    let x1 = choose|x: u64| #[trigger] cube_bv(x, z, po) && run_entries(x, es, i + 1) == y;
                    x1
                } else {
                    assert(outs_from(iz, o, es, i + 1).contains(q));
                    lemma_job_exact(iz, o, es, i + 1, q, y);
                    let x1 = choose|x: u64| #[trigger] cube_bv(x, iz, o) && run_entries(x, es, i + 1) == y;
                    x1
                };
                lemma_step_branch(x1, x1, z, o, a, b);
                assert(run_entries(x1, es, i) == run_entries(cmp_bv(x1, a, b), es, i + 1));
                assert(cube_bv(x1, z, o) && run_entries(x1, es, i) == y);
            }
        }
    }
}

proof fn lemma_witness_bv(z: u64, o: u64, i: u64, j: u64)
    requires
        i < j < 64,
        ((z | o) >> i) & 1 == 1,
        ((z | o) >> j) & 1 == 1,
    ensures
        ((o >> i) & 1 == 1 && (z >> j) & 1 == 1) ==> {
            let x = (o & !z) | (1u64 << i);
            cube_bv(x, z, o) && (x >> i) & 1 == 1 && (x >> j) & 1 == 0
        },
{
    assert(((o >> i) & 1 == 1 && (z >> j) & 1 == 1) ==> {
        let x = (o & !z) | (1u64 << i);
        cube_bv(x, z, o) && (x >> i) & 1 == 1 && (x >> j) & 1 == 0
    }) by (bit_vector)
        requires
            i < j < 64;
}

proof fn lemma_witness_back_bv(x: u64, z: u64, o: u64, i: u64, j: u64)
    requires
        i < j < 64,
        ((z | o) >> j) & 1 == 1,
        cube_bv(x, z, o),
        (x >> i) & 1 == 1,
        (x >> j) & 1 != 1,
    ensures
        (o >> i) & 1 == 1 && (z >> j) & 1 == 1,
{
    assert((o >> i) & 1 == 1 && (z >> j) & 1 == 1) by (bit_vector)
        requires
            i < j < 64,
            ((z | o) >> j) & 1 == 1,
            cube_bv(x, z, o),
            (x >> i) & 1 == 1,
            (x >> j) & 1 != 1;
}

/// For wires `i < j` of a pair, the pair marks `(i, j)` out of order exactly
/// when one of its assignments has 1 at `i` and 0 at `j`.
pub proof fn lemma_unsorted_meaning(p: StatePair, i: int, j: int)
    requires
        0 <= i < j < 64,
        bit(support(p), i),
        bit(support(p), j),
    ensures
        unsorted_in(seq![p], i, j) <==> exists|x: u64| #[trigger] in_cube(x, p) && bit(x, i) && !bit(x, j),
{
    let (z, o) = p;
    lemma_witness_bv(z, o, i as u64, j as u64);
    if unsorted_in(seq![p], i, j) {
        assert(seq![p][0] == p);
        let x = (o & !z) | (1u64 << (i as u64));
        assert(in_cube(x, p) && bit(x, i) && !bit(x, j));
    }
    if exists|x: u64| #[trigger] in_cube(x, p) && bit(x, i) && !bit(x, j) {
        let x = choose|x: u64| #[trigger] in_cube(x, p) && bit(x, i) && !bit(x, j);
        lemma_witness_back_bv(x, z, o, i as u64, j as u64);
        assert(seq![p][0] == p);
    }
}

/// `y` is an assignment of some pair of `ps`.
pub open spec fn stands_for(ps: Seq<StatePair>, y: u64) -> bool {
    exists|k: int| 0 <= k < ps.len() && #[trigger] in_cube(y, ps[k])
}

/// `y` is an assignment of some pair of the set `s`.
pub open spec fn set_stands_for(s: Set<StatePair>, y: u64) -> bool {
    exists|q: StatePair| #[trigger] s.contains(q) && in_cube(y, q)
}

proof fn lemma_outs_all_contains(ps: Seq<StatePair>, es: Seq<CeEntry>, k: int, q: StatePair)
    requires
        0 <= k < ps.len(),
        outs_from(ps[k].0, ps[k].1, es, 0).contains(q),
    ensures
        outs_all(ps, es).contains(q),
    decreases ps.len(),
{
    if k < ps.len() - 1 {
        assert(ps.drop_last()[k] == ps[k]);
        lemma_outs_all_contains(ps.drop_last(), es, k, q);
    }
}

/// A comparator job on a state set over the wires `mask` is exact: the
/// assignments of its output set are the outputs of the comparators on the
/// assignments of the input set, no more and no fewer.
pub proof fn lemma_cmp_job_exact(ps: Seq<StatePair>, es: Seq<CeEntry>, mask: u64, y: u64)
    requires
        entries_ok(es, u64::MAX as int),
        entries_within(es, 0, mask),
        forall|k: int| 0 <= k < ps.len() ==> support(#[trigger] ps[k]) == mask,
    ensures
        set_stands_for(outs_all(ps, es), y) <==> exists|x: u64| #[trigger] stands_for(ps, x) && run_entries(x, es, 0) == y,
    decreases ps.len(),
{
    if ps.len() > 0 {
        let d = ps.drop_last();
        let l = ps.last();
        assert(support(ps[ps.len() - 1]) == mask);
        assert forall|k: int| 0 <= k < d.len() implies support(#[trigger] d[k]) == mask by {
            assert(d[k] == ps[k]);
        }
        lemma_cmp_job_exact(d, es, mask, y);
        if set_stands_for(outs_all(ps, es), y) {
            let q = choose|q: StatePair| #[trigger] outs_all(ps, es).contains(q) && in_cube(y, q);
            if outs_all(d, es).contains(q) {
                let x = choose|x: u64| #[trigger] stands_for(d, x) && run_entries(x, es, 0) == y;
                let k = choose|k: int| 0 <= k < d.len() && #[trigger] in_cube(x, d[k]);
                assert(ps[k] == d[k]);
                assert(stands_for(ps, x));
            } else {
                assert(outs_from(l.0, l.1, es, 0).contains(q));
                lemma_job_exact(l.0, l.1, es, 0, q, y);
                let x = choose|x: u64| #[trigger] cube_bv(x, l.0, l.1) && run_entries(x, es, 0) == y;
                assert(in_cube(x, ps[ps.len() - 1]));
                assert(stands_for(ps, x));
            }
        }
        if exists|x: u64| #[trigger] stands_for(ps, x) && run_entries(x, es, 0) == y {
            let x = choose|x: u64| #[trigger] stands_for(ps, x) && run_entries(x, es, 0) == y;
            let k = choose|k: int| 0 <= k < ps.len() && #[trigger] in_cube(x, ps[k]);
            let p = ps[k];
            assert(support(p) == mask);
            lemma_job_covers(p.0, p.1, es, 0, x);
            let q = choose|q: StatePair| #[trigger] outs_from(p.0, p.1, es, 0).contains(q) && in_cube(run_entries(x, es, 0), q);
            lemma_outs_all_contains(ps, es, k, q);
            assert(set_stands_for(outs_all(ps, es), y));
        }
    }
}

proof fn lemma_or_cube_bv(xm: u64, xs: u64, y: u64, zm: u64, om: u64, zs: u64, os: u64)
    requires
        (zm | om) & (zs | os) == 0,
    ensures
        cube_bv(xm, zm, om) && cube_bv(xs, zs, os) ==> cube_bv(xm | xs, zm | zs, om | os),
        cube_bv(y, zm | zs, om | os) ==> cube_bv(y & (zm | om), zm, om) && cube_bv(y & (zs | os), zs, os)
            && y == (y & (zm | om)) | (y & (zs | os)),
{
    assert((cube_bv(xm, zm, om) && cube_bv(xs, zs, os) ==> cube_bv(xm | xs, zm | zs, om | os))
        && (cube_bv(y, zm | zs, om | os) ==> cube_bv(y & (zm | om), zm, om) && cube_bv(y & (zs | os), zs, os)
        && y == (y & (zm | om)) | (y & (zs | os)))) by (bit_vector)
        requires
            (zm | om) & (zs | os) == 0;
}

proof fn lemma_product_has(master: Seq<StatePair>, slave: Seq<StatePair>, i: int, j: int)
    requires
        0 <= i < master.len(),
        0 <= j < slave.len(),
    ensures
        exists|k: int| 0 <= k < product(master, slave).len() && #[trigger] product(master, slave)[k] == or_pair(master[i], slave[j]),
    decreases slave.len(),
{
    let d = slave.drop_last();
    let pd = product(master, d);
    let tail = master.map_values(|q: StatePair| or_pair(q, slave.last()));
    assert(product(master, slave) == pd + tail);
    if j == slave.len() - 1 {
        assert(product(master, slave)[pd.len() + i] == or_pair(master[i], slave[j]));
    } else {
        lemma_product_has(master, d, i, j);
        let k = choose|k: int| 0 <= k < pd.len() && #[trigger] pd[k] == or_pair(master[i], d[j]);
        assert(d[j] == slave[j]);
        assert(product(master, slave)[k] == pd[k]);
    }
}

proof fn lemma_product_from(master: Seq<StatePair>, slave: Seq<StatePair>, k: int)
    requires
        0 <= k < product(master, slave).len(),
    ensures
        exists|i: int, j: int| 0 <= i < master.len() && 0 <= j < slave.len() && product(master, slave)[k] == #[trigger] or_pair(master[i], slave[j]),
    decreases slave.len(),
{
    let d = slave.drop_last();
    let pd = product(master, d);
    let tail = master.map_values(|q: StatePair| or_pair(q, slave.last()));
    assert(product(master, slave) == pd + tail);
    if k < pd.len() {
        lemma_product_from(master, d, k);
        let (i, j) = choose|i: int, j: int| 0 <= i < master.len() && 0 <= j < d.len() && pd[k] == #[trigger] or_pair(master[i], d[j]);
        assert(d[j] == slave[j]);
        assert(product(master, slave)[k] == or_pair(master[i], slave[j]));
    } else {
        let i = k - pd.len();
        assert(product(master, slave)[k] == or_pair(master[i], slave[slave.len() - 1]));
    }
}

/// Combining two state sets over disjoint wires is exact: the assignments of
/// the pairwise union are the unions of an assignment of each.
pub proof fn lemma_combine_exact(master: Seq<StatePair>, slave: Seq<StatePair>, y: u64)
    requires
        forall|i: int, j: int|
            0 <= i < master.len() && 0 <= j < slave.len() ==> support(#[trigger] master[i]) & support(#[trigger] slave[j]) == 0,
    ensures
        stands_for(product(master, slave), y) <==> exists|xm: u64, xs: u64|
            #[trigger] stands_for(master, xm) && #[trigger] stands_for(slave, xs) && y == xm | xs,
{
    let p = product(master, slave);
    if stands_for(p, y) {
        let k = choose|k: int| 0 <= k < p.len() && #[trigger] in_cube(y, p[k]);
        lemma_product_from(master, slave, k);
        let (i, j) = choose|i: int, j: int| 0 <= i < master.len() && 0 <= j < slave.len() && p[k] == #[trigger] or_pair(master[i], slave[j]);
        let (zm, om) = master[i];
        let (zs, os) = slave[j];
        lemma_or_cube_bv(0, 0, y, zm, om, zs, os);
        let xm = y & (zm | om);
        let xs = y & (zs | os);
        assert(in_cube(xm, master[i]));
        assert(in_cube(xs, slave[j]));
        assert(stands_for(master, xm) && stands_for(slave, xs) && y == xm | xs);
    }
    if exists|xm: u64, xs: u64| #[trigger] stands_for(master, xm) && #[trigger] stands_for(slave, xs) && y == xm | xs {
        let (xm, xs) = choose|xm: u64, xs: u64| #[trigger] stands_for(master, xm) && #[trigger] stands_for(slave, xs) && y == xm | xs;
        let i = choose|i: int| 0 <= i < master.len() && #[trigger] in_cube(xm, master[i]);
        let j = choose|j: int| 0 <= j < slave.len() && #[trigger] in_cube(xs, slave[j]);
        let (zm, om) = master[i];
        let (zs, os) = slave[j];
        lemma_or_cube_bv(xm, xs, 0, zm, om, zs, os);
        lemma_product_has(master, slave, i, j);
        let k = choose|k: int| 0 <= k < p.len() && #[trigger] p[k] == or_pair(master[i], slave[j]);
        assert(in_cube(y, p[k]));
    }
}

/// The comparators `es[i..k]` applied in order.
pub open spec fn run_between(x: u64, es: Seq<CeEntry>, i: int, k: int) -> u64
    decreases k - i,
{
    if i < 0 || i >= k || i >= es.len() {
        x
    } else {
        run_between(cmp_bv(x, es[i].a as u64, es[i].b as u64), es, i + 1, k)
    }
}

/// Comparator `e` moves a 1 down on `x`: 1 on its first wire, 0 on its second.
pub open spec fn swaps(x: u64, e: CeEntry) -> bool {
    bit(x, e.a as int) && !bit(x, e.b as int)
}

/// A comparator of `es[i..]` is marked as fired from `(z, o)` exactly when it
/// swaps on some assignment of `(z, o)` run through the comparators before it.
#[verifier::rlimit(50)]
pub proof fn lemma_fired_iff_swaps(z: u64, o: u64, es: Seq<CeEntry>, i: int, c: int)
    requires
        entries_ok(es, u64::MAX as int),
        0 <= i <= es.len(),
        entries_within(es, i, z | o),
    ensures
        fired_from(z, o, es, i).contains(c) <==> exists|x: u64, k: int|
            cube_bv(x, z, o) && i <= k < es.len() && es[k].cei == c && swaps(#[trigger] run_between(x, es, i, k), es[k]),
    decreases es.len() - i,
{
    if i < es.len() {
        let e = es[i];
        let a = e.a as u64;
        let b = e.b as u64;
        assert(bit(z | o, a as int) && bit(z | o, b as int));
        let x0 = (o & !z) | (1u64 << a);
        if exists|x: u64, k: int| cube_bv(x, z, o) && i <= k < es.len() && es[k].cei == c && swaps(#[trigger] run_between(x, es, i, k), es[k]) {
            let (x, k) = choose|x: u64, k: int| cube_bv(x, z, o) && i <= k < es.len() && es[k].cei == c && swaps(#[trigger] run_between(x, es, i, k), es[k]);
            let cx = cmp_bv(x, a, b);
            if k == i {
                assert(run_between(x, es, i, k) == x);
                lemma_witness_back_bv(x, z, o, a, b);
                assert(c == e.cei);
            } else {
                assert(run_between(x, es, i, k) == run_between(cx, es, i + 1, k));
                if !may_swap(z, o, a as int, b as int) {
                    lemma_step_noop(x, z, o, a, b);
                    lemma_fired_iff_swaps(z, o, es, i + 1, c);
                } else {
                    lemma_step_support(z, o, a, b);
                    if must_swap(z, o, a as int, b as int) {
                        lemma_step_swap(x, x, z, o, a, b);
                        lemma_fired_iff_swaps(swap_bits(z, a as int, b as int), swap_bits(o, a as int, b as int), es, i + 1, c);
                    } else {
                        lemma_step_branch(x, x, z, o, a, b);
                        lemma_fired_iff_swaps(z, flip(flip(o, a as int), b as int), es, i + 1, c);
                        lemma_fired_iff_swaps(flip(z, b as int), o, es, i + 1, c);
                    }
                }
            }
        }
        if fired_from(z, o, es, i).contains(c) {
            if !may_swap(z, o, a as int, b as int) {
                lemma_fired_iff_swaps(z, o, es, i + 1, c);
                let (x, k) = choose|x: u64, k: int| cube_bv(x, z, o) && i + 1 <= k < es.len() && es[k].cei == c && swaps(#[trigger] run_between(x, es, i + 1, k), es[k]);
                lemma_step_noop(x, z, o, a, b);
                assert(run_between(x, es, i, k) == run_between(cmp_bv(x, a, b), es, i + 1, k));
            } else if c == e.cei as int {
                lemma_witness_bv(z, o, a, b);
                assert(run_between(x0, es, i, i) == x0);
                assert(swaps(run_between(x0, es, i, i), es[i]));
            } else {
                lemma_step_support(z, o, a, b);
                if must_swap(z, o, a as int, b as int) {
                    let sz = swap_bits(z, a as int, b as int);
                    let so = swap_bits(o, a as int, b as int);
                    lemma_fired_iff_swaps(sz, so, es, i + 1, c);
                    let (x1, k) = choose|x: u64, k: int| cube_bv(x, sz, so) && i + 1 <= k < es.len() && es[k].cei == c && swaps(#[trigger] run_between(x, es, i + 1, k), es[k]);
                    lemma_step_swap(x1, x1, z, o, a, b);
                    let w = if (x1 >> a) & 1 == 0 && (x1 >> b) & 1 == 1 { x1 ^ (1u64 << a) ^ (1u64 << b) } else { x1 };
                    assert(run_between(w, es, i, k) == run_between(cmp_bv(w, a, b), es, i + 1, k));
                    assert(cube_bv(w, z, o) && swaps(run_between(w, es, i, k), es[k]));
                } else {
                    let po = flip(flip(o, a as int), b as int);
                    let iz = flip(z, b as int);
                    lemma_fired_iff_swaps(z, po, es, i + 1, c);
                    lemma_fired_iff_swaps(iz, o, es, i + 1, c);
                    let x1 = if fired_from(z, po, es, i + 1).contains(c) {
                        let (x1, k) = choose|x: u64, k: int| cube_bv(x, z, po) && i + 1 <= k < es.len() && es[k].cei == c && swaps(#[trigger] run_between(x, es, i + 1, k), es[k]);
                        x1
                    } else {
                        let (x1, k) = choose|x: u64, k: int| cube_bv(x, iz, o) && i + 1 <= k < es.len() && es[k].cei == c && swaps(#[trigger] run_between(x, es, i + 1, k), es[k]);
                        x1
                    };
                    lemma_step_branch(x1, x1, z, o, a, b);
                    let k = if fired_from(z, po, es, i + 1).contains(c) {
                        choose|k: int| cube_bv(x1, z, po) && i + 1 <= k < es.len() && es[k].cei == c && swaps(#[trigger] run_between(x1, es, i + 1, k), es[k])
                    } else {
                        choose|k: int| cube_bv(x1, iz, o) && i + 1 <= k < es.len() && es[k].cei == c && swaps(#[trigger] run_between(x1, es, i + 1, k), es[k])
                    };
                    assert(run_between(x1, es, i, k) == run_between(cmp_bv(x1, a, b), es, i + 1, k));
                    assert(cube_bv(x1, z, o) && swaps(run_between(x1, es, i, k), es[k]));
                }
            }
        }
    }
}

/// The comparators of `cmp` with an index in `a` and below `k`, applied in
/// index order.
pub open spec fn run_set(x: u64, cmp: Seq<(usize, usize)>, a: Set<int>, k: int) -> u64
    decreases k,
{
    if k <= 0 {
        x
    } else {
        let y = run_set(x, cmp, a, k - 1);
        if a.contains(k - 1) && k - 1 < cmp.len() {
            cmp_bv(y, cmp[k - 1].0 as u64, cmp[k - 1].1 as u64)
        } else {
            y
        }
    }
}

/// Every comparator of `cmp`: wires `a < b < 64`.
pub open spec fn wires_ok(cmp: Seq<(usize, usize)>) -> bool {
    forall|c: int| 0 <= c < cmp.len() ==> (#[trigger] cmp[c]).0 < cmp[c].1 && cmp[c].1 < 64
}

/// Every comparator in `a` has both wires in `mask` or neither.
pub open spec fn respects(cmp: Seq<(usize, usize)>, a: Set<int>, mask: u64) -> bool {
    forall|c: int|
        0 <= c < cmp.len() && #[trigger] a.contains(c) ==> (bit(mask, cmp[c].0 as int) <==> bit(mask, cmp[c].1 as int))
}

proof fn lemma_mask_bv(v: u64, m: u64, a: u64, b: u64)
    requires
        a < b < 64,
    ensures
        ((m >> a) & 1 == 1 && (m >> b) & 1 == 1) ==> cmp_bv(v, a, b) & m == cmp_bv(v & m, a, b) & m,
        ((m >> a) & 1 != 1 && (m >> b) & 1 != 1) ==> cmp_bv(v, a, b) & m == v & m,
        ((m >> a) & 1 == 1) == ((m >> b) & 1 == 1) ==> cmp_bv(m, a, b) == m,
        cmp_bv(0, a, b) == 0,
{
    assert((((m >> a) & 1 == 1 && (m >> b) & 1 == 1) ==> cmp_bv(v, a, b) & m == cmp_bv(v & m, a, b) & m)
        && (((m >> a) & 1 != 1 && (m >> b) & 1 != 1) ==> cmp_bv(v, a, b) & m == v & m)
        && (((m >> a) & 1 == 1) == ((m >> b) & 1 == 1) ==> cmp_bv(m, a, b) == m)
        && cmp_bv(0, a, b) == 0) by (bit_vector)
        requires a < b < 64;
}

/// On a set of wires that the comparators never leave, the outputs depend on
/// the inputs on those wires alone; all 1s there stay all 1s, and all 0s stay 0s.
pub proof fn lemma_run_independent(x: u64, cmp: Seq<(usize, usize)>, a: Set<int>, mask: u64, k: int)
    requires
        wires_ok(cmp),
        respects(cmp, a, mask),
    ensures
        run_set(x, cmp, a, k) & mask == run_set(x & mask, cmp, a, k) & mask,
        run_set(mask, cmp, a, k) == mask,
        run_set(0, cmp, a, k) == 0,
    decreases k,
{
    if k <= 0 {
        assert((x & mask) & mask == x & mask) by (bit_vector);
    } else {
        lemma_run_independent(x, cmp, a, mask, k - 1);
        let c = k - 1;
        if a.contains(c) && c < cmp.len() {
            let (wa, wb) = cmp[c];
            let y = run_set(x, cmp, a, c);
            let ym = run_set(x & mask, cmp, a, c);
            lemma_mask_bv(y, mask, wa as u64, wb as u64);
            lemma_mask_bv(ym, mask, wa as u64, wb as u64);
            assert(y & mask == ym & mask);
            assert(run_set(x, cmp, a, k) == cmp_bv(y, wa as u64, wb as u64));
            assert(run_set(x & mask, cmp, a, k) == cmp_bv(ym, wa as u64, wb as u64));
            assert(bit(mask, wa as int) <==> bit(mask, wb as int));
            if bit(mask, wa as int) {
                assert(cmp_bv(y & mask, wa as u64, wb as u64) == cmp_bv(ym & mask, wa as u64, wb as u64));
                assert(cmp_bv(y, wa as u64, wb as u64) & mask == cmp_bv(ym, wa as u64, wb as u64) & mask);
            } else {
                assert(cmp_bv(y, wa as u64, wb as u64) & mask == y & mask);
                assert(cmp_bv(ym, wa as u64, wb as u64) & mask == ym & mask);
            }
        }
    }
}

/// Runs over two sets of comparators that agree below `k` are equal.
pub proof fn lemma_run_agree(x: u64, cmp: Seq<(usize, usize)>, a: Set<int>, b: Set<int>, k: int)
    requires
        forall|c: int| 0 <= c < k ==> (#[trigger] a.contains(c) <==> b.contains(c)),
    ensures
        run_set(x, cmp, a, k) == run_set(x, cmp, b, k),
    decreases k,
{
    if k > 0 {
        lemma_run_agree(x, cmp, a, b, k - 1);
        assert(a.contains(k - 1) <==> b.contains(k - 1));
    }
}

proof fn lemma_commute_bv(v: u64, a1: u64, b1: u64, a2: u64, b2: u64)
    requires
        a1 < b1 < 64,
        a2 < b2 < 64,
        a1 != a2,
        a1 != b2,
        b1 != a2,
        b1 != b2,
    ensures
        cmp_bv(cmp_bv(v, a1, b1), a2, b2) == cmp_bv(cmp_bv(v, a2, b2), a1, b1),
{
    assert(cmp_bv(cmp_bv(v, a1, b1), a2, b2) == cmp_bv(cmp_bv(v, a2, b2), a1, b1)) by (bit_vector)
        requires a1 < b1 < 64, a2 < b2 < 64, a1 != a2, a1 != b2, b1 != a2, b1 != b2;
}

/// A comparator that no later comparator of the set touches can be applied
/// last instead of in its place.
pub proof fn lemma_move_last(x: u64, cmp: Seq<(usize, usize)>, s: Set<int>, c: int, k: int)
    requires
        wires_ok(cmp),
        !s.contains(c),
        0 <= c < k <= cmp.len(),
        forall|d: int| c < d < cmp.len() && #[trigger] s.contains(d) ==> !shares_wire(cmp[d], cmp[c]),
    ensures
        run_set(x, cmp, s.insert(c), k) == cmp_bv(run_set(x, cmp, s, k), cmp[c].0 as u64, cmp[c].1 as u64),
    decreases k,
{
    if k == c + 1 {
        lemma_run_agree(x, cmp, s.insert(c), s, c);
    } else {
        lemma_move_last(x, cmp, s, c, k - 1);
        let d = k - 1;
        if s.contains(d) {
            assert(!shares_wire(cmp[d], cmp[c]));
            lemma_commute_bv(run_set(x, cmp, s, d), cmp[c].0 as u64, cmp[c].1 as u64, cmp[d].0 as u64, cmp[d].1 as u64);
        }
    }
}

/// The entries `es[..t]` applied in order.
pub open spec fn run_front(v: u64, es: Seq<CeEntry>, t: int) -> u64
    decreases t,
{
    if t <= 0 || t > es.len() {
        v
    } else {
        cmp_bv(run_front(v, es, t - 1), es[t - 1].a as u64, es[t - 1].b as u64)
    }
}

pub proof fn lemma_run_front(v: u64, es: Seq<CeEntry>, t: int)
    requires
        0 <= t <= es.len(),
    ensures
        run_entries(run_front(v, es, t), es, t) == run_entries(v, es, 0),
    decreases t,
{
    if t > 0 {
        lemma_run_front(v, es, t - 1);
    }
}

/// The comparator indices of a job's entries.
pub open spec fn entry_set(es: Seq<CeEntry>) -> Set<int> {
    Set::new(|c: int| exists|t: int| 0 <= t < es.len() && (#[trigger] es[t]).cei == c)
}

/// Running a set of comparators and then a job whose comparators come after
/// every comparator of the set that touches their wires is running the
/// union of the two in index order.
#[verifier::rlimit(50)]
pub proof fn lemma_job_in_order(x: u64, cmp: Seq<(usize, usize)>, s: Set<int>, es: Seq<CeEntry>)
    requires
        wires_ok(cmp),
        forall|t: int| 0 <= t < es.len() ==> (#[trigger] es[t]).cei < cmp.len() && cmp[es[t].cei as int] == (es[t].a, es[t].b),
        forall|t1: int, t2: int| 0 <= t1 < t2 < es.len() ==> (#[trigger] es[t1]).cei < (#[trigger] es[t2]).cei,
        forall|t: int| 0 <= t < es.len() ==> !s.contains((#[trigger] es[t]).cei as int),
        forall|t: int, d: int|
            0 <= t < es.len() && (#[trigger] es[t]).cei < d < cmp.len() && #[trigger] s.contains(d) ==> !shares_wire(cmp[d], cmp[es[t].cei as int]),
    ensures
        run_set(x, cmp, s + entry_set(es), cmp.len() as int) == run_front(run_set(x, cmp, s, cmp.len() as int), es, es.len() as int),
    decreases es.len(),
{
    if es.len() == 0 {
        assert(s + entry_set(es) =~= s);
    } else {
        let d = es.drop_last();
        let l = es.last();
        let c = l.cei as int;
        assert forall|t: int| 0 <= t < d.len() implies (#[trigger] d[t]).cei < cmp.len() && cmp[d[t].cei as int] == (d[t].a, d[t].b) by {
            assert(d[t] == es[t]);
        }
        assert forall|t1: int, t2: int| 0 <= t1 < t2 < d.len() implies (#[trigger] d[t1]).cei < (#[trigger] d[t2]).cei by {
            assert(d[t1] == es[t1] && d[t2] == es[t2]);
        }
        assert forall|t: int| 0 <= t < d.len() implies !s.contains((#[trigger] d[t]).cei as int) by {
            assert(d[t] == es[t]);
        }
        assert forall|t: int, e: int|
            0 <= t < d.len() && (#[trigger] d[t]).cei < e < cmp.len() && #[trigger] s.contains(e) implies !shares_wire(cmp[e], cmp[d[t].cei as int]) by {
            assert(d[t] == es[t]);
        }
        lemma_job_in_order(x, cmp, s, d);
        let s2 = s + entry_set(d);
        assert(es[es.len() - 1] == l);
        assert(!s2.contains(c)) by {
            if entry_set(d).contains(c) {
                let t = choose|t: int| 0 <= t < d.len() && (#[trigger] d[t]).cei == c;
                assert(d[t] == es[t]);
            }
        }
        assert forall|e: int| c < e < cmp.len() && #[trigger] s2.contains(e) implies !shares_wire(cmp[e], cmp[c]) by {
            if entry_set(d).contains(e) {
                let t = choose|t: int| 0 <= t < d.len() && (#[trigger] d[t]).cei == e;
                assert(d[t] == es[t]);
            }
        }
        lemma_move_last(x, cmp, s2, c, cmp.len() as int);
        assert(s2.insert(c) =~= s + entry_set(es)) by {
            assert forall|e: int| entry_set(es).contains(e) <==> (entry_set(d).contains(e) || e == c) by {
                if entry_set(es).contains(e) {
                    let t = choose|t: int| 0 <= t < es.len() && (#[trigger] es[t]).cei == e;
                    if t < d.len() {
                        assert(d[t] == es[t]);
                    }
                }
                if entry_set(d).contains(e) {
                    let t = choose|t: int| 0 <= t < d.len() && (#[trigger] d[t]).cei == e;
                    assert(d[t] == es[t]);
                }
            }
        }
        assert(run_front(run_set(x, cmp, s, cmp.len() as int), es, es.len() as int) == cmp_bv(
            run_front(run_set(x, cmp, s, cmp.len() as int), d, d.len() as int), l.a as u64, l.b as u64)) by {
            lemma_run_front_prefix(run_set(x, cmp, s, cmp.len() as int), es, d.len() as int);
        }
    }
}

proof fn lemma_run_front_prefix(v: u64, es: Seq<CeEntry>, t: int)
    requires
        0 <= t <= es.len(),
        es.len() > 0,
    ensures
        t < es.len() ==> run_front(v, es.drop_last(), t) == run_front(v, es, t),
    decreases t,
{
    if t > 0 && t < es.len() {
        lemma_run_front_prefix(v, es, t - 1);
        assert(es.drop_last()[t - 1] == es[t - 1]);
    }
}

proof fn lemma_cmp_local_bv(v: u64, u: u64, a: u64, b: u64, w: u64)
    requires
        a < b < 64,
        w < 64,
    ensures
        (w != a && w != b) ==> (((cmp_bv(v, a, b) >> w) & 1 == 1) == ((v >> w) & 1 == 1)),
        (((v >> a) & 1 == 1) == ((u >> a) & 1 == 1) && ((v >> b) & 1 == 1) == ((u >> b) & 1 == 1) && (w == a || w == b))
            ==> (((cmp_bv(v, a, b) >> w) & 1 == 1) == ((cmp_bv(u, a, b) >> w) & 1 == 1)),
{
    assert(((w != a && w != b) ==> (((cmp_bv(v, a, b) >> w) & 1 == 1) == ((v >> w) & 1 == 1))) && ((((v >> a) & 1 == 1) == ((u
        >> a) & 1 == 1) && ((v >> b) & 1 == 1) == ((u >> b) & 1 == 1) && (w == a || w == b)) ==> (((cmp_bv(v, a, b) >> w) & 1
        == 1) == ((cmp_bv(u, a, b) >> w) & 1 == 1)))) by (bit_vector)
        requires a < b < 64, w < 64;
}

/// Wire `w` is touched only by comparators of `t` below `k`.
pub open spec fn settled(cmp: Seq<(usize, usize)>, t: Set<int>, k: int, w: int) -> bool {
    forall|d: int| 0 <= d < k && d < cmp.len() && (cmp[d].0 == w || cmp[d].1 == w) ==> #[trigger] t.contains(d)
}

/// A set of comparators that holds, with each of its comparators, every
/// earlier comparator on its wires.
pub open spec fn closed_under_wires(cmp: Seq<(usize, usize)>, t: Set<int>) -> bool {
    forall|c: int, d: int|
        0 <= d < c < cmp.len() && #[trigger] t.contains(c) && shares_wire(cmp[d], cmp[c]) ==> #[trigger] t.contains(d)
}

/// On a wire whose comparators so far all belong to a closed set, running
/// only that set gives the same value as running every comparator.
pub proof fn lemma_cone(x: u64, cmp: Seq<(usize, usize)>, t: Set<int>, all: Set<int>, k: int, w: int)
    requires
        wires_ok(cmp),
        closed_under_wires(cmp, t),
        forall|c: int| 0 <= c < cmp.len() ==> #[trigger] all.contains(c),
        0 <= k <= cmp.len(),
        0 <= w < 64,
        settled(cmp, t, k, w),
    ensures
        bit(run_set(x, cmp, t, k), w) == bit(run_set(x, cmp, all, k), w),
    decreases k,
{
    if k > 0 {
        let c = k - 1;
        let (a, b) = cmp[c];
        let vt = run_set(x, cmp, t, c);
        let va = run_set(x, cmp, all, c);
        assert(settled(cmp, t, c, w));
        lemma_cone(x, cmp, t, all, c, w);
        assert(all.contains(c));
        if a as int == w || b as int == w {
            assert(t.contains(c));
            assert(settled(cmp, t, c, a as int)) by {
                assert forall|d: int| 0 <= d < c && d < cmp.len() && (cmp[d].0 == a as int || cmp[d].1 == a as int) implies #[trigger] t.contains(d) by {
                    assert(shares_wire(cmp[d], cmp[c]));
                }
            }
            assert(settled(cmp, t, c, b as int)) by {
                assert forall|d: int| 0 <= d < c && d < cmp.len() && (cmp[d].0 == b as int || cmp[d].1 == b as int) implies #[trigger] t.contains(d) by {
                    assert(shares_wire(cmp[d], cmp[c]));
                }
            }
            lemma_cone(x, cmp, t, all, c, a as int);
            lemma_cone(x, cmp, t, all, c, b as int);
            lemma_cmp_local_bv(vt, va, a as u64, b as u64, w as u64);
        } else {
            lemma_cmp_local_bv(vt, vt, a as u64, b as u64, w as u64);
            lemma_cmp_local_bv(va, va, a as u64, b as u64, w as u64);
        }
    }
}

/// Comparators that leave wire `w` alone do not change it.
pub proof fn lemma_untouched(x: u64, cmp: Seq<(usize, usize)>, t: Set<int>, c: int, k: int, w: int)
    requires
        wires_ok(cmp),
        0 <= c <= k <= cmp.len(),
        0 <= w < 64,
        forall|d: int| c <= d < k && #[trigger] t.contains(d) ==> cmp[d].0 != w && cmp[d].1 != w,
    ensures
        bit(run_set(x, cmp, t, k), w) == bit(run_set(x, cmp, t, c), w),
    decreases k - c,
{
    if k > c {
        lemma_untouched(x, cmp, t, c, k - 1, w);
        let d = k - 1;
        if t.contains(d) {
            let v = run_set(x, cmp, t, d);
            lemma_cmp_local_bv(v, v, cmp[d].0 as u64, cmp[d].1 as u64, w as u64);
        }
    }
}

/// Dropping a comparator that never swaps on what reaches it changes no output.
pub proof fn lemma_drop_idle(x: u64, cmp: Seq<(usize, usize)>, all: Set<int>, c: int, k: int)
    requires
        wires_ok(cmp),
        0 <= c < cmp.len(),
        c < k <= cmp.len(),
        all.contains(c),
        !swaps(run_set(x, cmp, all, c), CeEntry { cei: c as usize, a: cmp[c].0, b: cmp[c].1 }),
    ensures
        run_set(x, cmp, all.remove(c), k) == run_set(x, cmp, all, k),
    decreases k,
{
    if k == c + 1 {
        lemma_run_agree(x, cmp, all.remove(c), all, c);
        let v = run_set(x, cmp, all, c);
        let (a, b) = cmp[c];
        assert(cmp_bv(v, a as u64, b as u64) == v);
    } else {
        lemma_drop_idle(x, cmp, all, c, k - 1);
    }
}

proof fn lemma_between_front_gen(v: u64, es: Seq<CeEntry>, i: int, t: int)
    requires
        0 <= i <= t <= es.len(),
    ensures
        run_between(run_front(v, es, i), es, i, t) == run_front(v, es, t),
    decreases t - i,
{
    if i < t {
        lemma_between_front_gen(v, es, i + 1, t);
    }
}

/// The first `t` entries, run from the front, in either reading.
pub proof fn lemma_between_front(v: u64, es: Seq<CeEntry>, t: int)
    requires
        0 <= t <= es.len(),
    ensures
        run_between(v, es, 0, t) == run_front(v, es, t),
{
    lemma_between_front_gen(v, es, 0, t);
}

/// Running the first `t` entries of a job, or of its first `t` entries, is
/// the same.
pub proof fn lemma_front_take(v: u64, es: Seq<CeEntry>, t: int, u: int)
    requires
        0 <= u <= t <= es.len(),
    ensures
        run_front(v, es.take(t), u) == run_front(v, es, u),
    decreases u,
{
    if u > 0 {
        lemma_front_take(v, es, t, u - 1);
        assert(es.take(t)[u - 1] == es[u - 1]);
    }
}

proof fn lemma_front_mask_bv(v: u64, m: u64, a: u64, b: u64)
    requires
        a < b < 64,
        (m >> a) & 1 == 1,
        (m >> b) & 1 == 1,
    ensures
        cmp_bv(v & m, a, b) == cmp_bv(v, a, b) & m,
{
    assert(cmp_bv(v & m, a, b) == cmp_bv(v, a, b) & m) by (bit_vector)
        requires a < b < 64, (m >> a) & 1 == 1, (m >> b) & 1 == 1;
}

/// Entries on the wires of `m`, run from the front, commute with keeping those wires.
pub proof fn lemma_front_mask(v: u64, es: Seq<CeEntry>, t: int, m: u64)
    requires
        entries_ok(es, u64::MAX as int),
        0 <= t <= es.len(),
        entries_within(es, 0, m),
    ensures
        run_front(v & m, es, t) == run_front(v, es, t) & m,
    decreases t,
{
    if t > 0 {
        lemma_front_mask(v, es, t - 1, m);
        let e = es[t - 1];
        lemma_front_mask_bv(run_front(v, es, t - 1), m, e.a as u64, e.b as u64);
    }
}

/// The pairs of `ps` whose job fires comparator `c`.
pub proof fn lemma_fired_all_has(ps: Seq<StatePair>, es: Seq<CeEntry>, c: int)
    ensures
        fired_all(ps, es).contains(c) <==> exists|k: int| 0 <= k < ps.len() && #[trigger] fired_from(ps[k].0, ps[k].1, es, 0).contains(c),
    decreases ps.len(),
{
    if ps.len() > 0 {
        let d = ps.drop_last();
        lemma_fired_all_has(d, es, c);
        if exists|k: int| 0 <= k < d.len() && #[trigger] fired_from(d[k].0, d[k].1, es, 0).contains(c) {
            let k = choose|k: int| 0 <= k < d.len() && #[trigger] fired_from(d[k].0, d[k].1, es, 0).contains(c);
            assert(d[k] == ps[k]);
        }
        if exists|k: int| 0 <= k < ps.len() && #[trigger] fired_from(ps[k].0, ps[k].1, es, 0).contains(c) {
            let k = choose|k: int| 0 <= k < ps.len() && #[trigger] fired_from(ps[k].0, ps[k].1, es, 0).contains(c);
            if k < d.len() {
                assert(d[k] == ps[k]);
            }
        }
    }
}

/// A job fires only its own comparators.
pub proof fn lemma_fired_in_job(z: u64, o: u64, es: Seq<CeEntry>, i: int, c: int)
    requires
        0 <= i,
        fired_from(z, o, es, i).contains(c),
    ensures
        exists|t: int| i <= t < es.len() && (#[trigger] es[t]).cei == c,
    decreases es.len() - i,
{
    if i < es.len() {
        let e = es[i];
        let a = e.a as int;
        let b = e.b as int;
        if c == e.cei as int {
            assert(es[i].cei == c);
        } else if !may_swap(z, o, a, b) {
            lemma_fired_in_job(z, o, es, i + 1, c);
        } else if must_swap(z, o, a, b) {
            lemma_fired_in_job(swap_bits(z, a, b), swap_bits(o, a, b), es, i + 1, c);
        } else if fired_from(z, flip(flip(o, a), b), es, i + 1).contains(c) {
            lemma_fired_in_job(z, flip(flip(o, a), b), es, i + 1, c);
        } else {
            lemma_fired_in_job(flip(z, b), o, es, i + 1, c);
        }
    }
}

} // verus!
