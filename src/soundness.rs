//! Why the verdict is right: each root's state set stands for exactly the
//! outputs, on that root's wires, of the comparators applied so far, over
//! every input.
use vstd::prelude::*;
use crate::bits::{bit, lemma_bit_and, lemma_bit_low_mask, lemma_bit_or, lemma_bit_xor, lemma_bit_zero, lemma_bits_ext, low_mask};
use crate::dsu::{merge_classes, singletons};
use crate::exec::{entries_ok, lemma_outs_all_support, or_pair, outs_all, product, support, StatePair};
use crate::plan::{shares_wire, CeEntry};
use crate::semantics::{
    cmp_bv, cube_bv, entries_within, entry_set, in_cube, lemma_cmp_job_exact, lemma_combine_exact,
    lemma_job_in_order, lemma_run_front, lemma_run_independent, respects, run_entries, run_front,
    run_set, set_stands_for, stands_for, wires_ok,
};
use crate::session::{class_bits, corner_pairs, lemma_disjoint_supports, network_unsorted, states_wf};
use crate::exec::unsorted_in;
use crate::semantics::{
    closed_under_wires, lemma_between_front, lemma_cone, lemma_fired_all_has, lemma_fired_iff_swaps, lemma_front_mask,
    lemma_front_take, lemma_run_agree, lemma_unsorted_meaning, lemma_untouched, run_between, settled, swaps,
};
use crate::exec::fired_all;

verus! {

/// An assignment to the `n` wires.
pub open spec fn is_input(x: u64, n: int) -> bool {
    x & !low_mask(n) == 0
}

/// `y` is, on the wires of `mask`, the output of the comparators `a` on some input.
pub open spec fn reaches(n: int, cmp: Seq<(usize, usize)>, a: Set<int>, mask: u64, y: u64) -> bool {
    exists|x: u64| is_input(x, n) && y == #[trigger] run_set(x, cmp, a, cmp.len() as int) & mask
}

/// The wires of the class of root `r`, read off its state set.
pub open spec fn root_mask(states: Seq<Vec<StatePair>>, r: int) -> u64 {
    support(states[r]@[0])
}

/// The applied comparators stay inside classes, and each root's state set
/// stands for exactly what those comparators make of every input on its wires.
#[verifier::opaque]
pub open spec fn sem_inv(n: int, cmp: Seq<(usize, usize)>, a: Set<int>, part: Seq<int>, states: Seq<Vec<StatePair>>) -> bool {
    &&& forall|c: int| 0 <= c < cmp.len() && #[trigger] a.contains(c) ==> part[cmp[c].0 as int] == part[cmp[c].1 as int]
    &&& forall|r: int, y: u64|
        0 <= r < n && part[r] == r ==> (#[trigger] stands_for(states[r]@, y) <==> reaches(n, cmp, a, root_mask(states, r), y))
}

proof fn lemma_mask_bits(states: Seq<Vec<StatePair>>, n: int, part: Seq<int>, r: int)
    requires
        states_wf(n, part, states),
        0 <= r < n <= 64,
        part[r] == r,
    ensures
        forall|w: int| 0 <= w < 64 ==> (#[trigger] bit(root_mask(states, r), w) <==> (w < n && part[w] == r)),
        forall|k: int| 0 <= k < states[r]@.len() ==> support(#[trigger] states[r]@[k]) == root_mask(states, r),
        states[r]@.len() > 0,
{
    reveal(states_wf);
    assert(class_bits(part, n, r, states[r]@[0]));
    assert forall|k: int| 0 <= k < states[r]@.len() implies support(#[trigger] states[r]@[k]) == root_mask(states, r) by {
        assert(class_bits(part, n, r, states[r]@[k]));
        assert forall|w: int| 0 <= w < 64 implies #[trigger] bit(support(states[r]@[k]), w) == bit(root_mask(states, r), w) by {
        }
        lemma_bits_ext(support(states[r]@[k]), root_mask(states, r));
    }
}

proof fn lemma_respects_root(n: int, cmp: Seq<(usize, usize)>, a: Set<int>, part: Seq<int>, states: Seq<Vec<StatePair>>, r: int)
    requires
        sem_inv(n, cmp, a, part, states),
        states_wf(n, part, states),
        0 <= r < n <= 64,
        part[r] == r,
        forall|c: int| 0 <= c < cmp.len() ==> (#[trigger] cmp[c]).0 < cmp[c].1 && cmp[c].1 < n,
    ensures
        respects(cmp, a, root_mask(states, r)),
{
    reveal(sem_inv);
    lemma_mask_bits(states, n, part, r);
    assert forall|c: int| 0 <= c < cmp.len() && #[trigger] a.contains(c) implies (bit(root_mask(states, r), cmp[c].0 as int)
        <==> bit(root_mask(states, r), cmp[c].1 as int)) by {
        assert(cmp[c].0 < cmp[c].1 && cmp[c].1 < n);
    }
}

proof fn lemma_stands_for_set(s: Seq<StatePair>, y: u64)
    ensures
        stands_for(s, y) <==> set_stands_for(s.to_set(), y),
{
    if stands_for(s, y) {
        let k = choose|k: int| 0 <= k < s.len() && #[trigger] in_cube(y, s[k]);
        assert(s.to_set().contains(s[k]));
    }
    if set_stands_for(s.to_set(), y) {
        let q = choose|q: StatePair| #[trigger] s.to_set().contains(q) && in_cube(y, q);
        let k = choose|k: int| 0 <= k < s.len() && s[k] == q;
        assert(in_cube(y, s[k]));
    }
}

proof fn lemma_entries_mask_bv(v: u64, m: u64, a: u64, b: u64)
    requires
        a < b < 64,
        (m >> a) & 1 == 1,
        (m >> b) & 1 == 1,
    ensures
        cmp_bv(v, a, b) & m == cmp_bv(v & m, a, b),
{
    assert(cmp_bv(v, a, b) & m == cmp_bv(v & m, a, b)) by (bit_vector)
        requires a < b < 64, (m >> a) & 1 == 1, (m >> b) & 1 == 1;
}

/// Entries on the wires of `m` commute with keeping those wires.
proof fn lemma_entries_mask(v: u64, es: Seq<CeEntry>, i: int, m: u64)
    requires
        entries_ok(es, u64::MAX as int),
        0 <= i,
        entries_within(es, i, m),
    ensures
        run_entries(v, es, i) & m == run_entries(v & m, es, i),
    decreases es.len() - i,
{
    if i >= es.len() {
    } else {
        let e = es[i];
        lemma_entries_mask_bv(v, m, e.a as u64, e.b as u64);
        lemma_entries_mask(cmp_bv(v, e.a as u64, e.b as u64), es, i + 1, m);
        assert(cmp_bv(v & m, e.a as u64, e.b as u64) & m == cmp_bv(v & m, e.a as u64, e.b as u64)) by {
            lemma_entries_mask_bv(v & m, m, e.a as u64, e.b as u64);
            assert((v & m) & m == v & m) by (bit_vector);
        }
        lemma_entries_mask(cmp_bv(v & m, e.a as u64, e.b as u64), es, i + 1, m);
    }
}

proof fn lemma_outside_bv(v: u64, m: u64, a: u64, b: u64)
    requires
        a < b < 64,
        (m >> a) & 1 != 1,
        (m >> b) & 1 != 1,
    ensures
        cmp_bv(v, a, b) & m == v & m,
{
    assert(cmp_bv(v, a, b) & m == v & m) by (bit_vector)
        requires a < b < 64, (m >> a) & 1 != 1, (m >> b) & 1 != 1;
}

/// Entries off the wires of `m` leave those wires alone.
proof fn lemma_front_outside(v: u64, es: Seq<CeEntry>, t: int, m: u64)
    requires
        entries_ok(es, u64::MAX as int),
        0 <= t <= es.len(),
        forall|k: int| 0 <= k < es.len() ==> !bit(m, (#[trigger] es[k]).a as int) && !bit(m, es[k].b as int),
    ensures
        run_front(v, es, t) & m == v & m,
    decreases t,
{
    if t > 0 {
        lemma_front_outside(v, es, t - 1, m);
        let e = es[t - 1];
        lemma_outside_bv(run_front(v, es, t - 1), m, e.a as u64, e.b as u64);
    }
}

/// What the job preconditions of a comparator job on root `r` say.
pub open spec fn job_entries_ok(cmp: Seq<(usize, usize)>, a: Set<int>, part: Seq<int>, r: int, es: Seq<CeEntry>) -> bool {
    &&& forall|t: int|
        0 <= t < es.len() ==> {
            let e = #[trigger] es[t];
            &&& e.cei < cmp.len()
            &&& cmp[e.cei as int] == (e.a, e.b)
            &&& part[e.a as int] == r
            &&& part[e.b as int] == r
            &&& !a.contains(e.cei as int)
        }
    &&& forall|t1: int, t2: int| 0 <= t1 < t2 < es.len() ==> (#[trigger] es[t1]).cei < (#[trigger] es[t2]).cei
    &&& forall|t: int, d: int|
        0 <= t < es.len() && (#[trigger] es[t]).cei < d < cmp.len() && #[trigger] a.contains(d) ==> !shares_wire(cmp[d], cmp[es[t].cei as int])
}

proof fn lemma_run_with_job(x: u64, cmp: Seq<(usize, usize)>, a: Set<int>, part: Seq<int>, r: int, es: Seq<CeEntry>)
    requires
        wires_ok(cmp),
        job_entries_ok(cmp, a, part, r, es),
    ensures
        run_set(x, cmp, a + entry_set(es), cmp.len() as int) == run_front(run_set(x, cmp, a, cmp.len() as int), es, es.len() as int),
        run_set(x, cmp, a + entry_set(es), cmp.len() as int) == run_entries(run_set(x, cmp, a, cmp.len() as int), es, 0),
{
    lemma_job_in_order(x, cmp, a, es);
    let v = run_set(x, cmp, a, cmp.len() as int);
    lemma_run_front(v, es, es.len() as int);
}

/// A comparator job on root `r` keeps the invariant, with its comparators
/// now applied.
#[verifier::rlimit(50)]
pub proof fn lemma_sem_cmp_step(
    n: int,
    cmp: Seq<(usize, usize)>,
    a: Set<int>,
    part: Seq<int>,
    old: Seq<Vec<StatePair>>,
    r: int,
    es: Seq<CeEntry>,
    new_vec: Vec<StatePair>,
)
    requires
        2 <= n <= 64,
        forall|c: int| 0 <= c < cmp.len() ==> (#[trigger] cmp[c]).0 < cmp[c].1 && cmp[c].1 < n,
        sem_inv(n, cmp, a, part, old),
        states_wf(n, part, old),
        states_wf(n, part, old.update(r, new_vec)),
        part.len() == n,
        old.len() == n,
        0 <= r < n,
        part[r] == r,
        entries_ok(es, u64::MAX as int),
        job_entries_ok(cmp, a, part, r, es),
        new_vec@.to_set() == outs_all(old[r]@, es),
    ensures
        sem_inv(n, cmp, a + entry_set(es), part, old.update(r, new_vec)),
{
    reveal(sem_inv);
    let ns = old.update(r, new_vec);
    let m = cmp.len() as int;
    let mr = root_mask(old, r);
    let a2 = a + entry_set(es);
    assert(wires_ok(cmp)) by {
        assert forall|c: int| 0 <= c < cmp.len() implies (#[trigger] cmp[c]).0 < cmp[c].1 && cmp[c].1 < 64 by {}
    }
    lemma_mask_bits(old, n, part, r);
    lemma_mask_bits(ns, n, part, r);
    assert(root_mask(ns, r) == mr) by {
        assert forall|w: int| 0 <= w < 64 implies #[trigger] bit(root_mask(ns, r), w) == bit(mr, w) by {}
        lemma_bits_ext(root_mask(ns, r), mr);
    }
    assert(entries_within(es, 0, mr)) by {
        assert forall|k: int| 0 <= k < es.len() implies bit(mr, (#[trigger] es[k]).a as int) && bit(mr, es[k].b as int) by {
            let e = es[k];
            assert(cmp[e.cei as int].0 < cmp[e.cei as int].1 && cmp[e.cei as int].1 < n);
        }
    }
    assert forall|c: int| 0 <= c < cmp.len() && #[trigger] a2.contains(c) implies part[cmp[c].0 as int] == part[cmp[c].1 as int] by {
        if !a.contains(c) {
            let t = choose|t: int| 0 <= t < es.len() && (#[trigger] es[t]).cei == c;
        }
    }
    assert forall|r2: int, y: u64| 0 <= r2 < n && part[r2] == r2 implies (#[trigger] stands_for(ns[r2]@, y) <==> reaches(n, cmp, a2, root_mask(ns, r2), y)) by {
        if r2 == r {
            let olds = old[r]@;
            lemma_stands_for_set(new_vec@, y);
            lemma_cmp_job_exact(olds, es, mr, y);
            if stands_for(new_vec@, y) {
                let x0 = choose|x0: u64| #[trigger] stands_for(olds, x0) && run_entries(x0, es, 0) == y;
                assert(stands_for(old[r]@, x0));
                assert(reaches(n, cmp, a, mr, x0));
                let x = choose|x: u64| is_input(x, n) && x0 == #[trigger] run_set(x, cmp, a, m) & mr;
                lemma_run_with_job(x, cmp, a, part, r, es);
                lemma_entries_mask(run_set(x, cmp, a, m), es, 0, mr);
                assert(y == run_set(x, cmp, a2, m) & mr);
                assert(reaches(n, cmp, a2, mr, y));
            }
            if reaches(n, cmp, a2, root_mask(ns, r), y) {
                let x = choose|x: u64| is_input(x, n) && y == #[trigger] run_set(x, cmp, a2, m) & mr;
                lemma_run_with_job(x, cmp, a, part, r, es);
                lemma_entries_mask(run_set(x, cmp, a, m), es, 0, mr);
                let x0 = run_set(x, cmp, a, m) & mr;
                assert(reaches(n, cmp, a, mr, x0));
                assert(stands_for(old[r]@, x0));
                assert(stands_for(olds, x0) && run_entries(x0, es, 0) == y);
            }
        } else {
            assert(ns[r2] == old[r2]);
            let m2 = root_mask(old, r2);
            lemma_mask_bits(old, n, part, r2);
            assert forall|k: int| 0 <= k < es.len() implies !bit(m2, (#[trigger] es[k]).a as int) && !bit(m2, es[k].b as int) by {
                let e = es[k];
                assert(cmp[e.cei as int].0 < cmp[e.cei as int].1 && cmp[e.cei as int].1 < n);
            }
            if stands_for(ns[r2]@, y) {
                assert(reaches(n, cmp, a, m2, y));
                let x = choose|x: u64| is_input(x, n) && y == #[trigger] run_set(x, cmp, a, m) & m2;
                lemma_run_with_job(x, cmp, a, part, r, es);
                lemma_front_outside(run_set(x, cmp, a, m), es, es.len() as int, m2);
                assert(y == run_set(x, cmp, a2, m) & m2);
                assert(reaches(n, cmp, a2, m2, y));
            }
            if reaches(n, cmp, a2, root_mask(ns, r2), y) {
                let x = choose|x: u64| is_input(x, n) && y == #[trigger] run_set(x, cmp, a2, m) & m2;
                lemma_run_with_job(x, cmp, a, part, r, es);
                lemma_front_outside(run_set(x, cmp, a, m), es, es.len() as int, m2);
                assert(y == run_set(x, cmp, a, m) & m2);
                assert(reaches(n, cmp, a, m2, y));
            }
        }
    }
}

proof fn lemma_merge_bv(x: u64, x2: u64, v: u64, mm: u64, msk: u64, low: u64)
    requires
        mm & msk == 0,
    ensures
        ((x & mm) | (x2 & msk)) & mm == x & mm,
        ((x & mm) | (x2 & msk)) & msk == x2 & msk,
        (x & !low == 0 && x2 & !low == 0) ==> ((x & mm) | (x2 & msk)) & !low == 0,
        (v & mm) | (v & msk) == v & (mm | msk),
{
    assert(((x & mm) | (x2 & msk)) & mm == x & mm && ((x & mm) | (x2 & msk)) & msk == x2 & msk
        && ((x & !low == 0 && x2 & !low == 0) ==> ((x & mm) | (x2 & msk)) & !low == 0)
        && (v & mm) | (v & msk) == v & (mm | msk)) by (bit_vector)
        requires mm & msk == 0;
}

/// A combine job keeps the invariant, over the merged partition.
#[verifier::rlimit(50)]
pub proof fn lemma_sem_combine_step(
    n: int,
    cmp: Seq<(usize, usize)>,
    a: Set<int>,
    part: Seq<int>,
    old: Seq<Vec<StatePair>>,
    ms: int,
    ss: int,
    united: Vec<StatePair>,
    empty: Vec<StatePair>,
)
    requires
        2 <= n <= 64,
        forall|c: int| 0 <= c < cmp.len() ==> (#[trigger] cmp[c]).0 < cmp[c].1 && cmp[c].1 < n,
        sem_inv(n, cmp, a, part, old),
        states_wf(n, part, old),
        states_wf(n, merge_classes(part, ms, ss, ms), old.update(ms, united).update(ss, empty)),
        part.len() == n,
        old.len() == n,
        0 <= ms < n,
        0 <= ss < n,
        ms != ss,
        part[ms] == ms,
        part[ss] == ss,
        united@ == product(old[ms]@, old[ss]@),
    ensures
        sem_inv(n, cmp, a, merge_classes(part, ms, ss, ms), old.update(ms, united).update(ss, empty)),
{
    reveal(sem_inv);
    let np = merge_classes(part, ms, ss, ms);
    let ns = old.update(ms, united).update(ss, empty);
    let m = cmp.len() as int;
    let mm = root_mask(old, ms);
    let msk = root_mask(old, ss);
    lemma_mask_bits(old, n, part, ms);
    lemma_mask_bits(old, n, part, ss);
    lemma_mask_bits(ns, n, np, ms);
    lemma_respects_root(n, cmp, a, part, old, ms);
    lemma_respects_root(n, cmp, a, part, old, ss);
    assert(mm & msk == 0) by {
        assert forall|w: int| 0 <= w < 64 implies #[trigger] bit(mm & msk, w) == bit(0u64, w) by {
            lemma_bit_and(mm, msk, w);
            lemma_bit_zero(w);
        }
        lemma_bits_ext(mm & msk, 0u64);
    }
    assert(ns[ms] == united);
    assert(root_mask(ns, ms) == mm | msk) by {
        assert forall|w: int| 0 <= w < 64 implies #[trigger] bit(root_mask(ns, ms), w) == bit(mm | msk, w) by {
            lemma_bit_or(mm, msk, w);
        }
        lemma_bits_ext(root_mask(ns, ms), mm | msk);
    }
    lemma_disjoint_supports(n, part, old, ms, ss);
    assert forall|r2: int, y: u64| 0 <= r2 < n && np[r2] == r2 implies (#[trigger] stands_for(ns[r2]@, y) <==> reaches(n, cmp, a, root_mask(ns, r2), y)) by {
        if r2 == ms {
            lemma_combine_exact(old[ms]@, old[ss]@, y);
            if stands_for(ns[r2]@, y) {
                let (xm, xs) = choose|xm: u64, xs: u64| #[trigger] stands_for(old[ms]@, xm) && #[trigger] stands_for(old[ss]@, xs) && y == xm | xs;
                assert(reaches(n, cmp, a, mm, xm));
                assert(reaches(n, cmp, a, msk, xs));
                let x = choose|x: u64| is_input(x, n) && xm == #[trigger] run_set(x, cmp, a, m) & mm;
                let x2 = choose|x: u64| is_input(x, n) && xs == #[trigger] run_set(x, cmp, a, m) & msk;
                let x3 = (x & mm) | (x2 & msk);
                lemma_merge_bv(x, x2, run_set(x3, cmp, a, m), mm, msk, low_mask(n));
                lemma_run_independent(x3, cmp, a, mm, m);
                lemma_run_independent(x, cmp, a, mm, m);
                lemma_run_independent(x3, cmp, a, msk, m);
                lemma_run_independent(x2, cmp, a, msk, m);
                assert(run_set(x3, cmp, a, m) & mm == xm);
                assert(run_set(x3, cmp, a, m) & msk == xs);
                assert(y == run_set(x3, cmp, a, m) & (mm | msk));
                assert(reaches(n, cmp, a, mm | msk, y));
            }
            if reaches(n, cmp, a, root_mask(ns, r2), y) {
                let x = choose|x: u64| is_input(x, n) && y == #[trigger] run_set(x, cmp, a, m) & (mm | msk);
                let v = run_set(x, cmp, a, m);
                lemma_merge_bv(x, x, v, mm, msk, low_mask(n));
                assert(reaches(n, cmp, a, mm, v & mm));
                assert(reaches(n, cmp, a, msk, v & msk));
                assert(stands_for(old[ms]@, v & mm));
                assert(stands_for(old[ss]@, v & msk));
            }
        } else {
            assert(part[r2] == r2);
            assert(r2 != ss);
            assert(ns[r2] == old[r2]);
        }
    }
}

proof fn lemma_run_empty(x: u64, cmp: Seq<(usize, usize)>, k: int)
    ensures
        run_set(x, cmp, Set::empty(), k) == x,
    decreases k,
{
    if k > 0 {
        lemma_run_empty(x, cmp, k - 1);
    }
}

proof fn lemma_single_bv(y: u64, x: u64, b: u64, low: u64)
    requires
        b & !low == 0,
    ensures
        cube_bv(y, b | b, b | b) == (y & !b == 0),
        y & !b == 0 ==> y & !low == 0 && y == y & (b | b),
        cube_bv(x & (b | b), b | b, b | b),
        b | b == b,
{
    assert(cube_bv(y, b | b, b | b) == (y & !b == 0) && (y & !b == 0 ==> y & !low == 0 && y == y & (b | b))
        && cube_bv(x & (b | b), b | b, b | b) && b | b == b) by (bit_vector)
        requires b & !low == 0;
}

/// The invariant holds of the starting state: one free wire per root, no
/// comparator applied.
pub proof fn lemma_sem_init(n: int, cmp: Seq<(usize, usize)>, states: Seq<Vec<StatePair>>)
    requires
        2 <= n <= 64,
        states.len() == n,
        forall|r: int| 0 <= r < n ==> (#[trigger] states[r])@ == seq![(1u64 << (r as u64), 1u64 << (r as u64))],
    ensures
        sem_inv(n, cmp, Set::empty(), singletons(n as nat), states),
{
    reveal(sem_inv);
    let part = singletons(n as nat);
    assert forall|r: int, y: u64| 0 <= r < n && part[r] == r implies (#[trigger] stands_for(states[r]@, y) <==> reaches(n, cmp, Set::empty(), root_mask(states, r), y)) by {
        let b = 1u64 << (r as u64);
        lemma_bit_low_mask(n, r);
        let low = low_mask(n);
        let rr = r as u64;
        assert(b & !low == 0) by (bit_vector)
            requires b == 1u64 << rr, rr < 64, (low >> rr) & 1 == 1;
        assert(states[r]@[0] == (b, b));
        assert(root_mask(states, r) == b | b);
        lemma_single_bv(y, 0, b, low);
        if stands_for(states[r]@, y) {
            let k = choose|k: int| 0 <= k < states[r]@.len() && #[trigger] in_cube(y, states[r]@[k]);
            assert(states[r]@[k] == (b, b));
            lemma_run_empty(y, cmp, cmp.len() as int);
            assert(reaches(n, cmp, Set::empty(), root_mask(states, r), y));
        }
        if reaches(n, cmp, Set::empty(), root_mask(states, r), y) {
            let x = choose|x: u64| is_input(x, n) && y == #[trigger] run_set(x, cmp, Set::empty(), cmp.len() as int) & root_mask(states, r);
            lemma_run_empty(x, cmp, cmp.len() as int);
            lemma_single_bv(y, x, b, low);
            assert(in_cube(y, states[r]@[0]));
        }
    }
}

/// Every comparator of the network.
pub open spec fn all_comparators(m: int) -> Set<int> {
    Set::new(|c: int| 0 <= c < m)
}

/// The network's output on input `x`.
pub open spec fn network_out(x: u64, cmp: Seq<(usize, usize)>) -> u64 {
    run_set(x, cmp, all_comparators(cmp.len() as int), cmp.len() as int)
}

/// Some input makes the network put 1 on wire `i` and 0 on wire `j`.
pub open spec fn out_of_order(n: int, cmp: Seq<(usize, usize)>, i: int, j: int) -> bool {
    exists|x: u64| is_input(x, n) && bit(#[trigger] network_out(x, cmp), i) && !bit(network_out(x, cmp), j)
}

proof fn lemma_bit_not(x: u64, i: int)
    requires
        0 <= i < 64,
    ensures
        bit(!x, i) == !bit(x, i),
{
    let k = i as u64;
    assert(((!x) >> k) & 1 == 1 <==> !((x >> k) & 1 == 1)) by (bit_vector)
        requires k < 64;
}

/// Once every comparator has been applied, a pair of wires `i < j` is marked
/// out of order exactly when some input makes the network put 1 on wire `i`
/// and 0 on wire `j`.
#[verifier::rlimit(50)]
pub proof fn lemma_sem_final(
    n: int,
    cmp: Seq<(usize, usize)>,
    a: Set<int>,
    part: Seq<int>,
    states: Seq<Vec<StatePair>>,
    i: int,
    j: int,
)
    requires
        2 <= n <= 64,
        forall|c: int| 0 <= c < cmp.len() ==> (#[trigger] cmp[c]).0 < cmp[c].1 && cmp[c].1 < n,
        sem_inv(n, cmp, a, part, states),
        states_wf(n, part, states),
        crate::dsu::is_partition(part),
        part.len() == n,
        states.len() == n,
        forall|c: int| 0 <= c < cmp.len() ==> #[trigger] a.contains(c),
        0 <= i < j < n,
    ensures
        network_unsorted(states, n, i, j) <==> out_of_order(n, cmp, i, j),
{
    reveal(sem_inv);
    let m = cmp.len() as int;
    let all = all_comparators(m);
    let low = low_mask(n);
    let ri = part[i];
    let rj = part[j];
    assert(part[ri] == ri && part[rj] == rj);
    lemma_mask_bits(states, n, part, ri);
    lemma_mask_bits(states, n, part, rj);
    let mi = root_mask(states, ri);
    let mj = root_mask(states, rj);
    lemma_bit_low_mask(n, i);
    lemma_bit_low_mask(n, j);
    assert forall|c: int| 0 <= c < m implies (#[trigger] a.contains(c) <==> all.contains(c)) by {}
    if ri == rj {
        if network_unsorted(states, n, i, j) {
            let w = choose|w: int| 0 <= w < states.len() && (unsorted_in(corner_pairs((#[trigger] states[w])@, n), i, j)
                || unsorted_in(states[w]@, i, j));
            if unsorted_in(corner_pairs(states[w]@, n), i, j) {
                let cs = corner_pairs(states[w]@, n);
                let k = choose|k: int| 0 <= k < cs.len() && bit(#[trigger] cs[k].1, i) && bit(cs[k].0, j);
                let q = if states[w]@.len() > 0 { support(states[w]@[0]) } else { 0u64 };
                lemma_bit_xor(low, q, i);
                lemma_bit_xor(low, q, j);
                if states[w]@.len() > 0 {
                    reveal(states_wf);
                    lemma_mask_bits(states, n, part, w);
                    assert(root_mask(states, w) == q);
                } else {
                    lemma_bit_zero(i);
                    lemma_bit_zero(j);
                }
                assert(false);
            }
            let k = choose|k: int| 0 <= k < states[w]@.len() && bit(#[trigger] states[w]@[k].1, i) && bit(states[w]@[k].0, j);
            let p = states[w]@[k];
            reveal(states_wf);
            assert(class_bits(part, n, w, p));
            lemma_bit_or(p.0, p.1, i);
            lemma_bit_or(p.0, p.1, j);
            assert(bit(support(p), i));
            assert(0 <= i < 64);
            assert(bit(support(p), i) <==> (i < n && part[i] == w));
            assert(w == ri);
            assert(seq![p][0] == p);
            lemma_unsorted_meaning(p, i, j);
            let y = choose|y: u64| #[trigger] in_cube(y, p) && bit(y, i) && !bit(y, j);
            assert(stands_for(states[ri]@, y));
            assert(reaches(n, cmp, a, mi, y));
            let x = choose|x: u64| is_input(x, n) && y == #[trigger] run_set(x, cmp, a, m) & mi;
            lemma_run_agree(x, cmp, a, all, m);
            lemma_bit_and(network_out(x, cmp), mi, i);
            lemma_bit_and(network_out(x, cmp), mi, j);
            assert(is_input(x, n) && bit(network_out(x, cmp), i) && !bit(network_out(x, cmp), j));
        }
        if out_of_order(n, cmp, i, j) {
            let x = choose|x: u64| is_input(x, n) && bit(#[trigger] network_out(x, cmp), i) && !bit(network_out(x, cmp), j);
            lemma_run_agree(x, cmp, a, all, m);
            let y = run_set(x, cmp, a, m) & mi;
            lemma_bit_and(network_out(x, cmp), mi, i);
            lemma_bit_and(network_out(x, cmp), mi, j);
            assert(reaches(n, cmp, a, mi, y));
            assert(stands_for(states[ri]@, y));
            let k = choose|k: int| 0 <= k < states[ri]@.len() && #[trigger] in_cube(y, states[ri]@[k]);
            let p = states[ri]@[k];
            assert(support(p) == mi);
            lemma_unsorted_meaning(p, i, j);
            assert(in_cube(y, p) && bit(y, i) && !bit(y, j));
            assert(seq![p][0] == p);
            assert(bit(states[ri]@[k].1, i) && bit(states[ri]@[k].0, j));
            assert(unsorted_in(states[ri]@, i, j));
        }
    } else {
        assert(mi & mj == 0) by {
            assert forall|w: int| 0 <= w < 64 implies #[trigger] bit(mi & mj, w) == bit(0u64, w) by {
                lemma_bit_and(mi, mj, w);
                lemma_bit_zero(w);
            }
            lemma_bits_ext(mi & mj, 0u64);
        }
        assert(is_input(mi, n)) by {
            assert forall|w: int| 0 <= w < 64 implies #[trigger] bit(mi & !low, w) == bit(0u64, w) by {
                lemma_bit_and(mi, !low, w);
                lemma_bit_not(low, w);
                lemma_bit_low_mask(n, w);
                lemma_bit_zero(w);
            }
            lemma_bits_ext(mi & !low, 0u64);
        }
        lemma_respects_root(n, cmp, a, part, states, ri);
        lemma_respects_root(n, cmp, a, part, states, rj);
        lemma_run_independent(mi, cmp, a, mi, m);
        lemma_run_independent(mi, cmp, a, mj, m);
        lemma_run_agree(mi, cmp, a, all, m);
        lemma_bit_and(network_out(mi, cmp), mj, j);
        lemma_bit_zero(j);
        assert(bit(network_out(mi, cmp), i) && !bit(network_out(mi, cmp), j));
        assert(out_of_order(n, cmp, i, j));
        let cs = corner_pairs(states[ri]@, n);
        let q = support(states[ri]@[0]);
        lemma_bit_xor(low, q, j);
        assert(cs[1] == (low ^ q, q));
        assert(bit(cs[1].1, i) && bit(cs[1].0, j));
        assert(unsorted_in(cs, i, j));
        assert(network_unsorted(states, n, i, j));
    }
}

/// Only pairs `i < j` of the network's wires are ever marked.
#[verifier::rlimit(50)]
pub proof fn lemma_sem_range(states: Seq<Vec<StatePair>>, n: int, part: Seq<int>, i: int, j: int)
    requires
        2 <= n <= 64,
        states_wf(n, part, states),
        crate::dsu::is_partition(part),
        part.len() == n,
        states.len() == n,
        0 <= j < 64,
        network_unsorted(states, n, i, j),
    ensures
        i < j < n,
{
    reveal(states_wf);
    let w = choose|w: int| 0 <= w < states.len() && (unsorted_in(corner_pairs((#[trigger] states[w])@, n), i, j)
        || unsorted_in(states[w]@, i, j));
    let low = low_mask(n);
    lemma_bit_low_mask(n, j);
    if unsorted_in(corner_pairs(states[w]@, n), i, j) {
        let cs = corner_pairs(states[w]@, n);
        let k = choose|k: int| 0 <= k < cs.len() && bit(#[trigger] cs[k].1, i) && bit(cs[k].0, j);
        let q = if states[w]@.len() > 0 { support(states[w]@[0]) } else { 0u64 };
        lemma_bit_xor(low, q, j);
        lemma_bit_zero(j);
        if states[w]@.len() > 0 {
            lemma_mask_bits(states, n, part, w);
            assert(root_mask(states, w) == q);
        }
    } else {
        let k = choose|k: int| 0 <= k < states[w]@.len() && bit(#[trigger] states[w]@[k].1, i) && bit(states[w]@[k].0, j);
        let p = states[w]@[k];
        assert(class_bits(part, n, w, p));
        lemma_bit_or(p.0, p.1, j);
        assert(bit(support(p), j));
    }
}

/// The network sorts: no input puts 1 above 0 on any pair of wires.
pub open spec fn sorts_all_inputs(n: int, cmp: Seq<(usize, usize)>) -> bool {
    forall|i: int, j: int| 0 <= i < j < n ==> !#[trigger] out_of_order(n, cmp, i, j)
}

/// What reaches comparator `c` in the network on input `x`.
pub open spec fn network_before(x: u64, cmp: Seq<(usize, usize)>, c: int) -> u64 {
    run_set(x, cmp, all_comparators(cmp.len() as int), c)
}

/// Comparator `c` as a job entry.
pub open spec fn entry_at(cmp: Seq<(usize, usize)>, c: int) -> CeEntry {
    CeEntry { cei: c as usize, a: cmp[c].0, b: cmp[c].1 }
}

/// Comparator `c` swaps, for some input, on what reaches it in the network.
pub open spec fn swaps_somewhere(n: int, cmp: Seq<(usize, usize)>, c: int) -> bool {
    exists|x: u64| is_input(x, n) && #[trigger] swaps(network_before(x, cmp, c), entry_at(cmp, c))
}

/// Entry `t` of a comparator job is fired exactly when its comparator swaps,
/// for some input, on what reaches it in the network.
#[verifier::rlimit(50)]
pub proof fn lemma_fired_iff_network(
    n: int,
    cmp: Seq<(usize, usize)>,
    a: Set<int>,
    part: Seq<int>,
    old: Seq<Vec<StatePair>>,
    r: int,
    es: Seq<CeEntry>,
    t: int,
)
    requires
        2 <= n <= 64,
        forall|c: int| 0 <= c < cmp.len() ==> (#[trigger] cmp[c]).0 < cmp[c].1 && cmp[c].1 < n,
        sem_inv(n, cmp, a, part, old),
        states_wf(n, part, old),
        part.len() == n,
        old.len() == n,
        0 <= r < n,
        part[r] == r,
        entries_ok(es, u64::MAX as int),
        job_entries_ok(cmp, a, part, r, es),
        0 <= t < es.len(),
        closed_under_wires(cmp, a + entry_set(es.take(t))),
        forall|d: int| 0 <= d < es[t].cei && shares_wire(cmp[d], cmp[es[t].cei as int]) ==> #[trigger] (a + entry_set(es.take(t))).contains(d),
    ensures
        fired_all(old[r]@, es).contains(es[t].cei as int) <==> swaps_somewhere(n, cmp, es[t].cei as int),
{
    reveal(sem_inv);
    let m = cmp.len() as int;
    let c = es[t].cei as int;
    let e = es[t];
    let all = all_comparators(m);
    let olds = old[r]@;
    let mr = root_mask(old, r);
    let tk = es.take(t);
    let ts = a + entry_set(tk);
    assert(wires_ok(cmp)) by {
        assert forall|q: int| 0 <= q < cmp.len() implies (#[trigger] cmp[q]).0 < cmp[q].1 && cmp[q].1 < 64 by {}
    }
    lemma_mask_bits(old, n, part, r);
    assert(cmp[c] == (e.a, e.b));
    assert(cmp[c].0 < cmp[c].1 && cmp[c].1 < n);
    assert(bit(mr, e.a as int) && bit(mr, e.b as int));
    assert(entries_within(es, 0, mr)) by {
        assert forall|k: int| 0 <= k < es.len() implies bit(mr, (#[trigger] es[k]).a as int) && bit(mr, es[k].b as int) by {
            let ek = es[k];
            assert(cmp[ek.cei as int].0 < cmp[ek.cei as int].1 && cmp[ek.cei as int].1 < n);
        }
    }
    assert(job_entries_ok(cmp, a, part, r, tk)) by {
        assert forall|u: int| 0 <= u < tk.len() implies #[trigger] tk[u] == es[u] by {}
    }
    assert(!ts.contains(c)) by {
        if entry_set(tk).contains(c) {
            let u = choose|u: int| 0 <= u < tk.len() && (#[trigger] tk[u]).cei == c;
            assert(tk[u] == es[u]);
        }
    }
    assert forall|d: int| c <= d < m && #[trigger] ts.contains(d) implies cmp[d].0 != cmp[c].0 && cmp[d].0 != cmp[c].1
        && cmp[d].1 != cmp[c].0 && cmp[d].1 != cmp[c].1 by {
        if a.contains(d) {
            assert(!shares_wire(cmp[d], cmp[c]));
        } else {
            let u = choose|u: int| 0 <= u < tk.len() && (#[trigger] tk[u]).cei == d;
            assert(tk[u] == es[u]);
        }
    }
    assert forall|w: int| (w == cmp[c].0 || w == cmp[c].1) implies #[trigger] settled(cmp, ts, c, w) by {
        assert forall|d: int| 0 <= d < c && d < cmp.len() && (cmp[d].0 == w || cmp[d].1 == w) implies #[trigger] ts.contains(d) by {
            assert(shares_wire(cmp[d], cmp[c]));
        }
    }
    // For every input, what entry `t` sees from the state set is what comparator `c` sees in the network.
    assert forall|x: u64| #[trigger] swaps(network_before(x, cmp, c), entry_at(cmp, c)) <==> swaps(run_between(run_set(x, cmp, a, m) & mr, es, 0, t), e) by {
        let v = run_set(x, cmp, a, m);
        lemma_run_with_job(x, cmp, a, part, r, tk);
        lemma_front_take(v, es, t, t);
        lemma_between_front(v & mr, es, t);
        lemma_front_mask(v, es, t, mr);
        let w = run_front(v, es, t);
        assert(run_set(x, cmp, ts, m) == w);
        lemma_untouched(x, cmp, ts, c, m, cmp[c].0 as int);
        lemma_untouched(x, cmp, ts, c, m, cmp[c].1 as int);
        assert(settled(cmp, ts, c, cmp[c].0 as int));
        assert(settled(cmp, ts, c, cmp[c].1 as int));
        assert(forall|q: int| 0 <= q < cmp.len() ==> #[trigger] all.contains(q));
        lemma_cone(x, cmp, ts, all, c, cmp[c].0 as int);
        lemma_cone(x, cmp, ts, all, c, cmp[c].1 as int);
        crate::bits::lemma_bit_and(w, mr, e.a as int);
        crate::bits::lemma_bit_and(w, mr, e.b as int);
    }
    lemma_fired_all_has(olds, es, c);
    if fired_all(olds, es).contains(c) {
        let k = choose|k: int| 0 <= k < olds.len() && #[trigger] crate::exec::fired_from(olds[k].0, olds[k].1, es, 0).contains(c);
        let p = olds[k];
        assert(support(p) == mr);
        lemma_fired_iff_swaps(p.0, p.1, es, 0, c);
        let (y, t2) = choose|y: u64, t2: int| cube_bv(y, p.0, p.1) && 0 <= t2 < es.len() && es[t2].cei == c && swaps(#[trigger] run_between(y, es, 0, t2), es[t2]);
        if t2 != t {
            if t2 < t {
                assert(es[t2].cei < es[t].cei);
            } else {
                assert(es[t].cei < es[t2].cei);
            }
        }
        assert(stands_for(olds, y)) by {
            assert(in_cube(y, olds[k]));
        }
        assert(stands_for(old[r]@, y));
        assert(reaches(n, cmp, a, mr, y));
        let x = choose|x: u64| is_input(x, n) && y == #[trigger] run_set(x, cmp, a, m) & mr;
        assert(swaps(network_before(x, cmp, c), entry_at(cmp, c)));
    }
    if swaps_somewhere(n, cmp, c) {
        let x = choose|x: u64| is_input(x, n) && #[trigger] swaps(network_before(x, cmp, c), entry_at(cmp, c));
        let y = run_set(x, cmp, a, m) & mr;
        assert(reaches(n, cmp, a, mr, y));
        assert(stands_for(old[r]@, y));
        let k = choose|k: int| 0 <= k < olds.len() && #[trigger] in_cube(y, olds[k]);
        let p = olds[k];
        assert(support(p) == mr);
        lemma_fired_iff_swaps(p.0, p.1, es, 0, c);
        assert(swaps(run_between(y, es, 0, t), es[t]));
        assert(crate::exec::fired_from(p.0, p.1, es, 0).contains(c));
    }
}

/// Dropping comparator `c` from the network changes no output when it never
/// swaps on what reaches it.
pub proof fn lemma_drop_unused(n: int, cmp: Seq<(usize, usize)>, c: int, x: u64)
    requires
        wires_ok(cmp),
        0 <= c < cmp.len(),
        !swaps_somewhere(n, cmp, c),
        is_input(x, n),
    ensures
        run_set(x, cmp, all_comparators(cmp.len() as int).remove(c), cmp.len() as int) == network_out(x, cmp),
{
    assert(!swaps(network_before(x, cmp, c), entry_at(cmp, c)));
    crate::semantics::lemma_drop_idle(x, cmp, all_comparators(cmp.len() as int), c, cmp.len() as int);
}

/// The network made of the comparators `a` of `cmp` sorts every input.
pub open spec fn sorts_with(n: int, cmp: Seq<(usize, usize)>, a: Set<int>) -> bool {
    forall|i: int, j: int, x: u64|
        0 <= i < j < n && is_input(x, n) ==> !(#[trigger] bit(run_set(x, cmp, a, cmp.len() as int), i) && !#[trigger] bit(
            run_set(x, cmp, a, cmp.len() as int),
            j,
        ))
}

/// Two networks with the same output on every input get the same verdict.
pub proof fn lemma_same_outputs_same_verdict(n: int, cmp: Seq<(usize, usize)>, a: Set<int>)
    requires
        forall|x: u64| is_input(x, n) ==> #[trigger] run_set(x, cmp, a, cmp.len() as int) == network_out(x, cmp),
    ensures
        sorts_all_inputs(n, cmp) <==> sorts_with(n, cmp, a),
{
    if sorts_all_inputs(n, cmp) {
        assert forall|i: int, j: int, x: u64| 0 <= i < j < n && is_input(x, n) implies !(#[trigger] bit(run_set(x, cmp, a, cmp.len() as int), i)
            && !#[trigger] bit(run_set(x, cmp, a, cmp.len() as int), j)) by {
            assert(!out_of_order(n, cmp, i, j));
            assert(run_set(x, cmp, a, cmp.len() as int) == network_out(x, cmp));
        }
    }
    if sorts_with(n, cmp, a) {
        assert forall|i: int, j: int| 0 <= i < j < n implies !#[trigger] out_of_order(n, cmp, i, j) by {
            if out_of_order(n, cmp, i, j) {
                let x = choose|x: u64| is_input(x, n) && bit(#[trigger] network_out(x, cmp), i) && !bit(network_out(x, cmp), j);
                assert(run_set(x, cmp, a, cmp.len() as int) == network_out(x, cmp));
            }
        }
    }
}

/// Replacing a root's state set by one with the same pairs keeps the invariant.
pub proof fn lemma_sem_same_set(
    n: int,
    cmp: Seq<(usize, usize)>,
    a: Set<int>,
    part: Seq<int>,
    old: Seq<Vec<StatePair>>,
    r: int,
    v: Vec<StatePair>,
)
    requires
        2 <= n <= 64,
        sem_inv(n, cmp, a, part, old),
        states_wf(n, part, old),
        part.len() == n,
        old.len() == n,
        0 <= r < n,
        v@.to_set() == old[r]@.to_set(),
    ensures
        sem_inv(n, cmp, a, part, old.update(r, v)),
        states_wf(n, part, old.update(r, v)),
{
    reveal(sem_inv);
    reveal(states_wf);
    let ns = old.update(r, v);
    assert forall|k: int| 0 <= k < v@.len() implies class_bits(part, n, r, #[trigger] v@[k]) by {
        assert(v@.to_set().contains(v@[k]));
        let q = choose|q: int| 0 <= q < old[r]@.len() && old[r]@[q] == v@[k];
        assert(class_bits(part, n, r, old[r]@[q]));
    }
    assert(v@.len() > 0 <==> old[r]@.len() > 0) by {
        if v@.len() > 0 {
            assert(v@.to_set().contains(v@[0]));
        }
        if old[r]@.len() > 0 {
            assert(old[r]@.to_set().contains(old[r]@[0]));
        }
    }
    assert forall|q: int| 0 <= q < n implies ((#[trigger] ns[q])@.len() > 0 <==> part[q] == q) by {
        if q != r {
            assert(ns[q] == old[q]);
        }
    }
    assert forall|q: int, k: int| 0 <= q < n && 0 <= k < ns[q]@.len() implies class_bits(part, n, q, #[trigger] ns[q]@[k]) by {
        if q != r {
            assert(ns[q] == old[q]);
        }
    }
    assert(states_wf(n, part, ns));
    assert forall|q: int, y: u64| 0 <= q < n && part[q] == q implies (#[trigger] stands_for(ns[q]@, y) <==> reaches(n, cmp, a, root_mask(ns, q), y)) by {
        if q == r {
            lemma_mask_bits(old, n, part, r);
            lemma_mask_bits(ns, n, part, r);
            assert(root_mask(ns, r) == root_mask(old, r)) by {
                assert forall|w: int| 0 <= w < 64 implies #[trigger] bit(root_mask(ns, r), w) == bit(root_mask(old, r), w) by {}
                lemma_bits_ext(root_mask(ns, r), root_mask(old, r));
            }
            lemma_stands_for_set(v@, y);
            lemma_stands_for_set(old[r]@, y);
        } else {
            assert(ns[q] == old[q]);
        }
    }
}

} // verus!
