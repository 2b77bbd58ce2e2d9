//! The executor's work on state sets: comparator jobs, the sort and dedupe of
//! a component's states, combine jobs, and the unsortedness of final states.
use vstd::prelude::*;
use vstd::seq_lib::group_to_multiset_ensures;
use crate::bits::{bit, test_bit};
use crate::plan::CeEntry;
use rayon::iter::{IndexedParallelIterator, IntoParallelRefIterator, ParallelIterator};
use rayon::slice::{ParallelSlice, ParallelSliceMut};

verus! {

/// A state pair `(z, o)`: bit `i` of `z` when wire `i` may hold 0, bit `i` of
/// `o` when it may hold 1.
pub type StatePair = (u64, u64);

/// `x` with bits `a` and `b` exchanged.
pub open spec fn swap_bits(x: u64, a: int, b: int) -> u64 {
    let d = ((x >> (a as u64)) ^ (x >> (b as u64))) & 1u64;
    x ^ ((d << (a as u64)) | (d << (b as u64)))
}

/// `x` with bit `a` toggled.
pub open spec fn flip(x: u64, a: int) -> u64 {
    x ^ (1u64 << (a as u64))
}

/// The entries of a comparator job: wires `a < b < 64`, indices below `m`.
pub open spec fn entries_ok(es: Seq<CeEntry>, m: int) -> bool {
    forall|k: int| 0 <= k < es.len() ==> {
        let e = #[trigger] es[k];
        e.a < e.b && e.b < 64 && e.cei < m
    }
}

/// Comparator `(a, b)` can move a 1 from `a` to `b` on `(z, o)`.
pub open spec fn may_swap(z: u64, o: u64, a: int, b: int) -> bool {
    bit(o, a) && bit(z, b)
}

/// Comparator `(a, b)` swaps for certain: `a` must hold 1 or `b` must hold 0.
pub open spec fn must_swap(z: u64, o: u64, a: int, b: int) -> bool {
    may_swap(z, o, a, b) && !(bit(z, a) && bit(o, b))
}

/// The state pairs that come out of applying `es[i..]` to `(z, o)`.
pub open spec fn outs_from(z: u64, o: u64, es: Seq<CeEntry>, i: int) -> Set<StatePair>
    decreases es.len() - i,
{
    if i < 0 || i >= es.len() {
        set![(z, o)]
    } else {
        let a = es[i].a as int;
        let b = es[i].b as int;
        if !may_swap(z, o, a, b) {
            outs_from(z, o, es, i + 1)
        } else if must_swap(z, o, a, b) {
            outs_from(swap_bits(z, a, b), swap_bits(o, a, b), es, i + 1)
        } else {
            outs_from(z, flip(flip(o, a), b), es, i + 1) + outs_from(flip(z, b), o, es, i + 1)
        }
    }
}

/// The indices of the comparators among `es[i..]` that swap or branch on
/// some path from `(z, o)`.
pub open spec fn fired_from(z: u64, o: u64, es: Seq<CeEntry>, i: int) -> Set<int>
    decreases es.len() - i,
{
    if i < 0 || i >= es.len() {
        Set::empty()
    } else {
        let a = es[i].a as int;
        let b = es[i].b as int;
        if !may_swap(z, o, a, b) {
            fired_from(z, o, es, i + 1)
        } else if must_swap(z, o, a, b) {
            fired_from(swap_bits(z, a, b), swap_bits(o, a, b), es, i + 1).insert(es[i].cei as int)
        } else {
            (fired_from(z, flip(flip(o, a), b), es, i + 1) + fired_from(flip(z, b), o, es, i + 1)).insert(
                es[i].cei as int,
            )
        }
    }
}

/// The outputs of a comparator job on every pair of a state set.
pub open spec fn outs_all(ps: Seq<StatePair>, es: Seq<CeEntry>) -> Set<StatePair>
    decreases ps.len(),
{
    if ps.len() == 0 {
        Set::empty()
    } else {
        outs_all(ps.drop_last(), es) + outs_from(ps.last().0, ps.last().1, es, 0)
    }
}

/// The comparators that a comparator job fires on some pair of a state set.
pub open spec fn fired_all(ps: Seq<StatePair>, es: Seq<CeEntry>) -> Set<int>
    decreases ps.len(),
{
    if ps.len() == 0 {
        Set::empty()
    } else {
        fired_all(ps.drop_last(), es) + fired_from(ps.last().0, ps.last().1, es, 0)
    }
}

/// The indices set in a bitmap of flags.
pub open spec fn used_set(u: Seq<bool>) -> Set<int> {
    Set::new(|c: int| 0 <= c < u.len() && u[c])
}

pub open spec fn pair_lt(p: StatePair, q: StatePair) -> bool {
    p.0 < q.0 || (p.0 == q.0 && p.1 < q.1)
}

pub open spec fn pair_le(p: StatePair, q: StatePair) -> bool {
    p.0 < q.0 || (p.0 == q.0 && p.1 <= q.1)
}

/// Sorted by the order of tuples.
pub open spec fn sorted_pairs(s: Seq<StatePair>) -> bool {
    forall|i: int, j: int| 0 <= i < j < s.len() ==> pair_le(#[trigger] s[i], #[trigger] s[j])
}

/// Sorted by the order of tuples, without repeats.
pub open spec fn strictly_sorted(s: Seq<StatePair>) -> bool {
    forall|i: int, j: int| 0 <= i < j < s.len() ==> pair_lt(#[trigger] s[i], #[trigger] s[j])
}

/// Applies `es[i..]` to `(z, o)`, adding the outputs to `out` and marking in
/// `used` the comparators that swap or branch.
fn apply_from(
    z0: u64,
    o0: u64,
    es: &Vec<CeEntry>,
    i0: usize,
    used: &mut Vec<bool>,
    out: &mut Vec<StatePair>,
)
    requires
        entries_ok(es@, old(used)@.len() as int),
        i0 <= es@.len(),
    ensures
        final(used)@.len() == old(used)@.len(),
        final(out)@.to_set() == old(out)@.to_set() + outs_from(z0, o0, es@, i0 as int),
        used_set(final(used)@) == used_set(old(used)@) + fired_from(z0, o0, es@, i0 as int),
    decreases es@.len() - i0,
{
    let ghost out0 = out@.to_set();
    let ghost used0 = used_set(used@);
    let ghost goal = out0 + outs_from(z0, o0, es@, i0 as int);
    let ghost used_goal = used0 + fired_from(z0, o0, es@, i0 as int);
    let mut z = z0;
    let mut o = o0;
    let mut i = i0;
    proof {
        assert(out@.to_set() + outs_from(z, o, es@, i as int) == goal);
        assert(used_set(used@) + fired_from(z, o, es@, i as int) == used_goal);
    }
    while i < es.len()
        invariant
            entries_ok(es@, used@.len() as int),
            i0 <= i <= es@.len(),
            used@.len() == old(used)@.len(),
            out@.to_set() + outs_from(z, o, es@, i as int) == goal,
            used_set(used@) + fired_from(z, o, es@, i as int) == used_goal,
        decreases es@.len() - i,
    {
        let e = es[i];
        let ghost pz = z;
        let ghost po = o;
        let ghost pi = i as int;
        let ghost a = e.a as int;
        let ghost b = e.b as int;
        assert(e == es@[pi]);
        if !(test_bit(o, e.a) && test_bit(z, e.b)) {
            i += 1;
            proof {
                assert(outs_from(pz, po, es@, pi) == outs_from(z, o, es@, i as int));
                assert(fired_from(pz, po, es@, pi) == fired_from(z, o, es@, i as int));
            }
        } else if !(test_bit(z, e.a) && test_bit(o, e.b)) {
            let ghost u0 = used_set(used@);
            used.set(e.cei, true);
            proof {
                assert(used_set(used@) =~= u0.insert(e.cei as int));
            }
            let xz = ((z >> (e.a as u64)) ^ (z >> (e.b as u64))) & 1;
            let xo = ((o >> (e.a as u64)) ^ (o >> (e.b as u64))) & 1;
            z = z ^ ((xz << (e.a as u64)) | (xz << (e.b as u64)));
            o = o ^ ((xo << (e.a as u64)) | (xo << (e.b as u64)));
            i += 1;
            proof {
                assert(z == swap_bits(pz, a, b));
                assert(o == swap_bits(po, a, b));
                assert(outs_from(pz, po, es@, pi) == outs_from(z, o, es@, i as int));
                assert(fired_from(pz, po, es@, pi) == fired_from(z, o, es@, i as int).insert(
                    e.cei as int,
                ));
                assert(used_set(used@) + fired_from(z, o, es@, i as int) =~= u0 + fired_from(
                    pz,
                    po,
                    es@,
                    pi,
                ));
            }
        } else {
            let ghost u0 = used_set(used@);
            let ghost s0 = out@.to_set();
            used.set(e.cei, true);
            proof {
                assert(used_set(used@) =~= u0.insert(e.cei as int));
            }
            let o_pushed = o ^ (1u64 << (e.a as u64)) ^ (1u64 << (e.b as u64));
            apply_from(z, o_pushed, es, i + 1, used, out);
            z = z ^ (1u64 << (e.b as u64));
            i += 1;
            proof {
                let left = outs_from(pz, o_pushed, es@, i as int);
                let right = outs_from(z, o, es@, i as int);
                assert(o_pushed == flip(flip(po, a), b));
                assert(z == flip(pz, b));
                assert(outs_from(pz, po, es@, pi) == left + right);
                assert(out@.to_set() + right =~= s0 + outs_from(pz, po, es@, pi));
                let fl = fired_from(pz, o_pushed, es@, i as int);
                let fr = fired_from(z, o, es@, i as int);
                assert(fired_from(pz, po, es@, pi) == (fl + fr).insert(e.cei as int));
                assert(used_set(used@) + fr =~= u0 + fired_from(pz, po, es@, pi));
            }
        }
    }
    let ghost s1 = out@;
    out.push((z, o));
    proof {
        s1.lemma_push_to_set_commute((z, o));
        assert(outs_from(z, o, es@, i as int) == set![(z, o)]);
        assert(out@.to_set() =~= goal);
        assert(fired_from(z, o, es@, i as int) =~= Set::<int>::empty());
        assert(used_set(used@) =~= used_goal);
    }
}

/// Relies on rayon's `par_sort_unstable`: it permutes the slice into
/// ascending order, here the order of tuples.
#[verifier::external_body]
fn par_sort_pairs(v: &mut Vec<StatePair>)
    ensures
        final(v)@.to_multiset() == old(v)@.to_multiset(),
        sorted_pairs(final(v)@),
{
    v.par_sort_unstable();
}

/// Drops the repeats of a sorted sequence of pairs.
pub fn dedup_sorted(v: &Vec<StatePair>) -> (r: Vec<StatePair>)
    requires
        sorted_pairs(v@),
    ensures
        strictly_sorted(r@),
        r@.to_set() == v@.to_set(),
{
    let mut r: Vec<StatePair> = Vec::new();
    let mut k: usize = 0;
    while k < v.len()
        invariant
            k <= v@.len(),
            sorted_pairs(v@),
            strictly_sorted(r@),
            r@.to_set() == v@.take(k as int).to_set(),
            k > 0 ==> r@.len() > 0 && r@.last() == v@[k - 1],
            k == 0 ==> r@.len() == 0,
        decreases v@.len() - k,
    {
        let (vz, vo) = v[k];
        let ghost s0 = r@;
        proof {
            assert(v@.take(k + 1) =~= v@.take(k as int).push(v@[k as int]));
            v@.take(k as int).lemma_push_to_set_commute(v@[k as int]);
        }
        if r.len() == 0 {
            r.push((vz, vo));
            proof {
                s0.lemma_push_to_set_commute((vz, vo));
            }
        } else {
            let (lz, lo) = r[r.len() - 1];
            if lz != vz || lo != vo {
                proof {
                    assert(pair_le(v@[k - 1], v@[k as int]));
                    assert forall|i: int, j: int| 0 <= i < j < s0.len() + 1 implies pair_lt(
                        #[trigger] s0.push((vz, vo))[i],
                        #[trigger] s0.push((vz, vo))[j],
                    ) by {
                        if j == s0.len() && i < s0.len() - 1 {
                            assert(pair_lt(s0[i], s0[s0.len() - 1]));
                        }
                    }
                }
                r.push((vz, vo));
                proof {
                    s0.lemma_push_to_set_commute((vz, vo));
                }
            } else {
                proof {
                    assert(s0.to_set().contains(s0.last()));
                    assert(r@.to_set() =~= v@.take(k + 1).to_set());
                }
            }
        }
        k += 1;
    }
    proof {
        assert(v@.take(v@.len() as int) =~= v@);
    }
    r
}

/// States per parallel chunk of a comparator job.
pub const CHUNK: usize = 65536;

/// Chunk `k` of a state set: `CHUNK` states, the last chunk possibly fewer.
pub open spec fn chunk_of(s: Seq<StatePair>, k: int) -> Seq<StatePair> {
    s.subrange(k * 65536, if (k + 1) * 65536 < s.len() { (k + 1) * 65536 } else { s.len() as int })
}

/// The number of chunks of a state set of `len` states.
pub open spec fn chunk_count(len: int) -> int {
    (len + 65535) / 65536
}

/// A chunk's result: the comparators it fires, as flags over `m`, and the
/// pairs it yields.
pub open spec fn chunk_done(chunk: Seq<StatePair>, es: Seq<CeEntry>, m: int, part: (Vec<bool>, Vec<StatePair>)) -> bool {
    &&& part.0@.len() == m
    &&& used_set(part.0@) == fired_all(chunk, es)
    &&& part.1@.to_set() == outs_all(chunk, es)
}

/// Applies a comparator job to one chunk of states.
pub fn apply_chunk(chunk: &[StatePair], es: &Vec<CeEntry>, m: usize) -> (r: (Vec<bool>, Vec<StatePair>))
    requires
        entries_ok(es@, m as int),
    ensures
        chunk_done(chunk@, es@, m as int, r),
{
    let mut used: Vec<bool> = Vec::new();
    let mut c: usize = 0;
    while c < m
        invariant
            c <= m,
            used@.len() == c,
            forall|q: int| 0 <= q < c ==> !#[trigger] used@[q],
        decreases m - c,
    {
        used.push(false);
        c += 1;
    }
    let mut out: Vec<StatePair> = Vec::new();
    let mut k: usize = 0;
    proof {
        assert(chunk@.take(0) =~= Seq::<StatePair>::empty());
        assert(out@.to_set() =~= Set::<StatePair>::empty());
        assert(used_set(used@) =~= Set::<int>::empty());
        assert(used_set(used@) + fired_all(chunk@.take(0), es@) =~= used_set(used@));
    }
    while k < chunk.len()
        invariant
            k <= chunk@.len(),
            entries_ok(es@, used@.len() as int),
            used@.len() == m,
            out@.to_set() == outs_all(chunk@.take(k as int), es@),
            used_set(used@) == fired_all(chunk@.take(k as int), es@),
        decreases chunk@.len() - k,
    {
        let (z, o) = chunk[k];
        apply_from(z, o, es, 0, &mut used, &mut out);
        proof {
            let t = chunk@.take(k + 1);
            assert(t.drop_last() =~= chunk@.take(k as int));
            assert(t.last() == (z, o));
            assert(outs_all(t, es@) == outs_all(chunk@.take(k as int), es@) + outs_from(z, o, es@, 0));
            assert(used_set(used@) =~= fired_all(t, es@));
        }
        k += 1;
    }
    proof {
        assert(chunk@.take(chunk@.len() as int) =~= chunk@);
    }
    (used, out)
}

/// Relies on rayon's `par_chunks(CHUNK).map(..).collect_into_vec(..)` on a
/// slice: one result per chunk of `CHUNK` states (the last possibly shorter),
/// in order; each is what the verified `apply_chunk` returns for its chunk.
#[verifier::external_body]
fn par_apply_chunks(states: &Vec<StatePair>, es: &Vec<CeEntry>, m: usize) -> (r: Vec<(Vec<bool>, Vec<StatePair>)>)
    requires
        entries_ok(es@, m as int),
    ensures
        r@.len() == chunk_count(states@.len() as int),
        forall|k: int| 0 <= k < r@.len() ==> chunk_done(chunk_of(states@, k), es@, m as int, #[trigger] r@[k]),
{
    let mut parts: Vec<(Vec<bool>, Vec<StatePair>)> = Vec::new();
    states.par_chunks(CHUNK).map(|c| apply_chunk(c, es, m)).collect_into_vec(&mut parts);
    parts
}

proof fn lemma_all_concat(x: Seq<StatePair>, y: Seq<StatePair>, es: Seq<CeEntry>)
    ensures
        outs_all(x + y, es) == outs_all(x, es) + outs_all(y, es),
        fired_all(x + y, es) == fired_all(x, es) + fired_all(y, es),
    decreases y.len(),
{
    if y.len() == 0 {
        assert(x + y =~= x);
        assert(outs_all(x, es) + outs_all(y, es) =~= outs_all(x, es));
        assert(fired_all(x, es) + fired_all(y, es) =~= fired_all(x, es));
    } else {
        lemma_all_concat(x, y.drop_last(), es);
        assert((x + y).drop_last() =~= x + y.drop_last());
        assert((x + y).last() == y.last());
        assert(outs_all(x + y, es) =~= outs_all(x, es) + outs_all(y, es));
        assert(fired_all(x + y, es) =~= fired_all(x, es) + fired_all(y, es));
    }
}

/// Applies a comparator job to every pair of a component's state set, in
/// parallel chunks: the new state set, before sorting, and the fired
/// comparators marked in `used`.
pub fn scan_cmp_job(states: &Vec<StatePair>, es: &Vec<CeEntry>, used: &mut Vec<bool>) -> (r: Vec<StatePair>)
    requires
        entries_ok(es@, old(used)@.len() as int),
    ensures
        final(used)@.len() == old(used)@.len(),
        used_set(final(used)@) == used_set(old(used)@) + fired_all(states@, es@),
        r@.to_set() == outs_all(states@, es@),
{
    let m = used.len();
    let parts = par_apply_chunks(states, es, m);
    let ghost len = states@.len() as int;
    let mut out: Vec<StatePair> = Vec::new();
    let mut k: usize = 0;
    proof {
        assert(states@.take(0) =~= Seq::<StatePair>::empty());
        assert(out@.to_set() =~= Set::<StatePair>::empty());
        assert(used_set(used@) + fired_all(states@.take(0), es@) =~= used_set(used@));
    }
    while k < parts.len()
        invariant
            parts@.len() == chunk_count(len),
            len == states@.len(),
            forall|q: int| 0 <= q < parts@.len() ==> chunk_done(chunk_of(states@, q), es@, m as int, #[trigger] parts@[q]),
            k <= parts@.len(),
            k * 65536 <= len || k == parts@.len(),
            used@.len() == m,
            m == old(used)@.len(),
            out@.to_set() == outs_all(states@.take(if k * 65536 < len { k * 65536 } else { len }), es@),
            used_set(used@) == used_set(old(used)@) + fired_all(states@.take(if k * 65536 < len { k * 65536 } else { len }), es@),
        decreases parts@.len() - k,
    {
        let ghost lo = k * 65536;
        proof {
            assert(lo < len) by (nonlinear_arith)
                requires k < (len + 65535) / 65536, lo == k * 65536;
        }
        let ghost hi = if (k + 1) * 65536 < len { (k + 1) * 65536 } else { len };
        let part = &parts[k];
        assert(chunk_done(chunk_of(states@, k as int), es@, m as int, parts@[k as int]));
        let ghost u0 = used_set(used@);
        let mut c: usize = 0;
        proof {
            assert(u0 + Set::new(|q: int| 0 <= q < 0 && part.0@[q]) =~= u0);
        }
        while c < m
            invariant
                c <= m,
                used@.len() == m,
                part.0@.len() == m,
                used_set(used@) == u0 + Set::new(|q: int| 0 <= q < c && part.0@[q]),
            decreases m - c,
        {
            let ghost us = used_set(used@);
            if part.0[c] {
                used.set(c, true);
                proof {
                    assert(used_set(used@) =~= us.insert(c as int));
                }
            }
            proof {
                assert(used_set(used@) =~= u0 + Set::new(|q: int| 0 <= q < c + 1 && part.0@[q]));
            }
            c += 1;
        }
        proof {
            assert(Set::new(|q: int| 0 <= q < m && part.0@[q]) =~= used_set(part.0@));
        }
        let ghost o0 = out@;
        let mut t: usize = 0;
        while t < part.1.len()
            invariant
                t <= part.1@.len(),
                out@ == o0 + part.1@.take(t as int),
            decreases part.1@.len() - t,
        {
            out.push(part.1[t]);
            proof {
                assert(part.1@.take(t + 1) =~= part.1@.take(t as int).push(part.1@[t as int]));
            }
            t += 1;
        }
        proof {
            assert(part.1@.take(part.1@.len() as int) =~= part.1@);
            assert(out@.to_set() =~= o0.to_set() + part.1@.to_set()) by {
                assert forall|p: StatePair| out@.to_set().contains(p) <==> (o0.to_set() + part.1@.to_set()).contains(p) by {
                    if out@.contains(p) {
                        let i = choose|i: int| 0 <= i < out@.len() && out@[i] == p;
                        if i < o0.len() {
                            assert(o0[i] == p);
                        } else {
                            assert(part.1@[i - o0.len()] == p);
                        }
                    }
                    if o0.contains(p) {
                        let i = choose|i: int| 0 <= i < o0.len() && o0[i] == p;
                        assert(out@[i] == p);
                    }
                    if part.1@.contains(p) {
                        let i = choose|i: int| 0 <= i < part.1@.len() && part.1@[i] == p;
                        assert(out@[o0.len() + i] == p);
                    }
                }
            }
            assert(states@.take(hi) =~= states@.take(lo) + chunk_of(states@, k as int));
            lemma_all_concat(states@.take(lo), chunk_of(states@, k as int), es@);
            assert(used_set(used@) =~= used_set(old(used)@) + fired_all(states@.take(hi), es@));
            assert((k + 1) * 65536 == lo + 65536);
            if (k + 1) * 65536 > len {
                assert(k + 1 == (len + 65535) / 65536) by (nonlinear_arith)
                    requires k < (len + 65535) / 65536, (k + 1) * 65536 > len, len >= 0;
            }
        }
        k += 1;
    }
    proof {
        assert(k * 65536 >= len) by (nonlinear_arith)
            requires k == (len + 65535) / 65536, len >= 0;
        assert(states@.take(len) =~= states@);
    }
    out
}

/// Sorts a state set and drops its repeats.
pub fn settle_states(states: &Vec<StatePair>) -> (r: Vec<StatePair>)
    ensures
        strictly_sorted(r@),
        r@.to_set() == states@.to_set(),
{
    let mut out: Vec<StatePair> = Vec::new();
    let mut k: usize = 0;
    while k < states.len()
        invariant
            k <= states@.len(),
            out@ == states@.take(k as int),
        decreases states@.len() - k,
    {
        out.push(states[k]);
        proof {
            assert(states@.take(k + 1) =~= states@.take(k as int).push(states@[k as int]));
        }
        k += 1;
    }
    proof {
        assert(states@.take(states@.len() as int) =~= states@);
    }
    let ghost before = out@;
    par_sort_pairs(&mut out);
    proof {
        broadcast use group_to_multiset_ensures;

        assert(out@.to_set() =~= before.to_set()) by {
            assert forall|p: StatePair| out@.to_set().contains(p) <==> before.to_set().contains(p) by {
                assert(out@.contains(p) <==> out@.to_multiset().count(p) > 0);
                assert(before.contains(p) <==> before.to_multiset().count(p) > 0);
            }
        }
    }
    dedup_sorted(&out)
}

/// Applies a comparator job to every pair of a component's state set: the
/// new state set, sorted and without repeats, and the fired comparators
/// marked in `used`.
pub fn apply_cmp_job(states: &Vec<StatePair>, es: &Vec<CeEntry>, used: &mut Vec<bool>) -> (r: Vec<
    StatePair,
>)
    requires
        entries_ok(es@, old(used)@.len() as int),
    ensures
        final(used)@.len() == old(used)@.len(),
        used_set(final(used)@) == used_set(old(used)@) + fired_all(states@, es@),
        strictly_sorted(r@),
        r@.to_set() == outs_all(states@, es@),
{
    let out = scan_cmp_job(states, es, used);
    settle_states(&out)
}

/// The wires that a pair speaks of.
pub open spec fn support(p: StatePair) -> u64 {
    p.0 | p.1
}

pub open spec fn or_pair(p: StatePair, q: StatePair) -> StatePair {
    (p.0 | q.0, p.1 | q.1)
}

/// The pairwise union of two state sets, one run of `master` for each pair of
/// `slave` in turn.
pub open spec fn product(master: Seq<StatePair>, slave: Seq<StatePair>) -> Seq<StatePair>
    decreases slave.len(),
{
    if slave.len() == 0 {
        seq![]
    } else {
        product(master, slave.drop_last()) + master.map_values(|p: StatePair| or_pair(p, slave.last()))
    }
}

pub proof fn lemma_step_support(z: u64, o: u64, a: u64, b: u64)
    requires
        a < b < 64,
        bit(o, a as int),
        bit(z, b as int),
    ensures
        swap_bits(z, a as int, b as int) | swap_bits(o, a as int, b as int) == z | o,
        bit(z, a as int) ==> z | flip(flip(o, a as int), b as int) == z | o,
        bit(o, b as int) ==> flip(z, b as int) | o == z | o,
{
    assert(((o >> a) & 1 == 1 && (z >> b) & 1 == 1) ==> {
        let dz = ((z >> a) ^ (z >> b)) & 1u64;
        let d_o = ((o >> a) ^ (o >> b)) & 1u64;
        (z ^ ((dz << a) | (dz << b))) | (o ^ ((d_o << a) | (d_o << b))) == z | o
    }) by (bit_vector)
        requires a < b < 64;
    assert(((z >> a) & 1 == 1 && (z >> b) & 1 == 1) ==> z | (o ^ (1u64 << a) ^ (1u64 << b)) == z | o)
        by (bit_vector)
        requires a < b < 64;
    assert((o >> b) & 1 == 1 ==> (z ^ (1u64 << b)) | o == z | o) by (bit_vector)
        requires b < 64;
}

/// A comparator job keeps the support of each pair, and gives at least one pair.
pub proof fn lemma_outs_support(z: u64, o: u64, es: Seq<CeEntry>, i: int)
    requires
        entries_ok(es, u64::MAX as int),
    ensures
        forall|p: StatePair| #[trigger] outs_from(z, o, es, i).contains(p) ==> support(p) == z | o,
        exists|p: StatePair| #[trigger] outs_from(z, o, es, i).contains(p),
    decreases es.len() - i,
{
    if i < 0 || i >= es.len() {
        assert(outs_from(z, o, es, i).contains((z, o)));
    } else {
        let e = es[i];
        let a = e.a as int;
        let b = e.b as int;
        if !may_swap(z, o, a, b) {
            lemma_outs_support(z, o, es, i + 1);
            let q = choose|p: StatePair| #[trigger] outs_from(z, o, es, i + 1).contains(p);
            assert(outs_from(z, o, es, i).contains(q));
        } else {
            lemma_step_support(z, o, e.a as u64, e.b as u64);
            if must_swap(z, o, a, b) {
                lemma_outs_support(swap_bits(z, a, b), swap_bits(o, a, b), es, i + 1);
                let q = choose|p: StatePair| #[trigger] outs_from(swap_bits(z, a, b), swap_bits(o, a, b), es, i + 1).contains(p);
                assert(outs_from(z, o, es, i).contains(q));
            } else {
                lemma_outs_support(z, flip(flip(o, a), b), es, i + 1);
                lemma_outs_support(flip(z, b), o, es, i + 1);
                let q = choose|p: StatePair| #[trigger] outs_from(flip(z, b), o, es, i + 1).contains(p);
                assert(outs_from(z, o, es, i).contains(q));
            }
        }
    }
}

/// The outputs of a comparator job on a state set of one support keep that
/// support, and are not empty when the set is not.
pub proof fn lemma_outs_all_support(ps: Seq<StatePair>, es: Seq<CeEntry>, mask: u64)
    requires
        entries_ok(es, u64::MAX as int),
        forall|k: int| 0 <= k < ps.len() ==> support(#[trigger] ps[k]) == mask,
    ensures
        forall|p: StatePair| #[trigger] outs_all(ps, es).contains(p) ==> support(p) == mask,
        ps.len() > 0 ==> exists|p: StatePair| #[trigger] outs_all(ps, es).contains(p),
    decreases ps.len(),
{
    if ps.len() > 0 {
        lemma_outs_all_support(ps.drop_last(), es, mask);
        let l = ps.last();
        assert(support(ps[ps.len() - 1]) == mask);
        lemma_outs_support(l.0, l.1, es, 0);
        let q = choose|p: StatePair| #[trigger] outs_from(l.0, l.1, es, 0).contains(p);
        assert(outs_all(ps, es).contains(q));
        assert forall|p: StatePair| #[trigger] outs_all(ps, es).contains(p) implies support(p) == mask by {
            if outs_all(ps.drop_last(), es).contains(p) {
            } else {
                assert(outs_from(l.0, l.1, es, 0).contains(p));
            }
        }
    }
}

/// The union of every pair of `master` with the pair `sp`, in order.
pub fn or_row(master: &Vec<StatePair>, sp: StatePair) -> (r: Vec<StatePair>)
    ensures
        r@ == master@.map_values(|p: StatePair| or_pair(p, sp)),
{
    let (sz, so) = sp;
    let mut r: Vec<StatePair> = Vec::new();
    let mut k: usize = 0;
    while k < master.len()
        invariant
            k <= master@.len(),
            sp == (sz, so),
            r@ == master@.take(k as int).map_values(|p: StatePair| or_pair(p, sp)),
        decreases master@.len() - k,
    {
        let (mz, mo) = master[k];
        r.push((mz | sz, mo | so));
        proof {
            assert(master@.take(k + 1).map_values(|p: StatePair| or_pair(p, sp)) =~= master@.take(k as int).map_values(
                |p: StatePair| or_pair(p, sp),
            ).push((mz | sz, mo | so)));
        }
        k += 1;
    }
    proof {
        assert(master@.take(master@.len() as int) =~= master@);
    }
    r
}

/// Relies on rayon's `par_iter().map(..).collect_into_vec(..)` on a slice:
/// one result per element, in the slice's order; each result is what the
/// verified `or_row` returns for that element.
#[verifier::external_body]
fn par_rows(master: &Vec<StatePair>, slave: &Vec<StatePair>) -> (r: Vec<Vec<StatePair>>)
    ensures
        r@.len() == slave@.len(),
        forall|k: int| 0 <= k < slave@.len() ==> (#[trigger] r@[k])@ == master@.map_values(|p: StatePair| or_pair(p, slave@[k])),
{
    let mut rows: Vec<Vec<StatePair>> = Vec::new();
    slave.par_iter().map(|sp| or_row(master, *sp)).collect_into_vec(&mut rows);
    rows
}

/// Combines two components' state sets: the union of every pair of `master`
/// with every pair of `slave`, whose supports are disjoint. The rows, one per
/// pair of `slave`, are built in parallel.
pub fn combine_states(master: &Vec<StatePair>, slave: &Vec<StatePair>) -> (r: Vec<StatePair>)
    requires
        forall|i: int, j: int|
            0 <= i < master@.len() && 0 <= j < slave@.len() ==> support(#[trigger] master@[i])
                & support(#[trigger] slave@[j]) == 0,
    ensures
        r@ == product(master@, slave@),
{
    let rows = par_rows(master, slave);
    let mut r: Vec<StatePair> = Vec::new();
    let mut s: usize = 0;
    proof {
        assert(slave@.take(0).len() == 0);
    }
    while s < rows.len()
        invariant
            rows@.len() == slave@.len(),
            forall|k: int| 0 <= k < slave@.len() ==> (#[trigger] rows@[k])@ == master@.map_values(|p: StatePair| or_pair(p, slave@[k])),
            s <= slave@.len(),
            r@ == product(master@, slave@.take(s as int)),
        decreases slave@.len() - s,
    {
        let ghost r0 = r@;
        let row = &rows[s];
        let mut t: usize = 0;
        while t < row.len()
            invariant
                t <= row@.len(),
                r@ == r0 + row@.take(t as int),
            decreases row@.len() - t,
        {
            r.push(row[t]);
            proof {
                assert(row@.take(t + 1) =~= row@.take(t as int).push(row@[t as int]));
            }
            t += 1;
        }
        proof {
            assert(row@.take(row@.len() as int) =~= row@);
        }
        proof {
            let t = slave@.take(s + 1);
            assert(t.drop_last() =~= slave@.take(s as int));
            assert(t.last() == slave@[s as int]);
            assert(r@ == r0 + rows@[s as int]@);
        }
        s += 1;
    }
    proof {
        assert(slave@.take(slave@.len() as int) =~= slave@);
    }
    r
}

/// Bits above `i`.
pub open spec fn above(i: int) -> u64 {
    (u64::MAX << 1u64) << (i as u64)
}

/// Some pair of `ps` lets wire `i` hold 1 while wire `j > i` holds 0.
pub open spec fn unsorted_in(ps: Seq<StatePair>, i: int, j: int) -> bool {
    &&& i < j
    &&& exists|k: int| 0 <= k < ps.len() && bit(#[trigger] ps[k].1, i) && bit(ps[k].0, j)
}

proof fn lemma_above_bit(z: u64, i: u64, j: u64)
    requires
        i < 64,
        j < 64,
    ensures
        bit(z & ((u64::MAX << 1u64) << i), j as int) == (bit(z, j as int) && i < j),
{
    assert((((z & ((u64::MAX << 1u64) << i)) >> j) & 1 == 1) == ((z >> j) & 1 == 1 && i < j))
        by (bit_vector)
        requires i < 64, j < 64;
}

/// Marks in `unsorted` what the pairs `ps` show: bit `j` of `unsorted[i]`
/// for each pair that lets wire `i` hold 1 and wire `j > i` hold 0.
pub fn check_unsorted(unsorted: &mut [u64; 64], ps: &[StatePair])
    ensures
        forall|i: int, j: int|
            0 <= i < 64 && 0 <= j < 64 ==> (#[trigger] bit(final(unsorted)@[i], j) <==> (bit(
                old(unsorted)@[i],
                j,
            ) || unsorted_in(ps@, i, j))),
{
    let mut k: usize = 0;
    while k < ps.len()
        invariant
            k <= ps@.len(),
            forall|i: int, j: int|
                0 <= i < 64 && 0 <= j < 64 ==> (#[trigger] bit(unsorted@[i], j) <==> (bit(
                    old(unsorted)@[i],
                    j,
                ) || unsorted_in(ps@.take(k as int), i, j))),
        decreases ps@.len() - k,
    {
        let (z, o) = ps[k];
        let ghost before = unsorted@;
        let mut i: usize = 0;
        while i < 64
            invariant
                i <= 64,
                forall|x: int|
                    0 <= x < 64 ==> #[trigger] unsorted@[x] == if x < i && bit(o, x) {
                        before[x] | (z & above(x))
                    } else {
                        before[x]
                    },
            decreases 64 - i,
        {
            if test_bit(o, i) {
                unsorted[i] = unsorted[i] | (z & ((u64::MAX << 1u64) << (i as u64)));
            }
            i += 1;
        }
        proof {
            let t = ps@.take(k + 1);
            assert forall|x: int, j: int|
                0 <= x < 64 && 0 <= j < 64 implies (#[trigger] bit(unsorted@[x], j) <==> (bit(
                old(unsorted)@[x],
                j,
            ) || unsorted_in(t, x, j))) by {
                crate::bits::lemma_bit_or(before[x], z & above(x), j);
                lemma_above_bit(z, x as u64, j as u64);
                if unsorted_in(t, x, j) && !unsorted_in(ps@.take(k as int), x, j) {
                    let w = choose|w: int| 0 <= w < t.len() && bit(#[trigger] t[w].1, x) && bit(t[w].0, j);
                    if w < k {
                        assert(ps@.take(k as int)[w] == t[w]);
                    }
                }
                if unsorted_in(ps@.take(k as int), x, j) {
                    let w = choose|w: int| 0 <= w < k && bit(#[trigger] ps@.take(k as int)[w].1, x) && bit(ps@.take(k as int)[w].0, j);
                    assert(t[w] == ps@.take(k as int)[w]);
                }
                if bit(o, x) && bit(z, j) && x < j {
                    assert(t[k as int] == (z, o));
                }
            }
        }
        k += 1;
    }
    proof {
        assert(ps@.take(ps@.len() as int) =~= ps@);
    }
}

} // verus!
