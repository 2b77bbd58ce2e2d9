//! The strategy planner: compiles the comparator list into an ordered plan of
//! comparator jobs (each inside one connected component) and combine jobs
//! (each merging two components).
use vstd::prelude::*;
use vstd::set_lib::{lemma_int_range, lemma_len_subset, set_int_range};
use crate::bits::{bit, full_mask, lemma_bit_and, lemma_bit_clear2, lemma_bit_low_mask, low_mask, test_bit};
use crate::dsu::{class_of, is_partition, merge_classes, singletons, DsuBySize};

verus! {

/// Comparator `cei` of the network, on wires `a < b`.
#[derive(Clone, Copy, Debug)]
pub struct CeEntry {
    pub cei: usize,
    pub a: usize,
    pub b: usize,
}

#[derive(Clone, Debug)]
pub enum VerifyJob {
    /// Apply `cmp_part`, in order, to the states of the component rooted at `root`.
    Cmp { root: usize, cmp_part: Vec<CeEntry> },
    /// Merge the component rooted at `root_slave` into the one rooted at `root_master`.
    Combine { root_master: usize, root_slave: usize },
}

/// `n` wires, `2 <= n <= 64`, and comparators `(a, b)` with `a < b < n`.
pub open spec fn valid_network(n: int, cmp: Seq<(usize, usize)>) -> bool {
    &&& 2 <= n <= 64
    &&& forall|k: int| 0 <= k < cmp.len() ==> (#[trigger] cmp[k]).0 < cmp[k].1 && cmp[k].1 < n
}

/// The partition of the wires into components after the jobs of `plan`.
pub open spec fn part_after(n: nat, plan: Seq<VerifyJob>) -> Seq<int>
    decreases plan.len(),
{
    if plan.len() == 0 {
        singletons(n)
    } else {
        let p = part_after(n, plan.drop_last());
        match plan.last() {
            VerifyJob::Cmp { .. } => p,
            VerifyJob::Combine { root_master, root_slave } => merge_classes(
                p,
                root_master as int,
                root_slave as int,
                root_master as int,
            ),
        }
    }
}

/// The comparator indices that a job applies.
pub open spec fn job_ceis(job: VerifyJob) -> Seq<usize> {
    match job {
        VerifyJob::Cmp { cmp_part, .. } => cmp_part@.map_values(|e: CeEntry| e.cei),
        VerifyJob::Combine { .. } => seq![],
    }
}

/// The comparator indices that a plan applies, in plan order.
pub open spec fn plan_ceis(plan: Seq<VerifyJob>) -> Seq<usize>
    decreases plan.len(),
{
    if plan.len() == 0 {
        seq![]
    } else {
        plan_ceis(plan.drop_last()) + job_ceis(plan.last())
    }
}

/// A job is well-formed against the partition at the moment it runs.
pub open spec fn job_ok(n: int, cmp: Seq<(usize, usize)>, part: Seq<int>, job: VerifyJob) -> bool {
    match job {
        VerifyJob::Cmp { root, cmp_part } => {
            &&& root < n
            &&& part[root as int] == root
            &&& cmp_part@.len() > 0
            &&& forall|k: int|
                0 <= k < cmp_part@.len() ==> {
                    let e = #[trigger] cmp_part@[k];
                    &&& e.cei < cmp.len()
                    &&& cmp[e.cei as int] == (e.a, e.b)
                    &&& part[e.a as int] == root
                    &&& part[e.b as int] == root
                }
            &&& forall|k1: int, k2: int|
                0 <= k1 < k2 < cmp_part@.len() ==> (#[trigger] cmp_part@[k1]).cei < (#[trigger] cmp_part@[k2]).cei
            &&& forall|k1: int, k2: int|
                0 <= k1 < k2 < cmp_part@.len() ==> !shares_wire(
                    ((#[trigger] cmp_part@[k1]).a, cmp_part@[k1].b),
                    ((#[trigger] cmp_part@[k2]).a, cmp_part@[k2].b),
                )
        },
        VerifyJob::Combine { root_master, root_slave } => {
            &&& root_master < n
            &&& root_slave < n
            &&& root_master != root_slave
            &&& part[root_master as int] == root_master
            &&& part[root_slave as int] == root_slave
        },
    }
}

/// Every job is well-formed when it runs, and every comparator is applied by
/// exactly one comparator job.
#[verifier::opaque]
pub open spec fn plan_wf(n: int, cmp: Seq<(usize, usize)>, plan: Seq<VerifyJob>) -> bool {
    &&& forall|k: int|
        0 <= k < plan.len() ==> job_ok(n, cmp, part_after(n as nat, plan.take(k)), #[trigger] plan[k])
    &&& plan_ceis(plan).no_duplicates()
    &&& forall|c: usize| c < cmp.len() ==> #[trigger] plan_ceis(plan).contains(c)
    &&& forall|k: int|
        0 <= k < plan.len() ==> combine_pending(cmp, part_after(n as nat, plan.take(k)), plan_ceis(plan.take(k)), #[trigger] plan[k])
}

/// Comparator `w` joins the classes rooted at `m` and `s`.
pub open spec fn pair_joins(part: Seq<int>, w: (usize, usize), m: int, s: int) -> bool {
    (part[w.0 as int] == m && part[w.1 as int] == s) || (part[w.0 as int] == s && part[w.1 as int] == m)
}

/// A combine job joins the two components of a comparator not yet applied.
pub open spec fn combine_pending(cmp: Seq<(usize, usize)>, part: Seq<int>, applied: Seq<usize>, job: VerifyJob) -> bool {
    match job {
        VerifyJob::Combine { root_master, root_slave } => exists|c: int|
            0 <= c < cmp.len() && !applied.contains(c as usize) && #[trigger] pair_joins(part, cmp[c], root_master as int, root_slave as int),
        _ => true,
    }
}

/// Two comparators share a wire.
pub open spec fn shares_wire(p: (usize, usize), q: (usize, usize)) -> bool {
    p.0 == q.0 || p.0 == q.1 || p.1 == q.0 || p.1 == q.1
}

/// Comparators that share a wire come in index order.
pub open spec fn order_kept(cmp: Seq<(usize, usize)>, s: Seq<usize>) -> bool {
    forall|x: int, y: int|
        0 <= x < y < s.len() && shares_wire(cmp[s[x] as int], cmp[s[y] as int]) ==> #[trigger] s[x]
            < #[trigger] s[y]
}

/// A marked comparator has every earlier comparator on its wires marked too.
pub open spec fn wire_closed(cmp: Seq<(usize, usize)>, marked: Seq<bool>) -> bool {
    forall|c: int, d: int|
        0 <= d < c < marked.len() && #[trigger] marked[c] && shares_wire(cmp[d], cmp[c]) ==> #[trigger] marked[d]
}

proof fn lemma_order_concat(cmp: Seq<(usize, usize)>, s: Seq<usize>, t: Seq<usize>)
    requires
        order_kept(cmp, s),
        forall|x: int, y: int| 0 <= x < y < t.len() ==> !shares_wire(cmp[#[trigger] t[x] as int], cmp[#[trigger] t[y] as int]),
        forall|x: int, y: int|
            0 <= x < s.len() && 0 <= y < t.len() && shares_wire(cmp[#[trigger] s[x] as int], cmp[#[trigger] t[y] as int]) ==> s[x] < t[y],
    ensures
        order_kept(cmp, s + t),
{
    let u = s + t;
    assert forall|x: int, y: int| 0 <= x < y < u.len() && shares_wire(cmp[u[x] as int], cmp[u[y] as int]) implies #[trigger] u[x] < #[trigger] u[y] by {
        if y < s.len() {
            assert(u[x] == s[x] && u[y] == s[y]);
        } else if x < s.len() {
            assert(u[x] == s[x] && u[y] == t[y - s.len()]);
        } else {
            assert(u[x] == t[x - s.len()] && u[y] == t[y - s.len()]);
        }
    }
}

pub open spec fn root_set(part: Seq<int>) -> Set<int> {
    Set::new(|r: int| 0 <= r < part.len() && part[r] == r)
}

pub open spec fn unlayered_set(layered: Seq<bool>) -> Set<int> {
    Set::new(|c: int| 0 <= c < layered.len() && !layered[c])
}

proof fn lemma_range_subset_finite(s: Set<int>, hi: int)
    requires
        0 <= hi,
        forall|x: int| #[trigger] s.contains(x) ==> 0 <= x < hi,
    ensures
        s.finite(),
        s.len() <= hi,
{
    lemma_int_range(0, hi);
    assert(s.subset_of(set_int_range(0, hi)));
    lemma_len_subset(s, set_int_range(0, hi));
}

proof fn lemma_strict_subset_len(s: Set<int>, t: Set<int>, x: int, hi: int)
    requires
        0 <= hi,
        forall|y: int| #[trigger] t.contains(y) ==> 0 <= y < hi,
        s.subset_of(t.remove(x)),
        t.contains(x),
    ensures
        s.len() < t.len(),
{
    lemma_range_subset_finite(t, hi);
    lemma_len_subset(s, t.remove(x));
}

proof fn lemma_nodup_concat(s: Seq<usize>, t: Seq<usize>)
    requires
        s.no_duplicates(),
        t.no_duplicates(),
        forall|x: usize| s.contains(x) ==> !t.contains(x),
    ensures
        (s + t).no_duplicates(),
{
    let u = s + t;
    assert forall|i: int, j: int| 0 <= i < u.len() && 0 <= j < u.len() && i != j implies u[i]
        != u[j] by {
        if i < s.len() && j >= s.len() {
            assert(s.contains(u[i]));
            assert(t.contains(u[j]));
        } else if j < s.len() && i >= s.len() {
            assert(s.contains(u[j]));
            assert(t.contains(u[i]));
        }
    }
}

pub proof fn lemma_concat_contains(s: Seq<usize>, t: Seq<usize>, x: usize)
    ensures
        (s + t).contains(x) <==> (s.contains(x) || t.contains(x)),
{
    if (s + t).contains(x) {
        let i = choose|i: int| 0 <= i < (s + t).len() && (s + t)[i] == x;
        if i < s.len() {
            assert(s[i] == x);
        } else {
            assert(t[i - s.len()] == x);
        }
    }
    if s.contains(x) {
        let i = choose|i: int| 0 <= i < s.len() && s[i] == x;
        assert((s + t)[i] == x);
    }
    if t.contains(x) {
        let i = choose|i: int| 0 <= i < t.len() && t[i] == x;
        assert((s + t)[s.len() + i] == x);
    }
}

proof fn lemma_plan_push(n: nat, plan: Seq<VerifyJob>, job: VerifyJob)
    ensures
        plan_ceis(plan.push(job)) == plan_ceis(plan) + job_ceis(job),
        part_after(n, plan.push(job)) == match job {
            VerifyJob::Cmp { .. } => part_after(n, plan),
            VerifyJob::Combine { root_master, root_slave } => merge_classes(
                part_after(n, plan),
                root_master as int,
                root_slave as int,
                root_master as int,
            ),
        },
        forall|k: int| 0 <= k <= plan.len() ==> #[trigger] plan.push(job).take(k) == plan.take(k),
{
    assert(plan.push(job).drop_last() =~= plan);
    assert forall|k: int| 0 <= k <= plan.len() implies #[trigger] plan.push(job).take(k) == plan.take(k) by {
        assert(plan.push(job).take(k) =~= plan.take(k));
    }
}

proof fn lemma_full_mask_not_pow2(n: usize)
    requires
        2 <= n <= 64,
    ensures
        low_mask(n as int) != 0,
        low_mask(n as int) & ((low_mask(n as int) - 1) as u64) != 0,
{
    let x = low_mask(n as int);
    lemma_bit_low_mask(n as int, 0);
    lemma_bit_low_mask(n as int, 1);
    assert(((x >> 0u64) & 1 == 1 && (x >> 1u64) & 1 == 1) ==> x != 0 && x & ((x - 1) as u64) != 0)
        by (bit_vector);
}

/// The partition after any prefix of a well-formed plan is a partition of the wires.
pub proof fn lemma_part_after_prefix(n: int, cmp: Seq<(usize, usize)>, plan: Seq<VerifyJob>, k: int)
    requires
        2 <= n,
        plan_wf(n, cmp, plan),
        0 <= k <= plan.len(),
    ensures
        is_partition(part_after(n as nat, plan.take(k))),
        part_after(n as nat, plan.take(k)).len() == n,
    decreases k,
{
    reveal(plan_wf);
    if k == 0 {
        assert(plan.take(0).len() == 0);
    } else {
        lemma_part_after_prefix(n, cmp, plan, k - 1);
        let t = plan.take(k);
        assert(t.drop_last() =~= plan.take(k - 1));
        assert(t.last() == plan[k - 1]);
        assert(job_ok(n, cmp, part_after(n as nat, plan.take(k - 1)), plan[k - 1]));
        match plan[k - 1] {
            VerifyJob::Cmp { .. } => {},
            VerifyJob::Combine { root_master, root_slave } => {
                crate::dsu::lemma_merge_is_partition(
                    part_after(n as nat, plan.take(k - 1)),
                    root_master as int,
                    root_slave as int,
                    root_master as int,
                );
            },
        }
    }
}

/// Applying a prefix of a plan applies no more comparators than the whole plan.
pub proof fn lemma_plan_ceis_prefix(plan: Seq<VerifyJob>, k: int)
    requires
        0 <= k <= plan.len(),
    ensures
        plan_ceis(plan.take(k)).len() <= plan_ceis(plan).len(),
        k < plan.len() ==> plan_ceis(plan.take(k + 1)) == plan_ceis(plan.take(k)) + job_ceis(plan[k]),
    decreases plan.len() - k,
{
    if k < plan.len() {
        let t = plan.take(k + 1);
        assert(t.drop_last() =~= plan.take(k));
        assert(t.last() == plan[k]);
        lemma_plan_ceis_prefix(plan, k + 1);
    } else {
        assert(plan.take(k) =~= plan);
    }
}

/// A well-formed plan applies each of the `m` comparators once: `m` in all.
pub proof fn lemma_plan_ceis_len(n: int, cmp: Seq<(usize, usize)>, plan: Seq<VerifyJob>)
    requires
        plan_wf(n, cmp, plan),
    ensures
        plan_ceis(plan).len() <= cmp.len(),
{
    reveal(plan_wf);
    let s = plan_ceis(plan);
    lemma_plan_ceis_bounded(n, cmp, plan);
    let t = s.map_values(|x: usize| x as int);
    assert(t.no_duplicates()) by {
        assert forall|i: int, j: int| 0 <= i < t.len() && 0 <= j < t.len() && i != j implies t[i]
            != t[j] by {
            assert(s[i] != s[j]);
        }
    }
    t.unique_seq_to_set();
    lemma_int_range(0, cmp.len() as int);
    assert forall|x: int| t.to_set().contains(x) implies set_int_range(0, cmp.len() as int).contains(x) by {
        let i = choose|i: int| 0 <= i < t.len() && t[i] == x;
        assert(s.contains(s[i]));
    }
    lemma_len_subset(t.to_set(), set_int_range(0, cmp.len() as int));
}

/// Every comparator index that a well-formed plan applies names a comparator.
pub proof fn lemma_plan_ceis_bounded(n: int, cmp: Seq<(usize, usize)>, plan: Seq<VerifyJob>)
    requires
        forall|k: int|
            0 <= k < plan.len() ==> job_ok(n, cmp, part_after(n as nat, plan.take(k)), #[trigger] plan[k]),
    ensures
        forall|x: usize| #[trigger] plan_ceis(plan).contains(x) ==> x < cmp.len(),
    decreases plan.len(),
{
    if plan.len() > 0 {
        let d = plan.drop_last();
        assert forall|k: int| 0 <= k < d.len() implies job_ok(n, cmp, part_after(n as nat, d.take(k)), #[trigger] d[k]) by {
            assert(d.take(k) =~= plan.take(k));
            assert(d[k] == plan[k]);
        }
        lemma_plan_ceis_bounded(n, cmp, d);
        assert(job_ok(n, cmp, part_after(n as nat, plan.take(plan.len() - 1)), plan[plan.len() - 1]));
        assert forall|x: usize| #[trigger] plan_ceis(plan).contains(x) implies x < cmp.len() by {
            lemma_concat_contains(plan_ceis(d), job_ceis(plan.last()), x);
            if job_ceis(plan.last()).contains(x) {
                let i = choose|i: int| 0 <= i < job_ceis(plan.last()).len() && job_ceis(plan.last())[i] == x;
            }
        }
    }
}

/// The comparators of a prefix of a plan come first among those of the plan.
pub proof fn lemma_plan_ceis_is_prefix(plan: Seq<VerifyJob>, k: int)
    requires
        0 <= k <= plan.len(),
    ensures
        plan_ceis(plan.take(k)) == plan_ceis(plan).take(plan_ceis(plan.take(k)).len() as int),
        plan_ceis(plan.take(k)).len() <= plan_ceis(plan).len(),
    decreases plan.len() - k,
{
    if k == plan.len() {
        assert(plan.take(k) =~= plan);
        assert(plan_ceis(plan).take(plan_ceis(plan).len() as int) =~= plan_ceis(plan));
    } else {
        lemma_plan_ceis_is_prefix(plan, k + 1);
        lemma_plan_ceis_prefix(plan, k);
        let p = plan_ceis(plan.take(k));
        let p1 = plan_ceis(plan.take(k + 1));
        assert(p1 == p + job_ceis(plan[k]));
        assert(p =~= plan_ceis(plan).take(p.len() as int));
    }
}

/// Compiles the comparators of a network on `n` wires into a plan.
///
/// Layer by layer, each comparator whose wires are both still free in the layer
/// and already in one component goes to that component's job; when a layer
/// finds no such comparator, the two components of the smallest candidate
/// pair are combined instead.
#[verifier::rlimit(50)]
pub fn verify_strategy(n: usize, cmp: &[(usize, usize)]) -> (plan: Vec<VerifyJob>)
    requires
        valid_network(n as int, cmp@),
    ensures
        plan_wf(n as int, cmp@, plan@),
        order_kept(cmp@, plan_ceis(plan@)),
        plan@.len() <= cmp@.len() + n - 1,
        cmp@.len() == 0 ==> plan@.len() == 0,
{
    let m = cmp.len();
    let mut cmp_layered: Vec<bool> = Vec::new();
    let mut k: usize = 0;
    while k < m
        invariant
            k <= m,
            cmp_layered@.len() == k,
            forall|c: int| 0 <= c < k ==> !#[trigger] cmp_layered@[c],
        decreases m - k,
    {
        cmp_layered.push(false);
        k += 1;
    }
    let mut cmp_skip: usize = 0;
    let mut dsu = DsuBySize::new(n);
    let mut layers: Vec<VerifyJob> = Vec::new();
    proof {
        assert(plan_ceis(layers@) =~= seq![]);
        lemma_range_subset_finite(root_set(dsu@), n as int);
    }
    while cmp_skip < m
        invariant
            valid_network(n as int, cmp@),
            m == cmp@.len(),
            cmp_skip <= m,
            dsu.wf(),
            dsu@ == part_after(n as nat, layers@),
            dsu@.len() == n,
            is_partition(dsu@),
            cmp_layered@.len() == m,
            forall|c: int|
                0 <= c < m ==> (#[trigger] cmp_layered@[c] <==> plan_ceis(layers@).contains(
                    c as usize,
                )),
            forall|c: int| 0 <= c < cmp_skip ==> #[trigger] cmp_layered@[c],
            cmp_skip < m ==> !cmp_layered@[cmp_skip as int],
            plan_ceis(layers@).no_duplicates(),
            forall|x: usize| #[trigger] plan_ceis(layers@).contains(x) ==> x < m,
            forall|k: int|
                0 <= k < layers@.len() ==> job_ok(
                    n as int,
                    cmp@,
                    part_after(n as nat, layers@.take(k)),
                    #[trigger] layers@[k],
                ),
            wire_closed(cmp@, cmp_layered@),
            order_kept(cmp@, plan_ceis(layers@)),
            forall|k: int|
                0 <= k < layers@.len() ==> combine_pending(cmp@, part_after(n as nat, layers@.take(k)), plan_ceis(layers@.take(k)), #[trigger] layers@[k]),
            m == 0 ==> layers@.len() == 0,
            layers@.len() + root_set(dsu@).len() <= plan_ceis(layers@).len() + n,
        decreases unlayered_set(cmp_layered@).len(), root_set(dsu@).len(),
    {
        let ghost part = dsu@;
        let ghost layered_start = cmp_layered@;
        proof {
            assert forall|c: int| 0 <= c < cmp_skip implies #[trigger] layered_start[c] by {
                assert(cmp_layered@[c]);
            }
        }
        let ghost plan_start = layers@;
        let mut node_avail: u64 = full_mask(n);
        let mut layer: Vec<Vec<CeEntry>> = Vec::new();
        let mut r: usize = 0;
        while r < n
            invariant
                r <= n,
                layer@.len() == r,
                forall|q: int| 0 <= q < r ==> (#[trigger] layer@[q])@.len() == 0,
            decreases n - r,
        {
            layer.push(Vec::new());
            r += 1;
        }
        let mut combine: (usize, usize, usize) = (usize::MAX, 0, 0);
        let ghost mut cand: int = 0;
        let ghost mut pos_of: Map<int, (int, int)> = Map::empty();
        let mut i: usize = cmp_skip;
        while i < m
            invariant
                valid_network(n as int, cmp@),
                m == cmp@.len(),
                cmp_skip <= i <= m,
                cmp_skip < m,
                !layered_start[cmp_skip as int],
                dsu.wf(),
                dsu@ == part,
                part.len() == n,
                is_partition(part),
                i == cmp_skip ==> node_avail == low_mask(n as int),
                cmp_layered@.len() == m,
                layered_start.len() == m,
                layer@.len() == n,
                forall|c: int|
                    0 <= c < m ==> (#[trigger] cmp_layered@[c] <==> (layered_start[c]
                        || pos_of.dom().contains(c))),
                forall|c: int|
                    #[trigger] pos_of.dom().contains(c) ==> {
                        let (q, j) = pos_of[c];
                        &&& 0 <= q < n
                        &&& 0 <= j < layer@[q]@.len()
                        &&& layer@[q]@[j].cei == c
                        &&& cmp_skip <= c < i
                        &&& !layered_start[c]
                    },
                forall|q: int, j: int|
                    0 <= q < n && 0 <= j < layer@[q]@.len() ==> {
                        let e = #[trigger] layer@[q]@[j];
                        &&& cmp_skip <= e.cei < i
                        &&& cmp@[e.cei as int] == (e.a, e.b)
                        &&& e.a < n
                        &&& e.b < n
                        &&& part[e.a as int] == q
                        &&& part[e.b as int] == q
                        &&& pos_of.dom().contains(e.cei as int)
                        &&& pos_of[e.cei as int] == (q, j)
                    },
                combine.0 != usize::MAX ==> {
                    &&& combine.1 < n
                    &&& combine.2 < n
                    &&& part[combine.1 as int] == combine.1
                    &&& part[combine.2 as int] == combine.2
                    &&& combine.1 != combine.2
                },
                i > cmp_skip ==> combine.0 != usize::MAX || pos_of.dom().contains(cmp_skip as int),
                combine.0 != usize::MAX ==> 0 <= cand < m && !layered_start[cand] && part[cmp@[cand].0 as int]
                    == combine.1 && part[cmp@[cand].1 as int] == combine.2,
                wire_closed(cmp@, layered_start),
                forall|c: int| 0 <= c < cmp_skip ==> #[trigger] layered_start[c],
                forall|q: int, j1: int, j2: int|
                    0 <= q < n && 0 <= j1 < j2 < layer@[q]@.len() ==> (#[trigger] layer@[q]@[j1]).cei < (
                    #[trigger] layer@[q]@[j2]).cei,
                forall|c: int|
                    cmp_skip <= c < i && !layered_start[c] ==> !bit(node_avail, (#[trigger] cmp@[c]).0 as int)
                        && !bit(node_avail, cmp@[c].1 as int),
                forall|c: int, d: int|
                    #[trigger] pos_of.dom().contains(c) && 0 <= d < c && shares_wire(#[trigger] cmp@[d], cmp@[c])
                        ==> layered_start[d],
                forall|c1: int, c2: int|
                    #[trigger] pos_of.dom().contains(c1) && #[trigger] pos_of.dom().contains(c2) && c1 != c2
                        ==> !shares_wire(cmp@[c1], cmp@[c2]),
            ensures
                i > cmp_skip,
            decreases m - i,
        {
            if node_avail == 0 || node_avail & (node_avail - 1) == 0 {
                proof {
                    if i == cmp_skip {
                        lemma_full_mask_not_pow2(n);
                    }
                }
                break;
            }
            let (a, b) = cmp[i];
            if cmp_layered[i] {
                i += 1;
                continue;
            }
            let avail_a = test_bit(node_avail, a);
            let avail_b = test_bit(node_avail, b);
            proof {
                if i == cmp_skip {
                    lemma_bit_low_mask(n as int, a as int);
                    lemma_bit_low_mask(n as int, b as int);
                }
            }
            let ghost old_avail = node_avail;
            node_avail = node_avail & !(1u64 << (a as u64)) & !(1u64 << (b as u64));
            proof {
                assert(cmp@[i as int] == (a, b));
                assert(!layered_start[i as int]);
                assert forall|c: int|
                    cmp_skip <= c < i + 1 && !layered_start[c] implies !bit(node_avail, (#[trigger] cmp@[c]).0 as int)
                        && !bit(node_avail, cmp@[c].1 as int) by {
                    lemma_bit_clear2(old_avail, a as u64, b as u64, cmp@[c].0 as u64);
                    lemma_bit_clear2(old_avail, a as u64, b as u64, cmp@[c].1 as u64);
                }
                if avail_a && avail_b {
                    assert forall|d: int| 0 <= d < i && shares_wire(#[trigger] cmp@[d], cmp@[i as int]) implies layered_start[d] by {
                        if d >= cmp_skip && !layered_start[d] {
                            assert(!bit(old_avail, cmp@[d].0 as int) && !bit(old_avail, cmp@[d].1 as int));
                        }
                    }
                    assert forall|c2: int| #[trigger] pos_of.dom().contains(c2) implies !shares_wire(cmp@[i as int], cmp@[c2]) && !shares_wire(cmp@[c2], cmp@[i as int]) by {
                        assert(!bit(old_avail, cmp@[c2].0 as int) && !bit(old_avail, cmp@[c2].1 as int));
                    }
                }
            }
            if !(avail_a && avail_b) {
                i += 1;
                continue;
            }
            if dsu.equiv(a, b) {
                let root_a = dsu.root(a);
                let ghost j = layer@[root_a as int]@.len() as int;
                layer[root_a].push(CeEntry { cei: i, a, b });
                cmp_layered.set(i, true);
                proof {
                    pos_of = pos_of.insert(i as int, (root_a as int, j));
                }
            } else {
                let (root_a, size_a) = dsu.root_size(a);
                let (root_b, size_b) = dsu.root_size(b);
                proof {
                    crate::dsu::lemma_class_finite(part, root_a as int);
                    crate::dsu::lemma_class_finite(part, root_b as int);
                }
                let size = size_a + size_b;
                if size < combine.0 || (size == combine.0 && (root_a < combine.1 || (root_a
                    == combine.1 && root_b < combine.2))) {
                    combine = (size, root_a, root_b);
                    proof {
                        cand = i as int;
                    }
                }
            }
            i += 1;
        }
        // Emit one comparator job per non-empty bucket, in root order.
        let mut emitted = false;
        let ghost mut wit: int = 0;
        let mut r: usize = 0;
        while r < n
            invariant
                valid_network(n as int, cmp@),
                m == cmp@.len(),
                r <= n,
                cmp_skip < m,
                dsu.wf(),
                dsu@ == part,
                part == part_after(n as nat, plan_start),
                part.len() == n,
                is_partition(part),
                cmp_layered@.len() == m,
                layered_start.len() == m,
                layer@.len() == n,
                forall|c: int|
                    0 <= c < m ==> (#[trigger] cmp_layered@[c] <==> (layered_start[c]
                        || pos_of.dom().contains(c))),
                forall|c: int|
                    0 <= c < m ==> (#[trigger] layered_start[c] <==> plan_ceis(plan_start).contains(
                        c as usize,
                    )),
                forall|c: int|
                    #[trigger] pos_of.dom().contains(c) ==> {
                        let (q, j) = pos_of[c];
                        &&& 0 <= q < n
                        &&& 0 <= j < layer@[q]@.len()
                        &&& layer@[q]@[j].cei == c
                        &&& 0 <= c < m
                        &&& !layered_start[c]
                    },
                forall|q: int, j: int|
                    0 <= q < n && 0 <= j < layer@[q]@.len() ==> {
                        let e = #[trigger] layer@[q]@[j];
                        &&& e.cei < m
                        &&& cmp@[e.cei as int] == (e.a, e.b)
                        &&& e.a < n
                        &&& e.b < n
                        &&& part[e.a as int] == q
                        &&& part[e.b as int] == q
                        &&& pos_of.dom().contains(e.cei as int)
                        &&& pos_of[e.cei as int] == (q, j)
                    },
                part_after(n as nat, layers@) == part,
                forall|c: int|
                    0 <= c < m ==> (plan_ceis(layers@).contains(c as usize) <==> (layered_start[c]
                        || (pos_of.dom().contains(c) && pos_of[c].0 < r))),
                forall|x: usize| #[trigger] plan_ceis(layers@).contains(x) ==> x < m,
                plan_ceis(layers@).no_duplicates(),
                forall|k: int|
                    0 <= k < layers@.len() ==> job_ok(
                        n as int,
                        cmp@,
                        part_after(n as nat, layers@.take(k)),
                        #[trigger] layers@[k],
                    ),
                combine.0 != usize::MAX || pos_of.dom().contains(cmp_skip as int),
                combine.0 != usize::MAX ==> {
                    &&& combine.1 < n
                    &&& combine.2 < n
                    &&& part[combine.1 as int] == combine.1
                    &&& part[combine.2 as int] == combine.2
                    &&& combine.1 != combine.2
                },
                emitted ==> pos_of.dom().contains(wit),
                !emitted ==> layers@ == plan_start,
                combine.0 != usize::MAX ==> 0 <= cand < m && !layered_start[cand] && part[cmp@[cand].0 as int]
                    == combine.1 && part[cmp@[cand].1 as int] == combine.2,
                forall|k: int|
                    0 <= k < layers@.len() ==> combine_pending(cmp@, part_after(n as nat, layers@.take(k)), plan_ceis(layers@.take(k)), #[trigger] layers@[k]),
                layers@.len() >= plan_start.len(),
                layers@.len() - plan_start.len() <= plan_ceis(layers@).len() - plan_ceis(plan_start).len(),
                forall|q: int, j1: int, j2: int|
                    0 <= q < n && 0 <= j1 < j2 < layer@[q]@.len() ==> (#[trigger] layer@[q]@[j1]).cei < (
                    #[trigger] layer@[q]@[j2]).cei,
                wire_closed(cmp@, layered_start),
                order_kept(cmp@, plan_ceis(layers@)),
                forall|c: int, d: int|
                    #[trigger] pos_of.dom().contains(c) && 0 <= d < c && shares_wire(#[trigger] cmp@[d], cmp@[c])
                        ==> layered_start[d],
                forall|c1: int, c2: int|
                    #[trigger] pos_of.dom().contains(c1) && #[trigger] pos_of.dom().contains(c2) && c1 != c2
                        ==> !shares_wire(cmp@[c1], cmp@[c2]),
                !emitted ==> forall|q: int| 0 <= q < r ==> (#[trigger] layer@[q])@.len() == 0,
                emitted ==> plan_ceis(layers@).len() > plan_ceis(plan_start).len(),
            decreases n - r,
        {
            if layer[r].len() > 0 {
                let cmp_part = layer[r].clone();
                proof {
                    assert(cmp_part@ =~= layer@[r as int]@);
                }
                let job = VerifyJob::Cmp { root: r, cmp_part };
                let ghost before = layers@;
                let ghost bucket = layer@[r as int]@;
                let ghost ceis = job_ceis(job);
                proof {
                    lemma_plan_push(n as nat, before, job);
                    assert(ceis.no_duplicates()) by {
                        assert forall|x: int, y: int|
                            0 <= x < ceis.len() && 0 <= y < ceis.len() && x != y implies ceis[x]
                            != ceis[y] by {
                            let ex = bucket[x];
                            let ey = bucket[y];
                            assert(pos_of[ex.cei as int] == (r as int, x));
                            assert(pos_of[ey.cei as int] == (r as int, y));
                        }
                    }
                    assert forall|x: usize| plan_ceis(before).contains(x) implies !ceis.contains(x) by {
                        if ceis.contains(x) {
                            let y = choose|y: int| 0 <= y < ceis.len() && ceis[y] == x;
                            let e = bucket[y];
                            assert(pos_of[e.cei as int] == (r as int, y));
                        }
                    }
                    lemma_nodup_concat(plan_ceis(before), ceis);
                    let sb = plan_ceis(before);
                    assert forall|x: int, y: int| 0 <= x < y < ceis.len() implies !shares_wire(
                        cmp@[#[trigger] ceis[x] as int], cmp@[#[trigger] ceis[y] as int]) by {
                        assert(pos_of[bucket[x].cei as int] == (r as int, x));
                        assert(pos_of[bucket[y].cei as int] == (r as int, y));
                        assert(pos_of.dom().contains(ceis[x] as int) && pos_of.dom().contains(ceis[y] as int));
                    }
                    assert forall|x: int, y: int|
                        0 <= x < sb.len() && 0 <= y < ceis.len() && shares_wire(cmp@[#[trigger] sb[x] as int], cmp@[#[trigger] ceis[y] as int])
                        implies sb[x] < ceis[y] by {
                        let c = sb[x] as int;
                        let d = ceis[y] as int;
                        assert(pos_of[bucket[y].cei as int] == (r as int, y));
                        assert(pos_of.dom().contains(d) && !layered_start[d]);
                        assert(sb.contains(sb[x]));
                        assert(c < m);
                        if pos_of.dom().contains(c) && pos_of[c].0 < r {
                            assert(c != d);
                        } else {
                            assert(layered_start[c]);
                            if c > d {
                                assert(shares_wire(cmp@[d], cmp@[c]));
                            }
                        }
                    }
                    lemma_order_concat(cmp@, sb, ceis);
                    let e0 = bucket[0];
                    assert(layer@[r as int]@[0] == e0);
                    assert(part[e0.a as int] == r);
                    assert forall|k: int| 0 <= k < bucket.len() implies {
                        let e = #[trigger] bucket[k];
                        &&& e.cei < cmp@.len()
                        &&& cmp@[e.cei as int] == (e.a, e.b)
                        &&& part[e.a as int] == r
                        &&& part[e.b as int] == r
                    } by {
                        assert(layer@[r as int]@[k] == bucket[k]);
                    }
                    assert(part[part[e0.a as int]] == part[e0.a as int]);
                    assert(part[r as int] == r);
                    assert(job_ceis(job).len() == bucket.len());
                    assert forall|k1: int, k2: int| 0 <= k1 < k2 < bucket.len() implies (#[trigger] bucket[k1]).cei < (#[trigger] bucket[k2]).cei by {
                        assert(layer@[r as int]@[k1] == bucket[k1] && layer@[r as int]@[k2] == bucket[k2]);
                    }
                    assert forall|k1: int, k2: int| 0 <= k1 < k2 < bucket.len() implies !shares_wire(
                        ((#[trigger] bucket[k1]).a, bucket[k1].b),
                        ((#[trigger] bucket[k2]).a, bucket[k2].b),
                    ) by {
                        let e1 = bucket[k1];
                        let e2 = bucket[k2];
                        assert(layer@[r as int]@[k1] == e1 && layer@[r as int]@[k2] == e2);
                        assert(pos_of.dom().contains(e1.cei as int) && pos_of.dom().contains(e2.cei as int));
                        assert(e1.cei as int != e2.cei as int);
                        assert(!shares_wire(cmp@[e1.cei as int], cmp@[e2.cei as int]));
                    }
                    assert(job_ok(n as int, cmp@, part, job));
                    wit = e0.cei as int;
                    assert(pos_of.dom().contains(wit));
                }
                layers.push(job);
                proof {
                    assert(plan_ceis(layers@) == plan_ceis(before) + ceis);
                    assert forall|x: usize| #[trigger] plan_ceis(layers@).contains(x) <==> (plan_ceis(before).contains(x) || ceis.contains(x)) by {
                        lemma_concat_contains(plan_ceis(before), ceis, x);
                    }
                    assert forall|c: int|
                        0 <= c < m implies (plan_ceis(layers@).contains(c as usize) <==> (
                        layered_start[c] || (pos_of.dom().contains(c) && pos_of[c].0 < r + 1))) by {
                        if pos_of.dom().contains(c) && pos_of[c].0 == r {
                            let j = pos_of[c].1;
                            assert(ceis[j] == c as usize);
                        }
                        if ceis.contains(c as usize) {
                            let y = choose|y: int| 0 <= y < ceis.len() && ceis[y] == c as usize;
                            let e = bucket[y];
                            assert(pos_of[e.cei as int] == (r as int, y));
                        }
                    }
                    assert forall|x: usize| #[trigger] plan_ceis(layers@).contains(x) implies x < m by {
                        if ceis.contains(x) {
                            let y = choose|y: int| 0 <= y < ceis.len() && ceis[y] == x;
                        }
                    }
                    assert forall|k: int|
                        0 <= k < layers@.len() implies job_ok(
                        n as int,
                        cmp@,
                        part_after(n as nat, layers@.take(k)),
                        #[trigger] layers@[k],
                    ) by {
                        if k < before.len() {
                            assert(layers@.take(k) == before.take(k));
                        } else {
                            assert(layers@.take(k) =~= before);
                        }
                    }
                    assert(ceis.len() > 0);
                    assert forall|k: int|
                        0 <= k < layers@.len() implies combine_pending(cmp@, part_after(n as nat, layers@.take(k)), plan_ceis(layers@.take(k)), #[trigger] layers@[k]) by {
                        if k < before.len() {
                            assert(layers@.take(k) == before.take(k));
                        }
                    }
                }
                emitted = true;
            }
            r += 1;
        }
        proof {
            assert forall|c: int, d: int|
                0 <= d < c < cmp_layered@.len() && #[trigger] cmp_layered@[c] && shares_wire(cmp@[d], cmp@[c])
                implies #[trigger] cmp_layered@[d] by {
                if layered_start[c] {
                    assert(layered_start[d]);
                } else {
                    assert(pos_of.dom().contains(c));
                    assert(layered_start[d]);
                }
            }
        }
        if emitted {
            let ghost old_unlayered = unlayered_set(cmp_layered@);
            let mut skip = cmp_skip;
            while skip < m && cmp_layered[skip]
                invariant
                    cmp_skip <= skip <= m,
                    cmp_layered@.len() == m,
                    forall|c: int| 0 <= c < skip ==> #[trigger] cmp_layered@[c],
                decreases m - skip,
            {
                skip += 1;
            }
            proof {
                let (q, j) = pos_of[wit];
                assert(0 <= wit < m);
                assert(cmp_layered@[wit]);
                assert(unlayered_set(cmp_layered@).subset_of(unlayered_set(layered_start).remove(wit)));
                lemma_strict_subset_len(unlayered_set(cmp_layered@), unlayered_set(layered_start), wit, m as int);
            }
            cmp_skip = skip;
        } else {
            proof {
                assert(!pos_of.dom().contains(cmp_skip as int)) by {
                    if pos_of.dom().contains(cmp_skip as int) {
                        let (q, j) = pos_of[cmp_skip as int];
                        assert(layer@[q]@.len() == 0);
                    }
                }
                assert(cmp_layered@ =~= layered_start) by {
                    assert forall|c: int| 0 <= c < m implies cmp_layered@[c] == layered_start[c] by {
                        if pos_of.dom().contains(c) {
                            let (q, j) = pos_of[c];
                            assert(layer@[q]@.len() == 0);
                        }
                    }
                }
            }
            let (_size, root_a, root_b) = combine;
            let united = dsu.unite(root_a, root_b);
            let root_master = dsu.root(root_a);
            let root_slave = if root_master == root_a { root_b } else { root_a };
            let job = VerifyJob::Combine { root_master, root_slave };
            proof {
                lemma_plan_push(n as nat, plan_start, job);
                lemma_range_subset_finite(root_set(part), n as int);
                assert(!plan_ceis(plan_start).contains(cand as usize)) by {
                    assert(!layered_start[cand]);
                }
                assert(pair_joins(part, cmp@[cand], root_master as int, root_slave as int));
                assert(combine_pending(cmp@, part, plan_ceis(plan_start), job));
                assert(dsu@ =~= merge_classes(part, root_master as int, root_slave as int, root_master as int));
                assert(job_ok(n as int, cmp@, part, job));
                assert(root_set(dsu@).subset_of(root_set(part).remove(root_slave as int)));
                lemma_strict_subset_len(root_set(dsu@), root_set(part), root_slave as int, n as int);
            }
            layers.push(job);
            proof {
                assert(plan_ceis(layers@) =~= plan_ceis(plan_start));
                assert forall|k: int|
                    0 <= k < layers@.len() implies job_ok(
                    n as int,
                    cmp@,
                    part_after(n as nat, layers@.take(k)),
                    #[trigger] layers@[k],
                ) by {
                    if k < plan_start.len() {
                        assert(layers@.take(k) == plan_start.take(k));
                    } else {
                        assert(layers@.take(k) =~= plan_start);
                    }
                }
                assert forall|k: int|
                    0 <= k < layers@.len() implies combine_pending(cmp@, part_after(n as nat, layers@.take(k)), plan_ceis(layers@.take(k)), #[trigger] layers@[k]) by {
                    if k < plan_start.len() {
                        assert(layers@.take(k) == plan_start.take(k));
                    } else {
                        assert(layers@.take(k) =~= plan_start);
                    }
                }
            }
        }
    }
    proof {
        reveal(plan_wf);
        assert forall|c: usize| c < m implies #[trigger] plan_ceis(layers@).contains(c) by {
            assert(cmp_layered@[c as int]);
        }
        lemma_plan_ceis_len(n as int, cmp@, layers@);
        lemma_range_subset_finite(root_set(dsu@), n as int);
        assert(root_set(dsu@).contains(dsu@[0]));
        assert(root_set(dsu@).remove(dsu@[0]).len() == root_set(dsu@).len() - 1);
    }
    layers
}

} // verus!
