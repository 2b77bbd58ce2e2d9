//! A verification as a state machine: each step runs one job of the plan and
//! says which message to emit. The host drives the steps, delivers the
//! messages, and reports cancellation.
use vstd::prelude::*;
use crate::bits::{
    bit, full_mask, lemma_bit_and, lemma_bit_low_mask, lemma_bit_or, lemma_bit_single, lemma_bit_zero, lemma_bits_ext,
    low_mask,
};
use crate::dsu::{is_partition, merge_classes, singletons};
use crate::exec::{
    scan_cmp_job, settle_states, apply_cmp_job, check_unsorted, combine_states, entries_ok, fired_all, lemma_outs_all_support, or_pair, outs_all,
    pair_lt, product, strictly_sorted, support, unsorted_in, used_set, StatePair,
};
use crate::plan::{
    job_ceis, job_ok, lemma_part_after_prefix, lemma_plan_ceis_is_prefix, lemma_plan_ceis_len, lemma_plan_ceis_prefix,
    order_kept, part_after, plan_ceis, plan_wf, shares_wire, valid_network, verify_strategy, CeEntry, VerifyJob,
};
use crate::result::{all_sorted, JobProgress, JobResult};
use crate::semantics::{
    closed_under_wires, entry_set, lemma_fired_all_has, lemma_fired_in_job, run_set, settled, wires_ok,
};
use crate::soundness::{
    all_comparators, is_input, job_entries_ok, lemma_drop_unused, lemma_fired_iff_network, lemma_same_outputs_same_verdict,
    lemma_sem_cmp_step, lemma_sem_combine_step, lemma_sem_same_set, lemma_sem_final, lemma_sem_init, lemma_sem_range, network_out,
    out_of_order, sem_inv, sorts_all_inputs, sorts_with, swaps_somewhere,
};

verus! {

/// Where a verification stands.
#[derive(Clone, Copy, Debug)]
pub enum Phase {
    /// Nothing emitted yet.
    Start,
    /// Running the jobs of the plan.
    Running,
    /// The final snapshot has been emitted.
    Finished,
    /// `Done` has been emitted.
    Done,
    /// `Cancel` has been emitted.
    Cancelled,
}

/// Every pair of the class rooted at `r` speaks of exactly the wires of that class.
pub open spec fn class_bits(part: Seq<int>, n: int, r: int, p: StatePair) -> bool {
    forall|i: int| 0 <= i < 64 ==> (#[trigger] bit(support(p), i) <==> (i < n && part[i] == r))
}

/// One state set per wire: non-empty exactly at the roots, each pair over the
/// wires of its class.
#[verifier::opaque]
pub open spec fn states_wf(n: int, part: Seq<int>, states: Seq<Vec<StatePair>>) -> bool {
    &&& states.len() == n
    &&& forall|r: int| 0 <= r < n ==> ((#[trigger] states[r])@.len() > 0 <==> part[r] == r)
    &&& forall|r: int, k: int|
        0 <= r < n && 0 <= k < states[r]@.len() ==> class_bits(part, n, r, #[trigger] states[r]@[k])
}

/// The two pairs that stand for a component's all-0 and all-1 outputs against
/// every other wire.
pub open spec fn corner_pairs(s: Seq<StatePair>, n: int) -> Seq<StatePair> {
    let q = if s.len() > 0 { support(s[0]) } else { 0u64 };
    let nq = low_mask(n) ^ q;
    seq![(q, nq), (nq, q)]
}

/// Some final state lets wire `i` hold 1 and wire `j > i` hold 0.
pub open spec fn network_unsorted(states: Seq<Vec<StatePair>>, n: int, i: int, j: int) -> bool {
    exists|r: int|
        0 <= r < states.len() && (unsorted_in(corner_pairs((#[trigger] states[r])@, n), i, j)
            || unsorted_in(states[r]@, i, j))
}

/// A `Progress` message carrying these findings.
pub open spec fn progress_msg(msg: Option<JobProgress>, used: Seq<bool>, unsorted: Seq<u64>, progress: u64, all: u64) -> bool {
    match msg {
        Some(JobProgress::Progress(r)) => {
            &&& r.used@ == used
            &&& r.unsorted@ == unsorted
            &&& r.progress == progress
            &&& r.progress_all == all
        },
        _ => false,
    }
}

pub open spec fn is_log(msg: Option<JobProgress>) -> bool {
    match msg {
        Some(JobProgress::Log(_)) => true,
        _ => false,
    }
}

/// Relies on std's decimal formatting of integers.
#[verifier::external_body]
fn cmp_log(root: usize, pre_len: usize, new_len: usize, entries: usize) -> String {
    format!("AppliedCE, root: {root}, len: {pre_len}=>{new_len}, cmp: {entries}")
}

/// Relies on std's decimal formatting of integers.
#[verifier::external_body]
fn combine_log(root_master: usize, root_slave: usize, master_len: usize, slave_len: usize, united_len: usize) -> String {
    format!("Combining, root: ({root_master},{root_slave}), len: {master_len}*{slave_len}=>{united_len}")
}

/// Relies on std's decimal formatting of integers.
#[verifier::external_body]
fn finish_log(progress: u64, progress_all: u64, unused: usize, count: usize) -> String {
    format!("Finished, progress: {progress}/{progress_all}, unused_cmp: {unused}/{count}")
}

/// The effect of one job on the state sets and the used comparators, and its message.
pub open spec fn job_effect(
    job: VerifyJob,
    old_states: Seq<Vec<StatePair>>,
    old_used: Seq<bool>,
    new_states: Seq<Vec<StatePair>>,
    new_used: Seq<bool>,
    msg: Option<JobProgress>,
) -> bool {
    &&& new_states.len() == old_states.len()
    &&& new_used.len() == old_used.len()
    &&& match job {
        VerifyJob::Cmp { root, cmp_part } => {
            &&& strictly_sorted(new_states[root as int]@)
            &&& new_states[root as int]@.to_set() == outs_all(old_states[root as int]@, cmp_part@)
            &&& forall|r: int| 0 <= r < old_states.len() && r != root ==> #[trigger] new_states[r]@ == old_states[r]@
            &&& used_set(new_used) == used_set(old_used) + fired_all(old_states[root as int]@, cmp_part@)
            &&& match msg {
                Some(JobProgress::Progress(res)) => res.used@ == new_used,
                _ => false,
            }
        },
        VerifyJob::Combine { root_master, root_slave } => {
            &&& new_states[root_master as int]@ == product(old_states[root_master as int]@, old_states[root_slave as int]@)
            &&& new_states[root_slave as int]@.len() == 0
            &&& forall|r: int| 0 <= r < old_states.len() && r != root_master && r != root_slave ==> #[trigger] new_states[r]@ == old_states[r]@
            &&& new_used == old_used
            &&& is_log(msg)
        },
    }
}

/// `x` is the union of a pair of `master` and a pair of `slave`.
pub open spec fn in_product(master: Seq<StatePair>, slave: Seq<StatePair>, x: StatePair) -> bool {
    exists|i: int, j: int| 0 <= i < master.len() && 0 <= j < slave.len() && x == #[trigger] or_pair(master[i], slave[j])
}

/// The effect of the scan of a comparator job: the new state set of its root,
/// before sorting, and the comparators it fires.
pub open spec fn scan_effect(
    job: VerifyJob,
    old_states: Seq<Vec<StatePair>>,
    old_used: Seq<bool>,
    new_states: Seq<Vec<StatePair>>,
    new_used: Seq<bool>,
) -> bool {
    &&& new_states.len() == old_states.len()
    &&& new_used.len() == old_used.len()
    &&& match job {
        VerifyJob::Cmp { root, cmp_part } => {
            &&& new_states[root as int]@.to_set() == outs_all(old_states[root as int]@, cmp_part@)
            &&& forall|r: int| 0 <= r < old_states.len() && r != root ==> #[trigger] new_states[r]@ == old_states[r]@
            &&& used_set(new_used) == used_set(old_used) + fired_all(old_states[root as int]@, cmp_part@)
        },
        VerifyJob::Combine { .. } => false,
    }
}

/// The step that runs a job: a comparator job scans, leaving its root to be
/// sorted next and emitting nothing; a combine job runs whole.
pub open spec fn job_step_effect(
    job: VerifyJob,
    old_states: Seq<Vec<StatePair>>,
    old_used: Seq<bool>,
    new_states: Seq<Vec<StatePair>>,
    new_used: Seq<bool>,
    msg: Option<JobProgress>,
    new_settle: Option<usize>,
) -> bool {
    match job {
        VerifyJob::Cmp { root, .. } => {
            &&& scan_effect(job, old_states, old_used, new_states, new_used)
            &&& msg is None
            &&& new_settle == Some(root)
        },
        VerifyJob::Combine { .. } => {
            &&& job_effect(job, old_states, old_used, new_states, new_used, msg)
            &&& new_settle is None
        },
    }
}

/// A job's effect on the progress count, and the counts its message carries.
pub open spec fn job_progress(old_p: u64, new_p: u64, job: VerifyJob, m: int, msg: Option<JobProgress>) -> bool {
    &&& new_p == old_p + job_ceis(job).len()
    &&& new_p <= m
    &&& match msg {
        Some(JobProgress::Progress(res)) => {
            &&& res.progress == new_p
            &&& res.progress_all == m + 1
            &&& forall|i: int| 0 <= i < 64 ==> #[trigger] res.unsorted@[i] == 0
        },
        _ => true,
    }
}

proof fn lemma_product_elems(master: Seq<StatePair>, slave: Seq<StatePair>)
    ensures
        forall|k: int| 0 <= k < product(master, slave).len() ==> in_product(master, slave, #[trigger] product(master, slave)[k]),
        master.len() > 0 && slave.len() > 0 ==> product(master, slave).len() > 0,
    decreases slave.len(),
{
    if slave.len() > 0 {
        let d = slave.drop_last();
        lemma_product_elems(master, d);
        let p = product(master, slave);
        let pd = product(master, d);
        let tail = master.map_values(|q: StatePair| or_pair(q, slave.last()));
        assert(p == pd + tail);
        assert(p.len() == pd.len() + master.len());
        assert forall|k: int| 0 <= k < p.len() implies in_product(master, slave, #[trigger] p[k]) by {
            if k < pd.len() {
                assert(in_product(master, d, pd[k]));
                let (i, j) = choose|i: int, j: int| 0 <= i < master.len() && 0 <= j < d.len() && pd[k] == #[trigger] or_pair(master[i], d[j]);
                assert(p[k] == pd[k]);
                assert(d[j] == slave[j]);
                assert(p[k] == or_pair(master[i], slave[j]));
            } else {
                let i = k - pd.len();
                assert(p[k] == tail[i]);
                assert(p[k] == or_pair(master[i], slave[slave.len() - 1]));
            }
        }
    }
}

/// What the executor needs of the job at `j` of a well-formed plan.
proof fn lemma_job_prefix(n: int, cmp: Seq<(usize, usize)>, plan: Seq<VerifyJob>, j: int)
    requires
        valid_network(n, cmp),
        plan_wf(n, cmp, plan),
        0 <= j < plan.len(),
    ensures
        is_partition(part_after(n as nat, plan.take(j + 1))),
        part_after(n as nat, plan.take(j + 1)).len() == n,
        job_ok(n, cmp, part_after(n as nat, plan.take(j)), plan[j]),
        part_after(n as nat, plan.take(j + 1)) == match plan[j] {
            VerifyJob::Cmp { .. } => part_after(n as nat, plan.take(j)),
            VerifyJob::Combine { root_master, root_slave } => merge_classes(
                part_after(n as nat, plan.take(j)),
                root_master as int,
                root_slave as int,
                root_master as int,
            ),
        },
        plan_ceis(plan.take(j + 1)) == plan_ceis(plan.take(j)) + job_ceis(plan[j]),
        plan_ceis(plan.take(j + 1)).len() <= cmp.len(),
{
    reveal(plan_wf);
    lemma_part_after_prefix(n, cmp, plan, j + 1);
    lemma_plan_ceis_prefix(plan, j);
    lemma_plan_ceis_prefix(plan, j + 1);
    lemma_plan_ceis_len(n, cmp, plan);
    let t = plan.take(j + 1);
    assert(t.drop_last() =~= plan.take(j));
    assert(t.last() == plan[j]);
}

proof fn lemma_cmp_entries_ok(n: int, cmp: Seq<(usize, usize)>, part: Seq<int>, job: VerifyJob)
    requires
        valid_network(n, cmp),
        cmp.len() < u64::MAX,
        job_ok(n, cmp, part, job),
        job is Cmp,
    ensures
        match job {
            VerifyJob::Cmp { cmp_part, .. } => entries_ok(cmp_part@, u64::MAX as int) && entries_ok(cmp_part@, cmp.len() as int),
            _ => true,
        },
{
    if let VerifyJob::Cmp { cmp_part, .. } = job {
        assert forall|k: int| 0 <= k < cmp_part@.len() implies {
            let e = #[trigger] cmp_part@[k];
            e.a < e.b && e.b < 64 && e.cei < u64::MAX && e.cei < cmp.len()
        } by {
            let e = cmp_part@[k];
            assert(e.cei < cmp.len() && cmp[e.cei as int] == (e.a, e.b));
            assert(cmp[e.cei as int].0 < cmp[e.cei as int].1 && cmp[e.cei as int].1 < n);
        }
    }
}

/// A comparator job on the class of `root` keeps each state set over the
/// wires of its class.
proof fn lemma_cmp_keeps_states(
    n: int,
    part: Seq<int>,
    old_states: Seq<Vec<StatePair>>,
    root: int,
    new_vec: Vec<StatePair>,
    es: Seq<CeEntry>,
)
    requires
        states_wf(n, part, old_states),
        0 <= root < n,
        part[root] == root,
        entries_ok(es, u64::MAX as int),
        new_vec@.to_set() == outs_all(old_states[root]@, es),
    ensures
        states_wf(n, part, old_states.update(root, new_vec)),
{
    reveal(states_wf);
    let olds = old_states[root]@;
    let p0 = olds[0];
    let mask = support(p0);
    assert(class_bits(part, n, root, p0));
    assert forall|k: int| 0 <= k < olds.len() implies support(#[trigger] olds[k]) == mask by {
        assert(class_bits(part, n, root, olds[k]));
        assert forall|i: int| 0 <= i < 64 implies #[trigger] bit(support(olds[k]), i) == bit(mask, i) by {
        }
        lemma_bits_ext(support(olds[k]), mask);
    }
    lemma_outs_all_support(olds, es, mask);
    let w = choose|p: StatePair| #[trigger] outs_all(olds, es).contains(p);
    assert(new_vec@.to_set().contains(w));
    let ns = old_states.update(root, new_vec);
    assert forall|r: int, k: int| 0 <= r < n && 0 <= k < ns[r]@.len() implies class_bits(part, n, r, #[trigger] ns[r]@[k]) by {
        if r == root {
            assert(new_vec@.to_set().contains(new_vec@[k]));
        } else {
            assert(ns[r] == old_states[r]);
        }
    }
    assert forall|r: int| 0 <= r < n implies ((#[trigger] ns[r])@.len() > 0 <==> part[r] == r) by {
        if r != root {
            assert(ns[r] == old_states[r]);
        }
    }
}

/// The state pairs of two distinct roots speak of disjoint wires.
pub proof fn lemma_disjoint_supports(n: int, part: Seq<int>, states: Seq<Vec<StatePair>>, m: int, s: int)
    requires
        states_wf(n, part, states),
        0 <= m < n,
        0 <= s < n,
        m != s,
    ensures
        forall|x: int, y: int|
            0 <= x < states[m]@.len() && 0 <= y < states[s]@.len() ==> support(#[trigger] states[m]@[x])
                & support(#[trigger] states[s]@[y]) == 0,
{
    reveal(states_wf);
    assert forall|x: int, y: int|
        0 <= x < states[m]@.len() && 0 <= y < states[s]@.len() implies support(#[trigger] states[m]@[x])
        & support(#[trigger] states[s]@[y]) == 0 by {
        let pm = states[m]@[x];
        let ps = states[s]@[y];
        assert(class_bits(part, n, m, pm));
        assert(class_bits(part, n, s, ps));
        assert forall|i: int| 0 <= i < 64 implies #[trigger] bit(support(pm) & support(ps), i) == bit(0u64, i) by {
            lemma_bit_and(support(pm), support(ps), i);
            lemma_bit_zero(i);
        }
        lemma_bits_ext(support(pm) & support(ps), 0u64);
    }
}

/// Combining the classes of `m` and `s` under `m` keeps each state set over
/// the wires of its class.
proof fn lemma_combine_keeps_states(
    n: int,
    part: Seq<int>,
    old_states: Seq<Vec<StatePair>>,
    m: int,
    s: int,
    united: Vec<StatePair>,
    empty: Vec<StatePair>,
)
    requires
        states_wf(n, part, old_states),
        is_partition(part),
        part.len() == n,
        0 <= m < n,
        0 <= s < n,
        m != s,
        part[m] == m,
        part[s] == s,
        united@ == product(old_states[m]@, old_states[s]@),
        empty@.len() == 0,
    ensures
        states_wf(n, merge_classes(part, m, s, m), old_states.update(m, united).update(s, empty)),
{
    reveal(states_wf);
    let new_part = merge_classes(part, m, s, m);
    let ms = old_states[m]@;
    let ss = old_states[s]@;
    lemma_product_elems(ms, ss);
    let ns = old_states.update(m, united).update(s, empty);
    assert forall|k: int| 0 <= k < united@.len() implies class_bits(new_part, n, m, #[trigger] united@[k]) by {
        assert(in_product(ms, ss, product(ms, ss)[k]));
        let (x, y) = choose|x: int, y: int| 0 <= x < ms.len() && 0 <= y < ss.len() && product(ms, ss)[k] == #[trigger] or_pair(ms[x], ss[y]);
        let pm = ms[x];
        let ps = ss[y];
        assert(class_bits(part, n, m, pm));
        assert(class_bits(part, n, s, ps));
        assert(united@[k] == or_pair(pm, ps));
        assert forall|i: int| 0 <= i < 64 implies (#[trigger] bit(support(united@[k]), i) <==> (i < n && new_part[i] == m)) by {
            assert(bit(support(pm), i) <==> (i < n && part[i] == m));
            assert(bit(support(ps), i) <==> (i < n && part[i] == s));
            lemma_bit_or(pm.0, ps.0, i);
            lemma_bit_or(pm.1, ps.1, i);
            lemma_bit_or(pm.0 | ps.0, pm.1 | ps.1, i);
            lemma_bit_or(pm.0, pm.1, i);
            lemma_bit_or(ps.0, ps.1, i);
        }
    }
    assert forall|r: int| 0 <= r < n implies ((#[trigger] ns[r])@.len() > 0 <==> new_part[r] == r) by {
        if r != m && r != s {
            assert(ns[r] == old_states[r]);
        }
    }
    assert forall|r: int, k: int| 0 <= r < n && 0 <= k < ns[r]@.len() implies class_bits(new_part, n, r, #[trigger] ns[r]@[k]) by {
        if r != m && r != s {
            assert(ns[r] == old_states[r]);
            assert(class_bits(part, n, r, old_states[r]@[k]));
            assert(old_states[r]@.len() > 0);
        } else if r == m {
            assert(ns[r] == united);
        }
    }
}

/// A job's outcome is a function of the state before it: two outcomes that
/// both meet the job's effect on the same states and used comparators agree
/// on every state set and every used bit.
pub proof fn lemma_job_deterministic(
    job: VerifyJob,
    old_states: Seq<Vec<StatePair>>,
    old_used: Seq<bool>,
    s1: Seq<Vec<StatePair>>,
    u1: Seq<bool>,
    m1: Option<JobProgress>,
    s2: Seq<Vec<StatePair>>,
    u2: Seq<bool>,
    m2: Option<JobProgress>,
)
    requires
        job_effect(job, old_states, old_used, s1, u1, m1),
        job_effect(job, old_states, old_used, s2, u2, m2),
        match job {
            VerifyJob::Cmp { root, .. } => root < old_states.len(),
            VerifyJob::Combine { root_master, root_slave } => root_master < old_states.len() && root_slave < old_states.len(),
        },
    ensures
        s1.len() == s2.len(),
        forall|r: int| 0 <= r < s1.len() ==> (#[trigger] s1[r])@ == s2[r]@,
        u1 == u2,
{
    match job {
        VerifyJob::Cmp { root, cmp_part } => {
            lemma_strictly_sorted_unique(s1[root as int]@, s2[root as int]@);
            assert forall|c: int| 0 <= c < u1.len() implies u1[c] == u2[c] by {
                assert(used_set(u1).contains(c) == u1[c]);
                assert(used_set(u2).contains(c) == u2[c]);
            }
            assert(u1 =~= u2);
        },
        VerifyJob::Combine { .. } => {},
    }
}

/// A 1 below a 0 has, somewhere between them, a 1 right below a 0.
pub proof fn lemma_adjacent_drop(v: u64, i: int, j: int) -> (k: int)
    requires
        0 <= i < j < 64,
        bit(v, i),
        !bit(v, j),
    ensures
        i <= k < j,
        bit(v, k),
        !bit(v, k + 1),
    decreases j - i,
{
    if bit(v, j - 1) {
        j - 1
    } else {
        lemma_adjacent_drop(v, i, j - 1)
    }
}

/// Two finished runs on the same network agree on every used bit and on the
/// whole unsorted map.
pub proof fn lemma_runs_agree(v1: &Verifier, v2: &Verifier)
    requires
        v1.wf(),
        v2.wf(),
        v1.phase() is Done || v1.phase() is Finished,
        v2.phase() is Done || v2.phase() is Finished,
        v1.width() == v2.width(),
        v1.comparators() == v2.comparators(),
    ensures
        v1.used() == v2.used(),
        v1.unsorted() == v2.unsorted(),
{
    v1.lemma_verdict();
    v2.lemma_verdict();
    assert forall|c: int| 0 <= c < v1.used().len() implies v1.used()[c] == v2.used()[c] by {
        v1.lemma_unused_redundant(c);
        v2.lemma_unused_redundant(c);
    }
    assert(v1.used() =~= v2.used());
    assert forall|i: int| 0 <= i < 64 implies v1.unsorted()[i] == v2.unsorted()[i] by {
        assert forall|j: int| 0 <= j < 64 implies #[trigger] bit(v1.unsorted()[i], j) == bit(v2.unsorted()[i], j) by {}
        lemma_bits_ext(v1.unsorted()[i], v2.unsorted()[i]);
    }
    assert(v1.unsorted() =~= v2.unsorted());
}

/// Two sequences sorted without repeats that hold the same pairs are equal.
pub proof fn lemma_strictly_sorted_unique(x: Seq<StatePair>, y: Seq<StatePair>)
    requires
        strictly_sorted(x),
        strictly_sorted(y),
        x.to_set() == y.to_set(),
    ensures
        x == y,
    decreases x.len(),
{
    if x.len() > 0 && y.len() > 0 {
        assert(x.to_set().contains(x[0]));
        assert(y.to_set().contains(y[0]));
        let i = choose|i: int| 0 <= i < y.len() && y[i] == x[0];
        let k = choose|k: int| 0 <= k < x.len() && x[k] == y[0];
        if i > 0 {
            assert(pair_lt(y[0], y[i]));
            if k > 0 {
                assert(pair_lt(x[0], x[k]));
            }
        }
        assert(x[0] == y[0]);
        let xs = x.drop_first();
        let ys = y.drop_first();
        assert forall|p: StatePair| xs.to_set().contains(p) <==> ys.to_set().contains(p) by {
            if xs.to_set().contains(p) {
                let a = choose|a: int| 0 <= a < xs.len() && xs[a] == p;
                assert(pair_lt(x[0], x[a + 1]));
                assert(y.to_set().contains(p));
                let b = choose|b: int| 0 <= b < y.len() && y[b] == p;
                assert(b != 0);
                assert(ys[b - 1] == p);
            }
            if ys.to_set().contains(p) {
                let b = choose|b: int| 0 <= b < ys.len() && ys[b] == p;
                assert(pair_lt(y[0], y[b + 1]));
                assert(x.to_set().contains(p));
                let a = choose|a: int| 0 <= a < x.len() && x[a] == p;
                assert(a != 0);
                assert(xs[a - 1] == p);
            }
        }
        assert(xs.to_set() =~= ys.to_set());
        lemma_strictly_sorted_unique(xs, ys);
        assert(x =~= seq![x[0]] + xs);
        assert(y =~= seq![y[0]] + ys);
    } else if x.len() > 0 {
        assert(x.to_set().contains(x[0]));
    } else if y.len() > 0 {
        assert(y.to_set().contains(y[0]));
    }
}

/// The comparators applied by the first `k` jobs of a plan.
pub open spec fn applied_of(plan: Seq<VerifyJob>, k: int) -> Set<int> {
    Set::new(|c: int| 0 <= c <= usize::MAX && plan_ceis(plan.take(k)).contains(c as usize))
}

proof fn lemma_plan_nodup(n: int, cmp: Seq<(usize, usize)>, plan: Seq<VerifyJob>)
    requires
        plan_wf(n, cmp, plan),
    ensures
        plan_ceis(plan).no_duplicates(),
{
    reveal(plan_wf);
}

proof fn lemma_prefix_keeps(cmp: Seq<(usize, usize)>, full: Seq<usize>, p1: Seq<usize>)
    requires
        full.no_duplicates(),
        order_kept(cmp, full),
        p1 == full.take(p1.len() as int),
        p1.len() <= full.len(),
    ensures
        p1.no_duplicates(),
        order_kept(cmp, p1),
{
    assert forall|x: int, y: int| 0 <= x < p1.len() && 0 <= y < p1.len() && x != y implies p1[x] != p1[y] by {
        assert(p1[x] == full[x] && p1[y] == full[y]);
    }
    assert forall|x: int, y: int| 0 <= x < y < p1.len() && shares_wire(cmp[p1[x] as int], cmp[p1[y] as int]) implies #[trigger] p1[x] < #[trigger] p1[y] by {
        assert(p1[x] == full[x] && p1[y] == full[y]);
    }
}

proof fn lemma_cmp_job_applied(cmp: Seq<(usize, usize)>, p: Seq<usize>, es: Seq<CeEntry>, a: Set<int>, a1: Set<int>)
    requires
        (p + es.map_values(|e: CeEntry| e.cei)).no_duplicates(),
        order_kept(cmp, p + es.map_values(|e: CeEntry| e.cei)),
        a == Set::new(|c: int| 0 <= c <= usize::MAX && p.contains(c as usize)),
        a1 == Set::new(|c: int| 0 <= c <= usize::MAX && (p + es.map_values(|e: CeEntry| e.cei)).contains(c as usize)),
    ensures
        forall|t: int| 0 <= t < es.len() ==> !a.contains((#[trigger] es[t]).cei as int),
        forall|t: int, d: int|
            0 <= t < es.len() && (#[trigger] es[t]).cei < d < cmp.len() && #[trigger] a.contains(d) ==> !shares_wire(cmp[d], cmp[es[t].cei as int]),
        a1 == a + entry_set(es),
{
    let jc = es.map_values(|e: CeEntry| e.cei);
    let p1 = p + jc;
    assert forall|t: int| 0 <= t < es.len() implies !a.contains((#[trigger] es[t]).cei as int) by {
        assert(p1[p.len() + t] == es[t].cei);
        if p.contains(es[t].cei) {
            let x = choose|x: int| 0 <= x < p.len() && p[x] == es[t].cei;
            assert(p1[x] == p[x]);
        }
    }
    assert forall|t: int, d: int|
        0 <= t < es.len() && (#[trigger] es[t]).cei < d < cmp.len() && #[trigger] a.contains(d)
        implies !shares_wire(cmp[d], cmp[es[t].cei as int]) by {
        let x = choose|x: int| 0 <= x < p.len() && p[x] == d as usize;
        let y = p.len() + t;
        assert(p1[x] == p[x] && p1[y] == es[t].cei);
    }
    assert forall|c: int| a1.contains(c) <==> (a + entry_set(es)).contains(c) by {
        if 0 <= c <= usize::MAX {
            crate::plan::lemma_concat_contains(p, jc, c as usize);
            if jc.contains(c as usize) {
                let t = choose|t: int| 0 <= t < jc.len() && jc[t] == c as usize;
                assert(es[t].cei == c);
            }
            if entry_set(es).contains(c) {
                let t = choose|t: int| 0 <= t < es.len() && (#[trigger] es[t]).cei == c;
                assert(jc[t] == c as usize);
            }
        } else {
            if entry_set(es).contains(c) {
                let t = choose|t: int| 0 <= t < es.len() && (#[trigger] es[t]).cei == c;
            }
        }
    }
    assert(a1 =~= a + entry_set(es));
}

/// The comparator job at `j` of a well-formed plan meets what the invariant
/// needs, and adds its comparators to those applied.
#[verifier::rlimit(50)]
proof fn lemma_job_entries(n: int, cmp: Seq<(usize, usize)>, plan: Seq<VerifyJob>, j: int)
    requires
        valid_network(n, cmp),
        cmp.len() < u64::MAX,
        plan_wf(n, cmp, plan),
        order_kept(cmp, plan_ceis(plan)),
        0 <= j < plan.len(),
    ensures
        match plan[j] {
            VerifyJob::Cmp { root, cmp_part } => {
                &&& job_entries_ok(cmp, applied_of(plan, j), part_after(n as nat, plan.take(j)), root as int, cmp_part@)
                &&& applied_of(plan, j + 1) == applied_of(plan, j) + entry_set(cmp_part@)
            },
            VerifyJob::Combine { .. } => applied_of(plan, j + 1) == applied_of(plan, j),
        },
{
    lemma_job_prefix(n, cmp, plan, j);
    lemma_plan_ceis_is_prefix(plan, j + 1);
    lemma_plan_nodup(n, cmp, plan);
    let p = plan_ceis(plan.take(j));
    let p1 = plan_ceis(plan.take(j + 1));
    lemma_prefix_keeps(cmp, plan_ceis(plan), p1);
    match plan[j] {
        VerifyJob::Cmp { root, cmp_part } => {
            assert(job_ceis(plan[j]) == cmp_part@.map_values(|e: CeEntry| e.cei));
            lemma_cmp_job_applied(cmp, p, cmp_part@, applied_of(plan, j), applied_of(plan, j + 1));
        },
        VerifyJob::Combine { .. } => {
            assert(job_ceis(plan[j]) =~= Seq::<usize>::empty());
            assert(p1 =~= p);
            assert(applied_of(plan, j + 1) =~= applied_of(plan, j));
        },
    }
}

/// The comparators of the first `l` places of a plan's order.
pub open spec fn first_places(full: Seq<usize>, l: int) -> Set<int> {
    Set::new(|c: int| exists|q: int| 0 <= q < l && full[q] as int == c)
}

proof fn lemma_first_places_closed(n: int, cmp: Seq<(usize, usize)>, full: Seq<usize>, l: int)
    requires
        0 <= l <= full.len(),
        order_kept(cmp, full),
        full.no_duplicates(),
        cmp.len() <= usize::MAX,
        forall|c: usize| c < cmp.len() ==> #[trigger] full.contains(c),
    ensures
        closed_under_wires(cmp, first_places(full, l)),
        l < full.len() ==> {
            let c = full[l] as int;
            &&& !first_places(full, l).contains(c)
            &&& (0 <= c < cmp.len() ==> forall|d: int| 0 <= d < c && shares_wire(cmp[d], cmp[c]) ==> #[trigger] first_places(full, l).contains(d))
        },
{
    let s = first_places(full, l);
    assert forall|c: int, d: int| 0 <= d < c < cmp.len() && #[trigger] s.contains(c) && shares_wire(cmp[d], cmp[c]) implies #[trigger] s.contains(d) by {
        let q1 = choose|q: int| 0 <= q < l && full[q] as int == c;
        assert(full.contains(d as usize));
        let q = choose|q: int| 0 <= q < full.len() && full[q] == d as usize;
        if q >= l {
            assert(q1 < q);
            assert(shares_wire(cmp[full[q1] as int], cmp[full[q] as int]));
            assert(full[q1] < full[q]);
        }
        assert(full[q] as int == d);
    }
    if l < full.len() {
        let c = full[l] as int;
        if s.contains(c) {
            let q = choose|q: int| 0 <= q < l && full[q] as int == c;
            assert(full[q] == full[l]);
        }
        if 0 <= c < cmp.len() {
            assert forall|d: int| 0 <= d < c && shares_wire(cmp[d], cmp[c]) implies #[trigger] s.contains(d) by {
                assert(full.contains(d as usize));
                let q = choose|q: int| 0 <= q < full.len() && full[q] == d as usize;
                if q > l {
                    assert(shares_wire(cmp[full[l] as int], cmp[full[q] as int]));
                    assert(full[l] < full[q]);
                }
                assert(q != l);
                assert(full[q] as int == d);
            }
        }
    }
}

proof fn lemma_plan_complete(n: int, cmp: Seq<(usize, usize)>, plan: Seq<VerifyJob>)
    requires
        plan_wf(n, cmp, plan),
    ensures
        forall|c: usize| c < cmp.len() ==> #[trigger] plan_ceis(plan).contains(c),
{
    reveal(plan_wf);
}

proof fn lemma_places_eq(full: Seq<usize>, p: Seq<usize>, es: Seq<CeEntry>, t: int, a: Set<int>)
    requires
        0 <= t < es.len(),
        p.len() + es.len() <= full.len(),
        forall|q: int| 0 <= q < p.len() ==> #[trigger] full[q] == p[q],
        forall|u: int| 0 <= u < es.len() ==> #[trigger] full[p.len() + u] == es[u].cei,
        a == Set::new(|c: int| 0 <= c <= usize::MAX && p.contains(c as usize)),
    ensures
        a + entry_set(es.take(t)) == first_places(full, p.len() + t),
        full[p.len() + t] == es[t].cei,
{
    let l = p.len() + t;
    let s = a + entry_set(es.take(t));
    assert forall|c: int| s.contains(c) <==> first_places(full, l).contains(c) by {
        if a.contains(c) {
            let q = choose|q: int| 0 <= q < p.len() && p[q] == c as usize;
            assert(full[q] == p[q]);
            assert(full[q] as int == c);
        }
        if entry_set(es.take(t)).contains(c) {
            let u = choose|u: int| 0 <= u < es.take(t).len() && (#[trigger] es.take(t)[u]).cei == c;
            assert(es.take(t)[u] == es[u]);
            assert(full[p.len() + u] as int == c);
        }
        if first_places(full, l).contains(c) {
            let q = choose|q: int| 0 <= q < l && full[q] as int == c;
            if q < p.len() {
                assert(full[q] == p[q]);
                assert(p.contains(full[q]));
                assert(a.contains(c));
            } else {
                let u = q - p.len();
                assert(full[p.len() + u] == es[u].cei);
                assert(es.take(t)[u] == es[u]);
                assert(entry_set(es.take(t)).contains(c));
            }
        }
    }
    assert(s =~= first_places(full, l));
}

/// Before entry `t` of the comparator job at `j`, the comparators applied are
/// closed under wires and hold every earlier comparator on that entry's wires.
#[verifier::rlimit(50)]
proof fn lemma_before_entry(n: int, cmp: Seq<(usize, usize)>, plan: Seq<VerifyJob>, j: int, t: int)
    requires
        valid_network(n, cmp),
        cmp.len() < u64::MAX,
        cmp.len() <= usize::MAX,
        plan_wf(n, cmp, plan),
        order_kept(cmp, plan_ceis(plan)),
        0 <= j < plan.len(),
        plan[j] is Cmp,
        0 <= t < job_ceis(plan[j]).len(),
    ensures
        match plan[j] {
            VerifyJob::Cmp { cmp_part, .. } => {
                let es = cmp_part@;
                let s = applied_of(plan, j) + entry_set(es.take(t));
                let c = es[t].cei as int;
                &&& closed_under_wires(cmp, s)
                &&& !s.contains(c)
                &&& forall|d: int| 0 <= d < c && shares_wire(cmp[d], cmp[c]) ==> #[trigger] s.contains(d)
            },
            _ => true,
        },
{
    lemma_job_prefix(n, cmp, plan, j);
    lemma_plan_ceis_is_prefix(plan, j + 1);
    lemma_plan_nodup(n, cmp, plan);
    lemma_plan_complete(n, cmp, plan);
    let full = plan_ceis(plan);
    let p = plan_ceis(plan.take(j));
    let p1 = plan_ceis(plan.take(j + 1));
    if let VerifyJob::Cmp { cmp_part, .. } = plan[j] {
        let es = cmp_part@;
        let jc = job_ceis(plan[j]);
        assert(jc == es.map_values(|e: CeEntry| e.cei));
        assert forall|q: int| 0 <= q < p.len() implies #[trigger] full[q] == p[q] by {
            assert(full[q] == p1[q]);
        }
        assert forall|u: int| 0 <= u < es.len() implies #[trigger] full[p.len() + u] == es[u].cei by {
            assert(full[p.len() + u] == p1[p.len() + u]);
        }
        lemma_places_eq(full, p, es, t, applied_of(plan, j));
        lemma_first_places_closed(n, cmp, full, p.len() + t);
    }
}

/// A comparator job marks as used exactly its comparators that swap, for
/// some input, on what reaches them in the network.
#[verifier::rlimit(50)]
proof fn lemma_used_step(
    n: int,
    cmp: Seq<(usize, usize)>,
    plan: Seq<VerifyJob>,
    j: int,
    old: Seq<Vec<StatePair>>,
    old_used: Seq<bool>,
    new_used: Seq<bool>,
)
    requires
        valid_network(n, cmp),
        cmp.len() < u64::MAX,
        cmp.len() <= usize::MAX,
        plan_wf(n, cmp, plan),
        order_kept(cmp, plan_ceis(plan)),
        0 <= j < plan.len(),
        plan[j] is Cmp,
        sem_inv(n, cmp, applied_of(plan, j), part_after(n as nat, plan.take(j)), old),
        states_wf(n, part_after(n as nat, plan.take(j)), old),
        part_after(n as nat, plan.take(j)).len() == n,
        old.len() == n,
        old_used.len() == cmp.len(),
        new_used.len() == cmp.len(),
        forall|c: int| 0 <= c < cmp.len() ==> (#[trigger] old_used[c] <==> (applied_of(plan, j).contains(c) && swaps_somewhere(n, cmp, c))),
        match plan[j] {
            VerifyJob::Cmp { root, cmp_part } => used_set(new_used) == used_set(old_used) + fired_all(old[root as int]@, cmp_part@),
            _ => true,
        },
    ensures
        forall|c: int| 0 <= c < cmp.len() ==> (#[trigger] new_used[c] <==> (applied_of(plan, j + 1).contains(c) && swaps_somewhere(n, cmp, c))),
{
    let part = part_after(n as nat, plan.take(j));
    lemma_job_prefix(n, cmp, plan, j);
    lemma_job_entries(n, cmp, plan, j);
    if let VerifyJob::Cmp { root, cmp_part } = plan[j] {
        let es = cmp_part@;
        let r = root as int;
        let a = applied_of(plan, j);
        lemma_cmp_entries_ok(n, cmp, part, plan[j]);
        assert forall|c: int| 0 <= c < cmp.len() implies (#[trigger] new_used[c] <==> (applied_of(plan, j + 1).contains(c) && swaps_somewhere(n, cmp, c))) by {
            assert(used_set(new_used).contains(c) == new_used[c]);
            assert(used_set(old_used).contains(c) == old_used[c]);
            lemma_fired_all_has(old[r]@, es, c);
            if entry_set(es).contains(c) {
                let t = choose|t: int| 0 <= t < es.len() && (#[trigger] es[t]).cei == c;
                assert(job_ceis(plan[j]).len() == es.len());
                lemma_before_entry(n, cmp, plan, j, t);
                lemma_fired_iff_network(n, cmp, a, part, old, r, es, t);
                assert(!a.contains(c));
            } else if fired_all(old[r]@, es).contains(c) {
                let k = choose|k: int| 0 <= k < old[r]@.len() && #[trigger] crate::exec::fired_from(old[r]@[k].0, old[r]@[k].1, es, 0).contains(c);
                lemma_fired_in_job(old[r]@[k].0, old[r]@[k].1, es, 0, c);
                let t = choose|t: int| 0 <= t < es.len() && (#[trigger] es[t]).cei == c;
                assert(entry_set(es).contains(c));
            }
        }
    }
}

/// The number of comparators never used.
fn count_unused(used: &Vec<bool>) -> (r: usize)
    ensures
        r <= used@.len(),
{
    let mut r: usize = 0;
    let mut k: usize = 0;
    while k < used.len()
        invariant
            k <= used@.len(),
            r <= k,
        decreases used@.len() - k,
    {
        if !used[k] {
            r += 1;
        }
        k += 1;
    }
    r
}

/// A verification of one network in progress.
pub struct Verifier {
    n: usize,
    cmp: Vec<(usize, usize)>,
    plan: Vec<VerifyJob>,
    next_job: usize,
    states: Vec<Vec<StatePair>>,
    result: JobResult,
    phase: Phase,
    /// The root whose state set awaits sorting after a comparator job.
    settle: Option<usize>,
}

impl Verifier {
    pub closed spec fn width(&self) -> nat {
        self.n as nat
    }

    pub closed spec fn comparators(&self) -> Seq<(usize, usize)> {
        self.cmp@
    }

    pub closed spec fn jobs(&self) -> Seq<VerifyJob> {
        self.plan@
    }

    /// The number of jobs run so far.
    pub closed spec fn jobs_done(&self) -> nat {
        self.next_job as nat
    }

    pub closed spec fn phase(&self) -> Phase {
        self.phase
    }

    /// The root whose state set awaits sorting, if any.
    pub closed spec fn settling(&self) -> Option<usize> {
        self.settle
    }

    /// The per-root state sets.
    pub closed spec fn state_sets(&self) -> Seq<Vec<StatePair>> {
        self.states@
    }

    pub closed spec fn used(&self) -> Seq<bool> {
        self.result.used@
    }

    pub closed spec fn unsorted(&self) -> Seq<u64> {
        self.result.unsorted@
    }

    pub closed spec fn progress(&self) -> u64 {
        self.result.progress
    }

    /// The partition of the wires after the jobs run so far.
    pub open spec fn part(&self) -> Seq<int> {
        part_after(self.width(), self.jobs().take(self.jobs_done() as int))
    }

    pub closed spec fn wf(&self) -> bool {
        let m = self.cmp@.len();
        &&& valid_network(self.n as int, self.cmp@)
        &&& m < u64::MAX
        &&& m <= usize::MAX
        &&& plan_wf(self.n as int, self.cmp@, self.plan@)
        &&& self.next_job <= self.plan@.len()
        &&& is_partition(self.part())
        &&& self.part().len() == self.n
        &&& states_wf(self.n as int, self.part(), self.states@)
        &&& self.states@.len() == self.n
        &&& (self.settle matches Some(r) ==> r < self.n && self.phase is Running)
        &&& order_kept(self.cmp@, plan_ceis(self.plan@))
        &&& sem_inv(self.n as int, self.cmp@, applied_of(self.plan@, self.next_job as int), self.part(), self.states@)
        &&& forall|c: int| 0 <= c < m ==> (#[trigger] self.result.used@[c] <==> (applied_of(self.plan@, self.next_job as int).contains(c)
            && swaps_somewhere(self.n as int, self.cmp@, c)))
        &&& self.result.used@.len() == m
        &&& self.result.progress_all == m + 1
        &&& match self.phase {
            Phase::Start => self.next_job == 0 && self.result.progress == 0,
            Phase::Running => self.result.progress == plan_ceis(self.plan@.take(self.next_job as int)).len(),
            Phase::Finished | Phase::Done => self.next_job == self.plan@.len() && self.result.progress == m + 1,
            Phase::Cancelled => true,
        }
        &&& match self.phase {
            Phase::Start | Phase::Running => forall|i: int| 0 <= i < 64 ==> #[trigger] self.result.unsorted@[i] == 0,
            Phase::Finished | Phase::Done => forall|i: int, j: int|
                0 <= i < 64 && 0 <= j < 64 ==> (#[trigger] bit(self.result.unsorted@[i], j) <==> network_unsorted(
                    self.states@,
                    self.n as int,
                    i,
                    j,
                )),
            Phase::Cancelled => true,
        }
    }

    /// A verification of the network with `n` wires and comparators `cmp`,
    /// with its plan made.
    #[verifier::rlimit(50)]
    pub fn new(n: usize, cmp: Vec<(usize, usize)>) -> (r: Self)
        requires
            valid_network(n as int, cmp@),
            cmp@.len() < u64::MAX,
        ensures
            r.wf(),
            r.phase() == Phase::Start,
            r.width() == n,
            r.comparators() == cmp@,
            r.jobs_done() == 0,
            r.used() == Seq::new(cmp@.len(), |k: int| false),
            plan_wf(n as int, cmp@, r.jobs()),
    {
        let plan = verify_strategy(n, cmp.as_slice());
        let mut result = JobResult::new(cmp.as_slice());
        result.progress_all = cmp.len() as u64 + 1;
        let mut states: Vec<Vec<StatePair>> = Vec::new();
        let mut i: usize = 0;
        proof {
            assert(plan@.take(0) =~= Seq::<VerifyJob>::empty());
        }
        while i < n
            invariant
                2 <= n <= 64,
                i <= n,
                states@.len() == i,
                forall|r: int| 0 <= r < i ==> (#[trigger] states@[r])@.len() == 1,
                forall|r: int| 0 <= r < i ==> (#[trigger] states@[r])@ == seq![(1u64 << (r as u64), 1u64 << (r as u64))],
                forall|r: int, k: int| 0 <= r < i && 0 <= k < states@[r]@.len() ==> class_bits(
                    singletons(n as nat),
                    n as int,
                    r,
                    #[trigger] states@[r]@[k],
                ),
            decreases n - i,
        {
            let b: u64 = 1u64 << (i as u64);
            proof {
                assert forall|x: int| 0 <= x < 64 implies (#[trigger] bit(support((b, b)), x) <==> (x < n
                    && singletons(n as nat)[x] == i)) by {
                    lemma_bit_single(i as int, x);
                    assert(b | b == b) by (bit_vector);
                }
            }
            let mut one: Vec<StatePair> = Vec::new();
            one.push((b, b));
            proof {
                assert(one@ =~= seq![(b, b)]);
            }
            states.push(one);
            i += 1;
        }
        proof {
            reveal(states_wf);
            lemma_sem_init(n as int, cmp@, states@);
            assert(plan_ceis(plan@.take(0)) =~= Seq::<usize>::empty());
            assert(applied_of(plan@, 0) =~= Set::<int>::empty());
            assert(result.used@ == Seq::new(cmp@.len(), |k: int| false));
        }
        Verifier { n, cmp, plan, next_job: 0, states, result, phase: Phase::Start, settle: None }
    }

    pub fn phase_now(&self) -> (r: Phase)
        ensures
            r == self.phase(),
    {
        self.phase
    }

    /// The state set held at wire `root`.
    pub fn states_of(&self, root: usize) -> (r: Vec<StatePair>)
        requires
            self.wf(),
            root < self.width(),
        ensures
            r@ == self.state_sets()[root as int]@,
    {
        let s = &self.states[root];
        let mut r: Vec<StatePair> = Vec::new();
        let mut k: usize = 0;
        while k < s.len()
            invariant
                k <= s@.len(),
                r@ == s@.take(k as int),
            decreases s@.len() - k,
        {
            r.push(s[k]);
            k += 1;
            proof {
                assert(r@ =~= s@.take(k as int));
            }
        }
        proof {
            assert(s@.take(s@.len() as int) =~= s@);
        }
        r
    }

    /// Where the verification stands, as a count of steps that remain.
    pub open spec fn remaining(&self) -> nat {
        match self.phase() {
            Phase::Start => 2 * self.jobs().len() + 3,
            Phase::Running => (2 * (self.jobs().len() - self.jobs_done()) + 2 + if self.settling() is Some { 1int } else { 0int }) as nat,
            Phase::Finished => 1,
            Phase::Done | Phase::Cancelled => 0,
        }
    }

    /// Takes one step: emits the first snapshot, runs the next job, finishes,
    /// or stops on cancellation. Once `Done` or `Cancel` has been emitted it
    /// emits nothing more.
    #[verifier::rlimit(50)]
    pub fn step(&mut self, cancelled: bool) -> (msg: Option<JobProgress>)
        requires
            old(self).wf(),
        ensures
            final(self).wf(),
            final(self).width() == old(self).width(),
            final(self).comparators() == old(self).comparators(),
            final(self).jobs() == old(self).jobs(),
            final(self).used().len() == old(self).used().len(),
            forall|c: int| 0 <= c < old(self).used().len() && #[trigger] old(self).used()[c] ==> final(self).used()[c],
            old(self).phase() == Phase::Start ==> {
                &&& final(self).phase() == Phase::Running
                &&& final(self).jobs_done() == 0
                &&& final(self).state_sets() == old(self).state_sets()
                &&& final(self).used() == old(self).used()
                &&& progress_msg(msg, old(self).used(), old(self).unsorted(), 0, (old(self).comparators().len() + 1) as u64)
            },
            old(self).phase() == Phase::Running && cancelled ==> {
                &&& final(self).phase() == Phase::Cancelled
                &&& msg matches Some(JobProgress::Cancel)
            },
            old(self).phase() == Phase::Running && !cancelled && old(self).settling() is Some ==> {
                &&& final(self).phase() == Phase::Running
                &&& final(self).jobs_done() == old(self).jobs_done()
                &&& final(self).settling() is None
                &&& final(self).used() == old(self).used()
                &&& final(self).progress() == old(self).progress()
                &&& final(self).state_sets().len() == old(self).state_sets().len()
                &&& strictly_sorted(final(self).state_sets()[old(self).settling()->Some_0 as int]@)
                &&& final(self).state_sets()[old(self).settling()->Some_0 as int]@.to_set() == old(self).state_sets()[old(self).settling()->Some_0 as int]@.to_set()
                &&& forall|r: int|
                    0 <= r < old(self).state_sets().len() && r != old(self).settling()->Some_0 ==> #[trigger] final(self).state_sets()[r]@ == old(self).state_sets()[r]@
                &&& progress_msg(msg, final(self).used(), final(self).unsorted(), final(self).progress(),
                    (old(self).comparators().len() + 1) as u64)
                &&& match msg {
                    Some(JobProgress::Progress(res)) => forall|i: int| 0 <= i < 64 ==> #[trigger] res.unsorted@[i] == 0,
                    _ => false,
                }
            },
            old(self).phase() == Phase::Running && !cancelled && old(self).settling() is None && old(self).jobs_done()
                < old(self).jobs().len() ==> {
                &&& final(self).phase() == Phase::Running
                &&& final(self).jobs_done() == old(self).jobs_done() + 1
                &&& job_step_effect(
                    old(self).jobs()[old(self).jobs_done() as int],
                    old(self).state_sets(),
                    old(self).used(),
                    final(self).state_sets(),
                    final(self).used(),
                    msg,
                    final(self).settling(),
                )
                &&& job_progress(old(self).progress(), final(self).progress(), old(self).jobs()[old(self).jobs_done() as int],
                    old(self).comparators().len() as int, msg)
                &&& final(self).progress() == plan_ceis(final(self).jobs().take(final(self).jobs_done() as int)).len()
            },
            old(self).phase() == Phase::Running && !cancelled && old(self).settling() is None && old(self).jobs_done()
                == old(self).jobs().len() ==> {
                &&& final(self).phase() == Phase::Finished
                &&& final(self).state_sets() == old(self).state_sets()
                &&& final(self).used() == old(self).used()
                &&& forall|i: int, j: int| 0 <= i < 64 && 0 <= j < 64 ==> (#[trigger] bit(final(self).unsorted()[i], j)
                    <==> network_unsorted(old(self).state_sets(), old(self).width() as int, i, j))
                &&& progress_msg(msg, final(self).used(), final(self).unsorted(),
                    (old(self).comparators().len() + 1) as u64, (old(self).comparators().len() + 1) as u64)
            },
            old(self).phase() == Phase::Finished ==> {
                &&& final(self).phase() == Phase::Done
                &&& msg matches Some(JobProgress::Done)
            },
            old(self).phase() is Done || old(self).phase() is Cancelled ==> {
                &&& final(self).phase() == old(self).phase()
                &&& msg is None
            },
            !cancelled && old(self).remaining() > 0 ==> final(self).remaining() < old(self).remaining(),
    {
        match self.phase {
            Phase::Start => {
                self.phase = Phase::Running;
                proof {
                    assert(self.plan@.take(0) =~= Seq::<VerifyJob>::empty());
                    assert(plan_ceis(self.plan@.take(0)).len() == 0);
                    assert(self.settle is None);
                    assert(self.result.progress == 0);
                }
                Some(JobProgress::Progress(self.result.snapshot()))
            },
            Phase::Running => {
                if cancelled {
                    self.phase = Phase::Cancelled;
                    self.settle = None;
                    Some(JobProgress::Cancel)
                } else if self.settle.is_some() {
                    self.settle_job()
                } else if self.next_job < self.plan.len() {
                    self.run_job()
                } else {
                    self.finish()
                }
            },
            Phase::Finished => {
                self.phase = Phase::Done;
                Some(JobProgress::Done)
            },
            Phase::Done => None,
            Phase::Cancelled => None,
        }
    }

    /// Runs the next job of the plan.
    fn run_job(&mut self) -> (msg: Option<JobProgress>)
        requires
            old(self).wf(),
            old(self).settling() is None,
            old(self).phase() == Phase::Running,
            old(self).jobs_done() < old(self).jobs().len(),
        ensures
            final(self).wf(),
            final(self).width() == old(self).width(),
            final(self).comparators() == old(self).comparators(),
            final(self).jobs() == old(self).jobs(),
            final(self).phase() == Phase::Running,
            final(self).jobs_done() == old(self).jobs_done() + 1,
            job_step_effect(
                old(self).jobs()[old(self).jobs_done() as int],
                old(self).state_sets(),
                old(self).used(),
                final(self).state_sets(),
                final(self).used(),
                msg,
                final(self).settling(),
            ),
            forall|c: int| 0 <= c < old(self).used().len() && #[trigger] old(self).used()[c] ==> final(self).used()[c],
            job_progress(old(self).progress(), final(self).progress(), old(self).jobs()[old(self).jobs_done() as int],
                old(self).comparators().len() as int, msg),
            final(self).progress() == plan_ceis(final(self).jobs().take(final(self).jobs_done() as int)).len(),
    {
        let is_cmp = match &self.plan[self.next_job] {
            VerifyJob::Cmp { .. } => true,
            VerifyJob::Combine { .. } => false,
        };
        if is_cmp {
            self.run_cmp_job()
        } else {
            self.run_combine_job()
        }
    }

    /// Runs the next job, a comparator job.
    #[verifier::rlimit(100)]
    fn run_cmp_job(&mut self) -> (msg: Option<JobProgress>)
        requires
            old(self).wf(),
            old(self).phase() == Phase::Running,
            old(self).jobs_done() < old(self).jobs().len(),
            old(self).jobs()[old(self).jobs_done() as int] is Cmp,
            old(self).settling() is None,
        ensures
            final(self).wf(),
            final(self).width() == old(self).width(),
            final(self).comparators() == old(self).comparators(),
            final(self).jobs() == old(self).jobs(),
            final(self).phase() == Phase::Running,
            final(self).jobs_done() == old(self).jobs_done() + 1,
            scan_effect(
                old(self).jobs()[old(self).jobs_done() as int],
                old(self).state_sets(),
                old(self).used(),
                final(self).state_sets(),
                final(self).used(),
            ),
            msg is None,
            final(self).settling() == Some(old(self).jobs()[old(self).jobs_done() as int]->Cmp_root),
            forall|c: int| 0 <= c < old(self).used().len() && #[trigger] old(self).used()[c] ==> final(self).used()[c],
            job_progress(old(self).progress(), final(self).progress(), old(self).jobs()[old(self).jobs_done() as int],
                old(self).comparators().len() as int, msg),
            final(self).progress() == plan_ceis(final(self).jobs().take(final(self).jobs_done() as int)).len(),
    {
        let j = self.next_job;
        let n = self.n;
        let plan_len = self.plan.len();
        let ghost part = self.part();
        let ghost plan = self.plan@;
        let ghost old_states = self.states@;
        let ghost old_used = self.result.used@;
        proof {
            lemma_job_prefix(n as int, self.cmp@, plan, j as int);
        }
        let VerifyJob::Cmp { root, cmp_part } = &self.plan[j] else {
            return None;
        };
        let root = *root;
        proof {
            lemma_cmp_entries_ok(n as int, self.cmp@, part, plan[j as int]);
        }
        let pre_len = self.states[root].len();
        let count = cmp_part.len();
        let new_states = scan_cmp_job(&self.states[root], cmp_part, &mut self.result.used);
        let new_len = new_states.len();
        proof {
            lemma_cmp_keeps_states(n as int, part, old_states, root as int, new_states, cmp_part@);
            lemma_job_entries(n as int, self.cmp@, plan, j as int);
            reveal(states_wf);
            lemma_sem_cmp_step(n as int, self.cmp@, applied_of(plan, j as int), part, old_states, root as int, cmp_part@, new_states);
        }
        proof {
            lemma_used_step(n as int, self.cmp@, plan, j as int, old_states, old_used, self.result.used@);
        }
        self.states.set(root, new_states);
        self.result.progress = self.result.progress + count as u64;
        self.next_job = j + 1;
        self.result.log = cmp_log(root, pre_len, new_len, count);
        self.settle = Some(root);
        proof {
            assert(self.part() == part);
            assert(job_ceis(plan[j as int]).len() == count);
            assert forall|c: int| 0 <= c < old_used.len() && #[trigger] old_used[c] implies self.result.used@[c] by {
                assert(used_set(old_used).contains(c));
                assert(used_set(self.result.used@).contains(c));
            }
        }
        None
    }

    /// Sorts the state set of the last comparator job and drops its repeats;
    /// emits the job's snapshot.
    fn settle_job(&mut self) -> (msg: Option<JobProgress>)
        requires
            old(self).wf(),
            old(self).settling() is Some,
        ensures
            final(self).wf(),
            final(self).width() == old(self).width(),
            final(self).comparators() == old(self).comparators(),
            final(self).jobs() == old(self).jobs(),
            final(self).phase() == Phase::Running,
            final(self).jobs_done() == old(self).jobs_done(),
            final(self).settling() is None,
            final(self).used() == old(self).used(),
            final(self).progress() == old(self).progress(),
            final(self).state_sets().len() == old(self).state_sets().len(),
            strictly_sorted(final(self).state_sets()[old(self).settling()->Some_0 as int]@),
            final(self).state_sets()[old(self).settling()->Some_0 as int]@.to_set() == old(self).state_sets()[old(self).settling()->Some_0 as int]@.to_set(),
            forall|r: int|
                0 <= r < old(self).state_sets().len() && r != old(self).settling()->Some_0 ==> #[trigger] final(self).state_sets()[r]@ == old(self).state_sets()[r]@,
            progress_msg(msg, final(self).used(), final(self).unsorted(), final(self).progress(),
                (old(self).comparators().len() + 1) as u64),
            match msg {
                Some(JobProgress::Progress(res)) => forall|i: int| 0 <= i < 64 ==> #[trigger] res.unsorted@[i] == 0,
                _ => false,
            },
    {
        let r = match self.settle {
            Some(r) => r,
            None => {
                return None;
            },
        };
        let settled = settle_states(&self.states[r]);
        proof {
            lemma_sem_same_set(self.n as int, self.cmp@, applied_of(self.plan@, self.next_job as int), self.part(),
                self.states@, r as int, settled);
        }
        self.states.set(r, settled);
        self.settle = None;
        Some(JobProgress::Progress(self.result.snapshot()))
    }

    /// Runs the next job, a combine job.
    #[verifier::rlimit(100)]
    fn run_combine_job(&mut self) -> (msg: Option<JobProgress>)
        requires
            old(self).wf(),
            old(self).phase() == Phase::Running,
            old(self).jobs_done() < old(self).jobs().len(),
            old(self).jobs()[old(self).jobs_done() as int] is Combine,
            old(self).settling() is None,
        ensures
            final(self).wf(),
            final(self).width() == old(self).width(),
            final(self).comparators() == old(self).comparators(),
            final(self).jobs() == old(self).jobs(),
            final(self).phase() == Phase::Running,
            final(self).jobs_done() == old(self).jobs_done() + 1,
            final(self).settling() is None,
            job_effect(
                old(self).jobs()[old(self).jobs_done() as int],
                old(self).state_sets(),
                old(self).used(),
                final(self).state_sets(),
                final(self).used(),
                msg,
            ),
            forall|c: int| 0 <= c < old(self).used().len() && #[trigger] old(self).used()[c] ==> final(self).used()[c],
            job_progress(old(self).progress(), final(self).progress(), old(self).jobs()[old(self).jobs_done() as int],
                old(self).comparators().len() as int, msg),
            final(self).progress() == plan_ceis(final(self).jobs().take(final(self).jobs_done() as int)).len(),
    {
        let j = self.next_job;
        let n = self.n;
        let plan_len = self.plan.len();
        let ghost part = self.part();
        let ghost plan = self.plan@;
        let ghost old_states = self.states@;
        let ghost old_used = self.result.used@;
        proof {
            lemma_job_prefix(n as int, self.cmp@, plan, j as int);
        }
        let VerifyJob::Combine { root_master, root_slave } = &self.plan[j] else {
            return None;
        };
        let master = *root_master;
        let slave = *root_slave;
        proof {
            lemma_disjoint_supports(n as int, part, old_states, master as int, slave as int);
        }
        let master_len = self.states[master].len();
        let slave_len = self.states[slave].len();
        let united = combine_states(&self.states[master], &self.states[slave]);
        let united_len = united.len();
        let empty: Vec<StatePair> = Vec::new();
        proof {
            lemma_combine_keeps_states(n as int, part, old_states, master as int, slave as int, united, empty);
            lemma_job_entries(n as int, self.cmp@, plan, j as int);
            reveal(states_wf);
            lemma_sem_combine_step(n as int, self.cmp@, applied_of(plan, j as int), part, old_states, master as int, slave as int, united, empty);
        }
        self.states.set(master, united);
        self.states.set(slave, empty);
        self.next_job = j + 1;
        proof {
            assert(self.part() == merge_classes(part, master as int, slave as int, master as int));
            assert(job_ceis(plan[j as int]) =~= Seq::<usize>::empty());
            assert(plan_ceis(plan.take(j + 1)) =~= plan_ceis(plan.take(j as int)));
        }
        self.result.log = combine_log(master, slave, master_len, slave_len, united_len);
        Some(JobProgress::Log(combine_log(master, slave, master_len, slave_len, united_len)))
    }

    /// Reads the findings off the final state sets.
    #[verifier::rlimit(50)]
    fn finish(&mut self) -> (msg: Option<JobProgress>)
        requires
            old(self).settling() is None,
            old(self).wf(),
            old(self).phase() == Phase::Running,
            old(self).jobs_done() == old(self).jobs().len(),
        ensures
            final(self).wf(),
            final(self).width() == old(self).width(),
            final(self).comparators() == old(self).comparators(),
            final(self).jobs() == old(self).jobs(),
            final(self).phase() == Phase::Finished,
            final(self).state_sets() == old(self).state_sets(),
            final(self).used() == old(self).used(),
            forall|i: int, j: int| 0 <= i < 64 && 0 <= j < 64 ==> (#[trigger] bit(final(self).unsorted()[i], j)
                <==> network_unsorted(old(self).state_sets(), old(self).width() as int, i, j)),
            progress_msg(msg, final(self).used(), final(self).unsorted(),
                (old(self).comparators().len() + 1) as u64, (old(self).comparators().len() + 1) as u64),
    {
        let n = self.n;
        let full = full_mask(n);
        let mut unsorted: [u64; 64] = self.result.unsorted;
        let mut r: usize = 0;
        proof {
            assert forall|i: int, j: int| 0 <= i < 64 && 0 <= j < 64 implies (#[trigger] bit(unsorted@[i], j)
                <==> network_unsorted(self.states@.take(0), n as int, i, j)) by {
                lemma_bit_zero(j);
            }
        }
        while r < n
            invariant
                r <= n,
                n == self.n,
                full == low_mask(n as int),
                self.states@.len() == n,
                forall|i: int, j: int| 0 <= i < 64 && 0 <= j < 64 ==> (#[trigger] bit(unsorted@[i], j)
                    <==> network_unsorted(self.states@.take(r as int), n as int, i, j)),
            decreases n - r,
        {
            let s = &self.states[r];
            let q: u64 = if s.len() > 0 { s[0].0 | s[0].1 } else { 0 };
            let nq = full ^ q;
            let corners: Vec<StatePair> = vec![(q, nq), (nq, q)];
            let ghost u0 = unsorted@;
            check_unsorted(&mut unsorted, corners.as_slice());
            let ghost u1 = unsorted@;
            check_unsorted(&mut unsorted, s.as_slice());
            proof {
                let t0 = self.states@.take(r as int);
                let t1 = self.states@.take(r + 1);
                assert(corners@ =~= corner_pairs(s@, n as int));
                assert forall|i: int, j: int| 0 <= i < 64 && 0 <= j < 64 implies (#[trigger] bit(unsorted@[i], j)
                    <==> network_unsorted(t1, n as int, i, j)) by {
                    assert(t1[r as int] == self.states@[r as int]);
                    if network_unsorted(t0, n as int, i, j) {
                        let w = choose|w: int| 0 <= w < t0.len() && (unsorted_in(corner_pairs((#[trigger] t0[w])@, n as int), i, j)
                            || unsorted_in(t0[w]@, i, j));
                        assert(t1[w] == t0[w]);
                    }
                    if network_unsorted(t1, n as int, i, j) {
                        let w = choose|w: int| 0 <= w < t1.len() && (unsorted_in(corner_pairs((#[trigger] t1[w])@, n as int), i, j)
                            || unsorted_in(t1[w]@, i, j));
                        if w < r {
                            assert(t0[w] == t1[w]);
                        }
                    }
                }
            }
            r += 1;
        }
        proof {
            assert(self.states@.take(n as int) =~= self.states@);
        }
        self.result.unsorted = unsorted;
        self.result.progress = self.result.progress_all;
        self.phase = Phase::Finished;
        let unused = count_unused(&self.result.used);
        self.result.log = finish_log(self.result.progress, self.result.progress_all, unused, self.cmp.len());
        Some(JobProgress::Progress(self.result.snapshot()))
    }

    /// A network that does not sort leaves some adjacent pair of wires out of order.
    pub proof fn lemma_adjacent_witness(&self)
        requires
            self.wf(),
            self.phase() is Done || self.phase() is Finished,
            !all_sorted(self.unsorted()),
        ensures
            exists|i: int| 0 <= i && i + 1 < self.width() && #[trigger] bit(self.unsorted()[i], i + 1),
    {
        let n = self.n as int;
        let cmp = self.cmp@;
        self.lemma_verdict();
        let i = choose|i: int| 0 <= i < 64 && #[trigger] self.unsorted()[i] != 0;
        assert(exists|j: int| 0 <= j < 64 && #[trigger] bit(self.unsorted()[i], j)) by {
            if forall|j: int| 0 <= j < 64 ==> !#[trigger] bit(self.unsorted()[i], j) {
                assert forall|j: int| 0 <= j < 64 implies #[trigger] bit(self.unsorted()[i], j) == bit(0u64, j) by {
                    crate::bits::lemma_bit_zero(j);
                }
                lemma_bits_ext(self.unsorted()[i], 0u64);
            }
        }
        let j = choose|j: int| 0 <= j < 64 && #[trigger] bit(self.unsorted()[i], j);
        assert(out_of_order(n, cmp, i, j));
        let x = choose|x: u64| is_input(x, n) && bit(#[trigger] network_out(x, cmp), i) && !bit(network_out(x, cmp), j);
        let k = lemma_adjacent_drop(network_out(x, cmp), i, j);
        assert(out_of_order(n, cmp, k, k + 1));
        assert(bit(self.unsorted()[k], k + 1));
    }

    /// The verdict of a finished run: bit `j` of `unsorted[i]` is set exactly
    /// when some input makes the network put 1 on wire `i < j` and 0 on wire
    /// `j`, and the map is all zero exactly when the network sorts every input.
    pub proof fn lemma_verdict(&self)
        requires
            self.wf(),
            self.phase() is Done || self.phase() is Finished,
        ensures
            forall|i: int, j: int|
                0 <= i < 64 && 0 <= j < 64 ==> (#[trigger] bit(self.unsorted()[i], j) <==> (i < j < self.width()
                    && out_of_order(self.width() as int, self.comparators(), i, j))),
            all_sorted(self.unsorted()) <==> sorts_all_inputs(self.width() as int, self.comparators()),
    {
        let n = self.n as int;
        let cmp = self.cmp@;
        let plan = self.plan@;
        let a = applied_of(plan, plan.len() as int);
        assert(plan.take(plan.len() as int) =~= plan);
        assert forall|c: int| 0 <= c < cmp.len() implies #[trigger] a.contains(c) by {
            reveal(plan_wf);
            assert(plan_ceis(plan).contains(c as usize));
        }
        assert forall|i: int, j: int|
            0 <= i < 64 && 0 <= j < 64 implies (#[trigger] bit(self.unsorted()[i], j) <==> (i < j < n
                && out_of_order(n, cmp, i, j))) by {
            if bit(self.unsorted()[i], j) {
                lemma_sem_range(self.states@, n, self.part(), i, j);
            }
            if i < j < n {
                lemma_sem_final(n, cmp, a, self.part(), self.states@, i, j);
            }
        }
        if sorts_all_inputs(n, cmp) {
            assert forall|i: int| 0 <= i < 64 implies #[trigger] self.unsorted()[i] == 0 by {
                assert forall|j: int| 0 <= j < 64 implies #[trigger] bit(self.unsorted()[i], j) == bit(0u64, j) by {
                    crate::bits::lemma_bit_zero(j);
                    if i < j < n {
                        assert(!out_of_order(n, cmp, i, j));
                    }
                }
                lemma_bits_ext(self.unsorted()[i], 0u64);
            }
        }
        if all_sorted(self.unsorted()) {
            assert forall|i: int, j: int| 0 <= i < j < n implies !#[trigger] out_of_order(n, cmp, i, j) by {
                assert(self.unsorted()[i] == 0);
                crate::bits::lemma_bit_zero(j);
            }
        }
    }

    /// After a finished run, comparator `c` is marked used exactly when it
    /// swaps, for some input, on what reaches it in the network; an unused
    /// comparator can be dropped without changing the output on any input,
    /// and so without changing the verdict.
    pub proof fn lemma_unused_redundant(&self, c: int)
        requires
            self.wf(),
            self.phase() is Done || self.phase() is Finished,
            0 <= c < self.comparators().len(),
        ensures
            self.used()[c] <==> swaps_somewhere(self.width() as int, self.comparators(), c),
            !self.used()[c] ==> forall|x: u64|
                is_input(x, self.width() as int) ==> #[trigger] run_set(
                    x,
                    self.comparators(),
                    all_comparators(self.comparators().len() as int).remove(c),
                    self.comparators().len() as int,
                ) == network_out(x, self.comparators()),
            !self.used()[c] ==> (sorts_all_inputs(self.width() as int, self.comparators()) <==> sorts_with(
                self.width() as int,
                self.comparators(),
                all_comparators(self.comparators().len() as int).remove(c),
            )),
    {
        let n = self.n as int;
        let cmp = self.cmp@;
        let plan = self.plan@;
        assert(plan.take(plan.len() as int) =~= plan);
        assert(applied_of(plan, plan.len() as int).contains(c)) by {
            reveal(plan_wf);
            assert(plan_ceis(plan).contains(c as usize));
        }
        assert(self.result.used@[c] <==> swaps_somewhere(n, cmp, c));
        if !self.result.used@[c] {
            assert(wires_ok(cmp)) by {
                assert forall|q: int| 0 <= q < cmp.len() implies (#[trigger] cmp[q]).0 < cmp[q].1 && cmp[q].1 < 64 by {}
            }
            assert forall|x: u64| is_input(x, n) implies #[trigger] run_set(x, cmp, all_comparators(cmp.len() as int).remove(c),
                cmp.len() as int) == network_out(x, cmp) by {
                lemma_drop_unused(n, cmp, c, x);
            }
            lemma_same_outputs_same_verdict(n, cmp, all_comparators(cmp.len() as int).remove(c));
        }
    }

    /// Once finished, the unsorted map marks exactly the out-of-order pairs of
    /// the final state sets.
    pub proof fn lemma_done_unsorted(&self)
        requires
            self.wf(),
            self.phase() is Done || self.phase() is Finished,
        ensures
            forall|i: int, j: int|
                0 <= i < 64 && 0 <= j < 64 ==> (#[trigger] bit(self.unsorted()[i], j) <==> network_unsorted(
                    self.state_sets(),
                    self.width() as int,
                    i,
                    j,
                )),
    {
    }

    /// Steps until `Done`, with no cancellation.
    pub fn run_to_completion(&mut self)
        requires
            old(self).wf(),
            !(old(self).phase() is Cancelled),
        ensures
            final(self).wf(),
            final(self).phase() is Done,
            final(self).width() == old(self).width(),
            final(self).comparators() == old(self).comparators(),
            final(self).jobs() == old(self).jobs(),
    {
        loop
            invariant
                self.wf(),
                !(self.phase() is Cancelled),
                self.width() == old(self).width(),
                self.comparators() == old(self).comparators(),
                self.jobs() == old(self).jobs(),
            ensures
                self.phase() is Done,
            decreases self.remaining(),
        {
            if let Phase::Done = self.phase_now() {
                break;
            }
            let _ = self.step(false);
        }
    }

    /// A snapshot of the findings so far.
    pub fn result(&self) -> (r: JobResult)
        ensures
            r.used@ == self.used(),
            r.unsorted@ == self.unsorted(),
            r.progress == self.progress(),
    {
        self.result.snapshot()
    }
}


/// Verifies the network with `n` wires and comparators `cmp` to the end.
pub fn verify_network(n: usize, cmp: Vec<(usize, usize)>) -> (r: Verifier)
    requires
        valid_network(n as int, cmp@),
        cmp@.len() < u64::MAX,
    ensures
        r.wf(),
        r.phase() is Done,
        r.width() == n,
        r.comparators() == cmp@,
        r.progress() == cmp@.len() + 1,
        forall|i: int, j: int|
            0 <= i < 64 && 0 <= j < 64 ==> (#[trigger] bit(r.unsorted()[i], j) <==> network_unsorted(
                r.state_sets(),
                n as int,
                i,
                j,
            )),
        forall|i: int, j: int|
            0 <= i < 64 && 0 <= j < 64 ==> (#[trigger] bit(r.unsorted()[i], j) <==> (i < j < n && out_of_order(
                n as int,
                cmp@,
                i,
                j,
            ))),
        all_sorted(r.unsorted()) <==> sorts_all_inputs(n as int, cmp@),
        !all_sorted(r.unsorted()) ==> exists|i: int| 0 <= i && i + 1 < n && #[trigger] bit(r.unsorted()[i], i + 1),
        r.used().len() == cmp@.len(),
        forall|c: int| 0 <= c < cmp@.len() ==> (#[trigger] r.used()[c] <==> swaps_somewhere(n as int, cmp@, c)),
{
    let mut v = Verifier::new(n, cmp);
    v.run_to_completion();
    proof {
        reveal(plan_wf);
        v.lemma_done_unsorted();
        v.lemma_verdict();
        if !all_sorted(v.unsorted()) {
            v.lemma_adjacent_witness();
        }
        assert forall|c: int| 0 <= c < cmp@.len() implies (#[trigger] v.used()[c] <==> swaps_somewhere(n as int, cmp@, c)) by {
            v.lemma_unused_redundant(c);
        }
    }
    v
}

} // verus!
