//! The snapshot of a verification's findings, and the messages it emits.
use vstd::prelude::*;
use crate::bits::{bit, test_bit};
use vstd::seq_lib::lemma_seq_contains_after_push;

verus! {

/// What a verification has found so far.
#[derive(Clone, Debug)]
pub struct JobResult {
    /// Milliseconds since the verification began.
    pub time: u64,
    /// Comparators applied so far.
    pub progress: u64,
    /// The value `progress` reaches when the verification is complete.
    pub progress_all: u64,
    /// Whether comparator `k` swapped or branched on some reachable state.
    pub used: Vec<bool>,
    /// Bit `j` of `unsorted[i]`: some output has 1 at wire `i` and 0 at wire `j > i`.
    pub unsorted: [u64; 64],
    pub log: String,
}

/// A message of a running verification.
#[derive(Clone, Debug)]
pub enum JobProgress {
    Progress(JobResult),
    Log(String),
    Done,
    Cancel,
}

/// No output of the network is out of order.
pub open spec fn all_sorted(unsorted: Seq<u64>) -> bool {
    forall|i: int| 0 <= i < 64 ==> #[trigger] unsorted[i] == 0
}

pub open spec fn pair_lex_lt(p: (usize, usize), q: (usize, usize)) -> bool {
    p.0 < q.0 || (p.0 == q.0 && p.1 < q.1)
}

impl JobResult {
    /// The empty result for a network with the comparators `cmp`.
    pub fn new(cmp: &[(usize, usize)]) -> (r: Self)
        ensures
            r.time == 0,
            r.progress == 0,
            r.progress_all == u64::MAX,
            r.used@ == Seq::new(cmp@.len(), |k: int| false),
            forall|i: int| 0 <= i < 64 ==> #[trigger] r.unsorted@[i] == 0,
            r.log@ == Seq::<char>::empty(),
    {
        let mut used: Vec<bool> = Vec::new();
        let mut k: usize = 0;
        while k < cmp.len()
            invariant
                k <= cmp@.len(),
                used@ == Seq::new(k as nat, |x: int| false),
            decreases cmp@.len() - k,
        {
            used.push(false);
            k += 1;
            proof {
                assert(used@ =~= Seq::new(k as nat, |x: int| false));
            }
        }
        JobResult {
            time: 0,
            progress: 0,
            progress_all: u64::MAX,
            used,
            unsorted: [0u64; 64],
            log: String::new(),
        }
    }

    /// A copy of the result.
    pub fn snapshot(&self) -> (r: Self)
        ensures
            r.time == self.time,
            r.progress == self.progress,
            r.progress_all == self.progress_all,
            r.used@ == self.used@,
            r.unsorted@ == self.unsorted@,
            r.log@ == self.log@,
    {
        let mut used: Vec<bool> = Vec::new();
        let mut k: usize = 0;
        while k < self.used.len()
            invariant
                k <= self.used@.len(),
                used@ == self.used@.take(k as int),
            decreases self.used@.len() - k,
        {
            used.push(self.used[k]);
            k += 1;
            proof {
                assert(used@ =~= self.used@.take(k as int));
            }
        }
        proof {
            assert(self.used@.take(self.used@.len() as int) =~= self.used@);
        }
        JobResult {
            time: self.time,
            progress: self.progress,
            progress_all: self.progress_all,
            used,
            unsorted: self.unsorted,
            log: self.log.clone(),
        }
    }

    /// The comparators that never swapped or branched.
    pub fn get_unused(&self) -> (r: Vec<bool>)
        ensures
            r@.len() == self.used@.len(),
            forall|k: int| 0 <= k < r@.len() ==> #[trigger] r@[k] == !self.used@[k],
    {
        let mut r: Vec<bool> = Vec::new();
        let mut k: usize = 0;
        while k < self.used.len()
            invariant
                k <= self.used@.len(),
                r@.len() == k,
                forall|x: int| 0 <= x < k ==> #[trigger] r@[x] == !self.used@[x],
            decreases self.used@.len() - k,
        {
            r.push(!self.used[k]);
            k += 1;
        }
        r
    }

    /// Whether the network sorts: no pair of wires is ever out of order.
    pub fn is_sorting_network(&self) -> (r: bool)
        ensures
            r == all_sorted(self.unsorted@),
    {
        let mut i: usize = 0;
        while i < 64
            invariant
                i <= 64,
                forall|x: int| 0 <= x < i ==> #[trigger] self.unsorted@[x] == 0,
            decreases 64 - i,
        {
            if self.unsorted[i] != 0 {
                return false;
            }
            i += 1;
        }
        true
    }

    pub fn get_unsorted_bitmap(&self) -> (r: [u64; 64])
        ensures
            r@ == self.unsorted@,
    {
        self.unsorted
    }

    /// Every pair `(i, j)` of wires found out of order, in ascending order.
    pub fn get_unsorted_allpairs(&self) -> (r: Vec<(usize, usize)>)
        ensures
            forall|p: (usize, usize)|
                r@.contains(p) <==> (p.0 < 64 && p.1 < 64 && bit(self.unsorted@[p.0 as int], p.1 as int)),
            forall|x: int, y: int| 0 <= x < y < r@.len() ==> pair_lex_lt(#[trigger] r@[x], #[trigger] r@[y]),
    {
        let mut r: Vec<(usize, usize)> = Vec::new();
        let mut i: usize = 0;
        while i < 64
            invariant
                i <= 64,
                forall|p: (usize, usize)|
                    r@.contains(p) <==> (p.0 < i && p.1 < 64 && bit(self.unsorted@[p.0 as int], p.1 as int)),
                forall|x: int, y: int| 0 <= x < y < r@.len() ==> pair_lex_lt(#[trigger] r@[x], #[trigger] r@[y]),
                forall|x: int| 0 <= x < r@.len() ==> (#[trigger] r@[x]).0 < i,
            decreases 64 - i,
        {
            let z = self.unsorted[i];
            let mut j: usize = 0;
            while j < 64
                invariant
                    i < 64,
                    j <= 64,
                    z == self.unsorted@[i as int],
                    forall|p: (usize, usize)|
                        r@.contains(p) <==> ((p.0 < i && p.1 < 64 && bit(self.unsorted@[p.0 as int], p.1 as int))
                            || (p.0 == i && p.1 < j && bit(z, p.1 as int))),
                    forall|x: int, y: int| 0 <= x < y < r@.len() ==> pair_lex_lt(#[trigger] r@[x], #[trigger] r@[y]),
                    forall|x: int| 0 <= x < r@.len() ==> (#[trigger] r@[x]).0 < i || (r@[x].0 == i && r@[x].1 < j),
                decreases 64 - j,
            {
                let ghost r_before = r@;
                let bj = test_bit(z, j);
                if bj {
                    r.push((i, j));
                }
                proof {
                    assert forall|p: (usize, usize)|
                        r@.contains(p) <==> ((p.0 < i && p.1 < 64 && bit(self.unsorted@[p.0 as int], p.1 as int))
                            || (p.0 == i && p.1 < j + 1 && bit(z, p.1 as int))) by {
                        if bj {
                            lemma_seq_contains_after_push(r_before, (i, j), p);
                        } else {
                            assert(r@ == r_before);
                        }
                        assert(r_before.contains(p) <==> ((p.0 < i && p.1 < 64 && bit(self.unsorted@[p.0 as int], p.1 as int))
                            || (p.0 == i && p.1 < j && bit(z, p.1 as int))));
                    }
                }
                j += 1;
            }
            i += 1;
        }
        r
    }

    /// The wires `i` found out of order with wire `i + 1`, in ascending order.
    pub fn get_unsorted_adjacent(&self) -> (r: Vec<usize>)
        ensures
            forall|i: usize| r@.contains(i) <==> (i < 63 && bit(self.unsorted@[i as int], i + 1)),
            forall|x: int, y: int| 0 <= x < y < r@.len() ==> #[trigger] r@[x] < #[trigger] r@[y],
    {
        let mut r: Vec<usize> = Vec::new();
        let mut i: usize = 0;
        while i < 63
            invariant
                i <= 63,
                forall|q: usize| r@.contains(q) <==> (q < i && bit(self.unsorted@[q as int], q + 1)),
                forall|x: int, y: int| 0 <= x < y < r@.len() ==> #[trigger] r@[x] < #[trigger] r@[y],
                forall|x: int| 0 <= x < r@.len() ==> #[trigger] r@[x] < i,
            decreases 63 - i,
        {
            let ghost r_before = r@;
            let bi = test_bit(self.unsorted[i], i + 1);
            if bi {
                r.push(i);
            }
            proof {
                assert forall|q: usize| r@.contains(q) <==> (q < i + 1 && bit(self.unsorted@[q as int], q + 1)) by {
                    if bi {
                        lemma_seq_contains_after_push(r_before, i, q);
                    } else {
                        assert(r@ == r_before);
                    }
                    assert(r_before.contains(q) <==> (q < i && bit(self.unsorted@[q as int], q + 1)));
                }
            }
            i += 1;
        }
        r
    }
}

} // verus!
