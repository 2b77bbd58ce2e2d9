//! Disjoint-set union by size, with path compression.
use vstd::prelude::*;
use vstd::set_lib::{lemma_int_range, lemma_len_subset, lemma_set_disjoint_lens, set_int_range};

verus! {

/// The members of the class whose root is `r`, in a partition given as the
/// root of each node.
pub open spec fn class_of(part: Seq<int>, r: int) -> Set<int> {
    Set::new(|w: int| 0 <= w < part.len() && part[w] == r)
}

/// Each node names a root, and each root names itself.
pub open spec fn is_partition(part: Seq<int>) -> bool {
    forall|w: int|
        0 <= w < part.len() ==> 0 <= #[trigger] part[w] < part.len() && part[part[w]] == part[w]
}

/// The partition after the classes rooted at `r1` and `r2` have been merged
/// under the root `master` (one of the two).
pub open spec fn merge_classes(part: Seq<int>, r1: int, r2: int, master: int) -> Seq<int> {
    Seq::new(part.len(), |w: int| if part[w] == r1 || part[w] == r2 { master } else { part[w] })
}

/// The partition of `n` singletons.
pub open spec fn singletons(n: nat) -> Seq<int> {
    Seq::new(n, |w: int| w)
}

pub proof fn lemma_class_finite(part: Seq<int>, r: int)
    ensures
        class_of(part, r).finite(),
        class_of(part, r).len() <= part.len(),
{
    lemma_int_range(0, part.len() as int);
    assert(class_of(part, r).subset_of(set_int_range(0, part.len() as int)));
    lemma_len_subset(class_of(part, r), set_int_range(0, part.len() as int));
}

pub proof fn lemma_merge_is_partition(part: Seq<int>, r1: int, r2: int, master: int)
    requires
        is_partition(part),
        master == r1 || master == r2,
        0 <= r1 < part.len(),
        0 <= r2 < part.len(),
        part[r1] == r1,
        part[r2] == r2,
    ensures
        is_partition(merge_classes(part, r1, r2, master)),
{
}

#[derive(Clone, Copy)]
pub enum DsuBySizeElement {
    Size(usize),
    Parent(usize),
}

/// Disjoint-set union (union-find) by size.
///
/// Its view is the partition of the nodes, as the root of each node.
#[derive(Clone)]
pub struct DsuBySize {
    elems: Vec<DsuBySizeElement>,
    roots: Ghost<Seq<int>>,
    rank: Ghost<Seq<nat>>,
    ht: Ghost<Seq<nat>>,
}

/// `2^h`.
pub open spec fn pow2n(h: nat) -> nat
    decreases h,
{
    if h == 0 {
        1
    } else {
        2 * pow2n((h - 1) as nat)
    }
}

impl View for DsuBySize {
    type V = Seq<int>;

    closed spec fn view(&self) -> Seq<int> {
        self.roots@
    }
}

impl DsuBySize {
    pub closed spec fn wf(&self) -> bool {
        let n = self.elems@.len();
        &&& self.roots@.len() == n
        &&& self.rank@.len() == n
        &&& self.ht@.len() == n
        &&& is_partition(self.roots@)
        &&& forall|u: int|
            0 <= u < n ==> match #[trigger] self.elems@[u] {
                DsuBySizeElement::Size(s) => self.roots@[u] == u && s == class_of(
                    self.roots@,
                    u,
                ).len() && pow2n(self.ht@[u]) <= s,
                DsuBySizeElement::Parent(v) => v < n && self.roots@[v as int] == self.roots@[u]
                    && self.rank@[v as int] < self.rank@[u] && self.ht@[u] < self.ht@[v as int],
            }
        &&& forall|u: int|
            0 <= u < n && #[trigger] self.roots@[u] != u ==> self.rank@[self.roots@[u]]
                < self.rank@[u] && self.ht@[u] < self.ht@[self.roots@[u]]
    }

    /// The node that `u` links to; a root links to itself.
    pub closed spec fn parent_of(&self, u: int) -> int {
        match self.elems@[u] {
            DsuBySizeElement::Parent(v) => v as int,
            DsuBySizeElement::Size(_) => u,
        }
    }

    /// The node `k` links up from `u`.
    pub open spec fn ancestor(&self, u: int, k: nat) -> int
        decreases k,
    {
        if k == 0 {
            u
        } else {
            self.parent_of(self.ancestor(u, (k - 1) as nat))
        }
    }

    proof fn lemma_climb(&self, u: int, k: nat)
        requires
            self.wf(),
            0 <= u < self@.len(),
        ensures
            0 <= self.ancestor(u, k) < self@.len(),
            self@[self.ancestor(u, k)] == self@[u],
            self.ancestor(u, k) == self@[u] || self.ht@[self.ancestor(u, k)] >= self.ht@[u] + k,
        decreases k,
    {
        if k > 0 {
            self.lemma_climb(u, (k - 1) as nat);
            let a = self.ancestor(u, (k - 1) as nat);
            match self.elems@[a] {
                DsuBySizeElement::Parent(v) => {},
                DsuBySizeElement::Size(_) => {},
            }
        }
    }

    /// Union by size keeps trees shallow: every node reaches its root in at
    /// most `h` links, where the root's class has at least `2^h` nodes.
    pub proof fn lemma_height(&self, u: int)
        requires
            self.wf(),
            0 <= u < self@.len(),
        ensures
            exists|k: nat| pow2n(k) <= self.size_of(self@[u]) && #[trigger] self.ancestor(u, k) == self@[u],
    {
        let r = self@[u];
        let k = self.ht@[r];
        self.lemma_climb(u, k);
        assert(self.ancestor(u, k) == r);
        match self.elems@[r] {
            DsuBySizeElement::Size(s) => {},
            DsuBySizeElement::Parent(v) => {},
        }
    }

    pub closed spec fn rank_of(&self, u: int) -> nat {
        self.rank@[u]
    }

    /// The number of nodes in the class of the root `r`.
    pub open spec fn size_of(&self, r: int) -> nat {
        class_of(self@, r).len()
    }

    pub fn new(n: usize) -> (r: Self)
        ensures
            r.wf(),
            r@ == singletons(n as nat),
    {
        let mut elems: Vec<DsuBySizeElement> = Vec::new();
        let ghost part = singletons(n as nat);
        let mut i: usize = 0;
        while i < n
            invariant
                i <= n,
                elems@.len() == i,
                part == singletons(n as nat),
                forall|u: int| 0 <= u < i ==> #[trigger] elems@[u] == DsuBySizeElement::Size(1),
            decreases n - i,
        {
            elems.push(DsuBySizeElement::Size(1));
            i += 1;
        }
        let r = DsuBySize {
            elems,
            roots: Ghost(part),
            rank: Ghost(Seq::new(n as nat, |w: int| 0nat)),
            ht: Ghost(Seq::new(n as nat, |w: int| 0nat)),
        };
        assert forall|u: int| 0 <= u < n implies class_of(part, u).len() == 1 by {
            assert(class_of(part, u) =~= set![u]);
        }
        r
    }

    /// The number of nodes.
    pub fn len(&self) -> (r: usize)
        requires
            self.wf(),
        ensures
            r == self@.len(),
    {
        self.elems.len()
    }

    /// The root of `u` and the size of its class; compresses the path on the way.
    pub fn root_size(&mut self, u: usize) -> (r: (usize, usize))
        requires
            old(self).wf(),
            u < old(self)@.len(),
        ensures
            final(self).wf(),
            final(self)@ == old(self)@,
            r.0 == old(self)@[u as int],
            r.1 == old(self).size_of(r.0 as int),
        decreases old(self).rank_of(u as int),
    {
        match self.elems[u] {
            DsuBySizeElement::Size(size) => (u, size),
            DsuBySizeElement::Parent(v) => {
                let (root, size) = self.root_size(v);
                proof {
                    assert(self.roots@[u as int] != u as int);
                }
                self.elems.set(u, DsuBySizeElement::Parent(root));
                proof {
                    let n = self.elems@.len() as int;
                    assert forall|w: int| 0 <= w < n implies match #[trigger] self.elems@[w] {
                        DsuBySizeElement::Size(s) => self.roots@[w] == w && s == class_of(
                            self.roots@,
                            w,
                        ).len(),
                        DsuBySizeElement::Parent(p) => p < n && self.roots@[p as int]
                            == self.roots@[w] && self.rank@[p as int] < self.rank@[w],
                    } by {
                        if w == u as int {
                            assert(self.roots@[w] != w);
                        }
                    }
                }
                (root, size)
            },
        }
    }

    /// Merges the classes of `u` and `v`, the smaller under the root of the
    /// larger (under `u`'s root on a tie); false when they were one class.
    pub fn unite(&mut self, u: usize, v: usize) -> (r: bool)
        requires
            old(self).wf(),
            u < old(self)@.len(),
            v < old(self)@.len(),
        ensures
            final(self).wf(),
            r == (old(self)@[u as int] != old(self)@[v as int]),
            !r ==> final(self)@ == old(self)@,
            r ==> final(self)@ == merge_classes(
                old(self)@,
                old(self)@[u as int],
                old(self)@[v as int],
                if old(self).size_of(old(self)@[u as int]) < old(self).size_of(old(self)@[v as int]) {
                    old(self)@[v as int]
                } else {
                    old(self)@[u as int]
                },
            ),
    {
        let (u, size_u) = self.root_size(u);
        let (v, size_v) = self.root_size(v);
        if u == v {
            return false;
        }
        let n_nodes = self.elems.len();
        let ghost part = self.roots@;
        let ghost rank = self.rank@;
        let ghost ht = self.ht@;
        let ghost elems0 = self.elems@;
        let ghost n = part.len();
        proof {
            lemma_class_finite(part, u as int);
            lemma_class_finite(part, v as int);
            assert(class_of(part, u as int).disjoint(class_of(part, v as int)));
            lemma_set_disjoint_lens(class_of(part, u as int), class_of(part, v as int));
            let both = class_of(part, u as int) + class_of(part, v as int);
            lemma_int_range(0, n as int);
            assert(both.subset_of(set_int_range(0, n as int)));
            lemma_len_subset(both, set_int_range(0, n as int));
            assert(size_u + size_v <= n_nodes);
        }
        let (master, slave) = if size_u < size_v { (v, u) } else { (u, v) };
        let ghost new_part = merge_classes(part, u as int, v as int, master as int);
        let ghost new_rank = Seq::new(
            n,
            |w: int| if part[w] == slave as int { rank[w] + rank[master as int] + 1 } else { rank[w] },
        );
        self.elems.set(slave, DsuBySizeElement::Parent(master));
        self.elems.set(master, DsuBySizeElement::Size(size_u + size_v));
        let ghost hm = if ht[master as int] > ht[slave as int] { ht[master as int] } else { (ht[slave as int] + 1) as nat };
        let ghost new_ht = ht.update(master as int, hm);
        self.roots = Ghost(new_part);
        self.rank = Ghost(new_rank);
        self.ht = Ghost(new_ht);
        proof {
            assert(elems0[master as int] is Size && elems0[slave as int] is Size);
            let sm = if size_u < size_v { size_v } else { size_u };
            let ss = if size_u < size_v { size_u } else { size_v };
            assert(elems0[master as int] == DsuBySizeElement::Size(sm));
            assert(elems0[slave as int] == DsuBySizeElement::Size(ss));
            assert(pow2n(hm) <= size_u + size_v) by {
                if hm != ht[master as int] {
                    assert(pow2n(hm) == 2 * pow2n(ht[slave as int]));
                }
            }
            lemma_merge_is_partition(part, u as int, v as int, master as int);
            assert(class_of(new_part, master as int) =~= class_of(part, u as int) + class_of(
                part,
                v as int,
            ));
            assert forall|w: int| 0 <= w < n implies match #[trigger] self.elems@[w] {
                DsuBySizeElement::Size(s) => new_part[w] == w && s == class_of(new_part, w).len() && pow2n(new_ht[w]) <= s,
                DsuBySizeElement::Parent(p) => p < n && new_part[p as int] == new_part[w]
                    && new_rank[p as int] < new_rank[w] && new_ht[w] < new_ht[p as int],
            } by {
                assert(elems0[w] == self.elems@[w] || w == master as int || w == slave as int);
                if w != master as int && w != slave as int {
                    match self.elems@[w] {
                        DsuBySizeElement::Size(s) => {
                            assert(class_of(new_part, w) =~= class_of(part, w));
                        },
                        DsuBySizeElement::Parent(p) => {},
                    }
                }
            }
            assert forall|w: int| 0 <= w < n && #[trigger] new_part[w] != w implies new_rank[new_part[w]]
                < new_rank[w] && new_ht[w] < new_ht[new_part[w]] by {
                if part[w] == slave as int {
                } else if part[w] == master as int {
                } else {
                }
            }
        }
        true
    }

    pub fn root(&mut self, u: usize) -> (r: usize)
        requires
            old(self).wf(),
            u < old(self)@.len(),
        ensures
            final(self).wf(),
            final(self)@ == old(self)@,
            r == old(self)@[u as int],
    {
        self.root_size(u).0
    }

    pub fn size(&mut self, u: usize) -> (r: usize)
        requires
            old(self).wf(),
            u < old(self)@.len(),
        ensures
            final(self).wf(),
            final(self)@ == old(self)@,
            r == old(self).size_of(old(self)@[u as int]),
    {
        self.root_size(u).1
    }

    pub fn equiv(&mut self, u: usize, v: usize) -> (r: bool)
        requires
            old(self).wf(),
            u < old(self)@.len(),
            v < old(self)@.len(),
        ensures
            final(self).wf(),
            final(self)@ == old(self)@,
            r == (old(self)@[u as int] == old(self)@[v as int]),
    {
        self.root(u) == self.root(v)
    }
}

} // verus!
