//! Whether the graph has a cycle.

use crate::dep_tree::{DepVersionView, Deps};
use crate::paths::{acyclic, ranked};
use crate::pkg_set::{
    packages, set_contains, set_get, set_insert, set_len, set_new, PackageSet,
};
use crate::Package;
use vstd::prelude::*;

verus! {

/// Every package that is placed has its dependents placed, each with a
/// smaller rank, and no rank reaches the number of those placed.
spec fn placed_in_order(
    nodes: Map<Package, DepVersionView>,
    placed: Seq<Package>,
    rank: Map<Package, nat>,
) -> bool {
    &&& forall|p: Package| #[trigger] placed.contains(p) ==> nodes.contains_key(p) && rank[p]
        < placed.len()
    &&& forall|p: Package, q: Package|
        placed.contains(p) && #[trigger] nodes[p].dependents.contains(q) ==> placed.contains(q)
            && rank[q] < rank[p]
}

/// The node is not placed, and neither is one of its dependents.
spec fn held_back(
    nodes: Map<Package, DepVersionView>,
    placed: Seq<Package>,
    p: Package,
) -> bool {
    exists|q: Package| #[trigger] nodes[p].dependents.contains(q) && !placed.contains(q)
}

/// Every node that is not placed waits for a dependent that is not placed.
spec fn stuck(nodes: Map<Package, DepVersionView>, placed: Seq<Package>) -> bool {
    forall|p: Package|
        nodes.contains_key(p) && !placed.contains(p) ==> #[trigger] held_back(nodes, placed, p)
}

/// Where every node that is not placed waits for another such node, and
/// there is one, no ranks fall along the edges.
proof fn lemma_stuck_unranked(
    nodes: Map<Package, DepVersionView>,
    placed: Seq<Package>,
    rank: Map<Package, nat>,
    p: Package,
    bound: nat,
)
    requires
        forall|a: Package, b: Package|
            nodes.contains_key(a) && #[trigger] nodes[a].dependents.contains(b)
                ==> nodes.contains_key(b),
        stuck(nodes, placed),
        nodes.contains_key(p),
        !placed.contains(p),
        rank[p] <= bound,
    ensures
        !ranked(nodes, rank),
    decreases bound,
{
    assert(held_back(nodes, placed, p));
    let q = choose|q: Package| #[trigger] nodes[p].dependents.contains(q) && !placed.contains(q);
    if ranked(nodes, rank) {
        assert(rank[q] < rank[p]);
        lemma_stuck_unranked(nodes, placed, rank, q, (bound - 1) as nat);
    }
}

/// A sequence without a repeat whose items are all among those of another
/// is not the longer one, and where they are of one length the other's
/// items are all among its own.
proof fn lemma_within(part: Seq<Package>, whole: Seq<Package>)
    requires
        part.no_duplicates(),
        whole.no_duplicates(),
        forall|p: Package| #[trigger] part.contains(p) ==> whole.contains(p),
    ensures
        part.len() <= whole.len(),
        part.len() == whole.len() ==> forall|p: Package| #[trigger]
            whole.contains(p) ==> part.contains(p),
{
    broadcast use vstd::seq_lib::seq_to_set_is_finite;

    part.unique_seq_to_set();
    whole.unique_seq_to_set();
    assert(part.to_set().subset_of(whole.to_set()));
    vstd::set_lib::lemma_len_subset(part.to_set(), whole.to_set());
    if part.len() == whole.len() {
        vstd::set_lib::lemma_subset_equality(part.to_set(), whole.to_set());
        assert forall|p: Package| #[trigger] whole.contains(p) implies part.contains(p) by {
            assert(whole.to_set().contains(p));
            assert(part.to_set().contains(p));
        }
    }
}

/// Whether each item of the set is placed.
fn all_placed(set: &PackageSet, placed: &PackageSet) -> (b: bool)
    ensures
        b == forall|q: Package| #[trigger]
            packages(*set).contains(q) ==> packages(*placed).contains(q),
{
    let n = set_len(set);
    let mut i: usize = 0;
    while i < n
        invariant
            n == packages(*set).len(),
            i <= n,
            forall|k: int| 0 <= k < i ==> packages(*placed).contains(#[trigger] packages(*set)[k]),
        decreases n - i,
    {
        let q = set_get(set, i);
        if !set_contains(placed, &q) {
            assert(packages(*set).contains(q));
            return false;
        }
        i += 1;
    }
    assert forall|q: Package| #[trigger] packages(*set).contains(q) implies packages(
        *placed,
    ).contains(q) by {
        let k = packages(*set).index_of(q);
        assert(packages(*set)[k] == q);
    }
    true
}

impl Deps {
    /// Whether no package requires itself, directly or through other
    /// packages.
    ///
    /// Places, round after round, each node whose dependents are all
    /// placed, until a round places none. A cycle keeps its nodes from
    /// being placed.
    pub fn is_acyclic(&self) -> (b: bool)
        requires
            self.wf(),
        ensures
            b == acyclic(self@),
    {
        let n = self.len();
        let mut placed = set_new();
        let ghost mut rank: Map<Package, nat> = Map::empty();
        let mut progress = true;
        proof {
            lemma_within(packages(placed), self.order());
        }
        while progress
            invariant
                self.wf(),
                n == self.order().len(),
                packages(placed).no_duplicates(),
                packages(placed).len() <= n,
                placed_in_order(self@, packages(placed), rank),
                !progress ==> stuck(self@, packages(placed)),
            decreases n - packages(placed).len() + if progress { 1int } else { 0int },
        {
            progress = false;
            let ghost round_start = packages(placed);
            let mut i: usize = 0;
            while i < n
                invariant
                    self.wf(),
                    n == self.order().len(),
                    i <= n,
                    packages(placed).no_duplicates(),
                    packages(placed).len() <= n,
                    placed_in_order(self@, packages(placed), rank),
                    !progress ==> packages(placed) == round_start,
                    !progress ==> forall|k: int|
                        0 <= k < i && !packages(placed).contains(#[trigger] self.order()[k])
                            ==> held_back(self@, packages(placed), self.order()[k]),
                    progress ==> packages(placed).len() > round_start.len(),
                    packages(placed).len() >= round_start.len(),
                decreases n - i,
            {
                let p = self.package_at(i);
                assert(self.order().contains(p));
                if !set_contains(&placed, &p) {
                    let node = self.node_at(i);
                    if all_placed(node.dependents(), &placed) {
                        let ghost before = packages(placed);
                        let ghost old_rank = rank;
                        let _ = set_insert(&mut placed, p);
                        proof {
                            rank = old_rank.insert(p, before.len());
                            let after = packages(placed);
                            assert(after[before.len() as int] == p);
                            assert forall|x: Package| after.contains(x) <==> before.contains(x)
                                || x == p by {
                                if before.contains(x) {
                                    let k = before.index_of(x);
                                    assert(after[k] == x);
                                }
                            }
                            assert forall|x: Package| #[trigger]
                                after.contains(x) implies self.order().contains(x) by {}
                            lemma_within(after, self.order());
                        }
                        progress = true;
                    }
                }
                i += 1;
            }
            proof {
                if !progress {
                    assert forall|x: Package|
                        self@.contains_key(x) && !packages(placed).contains(
                            x,
                        ) implies #[trigger] held_back(self@, packages(placed), x) by {
                        let k = self.order().index_of(x);
                        assert(self.order()[k] == x);
                    }
                }
            }
        }
        let all = set_len(&placed) == n;
        proof {
            if all {
                lemma_within(packages(placed), self.order());
                assert(ranked(self@, rank)) by {
                    assert forall|p: Package, q: Package|
                        self@.contains_key(p) && #[trigger] self@[p].dependents.contains(
                            q,
                        ) implies rank[q] < rank[p] by {
                        assert(self.order().contains(p));
                        assert(packages(placed).contains(p));
                    }
                }
            } else {
                if forall|x: Package| #[trigger]
                    self.order().contains(x) ==> packages(placed).contains(x) {
                    lemma_within(self.order(), packages(placed));
                }
                let x = choose|x: Package| #[trigger]
                    self.order().contains(x) && !packages(placed).contains(x);
                assert forall|other: Map<Package, nat>| !ranked(self@, other) by {
                    lemma_stuck_unranked(self@, packages(placed), other, x, other[x]);
                }
            }
        }
        all
    }
}

} // verus!
