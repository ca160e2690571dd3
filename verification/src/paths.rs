//! Paths that lead upward in the graph, from a package to those that
//! require it, and what it means that the graph has no cycle.

use crate::dep_tree::DepVersionView;
use crate::Package;
use vstd::prelude::*;

verus! {

/// Each package of the path is a node, and each but the last is required
/// by the one that follows it.
pub open spec fn up_path(nodes: Map<Package, DepVersionView>, path: Seq<Package>) -> bool {
    &&& path.len() > 0
    &&& forall|i: int| 0 <= i < path.len() ==> nodes.contains_key(#[trigger] path[i])
    &&& forall|i: int|
        0 <= i < path.len() - 1 ==> nodes[#[trigger] path[i]].dependents.contains(path[i + 1])
}

/// A path of at least one edge leads upward from `from` to `to`: `to`
/// requires `from`, directly or through other packages.
pub open spec fn reaches(nodes: Map<Package, DepVersionView>, from: Package, to: Package) -> bool {
    exists|path: Seq<Package>|
        #[trigger] up_path(nodes, path) && path.len() >= 2 && path.first() == from && path.last()
            == to
}

/// The rank falls along every edge that leads upward.
pub open spec fn ranked(nodes: Map<Package, DepVersionView>, rank: Map<Package, nat>) -> bool {
    forall|p: Package, q: Package|
        nodes.contains_key(p) && #[trigger] nodes[p].dependents.contains(q) ==> rank[q] < rank[p]
}

/// No package requires itself, directly or through other packages.
pub open spec fn acyclic(nodes: Map<Package, DepVersionView>) -> bool {
    exists|rank: Map<Package, nat>| ranked(nodes, rank)
}

/// An edge upward from `from`, followed by a path from its end to `to`
/// where the two differ, is a path from `from` to `to`.
pub proof fn lemma_reaches_extend(
    nodes: Map<Package, DepVersionView>,
    from: Package,
    next: Package,
    to: Package,
)
    requires
        nodes.contains_key(from),
        nodes.contains_key(next),
        nodes[from].dependents.contains(next),
        next == to || reaches(nodes, next, to),
    ensures
        reaches(nodes, from, to),
{
    if next == to {
        let path = seq![from, to];
        assert(up_path(nodes, path));
        assert(path.first() == from && path.last() == to);
    } else {
        let rest = choose|path: Seq<Package>|
            #[trigger] up_path(nodes, path) && path.len() >= 2 && path.first() == next
                && path.last() == to;
        let path = seq![from] + rest;
        assert forall|i: int| 0 <= i < path.len() implies nodes.contains_key(
            #[trigger] path[i],
        ) by {
            if i > 0 {
                assert(path[i] == rest[i - 1]);
            }
        }
        assert forall|i: int| 0 <= i < path.len() - 1 implies nodes[#[trigger] path[i]].dependents.contains(
            path[i + 1],
        ) by {
            if i > 0 {
                assert(path[i] == rest[i - 1]);
                assert(path[i + 1] == rest[i]);
            } else {
                assert(path[1] == rest[0]);
            }
        }
        assert(up_path(nodes, path));
        assert(path.first() == from && path.last() == rest.last());
    }
}

/// A path from `from` to `to`, followed by an edge upward from `to`, is a
/// path from `from` to the end of that edge.
pub proof fn lemma_reaches_then(
    nodes: Map<Package, DepVersionView>,
    from: Package,
    to: Package,
    next: Package,
)
    requires
        reaches(nodes, from, to),
        nodes.contains_key(next),
        nodes[to].dependents.contains(next),
    ensures
        reaches(nodes, from, next),
{
    let path = choose|path: Seq<Package>|
        #[trigger] up_path(nodes, path) && path.len() >= 2 && path.first() == from && path.last()
            == to;
    let longer = path.push(next);
    assert forall|i: int| 0 <= i < longer.len() implies nodes.contains_key(
        #[trigger] longer[i],
    ) by {
        if i < path.len() {
            assert(longer[i] == path[i]);
        }
    }
    assert forall|i: int| 0 <= i < longer.len() - 1 implies nodes[#[trigger] longer[i]].dependents.contains(
        longer[i + 1],
    ) by {
        assert(longer[i] == path[i]);
        if i < path.len() - 1 {
            assert(longer[i + 1] == path[i + 1]);
        }
    }
    assert(up_path(nodes, longer));
    assert(longer.first() == from && longer.last() == next);
}

/// A path from `from` to `to` starts with an edge to a package that is
/// `to` or from which a path leads on to `to`.
pub proof fn lemma_reaches_first(
    nodes: Map<Package, DepVersionView>,
    from: Package,
    to: Package,
) -> (next: Package)
    requires
        reaches(nodes, from, to),
    ensures
        nodes.contains_key(from),
        nodes.contains_key(next),
        nodes.contains_key(to),
        nodes[from].dependents.contains(next),
        next == to || reaches(nodes, next, to),
{
    let path = choose|path: Seq<Package>|
        #[trigger] up_path(nodes, path) && path.len() >= 2 && path.first() == from && path.last()
            == to;
    let next = path[1];
    assert(nodes.contains_key(path[0]) && nodes.contains_key(path[1]));
    assert(nodes.contains_key(path[path.len() - 1]));
    assert(nodes[path[0]].dependents.contains(path[1]));
    if path.len() > 2 {
        let rest = path.skip(1);
        assert forall|i: int| 0 <= i < rest.len() implies nodes.contains_key(
            #[trigger] rest[i],
        ) by {
            assert(rest[i] == path[i + 1]);
        }
        assert forall|i: int| 0 <= i < rest.len() - 1 implies nodes[#[trigger] rest[i]].dependents.contains(
            rest[i + 1],
        ) by {
            assert(rest[i] == path[i + 1]);
            assert(nodes[path[i + 1]].dependents.contains(path[i + 1 + 1]));
        }
        assert(up_path(nodes, rest));
        assert(rest.first() == next && rest.last() == to);
    }
    next
}

/// The rank falls along every path.
pub proof fn lemma_path_rank(
    nodes: Map<Package, DepVersionView>,
    rank: Map<Package, nat>,
    path: Seq<Package>,
)
    requires
        ranked(nodes, rank),
        up_path(nodes, path),
    ensures
        rank[path.last()] + path.len() - 1 <= rank[path.first()],
    decreases path.len(),
{
    if path.len() > 1 {
        let front = path.drop_last();
        assert forall|i: int| 0 <= i < front.len() implies nodes.contains_key(
            #[trigger] front[i],
        ) by {
            assert(front[i] == path[i]);
        }
        assert forall|i: int| 0 <= i < front.len() - 1 implies nodes[#[trigger] front[i]].dependents.contains(
            front[i + 1],
        ) by {
            assert(front[i] == path[i]);
            assert(nodes[path[i]].dependents.contains(path[i + 1]));
        }
        lemma_path_rank(nodes, rank, front);
        let k = path.len() - 2;
        assert(nodes.contains_key(path[k]));
        assert(nodes[path[k]].dependents.contains(path[k + 1]));
        assert(front.last() == path[k]);
    }
}

/// In a graph without a cycle no path leads from a package to itself.
pub proof fn lemma_no_loop(nodes: Map<Package, DepVersionView>, p: Package)
    requires
        acyclic(nodes),
    ensures
        !reaches(nodes, p, p),
{
    if reaches(nodes, p, p) {
        let rank = choose|rank: Map<Package, nat>| ranked(nodes, rank);
        let path = choose|path: Seq<Package>|
            #[trigger] up_path(nodes, path) && path.len() >= 2 && path.first() == p && path.last()
                == p;
        lemma_path_rank(nodes, rank, path);
    }
}

} // verus!
