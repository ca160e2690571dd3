//! What is kept of the paths that lead from a duplicate up to the top
//! level: the package that requires the duplicate, the top level package
//! that the path ends at, and, where the path is longer, the package just
//! before that one.

use crate::dep_tree::{DepVersionView, Deps};
use crate::paths::{acyclic, ranked, up_path};
use crate::pkg_set::{packages, set_get, set_len};
use crate::{Error, Package};
use vstd::prelude::*;

verus! {

/// What is kept of one path. Summaries are ordered by `direct`, then by
/// `mid`, none before any, then by `top`.
#[derive(Clone, Copy, Debug, PartialEq, Eq, PartialOrd, Ord)]
pub struct PathSummary {
    /// The package that requires the duplicate directly.
    pub direct: Package,
    /// The package before the last, where it is not `direct`.
    pub mid: Option<Package>,
    /// The top level package at which the path ends.
    pub top: Package,
}

impl PathSummary {
    /// The strict order of summaries.
    pub open spec fn precedes(self, other: PathSummary) -> bool {
        ||| self.direct.precedes(other.direct)
        ||| self.direct == other.direct && mid_precedes(self.mid, other.mid)
        ||| self.direct == other.direct && self.mid == other.mid && self.top.precedes(other.top)
    }

    /// Whether `self` comes strictly before `other`.
    pub fn comes_before(&self, other: &PathSummary) -> (b: bool)
        ensures
            b == self.precedes(*other),
    {
        if self.direct.comes_before(&other.direct) {
            true
        } else if other.direct.comes_before(&self.direct) {
            false
        } else {
            match (self.mid, other.mid) {
                (None, None) => self.top.comes_before(&other.top),
                (None, Some(_)) => true,
                (Some(_), None) => false,
                (Some(a), Some(b)) => {
                    if a.comes_before(&b) {
                        true
                    } else if b.comes_before(&a) {
                        false
                    } else {
                        self.top.comes_before(&other.top)
                    }
                },
            }
        }
    }
}

/// The strict order of the packages in the middle: none before any.
pub open spec fn mid_precedes(one: Option<Package>, other: Option<Package>) -> bool {
    match (one, other) {
        (None, Some(_)) => true,
        (Some(a), Some(b)) => a.precedes(b),
        _ => false,
    }
}

/// The summaries ascend.
pub open spec fn summaries_ascending(s: Seq<PathSummary>) -> bool {
    forall|i: int, j: int| 0 <= i < j < s.len() ==> (#[trigger] s[i]).precedes(#[trigger] s[j])
}

/// How far a walk along one path has come.
#[derive(Clone, Copy, Debug, PartialEq, Eq)]
pub enum PathState {
    /// At the duplicate.
    Start,
    /// Above it and below the top level: `last` is the package that was
    /// met last, where that is not `direct`.
    Climbing { direct: Package, last: Option<Package> },
    /// At the top level: what comes after is not kept.
    Done(PathSummary),
}

impl PathState {
    /// The state after the walk has met one more package.
    pub open spec fn after(self, node: Package, top_level: bool) -> PathState {
        match self {
            PathState::Start => if top_level {
                PathState::Done(PathSummary { direct: node, mid: None, top: node })
            } else {
                PathState::Climbing { direct: node, last: None }
            },
            PathState::Climbing { direct, last } => if top_level {
                PathState::Done(PathSummary { direct, mid: last, top: node })
            } else {
                PathState::Climbing { direct, last: Some(node) }
            },
            PathState::Done(summary) => PathState::Done(summary),
        }
    }

    /// The walk meets one more package.
    pub fn step(self, node: Package, top_level: bool) -> (next: PathState)
        ensures
            next == self.after(node, top_level),
    {
        match self {
            PathState::Start => if top_level {
                PathState::Done(PathSummary { direct: node, mid: None, top: node })
            } else {
                PathState::Climbing { direct: node, last: None }
            },
            PathState::Climbing { direct, last } => if top_level {
                PathState::Done(PathSummary { direct, mid: last, top: node })
            } else {
                PathState::Climbing { direct, last: Some(node) }
            },
            PathState::Done(summary) => PathState::Done(summary),
        }
    }

    /// What is kept of the path, once the walk has come to the top level.
    pub fn summary(&self) -> (summary: Option<PathSummary>)
        ensures
            summary == match *self {
                PathState::Done(kept) => Some(kept),
                _ => None::<PathSummary>,
            },
    {
        match self {
            PathState::Done(kept) => Some(*kept),
            _ => None,
        }
    }
}

/// The path leads upward from its first package, and none of the others
/// is of the top level.
pub open spec fn climbing_path(nodes: Map<Package, DepVersionView>, path: Seq<Package>) -> bool {
    up_path(nodes, path) && forall|i: int|
        1 <= i < path.len() ==> !nodes[#[trigger] path[i]].is_top_level()
}

/// The path leads upward from its first package to one of the top level,
/// and meets none of the top level before.
pub open spec fn terminal_path(nodes: Map<Package, DepVersionView>, path: Seq<Package>) -> bool {
    &&& up_path(nodes, path)
    &&& path.len() >= 2
    &&& nodes[path.last()].is_top_level()
    &&& forall|i: int| 1 <= i < path.len() - 1 ==> !nodes[#[trigger] path[i]].is_top_level()
}

/// What is kept of a path of two packages at least.
pub open spec fn summary_of(path: Seq<Package>) -> PathSummary {
    PathSummary {
        direct: path[1],
        mid: if path.len() >= 4 {
            Some(path[path.len() - 2])
        } else {
            None
        },
        top: path.last(),
    }
}

/// The state of a walk that has gone along the path from its first
/// package.
pub open spec fn state_after(nodes: Map<Package, DepVersionView>, path: Seq<Package>) -> PathState
    decreases path.len(),
{
    if path.len() <= 1 {
        PathState::Start
    } else {
        state_after(nodes, path.drop_last()).after(path.last(), nodes[path.last()].is_top_level())
    }
}

/// Below the top level the walk keeps the package that requires the
/// duplicate and the package that it met last.
pub proof fn lemma_state_climbing(nodes: Map<Package, DepVersionView>, path: Seq<Package>)
    requires
        path.len() >= 1,
        forall|i: int| 1 <= i < path.len() ==> !nodes[#[trigger] path[i]].is_top_level(),
    ensures
        state_after(nodes, path) == if path.len() == 1 {
            PathState::Start
        } else {
            PathState::Climbing {
                direct: path[1],
                last: if path.len() >= 3 {
                    Some(path.last())
                } else {
                    None
                },
            }
        },
    decreases path.len(),
{
    if path.len() > 1 {
        let front = path.drop_last();
        assert forall|i: int| 1 <= i < front.len() implies !nodes[#[trigger] front[i]].is_top_level() by {
            assert(front[i] == path[i]);
        }
        lemma_state_climbing(nodes, front);
        assert(!nodes[path[path.len() - 1]].is_top_level());
        if front.len() >= 2 {
            assert(front[1] == path[1]);
        }
    }
}

/// At the top level the walk has kept the summary of its path.
pub proof fn lemma_state_done(nodes: Map<Package, DepVersionView>, path: Seq<Package>)
    requires
        terminal_path(nodes, path),
    ensures
        state_after(nodes, path) == PathState::Done(summary_of(path)),
{
    let front = path.drop_last();
    assert forall|i: int| 1 <= i < front.len() implies !nodes[#[trigger] front[i]].is_top_level() by {
        assert(front[i] == path[i]);
    }
    lemma_state_climbing(nodes, front);
    if front.len() >= 2 {
        assert(front[1] == path[1]);
        assert(front.last() == path[path.len() - 2]);
    }
}

/// Some path that begins with `prefix` ends at the top level, and `kept`
/// is its summary.
spec fn found_from(
    nodes: Map<Package, DepVersionView>,
    prefix: Seq<Package>,
    kept: PathSummary,
) -> bool {
    exists|full: Seq<Package>|
        #[trigger] terminal_path(nodes, full) && prefix.len() <= full.len() && full.take(
            prefix.len() as int,
        ) == prefix && summary_of(full) == kept
}

/// The first `upto` of the packages that may follow the prefix lead to a
/// path with this summary.
spec fn found_through(
    nodes: Map<Package, DepVersionView>,
    prefix: Seq<Package>,
    next: Seq<Package>,
    upto: int,
    kept: PathSummary,
) -> bool {
    exists|j: int|
        0 <= j < upto && j < next.len() && found_from(nodes, prefix.push(#[trigger] next[j]), kept)
}

/// A path that ends at the top level and begins with a prefix that does
/// not goes on with a dependent of the last package of the prefix.
proof fn lemma_found_splits(
    nodes: Map<Package, DepVersionView>,
    prefix: Seq<Package>,
    kept: PathSummary,
)
    requires
        climbing_path(nodes, prefix),
    ensures
        found_from(nodes, prefix, kept) <==> found_through(
            nodes,
            prefix,
            nodes[prefix.last()].dependents,
            nodes[prefix.last()].dependents.len() as int,
            kept,
        ),
{
    let next = nodes[prefix.last()].dependents;
    let n = prefix.len() as int;
    if found_from(nodes, prefix, kept) {
        let full = choose|full: Seq<Package>|
            #[trigger] terminal_path(nodes, full) && prefix.len() <= full.len() && full.take(
                prefix.len() as int,
            ) == prefix && summary_of(full) == kept;
        assert(full.take(n)[n - 1] == full[n - 1]);
        if full.len() == n {
            assert(full.take(n) =~= full);
            if n >= 2 {
                assert(!nodes[prefix[n - 1]].is_top_level());
            }
        }
        assert(full.len() > n);
        assert(nodes[full[n - 1]].dependents.contains(full[n]));
        let j = next.index_of(full[n]);
        assert(next[j] == full[n]);
        assert(full.take(n + 1) =~= prefix.push(next[j]));
        assert(found_from(nodes, prefix.push(next[j]), kept));
    }
    if found_through(nodes, prefix, next, next.len() as int, kept) {
        let j = choose|j: int|
            0 <= j < next.len() && j < next.len() && found_from(
                nodes,
                prefix.push(#[trigger] next[j]),
                kept,
            );
        let longer = prefix.push(next[j]);
        let full = choose|full: Seq<Package>|
            #[trigger] terminal_path(nodes, full) && longer.len() <= full.len() && full.take(
                longer.len() as int,
            ) == longer && summary_of(full) == kept;
        assert(full.take(n) =~= longer.take(n));
        assert(longer.take(n) =~= prefix);
    }
}

/// A path that ends at the top level is the only one that begins with it
/// and ends at the top level.
proof fn lemma_found_at_top(
    nodes: Map<Package, DepVersionView>,
    path: Seq<Package>,
    kept: PathSummary,
)
    requires
        terminal_path(nodes, path),
    ensures
        found_from(nodes, path, kept) <==> kept == summary_of(path),
{
    let n = path.len() as int;
    if found_from(nodes, path, kept) {
        let full = choose|full: Seq<Package>|
            #[trigger] terminal_path(nodes, full) && path.len() <= full.len() && full.take(
                path.len() as int,
            ) == path && summary_of(full) == kept;
        assert(full.take(n)[n - 1] == full[n - 1]);
        if full.len() > n {
            assert(!nodes[full[n - 1]].is_top_level());
        }
        assert(full.take(n) =~= full);
    }
    if kept == summary_of(path) {
        assert(path.take(n) =~= path);
    }
}

/// One more package on a path that leads upward.
proof fn lemma_path_push(nodes: Map<Package, DepVersionView>, path: Seq<Package>, next: Package)
    requires
        up_path(nodes, path),
        nodes.contains_key(next),
        nodes[path.last()].dependents.contains(next),
    ensures
        up_path(nodes, path.push(next)),
        climbing_path(nodes, path) && !nodes[next].is_top_level() ==> climbing_path(
            nodes,
            path.push(next),
        ),
        climbing_path(nodes, path) && nodes[next].is_top_level() ==> terminal_path(
            nodes,
            path.push(next),
        ),
{
    let longer = path.push(next);
    assert forall|i: int| 0 <= i < longer.len() implies nodes.contains_key(
        #[trigger] longer[i],
    ) by {
        if i < path.len() {
            assert(longer[i] == path[i]);
        }
    }
    assert forall|i: int| 0 <= i < longer.len() - 1 implies nodes[#[trigger] longer[i]].dependents.contains(
        longer[i + 1],
    ) by {
        assert(longer[i] == path[i]);
        if i < path.len() - 1 {
            assert(longer[i + 1] == path[i + 1]);
        }
    }
    if climbing_path(nodes, path) {
        assert forall|i: int| 1 <= i < path.len() implies !nodes[#[trigger] longer[i]].is_top_level() by {
            assert(longer[i] == path[i]);
        }
    }
}

/// Keeps one more summary, in its place, unless it is kept already.
fn keep(summaries: &mut Vec<PathSummary>, kept: PathSummary)
    requires
        summaries_ascending(old(summaries)@),
    ensures
        summaries_ascending(final(summaries)@),
        forall|other: PathSummary|
            final(summaries)@.contains(other) <==> old(summaries)@.contains(other) || other == kept,
{
    let ghost before = summaries@;
    let mut at: usize = 0;
    while at < summaries.len() && summaries[at].comes_before(&kept)
        invariant
            summaries@ == before,
            at <= before.len(),
            forall|i: int| 0 <= i < at ==> (#[trigger] before[i]).precedes(kept),
        decreases before.len() - at,
    {
        at += 1;
    }
    proof {
        assert forall|i: int| at < i < before.len() implies kept.precedes(#[trigger] before[i])
            || before[at as int] == kept by {
            assert(before[at as int].precedes(before[i]));
        }
    }
    if at < summaries.len() && !kept.comes_before(&summaries[at]) {
        assert(before[at as int] == kept);
        assert(before.contains(kept));
    } else {
        summaries.insert(at, kept);
        proof {
            let after = summaries@;
            assert(after[at as int] == kept);
            assert forall|i: int| 0 <= i < at implies #[trigger] after[i] == before[i] by {}
            assert forall|i: int| at < i < after.len() implies #[trigger] after[i] == before[i
                - 1] by {}
            assert forall|i: int, j: int| 0 <= i < j < after.len() implies (
            #[trigger] after[i]).precedes(#[trigger] after[j]) by {
                if j < at {
                    assert(before[i].precedes(before[j]));
                } else if j == at {
                } else if i < at {
                    assert(before[i].precedes(before[j - 1]));
                } else if i == at {
                } else {
                    assert(before[i - 1].precedes(before[j - 1]));
                }
            }
            assert forall|other: PathSummary|
                after.contains(other) <==> before.contains(other) || other == kept by {
                if after.contains(other) {
                    let k = after.index_of(other);
                    if k < at {
                        assert(before[k] == other);
                    } else if k > at {
                        assert(before[k - 1] == other);
                    }
                }
                if before.contains(other) {
                    let k = before.index_of(other);
                    if k < at {
                        assert(after[k] == other);
                    } else {
                        assert(after[k + 1] == other);
                    }
                }
            }
        }
    }
}

/// Walks on from the last package of `path`, which is below the top
/// level, and keeps the summary of each path to the top level.
fn climb(
    deps: &Deps,
    curr_pkg: &Package,
    state: PathState,
    summaries: &mut Vec<PathSummary>,
    Ghost(path): Ghost<Seq<Package>>,
    Ghost(rank): Ghost<Map<Package, nat>>,
)
    requires
        deps.wf(),
        ranked(deps@, rank),
        climbing_path(deps@, path),
        path.last() == *curr_pkg,
        state == state_after(deps@, path),
        summaries_ascending(old(summaries)@),
    ensures
        summaries_ascending(final(summaries)@),
        forall|kept: PathSummary| #[trigger]
            final(summaries)@.contains(kept) <==> old(summaries)@.contains(kept) || found_from(
                deps@,
                path,
                kept,
            ),
    decreases rank[*curr_pkg],
{
    let ghost start = summaries@;
    assert(deps@.contains_key(path[path.len() - 1]));
    let ver = match deps.get_version(curr_pkg) {
        Ok(ver) => ver,
        Err(_) => {
            assert(false);
            return ;
        },
    };
    let dependents = ver.dependents();
    let ghost above = packages(*dependents);
    let n = set_len(dependents);
    let mut i: usize = 0;
    while i < n
        invariant
            deps.wf(),
            ranked(deps@, rank),
            climbing_path(deps@, path),
            path.last() == *curr_pkg,
            state == state_after(deps@, path),
            deps@.contains_key(*curr_pkg),
            above == packages(*dependents),
            above == deps@[*curr_pkg].dependents,
            n == above.len(),
            i <= n,
            summaries_ascending(summaries@),
            forall|kept: PathSummary| #[trigger]
                summaries@.contains(kept) <==> start.contains(kept) || found_through(
                    deps@,
                    path,
                    above,
                    i as int,
                    kept,
                ),
        decreases n - i,
    {
        let dependent = set_get(dependents, i);
        let ghost before = summaries@;
        let ghost longer = path.push(dependent);
        assert(deps@[*curr_pkg].dependents.contains(dependent));
        let top_level = match deps.get_version(&dependent) {
            Ok(node) => node.is_top_level(),
            Err(_) => {
                assert(false);
                return ;
            },
        };
        let next = state.step(dependent, top_level);
        proof {
            lemma_path_push(deps@, path, dependent);
            assert(longer.drop_last() =~= path);
            assert(longer.last() == dependent);
            assert(next == state_after(deps@, longer));
        }
        match next.summary() {
            Some(kept) => {
                proof {
                    lemma_state_climbing(deps@, path);
                    lemma_state_done(deps@, longer);
                }
                keep(summaries, kept);
                proof {
                    assert forall|other: PathSummary| #[trigger]
                        summaries@.contains(other) <==> before.contains(other) || found_from(
                            deps@,
                            longer,
                            other,
                        ) by {
                        lemma_found_at_top(deps@, longer, other);
                    }
                }
            },
            None => {
                proof {
                    lemma_state_climbing(deps@, path);
                }
                climb(deps, &dependent, next, summaries, Ghost(longer), Ghost(rank));
            },
        }
        proof {
            assert forall|other: PathSummary| #[trigger]
                summaries@.contains(other) <==> start.contains(other) || found_through(
                    deps@,
                    path,
                    above,
                    i + 1,
                    other,
                ) by {
                assert(before.contains(other) <==> start.contains(other) || found_through(
                    deps@,
                    path,
                    above,
                    i as int,
                    other,
                ));
                if found_through(deps@, path, above, i as int, other) {
                    let j = choose|j: int|
                        0 <= j < i && j < above.len() && found_from(
                            deps@,
                            path.push(#[trigger] above[j]),
                            other,
                        );
                    assert(0 <= j < i + 1);
                }
                if found_from(deps@, longer, other) {
                    assert(0 <= i < i + 1 && found_from(deps@, path.push(above[i as int]), other));
                }
                if found_through(deps@, path, above, i + 1, other) {
                    let j = choose|j: int|
                        0 <= j < i + 1 && j < above.len() && found_from(
                            deps@,
                            path.push(#[trigger] above[j]),
                            other,
                        );
                    if j < i {
                        assert(found_through(deps@, path, above, i as int, other));
                    }
                }
            }
        }
        i += 1;
    }
    proof {
        assert forall|kept: PathSummary| #[trigger]
            summaries@.contains(kept) <==> start.contains(kept) || found_from(
                deps@,
                path,
                kept,
            ) by {
            lemma_found_splits(deps@, path, kept);
        }
    }
}

/// The summaries of the paths that lead from a package up to the top
/// level, each once, in ascending order. The graph is to have no cycle:
/// with one, the walk would not end.
///
/// Fails where the package is not a node of the graph.
pub fn path_summaries(deps: &Deps, pkg: &Package) -> (res: Result<Vec<PathSummary>, Error>)
    requires
        deps.wf(),
        acyclic(deps@),
    ensures
        res is Ok <==> deps@.contains_key(*pkg),
        res matches Ok(summaries) ==> summaries_ascending(summaries@) && forall|kept: PathSummary|
            #[trigger] summaries@.contains(kept) <==> exists|path: Seq<Package>|
                #[trigger] terminal_path(deps@, path) && path.first() == *pkg && summary_of(path)
                    == kept,
        res matches Err(e) ==> e == (Error::CorruptedGraph {
            name: pkg.name,
            version: pkg.version,
        }),
{
    if let Err(e) = deps.get_version(pkg) {
        return Err(e);
    }
    let ghost rank = choose|rank: Map<Package, nat>| ranked(deps@, rank);
    let ghost path = seq![*pkg];
    let mut summaries: Vec<PathSummary> = Vec::new();
    assert(climbing_path(deps@, path));
    climb(deps, pkg, PathState::Start, &mut summaries, Ghost(path), Ghost(rank));
    proof {
        assert forall|kept: PathSummary| #[trigger]
            summaries@.contains(kept) <==> exists|full: Seq<Package>|
                #[trigger] terminal_path(deps@, full) && full.first() == *pkg && summary_of(full)
                    == kept by {
            if found_from(deps@, path, kept) {
                let full = choose|full: Seq<Package>|
                    #[trigger] terminal_path(deps@, full) && path.len() <= full.len() && full.take(
                        path.len() as int,
                    ) == path && summary_of(full) == kept;
                assert(full.take(1)[0] == full[0]);
            }
            if exists|full: Seq<Package>|
                #[trigger] terminal_path(deps@, full) && full.first() == *pkg && summary_of(full)
                    == kept {
                let full = choose|full: Seq<Package>|
                    #[trigger] terminal_path(deps@, full) && full.first() == *pkg && summary_of(
                        full,
                    ) == kept;
                assert(full.take(1) =~= path);
            }
        }
    }
    Ok(summaries)
}

} // verus!
