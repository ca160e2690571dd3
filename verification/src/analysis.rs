//! The whole analysis of a lock file, from its records to the blame.

use crate::dep_tree::{
    graph_of, is_duplicate, lists, DepVersionView, Deps, Lockfile, RecordView,
};
use crate::multi_ver_deps::{multiples, MultiVerDeps};
use crate::multi_ver_parents::MultiVerDepParents;
use crate::paths::{acyclic, lemma_reaches_first, ranked, reaches};
use crate::results::MultiVerDepResults;
use crate::{BlameMode, Error, Package};
use vstd::prelude::*;

verus! {

/// No package requires itself, directly or through other packages: there
/// are ranks that fall from each package to those that require it.
pub open spec fn records_acyclic(recs: Seq<RecordView>) -> bool {
    exists|rank: Map<Package, nat>| records_ranked(recs, rank)
}

/// The rank of a package is below those of the packages that its records
/// list.
pub open spec fn records_ranked(recs: Seq<RecordView>, rank: Map<Package, nat>) -> bool {
    forall|a: Package, b: Package| #[trigger] lists(recs, a, b) ==> rank[a] < rank[b]
}

/// The graph of records has a cycle where the records have one.
pub proof fn lemma_acyclic_records(
    nodes: Map<Package, DepVersionView>,
    top: Seq<Package>,
    recs: Seq<RecordView>,
)
    requires
        graph_of(nodes, top, recs),
    ensures
        acyclic(nodes) == records_acyclic(recs),
{
    if acyclic(nodes) {
        let rank = choose|rank: Map<Package, nat>| ranked(nodes, rank);
        assert forall|a: Package, b: Package| #[trigger] lists(recs, a, b) implies rank[a]
            < rank[b] by {
            let i = choose|i: int|
                0 <= i < recs.len() && (#[trigger] recs[i]).package == a
                    && recs[i].dependencies.contains(b);
            assert(recs[i].dependencies.contains(b));
            assert(nodes.contains_key(b));
            assert(nodes[b].dependents.contains(a));
        }
        assert(records_ranked(recs, rank));
    }
    if records_acyclic(recs) {
        let rank = choose|rank: Map<Package, nat>| records_ranked(recs, rank);
        assert forall|p: Package, q: Package|
            nodes.contains_key(p) && #[trigger] nodes[p].dependents.contains(q) implies rank[q]
            < rank[p] by {
            assert(lists(recs, q, p));
        }
        assert(ranked(nodes, rank));
    }
}

/// A graph with what was found in it.
#[derive(Debug)]
pub struct Analysis {
    /// The graph of the lock file.
    pub deps: Deps,
    /// The duplicates below each package. Without a mode it is left empty.
    pub parents: MultiVerDepParents,
    /// The duplicates, and the blame that the mode asks for.
    pub results: MultiVerDepResults,
}

/// Builds the graph of a lock file, finds its duplicates and, where a
/// mode is given, assigns the blame for them.
///
/// Fails on a lock file of a format that is not read, and, where a mode
/// is given, on records with a cycle.
pub fn analyse(lock_file: Lockfile, blame_mode: Option<BlameMode>) -> (res: Result<Analysis, Error>)
    ensures
        !lock_file.supported() ==> res == Err::<Analysis, Error>(Error::UnsupportedInputVersion),
        lock_file.supported() && blame_mode is Some && !records_acyclic(lock_file.records())
            ==> res == Err::<Analysis, Error>(Error::CyclicGraph),
        lock_file.supported() && (blame_mode is None || records_acyclic(lock_file.records()))
            ==> res is Ok,
        res matches Ok(found) ==> {
            &&& found.deps.wf()
            &&& found.deps.is_graph_of(lock_file.records())
            &&& found.parents.wf()
            &&& found.results.wf()
            &&& found.results.duplicates() == multiples(found.deps.groups())
            &&& found.results.is_blame_of(found.deps, found.parents, blame_mode)
            &&& blame_mode is Some ==> forall|a: Package, d: Package|
                #[trigger] found.parents.sees(a, d) <==> is_duplicate(
                    found.deps@.dom(),
                    d,
                ) && reaches(found.deps@, d, a)
        },
{
    let ghost recs = lock_file.records();
    let deps = match Deps::from_lock_file(lock_file) {
        Ok(deps) => deps,
        Err(e) => {
            return Err(e);
        },
    };
    proof {
        lemma_acyclic_records(deps@, deps.top_level(), recs);
    }
    let multi_ver_deps = MultiVerDeps::from_deps(&deps);
    let parents = if blame_mode.is_some() {
        if !deps.is_acyclic() {
            return Err(Error::CyclicGraph);
        }
        match MultiVerDepParents::build(&deps, &multi_ver_deps) {
            Ok(parents) => parents,
            Err(e) => {
                assert(false);
                return Err(e);
            },
        }
    } else {
        MultiVerDepParents::new()
    };
    proof {
        if blame_mode is Some {
            assert forall|p: Package| #[trigger] parents@.contains_key(p) implies deps@.contains_key(
                p,
            ) by {
                let d = parents@[p][0];
                assert(parents@[p].contains(d));
                assert(parents.sees(p, d));
                let next = lemma_reaches_first(deps@, d, p);
            }
            assert forall|a: Package, d: Package| #[trigger]
                parents.sees(a, d) <==> is_duplicate(deps@.dom(), d) && reaches(
                    deps@,
                    d,
                    a,
                ) by {
                assert(multi_ver_deps.contains(d) <==> is_duplicate(
                    deps@.dom(),
                    d,
                ));
            }
        }
    }
    match MultiVerDepResults::build(&deps, &parents, multi_ver_deps, blame_mode) {
        Ok(results) => Ok(Analysis { deps, parents, results }),
        Err(e) => {
            assert(false);
            Err(e)
        },
    }
}

} // verus!
