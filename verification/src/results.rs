//! The outcome of an analysis: the packages that are to blame, those of
//! the top level apart from the others, and the duplicates themselves.

use crate::blame::{
    direct_blame, entry_of, indirect_blame, lemma_single_version_no_blame, BlameEntryView,
    MultiVerDepBlame, MultiVerDepBlameEntry,
};
use crate::dep_tree::{
    ascending, has_multiple_versions, lemma_ascending_distinct, total_versions, DepView, Deps,
};
use crate::multi_ver_deps::{multi_grouped, MultiVerDeps};
use crate::multi_ver_parents::MultiVerDepParents;
use crate::{BlameMode, Error, Package};
use vstd::prelude::*;

verus! {

/// Some package at a position before `upto` is `p`.
spec fn among_first(order: Seq<Package>, upto: int, p: Package) -> bool {
    exists|k: int| 0 <= k < upto && k < order.len() && #[trigger] order[k] == p
}

/// The outcome of an analysis.
#[derive(Debug)]
pub struct MultiVerDepResults {
    /// The blame of the top level packages.
    top_level_blame: MultiVerDepBlame,
    /// The blame of the other packages.
    dep_blame: MultiVerDepBlame,
    /// The names that the graph holds in more than one version.
    multi_ver_deps: MultiVerDeps,
}

impl MultiVerDepResults {
    /// The rows of the top level packages.
    pub closed spec fn top_level(&self) -> MultiVerDepBlame {
        self.top_level_blame
    }

    /// The rows of the packages that are not of the top level.
    pub closed spec fn interior(&self) -> MultiVerDepBlame {
        self.dep_blame
    }

    /// The duplicates.
    pub closed spec fn duplicates(&self) -> Seq<DepView> {
        self.multi_ver_deps@
    }

    /// Both lists of rows are in order, no package has a row in both, and
    /// the duplicates are in order.
    pub open spec fn wf(&self) -> bool {
        &&& self.top_level().wf()
        &&& self.interior().wf()
        &&& forall|p: Package| !(#[trigger] self.top_level().has(p) && self.interior().has(p))
        &&& multi_grouped(self.duplicates())
        &&& total_versions(self.duplicates()) <= usize::MAX
    }

    /// The rows are those that the mode asks for: of each package that has
    /// a duplicate below it, its blame; among the top level packages where
    /// it is one, and else, where the mode is `All`, among the others.
    pub open spec fn is_blame_of(
        &self,
        deps: Deps,
        parents: MultiVerDepParents,
        blame_mode: Option<BlameMode>,
    ) -> bool {
        &&& forall|p: Package| #[trigger]
            self.top_level().has(p) <==> blame_mode is Some && parents@.contains_key(p)
                && deps@[p].is_top_level()
        &&& forall|p: Package| #[trigger]
            self.interior().has(p) <==> blame_mode == Some(BlameMode::All)
                && parents@.contains_key(p) && !deps@[p].is_top_level()
        &&& forall|p: Package| #[trigger]
            self.top_level().has(p) ==> entry_of(
                self.top_level().entry(p),
                parents.pairs(),
                deps@[p].dependencies,
                p,
            )
        &&& forall|p: Package| #[trigger]
            self.interior().has(p) ==> entry_of(
                self.interior().entry(p),
                parents.pairs(),
                deps@[p].dependencies,
                p,
            )
    }

    /// Assigns blame to the packages that have a duplicate below them.
    /// Without a mode no blame is assigned.
    ///
    /// Fails on the least package with a duplicate below it that is not a
    /// node of the graph.
    pub fn build(
        deps: &Deps,
        parents: &MultiVerDepParents,
        multi_ver_deps: MultiVerDeps,
        blame_mode: Option<BlameMode>,
    ) -> (res: Result<Self, Error>)
        requires
            deps.wf(),
            parents.wf(),
            multi_ver_deps.wf(),
        ensures
            res is Ok <==> blame_mode is None || forall|p: Package| #[trigger]
                parents@.contains_key(p) ==> deps@.contains_key(p),
            res matches Ok(results) ==> results.wf() && results.duplicates() == multi_ver_deps@
                && results.is_blame_of(*deps, *parents, blame_mode),
            res matches Err(e) ==> exists|p: Package|
                #[trigger] parents@.contains_key(p) && !deps@.contains_key(p) && e == (
                Error::CorruptedGraph { name: p.name, version: p.version }) && forall|q: Package|
                    #[trigger] parents@.contains_key(q) && q.precedes(p) ==> deps@.contains_key(q),
    {
        let mut top_level_blame = MultiVerDepBlame::new();
        let mut dep_blame = MultiVerDepBlame::new();
        if let Some(mode) = blame_mode {
            let order = parents.parents();
            let ghost seq = order@;
            let n = order.len();
            proof {
                lemma_ascending_distinct(seq);
            }
            let mut i: usize = 0;
            while i < n
                invariant
                    deps.wf(),
                    parents.wf(),
                    seq == order@,
                    ascending(seq),
                    seq.no_duplicates(),
                    forall|p: Package| seq.contains(p) <==> parents@.contains_key(p),
                    n == seq.len(),
                    i <= n,
                    blame_mode == Some(mode),
                    top_level_blame.wf(),
                    dep_blame.wf(),
                    forall|k: int| 0 <= k < i ==> deps@.contains_key(#[trigger] seq[k]),
                    forall|p: Package| #[trigger]
                        top_level_blame.has(p) <==> among_first(seq, i as int, p)
                            && deps@[p].is_top_level(),
                    forall|p: Package| #[trigger]
                        dep_blame.has(p) <==> mode == BlameMode::All && among_first(
                            seq,
                            i as int,
                            p,
                        ) && !deps@[p].is_top_level(),
                    forall|p: Package| #[trigger]
                        top_level_blame.has(p) ==> entry_of(
                            top_level_blame.entry(p),
                            parents.pairs(),
                            deps@[p].dependencies,
                            p,
                        ),
                    forall|p: Package| #[trigger]
                        dep_blame.has(p) ==> entry_of(
                            dep_blame.entry(p),
                            parents.pairs(),
                            deps@[p].dependencies,
                            p,
                        ),
                decreases n - i,
            {
                let pkg = order[i];
                let ghost top_before = top_level_blame;
                let ghost dep_before = dep_blame;
                proof {
                    assert(seq.contains(pkg));
                    assert(!among_first(seq, i as int, pkg)) by {
                        if among_first(seq, i as int, pkg) {
                            let k = choose|k: int|
                                0 <= k < i && k < seq.len() && #[trigger] seq[k] == pkg;
                            assert(seq[k] == seq[i as int]);
                        }
                    }
                }
                if !top_level_blame.contains(&pkg) && !dep_blame.contains(&pkg) {
                    let dep_ver = match deps.get_version(&pkg) {
                        Ok(dep_ver) => dep_ver,
                        Err(e) => {
                            proof {
                                assert(parents@.contains_key(pkg));
                                assert forall|q: Package| #[trigger]
                                    parents@.contains_key(q) && q.precedes(
                                        pkg,
                                    ) implies deps@.contains_key(q) by {
                                    assert(seq.contains(q));
                                    let k = seq.index_of(q);
                                    assert(seq[k] == q);
                                    if k > i {
                                        assert(seq[i as int].precedes(seq[k]));
                                    }
                                }
                            }
                            return Err(e);
                        },
                    };
                    let blame = MultiVerDepBlameEntry::build(&pkg, dep_ver.dependencies(), parents);
                    if dep_ver.is_top_level() {
                        top_level_blame.insert(pkg, blame);
                    } else if mode == BlameMode::All {
                        dep_blame.insert(pkg, blame);
                    }
                }
                proof {
                    assert forall|p: Package|
                        among_first(seq, i + 1, p) <==> among_first(seq, i as int, p) || p
                            == pkg by {
                        if among_first(seq, i as int, p) {
                            let k = choose|k: int|
                                0 <= k < i && k < seq.len() && #[trigger] seq[k] == p;
                            assert(0 <= k < i + 1 && seq[k] == p);
                        }
                        if p == pkg {
                            assert(0 <= i < i + 1 && seq[i as int] == p);
                        }
                        if among_first(seq, i + 1, p) {
                            let k = choose|k: int|
                                0 <= k < i + 1 && k < seq.len() && #[trigger] seq[k] == p;
                            if k < i {
                                assert(0 <= k < i && seq[k] == p);
                            }
                        }
                    }
                    assert forall|p: Package| #[trigger]
                        top_level_blame.has(p) implies entry_of(
                        top_level_blame.entry(p),
                        parents.pairs(),
                        deps@[p].dependencies,
                        p,
                    ) by {
                        if p != pkg {
                            assert(top_before.has(p));
                        }
                    }
                    assert forall|p: Package| #[trigger] dep_blame.has(p) implies entry_of(
                        dep_blame.entry(p),
                        parents.pairs(),
                        deps@[p].dependencies,
                        p,
                    ) by {
                        if p != pkg {
                            assert(dep_before.has(p));
                        }
                    }
                }
                i += 1;
            }
            proof {
                assert forall|p: Package| among_first(seq, n as int, p) <==> parents@.contains_key(
                    p,
                ) by {
                    if among_first(seq, n as int, p) {
                        let k = choose|k: int|
                            0 <= k < n && k < seq.len() && #[trigger] seq[k] == p;
                        assert(seq.contains(p));
                    }
                    if parents@.contains_key(p) {
                        assert(seq.contains(p));
                        let k = seq.index_of(p);
                        assert(0 <= k < n && seq[k] == p);
                    }
                }
                assert forall|p: Package| #[trigger]
                    parents@.contains_key(p) implies deps@.contains_key(p) by {
                    assert(seq.contains(p));
                    let k = seq.index_of(p);
                    assert(deps@.contains_key(seq[k]));
                }
            }
        }
        Ok(Self { top_level_blame, dep_blame, multi_ver_deps })
    }

    /// A name that the graph holds in one version at most is in no entry.
    pub proof fn lemma_single_version_no_entry(
        &self,
        deps: Deps,
        multi_ver_deps: MultiVerDeps,
        parents: MultiVerDepParents,
        blame_mode: Option<BlameMode>,
        p: Package,
        name: u64,
    )
        requires
            multi_ver_deps.indexes(deps),
            parents.closes(deps, multi_ver_deps),
            self.is_blame_of(deps, parents, blame_mode),
            !has_multiple_versions(deps@.dom(), name),
        ensures
            self.top_level().has(p) ==> !self.top_level().entry(p).direct.contains(name)
                && !self.top_level().entry(p).indirect.contains(name),
            self.interior().has(p) ==> !self.interior().entry(p).direct.contains(name)
                && !self.interior().entry(p).indirect.contains(name),
    {
        assert forall|a: Package, d: Package| #[trigger]
            parents.pairs().contains((a, d)) implies deps@.dom().contains(d) by {
            assert(parents.sees(a, d));
            assert(multi_ver_deps.contains(d));
        }
        lemma_single_version_no_blame(
            parents.pairs(),
            deps@.dom(),
            deps@[p].dependencies,
            p,
            name,
        );
    }

    /// The blame of a package is the same for every index that holds the
    /// duplicates below the packages that require them, however it was
    /// built.
    pub proof fn lemma_blame_fixed(
        deps: Deps,
        multi_ver_deps: MultiVerDeps,
        first: MultiVerDepParents,
        second: MultiVerDepParents,
        children: Seq<Package>,
        p: Package,
        name: u64,
    )
        requires
            first.closes(deps, multi_ver_deps),
            second.closes(deps, multi_ver_deps),
        ensures
            direct_blame(first.pairs(), children, p, name) == direct_blame(
                second.pairs(),
                children,
                p,
                name,
            ),
            indirect_blame(first.pairs(), children, p, name) == indirect_blame(
                second.pairs(),
                children,
                p,
                name,
            ),
    {
        assert forall|pair: (Package, Package)|
            first.pairs().contains(pair) == second.pairs().contains(pair) by {
            assert(first.sees(pair.0, pair.1) == second.sees(pair.0, pair.1));
        }
        assert(first.pairs() =~= second.pairs());
    }

    /// Whether the outcome is to count as a failure: with a mode, where a
    /// package that the mode shows is directly to blame; without one, where
    /// there is a duplicate at all.
    pub fn return_error(&self, blame_mode: Option<BlameMode>) -> (failed: bool)
        requires
            self.wf(),
        ensures
            failed == match blame_mode {
                Some(BlameMode::TopLevel) => has_direct(self.top_level()@),
                Some(BlameMode::All) => has_direct(self.top_level()@) || has_direct(
                    self.interior()@,
                ),
                None => self.duplicates().len() > 0,
            },
    {
        match blame_mode {
            Some(BlameMode::TopLevel) => self.top_level_blame.has_direct_blame(),
            Some(BlameMode::All) => {
                self.top_level_blame.has_direct_blame() || self.dep_blame.has_direct_blame()
            },
            None => !self.multi_ver_deps.is_empty(),
        }
    }

    /// The blame of the top level packages.
    pub fn top_level_blame(&self) -> (blame: &MultiVerDepBlame)
        ensures
            *blame == self.top_level(),
    {
        &self.top_level_blame
    }

    /// The blame of the packages that are not of the top level.
    pub fn dep_blame(&self) -> (blame: &MultiVerDepBlame)
        ensures
            *blame == self.interior(),
    {
        &self.dep_blame
    }

    /// The names that the graph holds in more than one version.
    pub fn multi_ver_deps(&self) -> (deps: &MultiVerDeps)
        ensures
            deps@ == self.duplicates(),
            self.wf() ==> deps.wf(),
    {
        &self.multi_ver_deps
    }
}

/// Some row holds a name for which its package is directly to blame.
pub open spec fn has_direct(rows: Seq<(Package, BlameEntryView)>) -> bool {
    exists|i: int| 0 <= i < rows.len() && (#[trigger] rows[i]).1.direct.len() > 0
}

} // verus!
