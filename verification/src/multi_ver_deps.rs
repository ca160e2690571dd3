//! The names that the graph holds in more than one version.

use crate::dep_tree::{
    dep_views, group_holds, grouped, is_duplicate, lemma_group_sizes, total_versions, Dep, DepView,
    Deps,
};
use crate::Package;
use vstd::prelude::*;

verus! {

// *** MultiVerDep ***

/// A name with the versions in which the graph holds it.
#[derive(Debug)]
pub struct MultiVerDep {
    name: u64,
    versions: Vec<u64>,
}

impl View for MultiVerDep {
    type V = DepView;

    closed spec fn view(&self) -> DepView {
        DepView { name: self.name, versions: self.versions@ }
    }
}

impl MultiVerDep {
    pub fn new(name: u64, versions: Vec<u64>) -> (dep: Self)
        ensures
            dep@ == (DepView { name, versions: versions@ }),
    {
        Self { name, versions }
    }

    pub fn name(&self) -> (name: u64)
        ensures
            name == self@.name,
    {
        self.name
    }

    /// The versions, in the order in which they are held.
    pub fn iter(&self) -> (versions: &Vec<u64>)
        ensures
            versions@ == self@.versions,
    {
        &self.versions
    }

    pub fn ver_count(&self) -> (n: usize)
        ensures
            n == self@.versions.len(),
    {
        self.versions.len()
    }
}

// *** MultiVerDeps ***

/// Whether a group holds more than one version.
pub open spec fn is_multiple(group: DepView) -> bool {
    group.versions.len() > 1
}

/// The views of the groups.
pub open spec fn multi_views(deps: Seq<MultiVerDep>) -> Seq<DepView> {
    deps.map_values(|d: MultiVerDep| d@)
}

/// The groups that hold more than one version, in their order.
pub open spec fn multiples(groups: Seq<DepView>) -> Seq<DepView> {
    groups.filter(|g: DepView| is_multiple(g))
}

/// The names ascend, each has at least two versions, and these ascend.
pub open spec fn multi_grouped(groups: Seq<DepView>) -> bool {
    &&& forall|i: int, j: int|
        0 <= i < j < groups.len() ==> (#[trigger] groups[i]).name < (#[trigger] groups[j]).name
    &&& forall|i: int| 0 <= i < groups.len() ==> (#[trigger] groups[i]).versions.len() > 1
    &&& forall|i: int, a: int, b: int|
        0 <= i < groups.len() && 0 <= a < b < groups[i].versions.len() ==> (
        #[trigger] groups[i].versions[a]) < (#[trigger] groups[i].versions[b])
}

/// The names of a graph that it holds in more than one version, each with
/// its versions.
#[derive(Debug)]
pub struct MultiVerDeps(Vec<MultiVerDep>);

impl View for MultiVerDeps {
    type V = Seq<DepView>;

    closed spec fn view(&self) -> Seq<DepView> {
        multi_views(self.0@)
    }
}

/// Dropping groups does not add versions.
pub(crate) proof fn lemma_total_filter(groups: Seq<DepView>)
    ensures
        total_versions(multiples(groups)) <= total_versions(groups),
    decreases groups.len(),
{
    let pred = |g: DepView| is_multiple(g);
    if groups.len() == 0 {
        assert(groups.filter(pred) =~= groups) by {
            reveal(Seq::filter);
        }
    } else {
        lemma_total_filter(groups.drop_last());
        assert(groups.drop_last().push(groups.last()) =~= groups);
        groups.drop_last().lemma_filter_push(groups.last(), pred);
        if pred(groups.last()) {
            assert(groups.filter(pred).drop_last() =~= groups.drop_last().filter(pred));
        }
    }
}

/// The versions of the first groups are among those of all groups.
proof fn lemma_total_take(groups: Seq<DepView>, i: int)
    requires
        0 <= i <= groups.len(),
    ensures
        total_versions(groups.take(i)) <= total_versions(groups),
    decreases groups.len() - i,
{
    if i == groups.len() {
        assert(groups.take(i) =~= groups);
    } else {
        lemma_total_take(groups, i + 1);
        assert(groups.take(i + 1).drop_last() =~= groups.take(i));
    }
}

impl MultiVerDeps {
    pub open spec fn wf(&self) -> bool {
        multi_grouped(self@) && total_versions(self@) <= usize::MAX
    }

    /// The package is one of the versions of a name that is held here.
    pub open spec fn contains(&self, p: Package) -> bool {
        group_holds(self@, p)
    }

    /// The packages that are held here are the duplicates of the graph.
    pub open spec fn indexes(&self, deps: Deps) -> bool {
        forall|p: Package| #[trigger] self.contains(p) <==> is_duplicate(deps@.dom(), p)
    }

    /// The groups of the graph that hold more than one version.
    pub fn from_deps(deps: &Deps) -> (res: Self)
        requires
            deps.wf(),
        ensures
            res.wf(),
            res@ == multiples(deps.groups()),
            res.indexes(*deps),
    {
        let kept = keep_multiples(deps.iter());
        proof {
            lemma_total_filter(deps.groups());
            lemma_filter_groups(deps.groups(), deps@.dom());
        }
        MultiVerDeps(kept)
    }

    pub fn is_empty(&self) -> (b: bool)
        ensures
            b == (self@.len() == 0),
    {
        self.0.len() == 0
    }

    /// The number of names that are held in more than one version.
    pub fn dup_pkg_count(&self) -> (n: usize)
        ensures
            n == self@.len(),
    {
        self.0.len()
    }

    /// The number of versions of these names, all names together.
    pub fn dup_ver_count(&self) -> (n: usize)
        requires
            self.wf(),
        ensures
            n == total_versions(self@),
    {
        let mut sum: usize = 0;
        let mut i: usize = 0;
        assert(self@.take(0) =~= Seq::<DepView>::empty());
        while i < self.0.len()
            invariant
                i <= self.0@.len(),
                self.wf(),
                sum == total_versions(self@.take(i as int)),
            decreases self.0@.len() - i,
        {
            proof {
                lemma_total_take(self@, i + 1);
                assert(self@.take(i + 1).drop_last() =~= self@.take(i as int));
            }
            sum = sum + self.0[i].ver_count();
            i += 1;
        }
        assert(self@.take(i as int) =~= self@);
        sum
    }

    /// The names, ascending, each with its versions.
    pub fn iter(&self) -> (deps: &Vec<MultiVerDep>)
        ensures
            multi_views(deps@) == self@,
    {
        &self.0
    }
}

/// The groups with more than one version hold the duplicates among the
/// members.
pub(crate) proof fn lemma_filter_groups(groups: Seq<DepView>, members: Set<Package>)
    requires
        grouped(groups, members),
    ensures
        multi_grouped(multiples(groups)),
        forall|p: Package| #[trigger]
            group_holds(multiples(groups), p) <==> is_duplicate(members, p),
{
    let pred = |g: DepView| is_multiple(g);
    let kept = groups.filter(pred);
    broadcast use vstd::seq_lib::group_filter_ensures;
    assert forall|i: int, j: int| 0 <= i < j < kept.len() implies (#[trigger] kept[i]).name < (
    #[trigger] kept[j]).name by {
        lemma_filter_order(groups, i, j);
    }
    assert forall|i: int| 0 <= i < kept.len() implies (#[trigger] kept[i]).versions.len() > 1 by {
        assert(pred(kept[i]));
    }
    assert forall|i: int, a: int, b: int|
        0 <= i < kept.len() && 0 <= a < b < kept[i].versions.len() implies (
    #[trigger] kept[i].versions[a]) < (#[trigger] kept[i].versions[b]) by {
        assert(kept.contains(kept[i]));
        groups.lemma_filter_contains_rev(pred, kept[i]);
        let g = groups.index_of(kept[i]);
        assert(groups[g].versions[a] < groups[g].versions[b]);
    }
    assert forall|p: Package| #[trigger] group_holds(kept, p) <==> is_duplicate(members, p) by {
        if group_holds(kept, p) {
            let k = choose|k: int|
                0 <= k < kept.len() && (#[trigger] kept[k]).name == p.name
                    && kept[k].versions.contains(p.version);
            assert(pred(kept[k]));
            assert(kept.contains(kept[k]));
            groups.lemma_filter_contains_rev(pred, kept[k]);
            let g = groups.index_of(kept[k]);
            assert(groups[g].name == p.name && groups[g].versions.contains(p.version));
            lemma_group_sizes(groups, members, g);
        }
        if is_duplicate(members, p) {
            let g = choose|g: int|
                0 <= g < groups.len() && (#[trigger] groups[g]).name == p.name
                    && groups[g].versions.contains(p.version);
            lemma_group_sizes(groups, members, g);
            assert(pred(groups[g]));
            assert(kept.contains(groups[g]));
            let k = kept.index_of(groups[g]);
            assert(kept[k].name == p.name && kept[k].versions.contains(p.version));
        }
    }
}

/// Dropping groups keeps the names ascending.
proof fn lemma_filter_order(groups: Seq<DepView>, i: int, j: int)
    requires
        forall|a: int, b: int|
            0 <= a < b < groups.len() ==> (#[trigger] groups[a]).name < (#[trigger] groups[b]).name,
        0 <= i < j < multiples(groups).len(),
    ensures
        multiples(groups)[i].name < multiples(groups)[j].name,
    decreases groups.len(),
{
    let pred = |g: DepView| is_multiple(g);
    let kept = groups.filter(pred);
    if groups.len() == 0 {
        assert(kept.len() == 0) by {
            reveal(Seq::filter);
        }
    } else {
        let front = groups.drop_last();
        assert(front.push(groups.last()) =~= groups);
        front.lemma_filter_push(groups.last(), pred);
        let kept_front = front.filter(pred);
        assert forall|a: int, b: int| 0 <= a < b < front.len() implies (#[trigger] front[a]).name
            < (#[trigger] front[b]).name by {
            assert(groups[a].name < groups[b].name);
        }
        if j < kept_front.len() {
            lemma_filter_order(front, i, j);
        } else {
            broadcast use vstd::seq_lib::group_filter_ensures;
            assert(kept_front.contains(kept_front[i]));
            front.lemma_filter_contains_rev(pred, kept_front[i]);
            let g = front.index_of(kept_front[i]);
            assert(groups[g].name < groups[groups.len() - 1].name);
        }
    }
}

/// The groups that hold more than one version, in their order.
pub(crate) fn keep_multiples(all: &Vec<Dep>) -> (kept: Vec<MultiVerDep>)
    ensures
        multi_views(kept@) == multiples(dep_views(all@)),
{
    let ghost groups = dep_views(all@);
    let ghost pred = |g: DepView| is_multiple(g);
    let mut kept: Vec<MultiVerDep> = Vec::new();
    let n = all.len();
    let mut i: usize = 0;
    assert(groups.take(0).filter(pred) =~= Seq::<DepView>::empty()) by {
        reveal(Seq::filter);
    }
    while i < n
        invariant
            n == all@.len(),
            i <= n,
            groups == dep_views(all@),
            pred == (|g: DepView| is_multiple(g)),
            multi_views(kept@) == groups.take(i as int).filter(pred),
        decreases n - i,
    {
        let dep = &all[i];
        proof {
            assert(groups.take(i as int).push(groups[i as int]) =~= groups.take(i + 1));
            groups.take(i as int).lemma_filter_push(groups[i as int], pred);
        }
        if dep.has_multiple_versions() {
            let versions = copy_versions(dep.versions());
            let ghost before = multi_views(kept@);
            kept.push(MultiVerDep::new(dep.name(), versions));
            assert(multi_views(kept@) =~= before.push(groups[i as int]));
        }
        i += 1;
    }
    assert(groups.take(n as int) =~= groups);
    kept
}

/// A copy of the versions.
fn copy_versions(versions: &Vec<u64>) -> (copy: Vec<u64>)
    ensures
        copy@ == versions@,
{
    let mut copy: Vec<u64> = Vec::new();
    let mut i: usize = 0;
    while i < versions.len()
        invariant
            i <= versions@.len(),
            copy@ == versions@.take(i as int),
        decreases versions@.len() - i,
    {
        copy.push(versions[i]);
        assert(versions@.take(i as int).push(versions@[i as int]) =~= versions@.take(i + 1));
        i += 1;
    }
    assert(versions@.take(i as int) =~= versions@);
    copy
}

} // verus!
