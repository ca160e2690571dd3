//! For each package that requires a duplicate, directly or through other
//! packages: the duplicates that it requires so.

use crate::dep_tree::{
    ascending, dep_views, group_by_name, group_holds, is_duplicate, DepVersionView, DepView, Deps,
};
use crate::multi_ver_deps::{
    keep_multiples, lemma_filter_groups, multi_grouped, multi_views, MultiVerDep,
    MultiVerDeps as DuplicateIndex,
};
use crate::paths::{
    acyclic, lemma_no_loop, lemma_reaches_extend, lemma_reaches_first, lemma_reaches_then, ranked,
    reaches,
};
use crate::pkg_map::{sorted_copy, PackageMap};
use crate::pkg_set::{
    packages, set_contains, set_get, set_insert, set_len, set_new, PackageSet,
};
use crate::{Error, Package};
use vstd::prelude::*;

verus! {

/// The versions are those of the name among the duplicates, ascending.
pub open spec fn versions_of(held: Seq<Package>, name: u64, versions: Seq<u64>) -> bool {
    &&& forall|a: int, b: int| 0 <= a < b < versions.len() ==> versions[a] < versions[b]
    &&& forall|v: u64| versions.contains(v) <==> held.contains(Package { name, version: v })
}

// *** MultiVerDeps ***

/// The duplicates below one package, in ascending order.
#[derive(Debug)]
pub struct MultiVerDeps {
    deps: PackageSet,
}

impl View for MultiVerDeps {
    type V = Seq<Package>;

    closed spec fn view(&self) -> Seq<Package> {
        packages(self.deps)
    }
}

impl MultiVerDeps {
    pub open spec fn wf(&self) -> bool {
        ascending(self@)
    }

    pub fn new() -> (seen: Self)
        ensures
            seen.wf(),
            seen@ == Seq::<Package>::empty(),
    {
        Self { deps: set_new() }
    }

    /// Adds one version of a name, which is not to stand before a
    /// duplicate that is held already.
    fn add(&mut self, name: u64, version: u64)
        requires
            old(self).wf(),
            forall|i: int|
                0 <= i < old(self)@.len() ==> !(Package { name, version }).precedes(
                    #[trigger] old(self)@[i],
                ),
        ensures
            final(self).wf(),
            final(self)@ == if old(self)@.contains(Package { name, version }) {
                old(self)@
            } else {
                old(self)@.push(Package { name, version })
            },
    {
        let _ = set_insert(&mut self.deps, Package { name, version });
    }

    /// Whether the duplicate is held.
    pub fn contains(&self, p: &Package) -> (found: bool)
        ensures
            found == self@.contains(*p),
    {
        set_contains(&self.deps, p)
    }

    /// The versions of a name that are held, ascending, where there are
    /// any.
    pub fn get(&self, name: u64) -> (res: Option<Vec<u64>>)
        requires
            self.wf(),
        ensures
            res is Some <==> exists|v: u64| #[trigger] self@.contains(Package { name, version: v }),
            res matches Some(versions) ==> versions_of(self@, name, versions@),
    {
        let mut versions: Vec<u64> = Vec::new();
        let n = set_len(&self.deps);
        let mut i: usize = 0;
        while i < n
            invariant
                self.wf(),
                n == self@.len(),
                i <= n,
                forall|a: int, b: int| 0 <= a < b < versions@.len() ==> versions@[a] < versions@[b],
                forall|a: int, k: int|
                    0 <= a < versions@.len() && i <= k < n && (#[trigger] self@[k]).name == name
                        ==> #[trigger] versions@[a] < self@[k].version,
                forall|v: u64|
                    versions@.contains(v) <==> exists|k: int|
                        0 <= k < i && #[trigger] self@[k] == (Package { name, version: v }),
            decreases n - i,
        {
            let p = set_get(&self.deps, i);
            let ghost before = versions@;
            if p.name == name {
                versions.push(p.version);
            }
            proof {
                assert forall|a: int, k: int|
                    0 <= a < versions@.len() && i + 1 <= k < n && (#[trigger] self@[k]).name
                        == name implies #[trigger] versions@[a] < self@[k].version by {
                    if a == before.len() {
                        assert(self@[i as int].precedes(self@[k]));
                    }
                }
                assert forall|v: u64|
                    versions@.contains(v) <==> exists|k: int|
                        0 <= k < i + 1 && #[trigger] self@[k] == (Package { name, version: v }) by {
                    if before.contains(v) {
                        let k = choose|k: int|
                            0 <= k < i && #[trigger] self@[k] == (Package { name, version: v });
                        assert(0 <= k < i + 1);
                        let a = before.index_of(v);
                        assert(versions@[a] == v);
                    }
                    if p.name == name {
                        assert(versions@[before.len() as int] == p.version);
                    }
                    if versions@.contains(v) && !before.contains(v) {
                        let a = versions@.index_of(v);
                        assert(a == before.len());
                        assert(self@[i as int] == (Package { name, version: v }));
                    }
                    if exists|k: int|
                        0 <= k < i + 1 && #[trigger] self@[k] == (Package { name, version: v }) {
                        let k = choose|k: int|
                            0 <= k < i + 1 && #[trigger] self@[k] == (Package { name, version: v });
                        if k < i {
                            assert(before.contains(v));
                        }
                    }
                }
            }
            i += 1;
        }
        proof {
            assert forall|v: u64|
                versions@.contains(v) <==> self@.contains(Package { name, version: v }) by {
                if self@.contains(Package { name, version: v }) {
                    let k = self@.index_of(Package { name, version: v });
                    assert(0 <= k < n && self@[k] == (Package { name, version: v }));
                }
            }
            if versions@.len() > 0 {
                assert(versions@.contains(versions@[0]));
                assert(self@.contains(Package { name, version: versions@[0] }));
            }
            if exists|v: u64| #[trigger] self@.contains(Package { name, version: v }) {
                let v = choose|v: u64| #[trigger] self@.contains(Package { name, version: v });
                assert(versions@.contains(v));
            }
        }
        if versions.len() == 0 {
            None
        } else {
            Some(versions)
        }
    }

    /// The names that are held in more than one version, ascending, each
    /// with its versions.
    pub fn multi_ver_iter(&self) -> (groups: Vec<MultiVerDep>)
        requires
            self.wf(),
        ensures
            multi_grouped(multi_views(groups@)),
            forall|p: Package| #[trigger]
                group_holds(multi_views(groups@), p) <==> is_duplicate(
                    self@.to_set(),
                    p,
                ),
    {
        let all = group_by_name(&self.deps);
        let groups = keep_multiples(&all);
        proof {
            lemma_filter_groups(dep_views(all@), self@.to_set());
        }
        groups
    }

    /// The duplicates, in ascending order.
    pub fn packages(&self) -> (set: &PackageSet)
        ensures
            packages(*set) == self@,
    {
        &self.deps
    }
}


/// The duplicate is a version of one of the first `i` names, or one of
/// the first `j` versions of the name at `i`.
spec fn handled(groups: Seq<DepView>, i: int, j: int, d: Package) -> bool {
    ||| exists|g: int|
        0 <= g < i && g < groups.len() && (#[trigger] groups[g]).name == d.name
            && groups[g].versions.contains(d.version)
    ||| 0 <= i < groups.len() && groups[i].name == d.name && exists|b: int|
        0 <= b < j && b < groups[i].versions.len() && #[trigger] groups[i].versions[b] == d.version
}

/// A duplicate that was handled stands before the one that is next.
proof fn lemma_handled_before(groups: Seq<DepView>, i: int, j: int, d: Package)
    requires
        multi_grouped(groups),
        0 <= i < groups.len(),
        0 <= j < groups[i].versions.len(),
        handled(groups, i, j, d),
    ensures
        d.precedes(Package { name: groups[i].name, version: groups[i].versions[j] }),
{
    if 0 <= i < groups.len() && groups[i].name == d.name && exists|b: int|
        0 <= b < j && b < groups[i].versions.len() && #[trigger] groups[i].versions[b]
            == d.version {
        let b = choose|b: int|
            0 <= b < j && b < groups[i].versions.len() && #[trigger] groups[i].versions[b]
                == d.version;
        assert(groups[i].versions[b] < groups[i].versions[j]);
    } else {
        let g = choose|g: int|
            0 <= g < i && g < groups.len() && (#[trigger] groups[g]).name == d.name
                && groups[g].versions.contains(d.version);
        assert(groups[g].name < groups[i].name);
    }
}

/// A duplicate that stands before the one that is next was handled.
proof fn lemma_before_handled(groups: Seq<DepView>, i: int, j: int, d: Package)
    requires
        multi_grouped(groups),
        0 <= i < groups.len(),
        0 <= j < groups[i].versions.len(),
        group_holds(groups, d),
        d.precedes(Package { name: groups[i].name, version: groups[i].versions[j] }),
    ensures
        handled(groups, i, j, d),
{
    let g = choose|g: int|
        0 <= g < groups.len() && (#[trigger] groups[g]).name == d.name
            && groups[g].versions.contains(d.version);
    if g < i {
    } else if g == i {
        let b = groups[i].versions.index_of(d.version);
        assert(groups[i].versions[b] == d.version);
        if b >= j {
            if b > j {
                assert(groups[i].versions[j] < groups[i].versions[b]);
            }
        }
    } else {
        assert(groups[i].name < groups[g].name);
    }
}

/// One more version of the name at `i` is handled.
proof fn lemma_handled_step(groups: Seq<DepView>, i: int, j: int, d: Package)
    requires
        0 <= i < groups.len(),
        0 <= j < groups[i].versions.len(),
    ensures
        handled(groups, i, j + 1, d) <==> handled(groups, i, j, d) || d == (Package {
            name: groups[i].name,
            version: groups[i].versions[j],
        }),
{
    let versions = groups[i].versions;
    if handled(groups, i, j, d) {
        if groups[i].name == d.name && exists|b: int|
            0 <= b < j && b < versions.len() && #[trigger] versions[b] == d.version {
            let b = choose|b: int|
                0 <= b < j && b < versions.len() && #[trigger] versions[b] == d.version;
            assert(0 <= b < j + 1 && versions[b] == d.version);
        }
    }
    if d == (Package { name: groups[i].name, version: versions[j] }) {
        assert(0 <= j < j + 1 && versions[j] == d.version);
    }
    if handled(groups, i, j + 1, d) {
        if groups[i].name == d.name && exists|b: int|
            0 <= b < j + 1 && b < versions.len() && #[trigger] versions[b] == d.version {
            let b = choose|b: int|
                0 <= b < j + 1 && b < versions.len() && #[trigger] versions[b] == d.version;
            if b < j {
                assert(0 <= b < j && versions[b] == d.version);
            }
        }
    }
}

/// With all versions of the name at `i` handled, the first `i + 1` names
/// are handled.
proof fn lemma_handled_next(groups: Seq<DepView>, i: int, d: Package)
    requires
        0 <= i < groups.len(),
    ensures
        handled(groups, i + 1, 0, d) <==> handled(groups, i, groups[i].versions.len() as int, d),
{
    let versions = groups[i].versions;
    let count = versions.len() as int;
    if handled(groups, i + 1, 0, d) {
        let g = choose|g: int|
            0 <= g < i + 1 && g < groups.len() && (#[trigger] groups[g]).name == d.name
                && groups[g].versions.contains(d.version);
        if g == i {
            let b = versions.index_of(d.version);
            assert(0 <= b < count && versions[b] == d.version);
        }
    }
    if handled(groups, i, count, d) {
        if groups[i].name == d.name && exists|b: int|
            0 <= b < count && b < versions.len() && #[trigger] versions[b] == d.version {
            let b = choose|b: int|
                0 <= b < count && b < versions.len() && #[trigger] versions[b] == d.version;
            assert(versions.contains(d.version));
            assert(groups[i].name == d.name && groups[i].versions.contains(d.version));
        } else {
            let g = choose|g: int|
                0 <= g < i && g < groups.len() && (#[trigger] groups[g]).name == d.name
                    && groups[g].versions.contains(d.version);
            assert(0 <= g < i + 1);
        }
    }
}

/// With all names handled, every duplicate is handled.
proof fn lemma_handled_all(groups: Seq<DepView>, d: Package)
    ensures
        handled(groups, groups.len() as int, 0, d) <==> group_holds(groups, d),
{
    if group_holds(groups, d) {
        let g = choose|g: int|
            0 <= g < groups.len() && (#[trigger] groups[g]).name == d.name
                && groups[g].versions.contains(d.version);
        assert(0 <= g < groups.len() && g < groups.len());
    }
}

// *** Walking in any order ***

/// What one walk upward from a duplicate finds: each package that
/// requires it, directly or through other packages, together with it.
pub open spec fn walk_one(nodes: Map<Package, DepVersionView>, root: Package) -> Set<
    (Package, Package),
> {
    Set::new(|pair: (Package, Package)| pair.1 == root && reaches(nodes, root, pair.0))
}

/// What the walks from the roots find, taken one after the other in the
/// order of the sequence.
pub open spec fn walk_all(nodes: Map<Package, DepVersionView>, roots: Seq<Package>) -> Set<
    (Package, Package),
>
    decreases roots.len(),
{
    if roots.len() == 0 {
        Set::empty()
    } else {
        walk_all(nodes, roots.drop_last()).union(walk_one(nodes, roots.last()))
    }
}

/// The walks find a duplicate below a package where the duplicate is one
/// of the roots and the package requires it.
pub proof fn lemma_walk_all(
    nodes: Map<Package, DepVersionView>,
    roots: Seq<Package>,
    a: Package,
    d: Package,
)
    ensures
        walk_all(nodes, roots).contains((a, d)) <==> roots.contains(d) && reaches(nodes, d, a),
    decreases roots.len(),
{
    if roots.len() > 0 {
        lemma_walk_all(nodes, roots.drop_last(), a, d);
        if roots.drop_last().contains(d) {
            let k = roots.drop_last().index_of(d);
            assert(roots[k] == d);
        }
        if roots.contains(d) {
            let k = roots.index_of(d);
            if k < roots.len() - 1 {
                assert(roots.drop_last()[k] == d);
            }
        }
        assert(roots.last() == roots[roots.len() - 1]);
    }
}

/// The order of the roots does not change what the walks find: two
/// sequences of the same roots give the same.
pub proof fn lemma_walk_order(
    nodes: Map<Package, DepVersionView>,
    first: Seq<Package>,
    second: Seq<Package>,
)
    requires
        forall|d: Package| first.contains(d) <==> second.contains(d),
    ensures
        walk_all(nodes, first) == walk_all(nodes, second),
{
    assert forall|pair: (Package, Package)|
        walk_all(nodes, first).contains(pair) == walk_all(nodes, second).contains(pair) by {
        lemma_walk_all(nodes, first, pair.0, pair.1);
        lemma_walk_all(nodes, second, pair.0, pair.1);
    }
    assert(walk_all(nodes, first) =~= walk_all(nodes, second));
}

// *** MultiVerDepParents ***

/// The duplicates that each key holds, by key.
spec fn seen_views(map: PackageMap<MultiVerDeps>) -> Map<Package, Seq<Package>> {
    Map::new(|p: Package| map.entries().contains_key(p), |p: Package| map.entries()[p]@)
}

/// The package `a` is `curr` or stands above it or above one of
/// `upto`, and is not `pkg`.
spec fn climbed(
    nodes: Map<Package, DepVersionView>,
    pkg: Package,
    curr: Package,
    upto: Seq<Package>,
    a: Package,
) -> bool {
    a != pkg && (a == curr || exists|j: int|
        0 <= j < upto.len() && (a == #[trigger] upto[j] || reaches(nodes, upto[j], a)))
}

/// For each package that requires a duplicate, directly or through other
/// packages, the duplicates that it requires so.
#[derive(Debug)]
pub struct MultiVerDepParents {
    parents: PackageMap<MultiVerDeps>,
}

impl View for MultiVerDepParents {
    type V = Map<Package, Seq<Package>>;

    /// The duplicates below each package that has any, in ascending order.
    closed spec fn view(&self) -> Map<Package, Seq<Package>> {
        seen_views(self.parents)
    }
}

impl MultiVerDepParents {
    /// The entries are stored where their packages are looked up.
    pub closed spec fn well_stored(&self) -> bool {
        self.parents.wf() && forall|i: int|
            0 <= i < self.parents.values@.len() ==> (#[trigger] self.parents.values@[i]).wf()
                && self.parents.values@[i]@.len() > 0
    }

    /// The packages that have an entry, each once, as the entries are
    /// stored.
    pub closed spec fn order(&self) -> Seq<Package> {
        self.parents.order()
    }

    pub open spec fn wf(&self) -> bool {
        &&& self.well_stored()
        &&& self.order().no_duplicates()
        &&& forall|a: Package| self.order().contains(a) <==> #[trigger] self@.contains_key(a)
        &&& forall|a: Package| #[trigger]
            self@.contains_key(a) ==> ascending(self@[a]) && self@[a].len() > 0
    }

    /// The duplicate `d` stands below the package `a`.
    pub open spec fn sees(&self, a: Package, d: Package) -> bool {
        self@.contains_key(a) && self@[a].contains(d)
    }

    /// Each package that has a duplicate below it, together with that
    /// duplicate.
    pub open spec fn pairs(&self) -> Set<(Package, Package)> {
        Set::new(|pair: (Package, Package)| self.sees(pair.0, pair.1))
    }

    /// The duplicates of `multi_ver_deps` stand below the packages that
    /// require them, directly or through other packages.
    pub open spec fn closes(&self, deps: Deps, multi_ver_deps: DuplicateIndex) -> bool {
        forall|a: Package, d: Package| #[trigger]
            self.sees(a, d) <==> multi_ver_deps.contains(d) && reaches(deps@, d, a)
    }

    /// No duplicate that is held stands after `p`.
    pub open spec fn bounded(&self, p: Package) -> bool {
        forall|a: Package, d: Package| #[trigger] self.sees(a, d) ==> !p.precedes(d)
    }

    /// An index without entries.
    pub fn new() -> (res: Self)
        ensures
            res.wf(),
            res@ == Map::<Package, Seq<Package>>::empty(),
            res.order() == Seq::<Package>::empty(),
    {
        let res = Self { parents: PackageMap::new() };
        assert(res@ =~= Map::<Package, Seq<Package>>::empty());
        res
    }

    proof fn lemma_wf(&self)
        requires
            self.well_stored(),
        ensures
            self.wf(),
    {
        assert forall|a: Package| #[trigger] self@.contains_key(a) implies ascending(self@[a])
            && self@[a].len() > 0 by {
            let j = self.parents.order().index_of(a);
            self.parents.lemma_at(j);
        }
    }

    /// The duplicate stands below the parent.
    fn add(&mut self, parent: Package, name: u64, ver: u64)
        requires
            old(self).wf(),
            old(self).bounded(Package { name, version: ver }),
        ensures
            final(self).wf(),
            forall|a: Package, d: Package|
                #[trigger] final(self).sees(a, d) <==> old(self).sees(a, d) || (a == parent && d == (
                Package { name, version: ver })),
    {
        let ghost before = *self;
        let ghost dup = Package { name, version: ver };
        match self.parents.position(&parent) {
            Some(at) => {
                proof {
                    assert(before@[parent] == before.parents.values@[at as int]@);
                    assert forall|i: int| 0 <= i < before@[parent].len() implies !dup.precedes(
                        #[trigger] before@[parent][i],
                    ) by {
                        assert(before@[parent].contains(before@[parent][i]));
                        assert(before.sees(parent, before@[parent][i]));
                    }
                }
                self.parents.values[at].add(name, ver);
                proof {
                    PackageMap::lemma_update(&before.parents, &self.parents, at as int);
                    self.lemma_wf();
                    let held = before@[parent];
                    assert(held.push(dup)[held.len() as int] == dup);
                    assert forall|a: Package, d: Package| #[trigger]
                        self.sees(a, d) <==> before.sees(a, d) || (a == parent && d == dup) by {
                        if a == parent && held.contains(d) {
                            let k = held.index_of(d);
                            assert(held.push(dup)[k] == d);
                        }
                    }
                }
            },
            None => {
                let mut seen = MultiVerDeps::new();
                seen.add(name, ver);
                self.parents.append(parent, seen);
                proof {
                    self.lemma_wf();
                    assert(seen@[0] == dup);
                    assert forall|a: Package, d: Package| #[trigger]
                        self.sees(a, d) <==> before.sees(a, d) || (a == parent && d == dup) by {}
                }
            },
        }
    }

    /// Walks upward from `curr_pkg`, which stands above `pkg` or is `pkg`:
    /// `pkg` stands below each package that the walk meets but itself.
    fn climb(
        &mut self,
        pkg: &Package,
        curr_pkg: &Package,
        deps: &Deps,
        Ghost(rank): Ghost<Map<Package, nat>>,
    ) -> (res: Result<(), Error>)
        requires
            old(self).wf(),
            deps.wf(),
            ranked(deps@, rank),
            old(self).bounded(*pkg),
        ensures
            final(self).wf(),
            final(self).bounded(*pkg),
            res is Ok <==> deps@.contains_key(*curr_pkg),
            res matches Err(e) ==> final(self)@ == old(self)@ && final(self).order() == old(
                self,
            ).order() && e == (Error::CorruptedGraph {
                name: curr_pkg.name,
                version: curr_pkg.version,
            }),
            res is Ok ==> forall|a: Package, d: Package|
                #[trigger] final(self).sees(a, d) <==> old(self).sees(a, d) || (d == *pkg && a
                    != *pkg && (a == *curr_pkg || reaches(deps@, *curr_pkg, a))),
        decreases rank[*curr_pkg],
    {
        let ver = match deps.get_version(curr_pkg) {
            Ok(ver) => ver,
            Err(e) => {
                return Err(e);
            },
        };
        let ghost start = *self;
        if !(pkg.name == curr_pkg.name && pkg.version == curr_pkg.version) {
            self.add(*curr_pkg, pkg.name, pkg.version);
        }
        let dependents = ver.dependents();
        let ghost above = packages(*dependents);
        let n = set_len(dependents);
        let mut i: usize = 0;
        assert forall|a: Package, d: Package| #[trigger]
            self.sees(a, d) <==> start.sees(a, d) || (d == *pkg && climbed(
                deps@,
                *pkg,
                *curr_pkg,
                above.take(0),
                a,
            )) by {}
        while i < n
            invariant
                self.wf(),
                deps.wf(),
                ranked(deps@, rank),
                self.bounded(*pkg),
                deps@.contains_key(*curr_pkg),
                above == packages(*dependents),
                above == deps@[*curr_pkg].dependents,
                n == above.len(),
                i <= n,
                forall|a: Package, d: Package|
                    #[trigger] self.sees(a, d) <==> start.sees(a, d) || (d == *pkg && climbed(
                        deps@,
                        *pkg,
                        *curr_pkg,
                        above.take(i as int),
                        a,
                    )),
            decreases n - i,
        {
            let dependent = set_get(dependents, i);
            let ghost before = *self;
            assert(deps@[*curr_pkg].dependents.contains(dependent));
            match self.climb(pkg, &dependent, deps, Ghost(rank)) {
                Ok(()) => {},
                Err(e) => {
                    return Err(e);
                },
            }
            proof {
                let less = above.take(i as int);
                let more = above.take(i + 1);
                assert(more[i as int] == dependent);
                assert forall|a: Package, d: Package| #[trigger]
                    self.sees(a, d) <==> start.sees(a, d) || (d == *pkg && climbed(
                        deps@,
                        *pkg,
                        *curr_pkg,
                        more,
                        a,
                    )) by {
                    assert(before.sees(a, d) <==> start.sees(a, d) || (d == *pkg && climbed(
                        deps@,
                        *pkg,
                        *curr_pkg,
                        less,
                        a,
                    )));
                    if climbed(deps@, *pkg, *curr_pkg, less, a) && a != *curr_pkg {
                        let j = choose|j: int|
                            0 <= j < less.len() && (a == #[trigger] less[j] || reaches(
                                deps@,
                                less[j],
                                a,
                            ));
                        assert(more[j] == less[j]);
                    }
                    if climbed(deps@, *pkg, *curr_pkg, more, a) && a != *curr_pkg {
                        let j = choose|j: int|
                            0 <= j < more.len() && (a == #[trigger] more[j] || reaches(
                                deps@,
                                more[j],
                                a,
                            ));
                        if j < i {
                            assert(less[j] == more[j]);
                        }
                    }
                }
            }
            i += 1;
        }
        proof {
            assert(above.take(n as int) =~= above);
            assert forall|a: Package, d: Package| #[trigger]
                self.sees(a, d) <==> start.sees(a, d) || (d == *pkg && a != *pkg && (a
                    == *curr_pkg || reaches(deps@, *curr_pkg, a))) by {
                if a != *curr_pkg && climbed(deps@, *pkg, *curr_pkg, above, a) {
                    let j = choose|j: int|
                        0 <= j < above.len() && (a == #[trigger] above[j] || reaches(
                            deps@,
                            above[j],
                            a,
                        ));
                    assert(deps@[*curr_pkg].dependents.contains(above[j]));
                    lemma_reaches_extend(deps@, *curr_pkg, above[j], a);
                }
                if reaches(deps@, *curr_pkg, a) {
                    let next = lemma_reaches_first(deps@, *curr_pkg, a);
                    let j = above.index_of(next);
                    assert(above[j] == next);
                }
            }
        }
        Ok(())
    }

    /// Walks upward from the duplicate `pkg`, which is then held below
    /// each package that requires it, directly or through other packages.
    fn build_multi_ver_parents(&mut self, pkg: &Package, deps: &Deps) -> (res: Result<(), Error>)
        requires
            old(self).wf(),
            deps.wf(),
            acyclic(deps@),
            old(self).bounded(*pkg),
        ensures
            final(self).wf(),
            final(self).bounded(*pkg),
            res is Ok <==> deps@.contains_key(*pkg),
            res matches Err(e) ==> final(self)@ == old(self)@ && final(self).order() == old(
                self,
            ).order() && e == (Error::CorruptedGraph { name: pkg.name, version: pkg.version }),
            res is Ok ==> forall|a: Package, d: Package|
                #[trigger] final(self).sees(a, d) <==> old(self).sees(a, d) || (d == *pkg
                    && reaches(deps@, *pkg, a)),
    {
        let ghost rank = choose|rank: Map<Package, nat>| ranked(deps@, rank);
        let res = self.climb(pkg, pkg, deps, Ghost(rank));
        proof {
            lemma_no_loop(deps@, *pkg);
        }
        res
    }

    /// Walks upward from each duplicate. The graph is to have no cycle:
    /// with one, the walk would not end.
    ///
    /// Fails on the first duplicate that is not a node of the graph.
    pub fn build(deps: &Deps, multi_ver_deps: &DuplicateIndex) -> (res: Result<Self, Error>)
        requires
            deps.wf(),
            multi_ver_deps.wf(),
            acyclic(deps@),
        ensures
            res is Ok <==> forall|d: Package| #[trigger]
                multi_ver_deps.contains(d) ==> deps@.contains_key(d),
            res matches Ok(parents) ==> parents.wf() && parents.closes(*deps, *multi_ver_deps),
            res matches Err(e) ==> exists|d: Package|
                #[trigger] multi_ver_deps.contains(d) && !deps@.contains_key(d) && e == (
                Error::CorruptedGraph { name: d.name, version: d.version }) && forall|
                    earlier: Package,
                |
                    #[trigger] multi_ver_deps.contains(earlier) && earlier.precedes(d)
                        ==> deps@.contains_key(earlier),
    {
        let mut parents = Self::new();
        let groups = multi_ver_deps.iter();
        let ghost views = multi_ver_deps@;
        let n = groups.len();
        let mut i: usize = 0;
        while i < n
            invariant
                deps.wf(),
                acyclic(deps@),
                parents.wf(),
                views == multi_ver_deps@,
                views == multi_views(groups@),
                multi_grouped(views),
                n == groups@.len(),
                i <= n,
                forall|a: Package, d: Package|
                    #[trigger] parents.sees(a, d) <==> handled(views, i as int, 0, d) && reaches(
                        deps@,
                        d,
                        a,
                    ),
                forall|d: Package| #[trigger]
                    handled(views, i as int, 0, d) ==> deps@.contains_key(d),
            decreases n - i,
        {
            let group = &groups[i];
            let name = group.name();
            let versions = group.iter();
            let count = versions.len();
            let mut j: usize = 0;
            assert(views[i as int] == group@);
            while j < count
                invariant
                    deps.wf(),
                    acyclic(deps@),
                    parents.wf(),
                    views == multi_ver_deps@,
                    multi_grouped(views),
                    0 <= i < views.len(),
                    views[i as int].name == name,
                    views[i as int].versions == versions@,
                    count == versions@.len(),
                    j <= count,
                    forall|a: Package, d: Package|
                        #[trigger] parents.sees(a, d) <==> handled(views, i as int, j as int, d)
                            && reaches(deps@, d, a),
                    forall|d: Package| #[trigger]
                        handled(views, i as int, j as int, d) ==> deps@.contains_key(d),
                decreases count - j,
            {
                let pkg = Package { name, version: versions[j] };
                proof {
                    assert forall|a: Package, d: Package| #[trigger]
                        parents.sees(a, d) implies !pkg.precedes(d) by {
                        lemma_handled_before(views, i as int, j as int, d);
                    }
                }
                let ghost before = parents;
                match parents.build_multi_ver_parents(&pkg, deps) {
                    Ok(()) => {},
                    Err(e) => {
                        proof {
                            assert(views[i as int].name == pkg.name
                                && views[i as int].versions.contains(pkg.version));
                            assert(multi_ver_deps.contains(pkg));
                            assert forall|earlier: Package| #[trigger]
                                multi_ver_deps.contains(earlier) && earlier.precedes(
                                    pkg,
                                ) implies deps@.contains_key(earlier) by {
                                lemma_before_handled(views, i as int, j as int, earlier);
                            }
                        }
                        return Err(e);
                    },
                }
                proof {
                    assert forall|d: Package| #[trigger]
                        handled(views, i as int, j + 1, d) <==> handled(
                            views,
                            i as int,
                            j as int,
                            d,
                        ) || d == pkg by {
                        lemma_handled_step(views, i as int, j as int, d);
                    }
                    assert forall|a: Package, d: Package| #[trigger]
                        parents.sees(a, d) <==> handled(views, i as int, j + 1, d) && reaches(
                            deps@,
                            d,
                            a,
                        ) by {
                        assert(before.sees(a, d) <==> handled(views, i as int, j as int, d)
                            && reaches(deps@, d, a));
                    }
                }
                j += 1;
            }
            proof {
                assert forall|d: Package| #[trigger]
                    handled(views, i + 1, 0, d) <==> handled(views, i as int, count as int, d) by {
                    lemma_handled_next(views, i as int, d);
                }
                assert forall|a: Package, d: Package| #[trigger]
                    parents.sees(a, d) <==> handled(views, i + 1, 0, d) && reaches(deps@, d, a) by {
                    assert(parents.sees(a, d) <==> handled(views, i as int, count as int, d)
                        && reaches(deps@, d, a));
                }
            }
            i += 1;
        }
        proof {
            assert forall|d: Package| #[trigger]
                handled(views, n as int, 0, d) <==> multi_ver_deps.contains(d) by {
                lemma_handled_all(views, d);
            }
            assert forall|d: Package| #[trigger]
                multi_ver_deps.contains(d) implies deps@.contains_key(d) by {
                assert(handled(views, n as int, 0, d));
            }
            assert forall|a: Package, d: Package| #[trigger]
                parents.sees(a, d) <==> multi_ver_deps.contains(d) && reaches(deps@, d, a) by {
                assert(parents.sees(a, d) <==> handled(views, n as int, 0, d) && reaches(
                    deps@,
                    d,
                    a,
                ));
            }
        }
        Ok(parents)
    }

    /// What stands below a dependency of a package stands below the
    /// package.
    pub proof fn lemma_below_dependency(
        &self,
        deps: Deps,
        multi_ver_deps: DuplicateIndex,
        p: Package,
        dependency: Package,
        d: Package,
    )
        requires
            deps.wf(),
            self.closes(deps, multi_ver_deps),
            deps@.contains_key(p),
            deps@[p].dependencies.contains(dependency),
            self.sees(dependency, d),
        ensures
            self.sees(p, d),
    {
        assert(deps@[dependency].dependents.contains(p));
        lemma_reaches_then(deps@, d, dependency, p);
    }

    /// The index holds what walks from the duplicates find, in whatever
    /// order these are taken.
    pub proof fn lemma_any_order(&self, deps: Deps, multi_ver_deps: DuplicateIndex, roots: Seq<Package>)
        requires
            self.closes(deps, multi_ver_deps),
            forall|d: Package| roots.contains(d) <==> multi_ver_deps.contains(d),
        ensures
            self.pairs() == walk_all(deps@, roots),
    {
        assert forall|pair: (Package, Package)|
            self.pairs().contains(pair) == walk_all(deps@, roots).contains(pair) by {
            lemma_walk_all(deps@, roots, pair.0, pair.1);
            assert(self.sees(pair.0, pair.1) <==> multi_ver_deps.contains(pair.1) && reaches(
                deps@,
                pair.1,
                pair.0,
            ));
        }
        assert(self.pairs() =~= walk_all(deps@, roots));
    }

    /// The packages that have an entry, in ascending order.
    pub fn parents(&self) -> (list: Vec<Package>)
        requires
            self.wf(),
        ensures
            ascending(list@),
            forall|p: Package| list@.contains(p) <==> self@.contains_key(p),
    {
        let sorted = sorted_copy(&self.parents.keys);
        let n = set_len(&sorted);
        let mut list: Vec<Package> = Vec::new();
        let mut k: usize = 0;
        while k < n
            invariant
                n == packages(sorted).len(),
                k <= n,
                list@ == packages(sorted).take(k as int),
            decreases n - k,
        {
            list.push(set_get(&sorted, k));
            assert(packages(sorted).take(k as int).push(packages(sorted)[k as int])
                =~= packages(sorted).take(k + 1));
            k += 1;
        }
        assert(packages(sorted).take(n as int) =~= packages(sorted));
        list
    }

    /// The duplicates below a package, where there are any.
    pub fn get_multi_ver_deps(&self, parent: &Package) -> (res: Option<&MultiVerDeps>)
        requires
            self.wf(),
        ensures
            res is Some <==> self@.contains_key(*parent),
            res matches Some(seen) ==> seen@ == self@[*parent] && seen.wf(),
    {
        match self.parents.position(parent) {
            Some(at) => Some(&self.parents.values[at]),
            None => None,
        }
    }
}


impl Default for MultiVerDepParents {
    /// An index without entries.
    fn default() -> (res: Self)
        ensures
            res.wf(),
            res@ == Map::<Package, Seq<Package>>::empty(),
            res.order() == Seq::<Package>::empty(),
    {
        Self::new()
    }
}

} // verus!
