//! Which package is to blame for which duplication, directly or indirectly.
//!
//! A package sees a duplication of a name where at least two versions of
//! the name stand below it. It is indirectly to blame where one of its
//! dependencies has all those versions below it and none has only a part
//! of them. It is directly to blame where none has them all, or one has a
//! part of them.

use crate::dep_tree::{ascending, group_holds, has_multiple_versions, is_duplicate, DepView};
use crate::multi_ver_deps::{multi_grouped, multi_views};
use crate::multi_ver_parents::MultiVerDepParents;
use crate::pkg_map::sort_set;
use crate::pkg_set::{packages, set_get, set_insert, set_len, set_new, PackageSet};
use crate::Package;
use vstd::prelude::*;

verus! {

// *** What blame is ***

/// The duplicates below a package, where `seen` holds each package that
/// has a duplicate below it together with that duplicate.
pub open spec fn below(seen: Set<(Package, Package)>, p: Package) -> Set<Package> {
    Set::new(|d: Package| seen.contains((p, d)))
}

/// Every version of the name that stands below `p` stands below `child`.
pub open spec fn covers(
    seen: Set<(Package, Package)>,
    child: Package,
    p: Package,
    name: u64,
) -> bool {
    forall|v: u64| #[trigger]
        below(seen, p).contains(Package { name, version: v }) ==> below(seen, child).contains(
            Package { name, version: v },
        )
}

/// One of the children has below it every version of the name that stands
/// below `p`.
pub open spec fn covered(
    seen: Set<(Package, Package)>,
    children: Seq<Package>,
    p: Package,
    name: u64,
) -> bool {
    exists|i: int| 0 <= i < children.len() && covers(seen, #[trigger] children[i], p, name)
}

/// Some version of the name stands below `child`, but not every version
/// that stands below `p`.
pub open spec fn has_part(
    seen: Set<(Package, Package)>,
    child: Package,
    p: Package,
    name: u64,
) -> bool {
    (exists|v: u64| #[trigger] below(seen, child).contains(Package { name, version: v }))
        && !covers(seen, child, p, name)
}

/// One of the children has below it a part of the versions of the name
/// that stand below `p`, and not all of them.
pub open spec fn parted(
    seen: Set<(Package, Package)>,
    children: Seq<Package>,
    p: Package,
    name: u64,
) -> bool {
    exists|i: int| 0 <= i < children.len() && has_part(seen, #[trigger] children[i], p, name)
}

/// The package `p`, whose dependencies are `children`, sees a duplication
/// of the name, and none of its dependencies sees it whole, or one of
/// them sees a part of it.
pub open spec fn direct_blame(
    seen: Set<(Package, Package)>,
    children: Seq<Package>,
    p: Package,
    name: u64,
) -> bool {
    has_multiple_versions(below(seen, p), name) && (!covered(seen, children, p, name) || parted(
        seen,
        children,
        p,
        name,
    ))
}

/// The package `p`, whose dependencies are `children`, sees a duplication
/// of the name that one of its dependencies sees whole, and none of them
/// sees a part of it only.
pub open spec fn indirect_blame(
    seen: Set<(Package, Package)>,
    children: Seq<Package>,
    p: Package,
    name: u64,
) -> bool {
    has_multiple_versions(below(seen, p), name) && covered(seen, children, p, name) && !parted(
        seen,
        children,
        p,
        name,
    )
}

/// Each of the versions of the name stands below the child.
pub open spec fn holds_all(
    seen: Set<(Package, Package)>,
    child: Package,
    name: u64,
    versions: Seq<u64>,
) -> bool {
    forall|k: int|
        0 <= k < versions.len() ==> below(seen, child).contains(
            Package { name, version: #[trigger] versions[k] },
        )
}

/// The numbers ascend.
pub open spec fn increasing(s: Seq<u64>) -> bool {
    forall|i: int, j: int| 0 <= i < j < s.len() ==> s[i] < s[j]
}

/// A name of which the members hold one version at most is blamed on no
/// package, as long as only members are seen.
pub proof fn lemma_single_version_no_blame(
    seen: Set<(Package, Package)>,
    members: Set<Package>,
    children: Seq<Package>,
    p: Package,
    name: u64,
)
    requires
        forall|a: Package, d: Package| #[trigger] seen.contains((a, d)) ==> members.contains(d),
        !has_multiple_versions(members, name),
    ensures
        !direct_blame(seen, children, p, name),
        !indirect_blame(seen, children, p, name),
{
    if has_multiple_versions(below(seen, p), name) {
        let (v1, v2) = choose|v1: u64, v2: u64|
            v1 != v2 && #[trigger] below(seen, p).contains(Package { name, version: v1 })
                && #[trigger] below(seen, p).contains(Package { name, version: v2 });
        assert(seen.contains((p, Package { name, version: v1 })));
        assert(seen.contains((p, Package { name, version: v2 })));
        assert(members.contains(Package { name, version: v1 }) && members.contains(
            Package { name, version: v2 },
        ));
    }
}

/// A dependency with a part of a duplication below it makes the blame
/// direct, whatever the other dependencies have below them.
pub proof fn lemma_part_is_direct(
    seen: Set<(Package, Package)>,
    children: Seq<Package>,
    p: Package,
    name: u64,
    i: int,
)
    requires
        has_multiple_versions(below(seen, p), name),
        0 <= i < children.len(),
        has_part(seen, children[i], p, name),
    ensures
        direct_blame(seen, children, p, name),
        !indirect_blame(seen, children, p, name),
{
}

/// Where no dependency has a version of the name below it, the blame for
/// a duplication of the name is direct.
pub proof fn lemma_none_is_direct(
    seen: Set<(Package, Package)>,
    children: Seq<Package>,
    p: Package,
    name: u64,
)
    requires
        has_multiple_versions(below(seen, p), name),
        forall|i: int, v: u64|
            0 <= i < children.len() ==> !(#[trigger] below(seen, children[i]).contains(
                Package { name, version: v },
            )),
    ensures
        direct_blame(seen, children, p, name),
{
    let (v1, v2) = choose|v1: u64, v2: u64|
        v1 != v2 && #[trigger] below(seen, p).contains(Package { name, version: v1 })
            && #[trigger] below(seen, p).contains(Package { name, version: v2 });
    if covered(seen, children, p, name) {
        let i = choose|i: int|
            0 <= i < children.len() && covers(seen, #[trigger] children[i], p, name);
        assert(below(seen, children[i]).contains(Package { name, version: v1 }));
    }
}

/// No package is to blame for a name both directly and indirectly.
pub proof fn lemma_blame_exclusive(
    seen: Set<(Package, Package)>,
    children: Seq<Package>,
    p: Package,
    name: u64,
)
    ensures
        !(direct_blame(seen, children, p, name) && indirect_blame(seen, children, p, name)),
{
}

// *** MultiVerDepBlameDep ***

/// The dependencies of a package that bring one version of a name.
#[derive(Debug)]
pub struct MultiVerDepBlameDep(PackageSet);

impl View for MultiVerDepBlameDep {
    type V = Seq<Package>;

    closed spec fn view(&self) -> Seq<Package> {
        packages(self.0)
    }
}

impl MultiVerDepBlameDep {
    pub fn new() -> (deps: Self)
        ensures
            deps@ == Seq::<Package>::empty(),
    {
        Self(set_new())
    }

    /// Adds a package, at the end, unless it is held.
    pub fn insert(&mut self, package: Package)
        ensures
            final(self)@ == if old(self)@.contains(package) {
                old(self)@
            } else {
                old(self)@.push(package)
            },
    {
        let _ = set_insert(&mut self.0, package);
    }

    /// Puts the packages in ascending order.
    pub fn sort(&mut self)
        requires
            old(self)@.no_duplicates(),
        ensures
            ascending(final(self)@),
            final(self)@.len() == old(self)@.len(),
            forall|p: Package| final(self)@.contains(p) <==> old(self)@.contains(p),
    {
        sort_set(&mut self.0);
    }

    /// The packages, in their order.
    pub fn packages(&self) -> (set: &PackageSet)
        ensures
            packages(*set) == self@,
    {
        &self.0
    }
}

// *** MultiVerDepBlameVer ***

/// The packages below which each of the versions of the name stands.
pub open spec fn holding_all(seen: Set<(Package, Package)>, name: u64, versions: Seq<u64>) -> Set<
    Package,
> {
    Set::new(|d: Package| holds_all(seen, d, name, versions))
}

/// The packages below which every version of the name stands that stands
/// below `p`.
pub open spec fn covering(seen: Set<(Package, Package)>, p: Package, name: u64) -> Set<Package> {
    Set::new(|d: Package| covers(seen, d, p, name))
}

/// The version `v` of the name stands below the child, which is not one
/// of `whole`: of those that have the whole duplication below them.
pub open spec fn child_brings(
    seen: Set<(Package, Package)>,
    child: Package,
    name: u64,
    whole: Set<Package>,
    v: u64,
) -> bool {
    seen.contains((child, Package { name, version: v })) && !whole.contains(child)
}

/// Some row is that of the version and holds the package.
pub open spec fn row_holds(rows: Seq<(u64, Seq<Package>)>, v: u64, d: Package) -> bool {
    exists|i: int| 0 <= i < rows.len() && (#[trigger] rows[i]).0 == v && rows[i].1.contains(d)
}

/// The rows list, by version, the children that bring a version of the
/// name and are not of `whole`: the versions ascend, and so do the
/// children of each, of which there is one at least.
pub open spec fn detail_of(
    rows: Seq<(u64, Seq<Package>)>,
    seen: Set<(Package, Package)>,
    children: Seq<Package>,
    name: u64,
    whole: Set<Package>,
) -> bool {
    &&& forall|i: int, j: int|
        0 <= i < j < rows.len() ==> (#[trigger] rows[i]).0 < (#[trigger] rows[j]).0
    &&& forall|i: int|
        0 <= i < rows.len() ==> ascending((#[trigger] rows[i]).1) && rows[i].1.len() > 0
    &&& forall|v: u64, d: Package| #[trigger]
        row_holds(rows, v, d) <==> children.contains(d) && child_brings(seen, d, name, whole, v)
}

/// For one package and one name for which it is directly to blame: the
/// versions that its dependencies bring, each with the dependencies that
/// bring it.
#[derive(Debug)]
pub struct MultiVerDepBlameVer {
    versions: Vec<u64>,
    deps: Vec<MultiVerDepBlameDep>,
}

impl View for MultiVerDepBlameVer {
    type V = Seq<(u64, Seq<Package>)>;

    closed spec fn view(&self) -> Seq<(u64, Seq<Package>)> {
        Seq::new(self.versions@.len(), |i: int| (self.versions@[i], self.deps@[i]@))
    }
}

/// Whether the version of the name stands below the child, but not every
/// one of the versions.
fn child_brings_version(
    parents: &MultiVerDepParents,
    child: &Package,
    name: u64,
    versions: &Vec<u64>,
    v: u64,
) -> (b: bool)
    requires
        parents.wf(),
    ensures
        b == child_brings(
            parents.pairs(),
            *child,
            name,
            holding_all(parents.pairs(), name, versions@),
            v,
        ),
{
    match parents.get_multi_ver_deps(child) {
        None => false,
        Some(seen) => seen.contains(&Package { name, version: v }) && !child_holds_all(
            parents,
            child,
            name,
            versions,
        ),
    }
}

/// The versions of the name below the child, unless every one of
/// `versions` stands below it.
fn child_brings_versions(
    parents: &MultiVerDepParents,
    child: &Package,
    name: u64,
    versions: &Vec<u64>,
) -> (res: Option<Vec<u64>>)
    requires
        parents.wf(),
    ensures
        res is None ==> forall|v: u64|
            !child_brings(
                parents.pairs(),
                *child,
                name,
                holding_all(parents.pairs(), name, versions@),
                v,
            ),
        res matches Some(brought) ==> forall|v: u64|
            brought@.contains(v) <==> child_brings(
                parents.pairs(),
                *child,
                name,
                holding_all(parents.pairs(), name, versions@),
                v,
            ),
{
    match parents.get_multi_ver_deps(child) {
        None => None,
        Some(seen) => {
            if child_holds_all(parents, child, name, versions) {
                None
            } else {
                seen.get(name)
            }
        },
    }
}

impl MultiVerDepBlameVer {
    pub open spec fn wf(&self) -> bool {
        self.well_stored()
    }

    /// Each version has its dependencies.
    pub closed spec fn well_stored(&self) -> bool {
        self.versions@.len() == self.deps@.len()
    }

    /// The versions of the name that the dependencies `parent_deps` bring
    /// without bringing all of `versions`, each with the dependencies that
    /// bring it.
    pub fn build(
        name: u64,
        versions: &Vec<u64>,
        parent_deps: &PackageSet,
        parents: &MultiVerDepParents,
    ) -> (res: Self)
        requires
            parents.wf(),
        ensures
            res.wf(),
            detail_of(
                res@,
                parents.pairs(),
                packages(*parent_deps),
                name,
                holding_all(parents.pairs(), name, versions@),
            ),
    {
        let ghost seen = parents.pairs();
        let ghost children = packages(*parent_deps);
        let ghost whole = holding_all(seen, name, versions@);
        let n = set_len(parent_deps);
        let mut found = set_new();
        let mut i: usize = 0;
        while i < n
            invariant
                parents.wf(),
                seen == parents.pairs(),
                whole == holding_all(seen, name, versions@),
                children == packages(*parent_deps),
                n == children.len(),
                i <= n,
                packages(found).no_duplicates(),
                forall|x: Package| #[trigger]
                    packages(found).contains(x) <==> x.name == name && brought_by(
                        seen,
                        children,
                        i as int,
                        name,
                        whole,
                        x.version,
                    ),
            decreases n - i,
        {
            let child = set_get(parent_deps, i);
            let ghost start = packages(found);
            match child_brings_versions(parents, &child, name, versions) {
                None => {},
                Some(brought) => {
                    let mut j: usize = 0;
                    while j < brought.len()
                        invariant
                            j <= brought@.len(),
                            packages(found).no_duplicates(),
                            forall|x: Package| #[trigger]
                                packages(found).contains(x) <==> start.contains(x) || (x.name
                                    == name && exists|b: int|
                                    0 <= b < j && #[trigger] brought@[b] == x.version),
                        decreases brought@.len() - j,
                    {
                        let ghost before = packages(found);
                        let added = Package { name, version: brought[j] };
                        let _ = set_insert(&mut found, added);
                        proof {
                            let after = packages(found);
                            assert forall|x: Package| #[trigger]
                                after.contains(x) <==> before.contains(x) || x == added by {
                                if !before.contains(added) {
                                    assert(after[before.len() as int] == added);
                                    if before.contains(x) {
                                        let k = before.index_of(x);
                                        assert(after[k] == x);
                                    }
                                }
                            }
                            assert forall|x: Package| #[trigger]
                                after.contains(x) <==> start.contains(x) || (x.name == name
                                    && exists|b: int|
                                    0 <= b < j + 1 && #[trigger] brought@[b] == x.version) by {
                                if x.name == name && exists|b: int|
                                    0 <= b < j && #[trigger] brought@[b] == x.version {
                                    let b = choose|b: int|
                                        0 <= b < j && #[trigger] brought@[b] == x.version;
                                    assert(0 <= b < j + 1);
                                }
                                if x == added {
                                    assert(0 <= j < j + 1 && brought@[j as int] == x.version);
                                }
                                if x.name == name && exists|b: int|
                                    0 <= b < j + 1 && #[trigger] brought@[b] == x.version {
                                    let b = choose|b: int|
                                        0 <= b < j + 1 && #[trigger] brought@[b] == x.version;
                                    if b < j {
                                        assert(before.contains(x));
                                    }
                                }
                            }
                        }
                        j += 1;
                    }
                    proof {
                        assert forall|x: Package| #[trigger]
                            packages(found).contains(x) <==> start.contains(x) || (x.name == name
                                && child_brings(seen, child, name, whole, x.version)) by {
                            if brought@.contains(x.version) {
                                let b = brought@.index_of(x.version);
                                assert(brought@[b] == x.version);
                            }
                            if x.name == name && exists|b: int|
                                0 <= b < brought@.len() && #[trigger] brought@[b] == x.version {
                                let b = choose|b: int|
                                    0 <= b < brought@.len() && #[trigger] brought@[b] == x.version;
                                assert(brought@.contains(x.version));
                            }
                        }
                    }
                },
            }
            proof {
                assert forall|x: Package| #[trigger]
                    packages(found).contains(x) <==> x.name == name && brought_by(
                        seen,
                        children,
                        i + 1,
                        name,
                        whole,
                        x.version,
                    ) by {
                    lemma_brought_step(seen, children, i as int, name, whole, x.version);
                    assert(packages(found).contains(x) <==> start.contains(x) || (x.name == name
                        && child_brings(seen, child, name, whole, x.version)));
                }
            }
            i += 1;
        }
        sort_set(&mut found);
        let count = set_len(&found);
        let mut rows = Self { versions: Vec::new(), deps: Vec::new() };
        let mut r: usize = 0;
        while r < count
            invariant
                parents.wf(),
                seen == parents.pairs(),
                whole == holding_all(seen, name, versions@),
                children == packages(*parent_deps),
                n == children.len(),
                count == packages(found).len(),
                r <= count,
                ascending(packages(found)),
                forall|x: Package| #[trigger]
                    packages(found).contains(x) <==> x.name == name && brought_by(
                        seen,
                        children,
                        n as int,
                        name,
                        whole,
                        x.version,
                    ),
                rows.well_stored(),
                rows@.len() == r,
                forall|k: int| 0 <= k < r ==> (#[trigger] rows@[k]).0 == packages(found)[k].version,
                forall|k: int|
                    0 <= k < r ==> ascending((#[trigger] rows@[k]).1) && rows@[k].1.len() > 0,
                forall|k: int, d: Package|
                    0 <= k < r ==> (#[trigger] rows@[k].1.contains(d) <==> children.contains(d)
                        && child_brings(seen, d, name, whole, rows@[k].0)),
            decreases count - r,
        {
            let x = set_get(&found, r);
            let mut deps = MultiVerDepBlameDep::new();
            let mut c: usize = 0;
            while c < n
                invariant
                    parents.wf(),
                    seen == parents.pairs(),
                    whole == holding_all(seen, name, versions@),
                    children == packages(*parent_deps),
                    n == children.len(),
                    c <= n,
                    deps@.no_duplicates(),
                    forall|d: Package|
                        deps@.contains(d) <==> exists|k: int|
                            0 <= k < c && #[trigger] children[k] == d && child_brings(
                                seen,
                                d,
                                name,
                                whole,
                                x.version,
                            ),
                decreases n - c,
            {
                let child = set_get(parent_deps, c);
                let ghost before = deps@;
                let brings = child_brings_version(parents, &child, name, versions, x.version);
                if brings {
                    deps.insert(child);
                }
                proof {
                    let after = deps@;
                    assert forall|d: Package|
                        after.contains(d) <==> before.contains(d) || (brings && d == child) by {
                        if brings && !before.contains(child) {
                            assert(after[before.len() as int] == child);
                            if before.contains(d) {
                                let k = before.index_of(d);
                                assert(after[k] == d);
                            }
                        }
                    }
                    assert forall|d: Package|
                        after.contains(d) <==> exists|k: int|
                            0 <= k < c + 1 && #[trigger] children[k] == d && child_brings(
                                seen,
                                d,
                                name,
                                whole,
                                x.version,
                            ) by {
                        if before.contains(d) {
                            let k = choose|k: int|
                                0 <= k < c && #[trigger] children[k] == d && child_brings(
                                    seen,
                                    d,
                                    name,
                                    whole,
                                    x.version,
                                );
                            assert(0 <= k < c + 1);
                        }
                        if brings && d == child {
                            assert(0 <= c < c + 1 && children[c as int] == d);
                        }
                        if exists|k: int|
                            0 <= k < c + 1 && #[trigger] children[k] == d && child_brings(
                                seen,
                                d,
                                name,
                                whole,
                                x.version,
                            ) {
                            let k = choose|k: int|
                                0 <= k < c + 1 && #[trigger] children[k] == d && child_brings(
                                    seen,
                                    d,
                                    name,
                                    whole,
                                    x.version,
                                );
                            if k < c {
                                assert(before.contains(d));
                            }
                        }
                    }
                }
                c += 1;
            }
            let ghost unsorted = deps@;
            deps.sort();
            let ghost old_rows = rows@;
            let ghost held = deps@;
            rows.versions.push(x.version);
            rows.deps.push(deps);
            proof {
                assert(packages(found).contains(x));
                assert(rows@ =~= old_rows.push((x.version, held)));
                assert(brought_by(seen, children, n as int, name, whole, x.version));
                let k = choose|k: int|
                    0 <= k < n && k < children.len() && child_brings(
                        seen,
                        #[trigger] children[k],
                        name,
                        whole,
                        x.version,
                    );
                assert(unsorted.contains(children[k]));
                assert(held.contains(children[k]));
                assert forall|d: Package|
                    held.contains(d) <==> children.contains(d) && child_brings(
                        seen,
                        d,
                        name,
                        whole,
                        x.version,
                    ) by {
                    if children.contains(d) && child_brings(seen, d, name, whole, x.version) {
                        let m = children.index_of(d);
                        assert(0 <= m < n && children[m] == d);
                    }
                }
            }
            r += 1;
        }
        proof {
            let found_seq = packages(found);
            assert forall|a: int, b: int| 0 <= a < b < rows@.len() implies (#[trigger] rows@[a]).0
                < (#[trigger] rows@[b]).0 by {
                assert(found_seq[a].precedes(found_seq[b]));
                assert(found_seq.contains(found_seq[a]) && found_seq.contains(found_seq[b]));
            }
            assert forall|v: u64, d: Package| #[trigger]
                row_holds(rows@, v, d) <==> children.contains(d) && child_brings(
                    seen,
                    d,
                    name,
                    whole,
                    v,
                ) by {
                if children.contains(d) && child_brings(seen, d, name, whole, v) {
                    let m = children.index_of(d);
                    assert(0 <= m < n && m < children.len() && child_brings(
                        seen,
                        children[m],
                        name,
                        whole,
                        v,
                    ));
                    let x = Package { name, version: v };
                    assert(found_seq.contains(x));
                    let k = found_seq.index_of(x);
                    assert(rows@[k].0 == v);
                    assert(rows@[k].1.contains(d));
                }
            }
        }
        rows
    }

    /// Whether no dependency brings a version.
    pub fn is_empty(&self) -> (b: bool)
        requires
            self.wf(),
        ensures
            b == (self@.len() == 0),
    {
        self.versions.len() == 0
    }

    /// The versions, ascending.
    pub fn versions(&self) -> (versions: &Vec<u64>)
        requires
            self.wf(),
        ensures
            versions@.len() == self@.len(),
            forall|i: int| 0 <= i < self@.len() ==> versions@[i] == (#[trigger] self@[i]).0,
    {
        &self.versions
    }

    /// The dependencies that bring the versions, each at the position of
    /// its version.
    pub fn deps(&self) -> (deps: &Vec<MultiVerDepBlameDep>)
        requires
            self.wf(),
        ensures
            deps@.len() == self@.len(),
            forall|i: int| 0 <= i < self@.len() ==> deps@[i]@ == (#[trigger] self@[i]).1,
    {
        &self.deps
    }
}

/// One of the first `upto` children brings the version `v` of the name.
spec fn brought_by(
    seen: Set<(Package, Package)>,
    children: Seq<Package>,
    upto: int,
    name: u64,
    whole: Set<Package>,
    v: u64,
) -> bool {
    exists|k: int|
        0 <= k < upto && k < children.len() && child_brings(
            seen,
            #[trigger] children[k],
            name,
            whole,
            v,
        )
}

/// One more child is looked at.
proof fn lemma_brought_step(
    seen: Set<(Package, Package)>,
    children: Seq<Package>,
    upto: int,
    name: u64,
    whole: Set<Package>,
    v: u64,
)
    requires
        0 <= upto < children.len(),
    ensures
        brought_by(seen, children, upto + 1, name, whole, v) <==> brought_by(
            seen,
            children,
            upto,
            name,
            whole,
            v,
        ) || child_brings(seen, children[upto], name, whole, v),
{
    if brought_by(seen, children, upto, name, whole, v) {
        let k = choose|k: int|
            0 <= k < upto && k < children.len() && child_brings(
                seen,
                #[trigger] children[k],
                name,
                whole,
                v,
            );
        assert(0 <= k < upto + 1);
    }
    if child_brings(seen, children[upto], name, whole, v) {
        assert(0 <= upto < upto + 1);
    }
}

// *** MultiVerDepBlameEntry ***

/// The names for which a package is to blame, as mathematical values.
pub struct BlameEntryView {
    /// The names for which the package is directly to blame.
    pub direct: Seq<u64>,
    /// For each of these names, at its position: the versions that the
    /// dependencies of the package bring, each with those that bring it.
    pub detail: Seq<Seq<(u64, Seq<Package>)>>,
    /// The names for which the package is indirectly to blame.
    pub indirect: Seq<u64>,
}

/// How a package stands to the duplications below it.
#[derive(Clone, Copy, Debug, PartialEq, Eq, Structural)]
pub enum Blame {
    /// It is to blame for none.
    NoDuplication,
    /// It is to blame for some, and for each of them indirectly.
    IndirectOnly,
    /// It is directly to blame for one at least.
    DirectPresent,
}

/// The entry lists, in ascending order, the names for which `p` is to
/// blame directly, and those for which it is to blame indirectly; and
/// with each of the first, which of the children bring which version
/// without having the whole duplication below them.
pub open spec fn entry_of(
    entry: BlameEntryView,
    seen: Set<(Package, Package)>,
    children: Seq<Package>,
    p: Package,
) -> bool {
    &&& increasing(entry.direct)
    &&& increasing(entry.indirect)
    &&& entry.detail.len() == entry.direct.len()
    &&& forall|i: int|
        0 <= i < entry.direct.len() ==> detail_of(
            #[trigger] entry.detail[i],
            seen,
            children,
            entry.direct[i],
            covering(seen, p, entry.direct[i]),
        )
    &&& forall|name: u64| #[trigger]
        entry.direct.contains(name) <==> direct_blame(seen, children, p, name)
    &&& forall|name: u64| #[trigger]
        entry.indirect.contains(name) <==> indirect_blame(seen, children, p, name)
}

/// The names of the duplications for which one package is to blame,
/// directly and indirectly.
#[derive(Debug)]
pub struct MultiVerDepBlameEntry {
    direct: Vec<u64>,
    detail: Vec<MultiVerDepBlameVer>,
    indirect: Vec<u64>,
}

impl View for MultiVerDepBlameEntry {
    type V = BlameEntryView;

    closed spec fn view(&self) -> BlameEntryView {
        BlameEntryView {
            direct: self.direct@,
            detail: Seq::new(self.detail@.len(), |i: int| self.detail@[i]@),
            indirect: self.indirect@,
        }
    }
}

/// Whether each of the versions of the name stands below the child.
fn child_holds_all(parents: &MultiVerDepParents, child: &Package, name: u64, versions: &Vec<u64>) -> (b:
    bool)
    requires
        parents.wf(),
    ensures
        b == holds_all(parents.pairs(), *child, name, versions@),
{
    match parents.get_multi_ver_deps(child) {
        None => {
            proof {
                assert(below(parents.pairs(), *child) =~= Set::<Package>::empty());
                if versions@.len() > 0 {
                    assert(!below(parents.pairs(), *child).contains(
                        Package { name, version: versions@[0] },
                    ));
                }
            }
            versions.len() == 0
        },
        Some(seen) => {
            let mut k: usize = 0;
            assert(below(parents.pairs(), *child) =~= seen@.to_set());
            while k < versions.len()
                invariant
                    k <= versions@.len(),
                    below(parents.pairs(), *child) == seen@.to_set(),
                    forall|m: int|
                        0 <= m < k ==> below(parents.pairs(), *child).contains(
                            Package { name, version: #[trigger] versions@[m] },
                        ),
                decreases versions@.len() - k,
            {
                if !seen.contains(&Package { name, version: versions[k] }) {
                    assert(!below(parents.pairs(), *child).contains(
                        Package { name, version: versions@[k as int] },
                    ));
                    return false;
                }
                k += 1;
            }
            true
        },
    }
}

/// Whether each of the versions of the name stands below one of the
/// children.
fn some_child_holds_all(
    parents: &MultiVerDepParents,
    parent_deps: &PackageSet,
    name: u64,
    versions: &Vec<u64>,
) -> (b: bool)
    requires
        parents.wf(),
    ensures
        b == exists|i: int|
            0 <= i < packages(*parent_deps).len() && holds_all(
                parents.pairs(),
                #[trigger] packages(*parent_deps)[i],
                name,
                versions@,
            ),
{
    let n = set_len(parent_deps);
    let mut i: usize = 0;
    while i < n
        invariant
            parents.wf(),
            n == packages(*parent_deps).len(),
            i <= n,
            forall|m: int|
                0 <= m < i ==> !holds_all(
                    parents.pairs(),
                    #[trigger] packages(*parent_deps)[m],
                    name,
                    versions@,
                ),
        decreases n - i,
    {
        let child = set_get(parent_deps, i);
        if child_holds_all(parents, &child, name, versions) {
            return true;
        }
        i += 1;
    }
    false
}

/// The versions of a group are those of its name among the members.
proof fn lemma_group_versions(groups: Seq<DepView>, members: Set<Package>, g: int, v: u64)
    requires
        multi_grouped(groups),
        forall|p: Package| #[trigger] group_holds(groups, p) <==> is_duplicate(members, p),
        0 <= g < groups.len(),
    ensures
        has_multiple_versions(members, groups[g].name),
        members.contains(Package { name: groups[g].name, version: v })
            <==> groups[g].versions.contains(v),
{
    let name = groups[g].name;
    let versions = groups[g].versions;
    assert(versions.contains(versions[0]));
    assert(group_holds(groups, Package { name, version: versions[0] }));
    assert(is_duplicate(members, Package { name, version: versions[0] }));
    if versions.contains(v) {
        assert(group_holds(groups, Package { name, version: v }));
    }
    if members.contains(Package { name, version: v }) {
        let p = Package { name, version: v };
        assert(is_duplicate(members, p));
        assert(group_holds(groups, p));
        let k = choose|k: int|
            0 <= k < groups.len() && (#[trigger] groups[k]).name == p.name
                && groups[k].versions.contains(p.version);
        if k < g {
            assert(groups[k].name < groups[g].name);
        }
        if g < k {
            assert(groups[g].name < groups[k].name);
        }
    }
}

/// A name has a group where the members hold it in more than one version.
proof fn lemma_group_names(groups: Seq<DepView>, members: Set<Package>, name: u64)
    requires
        multi_grouped(groups),
        forall|p: Package| #[trigger] group_holds(groups, p) <==> is_duplicate(members, p),
    ensures
        has_multiple_versions(members, name) <==> exists|g: int|
            0 <= g < groups.len() && (#[trigger] groups[g]).name == name,
{
    if has_multiple_versions(members, name) {
        let (v1, v2) = choose|v1: u64, v2: u64|
            v1 != v2 && #[trigger] members.contains(Package { name, version: v1 })
                && #[trigger] members.contains(Package { name, version: v2 });
        let p = Package { name, version: v1 };
        assert(is_duplicate(members, p));
        assert(group_holds(groups, p));
        let g = choose|g: int|
            0 <= g < groups.len() && (#[trigger] groups[g]).name == p.name
                && groups[g].versions.contains(p.version);
        assert(groups[g].name == name);
    }
    if exists|g: int| 0 <= g < groups.len() && (#[trigger] groups[g]).name == name {
        let g = choose|g: int| 0 <= g < groups.len() && (#[trigger] groups[g]).name == name;
        lemma_group_versions(groups, members, g, 0);
    }
}

impl MultiVerDepBlameEntry {
    /// The blame of the package `parent_pkg`, whose dependencies are
    /// `parent_deps`.
    pub fn build(
        parent_pkg: &Package,
        parent_deps: &PackageSet,
        parents: &MultiVerDepParents,
    ) -> (entry: Self)
        requires
            parents.wf(),
        ensures
            entry_of(entry@, parents.pairs(), packages(*parent_deps), *parent_pkg),
    {
        let mut direct: Vec<u64> = Vec::new();
        let mut detail: Vec<MultiVerDepBlameVer> = Vec::new();
        let mut indirect: Vec<u64> = Vec::new();
        let ghost seen = parents.pairs();
        let ghost children = packages(*parent_deps);
        let ghost p = *parent_pkg;
        let ghost members = below(seen, p);
        match parents.get_multi_ver_deps(parent_pkg) {
            None => {
                assert(members =~= Set::<Package>::empty());
                assert forall|name: u64| !has_multiple_versions(members, name) by {}
            },
            Some(multi_ver_deps) => {
                let groups = multi_ver_deps.multi_ver_iter();
                assert(members =~= multi_ver_deps@.to_set());
                let ghost views = multi_views(groups@);
                let n = groups.len();
                let mut g: usize = 0;
                while g < n
                    invariant
                        parents.wf(),
                        seen == parents.pairs(),
                        children == packages(*parent_deps),
                        members == below(seen, p),
                        views == multi_views(groups@),
                        multi_grouped(views),
                        forall|q: Package| #[trigger]
                            group_holds(views, q) <==> is_duplicate(members, q),
                        n == groups@.len(),
                        g <= n,
                        increasing(direct@),
                        increasing(indirect@),
                        detail@.len() == direct@.len(),
                        forall|i: int|
                            0 <= i < direct@.len() ==> detail_of(
                                (#[trigger] detail@[i])@,
                                seen,
                                children,
                                direct@[i],
                                covering(seen, p, direct@[i]),
                            ),
                        forall|k: int, m: int|
                            0 <= k < direct@.len() && g <= m < n ==> #[trigger] direct@[k] < (
                            #[trigger] views[m]).name,
                        forall|k: int, m: int|
                            0 <= k < indirect@.len() && g <= m < n ==> #[trigger] indirect@[k] < (
                            #[trigger] views[m]).name,
                        forall|name: u64| #[trigger]
                            direct@.contains(name) <==> (exists|k: int|
                                0 <= k < g && (#[trigger] views[k]).name == name) && direct_blame(
                                seen,
                                children,
                                p,
                                name,
                            ),
                        forall|name: u64| #[trigger]
                            indirect@.contains(name) <==> (exists|k: int|
                                0 <= k < g && (#[trigger] views[k]).name == name) && indirect_blame(
                                seen,
                                children,
                                p,
                                name,
                            ),
                    decreases n - g,
                {
                    let group = &groups[g];
                    let name = group.name();
                    assert(views[g as int] == group@);
                    let whole = some_child_holds_all(parents, parent_deps, name, group.iter());
                    let ghost old_direct = direct@;
                    let ghost old_indirect = indirect@;
                    proof {
                        lemma_group_versions(views, members, g as int, 0);
                        assert forall|child: Package|
                            covers(seen, child, p, name) == holds_all(
                                seen,
                                child,
                                name,
                                group@.versions,
                            ) by {
                            if covers(seen, child, p, name) {
                                assert forall|k: int|
                                    0 <= k < group@.versions.len() implies below(
                                    seen,
                                    child,
                                ).contains(
                                    Package { name, version: #[trigger] group@.versions[k] },
                                ) by {
                                    lemma_group_versions(
                                        views,
                                        members,
                                        g as int,
                                        group@.versions[k],
                                    );
                                    assert(group@.versions.contains(group@.versions[k]));
                                }
                            }
                            if holds_all(seen, child, name, group@.versions) {
                                assert forall|v: u64| #[trigger]
                                    below(seen, p).contains(
                                        Package { name, version: v },
                                    ) implies below(seen, child).contains(
                                    Package { name, version: v },
                                ) by {
                                    lemma_group_versions(views, members, g as int, v);
                                    let k = group@.versions.index_of(v);
                                    assert(group@.versions[k] == v);
                                }
                            }
                        }
                        if whole {
                            let i = choose|i: int|
                                0 <= i < children.len() && holds_all(
                                    seen,
                                    #[trigger] children[i],
                                    name,
                                    group@.versions,
                                );
                            assert(covers(seen, children[i], p, name));
                        }
                        if covered(seen, children, p, name) {
                            let i = choose|i: int|
                                0 <= i < children.len() && covers(
                                    seen,
                                    #[trigger] children[i],
                                    p,
                                    name,
                                );
                            assert(holds_all(seen, children[i], name, group@.versions));
                        }
                        assert(whole == covered(seen, children, p, name));
                    }
                    let brought = MultiVerDepBlameVer::build(
                        name,
                        group.iter(),
                        parent_deps,
                        parents,
                    );
                    let in_parts = !brought.is_empty();
                    proof {
                        let rows = brought@;
                        assert(holding_all(seen, name, group@.versions) =~= covering(
                            seen,
                            p,
                            name,
                        ));
                        if rows.len() > 0 {
                            let d = rows[0].1[0];
                            assert(rows[0].1.contains(d));
                            assert(row_holds(rows, rows[0].0, d));
                            let i = children.index_of(d);
                            assert(below(seen, d).contains(
                                Package { name, version: rows[0].0 },
                            ));
                            assert(has_part(seen, children[i], p, name));
                        }
                        if parted(seen, children, p, name) {
                            let i = choose|i: int|
                                0 <= i < children.len() && has_part(
                                    seen,
                                    #[trigger] children[i],
                                    p,
                                    name,
                                );
                            let v = choose|v: u64| #[trigger]
                                below(seen, children[i]).contains(Package { name, version: v });
                            assert(children.contains(children[i]));
                            assert(row_holds(rows, v, children[i]));
                        }
                        assert(in_parts == parted(seen, children, p, name));
                    }
                    let to_blame = !whole || in_parts;
                    if to_blame {
                        direct.push(name);
                        detail.push(brought);
                    } else {
                        indirect.push(name);
                    }
                    proof {
                        assert forall|m: int| g < m < n implies name < (#[trigger] views[m]).name by {
                            assert(views[g as int].name < views[m].name);
                        }
                        assert forall|x: u64| #[trigger]
                            direct@.contains(x) <==> (exists|k: int|
                                0 <= k < g + 1 && (#[trigger] views[k]).name == x) && direct_blame(
                                seen,
                                children,
                                p,
                                x,
                            ) by {
                            lemma_step_contains(old_direct, direct@, views, g as int, name, to_blame, x);
                        }
                        assert forall|x: u64| #[trigger]
                            indirect@.contains(x) <==> (exists|k: int|
                                0 <= k < g + 1 && (#[trigger] views[k]).name == x) && indirect_blame(
                                seen,
                                children,
                                p,
                                x,
                            ) by {
                            lemma_step_contains(
                                old_indirect,
                                indirect@,
                                views,
                                g as int,
                                name,
                                !to_blame,
                                x,
                            );
                        }
                    }
                    g += 1;
                }
                proof {
                    assert forall|name: u64| #[trigger]
                        direct@.contains(name) <==> direct_blame(seen, children, p, name) by {
                        lemma_group_names(views, members, name);
                    }
                    assert forall|name: u64| #[trigger]
                        indirect@.contains(name) <==> indirect_blame(seen, children, p, name) by {
                        lemma_group_names(views, members, name);
                    }
                }
            },
        }
        let entry = Self { direct, detail, indirect };
        assert(entry@.detail.len() == entry@.direct.len());
        assert forall|i: int| 0 <= i < entry@.direct.len() implies detail_of(
            #[trigger] entry@.detail[i],
            seen,
            children,
            entry@.direct[i],
            covering(seen, p, entry@.direct[i]),
        ) by {
            assert(entry@.detail[i] == entry.detail@[i]@);
        }
        entry
    }

    /// For each name for which the package is directly to blame, at the
    /// position of the name: the versions that the dependencies bring.
    pub fn detail(&self) -> (detail: &Vec<MultiVerDepBlameVer>)
        ensures
            detail@.len() == self@.detail.len(),
            forall|i: int| 0 <= i < detail@.len() ==> (#[trigger] detail@[i])@ == self@.detail[i],
    {
        &self.detail
    }

    /// The names for which the package is directly to blame, ascending.
    pub fn direct(&self) -> (names: &Vec<u64>)
        ensures
            names@ == self@.direct,
    {
        &self.direct
    }

    /// The names for which the package is indirectly to blame, ascending.
    pub fn indirect(&self) -> (names: &Vec<u64>)
        ensures
            names@ == self@.indirect,
    {
        &self.indirect
    }

    pub fn has_direct_blame(&self) -> (b: bool)
        ensures
            b == (self@.direct.len() > 0),
    {
        self.direct.len() > 0
    }

    pub fn has_indirect_blame(&self) -> (b: bool)
        ensures
            b == (self@.indirect.len() > 0),
    {
        self.indirect.len() > 0
    }

    /// How the package stands to the duplications below it.
    pub fn classification(&self) -> (blame: Blame)
        ensures
            blame == classify(self@),
    {
        if self.has_direct_blame() {
            Blame::DirectPresent
        } else if self.has_indirect_blame() {
            Blame::IndirectOnly
        } else {
            Blame::NoDuplication
        }
    }
}

/// How a package with this entry stands to the duplications below it.
pub open spec fn classify(entry: BlameEntryView) -> Blame {
    if entry.direct.len() > 0 {
        Blame::DirectPresent
    } else if entry.indirect.len() > 0 {
        Blame::IndirectOnly
    } else {
        Blame::NoDuplication
    }
}

/// What a list holds after the name at `g` was added to it or left out.
proof fn lemma_step_contains(
    before: Seq<u64>,
    after: Seq<u64>,
    views: Seq<DepView>,
    g: int,
    name: u64,
    added: bool,
    x: u64,
)
    requires
        0 <= g < views.len(),
        views[g].name == name,
        after == if added {
            before.push(name)
        } else {
            before
        },
    ensures
        after.contains(x) <==> before.contains(x) || (added && x == name),
        (exists|k: int| 0 <= k < g + 1 && (#[trigger] views[k]).name == x) <==> (exists|k: int|
            0 <= k < g && (#[trigger] views[k]).name == x) || x == name,
{
    if added {
        assert(before.push(name)[before.len() as int] == name);
        if before.contains(x) {
            let k = before.index_of(x);
            assert(before.push(name)[k] == x);
        }
    }
    if exists|k: int| 0 <= k < g && (#[trigger] views[k]).name == x {
        let k = choose|k: int| 0 <= k < g && (#[trigger] views[k]).name == x;
        assert(0 <= k < g + 1 && views[k].name == x);
    }
    if x == name {
        assert(0 <= g < g + 1 && views[g].name == x);
    }
}


// *** MultiVerDepBlame ***

/// Which entries a count takes in.
#[derive(Clone, Copy, Debug, PartialEq, Eq, Structural)]
pub enum BlameCount {
    /// Those with direct and without indirect blame.
    DirectOnly,
    /// Those with indirect and without direct blame.
    IndirectOnly,
    /// Those with direct and with indirect blame.
    Both,
    /// Those with blame of either kind.
    Any,
    /// Those without blame.
    Neither,
}

/// Whether a count takes the entry in.
pub open spec fn counted(entry: BlameEntryView, which: BlameCount) -> bool {
    let direct = entry.direct.len() > 0;
    let indirect = entry.indirect.len() > 0;
    match which {
        BlameCount::DirectOnly => direct && !indirect,
        BlameCount::IndirectOnly => indirect && !direct,
        BlameCount::Both => direct && indirect,
        BlameCount::Any => direct || indirect,
        BlameCount::Neither => !direct && !indirect,
    }
}

/// The number of rows that a count takes in.
pub open spec fn tally(rows: Seq<(Package, BlameEntryView)>, which: BlameCount) -> nat
    decreases rows.len(),
{
    if rows.len() == 0 {
        0
    } else {
        tally(rows.drop_last(), which) + if counted(rows.last().1, which) {
            1nat
        } else {
            0nat
        }
    }
}

/// Some row is that of the package.
pub open spec fn row_of(rows: Seq<(Package, BlameEntryView)>, p: Package) -> bool {
    exists|i: int| 0 <= i < rows.len() && (#[trigger] rows[i]).0 == p
}

/// The rows stand in the ascending order of their packages.
pub open spec fn rows_ascending(rows: Seq<(Package, BlameEntryView)>) -> bool {
    forall|i: int, j: int|
        0 <= i < j < rows.len() ==> (#[trigger] rows[i]).0.precedes((#[trigger] rows[j]).0)
}

/// Packages with their blame, in the ascending order of the packages.
#[derive(Debug)]
pub struct MultiVerDepBlame {
    packages: Vec<Package>,
    entries: Vec<MultiVerDepBlameEntry>,
}

impl View for MultiVerDepBlame {
    type V = Seq<(Package, BlameEntryView)>;

    /// The packages with their entries, in order.
    closed spec fn view(&self) -> Seq<(Package, BlameEntryView)> {
        Seq::new(self.packages@.len(), |i: int| (self.packages@[i], self.entries@[i]@))
    }
}

impl MultiVerDepBlame {
    /// Each package has its entry.
    pub closed spec fn well_stored(&self) -> bool {
        self.packages@.len() == self.entries@.len()
    }

    pub open spec fn wf(&self) -> bool {
        self.well_stored() && rows_ascending(self@)
    }

    /// The package has a row.
    pub open spec fn has(&self, p: Package) -> bool {
        row_of(self@, p)
    }

    /// The entry of a package that has a row.
    pub open spec fn entry(&self, p: Package) -> BlameEntryView {
        let i = choose|i: int| 0 <= i < self@.len() && (#[trigger] self@[i]).0 == p;
        self@[i].1
    }

    /// In rows that ascend, a package has one row at most.
    pub proof fn lemma_entry(&self, i: int)
        requires
            self.wf(),
            0 <= i < self@.len(),
        ensures
            self.has(self@[i].0),
            self.entry(self@[i].0) == self@[i].1,
    {
        let p = self@[i].0;
        let k = choose|k: int| 0 <= k < self@.len() && (#[trigger] self@[k]).0 == p;
        if k < i {
            assert(self@[k].0.precedes(self@[i].0));
        }
        if i < k {
            assert(self@[i].0.precedes(self@[k].0));
        }
    }

    pub fn new() -> (blame: Self)
        ensures
            blame.wf(),
            blame@ == Seq::<(Package, BlameEntryView)>::empty(),
    {
        let blame = Self { packages: Vec::new(), entries: Vec::new() };
        assert(blame@ =~= Seq::<(Package, BlameEntryView)>::empty());
        blame
    }

    /// The position of the first row whose package does not stand before
    /// `package`.
    fn position(&self, package: &Package) -> (at: usize)
        requires
            self.wf(),
        ensures
            at <= self@.len(),
            forall|i: int| 0 <= i < at ==> (#[trigger] self@[i]).0.precedes(*package),
            forall|i: int| at <= i < self@.len() ==> !(#[trigger] self@[i]).0.precedes(*package),
    {
        let mut low: usize = 0;
        let mut high: usize = self.packages.len();
        while low < high
            invariant
                self.wf(),
                low <= high <= self@.len(),
                self@.len() == self.packages@.len(),
                forall|i: int| 0 <= i < self@.len() ==> (#[trigger] self@[i]).0 == self.packages@[i],
                forall|i: int| 0 <= i < low ==> (#[trigger] self@[i]).0.precedes(*package),
                forall|i: int|
                    high <= i < self@.len() ==> !(#[trigger] self@[i]).0.precedes(*package),
            decreases high - low,
        {
            let mid = low + (high - low) / 2;
            if self.packages[mid].comes_before(package) {
                assert forall|i: int| 0 <= i < mid + 1 implies (#[trigger] self@[i]).0.precedes(
                    *package,
                ) by {
                    if i < mid {
                        assert(self@[i].0.precedes(self@[mid as int].0));
                    }
                }
                low = mid + 1;
            } else {
                assert forall|i: int| mid <= i < self@.len() implies !(
                #[trigger] self@[i]).0.precedes(*package) by {
                    if mid < i {
                        assert(self@[mid as int].0.precedes(self@[i].0));
                    }
                }
                high = mid;
            }
        }
        low
    }

    /// Whether the package has a row.
    pub fn contains(&self, package: &Package) -> (found: bool)
        requires
            self.wf(),
        ensures
            found == self.has(*package),
    {
        let at = self.position(package);
        if at < self.packages.len() {
            let there = self.packages[at];
            let found = there.name == package.name && there.version == package.version;
            proof {
                assert(self@[at as int].0 == there);
                if self.has(*package) {
                    let k = choose|k: int| 0 <= k < self@.len() && (#[trigger] self@[k]).0 == *package;
                    if k > at {
                        assert(self@[at as int].0.precedes(self@[k].0));
                    }
                }
            }
            found
        } else {
            false
        }
    }

    /// Gives the package this entry, in place of the one that it had.
    pub fn insert(&mut self, package: Package, resp: MultiVerDepBlameEntry)
        requires
            old(self).wf(),
        ensures
            final(self).wf(),
            forall|q: Package| #[trigger] final(self).has(q) <==> old(self).has(q) || q == package,
            final(self).entry(package) == resp@,
            forall|q: Package|
                old(self).has(q) && q != package ==> #[trigger] final(self).entry(q) == old(
                    self,
                ).entry(q),
    {
        let ghost before = *self;
        let at = self.position(&package);
        let mut replace = false;
        if at < self.packages.len() {
            let there = self.packages[at];
            replace = there.name == package.name && there.version == package.version;
        }
        if replace {
            self.entries[at] = resp;
            proof {
                assert forall|i: int| 0 <= i < self@.len() implies (#[trigger] self@[i]).0
                    == before@[i].0 by {}
                assert forall|q: Package| #[trigger] self.has(q) <==> before.has(q) by {
                    if self.has(q) {
                        let k = choose|k: int| 0 <= k < self@.len() && (#[trigger] self@[k]).0 == q;
                        assert(before@[k].0 == q);
                    }
                    if before.has(q) {
                        let k = choose|k: int|
                            0 <= k < before@.len() && (#[trigger] before@[k]).0 == q;
                        assert(self@[k].0 == q);
                    }
                }
                assert(self.wf()) by {
                    assert forall|i: int, j: int| 0 <= i < j < self@.len() implies (
                    #[trigger] self@[i]).0.precedes((#[trigger] self@[j]).0) by {
                        assert(before@[i].0.precedes(before@[j].0));
                    }
                }
                self.lemma_entry(at as int);
                assert forall|q: Package| before.has(q) && q != package implies #[trigger] self.entry(
                    q,
                ) == before.entry(q) by {
                    let k = choose|k: int| 0 <= k < before@.len() && (#[trigger] before@[k]).0 == q;
                    before.lemma_entry(k);
                    assert(self@[k].0 == q);
                    self.lemma_entry(k);
                }
            }
        } else {
            self.packages.insert(at, package);
            self.entries.insert(at, resp);
            proof {
                assert(self@.len() == before@.len() + 1);
                assert forall|i: int| 0 <= i < at implies #[trigger] self@[i] == before@[i] by {}
                assert forall|i: int| at < i < self@.len() implies #[trigger] self@[i] == before@[i
                    - 1] by {}
                assert(self@[at as int].0 == package);
                assert forall|i: int| at <= i < before@.len() implies package.precedes(
                    (#[trigger] before@[i]).0,
                ) by {
                    assert(!before@[i].0.precedes(package));
                    if i == at {
                    } else {
                        assert(before@[at as int].0.precedes(before@[i].0));
                    }
                }
                assert(rows_ascending(self@)) by {
                    assert forall|i: int, j: int| 0 <= i < j < self@.len() implies (
                    #[trigger] self@[i]).0.precedes((#[trigger] self@[j]).0) by {
                        if j < at {
                            assert(before@[i].0.precedes(before@[j].0));
                        } else if j == at {
                            assert(before@[i].0.precedes(package));
                        } else if i < at {
                            assert(before@[i].0.precedes(before@[j - 1].0));
                        } else if i == at {
                            assert(package.precedes(before@[j - 1].0));
                        } else {
                            assert(before@[i - 1].0.precedes(before@[j - 1].0));
                        }
                    }
                }
                assert forall|q: Package| #[trigger]
                    self.has(q) <==> before.has(q) || q == package by {
                    if self.has(q) {
                        let k = choose|k: int| 0 <= k < self@.len() && (#[trigger] self@[k]).0 == q;
                        if k < at {
                            assert(before@[k].0 == q);
                        } else if k > at {
                            assert(before@[k - 1].0 == q);
                        }
                    }
                    if before.has(q) {
                        let k = choose|k: int|
                            0 <= k < before@.len() && (#[trigger] before@[k]).0 == q;
                        if k < at {
                            assert(self@[k].0 == q);
                        } else {
                            assert(self@[k + 1].0 == q);
                        }
                    }
                }
                self.lemma_entry(at as int);
                assert forall|q: Package| before.has(q) && q != package implies #[trigger] self.entry(
                    q,
                ) == before.entry(q) by {
                    let k = choose|k: int| 0 <= k < before@.len() && (#[trigger] before@[k]).0 == q;
                    before.lemma_entry(k);
                    if k < at {
                        assert(self@[k].0 == q);
                        self.lemma_entry(k);
                    } else {
                        assert(self@[k + 1].0 == q);
                        self.lemma_entry(k + 1);
                    }
                }
            }
        }
    }

    /// The packages, ascending.
    pub fn packages(&self) -> (packages: &Vec<Package>)
        requires
            self.wf(),
        ensures
            packages@.len() == self@.len(),
            forall|i: int| 0 <= i < self@.len() ==> packages@[i] == (#[trigger] self@[i]).0,
    {
        &self.packages
    }

    /// The entries, each at the position of its package.
    pub fn entries(&self) -> (entries: &Vec<MultiVerDepBlameEntry>)
        requires
            self.wf(),
        ensures
            entries@.len() == self@.len(),
            forall|i: int| 0 <= i < self@.len() ==> entries@[i]@ == (#[trigger] self@[i]).1,
    {
        &self.entries
    }

    /// The number of rows that a count takes in.
    fn tally(&self, which: BlameCount) -> (n: usize)
        requires
            self.wf(),
        ensures
            n == tally(self@, which),
    {
        let mut n: usize = 0;
        let mut i: usize = 0;
        assert(self@.take(0) =~= Seq::<(Package, BlameEntryView)>::empty());
        while i < self.entries.len()
            invariant
                self.wf(),
                i <= self.entries@.len(),
                self@.len() == self.entries@.len(),
                n <= i,
                n == tally(self@.take(i as int), which),
            decreases self.entries@.len() - i,
        {
            let entry = &self.entries[i];
            let direct = entry.has_direct_blame();
            let indirect = entry.has_indirect_blame();
            let takes = match which {
                BlameCount::DirectOnly => direct && !indirect,
                BlameCount::IndirectOnly => indirect && !direct,
                BlameCount::Both => direct && indirect,
                BlameCount::Any => direct || indirect,
                BlameCount::Neither => !direct && !indirect,
            };
            proof {
                assert(self@.take(i + 1).drop_last() =~= self@.take(i as int));
                assert(self@.take(i + 1).last() == self@[i as int]);
                assert(self@[i as int].1 == entry@);
            }
            if takes {
                n += 1;
            }
            i += 1;
        }
        assert(self@.take(i as int) =~= self@);
        n
    }

    /// Whether a package is directly to blame.
    pub fn has_direct_blame(&self) -> (b: bool)
        requires
            self.wf(),
        ensures
            b == exists|i: int| 0 <= i < self@.len() && (#[trigger] self@[i]).1.direct.len() > 0,
    {
        let mut i: usize = 0;
        while i < self.entries.len()
            invariant
                self.wf(),
                i <= self.entries@.len(),
                self@.len() == self.entries@.len(),
                forall|k: int| 0 <= k < i ==> (#[trigger] self@[k]).1.direct.len() == 0,
            decreases self.entries@.len() - i,
        {
            if self.entries[i].has_direct_blame() {
                assert(self@[i as int].1.direct.len() > 0);
                return true;
            }
            assert(self@[i as int].1 == self.entries@[i as int]@);
            i += 1;
        }
        false
    }

    /// The number of packages that are to blame directly and not
    /// indirectly.
    pub fn direct_count(&self) -> (n: usize)
        requires
            self.wf(),
        ensures
            n == tally(self@, BlameCount::DirectOnly),
    {
        self.tally(BlameCount::DirectOnly)
    }

    /// The number of packages that are to blame indirectly and not
    /// directly.
    pub fn indirect_count(&self) -> (n: usize)
        requires
            self.wf(),
        ensures
            n == tally(self@, BlameCount::IndirectOnly),
    {
        self.tally(BlameCount::IndirectOnly)
    }

    /// The number of packages that are to blame both directly and
    /// indirectly.
    pub fn both_count(&self) -> (n: usize)
        requires
            self.wf(),
        ensures
            n == tally(self@, BlameCount::Both),
    {
        self.tally(BlameCount::Both)
    }

    /// The number of packages that are to blame.
    pub fn count(&self) -> (n: usize)
        requires
            self.wf(),
        ensures
            n == tally(self@, BlameCount::Any),
    {
        self.tally(BlameCount::Any)
    }

    /// The number of packages that are not to blame.
    pub fn none_count(&self) -> (n: usize)
        requires
            self.wf(),
        ensures
            n == tally(self@, BlameCount::Neither),
    {
        self.tally(BlameCount::Neither)
    }

    /// The number of packages.
    pub fn total(&self) -> (n: usize)
        requires
            self.wf(),
        ensures
            n == self@.len(),
    {
        self.packages.len()
    }
}

} // verus!
