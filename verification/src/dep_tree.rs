//! The dependency graph: one node for each package that a lock file
//! declares or names as a dependency, with the edges in both directions.

use crate::pkg_map::{sorted_copy, PackageMap};
use crate::pkg_set::{packages, set_get, set_insert, set_len, set_new, PackageSet};
use crate::{Error, Package};
use vstd::prelude::*;

verus! {

// *** Input ***

/// The format of a lock file.
#[derive(Clone, Copy, Debug, PartialEq, Eq, Structural)]
pub enum ResolveVersion {
    V1,
    V2,
    V3,
    V4,
    /// A format that has no name here.
    Unknown,
}

/// One package of a lock file.
#[derive(Debug)]
pub struct PackageRecord {
    pub name: u64,
    pub version: u64,
    /// Whether the package comes from a registry or another source outside
    /// the workspace.
    pub has_external_source: bool,
    /// The packages that this one requires directly.
    pub dependencies: Vec<Package>,
}

/// A lock file: its format and its packages, in the order of the file.
#[derive(Debug)]
pub struct Lockfile {
    pub version: ResolveVersion,
    pub packages: Vec<PackageRecord>,
}

/// What a record says, as mathematical values.
pub struct RecordView {
    pub package: Package,
    pub has_external_source: bool,
    pub dependencies: Seq<Package>,
}

impl View for PackageRecord {
    type V = RecordView;

    open spec fn view(&self) -> RecordView {
        RecordView {
            package: Package { name: self.name, version: self.version },
            has_external_source: self.has_external_source,
            dependencies: self.dependencies@,
        }
    }
}

impl Lockfile {
    /// The records of the file, in its order.
    pub open spec fn records(self) -> Seq<RecordView> {
        self.packages@.map_values(|r: PackageRecord| r@)
    }

    /// Whether the file is of a format that is read.
    pub open spec fn supported(self) -> bool {
        self.version == ResolveVersion::V3 || self.version == ResolveVersion::V4
    }
}

/// Some record declares the package.
pub open spec fn declares(recs: Seq<RecordView>, p: Package) -> bool {
    exists|i: int| 0 <= i < recs.len() && (#[trigger] recs[i]).package == p
}

/// Some record of `a` lists `b` among its dependencies.
pub open spec fn lists(recs: Seq<RecordView>, a: Package, b: Package) -> bool {
    exists|i: int|
        0 <= i < recs.len() && (#[trigger] recs[i]).package == a && recs[i].dependencies.contains(b)
}

/// Some record lists `p` among its dependencies.
pub open spec fn required(recs: Seq<RecordView>, p: Package) -> bool {
    exists|i: int| 0 <= i < recs.len() && (#[trigger] recs[i]).dependencies.contains(p)
}

/// The last record of `a` lists `b` among its dependencies.
pub open spec fn last_lists(recs: Seq<RecordView>, a: Package, b: Package) -> bool {
    exists|i: int|
        0 <= i < recs.len() && (#[trigger] recs[i]).package == a && recs[i].dependencies.contains(b)
            && forall|j: int| i < j < recs.len() ==> (#[trigger] recs[j]).package != a
}

/// Some record of the package has no external source.
pub open spec fn local(recs: Seq<RecordView>, p: Package) -> bool {
    exists|i: int| 0 <= i < recs.len() && (#[trigger] recs[i]).package == p && !recs[i].has_external_source
}

/// No two records declare the same package.
pub open spec fn distinct_records(recs: Seq<RecordView>) -> bool {
    forall|i: int, j: int|
        0 <= i < j < recs.len() ==> (#[trigger] recs[i]).package != (#[trigger] recs[j]).package
}

// *** DepVersion ***

/// What a node holds, as mathematical values.
pub struct DepVersionView {
    /// The packages that this one requires directly.
    pub dependencies: Seq<Package>,
    /// The packages that require this one directly.
    pub dependents: Seq<Package>,
    /// Whether the package is a member of the workspace.
    pub origin: bool,
}

impl DepVersionView {
    /// A node is top level where it is a member of the workspace or nothing
    /// requires it.
    pub open spec fn is_top_level(self) -> bool {
        self.origin || self.dependents.len() == 0
    }
}

/// One version of a package in the graph.
#[derive(Debug)]
pub struct DepVersion {
    dependencies: PackageSet,
    dependents: PackageSet,
    top_level: bool,
}

impl View for DepVersion {
    type V = DepVersionView;

    closed spec fn view(&self) -> DepVersionView {
        DepVersionView {
            dependencies: packages(self.dependencies),
            dependents: packages(self.dependents),
            origin: self.top_level,
        }
    }
}

impl DepVersion {
    /// Neither list names a package twice.
    pub open spec fn wf(&self) -> bool {
        self@.dependencies.no_duplicates() && self@.dependents.no_duplicates()
    }

    /// A node without edges.
    pub fn new(top_level: bool) -> (node: Self)
        ensures
            node.wf(),
            node@.dependencies == Seq::<Package>::empty(),
            node@.dependents == Seq::<Package>::empty(),
            node@.origin == top_level,
    {
        Self { dependencies: set_new(), dependents: set_new(), top_level }
    }

    /// Whether the node is a member of the workspace or has no dependents.
    pub fn is_top_level(&self) -> (b: bool)
        ensures
            b == self@.is_top_level(),
            b == (self@.origin || self@.dependents.len() == 0),
    {
        self.top_level || set_len(&self.dependents) == 0
    }

    /// The packages that this one requires directly.
    pub fn dependencies(&self) -> (set: &PackageSet)
        ensures
            packages(*set) == self@.dependencies,
    {
        &self.dependencies
    }

    /// The packages that require this one directly.
    pub fn dependents(&self) -> (set: &PackageSet)
        ensures
            packages(*set) == self@.dependents,
    {
        &self.dependents
    }

    fn clear_dependencies(&mut self)
        requires
            old(self).wf(),
        ensures
            final(self).wf(),
            final(self)@ == (DepVersionView { dependencies: Seq::<Package>::empty(), ..old(self)@ }),
    {
        self.dependencies = set_new();
    }

    fn add_dependency(&mut self, dependency: Package)
        requires
            old(self).wf(),
        ensures
            final(self).wf(),
            final(self)@ == (DepVersionView {
                dependencies: if old(self)@.dependencies.contains(dependency) {
                    old(self)@.dependencies
                } else {
                    old(self)@.dependencies.push(dependency)
                },
                ..old(self)@
            }),
    {
        let _ = set_insert(&mut self.dependencies, dependency);
    }

    fn add_dependent(&mut self, dependent: Package)
        requires
            old(self).wf(),
        ensures
            final(self).wf(),
            final(self)@ == (DepVersionView {
                dependents: if old(self)@.dependents.contains(dependent) {
                    old(self)@.dependents
                } else {
                    old(self)@.dependents.push(dependent)
                },
                ..old(self)@
            }),
    {
        let _ = set_insert(&mut self.dependents, dependent);
    }

    fn mark_origin(&mut self)
        requires
            old(self).wf(),
        ensures
            final(self).wf(),
            final(self)@ == (DepVersionView { origin: true, ..old(self)@ }),
    {
        self.top_level = true;
    }
}

/// Packages in ascending order are distinct.
pub proof fn lemma_ascending_distinct(s: Seq<Package>)
    requires
        ascending(s),
    ensures
        s.no_duplicates(),
{
    assert forall|i: int, j: int| 0 <= i < s.len() && 0 <= j < s.len() && i != j implies s[i]
        != s[j] by {
        if i < j {
            assert(s[i].precedes(s[j]));
        } else {
            assert(s[j].precedes(s[i]));
        }
    }
}


/// The sequence with one more package at its end, unless it holds it.
pub open spec fn put(s: Seq<Package>, p: Package) -> Seq<Package> {
    if s.contains(p) {
        s
    } else {
        s.push(p)
    }
}

/// The packages of a sequence, each once, in the order in which they come
/// first.
pub open spec fn distinct(s: Seq<Package>) -> Seq<Package>
    decreases s.len(),
{
    if s.len() == 0 {
        Seq::empty()
    } else {
        put(distinct(s.drop_last()), s.last())
    }
}

/// The view of a node together with one more dependency.
spec fn with_dependency(node: DepVersionView, dependency: Package) -> DepVersionView {
    DepVersionView { dependencies: put(node.dependencies, dependency), ..node }
}

/// The view of a node together with one more dependent.
spec fn with_dependent(node: DepVersionView, dependent: Package) -> DepVersionView {
    DepVersionView { dependents: put(node.dependents, dependent), ..node }
}

/// The view of a node that no record has declared and nothing requires.
spec fn blank_node() -> DepVersionView {
    DepVersionView {
        dependencies: Seq::<Package>::empty(),
        dependents: Seq::<Package>::empty(),
        origin: false,
    }
}

/// The view of a node after one more record has declared its package: the
/// record's dependencies are still to come.
spec fn declared_node(
    nodes: Map<Package, DepVersionView>,
    p: Package,
    has_external_source: bool,
) -> DepVersionView {
    DepVersionView {
        dependencies: Seq::<Package>::empty(),
        dependents: if nodes.contains_key(p) {
            nodes[p].dependents
        } else {
            Seq::<Package>::empty()
        },
        origin: (nodes.contains_key(p) && nodes[p].origin) || !has_external_source,
    }
}

/// The nodes after the package `p` was found to require `d`.
spec fn linked_nodes(nodes: Map<Package, DepVersionView>, p: Package, d: Package) -> Map<
    Package,
    DepVersionView,
> {
    let first = nodes.insert(p, with_dependency(nodes[p], d));
    first.insert(
        d,
        with_dependent(
            if first.contains_key(d) {
                first[d]
            } else {
                blank_node()
            },
            p,
        ),
    )
}

// *** The graph of a sequence of records ***

/// The nodes and the workspace members hold what the records say: a node
/// for each package that a record declares or requires; as a node's
/// dependencies those of the last record that declares it; as its
/// dependents the packages of which some record requires it; as members of
/// the workspace the packages of which some record has no external source.
pub open spec fn graph_of(
    nodes: Map<Package, DepVersionView>,
    top: Seq<Package>,
    recs: Seq<RecordView>,
) -> bool {
    &&& forall|p: Package| #[trigger]
        nodes.contains_key(p) <==> declares(recs, p) || required(recs, p)
    &&& forall|p: Package, d: Package|
        #![trigger nodes[p].dependencies.contains(d)]
        #![trigger last_lists(recs, p, d)]
        nodes.contains_key(p) ==> (nodes[p].dependencies.contains(d) <==> last_lists(recs, p, d))
    &&& forall|p: Package, q: Package|
        #![trigger nodes[p].dependents.contains(q)]
        #![trigger lists(recs, q, p)]
        nodes.contains_key(p) ==> (nodes[p].dependents.contains(q) <==> lists(recs, q, p))
    &&& forall|p: Package| #[trigger]
        nodes.contains_key(p) ==> (nodes[p].origin <==> local(recs, p))
    &&& forall|p: Package| #[trigger] top.contains(p) <==> local(recs, p)
}

/// A record that lists `b` requires `b`, and is a record of its package.
proof fn lemma_lists_implies(recs: Seq<RecordView>, a: Package, b: Package)
    ensures
        lists(recs, a, b) ==> declares(recs, a) && required(recs, b),
        last_lists(recs, a, b) ==> lists(recs, a, b),
        local(recs, a) ==> declares(recs, a),
{
    if lists(recs, a, b) {
        let i = choose|i: int|
            0 <= i < recs.len() && (#[trigger] recs[i]).package == a
                && recs[i].dependencies.contains(b);
        assert(recs[i].package == a);
        assert(recs[i].dependencies.contains(b));
    }
    if last_lists(recs, a, b) {
        let i = choose|i: int|
            0 <= i < recs.len() && (#[trigger] recs[i]).package == a
                && recs[i].dependencies.contains(b) && forall|j: int|
                i < j < recs.len() ==> (#[trigger] recs[j]).package != a;
        assert(recs[i].package == a && recs[i].dependencies.contains(b));
    }
    if local(recs, a) {
        let i = choose|i: int|
            0 <= i < recs.len() && (#[trigger] recs[i]).package == a
                && !recs[i].has_external_source;
        assert(recs[i].package == a);
    }
}

/// What one more record changes, as long as it lists nothing.
proof fn lemma_push_record(recs: Seq<RecordView>, r: RecordView, a: Package, b: Package)
    requires
        r.dependencies.len() == 0,
    ensures
        declares(recs.push(r), a) == (declares(recs, a) || a == r.package),
        required(recs.push(r), a) == required(recs, a),
        lists(recs.push(r), a, b) == lists(recs, a, b),
        last_lists(recs.push(r), a, b) == (a != r.package && last_lists(recs, a, b)),
        local(recs.push(r), a) == (local(recs, a) || (a == r.package && !r.has_external_source)),
{
    let more = recs.push(r);
    let end = recs.len() as int;
    assert(more[end] == r);
    assert forall|i: int| 0 <= i < end implies #[trigger] more[i] == recs[i] by {}
    // declares
    if declares(recs, a) {
        let i = choose|i: int| 0 <= i < recs.len() && (#[trigger] recs[i]).package == a;
        assert(more[i].package == a);
    }
    if a == r.package {
        assert(more[end].package == a);
    }
    if declares(more, a) {
        let i = choose|i: int| 0 <= i < more.len() && (#[trigger] more[i]).package == a;
        if i < end {
            assert(recs[i].package == a);
        }
    }
    // required
    if required(recs, a) {
        let i = choose|i: int| 0 <= i < recs.len() && (#[trigger] recs[i]).dependencies.contains(a);
        assert(more[i].dependencies.contains(a));
    }
    if required(more, a) {
        let i = choose|i: int| 0 <= i < more.len() && (#[trigger] more[i]).dependencies.contains(a);
        assert(i < end);
        assert(recs[i].dependencies.contains(a));
    }
    // lists
    if lists(recs, a, b) {
        let i = choose|i: int|
            0 <= i < recs.len() && (#[trigger] recs[i]).package == a
                && recs[i].dependencies.contains(b);
        assert(more[i].package == a && more[i].dependencies.contains(b));
    }
    if lists(more, a, b) {
        let i = choose|i: int|
            0 <= i < more.len() && (#[trigger] more[i]).package == a
                && more[i].dependencies.contains(b);
        assert(i < end);
        assert(recs[i].package == a && recs[i].dependencies.contains(b));
    }
    // last_lists
    if a != r.package && last_lists(recs, a, b) {
        let i = choose|i: int|
            0 <= i < recs.len() && (#[trigger] recs[i]).package == a
                && recs[i].dependencies.contains(b) && forall|j: int|
                i < j < recs.len() ==> (#[trigger] recs[j]).package != a;
        assert(more[i].package == a && more[i].dependencies.contains(b));
        assert forall|j: int| i < j < more.len() implies (#[trigger] more[j]).package != a by {
            if j < end {
                assert(recs[j].package != a);
            }
        }
    }
    if last_lists(more, a, b) {
        let i = choose|i: int|
            0 <= i < more.len() && (#[trigger] more[i]).package == a
                && more[i].dependencies.contains(b) && forall|j: int|
                i < j < more.len() ==> (#[trigger] more[j]).package != a;
        assert(i < end);
        assert(more[end].package != a);
        assert(recs[i].package == a && recs[i].dependencies.contains(b));
        assert forall|j: int| i < j < recs.len() implies (#[trigger] recs[j]).package != a by {
            assert(more[j].package != a);
        }
    }
    // local
    if local(recs, a) {
        let i = choose|i: int|
            0 <= i < recs.len() && (#[trigger] recs[i]).package == a
                && !recs[i].has_external_source;
        assert(more[i].package == a && !more[i].has_external_source);
    }
    if a == r.package && !r.has_external_source {
        assert(more[end].package == a && !more[end].has_external_source);
    }
    if local(more, a) {
        let i = choose|i: int|
            0 <= i < more.len() && (#[trigger] more[i]).package == a
                && !more[i].has_external_source;
        if i < end {
            assert(recs[i].package == a && !recs[i].has_external_source);
        }
    }
}

/// The records with one more dependency in the last of them.
spec fn extend_last(recs: Seq<RecordView>, d: Package) -> Seq<RecordView> {
    recs.drop_last().push(
        RecordView { dependencies: recs.last().dependencies.push(d), ..recs.last() },
    )
}

/// What one more dependency in the last record changes.
proof fn lemma_extend_last(recs: Seq<RecordView>, d: Package, a: Package, b: Package)
    requires
        recs.len() > 0,
    ensures
        declares(extend_last(recs, d), a) == declares(recs, a),
        required(extend_last(recs, d), a) == (required(recs, a) || a == d),
        lists(extend_last(recs, d), a, b) == (lists(recs, a, b) || (a == recs.last().package && b
            == d)),
        last_lists(extend_last(recs, d), a, b) == (last_lists(recs, a, b) || (a
            == recs.last().package && b == d)),
        local(extend_last(recs, d), a) == local(recs, a),
{
    let more = extend_last(recs, d);
    let end = recs.len() - 1;
    let r = recs.last();
    assert(more.len() == recs.len());
    assert(more[end].package == r.package);
    assert(more[end].has_external_source == r.has_external_source);
    assert(more[end].dependencies == r.dependencies.push(d));
    assert(more[end].dependencies.contains(d)) by {
        assert(r.dependencies.push(d)[r.dependencies.len() as int] == d);
    }
    assert forall|x: Package| more[end].dependencies.contains(x) == (r.dependencies.contains(x)
        || x == d) by {
        if r.dependencies.contains(x) {
            let k = r.dependencies.index_of(x);
            assert(r.dependencies.push(d)[k] == x);
        }
    }
    assert forall|i: int| 0 <= i < end implies #[trigger] more[i] == recs[i] by {}
    // declares
    if declares(recs, a) {
        let i = choose|i: int| 0 <= i < recs.len() && (#[trigger] recs[i]).package == a;
        assert(more[i].package == a);
    }
    if declares(more, a) {
        let i = choose|i: int| 0 <= i < more.len() && (#[trigger] more[i]).package == a;
        assert(recs[i].package == a);
    }
    // required
    if required(recs, a) {
        let i = choose|i: int| 0 <= i < recs.len() && (#[trigger] recs[i]).dependencies.contains(a);
        assert(more[i].dependencies.contains(a));
    }
    if a == d {
        assert(more[end].dependencies.contains(a));
    }
    if required(more, a) {
        let i = choose|i: int| 0 <= i < more.len() && (#[trigger] more[i]).dependencies.contains(a);
        if a != d {
            assert(recs[i].dependencies.contains(a));
        }
    }
    // lists
    if lists(recs, a, b) {
        let i = choose|i: int|
            0 <= i < recs.len() && (#[trigger] recs[i]).package == a
                && recs[i].dependencies.contains(b);
        assert(more[i].package == a && more[i].dependencies.contains(b));
    }
    if a == r.package && b == d {
        assert(more[end].package == a && more[end].dependencies.contains(b));
    }
    if lists(more, a, b) {
        let i = choose|i: int|
            0 <= i < more.len() && (#[trigger] more[i]).package == a
                && more[i].dependencies.contains(b);
        if !(a == r.package && b == d) {
            assert(recs[i].package == a && recs[i].dependencies.contains(b));
        }
    }
    // last_lists
    if last_lists(recs, a, b) {
        let i = choose|i: int|
            0 <= i < recs.len() && (#[trigger] recs[i]).package == a
                && recs[i].dependencies.contains(b) && forall|j: int|
                i < j < recs.len() ==> (#[trigger] recs[j]).package != a;
        assert(more[i].package == a && more[i].dependencies.contains(b));
        assert forall|j: int| i < j < more.len() implies (#[trigger] more[j]).package != a by {
            assert(recs[j].package != a);
        }
    }
    if a == r.package && b == d {
        assert(more[end].package == a && more[end].dependencies.contains(b));
        assert(last_lists(more, a, b));
    }
    if last_lists(more, a, b) {
        let i = choose|i: int|
            0 <= i < more.len() && (#[trigger] more[i]).package == a
                && more[i].dependencies.contains(b) && forall|j: int|
                i < j < more.len() ==> (#[trigger] more[j]).package != a;
        if !(a == r.package && b == d) {
            assert(recs[i].package == a && recs[i].dependencies.contains(b));
            assert forall|j: int| i < j < recs.len() implies (#[trigger] recs[j]).package
                != a by {
                assert(more[j].package != a);
            }
        }
    }
    // local
    if local(recs, a) {
        let i = choose|i: int|
            0 <= i < recs.len() && (#[trigger] recs[i]).package == a
                && !recs[i].has_external_source;
        assert(more[i].package == a && !more[i].has_external_source);
    }
    if local(more, a) {
        let i = choose|i: int|
            0 <= i < more.len() && (#[trigger] more[i]).package == a
                && !more[i].has_external_source;
        assert(recs[i].package == a && !recs[i].has_external_source);
    }
}

/// The graph of records with one more record, which lists nothing yet.
proof fn lemma_graph_declare(
    nodes: Map<Package, DepVersionView>,
    top: Seq<Package>,
    recs: Seq<RecordView>,
    p: Package,
    has_external_source: bool,
)
    requires
        graph_of(nodes, top, recs),
    ensures
        graph_of(
            nodes.insert(p, declared_node(nodes, p, has_external_source)),
            if has_external_source || top.contains(p) {
                top
            } else {
                top.push(p)
            },
            recs.push(
                RecordView { package: p, has_external_source, dependencies: Seq::empty() },
            ),
        ),
{
    let r = RecordView { package: p, has_external_source, dependencies: Seq::empty() };
    let more = recs.push(r);
    let after = nodes.insert(p, declared_node(nodes, p, has_external_source));
    let top_after = if has_external_source || top.contains(p) {
        top
    } else {
        top.push(p)
    };
    assert forall|x: Package| #[trigger]
        after.contains_key(x) <==> declares(more, x) || required(more, x) by {
        lemma_push_record(recs, r, x, x);
    }
    assert forall|x: Package, d: Package|
        #![trigger after[x].dependencies.contains(d)]
        #![trigger last_lists(more, x, d)]
        after.contains_key(x) implies (after[x].dependencies.contains(d) <==> last_lists(
            more,
            x,
            d,
        )) by {
        lemma_push_record(recs, r, x, d);
    }
    assert forall|x: Package, q: Package|
        #![trigger after[x].dependents.contains(q)]
        #![trigger lists(more, q, x)]
        after.contains_key(x) implies (after[x].dependents.contains(q) <==> lists(more, q, x)) by {
        lemma_push_record(recs, r, q, x);
        lemma_lists_implies(recs, q, x);
    }
    assert forall|x: Package| #[trigger] after.contains_key(x) implies (after[x].origin <==> local(
        more,
        x,
    )) by {
        lemma_push_record(recs, r, x, x);
        lemma_lists_implies(recs, x, x);
    }
    assert forall|x: Package| #[trigger] top_after.contains(x) <==> local(more, x) by {
        lemma_push_record(recs, r, x, x);
        if !(has_external_source || top.contains(p)) {
            assert(top.push(p)[top.len() as int] == p);
            if top.contains(x) {
                let k = top.index_of(x);
                assert(top.push(p)[k] == x);
            }
        }
    }
}

/// The graph of records with one more dependency in the last record.
proof fn lemma_graph_link(
    nodes: Map<Package, DepVersionView>,
    top: Seq<Package>,
    recs: Seq<RecordView>,
    d: Package,
)
    requires
        recs.len() > 0,
        graph_of(nodes, top, recs),
    ensures
        graph_of(linked_nodes(nodes, recs.last().package, d), top, extend_last(recs, d)),
{
    let p = recs.last().package;
    let more = extend_last(recs, d);
    let first = nodes.insert(p, with_dependency(nodes[p], d));
    let after = linked_nodes(nodes, p, d);
    assert(declares(recs, p)) by {
        assert(recs[recs.len() - 1].package == p);
    }
    assert(nodes.contains_key(p));
    assert forall|s: Seq<Package>, x: Package, y: Package| #[trigger]
        s.push(x).contains(y) <==> s.contains(y) || y == x by {
        assert(s.push(x)[s.len() as int] == x);
        if s.contains(y) {
            let k = s.index_of(y);
            assert(s.push(x)[k] == y);
        }
    }
    assert forall|x: Package| #[trigger]
        after.contains_key(x) <==> declares(more, x) || required(more, x) by {
        lemma_extend_last(recs, d, x, x);
    }
    assert forall|x: Package, e: Package|
        #![trigger after[x].dependencies.contains(e)]
        #![trigger last_lists(more, x, e)]
        after.contains_key(x) implies (after[x].dependencies.contains(e) <==> last_lists(
            more,
            x,
            e,
        )) by {
        lemma_extend_last(recs, d, x, e);
        lemma_lists_implies(recs, x, e);
        if !nodes.contains_key(x) {
            assert(x == d);
            assert(!declares(recs, x));
        }
    }
    assert forall|x: Package, q: Package|
        #![trigger after[x].dependents.contains(q)]
        #![trigger lists(more, q, x)]
        after.contains_key(x) implies (after[x].dependents.contains(q) <==> lists(more, q, x)) by {
        lemma_extend_last(recs, d, q, x);
        lemma_lists_implies(recs, q, x);
    }
    assert forall|x: Package| #[trigger] after.contains_key(x) implies (after[x].origin <==> local(
        more,
        x,
    )) by {
        lemma_extend_last(recs, d, x, x);
        lemma_lists_implies(recs, x, x);
    }
    assert forall|x: Package| #[trigger] top.contains(x) <==> local(more, x) by {
        lemma_extend_last(recs, d, x, x);
    }
}

// *** The order of what a graph holds ***

/// The packages of the records without an external source, in the order
/// of the records.
pub open spec fn members(recs: Seq<RecordView>) -> Seq<Package>
    decreases recs.len(),
{
    if recs.len() == 0 {
        Seq::empty()
    } else if recs.last().has_external_source {
        members(recs.drop_last())
    } else {
        members(recs.drop_last()).push(recs.last().package)
    }
}

/// The dependencies that the last record of `p` lists, in its order; none
/// where no record declares `p`.
pub open spec fn last_dependencies(recs: Seq<RecordView>, p: Package) -> Seq<Package>
    decreases recs.len(),
{
    if recs.len() == 0 {
        Seq::empty()
    } else if recs.last().package == p {
        recs.last().dependencies
    } else {
        last_dependencies(recs.drop_last(), p)
    }
}

/// The packages of the records that list `p`, in the order of the
/// records.
pub open spec fn requirers(recs: Seq<RecordView>, p: Package) -> Seq<Package>
    decreases recs.len(),
{
    if recs.len() == 0 {
        Seq::empty()
    } else if recs.last().dependencies.contains(p) {
        requirers(recs.drop_last(), p).push(recs.last().package)
    } else {
        requirers(recs.drop_last(), p)
    }
}

/// The nodes and the workspace members stand in the order of the records:
/// a node's dependencies as its last record lists them, its dependents in
/// the order of the records that require it, the members of the workspace
/// in the order of their records; each once, where it comes first.
pub open spec fn listed_of(
    nodes: Map<Package, DepVersionView>,
    top: Seq<Package>,
    recs: Seq<RecordView>,
) -> bool {
    &&& forall|p: Package| #[trigger]
        nodes.contains_key(p) ==> nodes[p].dependencies == distinct(last_dependencies(recs, p))
    &&& forall|p: Package| #[trigger]
        nodes.contains_key(p) ==> nodes[p].dependents == distinct(requirers(recs, p))
    &&& top == distinct(members(recs))
}

/// The distinct packages of a sequence are its packages, each once.
pub proof fn lemma_distinct(s: Seq<Package>)
    ensures
        distinct(s).no_duplicates(),
        forall|p: Package| distinct(s).contains(p) <==> s.contains(p),
    decreases s.len(),
{
    if s.len() > 0 {
        let front = s.drop_last();
        lemma_distinct(front);
        let before = distinct(front);
        assert forall|p: Package| distinct(s).contains(p) <==> s.contains(p) by {
            if front.contains(p) {
                let k = front.index_of(p);
                assert(s[k] == p);
            }
            if s.contains(p) {
                let k = s.index_of(p);
                if k < s.len() - 1 {
                    assert(front[k] == p);
                }
            }
            if !before.contains(s.last()) {
                assert(before.push(s.last())[before.len() as int] == s.last());
                if before.contains(p) {
                    let k = before.index_of(p);
                    assert(before.push(s.last())[k] == p);
                }
            }
        }
    }
}

/// One more package at the end of a sequence comes last among its
/// distinct packages, unless it came before.
proof fn lemma_distinct_push(s: Seq<Package>, p: Package)
    ensures
        distinct(s.push(p)) == put(distinct(s), p),
{
    assert(s.push(p).drop_last() =~= s);
}

/// No record lists a package that none requires.
proof fn lemma_requirers_none(recs: Seq<RecordView>, p: Package)
    requires
        !required(recs, p),
    ensures
        requirers(recs, p) == Seq::<Package>::empty(),
    decreases recs.len(),
{
    if recs.len() > 0 {
        let front = recs.drop_last();
        assert(!recs[recs.len() - 1].dependencies.contains(p));
        if required(front, p) {
            let i = choose|i: int|
                0 <= i < front.len() && (#[trigger] front[i]).dependencies.contains(p);
            assert(recs[i].dependencies.contains(p));
        }
        lemma_requirers_none(front, p);
    }
}

/// A package that no record declares has no dependencies of a last record.
proof fn lemma_last_dependencies_none(recs: Seq<RecordView>, p: Package)
    requires
        !declares(recs, p),
    ensures
        last_dependencies(recs, p) == Seq::<Package>::empty(),
    decreases recs.len(),
{
    if recs.len() > 0 {
        let front = recs.drop_last();
        assert(recs[recs.len() - 1].package != p);
        if declares(front, p) {
            let i = choose|i: int| 0 <= i < front.len() && (#[trigger] front[i]).package == p;
            assert(recs[i].package == p);
        }
        lemma_last_dependencies_none(front, p);
    }
}

/// The order with one more record, which lists nothing yet.
proof fn lemma_listed_declare(
    nodes: Map<Package, DepVersionView>,
    top: Seq<Package>,
    recs: Seq<RecordView>,
    p: Package,
    has_external_source: bool,
)
    requires
        graph_of(nodes, top, recs),
        listed_of(nodes, top, recs),
    ensures
        listed_of(
            nodes.insert(p, declared_node(nodes, p, has_external_source)),
            if has_external_source {
                top
            } else {
                put(top, p)
            },
            recs.push(
                RecordView { package: p, has_external_source, dependencies: Seq::empty() },
            ),
        ),
{
    let r = RecordView { package: p, has_external_source, dependencies: Seq::empty() };
    let more = recs.push(r);
    let after = nodes.insert(p, declared_node(nodes, p, has_external_source));
    assert(more.drop_last() =~= recs);
    assert(more.last() == r);
    assert forall|x: Package| !r.dependencies.contains(x) by {}
    assert forall|x: Package| #[trigger] after.contains_key(x) implies after[x].dependencies
        == distinct(last_dependencies(more, x)) by {
        if x != p {
            assert(nodes.contains_key(x));
        }
    }
    assert forall|x: Package| #[trigger] after.contains_key(x) implies after[x].dependents
        == distinct(requirers(more, x)) by {
        assert(requirers(more, x) == requirers(recs, x));
        if !nodes.contains_key(x) {
            lemma_requirers_none(recs, x);
        }
    }
    if !has_external_source {
        lemma_distinct_push(members(recs), p);
    }
}

/// The order with one more dependency in the last record.
proof fn lemma_listed_link(
    nodes: Map<Package, DepVersionView>,
    top: Seq<Package>,
    recs: Seq<RecordView>,
    d: Package,
)
    requires
        recs.len() > 0,
        graph_of(nodes, top, recs),
        listed_of(nodes, top, recs),
    ensures
        listed_of(linked_nodes(nodes, recs.last().package, d), top, extend_last(recs, d)),
{
    let r = recs.last();
    let p = r.package;
    let ds = r.dependencies;
    let front = recs.drop_last();
    let more = extend_last(recs, d);
    let first = nodes.insert(p, with_dependency(nodes[p], d));
    let after = linked_nodes(nodes, p, d);
    assert(declares(recs, p)) by {
        assert(recs[recs.len() - 1].package == p);
    }
    assert(nodes.contains_key(p));
    assert(more.drop_last() =~= front);
    assert(more.last().package == p);
    assert(more.last().has_external_source == r.has_external_source);
    assert(more.last().dependencies == ds.push(d));
    assert forall|x: Package| ds.push(d).contains(x) <==> ds.contains(x) || x == d by {
        assert(ds.push(d)[ds.len() as int] == d);
        if ds.contains(x) {
            let k = ds.index_of(x);
            assert(ds.push(d)[k] == x);
        }
    }
    assert(members(more) == members(recs));
    assert forall|x: Package| #[trigger] after.contains_key(x) implies after[x].dependencies
        == distinct(last_dependencies(more, x)) by {
        if x == p {
            lemma_distinct_push(ds, d);
            assert(last_dependencies(recs, p) == ds);
        } else {
            assert(last_dependencies(more, x) == last_dependencies(recs, x));
            if !nodes.contains_key(x) {
                assert(x == d);
                lemma_last_dependencies_none(recs, x);
            }
        }
    }
    assert forall|x: Package| #[trigger] after.contains_key(x) implies after[x].dependents
        == distinct(requirers(more, x)) by {
        if x == d {
            let came = requirers(front, d);
            assert(requirers(more, d) == came.push(p));
            lemma_distinct_push(came, p);
            if first.contains_key(d) {
                assert(nodes.contains_key(d));
                assert(first[d].dependents == nodes[d].dependents);
                if ds.contains(d) {
                    assert(requirers(recs, d) == came.push(p));
                } else {
                    assert(requirers(recs, d) == came);
                }
            } else {
                assert(!required(recs, d));
                lemma_requirers_none(recs, d);
                if ds.contains(d) {
                    assert(recs[recs.len() - 1].dependencies.contains(d));
                }
                assert(requirers(recs, d) == came);
            }
        } else {
            assert(requirers(more, x) == requirers(recs, x));
            assert(nodes.contains_key(x));
        }
    }
}

/// The edges read the same in both directions: `b` is among the
/// dependencies of `a` where `a` is among the dependents of `b`.
pub open spec fn symmetric(nodes: Map<Package, DepVersionView>) -> bool {
    forall|a: Package, b: Package|
        #![trigger nodes[b].dependents.contains(a)]
        #![trigger nodes[a].dependencies.contains(b)]
        (nodes.contains_key(b) && nodes[b].dependents.contains(a)) <==> (nodes.contains_key(a)
            && nodes[a].dependencies.contains(b))
}

/// The graph of records of which no two declare the same package has the
/// same edges in both directions. (A second record of a package replaces
/// the dependencies of the first, whose dependents stay.)
pub proof fn lemma_edges_symmetric(
    nodes: Map<Package, DepVersionView>,
    top: Seq<Package>,
    recs: Seq<RecordView>,
)
    requires
        graph_of(nodes, top, recs),
        distinct_records(recs),
    ensures
        symmetric(nodes),
{
    assert forall|a: Package, b: Package|
        #![trigger nodes[b].dependents.contains(a)]
        #![trigger nodes[a].dependencies.contains(b)]
        (nodes.contains_key(b) && nodes[b].dependents.contains(a)) <==> (nodes.contains_key(a)
            && nodes[a].dependencies.contains(b)) by {
        lemma_lists_implies(recs, a, b);
        if lists(recs, a, b) {
            let i = choose|i: int|
                0 <= i < recs.len() && (#[trigger] recs[i]).package == a
                    && recs[i].dependencies.contains(b);
            assert forall|j: int| i < j < recs.len() implies (#[trigger] recs[j]).package
                != a by {
                assert(recs[i].package != recs[j].package);
            }
            assert(last_lists(recs, a, b));
        }
        if nodes.contains_key(b) && nodes[b].dependents.contains(a) {
            assert(lists(recs, a, b));
        }
        if nodes.contains_key(a) && nodes[a].dependencies.contains(b) {
            assert(last_lists(recs, a, b));
        }
    }
}

// *** The nodes under construction ***

/// The views of the nodes, by package.
spec fn node_views(nodes: PackageMap<DepVersion>) -> Map<Package, DepVersionView> {
    Map::new(
        |p: Package| nodes.entries().contains_key(p),
        |p: Package| nodes.entries()[p]@,
    )
}

/// The nodes are stored where their packages are looked up, and none
/// lists a package twice.
spec fn nodes_ok(nodes: PackageMap<DepVersion>) -> bool {
    nodes.wf() && forall|i: int| 0 <= i < nodes.values@.len() ==> (#[trigger] nodes.values@[i]).wf()
}

/// A change of the node at one position changes the view of its package.
proof fn lemma_node_update(before: &PackageMap<DepVersion>, after: &PackageMap<DepVersion>, at: int)
    requires
        nodes_ok(*before),
        0 <= at < before.values@.len(),
        after.order() == before.order(),
        after.values@.len() == before.values@.len(),
        after.values@[at].wf(),
        forall|i: int|
            0 <= i < before.values@.len() && i != at ==> after.values@[i] == before.values@[i],
    ensures
        nodes_ok(*after),
        node_views(*after) == node_views(*before).insert(before.order()[at], after.values@[at]@),
{
    PackageMap::lemma_update(before, after, at);
    assert(node_views(*after) =~= node_views(*before).insert(
        before.order()[at],
        after.values@[at]@,
    ));
}

/// The position of the node of `p`, which is made where there was none.
fn slot(nodes: &mut PackageMap<DepVersion>, p: Package) -> (at: usize)
    requires
        nodes_ok(*old(nodes)),
    ensures
        nodes_ok(*final(nodes)),
        at < final(nodes).values@.len(),
        final(nodes).order()[at as int] == p,
        node_views(*old(nodes)).contains_key(p) ==> node_views(*final(nodes)) == node_views(
            *old(nodes),
        ),
        !node_views(*old(nodes)).contains_key(p) ==> node_views(*final(nodes)) == node_views(
            *old(nodes),
        ).insert(p, blank_node()),
        old(nodes).order().len() <= final(nodes).order().len(),
        forall|i: int|
            0 <= i < old(nodes).order().len() ==> final(nodes).order()[i] == old(nodes).order()[i],
{
    match nodes.position(&p) {
        Some(at) => at,
        None => {
            let ghost before = *nodes;
            nodes.append(p, DepVersion::new(false));
            assert(node_views(*nodes) =~= node_views(before).insert(p, blank_node()));
            nodes.len() - 1
        },
    }
}

/// One more record declares the package at `at`: its node loses the
/// dependencies that an earlier record gave it.
fn declare(nodes: &mut PackageMap<DepVersion>, at: usize, has_external_source: bool)
    requires
        nodes_ok(*old(nodes)),
        at < old(nodes).values@.len(),
    ensures
        nodes_ok(*final(nodes)),
        final(nodes).order() == old(nodes).order(),
        node_views(*final(nodes)) == node_views(*old(nodes)).insert(
            old(nodes).order()[at as int],
            declared_node(
                node_views(*old(nodes)),
                old(nodes).order()[at as int],
                has_external_source,
            ),
        ),
{
    let ghost before = *nodes;
    proof {
        before.lemma_at(at as int);
    }
    nodes.values[at].clear_dependencies();
    if !has_external_source {
        nodes.values[at].mark_origin();
    }
    proof {
        lemma_node_update(&before, nodes, at as int);
    }
}

/// The package at `at` requires `d`.
fn link(nodes: &mut PackageMap<DepVersion>, at: usize, d: Package)
    requires
        nodes_ok(*old(nodes)),
        at < old(nodes).values@.len(),
    ensures
        nodes_ok(*final(nodes)),
        at < final(nodes).values@.len(),
        final(nodes).order()[at as int] == old(nodes).order()[at as int],
        node_views(*final(nodes)) == linked_nodes(
            node_views(*old(nodes)),
            old(nodes).order()[at as int],
            d,
        ),
{
    let ghost before = *nodes;
    let p = nodes.key(at);
    proof {
        before.lemma_at(at as int);
    }
    nodes.values[at].add_dependency(d);
    let ghost first = *nodes;
    proof {
        lemma_node_update(&before, &first, at as int);
    }
    let to = slot(nodes, d);
    let ghost second = *nodes;
    proof {
        second.lemma_at(to as int);
        assert(node_views(before)[p] == before.values@[at as int]@);
        assert(node_views(second)[d] == second.values@[to as int]@);
    }
    nodes.values[to].add_dependent(p);
    proof {
        lemma_node_update(&second, nodes, to as int);
        let start = node_views(before);
        let mid = start.insert(p, with_dependency(start[p], d));
        assert(node_views(first) == mid);
        if mid.contains_key(d) {
            assert(node_views(second) == mid);
        } else {
            assert(node_views(second) == mid.insert(d, blank_node()));
            assert(node_views(second).insert(d, nodes.values@[to as int]@) =~= mid.insert(
                d,
                nodes.values@[to as int]@,
            ));
        }
    }
}

// *** Dep ***

/// The versions of one name, as mathematical values.
pub struct DepView {
    pub name: u64,
    pub versions: Seq<u64>,
}

/// The versions that the graph holds of one name, in ascending order.
#[derive(Debug)]
pub struct Dep {
    name: u64,
    versions: Vec<u64>,
}

impl View for Dep {
    type V = DepView;

    closed spec fn view(&self) -> DepView {
        DepView { name: self.name, versions: self.versions@ }
    }
}

impl Dep {
    pub fn name(&self) -> (name: u64)
        ensures
            name == self@.name,
    {
        self.name
    }

    /// Whether the graph holds the name in more than one version.
    pub fn has_multiple_versions(&self) -> (b: bool)
        ensures
            b == (self@.versions.len() > 1),
    {
        self.versions.len() > 1
    }

    pub fn versions(&self) -> (versions: &Vec<u64>)
        ensures
            versions@ == self@.versions,
    {
        &self.versions
    }
}

/// Some group holds the package: its name with its version.
pub open spec fn group_holds(groups: Seq<DepView>, p: Package) -> bool {
    exists|i: int|
        0 <= i < groups.len() && (#[trigger] groups[i]).name == p.name
            && groups[i].versions.contains(p.version)
}

/// The groups list the members by name: one group for each name, the names
/// ascending, and in each group the versions of that name, ascending.
pub open spec fn grouped(groups: Seq<DepView>, members: Set<Package>) -> bool {
    &&& forall|i: int, j: int|
        0 <= i < j < groups.len() ==> (#[trigger] groups[i]).name < (#[trigger] groups[j]).name
    &&& forall|i: int| 0 <= i < groups.len() ==> (#[trigger] groups[i]).versions.len() > 0
    &&& forall|i: int, a: int, b: int|
        0 <= i < groups.len() && 0 <= a < b < groups[i].versions.len() ==> (
        #[trigger] groups[i].versions[a]) < (#[trigger] groups[i].versions[b])
    &&& forall|p: Package| #[trigger] members.contains(p) <==> group_holds(groups, p)
}

/// Every package stands before those that follow it.
pub open spec fn ascending(s: Seq<Package>) -> bool {
    forall|i: int, j: int| 0 <= i < j < s.len() ==> (#[trigger] s[i]).precedes(#[trigger] s[j])
}

pub open spec fn dep_views(deps: Seq<Dep>) -> Seq<DepView> {
    deps.map_values(|d: Dep| d@)
}

/// Groups packages that stand in ascending order by their names.
pub(crate) fn group_by_name(sorted: &PackageSet) -> (groups: Vec<Dep>)
    requires
        ascending(packages(*sorted)),
    ensures
        grouped(dep_views(groups@), packages(*sorted).to_set()),
        total_versions(dep_views(groups@)) <= usize::MAX,
{
    let ghost s = packages(*sorted);
    let n = set_len(sorted);
    let mut groups: Vec<Dep> = Vec::new();
    let mut i: usize = 0;
    assert(s.take(0).to_set() =~= Set::<Package>::empty());
    while i < n
        invariant
            s == packages(*sorted),
            ascending(s),
            n == s.len(),
            i <= n,
            grouped(dep_views(groups@), s.take(i as int).to_set()),
            total_versions(dep_views(groups@)) == i,
            forall|g: int, k: int|
                0 <= g < groups@.len() && i <= k < n ==> (#[trigger] groups@[g])@.name < (
                #[trigger] s[k]).name,
        decreases n - i,
    {
        let first = set_get(sorted, i);
        let mut versions: Vec<u64> = Vec::new();
        versions.push(first.version);
        let mut j: usize = i + 1;
        while j < n && set_get(sorted, j).name == first.name
            invariant
                s == packages(*sorted),
                n == s.len(),
                i < j <= n,
                first == s[i as int],
                versions@.len() == j - i,
                forall|k: int|
                    i <= k < j ==> (#[trigger] s[k]).name == first.name && versions@[k - i]
                        == s[k].version,
            decreases n - j,
        {
            versions.push(set_get(sorted, j).version);
            j += 1;
        }
        let ghost before = dep_views(groups@);
        let ghost run = versions@;
        groups.push(Dep { name: first.name, versions });
        proof {
            let after = dep_views(groups@);
            let fresh = DepView { name: first.name, versions: run };
            assert(after =~= before.push(fresh));
            assert(after.drop_last() =~= before);
            assert forall|k: int| j <= k < n implies first.name < (#[trigger] s[k]).name by {
                assert(s[i as int].precedes(s[j as int]));
                if j < k {
                    assert(s[j as int].precedes(s[k]));
                }
            }
            assert forall|a: int, b: int| 0 <= a < b < run.len() implies run[a] < run[b] by {
                assert(s[i + a].precedes(s[i + b]));
                assert(s[i + a].name == first.name && s[i + b].name == first.name);
            }
            assert forall|p: Package| #[trigger]
                s.take(j as int).to_set().contains(p) <==> group_holds(after, p) by {
                if s.take(j as int).contains(p) {
                    let k = s.take(j as int).index_of(p);
                    assert(s[k] == p);
                    if k < i {
                        assert(s.take(i as int)[k] == p);
                        assert(s.take(i as int).to_set().contains(p));
                        let g = choose|g: int|
                            0 <= g < before.len() && (#[trigger] before[g]).name == p.name
                                && before[g].versions.contains(p.version);
                        assert(after[g].name == p.name && after[g].versions.contains(p.version));
                    } else {
                        assert(run[k - i] == p.version);
                        assert(after[before.len() as int].name == p.name && after[before.len() as int].versions.contains(
                            p.version,
                        ));
                    }
                }
                if group_holds(after, p) {
                    let g = choose|g: int|
                        0 <= g < after.len() && (#[trigger] after[g]).name == p.name
                            && after[g].versions.contains(p.version);
                    if g < before.len() {
                        assert(before[g].name == p.name && before[g].versions.contains(p.version));
                        assert(s.take(i as int).to_set().contains(p));
                        let k = s.take(i as int).index_of(p);
                        assert(s.take(j as int)[k] == p);
                    } else {
                        let a = run.index_of(p.version);
                        assert(s[i + a] == p);
                        assert(s.take(j as int)[i + a] == p);
                    }
                }
            }
        }
        i = j;
    }
    assert(s.take(n as int) =~= s);
    groups
}

/// The number of versions that the groups hold, all names together.
pub open spec fn total_versions(groups: Seq<DepView>) -> nat
    decreases groups.len(),
{
    if groups.len() == 0 {
        0
    } else {
        total_versions(groups.drop_last()) + groups.last().versions.len()
    }
}

/// The members hold the name in more than one version.
pub open spec fn has_multiple_versions(members: Set<Package>, name: u64) -> bool {
    exists|v1: u64, v2: u64|
        v1 != v2 && #[trigger] members.contains(Package { name, version: v1 })
            && #[trigger] members.contains(Package { name, version: v2 })
}

/// The package is a member, and not the only version of its name.
pub open spec fn is_duplicate(members: Set<Package>, p: Package) -> bool {
    members.contains(p) && has_multiple_versions(members, p.name)
}

/// A group has more than one version where the members hold its name in
/// more than one version.
pub proof fn lemma_group_sizes(groups: Seq<DepView>, members: Set<Package>, i: int)
    requires
        grouped(groups, members),
        0 <= i < groups.len(),
    ensures
        (groups[i].versions.len() > 1) == has_multiple_versions(members, groups[i].name),
{
    let name = groups[i].name;
    let versions = groups[i].versions;
    assert forall|v: u64| #[trigger] versions.contains(v) implies members.contains(
        Package { name, version: v },
    ) by {
        let p = Package { name, version: v };
        assert(groups[i].name == p.name && groups[i].versions.contains(p.version));
    }
    assert forall|v: u64| #[trigger]
        members.contains(Package { name, version: v }) implies versions.contains(v) by {
        let p = Package { name, version: v };
        let g = choose|g: int|
            0 <= g < groups.len() && (#[trigger] groups[g]).name == p.name
                && groups[g].versions.contains(p.version);
        assert(g == i);
    }
    if versions.len() > 1 {
        assert(versions[0] < versions[1]);
        assert(versions.contains(versions[0]) && versions.contains(versions[1]));
        assert(members.contains(Package { name, version: versions[0] }) && members.contains(
            Package { name, version: versions[1] },
        ));
    }
    if has_multiple_versions(members, name) {
        let (v1, v2) = choose|v1: u64, v2: u64|
            v1 != v2 && #[trigger] members.contains(Package { name, version: v1 })
                && #[trigger] members.contains(Package { name, version: v2 });
        assert(versions.contains(v1) && versions.contains(v2));
        let a = versions.index_of(v1);
        let b = versions.index_of(v2);
        assert(a != b);
    }
}

// *** Deps ***

/// No node lists a package twice among its dependencies or its dependents.
pub open spec fn nodes_wf(nodes: Map<Package, DepVersionView>) -> bool {
    forall|p: Package| #[trigger]
        nodes.contains_key(p) ==> nodes[p].dependencies.no_duplicates()
            && nodes[p].dependents.no_duplicates()
}

/// Every edge leads to a node.
pub open spec fn closed_edges(nodes: Map<Package, DepVersionView>) -> bool {
    &&& forall|p: Package, d: Package|
        nodes.contains_key(p) && #[trigger] nodes[p].dependencies.contains(d)
            ==> nodes.contains_key(d)
    &&& forall|p: Package, q: Package|
        nodes.contains_key(p) && #[trigger] nodes[p].dependents.contains(q) ==> nodes.contains_key(
            q,
        )
}

/// Each dependency of a node is a node that has it among its dependents.
pub open spec fn paired_edges(nodes: Map<Package, DepVersionView>) -> bool {
    forall|p: Package, d: Package|
        nodes.contains_key(p) && #[trigger] nodes[p].dependencies.contains(d)
            ==> nodes.contains_key(d) && nodes[d].dependents.contains(p)
}

/// The dependency graph of a lock file.
#[derive(Debug)]
pub struct Deps {
    nodes: PackageMap<DepVersion>,
    top_level_deps: PackageSet,
    deps: Vec<Dep>,
}

impl View for Deps {
    type V = Map<Package, DepVersionView>;

    /// The nodes of the graph, by package.
    closed spec fn view(&self) -> Map<Package, DepVersionView> {
        node_views(self.nodes)
    }
}

impl Deps {
    /// The members of the workspace, each once, in the order of their
    /// first records.
    pub closed spec fn top_level(&self) -> Seq<Package> {
        packages(self.top_level_deps)
    }

    /// The names of the graph with their versions.
    pub closed spec fn groups(&self) -> Seq<DepView> {
        dep_views(self.deps@)
    }

    /// The packages of the nodes, each once, as the nodes are stored.
    pub closed spec fn order(&self) -> Seq<Package> {
        self.nodes.order()
    }

    /// The nodes are stored where their packages are looked up.
    pub closed spec fn well_stored(&self) -> bool {
        nodes_ok(self.nodes)
    }

    pub open spec fn wf(&self) -> bool {
        &&& self.well_stored()
        &&& self.order().no_duplicates()
        &&& forall|p: Package| self.order().contains(p) <==> #[trigger] self@.contains_key(p)
        &&& self.top_level().no_duplicates()
        &&& nodes_wf(self@)
        &&& closed_edges(self@)
        &&& paired_edges(self@)
        &&& grouped(self.groups(), self@.dom())
        &&& total_versions(self.groups()) <= usize::MAX
    }

    /// The graph holds what the records say, in the order in which they
    /// say it.
    pub open spec fn is_graph_of(&self, recs: Seq<RecordView>) -> bool {
        graph_of(self@, self.top_level(), recs) && listed_of(self@, self.top_level(), recs)
    }

    /// Builds the graph of a lock file. Only the formats `V3` and `V4` are
    /// read.
    pub fn from_lock_file(lock_file: Lockfile) -> (res: Result<Deps, Error>)
        ensures
            res is Ok <==> lock_file.supported(),
            res matches Ok(graph) ==> graph.wf() && graph.is_graph_of(lock_file.records()),
            res matches Ok(graph) ==> distinct_records(lock_file.records()) ==> symmetric(graph@),
            res matches Err(e) ==> e == Error::UnsupportedInputVersion,
    {
        match lock_file.version {
            ResolveVersion::V3 | ResolveVersion::V4 => {},
            _ => {
                return Err(Error::UnsupportedInputVersion);
            },
        }
        let ghost recs = lock_file.records();
        let mut nodes: PackageMap<DepVersion> = PackageMap::new();
        assert(node_views(nodes) =~= Map::<Package, DepVersionView>::empty());
        let mut top = set_new();
        let n = lock_file.packages.len();
        let mut k: usize = 0;
        while k < n
            invariant
                recs == lock_file.records(),
                n == lock_file.packages@.len(),
                k <= n,
                nodes_ok(nodes),
                packages(top).no_duplicates(),
                graph_of(node_views(nodes), packages(top), recs.take(k as int)),
                listed_of(node_views(nodes), packages(top), recs.take(k as int)),
            decreases n - k,
        {
            let record = &lock_file.packages[k];
            let p = Package { name: record.name, version: record.version };
            let external = record.has_external_source;
            let ghost head = RecordView {
                package: p,
                has_external_source: external,
                dependencies: Seq::empty(),
            };
            assert(recs[k as int] == record@);
            proof {
                lemma_graph_declare(node_views(nodes), packages(top), recs.take(k as int), p, external);
                lemma_listed_declare(node_views(nodes), packages(top), recs.take(k as int), p, external);
            }
            if !external {
                let _ = set_insert(&mut top, p);
            }
            let ghost unset = node_views(nodes);
            let at = slot(&mut nodes, p);
            proof {
                if !unset.contains_key(p) {
                    assert(node_views(nodes).insert(p, declared_node(node_views(nodes), p, external)) =~= unset.insert(
                        p,
                        declared_node(unset, p, external),
                    ));
                }
            }
            declare(&mut nodes, at, external);
            let count = record.dependencies.len();
            let mut m: usize = 0;
            assert(record.dependencies@.take(0) =~= Seq::<Package>::empty());
            while m < count
                invariant
                    recs == lock_file.records(),
                    0 <= k < n,
                    n == lock_file.packages@.len(),
                    record == &lock_file.packages@[k as int],
                    count == record.dependencies@.len(),
                    m <= count,
                    head == (RecordView {
                        package: p,
                        has_external_source: external,
                        dependencies: Seq::empty(),
                    }),
                    recs[k as int] == record@,
                    record@.package == p,
                    record@.has_external_source == external,
                    nodes_ok(nodes),
                    at < nodes.values@.len(),
                    nodes.order()[at as int] == p,
                    packages(top).no_duplicates(),
                    graph_of(
                        node_views(nodes),
                        packages(top),
                        recs.take(k as int).push(
                            RecordView {
                                dependencies: record.dependencies@.take(m as int),
                                ..head
                            },
                        ),
                    ),
                    listed_of(
                        node_views(nodes),
                        packages(top),
                        recs.take(k as int).push(
                            RecordView {
                                dependencies: record.dependencies@.take(m as int),
                                ..head
                            },
                        ),
                    ),
                decreases count - m,
            {
                let d = record.dependencies[m];
                let ghost so_far = recs.take(k as int).push(
                    RecordView { dependencies: record.dependencies@.take(m as int), ..head },
                );
                proof {
                    lemma_graph_link(node_views(nodes), packages(top), so_far, d);
                    lemma_listed_link(node_views(nodes), packages(top), so_far, d);
                    assert(so_far.last().package == p);
                    assert(record.dependencies@.take(m as int).push(d)
                        =~= record.dependencies@.take(m + 1));
                    assert(extend_last(so_far, d) =~= recs.take(k as int).push(
                        RecordView { dependencies: record.dependencies@.take(m + 1), ..head },
                    ));
                }
                link(&mut nodes, at, d);
                m += 1;
            }
            proof {
                assert(record.dependencies@.take(count as int) =~= record.dependencies@);
                assert(recs.take(k as int).push(recs[k as int]) =~= recs.take(k + 1));
            }
            k += 1;
        }
        assert(recs.take(n as int) =~= recs);
        let sorted = sorted_copy(&nodes.keys);
        assert(packages(sorted).to_set() =~= node_views(nodes).dom());
        let deps = group_by_name(&sorted);
        let graph = Deps { nodes, top_level_deps: top, deps };
        proof {
            assert forall|x: Package| #[trigger] graph@.contains_key(x) implies graph@[x].dependencies.no_duplicates()
                && graph@[x].dependents.no_duplicates() by {
                let j = graph.nodes.order().index_of(x);
                graph.nodes.lemma_at(j);
            }
            assert forall|x: Package, d: Package|
                graph@.contains_key(x) && #[trigger] graph@[x].dependencies.contains(
                    d,
                ) implies graph@.contains_key(d) by {
                lemma_lists_implies(recs, x, d);
            }
            assert forall|x: Package, q: Package|
                graph@.contains_key(x) && #[trigger] graph@[x].dependents.contains(
                    q,
                ) implies graph@.contains_key(q) by {
                lemma_lists_implies(recs, q, x);
            }
            assert forall|x: Package, d: Package|
                graph@.contains_key(x) && #[trigger] graph@[x].dependencies.contains(
                    d,
                ) implies graph@.contains_key(d) && graph@[d].dependents.contains(x) by {
                lemma_lists_implies(recs, x, d);
            }
            if distinct_records(recs) {
                lemma_edges_symmetric(graph@, graph.top_level(), recs);
            }
        }
        Ok(graph)
    }

    /// The node of a package.
    pub fn get_version(&self, pkg: &Package) -> (res: Result<&DepVersion, Error>)
        requires
            self.wf(),
        ensures
            res is Ok <==> self@.contains_key(*pkg),
            res matches Ok(node) ==> node@ == self@[*pkg] && node.wf(),
            res matches Err(e) ==> e == (Error::CorruptedGraph {
                name: pkg.name,
                version: pkg.version,
            }),
    {
        match self.nodes.position(pkg) {
            Some(at) => Ok(&self.nodes.values[at]),
            None => Err(Error::CorruptedGraph { name: pkg.name, version: pkg.version }),
        }
    }

    /// The number of nodes.
    pub(crate) fn len(&self) -> (n: usize)
        ensures
            n == self.order().len(),
    {
        self.nodes.len()
    }

    /// The package of the node at a position.
    pub(crate) fn package_at(&self, at: usize) -> (p: Package)
        requires
            self.wf(),
            at < self.order().len(),
        ensures
            p == self.order()[at as int],
    {
        self.nodes.key(at)
    }

    /// The node at a position.
    pub(crate) fn node_at(&self, at: usize) -> (node: &DepVersion)
        requires
            self.wf(),
            at < self.order().len(),
        ensures
            node@ == self@[self.order()[at as int]],
            node.wf(),
    {
        proof {
            self.nodes.lemma_at(at as int);
        }
        &self.nodes.values[at]
    }

    /// The names of the graph, ascending, each with its versions.
    pub fn iter(&self) -> (deps: &Vec<Dep>)
        ensures
            dep_views(deps@) == self.groups(),
    {
        &self.deps
    }

    /// The members of the workspace, each once, in the order of their
    /// first records.
    pub fn top_level_iter(&self) -> (set: &PackageSet)
        ensures
            packages(*set) == self.top_level(),
    {
        &self.top_level_deps
    }

    /// The number of names in the graph.
    pub fn count(&self) -> (n: usize)
        ensures
            n == self.groups().len(),
    {
        self.deps.len()
    }
}

} // verus!
