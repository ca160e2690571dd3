use cargo_depcheck::dep_tree::{Deps, Lockfile, PackageRecord, ResolveVersion};
use cargo_depcheck::multi_ver_deps::{MultiVerDep, MultiVerDeps};
use cargo_depcheck::multi_ver_parents::MultiVerDepParents;
use cargo_depcheck::{Error, Package};

const A: u64 = 1;
const B: u64 = 2;
const C: u64 = 3;
const W: u64 = 4;

fn pkg(name: u64, version: u64) -> Package {
    Package { name, version }
}

fn record(name: u64, version: u64, external: bool, dependencies: Vec<Package>) -> PackageRecord {
    PackageRecord { name, version, has_external_source: external, dependencies }
}

fn graph(packages: Vec<PackageRecord>) -> Deps {
    Deps::from_lock_file(Lockfile { version: ResolveVersion::V3, packages }).unwrap()
}

fn items(set: &cargo_depcheck::pkg_set::PackageSet) -> Vec<Package> {
    set.iter().map(|t| pkg(t.0, t.1)).collect()
}

fn below(parents: &MultiVerDepParents, p: Package) -> Option<Vec<Package>> {
    parents.get_multi_ver_deps(&p).map(|seen| items(seen.packages()))
}

fn two_branches() -> Deps {
    graph(vec![
        record(W, 1, false, vec![pkg(A, 1), pkg(B, 1)]),
        record(C, 2, true, vec![]),
        record(C, 1, true, vec![]),
        record(B, 1, true, vec![pkg(A, 2)]),
        record(A, 2, true, vec![pkg(C, 2)]),
        record(A, 1, true, vec![pkg(C, 1)]),
    ])
}

#[test]
fn only_names_with_two_versions_or_more_are_duplicates() {
    let deps = two_branches();
    let multi = MultiVerDeps::from_deps(&deps);
    assert!(!multi.is_empty());
    assert_eq!(multi.dup_pkg_count(), 2);
    assert_eq!(multi.dup_ver_count(), 4);
    let groups = multi.iter();
    assert_eq!(groups[0].name(), A);
    assert_eq!(groups[0].iter(), &vec![1, 2]);
    assert_eq!(groups[0].ver_count(), 2);
    assert_eq!(groups[1].name(), C);
    assert_eq!(groups[1].iter(), &vec![1, 2]);
}

#[test]
fn a_graph_of_single_versions_has_no_duplicates() {
    let deps = graph(vec![
        record(W, 1, false, vec![pkg(A, 1), pkg(B, 1)]),
        record(A, 1, true, vec![pkg(B, 1)]),
        record(B, 1, true, vec![]),
    ]);
    let multi = MultiVerDeps::from_deps(&deps);
    assert!(multi.is_empty());
    assert_eq!(multi.dup_pkg_count(), 0);
    assert_eq!(multi.dup_ver_count(), 0);
    let parents = MultiVerDepParents::build(&deps, &multi).unwrap();
    assert!(parents.parents().is_empty());
    assert!(parents.get_multi_ver_deps(&pkg(W, 1)).is_none());
}

#[test]
fn three_versions_of_one_name_count_once_as_a_name() {
    let deps = graph(vec![record(
        W,
        1,
        false,
        vec![pkg(A, 3), pkg(A, 1), pkg(A, 2), pkg(B, 1)],
    )]);
    let multi = MultiVerDeps::from_deps(&deps);
    assert_eq!(multi.dup_pkg_count(), 1);
    assert_eq!(multi.dup_ver_count(), 3);
    assert_eq!(multi.iter()[0].iter(), &vec![1, 2, 3]);
}

#[test]
fn a_group_keeps_its_name_and_versions() {
    let group = MultiVerDep::new(7, vec![4, 5, 6]);
    assert_eq!(group.name(), 7);
    assert_eq!(group.iter(), &vec![4, 5, 6]);
    assert_eq!(group.ver_count(), 3);
}

#[test]
fn each_package_holds_the_duplicates_that_it_requires() {
    let deps = two_branches();
    let multi = MultiVerDeps::from_deps(&deps);
    let parents = MultiVerDepParents::build(&deps, &multi).unwrap();
    assert_eq!(
        below(&parents, pkg(W, 1)),
        Some(vec![pkg(A, 1), pkg(A, 2), pkg(C, 1), pkg(C, 2)])
    );
    assert_eq!(below(&parents, pkg(B, 1)), Some(vec![pkg(A, 2), pkg(C, 2)]));
    assert_eq!(below(&parents, pkg(A, 1)), Some(vec![pkg(C, 1)]));
    assert_eq!(below(&parents, pkg(A, 2)), Some(vec![pkg(C, 2)]));
    assert_eq!(below(&parents, pkg(C, 1)), None);
    assert_eq!(below(&parents, pkg(C, 2)), None);
    assert_eq!(parents.parents(), vec![pkg(A, 1), pkg(A, 2), pkg(B, 1), pkg(W, 1)]);
}

#[test]
fn a_duplicate_that_is_met_on_two_paths_is_held_once() {
    // `W` requires `A` and `B`, and both require `C 1` and `C 2`.
    let deps = graph(vec![
        record(W, 1, false, vec![pkg(A, 1), pkg(B, 1)]),
        record(A, 1, true, vec![pkg(C, 1), pkg(C, 2)]),
        record(B, 1, true, vec![pkg(C, 1), pkg(C, 2)]),
        record(C, 1, true, vec![]),
        record(C, 2, true, vec![]),
    ]);
    let multi = MultiVerDeps::from_deps(&deps);
    let parents = MultiVerDepParents::build(&deps, &multi).unwrap();
    assert_eq!(below(&parents, pkg(W, 1)), Some(vec![pkg(C, 1), pkg(C, 2)]));
    assert_eq!(below(&parents, pkg(A, 1)), Some(vec![pkg(C, 1), pkg(C, 2)]));
    assert_eq!(below(&parents, pkg(B, 1)), Some(vec![pkg(C, 1), pkg(C, 2)]));
}

#[test]
fn a_duplicate_does_not_stand_below_itself() {
    // `C 2` requires `C 1`: the newer version is built on the older one.
    let deps = graph(vec![
        record(W, 1, false, vec![pkg(C, 2)]),
        record(C, 2, true, vec![pkg(C, 1)]),
        record(C, 1, true, vec![]),
    ]);
    let multi = MultiVerDeps::from_deps(&deps);
    let parents = MultiVerDepParents::build(&deps, &multi).unwrap();
    assert_eq!(below(&parents, pkg(C, 2)), Some(vec![pkg(C, 1)]));
    assert_eq!(below(&parents, pkg(W, 1)), Some(vec![pkg(C, 1), pkg(C, 2)]));
    assert_eq!(below(&parents, pkg(C, 1)), None);
}

#[test]
fn the_versions_of_a_name_below_a_package_can_be_asked_for() {
    let deps = two_branches();
    let multi = MultiVerDeps::from_deps(&deps);
    let parents = MultiVerDepParents::build(&deps, &multi).unwrap();
    let root = parents.get_multi_ver_deps(&pkg(W, 1)).unwrap();
    assert_eq!(root.get(A), Some(vec![1, 2]));
    assert_eq!(root.get(C), Some(vec![1, 2]));
    assert_eq!(root.get(B), None);
    assert!(root.contains(&pkg(C, 2)));
    assert!(!root.contains(&pkg(C, 3)));
    let groups = root.multi_ver_iter();
    assert_eq!(groups.len(), 2);
    assert_eq!(groups[0].name(), A);
    assert_eq!(groups[1].name(), C);

    let branch = parents.get_multi_ver_deps(&pkg(B, 1)).unwrap();
    assert_eq!(branch.get(A), Some(vec![2]));
    assert!(!branch.contains(&pkg(A, 1)));
    // `B` has one version of each name below it: no name in two.
    assert!(branch.multi_ver_iter().is_empty());
}

#[test]
fn the_walk_fails_on_the_first_duplicate_that_is_no_node() {
    let full = graph(vec![record(
        W,
        1,
        false,
        vec![pkg(A, 1), pkg(A, 2), pkg(C, 1), pkg(C, 2)],
    )]);
    let multi = MultiVerDeps::from_deps(&full);
    // Another graph, which lacks `A 2` and both versions of `C`.
    let other = graph(vec![record(W, 1, false, vec![pkg(A, 1)])]);
    let res = MultiVerDepParents::build(&other, &multi);
    assert_eq!(res.err(), Some(Error::CorruptedGraph { name: A, version: 2 }));
}

#[test]
fn an_index_without_entries_holds_nothing() {
    for parents in [MultiVerDepParents::new(), MultiVerDepParents::default()] {
        assert!(parents.parents().is_empty());
        assert!(parents.get_multi_ver_deps(&pkg(W, 1)).is_none());
    }
    let seen = cargo_depcheck::multi_ver_parents::MultiVerDeps::new();
    assert!(seen.packages().is_empty());
    assert_eq!(seen.get(A), None);
    assert!(seen.multi_ver_iter().is_empty());
}
