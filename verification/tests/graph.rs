use cargo_depcheck::dep_tree::{Deps, Lockfile, PackageRecord, ResolveVersion};
use cargo_depcheck::{Error, Package};

const A: u64 = 1;
const B: u64 = 2;
const C: u64 = 3;
const W: u64 = 4;

fn pkg(name: u64, version: u64) -> Package {
    Package { name, version }
}

fn record(name: u64, version: u64, external: bool, dependencies: Vec<Package>) -> PackageRecord {
    PackageRecord { name, version, has_external_source: external, dependencies }
}

fn lock(packages: Vec<PackageRecord>) -> Lockfile {
    Lockfile { version: ResolveVersion::V4, packages }
}

fn items(set: &cargo_depcheck::pkg_set::PackageSet) -> Vec<Package> {
    set.iter().map(|t| pkg(t.0, t.1)).collect()
}

/// `W` requires `A 1` and `B`; `A 1` requires `C 1`; `B` requires `A 2`;
/// `A 2` requires `C 2`.
fn two_branches() -> Lockfile {
    lock(vec![
        record(A, 1, true, vec![pkg(C, 1)]),
        record(A, 2, true, vec![pkg(C, 2)]),
        record(B, 1, true, vec![pkg(A, 2)]),
        record(C, 1, true, vec![]),
        record(C, 2, true, vec![]),
        record(W, 1, false, vec![pkg(A, 1), pkg(B, 1)]),
    ])
}

#[test]
fn only_the_third_and_fourth_format_are_read() {
    for version in [ResolveVersion::V1, ResolveVersion::V2, ResolveVersion::Unknown] {
        let res = Deps::from_lock_file(Lockfile { version, packages: vec![] });
        assert_eq!(res.err(), Some(Error::UnsupportedInputVersion));
    }
    for version in [ResolveVersion::V3, ResolveVersion::V4] {
        let res = Deps::from_lock_file(Lockfile {
            version,
            packages: vec![record(A, 1, false, vec![])],
        });
        assert!(res.is_ok());
    }
}

#[test]
fn an_unsupported_format_leaves_no_graph_for_any_records() {
    let mut file = two_branches();
    file.version = ResolveVersion::V2;
    assert_eq!(Deps::from_lock_file(file).err(), Some(Error::UnsupportedInputVersion));
}

#[test]
fn an_empty_lock_file_gives_an_empty_graph() {
    let deps = Deps::from_lock_file(lock(vec![])).unwrap();
    assert_eq!(deps.count(), 0);
    assert!(deps.iter().is_empty());
    assert!(deps.top_level_iter().is_empty());
    assert!(deps.is_acyclic());
}

#[test]
fn every_declared_and_every_required_package_is_a_node() {
    let deps = Deps::from_lock_file(lock(vec![
        record(W, 1, false, vec![pkg(A, 1), pkg(B, 7)]),
        record(A, 1, true, vec![]),
    ]))
    .unwrap();
    assert_eq!(deps.count(), 3);
    assert!(deps.get_version(&pkg(W, 1)).is_ok());
    assert!(deps.get_version(&pkg(A, 1)).is_ok());
    // `B 7` is required and never declared: a node without dependencies.
    let b = deps.get_version(&pkg(B, 7)).unwrap();
    assert!(b.dependencies().is_empty());
    assert_eq!(items(b.dependents()), vec![pkg(W, 1)]);
    assert!(!b.is_top_level());
}

#[test]
fn edges_and_members_stand_in_the_order_of_the_file() {
    let deps = Deps::from_lock_file(lock(vec![
        record(W, 1, false, vec![pkg(C, 2), pkg(B, 1), pkg(C, 1), pkg(A, 1), pkg(B, 1)]),
        record(B, 1, false, vec![pkg(C, 1)]),
        record(A, 1, false, vec![pkg(C, 1)]),
        record(C, 1, true, vec![]),
    ]))
    .unwrap();
    assert_eq!(
        items(deps.get_version(&pkg(W, 1)).unwrap().dependencies()),
        vec![pkg(C, 2), pkg(B, 1), pkg(C, 1), pkg(A, 1)]
    );
    assert_eq!(
        items(deps.get_version(&pkg(C, 1)).unwrap().dependents()),
        vec![pkg(W, 1), pkg(B, 1), pkg(A, 1)]
    );
    // The members of the workspace, as the file names them.
    assert_eq!(items(deps.top_level_iter()), vec![pkg(W, 1), pkg(B, 1), pkg(A, 1)]);
}

#[test]
fn a_member_with_two_records_stands_where_its_first_record_stands() {
    let deps = Deps::from_lock_file(lock(vec![
        record(B, 1, false, vec![]),
        record(W, 1, false, vec![pkg(B, 1)]),
        record(A, 1, true, vec![]),
        record(B, 1, false, vec![pkg(A, 1)]),
    ]))
    .unwrap();
    assert_eq!(items(deps.top_level_iter()), vec![pkg(B, 1), pkg(W, 1)]);
    assert_eq!(deps.top_level_iter().len(), 2);
}

#[test]
fn a_package_that_is_no_node_is_a_corrupted_graph() {
    let deps = Deps::from_lock_file(two_branches()).unwrap();
    assert_eq!(
        deps.get_version(&pkg(C, 3)).err(),
        Some(Error::CorruptedGraph { name: C, version: 3 })
    );
    assert_eq!(
        deps.get_version(&pkg(9, 1)).err(),
        Some(Error::CorruptedGraph { name: 9, version: 1 })
    );
}

#[test]
fn edges_read_the_same_in_both_directions() {
    let deps = Deps::from_lock_file(two_branches()).unwrap();
    let mut all: Vec<Package> = Vec::new();
    for group in deps.iter() {
        for version in group.versions() {
            all.push(pkg(group.name(), *version));
        }
    }
    assert_eq!(all.len(), 6);
    for a in &all {
        for b in &all {
            let a_requires_b = items(deps.get_version(a).unwrap().dependencies()).contains(b);
            let b_required_by_a = items(deps.get_version(b).unwrap().dependents()).contains(a);
            assert_eq!(a_requires_b, b_required_by_a);
        }
    }
    assert_eq!(items(deps.get_version(&pkg(W, 1)).unwrap().dependencies()), vec![pkg(A, 1), pkg(B, 1)]);
    assert_eq!(items(deps.get_version(&pkg(A, 2)).unwrap().dependents()), vec![pkg(B, 1)]);
    assert_eq!(items(deps.get_version(&pkg(C, 2)).unwrap().dependents()), vec![pkg(A, 2)]);
}

#[test]
fn a_second_record_of_a_package_replaces_its_dependencies() {
    let deps = Deps::from_lock_file(lock(vec![
        record(W, 1, false, vec![pkg(A, 1)]),
        record(W, 1, false, vec![pkg(B, 1)]),
    ]))
    .unwrap();
    assert_eq!(items(deps.get_version(&pkg(W, 1)).unwrap().dependencies()), vec![pkg(B, 1)]);
    // The dependents that the first record gave stay.
    assert_eq!(items(deps.get_version(&pkg(A, 1)).unwrap().dependents()), vec![pkg(W, 1)]);
    assert_eq!(items(deps.get_version(&pkg(B, 1)).unwrap().dependents()), vec![pkg(W, 1)]);
}

#[test]
fn a_dependency_that_is_listed_twice_is_held_once() {
    let deps = Deps::from_lock_file(lock(vec![record(
        W,
        1,
        false,
        vec![pkg(A, 1), pkg(B, 1), pkg(A, 1)],
    )]))
    .unwrap();
    assert_eq!(items(deps.get_version(&pkg(W, 1)).unwrap().dependencies()), vec![pkg(A, 1), pkg(B, 1)]);
    assert_eq!(items(deps.get_version(&pkg(A, 1)).unwrap().dependents()), vec![pkg(W, 1)]);
}

#[test]
fn top_level_is_a_workspace_member_or_a_node_without_dependents() {
    let deps = Deps::from_lock_file(lock(vec![
        // a member of the workspace that another member requires
        record(A, 1, false, vec![]),
        // a member of the workspace that nothing requires
        record(W, 1, false, vec![pkg(A, 1), pkg(B, 1)]),
        // from a registry, and required
        record(B, 1, true, vec![]),
        // from a registry, and required by nothing
        record(C, 1, true, vec![pkg(B, 1)]),
    ]))
    .unwrap();
    let a = deps.get_version(&pkg(A, 1)).unwrap();
    assert!(!a.dependents().is_empty());
    assert!(a.is_top_level());
    let w = deps.get_version(&pkg(W, 1)).unwrap();
    assert!(w.dependents().is_empty());
    assert!(w.is_top_level());
    let b = deps.get_version(&pkg(B, 1)).unwrap();
    assert!(!b.dependents().is_empty());
    assert!(!b.is_top_level());
    let c = deps.get_version(&pkg(C, 1)).unwrap();
    assert!(c.dependents().is_empty());
    assert!(c.is_top_level());
    assert_eq!(items(deps.top_level_iter()), vec![pkg(A, 1), pkg(W, 1)]);
}

#[test]
fn a_package_is_a_workspace_member_where_one_of_its_records_has_no_source() {
    let deps = Deps::from_lock_file(lock(vec![
        record(W, 1, false, vec![pkg(A, 1)]),
        record(A, 1, true, vec![]),
        record(A, 1, false, vec![]),
    ]))
    .unwrap();
    assert_eq!(items(deps.top_level_iter()), vec![pkg(W, 1), pkg(A, 1)]);
    assert!(deps.get_version(&pkg(A, 1)).unwrap().is_top_level());
}

#[test]
fn a_new_node_has_no_edges() {
    let node = cargo_depcheck::dep_tree::DepVersion::new(false);
    assert!(node.dependencies().is_empty());
    assert!(node.dependents().is_empty());
    assert!(node.is_top_level());
    let member = cargo_depcheck::dep_tree::DepVersion::new(true);
    assert!(member.is_top_level());
}

#[test]
fn names_ascend_and_so_do_the_versions_of_each() {
    let deps = Deps::from_lock_file(lock(vec![
        record(W, 1, false, vec![pkg(C, 9), pkg(C, 2), pkg(A, 5)]),
        record(C, 4, true, vec![]),
        record(A, 3, true, vec![]),
    ]))
    .unwrap();
    let groups = deps.iter();
    assert_eq!(deps.count(), 3);
    assert_eq!(groups.len(), 3);
    assert_eq!(groups[0].name(), A);
    assert_eq!(groups[0].versions(), &vec![3, 5]);
    assert!(groups[0].has_multiple_versions());
    assert_eq!(groups[1].name(), C);
    assert_eq!(groups[1].versions(), &vec![2, 4, 9]);
    assert!(groups[1].has_multiple_versions());
    assert_eq!(groups[2].name(), W);
    assert_eq!(groups[2].versions(), &vec![1]);
    assert!(!groups[2].has_multiple_versions());
}

#[test]
fn packages_are_ordered_by_name_and_then_by_version() {
    assert!(pkg(1, 9) < pkg(2, 0));
    assert!(pkg(1, 1) < pkg(1, 2));
    assert!(pkg(1, 9).comes_before(&pkg(2, 0)));
    assert!(pkg(1, 1).comes_before(&pkg(1, 2)));
    assert!(!pkg(1, 2).comes_before(&pkg(1, 2)));
    assert!(!pkg(2, 0).comes_before(&pkg(1, 9)));
    let mut list = vec![pkg(2, 1), pkg(1, 2), pkg(1, 1), pkg(3, 0)];
    list.sort();
    assert_eq!(list, vec![pkg(1, 1), pkg(1, 2), pkg(2, 1), pkg(3, 0)]);
}

#[test]
fn a_graph_without_a_cycle_is_found_so() {
    let deps = Deps::from_lock_file(two_branches()).unwrap();
    assert!(deps.is_acyclic());
    // A diamond is no cycle.
    let diamond = Deps::from_lock_file(lock(vec![
        record(W, 1, false, vec![pkg(A, 1), pkg(B, 1)]),
        record(A, 1, true, vec![pkg(C, 1)]),
        record(B, 1, true, vec![pkg(C, 1)]),
        record(C, 1, true, vec![]),
    ]))
    .unwrap();
    assert!(diamond.is_acyclic());
}

#[test]
fn a_cycle_is_found() {
    let ring = Deps::from_lock_file(lock(vec![
        record(W, 1, false, vec![pkg(A, 1)]),
        record(A, 1, true, vec![pkg(B, 1)]),
        record(B, 1, true, vec![pkg(C, 1)]),
        record(C, 1, true, vec![pkg(A, 1)]),
    ]))
    .unwrap();
    assert!(!ring.is_acyclic());
    let own = Deps::from_lock_file(lock(vec![record(A, 1, true, vec![pkg(A, 1)])])).unwrap();
    assert!(!own.is_acyclic());
}
