use cargo_depcheck::blame::{Blame, MultiVerDepBlame, MultiVerDepBlameDep, MultiVerDepBlameEntry, MultiVerDepBlameVer};
use cargo_depcheck::dep_tree::{Deps, Lockfile, PackageRecord, ResolveVersion};
use cargo_depcheck::multi_ver_deps::MultiVerDeps;
use cargo_depcheck::multi_ver_parents::MultiVerDepParents;
use cargo_depcheck::results::MultiVerDepResults;
use cargo_depcheck::{BlameMode, Error, Package};

const A: u64 = 1;
const B: u64 = 2;
const C: u64 = 3;
const W: u64 = 4;
const X: u64 = 5;
const Y: u64 = 6;

fn pkg(name: u64, version: u64) -> Package {
    Package { name, version }
}

fn record(name: u64, version: u64, external: bool, dependencies: Vec<Package>) -> PackageRecord {
    PackageRecord { name, version, has_external_source: external, dependencies }
}

fn graph(packages: Vec<PackageRecord>) -> Deps {
    Deps::from_lock_file(Lockfile { version: ResolveVersion::V4, packages }).unwrap()
}

fn items(set: &cargo_depcheck::pkg_set::PackageSet) -> Vec<Package> {
    set.iter().map(|t| pkg(t.0, t.1)).collect()
}

fn analyse(deps: &Deps, mode: Option<BlameMode>) -> MultiVerDepResults {
    assert!(deps.is_acyclic());
    let multi = MultiVerDeps::from_deps(deps);
    let parents = MultiVerDepParents::build(deps, &multi).unwrap();
    MultiVerDepResults::build(deps, &parents, multi, mode).unwrap()
}

/// The names for which a package is to blame: directly, and indirectly.
fn blame_of(blame: &MultiVerDepBlame, p: Package) -> Option<(Vec<u64>, Vec<u64>)> {
    let at = blame.packages().iter().position(|q| *q == p)?;
    let entry = &blame.entries()[at];
    Some((entry.direct().clone(), entry.indirect().clone()))
}

fn two_branch_records() -> Vec<PackageRecord> {
    vec![
        record(A, 1, true, vec![pkg(C, 1)]),
        record(A, 2, true, vec![pkg(C, 2)]),
        record(B, 1, true, vec![pkg(A, 2)]),
        record(C, 1, true, vec![]),
        record(C, 2, true, vec![]),
        record(W, 1, false, vec![pkg(A, 1), pkg(B, 1)]),
    ]
}

/// `W` requires `B`, which requires `X` and `Y`, which require `C 1` and
/// `C 2`.
fn one_branch_point() -> Deps {
    graph(vec![
        record(W, 1, false, vec![pkg(B, 1)]),
        record(B, 1, true, vec![pkg(X, 1), pkg(Y, 1)]),
        record(X, 1, true, vec![pkg(C, 1)]),
        record(Y, 1, true, vec![pkg(C, 2)]),
        record(C, 1, true, vec![]),
        record(C, 2, true, vec![]),
    ])
}

#[test]
fn two_branches_below_the_root_make_the_root_directly_to_blame() {
    let deps = graph(two_branch_records());
    let multi = MultiVerDeps::from_deps(&deps);
    // `A` and `C` are held in the versions 1 and 2 each.
    assert_eq!(multi.dup_pkg_count(), 2);
    assert_eq!(multi.iter()[0].name(), A);
    assert_eq!(multi.iter()[0].iter(), &vec![1, 2]);
    assert_eq!(multi.iter()[1].name(), C);
    assert_eq!(multi.iter()[1].iter(), &vec![1, 2]);

    let results = analyse(&deps, Some(BlameMode::All));
    let top = results.top_level_blame();
    let interior = results.dep_blame();
    // Neither `A 1` nor `B` has both versions of `A` below it, nor both of `C`.
    assert_eq!(blame_of(top, pkg(W, 1)), Some((vec![A, C], vec![])));
    assert_eq!(top.entries()[0].classification(), Blame::DirectPresent);
    // `B` has one version of `A` below it, and one of `C`: no blame.
    assert_eq!(blame_of(interior, pkg(B, 1)), Some((vec![], vec![])));
    // `A 1` and `A 2` have one version of `C` below them each: no blame,
    // direct or indirect, comes from a single version.
    assert_eq!(blame_of(interior, pkg(A, 1)), Some((vec![], vec![])));
    assert_eq!(blame_of(interior, pkg(A, 2)), Some((vec![], vec![])));
    for entry in interior.entries() {
        assert_eq!(entry.classification(), Blame::NoDuplication);
    }
    assert_eq!(top.packages(), &vec![pkg(W, 1)]);
    assert_eq!(interior.packages(), &vec![pkg(A, 1), pkg(A, 2), pkg(B, 1)]);
}

#[test]
fn a_dependency_with_the_whole_duplication_below_it_makes_blame_indirect() {
    let deps = one_branch_point();
    let results = analyse(&deps, Some(BlameMode::All));
    // `B` is where the two versions part.
    assert_eq!(blame_of(results.dep_blame(), pkg(B, 1)), Some((vec![C], vec![])));
    // `W` has both below its one dependency `B`.
    assert_eq!(blame_of(results.top_level_blame(), pkg(W, 1)), Some((vec![], vec![C])));
    assert_eq!(
        results.top_level_blame().entries()[0].classification(),
        Blame::IndirectOnly
    );
    // `X` and `Y` have one version below them each.
    assert_eq!(blame_of(results.dep_blame(), pkg(X, 1)), Some((vec![], vec![])));
    assert_eq!(blame_of(results.dep_blame(), pkg(Y, 1)), Some((vec![], vec![])));
}

#[test]
fn a_dependency_with_a_part_of_the_duplication_leaves_blame_direct() {
    // Below `W`: `C 1`, `C 2` and `C 3`. `B` has two of them below it, `X`
    // the third: none of the two has all three.
    let deps = graph(vec![
        record(W, 1, false, vec![pkg(B, 1), pkg(X, 1)]),
        record(B, 1, true, vec![pkg(C, 1), pkg(C, 2)]),
        record(X, 1, true, vec![pkg(C, 3), pkg(C, 1)]),
        record(C, 1, true, vec![]),
        record(C, 2, true, vec![]),
        record(C, 3, true, vec![]),
    ]);
    let results = analyse(&deps, Some(BlameMode::All));
    assert_eq!(blame_of(results.top_level_blame(), pkg(W, 1)), Some((vec![C], vec![])));
    assert_eq!(blame_of(results.dep_blame(), pkg(B, 1)), Some((vec![C], vec![])));
    assert_eq!(blame_of(results.dep_blame(), pkg(X, 1)), Some((vec![C], vec![])));
}

#[test]
fn a_dependency_with_a_part_makes_blame_direct_beside_one_with_all() {
    // `B` has both versions of `C` below it, `X` only one of them.
    let deps = graph(vec![
        record(W, 1, false, vec![pkg(X, 1), pkg(B, 1)]),
        record(B, 1, true, vec![pkg(C, 1), pkg(C, 2)]),
        record(X, 1, true, vec![pkg(C, 1)]),
        record(C, 1, true, vec![]),
        record(C, 2, true, vec![]),
    ]);
    let results = analyse(&deps, Some(BlameMode::All));
    assert_eq!(blame_of(results.top_level_blame(), pkg(W, 1)), Some((vec![C], vec![])));
    // The detail names the dependency with the part, not the one with all.
    let detail = &results.top_level_blame().entries()[0].detail()[0];
    assert_eq!(detail.versions(), &vec![1]);
    assert_eq!(items(detail.deps()[0].packages()), vec![pkg(X, 1)]);
    assert_eq!(blame_of(results.dep_blame(), pkg(B, 1)), Some((vec![C], vec![])));
    assert_eq!(blame_of(results.dep_blame(), pkg(X, 1)), Some((vec![], vec![])));
}

#[test]
fn dependencies_that_all_have_the_whole_duplication_make_blame_indirect() {
    // `B` and `X` have both versions of `C` below them; `A` has none.
    let deps = graph(vec![
        record(W, 1, false, vec![pkg(X, 1), pkg(A, 1), pkg(B, 1)]),
        record(B, 1, true, vec![pkg(C, 1), pkg(C, 2)]),
        record(X, 1, true, vec![pkg(C, 2), pkg(C, 1)]),
        record(A, 1, true, vec![]),
        record(C, 1, true, vec![]),
        record(C, 2, true, vec![]),
    ]);
    let results = analyse(&deps, Some(BlameMode::All));
    assert_eq!(blame_of(results.top_level_blame(), pkg(W, 1)), Some((vec![], vec![C])));
    assert_eq!(blame_of(results.dep_blame(), pkg(B, 1)), Some((vec![C], vec![])));
    assert_eq!(blame_of(results.dep_blame(), pkg(X, 1)), Some((vec![C], vec![])));
}

#[test]
fn a_package_that_requires_both_versions_itself_is_directly_to_blame() {
    let deps = graph(vec![
        record(W, 1, false, vec![pkg(C, 1), pkg(C, 2)]),
        record(C, 1, true, vec![]),
        record(C, 2, true, vec![]),
    ]);
    let results = analyse(&deps, Some(BlameMode::All));
    assert_eq!(blame_of(results.top_level_blame(), pkg(W, 1)), Some((vec![C], vec![])));
    // Neither dependency has a version of `C` below it: nothing to list.
    assert!(results.top_level_blame().entries()[0].detail()[0].is_empty());
    assert!(results.dep_blame().packages().is_empty());
}

#[test]
fn a_package_can_be_to_blame_both_directly_and_indirectly() {
    // `W` requires `B` and `A 1`; `B` requires `C 1`, `C 2` and `A 2`.
    let deps = graph(vec![
        record(W, 1, false, vec![pkg(B, 1), pkg(A, 1)]),
        record(B, 1, true, vec![pkg(C, 1), pkg(C, 2), pkg(A, 2)]),
        record(A, 1, true, vec![]),
        record(A, 2, true, vec![]),
        record(C, 1, true, vec![]),
        record(C, 2, true, vec![]),
    ]);
    let results = analyse(&deps, Some(BlameMode::All));
    let top = results.top_level_blame();
    assert_eq!(blame_of(top, pkg(W, 1)), Some((vec![A], vec![C])));
    assert_eq!(top.entries()[0].classification(), Blame::DirectPresent);
    assert_eq!(top.both_count(), 1);
    assert_eq!(top.direct_count(), 0);
    assert_eq!(top.indirect_count(), 0);
    assert_eq!(top.count(), 1);
    assert_eq!(top.none_count(), 0);
    assert_eq!(top.total(), 1);
    let interior = results.dep_blame();
    assert_eq!(blame_of(interior, pkg(B, 1)), Some((vec![C], vec![])));
    assert_eq!(interior.direct_count(), 1);
    assert_eq!(interior.both_count(), 0);
    assert_eq!(interior.count(), 1);
}

#[test]
fn a_name_with_one_version_is_blamed_on_no_package() {
    let deps = graph(two_branch_records());
    let results = analyse(&deps, Some(BlameMode::All));
    for blame in [results.top_level_blame(), results.dep_blame()] {
        for entry in blame.entries() {
            for single in [B, W] {
                assert!(!entry.direct().contains(&single));
                assert!(!entry.indirect().contains(&single));
            }
        }
    }
}

#[test]
fn the_order_of_the_records_does_not_change_the_blame() {
    let records = two_branch_records;
    let forward = analyse(&graph(records()), Some(BlameMode::All));
    let mut turned = records();
    turned.reverse();
    let backward = analyse(&graph(turned), Some(BlameMode::All));
    let mut mixed = records();
    mixed.swap(0, 5);
    mixed.swap(1, 3);
    let shuffled = analyse(&graph(mixed), Some(BlameMode::All));
    for other in [&backward, &shuffled] {
        assert_eq!(forward.top_level_blame().packages(), other.top_level_blame().packages());
        assert_eq!(forward.dep_blame().packages(), other.dep_blame().packages());
        for p in forward.top_level_blame().packages() {
            assert_eq!(
                blame_of(forward.top_level_blame(), *p),
                blame_of(other.top_level_blame(), *p)
            );
        }
        for p in forward.dep_blame().packages() {
            assert_eq!(blame_of(forward.dep_blame(), *p), blame_of(other.dep_blame(), *p));
        }
    }
}

#[test]
fn no_package_has_a_row_on_both_sides() {
    for deps in [graph(two_branch_records()), one_branch_point()] {
        let results = analyse(&deps, Some(BlameMode::All));
        for p in results.top_level_blame().packages() {
            assert!(!results.dep_blame().contains(p));
            assert!(results.top_level_blame().contains(p));
        }
        for p in results.dep_blame().packages() {
            assert!(!results.top_level_blame().contains(p));
            assert!(results.dep_blame().contains(p));
        }
    }
}

#[test]
fn a_node_without_dependents_counts_as_top_level() {
    // `X` comes from a registry, and nothing requires it.
    let deps = graph(vec![
        record(X, 1, true, vec![pkg(C, 1), pkg(C, 2)]),
        record(C, 1, true, vec![]),
        record(C, 2, true, vec![]),
    ]);
    let results = analyse(&deps, Some(BlameMode::All));
    assert_eq!(blame_of(results.top_level_blame(), pkg(X, 1)), Some((vec![C], vec![])));
    assert!(results.dep_blame().packages().is_empty());
}

#[test]
fn a_workspace_member_that_is_required_counts_as_top_level() {
    let deps = graph(vec![
        record(W, 1, false, vec![pkg(B, 1)]),
        record(B, 1, false, vec![pkg(C, 1), pkg(C, 2)]),
        record(C, 1, true, vec![]),
        record(C, 2, true, vec![]),
    ]);
    let results = analyse(&deps, Some(BlameMode::All));
    assert_eq!(results.top_level_blame().packages(), &vec![pkg(B, 1), pkg(W, 1)]);
    assert_eq!(blame_of(results.top_level_blame(), pkg(B, 1)), Some((vec![C], vec![])));
    assert_eq!(blame_of(results.top_level_blame(), pkg(W, 1)), Some((vec![], vec![C])));
    assert!(results.dep_blame().packages().is_empty());
    assert_eq!(results.top_level_blame().direct_count(), 1);
    assert_eq!(results.top_level_blame().indirect_count(), 1);
    assert_eq!(results.top_level_blame().count(), 2);
}

#[test]
fn the_mode_decides_which_packages_get_rows() {
    let deps = one_branch_point();
    let none = analyse(&deps, None);
    assert!(none.top_level_blame().packages().is_empty());
    assert!(none.dep_blame().packages().is_empty());
    assert_eq!(none.multi_ver_deps().dup_pkg_count(), 1);

    let top = analyse(&deps, Some(BlameMode::TopLevel));
    assert_eq!(top.top_level_blame().packages(), &vec![pkg(W, 1)]);
    assert!(top.dep_blame().packages().is_empty());

    let all = analyse(&deps, Some(BlameMode::All));
    assert_eq!(all.top_level_blame().packages(), &vec![pkg(W, 1)]);
    assert_eq!(all.dep_blame().packages(), &vec![pkg(B, 1), pkg(X, 1), pkg(Y, 1)]);
}

#[test]
fn failure_goes_by_direct_blame_in_what_the_mode_shows() {
    // Direct blame below the top level only.
    let deps = one_branch_point();
    assert!(analyse(&deps, None).return_error(None));
    assert!(!analyse(&deps, Some(BlameMode::TopLevel)).return_error(Some(BlameMode::TopLevel)));
    assert!(analyse(&deps, Some(BlameMode::All)).return_error(Some(BlameMode::All)));
    let results = analyse(&deps, Some(BlameMode::All));
    assert!(!results.top_level_blame().has_direct_blame());
    assert!(results.dep_blame().has_direct_blame());

    // Direct blame at the top level.
    let deps = graph(two_branch_records());
    assert!(analyse(&deps, Some(BlameMode::TopLevel)).return_error(Some(BlameMode::TopLevel)));

    // No duplicate at all.
    let deps = graph(vec![record(W, 1, false, vec![pkg(A, 1)])]);
    assert!(!analyse(&deps, None).return_error(None));
    assert!(!analyse(&deps, Some(BlameMode::All)).return_error(Some(BlameMode::All)));
}

#[test]
fn blame_is_not_assigned_for_a_package_that_is_no_node() {
    let deps = one_branch_point();
    let multi = MultiVerDeps::from_deps(&deps);
    let parents = MultiVerDepParents::build(&deps, &multi).unwrap();
    // A graph that lacks `B`, which has duplicates below it.
    let other = graph(vec![
        record(W, 1, false, vec![pkg(X, 1), pkg(Y, 1)]),
        record(X, 1, true, vec![pkg(C, 1)]),
        record(Y, 1, true, vec![pkg(C, 2)]),
    ]);
    let least_missing = parents
        .parents()
        .into_iter()
        .find(|p| other.get_version(p).is_err())
        .unwrap();
    assert_eq!(least_missing, pkg(B, 1));
    let res = MultiVerDepResults::build(&other, &parents, multi, Some(BlameMode::All));
    assert_eq!(res.err(), Some(Error::CorruptedGraph { name: B, version: 1 }));
    // Without a mode nothing is looked up.
    let multi = MultiVerDeps::from_deps(&deps);
    assert!(MultiVerDepResults::build(&other, &parents, multi, None).is_ok());
}

#[test]
fn an_entry_is_built_from_a_package_and_its_dependencies() {
    let deps = one_branch_point();
    let multi = MultiVerDeps::from_deps(&deps);
    let parents = MultiVerDepParents::build(&deps, &multi).unwrap();
    let node = deps.get_version(&pkg(B, 1)).unwrap();
    let entry = MultiVerDepBlameEntry::build(&pkg(B, 1), node.dependencies(), &parents);
    assert_eq!(entry.direct(), &vec![C]);
    assert!(entry.indirect().is_empty());
    assert!(entry.has_direct_blame());
    assert!(!entry.has_indirect_blame());
    // A package without duplicates below it.
    let leaf = deps.get_version(&pkg(C, 1)).unwrap();
    let entry = MultiVerDepBlameEntry::build(&pkg(C, 1), leaf.dependencies(), &parents);
    assert!(!entry.has_direct_blame());
    assert!(!entry.has_indirect_blame());
    assert_eq!(entry.classification(), Blame::NoDuplication);
}

#[test]
fn the_detail_lists_which_dependency_brings_which_version() {
    let deps = one_branch_point();
    let results = analyse(&deps, Some(BlameMode::All));
    let interior = results.dep_blame();
    let at = interior.packages().iter().position(|p| *p == pkg(B, 1)).unwrap();
    let entry = &interior.entries()[at];
    assert_eq!(entry.direct(), &vec![C]);
    let detail = &entry.detail()[0];
    assert!(!detail.is_empty());
    assert_eq!(detail.versions(), &vec![1, 2]);
    assert_eq!(items(detail.deps()[0].packages()), vec![pkg(X, 1)]);
    assert_eq!(items(detail.deps()[1].packages()), vec![pkg(Y, 1)]);
}

#[test]
fn the_detail_leaves_out_a_dependency_with_all_versions_below_it() {
    let deps = graph(vec![
        record(W, 1, false, vec![pkg(Y, 1), pkg(X, 1), pkg(B, 1)]),
        record(B, 1, true, vec![pkg(C, 1), pkg(C, 2)]),
        record(X, 1, true, vec![pkg(C, 2)]),
        record(Y, 1, true, vec![pkg(C, 2), pkg(C, 1)]),
        record(C, 1, true, vec![]),
        record(C, 2, true, vec![]),
    ]);
    let multi = MultiVerDeps::from_deps(&deps);
    let parents = MultiVerDepParents::build(&deps, &multi).unwrap();
    // With the versions 1, 2 and 3 asked for, none of the three has all.
    let node = deps.get_version(&pkg(W, 1)).unwrap();
    let detail = MultiVerDepBlameVer::build(C, &vec![1, 2, 3], node.dependencies(), &parents);
    assert_eq!(detail.versions(), &vec![1, 2]);
    assert_eq!(items(detail.deps()[0].packages()), vec![pkg(B, 1), pkg(Y, 1)]);
    assert_eq!(items(detail.deps()[1].packages()), vec![pkg(B, 1), pkg(X, 1), pkg(Y, 1)]);
    // With 1 and 2 asked for, only `X` lacks one.
    let detail = MultiVerDepBlameVer::build(C, &vec![1, 2], node.dependencies(), &parents);
    assert_eq!(detail.versions(), &vec![2]);
    assert_eq!(items(detail.deps()[0].packages()), vec![pkg(X, 1)]);
    // With 2 alone asked for, each has it.
    let detail = MultiVerDepBlameVer::build(C, &vec![2], node.dependencies(), &parents);
    assert!(detail.is_empty());
}

#[test]
fn dependencies_that_bring_a_version_are_kept_once_and_sorted() {
    let mut deps = MultiVerDepBlameDep::new();
    deps.insert(pkg(3, 1));
    deps.insert(pkg(1, 2));
    deps.insert(pkg(3, 1));
    deps.insert(pkg(1, 1));
    assert_eq!(items(deps.packages()), vec![pkg(3, 1), pkg(1, 2), pkg(1, 1)]);
    deps.sort();
    assert_eq!(items(deps.packages()), vec![pkg(1, 1), pkg(1, 2), pkg(3, 1)]);
}

#[test]
fn rows_are_kept_in_the_order_of_their_packages() {
    let deps = one_branch_point();
    let multi = MultiVerDeps::from_deps(&deps);
    let parents = MultiVerDepParents::build(&deps, &multi).unwrap();
    let entry = |p: Package| {
        MultiVerDepBlameEntry::build(&p, deps.get_version(&p).unwrap().dependencies(), &parents)
    };
    let mut blame = MultiVerDepBlame::new();
    assert!(!blame.contains(&pkg(W, 1)));
    blame.insert(pkg(W, 1), entry(pkg(W, 1)));
    blame.insert(pkg(B, 1), entry(pkg(B, 1)));
    blame.insert(pkg(Y, 1), entry(pkg(Y, 1)));
    blame.insert(pkg(X, 1), entry(pkg(X, 1)));
    assert_eq!(blame.packages(), &vec![pkg(B, 1), pkg(W, 1), pkg(X, 1), pkg(Y, 1)]);
    assert!(blame.contains(&pkg(X, 1)));
    assert!(!blame.contains(&pkg(C, 1)));
    assert_eq!(blame.total(), 4);
    assert_eq!(blame.direct_count(), 1);
    assert_eq!(blame.indirect_count(), 1);
    assert_eq!(blame.both_count(), 0);
    assert_eq!(blame.count(), 2);
    assert_eq!(blame.none_count(), 2);
    assert!(blame.has_direct_blame());
    // A second entry for a package takes the place of the first.
    blame.insert(pkg(B, 1), entry(pkg(X, 1)));
    assert_eq!(blame.total(), 4);
    assert_eq!(blame.direct_count(), 0);
    assert!(!blame.has_direct_blame());
    assert_eq!(blame.none_count(), 3);
}
