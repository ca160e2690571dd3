use cargo_depcheck::dep_tree::{Deps, Lockfile, PackageRecord, ResolveVersion};
use cargo_depcheck::path_summary::{path_summaries, PathState, PathSummary};
use cargo_depcheck::{Error, Package};

const A: u64 = 1;
const B: u64 = 2;
const C: u64 = 3;
const W: u64 = 4;
const X: u64 = 5;

fn pkg(name: u64, version: u64) -> Package {
    Package { name, version }
}

fn record(name: u64, version: u64, external: bool, dependencies: Vec<Package>) -> PackageRecord {
    PackageRecord { name, version, has_external_source: external, dependencies }
}

fn graph(packages: Vec<PackageRecord>) -> Deps {
    let deps = Deps::from_lock_file(Lockfile { version: ResolveVersion::V4, packages }).unwrap();
    assert!(deps.is_acyclic());
    deps
}

fn two_branches() -> Deps {
    graph(vec![
        record(A, 1, true, vec![pkg(C, 1)]),
        record(A, 2, true, vec![pkg(C, 2)]),
        record(B, 1, true, vec![pkg(A, 2)]),
        record(C, 1, true, vec![]),
        record(C, 2, true, vec![]),
        record(W, 1, false, vec![pkg(A, 1), pkg(B, 1)]),
    ])
}

fn kept(direct: Package, mid: Option<Package>, top: Package) -> PathSummary {
    PathSummary { direct, mid, top }
}

#[test]
fn a_path_of_three_packages_keeps_no_package_in_the_middle() {
    // From `A 2` up to the top level: `A 2`, `B`, `W`. `B` requires the
    // duplicate and stands just before `W`.
    let deps = two_branches();
    assert_eq!(
        path_summaries(&deps, &pkg(A, 2)),
        Ok(vec![kept(pkg(B, 1), None, pkg(W, 1))])
    );
}

#[test]
fn a_path_of_four_packages_keeps_the_one_before_the_top() {
    // From `C 2` up to the top level: `C 2`, `A 2`, `B`, `W`.
    let deps = two_branches();
    assert_eq!(
        path_summaries(&deps, &pkg(C, 2)),
        Ok(vec![kept(pkg(A, 2), Some(pkg(B, 1)), pkg(W, 1))])
    );
    assert_eq!(
        path_summaries(&deps, &pkg(C, 1)),
        Ok(vec![kept(pkg(A, 1), None, pkg(W, 1))])
    );
}

#[test]
fn a_path_of_two_packages_ends_where_it_begins() {
    let deps = two_branches();
    assert_eq!(
        path_summaries(&deps, &pkg(A, 1)),
        Ok(vec![kept(pkg(W, 1), None, pkg(W, 1))])
    );
}

#[test]
fn a_long_path_keeps_its_ends_only() {
    // `W` requires `A`, `A` requires `B`, `B` requires `X`, `X` requires `C`.
    let deps = graph(vec![
        record(W, 1, false, vec![pkg(A, 1)]),
        record(A, 1, true, vec![pkg(B, 1)]),
        record(B, 1, true, vec![pkg(X, 1)]),
        record(X, 1, true, vec![pkg(C, 1)]),
        record(C, 1, true, vec![]),
    ]);
    assert_eq!(
        path_summaries(&deps, &pkg(C, 1)),
        Ok(vec![kept(pkg(X, 1), Some(pkg(A, 1)), pkg(W, 1))])
    );
}

#[test]
fn a_top_level_package_has_no_paths_upward() {
    let deps = two_branches();
    assert_eq!(path_summaries(&deps, &pkg(W, 1)), Ok(vec![]));
}

#[test]
fn a_path_ends_at_the_first_top_level_package() {
    // `W` and `B` are members of the workspace, and `W` requires `B`.
    let deps = graph(vec![
        record(W, 1, false, vec![pkg(B, 1)]),
        record(B, 1, false, vec![pkg(A, 1)]),
        record(A, 1, true, vec![pkg(C, 1)]),
        record(C, 1, true, vec![]),
    ]);
    assert_eq!(
        path_summaries(&deps, &pkg(C, 1)),
        Ok(vec![kept(pkg(A, 1), None, pkg(B, 1))])
    );
    assert_eq!(
        path_summaries(&deps, &pkg(A, 1)),
        Ok(vec![kept(pkg(B, 1), None, pkg(B, 1))])
    );
}

#[test]
fn each_path_has_its_summary_and_equal_summaries_are_kept_once() {
    // From `C` two paths lead through `A` to `W`: over `B` and over `X`;
    // and two more begin with `X` itself.
    let deps = graph(vec![
        record(W, 1, false, vec![pkg(B, 1), pkg(X, 1)]),
        record(B, 1, true, vec![pkg(A, 1)]),
        record(X, 1, true, vec![pkg(A, 1), pkg(C, 1)]),
        record(A, 1, true, vec![pkg(C, 1)]),
        record(C, 1, true, vec![]),
    ]);
    let summaries = path_summaries(&deps, &pkg(C, 1)).unwrap();
    assert_eq!(
        summaries,
        vec![
            kept(pkg(A, 1), Some(pkg(B, 1)), pkg(W, 1)),
            kept(pkg(A, 1), Some(pkg(X, 1)), pkg(W, 1)),
            kept(pkg(X, 1), None, pkg(W, 1)),
        ]
    );
    // Two paths with one summary: over `B` and `A`, and over `X` and `A`,
    // where only `A` and `W` are kept.
    let deps = graph(vec![
        record(W, 1, false, vec![pkg(A, 1)]),
        record(A, 1, true, vec![pkg(B, 1), pkg(X, 1)]),
        record(B, 1, true, vec![pkg(C, 1)]),
        record(X, 1, true, vec![pkg(C, 1), pkg(B, 1)]),
        record(C, 1, true, vec![]),
    ]);
    let summaries = path_summaries(&deps, &pkg(C, 1)).unwrap();
    assert_eq!(
        summaries,
        vec![
            kept(pkg(B, 1), Some(pkg(A, 1)), pkg(W, 1)),
            kept(pkg(X, 1), Some(pkg(A, 1)), pkg(W, 1)),
        ]
    );
}

#[test]
fn paths_from_a_package_that_is_no_node_are_a_corrupted_graph() {
    let deps = two_branches();
    assert_eq!(
        path_summaries(&deps, &pkg(C, 3)),
        Err(Error::CorruptedGraph { name: C, version: 3 })
    );
}

#[test]
fn the_walk_keeps_the_first_package_and_the_last_before_the_top() {
    let start = PathState::Start;
    assert_eq!(start.summary(), None);
    // The first package is of the top level.
    assert_eq!(
        start.step(pkg(W, 1), true),
        PathState::Done(kept(pkg(W, 1), None, pkg(W, 1)))
    );
    // The first package is not.
    let one = start.step(pkg(A, 1), false);
    assert_eq!(one, PathState::Climbing { direct: pkg(A, 1), last: None });
    assert_eq!(one.summary(), None);
    assert_eq!(
        one.step(pkg(W, 1), true),
        PathState::Done(kept(pkg(A, 1), None, pkg(W, 1)))
    );
    let two = one.step(pkg(B, 1), false);
    assert_eq!(two, PathState::Climbing { direct: pkg(A, 1), last: Some(pkg(B, 1)) });
    let three = two.step(pkg(X, 1), false);
    assert_eq!(three, PathState::Climbing { direct: pkg(A, 1), last: Some(pkg(X, 1)) });
    let done = three.step(pkg(W, 1), true);
    assert_eq!(done, PathState::Done(kept(pkg(A, 1), Some(pkg(X, 1)), pkg(W, 1))));
    assert_eq!(done.summary(), Some(kept(pkg(A, 1), Some(pkg(X, 1)), pkg(W, 1))));
    // What comes after the top level is not kept.
    assert_eq!(done.step(pkg(C, 9), false), done);
    assert_eq!(done.step(pkg(C, 9), true), done);
}

#[test]
fn summaries_are_ordered_by_their_packages() {
    let low = kept(pkg(A, 1), None, pkg(W, 1));
    let mid = kept(pkg(A, 1), Some(pkg(B, 1)), pkg(B, 2));
    let high = kept(pkg(A, 2), None, pkg(A, 1));
    assert!(low.comes_before(&mid));
    assert!(mid.comes_before(&high));
    assert!(low.comes_before(&high));
    assert!(!mid.comes_before(&low));
    assert!(!low.comes_before(&low));
    assert!(kept(pkg(A, 1), None, pkg(B, 1)).comes_before(&low));
    assert!(kept(pkg(A, 1), Some(pkg(B, 1)), pkg(B, 1)).comes_before(&mid));
    assert!(low < mid && mid < high);
}
