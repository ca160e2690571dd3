use cargo_depcheck::analysis::analyse;
use cargo_depcheck::dep_tree::{Lockfile, PackageRecord, ResolveVersion};
use cargo_depcheck::{BlameMode, Error, Package};

const A: u64 = 1;
const B: u64 = 2;
const C: u64 = 3;
const W: u64 = 4;

fn pkg(name: u64, version: u64) -> Package {
    Package { name, version }
}

fn record(name: u64, version: u64, external: bool, dependencies: Vec<Package>) -> PackageRecord {
    PackageRecord { name, version, has_external_source: external, dependencies }
}

fn lock(packages: Vec<PackageRecord>) -> Lockfile {
    Lockfile { version: ResolveVersion::V4, packages }
}

fn ring() -> Lockfile {
    lock(vec![
        record(W, 1, false, vec![pkg(A, 1), pkg(C, 2)]),
        record(A, 1, true, vec![pkg(B, 1)]),
        record(B, 1, true, vec![pkg(C, 1)]),
        record(C, 1, true, vec![pkg(A, 1)]),
        record(C, 2, true, vec![]),
    ])
}

#[test]
fn the_whole_analysis_finds_duplicates_and_blame() {
    let found = analyse(
        lock(vec![
            record(W, 1, false, vec![pkg(A, 1), pkg(B, 1)]),
            record(A, 1, true, vec![pkg(C, 1)]),
            record(B, 1, true, vec![pkg(C, 2)]),
            record(C, 1, true, vec![]),
            record(C, 2, true, vec![]),
        ]),
        Some(BlameMode::All),
    )
    .unwrap();
    assert_eq!(found.deps.count(), 4);
    assert_eq!(found.results.multi_ver_deps().dup_pkg_count(), 1);
    assert_eq!(found.results.multi_ver_deps().dup_ver_count(), 2);
    assert_eq!(found.results.top_level_blame().packages(), &vec![pkg(W, 1)]);
    assert_eq!(found.results.top_level_blame().entries()[0].direct(), &vec![C]);
    assert_eq!(found.results.dep_blame().packages(), &vec![pkg(A, 1), pkg(B, 1)]);
    assert!(found.parents.get_multi_ver_deps(&pkg(W, 1)).is_some());
    assert!(found.results.return_error(Some(BlameMode::All)));
}

#[test]
fn without_a_mode_the_analysis_stops_at_the_duplicates() {
    let found = analyse(
        lock(vec![
            record(W, 1, false, vec![pkg(C, 1), pkg(C, 2)]),
            record(C, 1, true, vec![]),
            record(C, 2, true, vec![]),
        ]),
        None,
    )
    .unwrap();
    assert_eq!(found.results.multi_ver_deps().dup_pkg_count(), 1);
    assert!(found.parents.parents().is_empty());
    assert!(found.results.top_level_blame().packages().is_empty());
    assert!(found.results.dep_blame().packages().is_empty());
    assert!(found.results.return_error(None));
}

#[test]
fn a_lock_file_of_another_format_is_not_analysed() {
    let mut file = ring();
    file.version = ResolveVersion::V1;
    assert_eq!(analyse(file, Some(BlameMode::All)).err(), Some(Error::UnsupportedInputVersion));
    let mut file = ring();
    file.version = ResolveVersion::Unknown;
    assert_eq!(analyse(file, None).err(), Some(Error::UnsupportedInputVersion));
}

#[test]
fn a_cycle_is_refused_where_blame_is_asked_for() {
    assert_eq!(analyse(ring(), Some(BlameMode::All)).err(), Some(Error::CyclicGraph));
    assert_eq!(analyse(ring(), Some(BlameMode::TopLevel)).err(), Some(Error::CyclicGraph));
    // The duplicates are found without a walk.
    let found = analyse(ring(), None).unwrap();
    assert_eq!(found.results.multi_ver_deps().dup_pkg_count(), 1);
}
