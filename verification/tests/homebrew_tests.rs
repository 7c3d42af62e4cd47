use rs_outdated::history::used_executables;
use rs_outdated::homebrew::{
    cellar_bin_path, cellar_package_path, contains_name, correlate, upgrade_command,
    BrewOutdatedFormulaEntry, BrewOutdatedOutput, ExecutableIndex,
};

fn entry(name: &str, installed: &[&str], current: &str) -> BrewOutdatedFormulaEntry {
    BrewOutdatedFormulaEntry {
        package_name: name.as_bytes().to_vec(),
        installed_versions: installed.iter().map(|v| v.as_bytes().to_vec()).collect(),
        current_version: current.as_bytes().to_vec(),
        pinned: false,
    }
}

#[test]
fn latest_installed_version_is_last() {
    let e = entry("foo", &["1.0", "1.1", "2.0"], "3.0");
    assert_eq!(e.latest_installed_version(), &b"2.0".to_vec());
}

#[test]
fn outdated_output_holds_entries() {
    let out = BrewOutdatedOutput { formulae: vec![entry("foo", &["1.0"], "2.0")] };
    assert_eq!(out.formulae.len(), 1);
    assert_eq!(out.formulae[0].package_name, b"foo".to_vec());
}

#[test]
fn fold_and_lookup_last_writer_wins() {
    let mut index = ExecutableIndex::new();
    index.fold_package(entry("first", &["1"], "2"), vec![b"x".to_vec(), b"only1".to_vec()]);
    index.fold_package(entry("second", &["3"], "4"), vec![b"x".to_vec()]);
    // `x` now belongs to the package folded last.
    let ix = index.lookup(b"x").unwrap();
    assert_eq!(index.package(ix).package_name, b"second".to_vec());
    let i1 = index.lookup(b"only1").unwrap();
    assert_eq!(index.package(i1).package_name, b"first".to_vec());
    assert_eq!(index.lookup(b"absent"), None);
}

#[test]
fn correlate_is_exactly_the_intersection() {
    let mut index = ExecutableIndex::new();
    index.fold_package(entry("pkga", &["1"], "2"), vec![b"a1".to_vec(), b"a2".to_vec()]);
    index.fold_package(entry("pkgb", &["5"], "6"), vec![b"b1".to_vec()]);
    let used = vec![b"a2".to_vec(), b"b1".to_vec(), b"unrelated".to_vec()];
    let mut hits = correlate(&used, &index);
    hits.sort_by(|p, q| p.0.cmp(&q.0));
    assert_eq!(hits.len(), 2);
    assert_eq!(hits[0].0, b"a2".to_vec());
    assert_eq!(index.package(hits[0].1).package_name, b"pkga".to_vec());
    assert_eq!(hits[1].0, b"b1".to_vec());
    assert_eq!(index.package(hits[1].1).package_name, b"pkgb".to_vec());
}

#[test]
fn correlate_reports_each_name_once() {
    let mut index = ExecutableIndex::new();
    index.fold_package(entry("pkga", &["1"], "2"), vec![b"x".to_vec()]);
    index.fold_package(entry("pkgb", &["3"], "4"), vec![b"x".to_vec()]);
    let used = vec![b"x".to_vec(), b"x".to_vec()];
    let hits = correlate(&used, &index);
    assert_eq!(hits.len(), 1);
    assert_eq!(hits[0].0, b"x".to_vec());
    assert_eq!(index.package(hits[0].1).package_name, b"pkgb".to_vec());
}

#[test]
fn end_to_end_recently_used_outdated_package_is_reported() {
    // One outdated package `foo` (installed 1.0, available 2.0) providing the
    // executable `foo`, and a history line invoking it.
    let e = entry("foo", &["1.0"], "2.0");
    let mut index = ExecutableIndex::new();
    index.fold_package(e, vec![b"foo".to_vec()]);
    let history = vec![b"foo --help".to_vec()];
    let used = used_executables(&history);
    let hits = correlate(&used, &index);
    assert_eq!(hits.len(), 1);
    let (exe, pos) = (&hits[0].0, hits[0].1);
    assert_eq!(exe, &b"foo".to_vec());
    let owner = index.package(pos);
    assert_eq!(owner.latest_installed_version(), &b"1.0".to_vec());
    assert_eq!(owner.current_version, b"2.0".to_vec());
    let suggestion = upgrade_command(&vec![owner.package_name.clone()]);
    assert_eq!(suggestion, b"brew upgrade foo".to_vec());
}

#[test]
fn end_to_end_unused_outdated_package_is_not_reported() {
    let e = entry("foo", &["1.0"], "2.0");
    let mut index = ExecutableIndex::new();
    index.fold_package(e, vec![b"foo".to_vec()]);
    let history = vec![b"bar --version".to_vec()];
    let used = used_executables(&history);
    let hits = correlate(&used, &index);
    assert!(hits.is_empty());
}

#[test]
fn cellar_paths() {
    assert_eq!(
        cellar_package_path(b"/usr/local", b"foo", b"1.0"),
        b"/usr/local/Cellar/foo/1.0".to_vec()
    );
    assert_eq!(
        cellar_bin_path(b"/usr/local", b"foo", b"1.0"),
        b"/usr/local/Cellar/foo/1.0/bin".to_vec()
    );
}

#[test]
fn upgrade_command_lists_all_packages() {
    let names = vec![b"foo".to_vec(), b"bar".to_vec()];
    assert_eq!(upgrade_command(&names), b"brew upgrade foo bar".to_vec());
    assert_eq!(upgrade_command(&Vec::new()), b"brew upgrade".to_vec());
}

#[test]
fn contains_name_checks_membership() {
    let v = vec![b"a".to_vec(), b"b".to_vec()];
    assert!(contains_name(&v, b"a"));
    assert!(!contains_name(&v, b"c"));
}
