use nixup::store::diff::get_package_diffs;
use nixup::store::diff::StoreDiff;
use nixup::store::Derivation;
use nixup::store::DerivationSet;
use nixup::store::Store;
use nixup::store::StoreSet;

fn store(name: &str, version: &str, suffix: Option<&str>) -> Store {
    Store {
        id: 0,
        register_time: 0,
        name: name.into(),
        version: version.into(),
        suffix: suffix.map(|s| s.into()),
    }
}

fn mkset(stores: Vec<Store>) -> StoreSet {
    let mut set = StoreSet::new();
    for st in stores {
        set.insert(st);
    }
    set
}

fn diff(name: &str, ver_from: &str, ver_to: &str) -> StoreDiff {
    StoreDiff {
        name: name.into(),
        suffix: None,
        ver_from: ver_from.into(),
        ver_to: ver_to.into(),
    }
}

#[test]
fn diff_detect_store_diffs() {
    let new_stores = mkset(vec![
        store("glxinfo", "8.5.0", None),
        store("ffmpeg", "3.4.5", None),
        store("wine-wow", "4.1", Some("staging")),
        store("steam-runtime", "2019-02-15", None),
        store("dxvk", "v0.96", None),
        store("diff-suffix", "3.4.6", Some("bin")),
        store("same-suffix", "1.0.1", Some("bin")),
        store("partial-suffix", "1.0.1", None),
    ]);

    let old_stores = mkset(vec![
        store("glxinfo", "8.4.0", None),
        store("ffmpeg", "3.4.5", None),
        store("wine-wow", "4.0-rc5", Some("staging")),
        store("steam-runtime", "2016-08-26", None),
        store("dxvk", "v0.96", None),
        store("diff-suffix", "3.4.5", Some("out")),
        store("same-suffix", "1.0.0", Some("bin")),
        store("partial-suffix", "1.0.0", Some("bin")),
    ]);

    let expected_diffs = vec![
        diff("glxinfo", "8.4.0", "8.5.0"),
        diff("wine-wow", "4.0-rc5", "4.1"),
        diff("steam-runtime", "2016-08-26", "2019-02-15"),
        diff("same-suffix", "1.0.0", "1.0.1"),
    ];

    let diffs = StoreDiff::from_store_list(&new_stores, &old_stores);

    assert!(
        diffs.len() == expected_diffs.len(),
        "got {} diffs, expected {}:\n\texpected: {:?}\n\n\tgot: {:?}",
        diffs.len(),
        expected_diffs.len(),
        expected_diffs,
        diffs
    );

    for diff in diffs {
        let expected = expected_diffs
            .iter()
            .find(|x| x.name == diff.name)
            .expect(&format!("expected diff not found: {}", diff.name));

        assert_eq!(diff.ver_from, expected.ver_from, "old version mismatch");
        assert_eq!(diff.ver_to, expected.ver_to, "new version mismatch");
    }
}

#[test]
fn from_store_of_identical_record_is_none() {
    let x = store("glibc", "2.27", Some("bin"));
    let y = store("glibc", "2.27", Some("bin"));
    assert!(StoreDiff::from_store(&x, &y).is_none());
    let p = store("dxvk", "v0.96", None);
    let q = store("dxvk", "v0.96", None);
    assert!(StoreDiff::from_store(&p, &q).is_none());
}

#[test]
fn from_store_skips_mismatched_suffixes() {
    let with = store("pkg", "1.1", Some("bin"));
    let without = store("pkg", "1.0", None);
    assert!(StoreDiff::from_store(&with, &without).is_none());
    assert!(StoreDiff::from_store(&without, &with).is_none());
    let other = store("pkg", "1.0", Some("out"));
    assert!(StoreDiff::from_store(&with, &other).is_none());
    let same = store("pkg", "1.0", Some("bin"));
    let d = StoreDiff::from_store(&with, &same).expect("comparable change");
    assert_eq!(d.name, "pkg");
    assert_eq!(d.suffix.as_deref(), Some("bin"));
    assert_eq!(d.ver_from, "1.0");
    assert_eq!(d.ver_to, "1.1");
}

fn derivation(st: Store, deps: Vec<Store>) -> Derivation {
    Derivation {
        store: st,
        deps: mkset(deps),
    }
}

fn mkderivs(all: Vec<Derivation>) -> DerivationSet {
    let mut set = DerivationSet::new();
    for d in all {
        set.insert(d);
    }
    set
}

#[test]
fn package_diffs_bundle_primary_and_deps() {
    let new = mkderivs(vec![
        derivation(
            store("app", "2.0", None),
            vec![store("lib", "1.1", None), store("glibc", "2.27", None)],
        ),
        derivation(store("quiet", "1.0", None), vec![]),
        derivation(store("fresh", "0.1", None), vec![]),
    ]);
    let old = mkderivs(vec![
        derivation(
            store("app", "1.0", None),
            vec![store("lib", "1.0", None), store("glibc", "2.27", None)],
        ),
        derivation(store("quiet", "1.0", None), vec![]),
    ]);

    let diffs = get_package_diffs(&new, &old);
    assert_eq!(diffs.len(), 1);
    assert_eq!(diffs[0].name, "app");
    let primary = diffs[0].pkg.as_ref().expect("primary change expected");
    assert_eq!(primary.ver_from, "1.0");
    assert_eq!(primary.ver_to, "2.0");
    assert_eq!(diffs[0].deps.len(), 1);
    assert_eq!(diffs[0].deps[0].name, "lib");
}
