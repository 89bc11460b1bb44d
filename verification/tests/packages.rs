use nixup::error::StoreError;
use nixup::packages::get_store_diffs;
use nixup::packages::isolate_global_dependencies;
use nixup::packages::parse_system_packages;
use nixup::packages::parse_system_stores;
use nixup::packages::StoreDiff;
use nixup::packages::StorePath;
use nixup::packages::StorePathMap;
use nixup::packages::SystemPackage;
use nixup::packages::SystemPackageMap;

fn mkstore<S>(name: S, ver: S) -> StorePath
where
    S: Into<String>,
{
    StorePath {
        path: None,
        name: name.into(),
        version: ver.into(),
    }
}

fn mkstorediff<S>(name: S, from: S, to: S) -> StoreDiff
where
    S: Into<String>,
{
    StoreDiff {
        name: name.into(),
        ver_from: from.into(),
        ver_to: to.into(),
    }
}

fn mkmap(stores: Vec<StorePath>) -> StorePathMap {
    let mut map = StorePathMap::new();
    for store in stores {
        map.insert(store);
    }
    map
}

fn mksyspkg(path: StorePath, deps: Vec<StorePath>) -> SystemPackage {
    let mut pkg = SystemPackage::from_path(path);
    for dep in deps {
        pkg.deps.insert(dep);
    }
    pkg
}

#[test]
fn store_parse_store_info() {
    let paths = [
        (
            "/nix/store/123abc-glxinfo-8.4.0",
            Some(mkstore("glxinfo", "8.4.0")),
        ),
        ("/nix/store/123abc-fix-static.patch", None),
        (
            "/nix/store/123abc-nix-wallpaper-simple-dark-gray_bottom.png.drv",
            None,
        ),
        ("/nix/store/123abc-pcre-8.42", Some(mkstore("pcre", "8.42"))),
        (
            "/nix/store/123abc-dxvk-v0.96",
            Some(mkstore("dxvk", "v0.96")),
        ),
        (
            "/nix/store/123abc-dxvk-6062dfbef4d5c0f061b9f6e342acab54f34e089a",
            Some(mkstore("dxvk", "6062dfbef4d5c0f061b9f6e342acab54f34e089a")),
        ),
        (
            "/nix/store/123abc-rpcs3-7788-4c59395",
            Some(mkstore("rpcs3", "7788-4c59395")),
        ),
        ("/nix/store/123abc-gcc-7.4.0", Some(mkstore("gcc", "7.4.0"))),
        (
            "/nix/store/123abc-steam-runtime-2016-08-26",
            Some(mkstore("steam-runtime", "2016-08-26")),
        ),
        (
            "/nix/store/123abc-wine-wow-4.0-rc5-staging",
            Some(mkstore("wine-wow|staging", "4.0-rc5")),
        ),
        (
            "/nix/store/123abc-ffmpeg-3.4.5-bin",
            Some(mkstore("ffmpeg|bin", "3.4.5")),
        ),
    ];

    for (full, path) in &paths {
        match StorePath::parse(full) {
            Some(result) => match path {
                Some(p) => {
                    assert_eq!(result.name, p.name, "name mismatch");
                    assert_eq!(result.version, p.version, "version mismatch");
                }
                None => assert!(false, "{} was parsed when no result was expected", full),
            },
            None if path.is_some() => assert!(false, "{} failed to be parsed", full),
            None => (),
        }
    }
}

#[test]
fn store_strip_store_path() {
    let store = "/nix/store/03lp4drizbh8cl3f9mjysrrzrg3ssakv-glxinfo-8.4.0";
    assert_eq!(StorePath::strip(store), Some("glxinfo-8.4.0".into()));
}

#[test]
fn store_detect_store_diffs() {
    let new_stores = mkmap(vec![
        mkstore("glxinfo", "8.5.0"),
        mkstore("ffmpeg", "3.4.5"),
        mkstore("wine-wow|staging", "4.1"),
        mkstore("steam-runtime", "2019-02-15"),
        mkstore("dxvk", "v0.96"),
    ]);

    let old_stores = mkmap(vec![
        mkstore("glxinfo", "8.4.0"),
        mkstore("ffmpeg", "3.4.5"),
        mkstore("wine-wow|staging", "4.0-rc5"),
        mkstore("steam-runtime", "2016-08-26"),
        mkstore("dxvk", "v0.96"),
    ]);

    let expected_diffs = vec![
        mkstorediff("glxinfo", "8.4.0", "8.5.0"),
        mkstorediff("wine-wow|staging", "4.0-rc5", "4.1"),
        mkstorediff("steam-runtime", "2016-08-26", "2019-02-15"),
    ];

    let diffs = get_store_diffs(&new_stores, &old_stores);

    assert!(
        diffs.len() == expected_diffs.len(),
        "actual number of diffs does not match expected"
    );

    for diff in diffs {
        let expected = expected_diffs
            .iter()
            .find(|x| x.name == diff.name)
            .expect(&format!("expected diff not found! {:?}", diff.name));

        assert_eq!(diff.ver_from, expected.ver_from, "from version mismatch");
        assert_eq!(diff.ver_to, expected.ver_to, "to version mismatch");
    }
}

#[test]
fn separate_global_deps() {
    let mut pkgs: SystemPackageMap = parse_system_packages(vec![
        mksyspkg(
            mkstore("test1", "1"),
            vec![mkstore("db", "4.8.30"), mkstore("glibc", "2.27")],
        ),
        mksyspkg(
            mkstore("test2", "1"),
            vec![mkstore("db", "5.0.0"), mkstore("glibc", "2.27")],
        ),
        mksyspkg(
            mkstore("test3", "1"),
            vec![mkstore("db", "4.8.30"), mkstore("glibc", "2.27")],
        ),
    ]);

    let expected_global_dep = mkstore("glibc", "2.27");
    let expected_pkg_dep = [mkstore("db", "4.8.30"), mkstore("db", "5.0.0")];

    let global_deps =
        isolate_global_dependencies(&mut pkgs).expect("failed to isolate global dependencies");

    assert!(global_deps.len() == 1, "global dependency length mismatch");

    let global_dep = global_deps
        .get(&expected_global_dep.name)
        .expect("failed to get expected global dependency");

    assert_eq!(global_dep.name, expected_global_dep.name, "name mismatch");
    assert_eq!(
        global_dep.version, expected_global_dep.version,
        "version mismatch"
    );

    for pkg in pkgs.as_vec() {
        let found = pkg.deps.as_vec().iter().find(|pkg_dep| {
            for dep in &expected_pkg_dep {
                if dep.name == pkg_dep.name && dep.version == pkg_dep.version {
                    return true;
                }
            }

            false
        });

        assert!(
            found.is_some(),
            "failed to find package-specific dependency for {}",
            pkg.path.name
        );
    }
}

#[test]
fn isolate_keeps_sides_disjoint() {
    let mut pkgs: SystemPackageMap = parse_system_packages(vec![
        mksyspkg(
            mkstore("one", "1"),
            vec![mkstore("shared", "7"), mkstore("pinned", "1.0")],
        ),
        mksyspkg(
            mkstore("two", "1"),
            vec![mkstore("shared", "7"), mkstore("pinned", "2.0")],
        ),
        mksyspkg(mkstore("three", "1"), vec![mkstore("lonely", "0.1")]),
    ]);

    let global_deps = isolate_global_dependencies(&mut pkgs).unwrap();

    // shared everywhere at one version, and a single-consumer name, move out
    assert_eq!(global_deps.len(), 2);
    assert!(global_deps.get(&"shared".to_string()).is_some());
    assert!(global_deps.get(&"lonely".to_string()).is_some());
    // a name pinned at two versions stays put and never reaches the shared set
    assert!(global_deps.get(&"pinned".to_string()).is_none());
    for pkg in pkgs.as_vec() {
        for dep in pkg.deps.as_vec() {
            assert!(global_deps.get(&dep.name).is_none());
            assert_eq!(dep.name, "pinned");
        }
    }
}

#[test]
fn parse_deps_reads_command_output() {
    let mut pkg = SystemPackage::from_path(mkstore("mypkg", "3.0"));
    let output = "/nix/store/123abc-dep1-1.0\n\
                  /nix/store/123abc-dep2-2.0\n\
                  not-a-store-line\n\
                  /nix/store/123abc-mypkg-3.0";
    pkg.parse_deps(output);

    // the trailing line names the package itself and is cut off
    assert_eq!(pkg.deps.len(), 2);
    let d1 = pkg.deps.get(&"dep1".to_string()).expect("dep1 missing");
    assert_eq!(d1.version, "1.0");
    assert_eq!(d1.path.as_deref(), Some("/nix/store/123abc-dep1-1.0"));
    let d2 = pkg.deps.get(&"dep2".to_string()).expect("dep2 missing");
    assert_eq!(d2.version, "2.0");
    assert!(pkg.deps.get(&"mypkg".to_string()).is_none());
}

#[test]
fn parse_deps_drops_ambiguous_names() {
    let mut pkg = SystemPackage::from_path(mkstore("mypkg", "3.0"));
    // with no registration time to arbitrate, a name repeated at another
    // version is ambiguous and leaves the set entirely; at the same version
    // the first record stays
    let output = "/nix/store/123abc-dep1-1.0\n\
                  /nix/store/456def-dep1-1.1\n\
                  /nix/store/123abc-dep2-2.0\n\
                  /nix/store/789ghi-dep2-2.0\n\
                  /nix/store/123abc-mypkg-3.0";
    pkg.parse_deps(output);

    assert_eq!(pkg.deps.len(), 1);
    assert!(pkg.deps.get(&"dep1".to_string()).is_none());
    let d2 = pkg.deps.get(&"dep2".to_string()).expect("dep2 missing");
    assert_eq!(d2.path.as_deref(), Some("/nix/store/123abc-dep2-2.0"));
}

#[test]
fn parse_deps_excludes_own_name() {
    let mut pkg = SystemPackage::from_path(mkstore("mypkg", "3.0"));
    // a record of the package's own name anywhere in the listing never ends
    // up among its dependencies
    let output = "/nix/store/123abc-dep1-1.0\n\
                  /nix/store/456def-mypkg-2.9\n\
                  /nix/store/123abc-mypkg-3.0";
    pkg.parse_deps(output);

    assert_eq!(pkg.deps.len(), 1);
    assert!(pkg.deps.get(&"dep1".to_string()).is_some());
    assert!(pkg.deps.get(&"mypkg".to_string()).is_none());
}

#[test]
fn parse_system_stores_reads_listing() {
    let output = "environment.systemPackages = [ \"/nix/store/123abc-glxinfo-8.4.0\" \
                  \"/nix/store/123abc-pcre-8.42\" unquoted \"/nix/store/123abc-fix-static.patch\" ]; rest";
    let stores = parse_system_stores(output).expect("listing should parse");
    assert_eq!(stores.len(), 2);
    let glx = stores.get(&"glxinfo".to_string()).expect("glxinfo missing");
    assert_eq!(glx.version, "8.4.0");
    assert!(stores.get(&"pcre".to_string()).is_some());
}

#[test]
fn parse_system_stores_drops_ambiguous_names() {
    // the same name quoted at two versions is ambiguous and leaves the set
    let output = "prefix [ \"/nix/store/123abc-glxinfo-8.4.0\" \
                  \"/nix/store/456def-glxinfo-8.5.0\" \
                  \"/nix/store/123abc-pcre-8.42\" ] rest";
    let stores = parse_system_stores(output).expect("listing should parse");
    assert_eq!(stores.len(), 1);
    assert!(stores.get(&"glxinfo".to_string()).is_none());
    assert!(stores.get(&"pcre".to_string()).is_some());
}

#[test]
fn parse_system_stores_rejects_malformed_output() {
    match parse_system_stores("no brackets here") {
        Err(StoreError::MalformedOutput) => (),
        other => panic!("expected malformed-output error, got {:?}", other),
    }
    match parse_system_stores("] comes before [ ") {
        Err(StoreError::MalformedOutput) => (),
        other => panic!("expected malformed-output error, got {:?}", other),
    }
}

#[test]
fn store_diff_of_identical_records_is_none() {
    let x = mkstore("glibc", "2.27");
    assert!(nixup::packages::get_store_diff(&x, &x).is_none());
}

#[test]
fn lookups_ignore_version() {
    let map = mkmap(vec![mkstore("db", "4.8.30")]);
    // a record with the same name is the same identity, whatever its version
    let probe = mkstore("db", "5.0.0");
    assert!(map.contains(&probe.name));
    let held = map.get(&probe.name).expect("identity should be found");
    assert_eq!(held.version, "4.8.30");
}

#[test]
fn package_diffs_skip_unchanged_packages() {
    let new = parse_system_packages(vec![
        mksyspkg(mkstore("app", "2.0"), vec![mkstore("lib", "1.1")]),
        mksyspkg(mkstore("same", "1.0"), vec![mkstore("lib", "1.1")]),
        mksyspkg(mkstore("fresh", "1.0"), vec![]),
    ]);
    let old = parse_system_packages(vec![
        mksyspkg(mkstore("app", "1.0"), vec![mkstore("lib", "1.0")]),
        mksyspkg(mkstore("same", "1.0"), vec![mkstore("lib", "1.1")]),
    ]);

    let diffs = nixup::packages::get_package_diffs(&new, &old);
    assert_eq!(diffs.len(), 1);
    assert_eq!(diffs[0].name, "app");
    let pkg_change = diffs[0].pkg.as_ref().expect("primary change expected");
    assert_eq!(pkg_change.ver_from, "1.0");
    assert_eq!(pkg_change.ver_to, "2.0");
    assert_eq!(diffs[0].deps.len(), 1);
    assert_eq!(diffs[0].deps[0].name, "lib");
    assert_eq!(diffs[0].deps[0].ver_from, "1.0");
    assert_eq!(diffs[0].deps[0].ver_to, "1.1");
}
