use nixup::store::Derivation;
use nixup::store::Store;

fn mkstore(name: &str, version: &str, suffix: Option<&str>, register_time: u32) -> Store {
    Store {
        id: 0,
        register_time,
        name: name.into(),
        version: version.into(),
        suffix: suffix.map(|s| s.into()),
    }
}

#[test]
fn mod_parse_store_info() {
    let stores: Vec<(&str, Option<(&str, &str, Option<&str>)>)> = vec![
        ("/nix/store/zx6vs1b6xf07cprslk9is1fhwih21ix5-fix-static.patch", None),
        ("/nix/store/zx6vs1b6xf07cprslk9is1fhwih21ix5-some-deriv.drv", None),
        ("/nix/store/zx6vs1b6xf07cprslk9is1fhwih21ix5-dash-edge-case-", None),
        ("/nix/store/zx6vs1b6xf07cprslk9is1fhwih21ix5-dash-short-", None),
        ("/nix/store/zx6vs1b6xf07cprslk9is1fhwih21ix5-", None),
        (
            "/nix/store/123shortprefix-short-prefix-1.0",
            Some(("short-prefix", "1.0", None)),
        ),
        (
            "/nix/store/zx6vs1b6xf07cprslk9is1fhwih21ix5-glxinfo-8.4.0",
            Some(("glxinfo", "8.4.0", None)),
        ),
        (
            "/nix/store/zx6vs1b6xf07cprslk9is1fhwih21ix5-pcre-8.42",
            Some(("pcre", "8.42", None)),
        ),
        (
            "/nix/store/zx6vs1b6xf07cprslk9is1fhwih21ix5-dxvk-v1.4.6",
            Some(("dxvk", "v1.4.6", None)),
        ),
        (
            "/nix/store/zx6vs1b6xf07cprslk9is1fhwih21ix5-dxvk-c47095a8dcfa4c376d8e9c4276865b7f298137d8",
            Some(("dxvk", "c47095a8dcfa4c376d8e9c4276865b7f298137d8", None)),
        ),
        (
            "/nix/store/zx6vs1b6xf07cprslk9is1fhwih21ix5-rpcs3-9165-8ca53f9",
            Some(("rpcs3", "9165-8ca53f9", None)),
        ),
        (
            "/nix/store/zx6vs1b6xf07cprslk9is1fhwih21ix5-single-version-8",
            Some(("single-version", "8", None)),
        ),
        (
            "/nix/store/zx6vs1b6xf07cprslk9is1fhwih21ix5-single-4",
            Some(("single", "4", None)),
        ),
        (
            "/nix/store/zx6vs1b6xf07cprslk9is1fhwih21ix5-wine-wow-4.21-staging",
            Some(("wine-wow", "4.21", Some("staging"))),
        ),
        (
            "/nix/store/zx6vs1b6xf07cprslk9is1fhwih21ix5-wine-wow-4.0-rc5-staging",
            Some(("wine-wow", "4.0-rc5", Some("staging"))),
        ),
        (
            "/nix/store/zx6vs1b6xf07cprslk9is1fhwih21ix5-ffmpeg-3.4.5-bin",
            Some(("ffmpeg", "3.4.5", Some("bin"))),
        ),
        (
            "/nix/store/zx6vs1b6xf07cprslk9is1fhwih21ix5-vulkan-loader-1.1.85",
            Some(("vulkan-loader", "1.1.85", None)),
        ),
        (
            "/nix/store/zx6vs1b6xf07cprslk9is1fhwih21ix5-vpnc-0.5.3-post-r550",
            Some(("vpnc", "0.5.3-post-r550", None)),
        ),
    ];

    for (path, expected_store) in &stores {
        match Store::parse(0, 0, *path) {
            Some(parsed) => match expected_store {
                Some((name, version, suffix)) => {
                    assert_eq!(*name, parsed.name, "name mismatch");
                    assert_eq!(*version, parsed.version, "version mismatch");
                    assert_eq!(
                        suffix.map(|s| s.to_string()),
                        parsed.suffix,
                        "suffix mismatch"
                    );
                }
                None => panic!(
                    "{} was parsed when no result was expected: {:?}",
                    path, parsed
                ),
            },
            None if expected_store.is_some() => panic!("{} failed to be parsed", path),
            None => (),
        }
    }
}

#[test]
fn mod_strip_store_path() {
    let store = "/nix/store/03lp4drizbh8cl3f9mjysrrzrg3ssakv-glxinfo-8.4.0".as_bytes();
    assert_eq!(
        Store::strip_prefix(store),
        Some("glxinfo-8.4.0".as_bytes()),
        "normal store"
    );

    let dash_edge_case = "/nix/store/zx6vs1b6xf07cprslk9is1fhwih21ix5-".as_bytes();
    assert_eq!(Store::strip_prefix(dash_edge_case), None, "dash edge case");
}

#[test]
fn version_str_shapes() {
    assert!(Store::is_version_str(b"8.4.0"));
    assert!(Store::is_version_str(b"v0.96"));
    assert!(Store::is_version_str(b"2016"));
    assert!(Store::is_version_str(b"0.5.3_rc2"));
    assert!(!Store::is_version_str(b""));
    assert!(!Store::is_version_str(b"v"));
    assert!(!Store::is_version_str(b"version"));
    assert!(!Store::is_version_str(b"staging"));
    assert!(!Store::is_version_str(b"8.4.0-bin"));
    assert!(!Store::is_version_str(b"8.4.A"));
}

#[test]
fn get_unique_drops_same_update_duplicates() {
    // registered within the hour at different versions: one system update,
    // neither version is authoritative
    let unique = Store::get_unique(vec![
        mkstore("db", "5.0.0", None, 2000),
        mkstore("db", "4.8.30", None, 1000),
        mkstore("glibc", "2.27", None, 1500),
    ]);
    assert_eq!(unique.len(), 1);
    assert!(unique.get(&"db".to_string()).is_none());
    assert!(unique.get(&"glibc".to_string()).is_some());
}

#[test]
fn get_unique_keeps_latest_across_updates() {
    // an hour or more apart: the record seen first (the later-registered one)
    // stays authoritative
    let unique = Store::get_unique(vec![
        mkstore("db", "5.0.0", None, 10000),
        mkstore("db", "4.8.30", None, 1000),
    ]);
    assert_eq!(unique.len(), 1);
    let db = unique.get(&"db".to_string()).expect("db should stay");
    assert_eq!(db.version, "5.0.0");
}

#[test]
fn get_unique_hour_boundary() {
    // registrations exactly one hour apart no longer count as one update
    let unique = Store::get_unique(vec![
        mkstore("db", "5.0.0", None, 4600),
        mkstore("db", "4.8.30", None, 1000),
    ]);
    assert_eq!(unique.len(), 1);
    assert_eq!(unique.get(&"db".to_string()).unwrap().version, "5.0.0");
}

#[test]
fn get_unique_keeps_equal_versions() {
    // the same version twice is no ambiguity
    let unique = Store::get_unique(vec![
        mkstore("glibc", "2.27", None, 2000),
        mkstore("glibc", "2.27", None, 1000),
    ]);
    assert_eq!(unique.len(), 1);
    assert_eq!(unique.get(&"glibc".to_string()).unwrap().register_time, 2000);
}

#[test]
fn all_from_system_parses_and_dedupes() {
    let rows: Vec<(i32, String, i32)> = vec![
        (7, "/nix/store/123abc-glxinfo-8.4.0".into(), 5000),
        (8, "/nix/store/123abc-fix-static.patch".into(), 4900),
        (9, "/nix/store/123abc-pcre-8.42".into(), 4800),
        (10, "/nix/store/123abc-pcre-8.43".into(), 4700),
    ];
    let stores = Store::all_from_system(rows);
    // the patch row parses to nothing; the two pcre rows fall within an hour
    // at different versions and drop out entirely
    assert_eq!(stores.len(), 1);
    let glx = stores.get(&"glxinfo".to_string()).expect("glxinfo missing");
    assert_eq!(glx.id, 7);
    assert_eq!(glx.register_time, 5000);
    assert_eq!(glx.version, "8.4.0");
}

#[test]
fn all_from_stores_excludes_own_row() {
    let store = Store {
        id: 1,
        register_time: 100,
        name: "app".into(),
        version: "1.0".into(),
        suffix: None,
    };
    let rows: Vec<(i32, String, i32)> = vec![
        (1, "/nix/store/123abc-app-1.0".into(), 100),
        (2, "/nix/store/123abc-glibc-2.27".into(), 90),
    ];
    let packages = Derivation::all_from_stores(vec![(store, rows)]);
    assert_eq!(packages.len(), 1);
    let drv = &packages.as_vec()[0];
    assert_eq!(drv.store.name, "app");
    assert_eq!(drv.deps.len(), 1);
    assert!(drv.deps.get(&"glibc".to_string()).is_some());
    assert!(drv.deps.get(&"app".to_string()).is_none());
}

#[test]
fn all_from_stores_excludes_own_name() {
    // a row of the package's own name, even under another id and version,
    // never ends up among its dependencies
    let store = Store {
        id: 1,
        register_time: 100,
        name: "app".into(),
        version: "1.0".into(),
        suffix: None,
    };
    let rows: Vec<(i32, String, i32)> = vec![
        (3, "/nix/store/456def-app-2.0".into(), 95),
        (2, "/nix/store/123abc-glibc-2.27".into(), 90),
    ];
    let packages = Derivation::all_from_stores(vec![(store, rows)]);
    let drv = &packages.as_vec()[0];
    assert_eq!(drv.deps.len(), 1);
    assert!(drv.deps.get(&"glibc".to_string()).is_some());
    assert!(drv.deps.get(&"app".to_string()).is_none());
}

#[test]
fn strip_takes_everything_after_the_first_dash() {
    assert_eq!(Store::strip_prefix(b"x-y-1.0"), Some("y-1.0".as_bytes()));
    assert_eq!(
        Store::strip_prefix(b"/nix-store/aaaaaaaaaaaaaaaaaaaaaaaaaaaaaaaa-glxinfo-8.4.0"),
        Some("store/aaaaaaaaaaaaaaaaaaaaaaaaaaaaaaaa-glxinfo-8.4.0".as_bytes())
    );
    assert_eq!(Store::strip_prefix(b"nodash"), None);
    assert_eq!(Store::strip_prefix(b"ends-"), None);
}

#[test]
fn lookups_ignore_version_and_suffix() {
    let mut set = nixup::store::StoreSet::new();
    set.insert(mkstore("wine-wow", "4.0-rc5", Some("staging"), 0));
    // a record with the same name is the same identity, whatever its version
    // or suffix
    let probe = mkstore("wine-wow", "4.1", None, 99);
    let held = set.get(&probe.name).expect("identity should be found");
    assert_eq!(held.version, "4.0-rc5");
    assert_eq!(held.suffix.as_deref(), Some("staging"));
}
