use nixup::ident::parse_ident;

fn check(raw: &str, expected: Option<(&str, &str, Option<&str>)>) {
    match (parse_ident(raw), expected) {
        (Some((name, version, suffix)), Some((en, ev, es))) => {
            assert_eq!(name, en, "name mismatch for {}", raw);
            assert_eq!(version, ev, "version mismatch for {}", raw);
            assert_eq!(suffix.as_deref(), es, "suffix mismatch for {}", raw);
        }
        (None, None) => (),
        (got, want) => panic!("{}: got {:?}, expected {:?}", raw, got, want),
    }
}

#[test]
fn round_trip_parse_fixtures() {
    check("glxinfo-8.4.0", Some(("glxinfo", "8.4.0", None)));
    check("wine-wow-4.0-rc5-staging", Some(("wine-wow", "4.0-rc5", Some("staging"))));
    check("ffmpeg-3.4.5-bin", Some(("ffmpeg", "3.4.5", Some("bin"))));
    check("rpcs3-7788-4c59395", Some(("rpcs3", "7788-4c59395", None)));
    check("steam-runtime-2016-08-26", Some(("steam-runtime", "2016-08-26", None)));
    check("dxvk-v0.96", Some(("dxvk", "v0.96", None)));
    check("fix-static.patch", None);
    check("pure-alpha-suffix", None);
    check("static", None);
}

#[test]
fn version_fragment_edges() {
    // a bare `v` is no version candidate and stays part of the name
    check("name-v-bin", None);
    check("name-v-4", Some(("name-v", "4", None)));
    // an all-digit final fragment is no suffix
    check("single-version-8", Some(("single-version", "8", None)));
    // the second of two fragments needs a digit, nothing more
    check("pkg-1a", Some(("pkg", "1a", None)));
    check("pkg-static", None);
}

#[test]
fn empty_and_dangling_fragments() {
    check("", None);
    check("-", None);
    check("a-", None);
    // a trailing separator leaves an empty (all-alphabetic) suffix fragment
    check("dash-edge-case-", None);
}
