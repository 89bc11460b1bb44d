use nixup::display::sort_package_diffs;
use nixup::display::sort_store_diffs;
use nixup::display::str_le_exec;
use nixup::display::version_char_matches;
use nixup::store::diff::PackageDiff;
use nixup::store::diff::StoreDiff;

fn diff(name: &str) -> StoreDiff {
    StoreDiff {
        name: name.into(),
        suffix: None,
        ver_from: "1".into(),
        ver_to: "2".into(),
    }
}

fn pkg(name: &str, changed: bool, dep_names: Vec<&str>) -> PackageDiff {
    PackageDiff {
        name: name.into(),
        pkg: if changed { Some(diff(name)) } else { None },
        deps: dep_names.into_iter().map(diff).collect(),
    }
}

#[test]
fn package_order_is_changed_first_then_dep_count_then_name() {
    let mut diffs = vec![
        pkg("zeta", false, vec![]),
        pkg("beta", false, vec!["a", "b"]),
        pkg("alpha", true, vec![]),
        pkg("delta", true, vec!["a"]),
        pkg("gamma", true, vec![]),
    ];
    sort_package_diffs(&mut diffs);
    let order: Vec<&str> = diffs.iter().map(|d| d.name.as_str()).collect();
    assert_eq!(order, vec!["delta", "alpha", "gamma", "beta", "zeta"]);
}

#[test]
fn dependency_order_is_by_name() {
    let mut diffs = vec![diff("pcre"), diff("db"), diff("glibc"), diff("db2")];
    sort_store_diffs(&mut diffs);
    let order: Vec<&str> = diffs.iter().map(|d| d.name.as_str()).collect();
    assert_eq!(order, vec!["db", "db2", "glibc", "pcre"]);
}

#[test]
fn lexicographic_order_on_names() {
    assert!(str_le_exec("db", "db"));
    assert!(str_le_exec("db", "db2"));
    assert!(!str_le_exec("db2", "db"));
    assert!(str_le_exec("", "a"));
    assert!(str_le_exec("abc", "abd"));
    assert!(!str_le_exec("b", "ab"));
}

#[test]
fn version_highlight_marks_changed_characters() {
    let matches = version_char_matches("8.4.0", "8.5.0");
    assert_eq!(matches, vec![true, true, false, true, true]);
    let longer = version_char_matches("4.0", "4.0.1");
    assert_eq!(longer, vec![true, true, true, false, false]);
    let empty = version_char_matches("1.0", "");
    assert_eq!(empty, Vec::<bool>::new());
}
