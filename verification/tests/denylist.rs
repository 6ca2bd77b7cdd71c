use bnklaunch::denylist::apply;
use bnklaunch::desktop::{Catalog, DesktopEntry, NAME_CAP};
use bnklaunch::platform::arena::{ArrayString, ArrayVec};

fn entry(name: &str) -> DesktopEntry {
    DesktopEntry::new(name, "x").unwrap()
}

fn catalog(names: &[&str]) -> Catalog {
    let mut c = Catalog::new();
    for n in names {
        assert!(c.push(entry(n)).is_ok());
    }
    c
}

fn deny_list(names: &[&str]) -> ArrayVec<ArrayString<NAME_CAP>, 8> {
    let mut out = ArrayVec::new();
    for n in names {
        let mut s = ArrayString::new();
        s.push_str(n).unwrap();
        out.push(s).unwrap();
    }
    out
}

fn names(entries: &Catalog) -> Vec<String> {
    entries
        .as_slice()
        .iter()
        .map(|e| e.name.as_str().to_string())
        .collect()
}

#[test]
fn apply_removes_matching_and_preserves_order() {
    let mut entries = catalog(&["Firefox", "Qt Linguist", "GIMP", "Qt Assistant", "Inkscape"]);

    apply(
        &mut entries,
        deny_list(&["Qt Linguist", "Qt Assistant"]).as_slice(),
    );

    assert_eq!(names(&entries), vec!["Firefox", "GIMP", "Inkscape"]);
}

#[test]
fn apply_empty_denylist_is_noop() {
    let mut entries = catalog(&["Firefox", "GIMP"]);
    let before = names(&entries);

    apply(&mut entries, deny_list(&[]).as_slice());

    assert_eq!(before, names(&entries));
}

#[test]
fn apply_is_case_sensitive() {
    let mut entries = catalog(&["Firefox"]);

    apply(&mut entries, deny_list(&["firefox"]).as_slice());

    assert_eq!(
        entries.len(),
        1,
        "lowercase 'firefox' must not match 'Firefox'"
    );
}
