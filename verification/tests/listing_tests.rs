use find_project::config::ConfigError;
use find_project::config::RootChoice;
use find_project::listing::getalldirs;
use find_project::listing::DirEntry;
use find_project::listing::FilterConfig;

fn n(s: &str) -> Vec<u8> {
    s.as_bytes().to_vec()
}

fn dir(s: &str) -> DirEntry {
    DirEntry { name: n(s), is_dir: true }
}

fn file(s: &str) -> DirEntry {
    DirEntry { name: n(s), is_dir: false }
}

fn cfg(target: &str, vendor: bool, hidden: bool, sort: bool) -> FilterConfig {
    FilterConfig {
        folder_name: n(target),
        include_vendor: vendor,
        include_hidden: hidden,
        sort_alphabetically: sort,
    }
}

#[test]
fn test_getalldirs() {
    let entries = vec![dir("dir1"), dir("dir2"), dir("vendor"), dir(".hidden")];
    let args = cfg("", false, false, false);
    let dirs = getalldirs(&entries, &args);
    assert_eq!(dirs.len(), 2);
    let mut names = dirs.clone();
    names.sort();
    assert_eq!(names, vec![n("dir1"), n("dir2")]);
}

#[test]
fn test_getalldirs_skips_files() {
    let entries = vec![dir("sub"), file("notes"), file("dir-shaped-file")];
    let dirs = getalldirs(&entries, &cfg("", true, true, false));
    assert_eq!(dirs, vec![n("sub")]);
}

#[test]
fn test_getalldirs_include_flags() {
    let entries = vec![dir(".hidden"), dir("vendor"), dir("plain")];
    let both = getalldirs(&entries, &cfg("", true, true, false));
    assert_eq!(both, vec![n(".hidden"), n("vendor"), n("plain")]);
    let hidden_only = getalldirs(&entries, &cfg("", false, true, false));
    assert_eq!(hidden_only, vec![n(".hidden"), n("plain")]);
    let vendor_only = getalldirs(&entries, &cfg("", true, false, false));
    assert_eq!(vendor_only, vec![n("vendor"), n("plain")]);
}

#[test]
fn test_getalldirs_never_yields_hidden_or_vendor_by_default() {
    let entries = vec![dir(".a"), dir("vendor"), dir("b"), dir(".c"), file(".d")];
    let dirs = getalldirs(&entries, &cfg("", false, false, false));
    for name in &dirs {
        assert!(!name.starts_with(b"."));
        assert_ne!(name, &n("vendor"));
    }
    assert_eq!(dirs, vec![n("b")]);
}

#[test]
fn test_getalldirs_sorted_ascending() {
    let entries = vec![dir("pear"), dir("apple"), dir("mango"), dir("banana")];
    let sorted = getalldirs(&entries, &cfg("", false, false, true));
    assert_eq!(sorted, vec![n("apple"), n("banana"), n("mango"), n("pear")]);
    for w in sorted.windows(2) {
        assert!(w[0] < w[1]);
    }
}

#[test]
fn test_getalldirs_unsorted_keeps_read_order() {
    let entries = vec![dir("pear"), dir("apple"), dir("mango")];
    let unsorted = getalldirs(&entries, &cfg("", false, false, false));
    assert_eq!(unsorted, vec![n("pear"), n("apple"), n("mango")]);
    let mut sorted = getalldirs(&entries, &cfg("", false, false, true));
    sorted.sort();
    let mut reference = unsorted.clone();
    reference.sort();
    assert_eq!(sorted, reference);
}

#[test]
fn test_resolve_root_primary_wins() {
    let r = RootChoice::resolve(Some("/go".to_string()), Some("/projects".to_string()));
    let c = r.unwrap();
    assert_eq!(c.location, "/go");
    assert!(c.append_src);
}

#[test]
fn test_resolve_root_fallback() {
    let r = RootChoice::resolve(None, Some("/projects".to_string()));
    let c = r.unwrap();
    assert_eq!(c.location, "/projects");
    assert!(!c.append_src);
}

#[test]
fn test_resolve_root_neither() {
    let r = RootChoice::resolve(None, None);
    assert!(matches!(r, Err(ConfigError::NoLocation)));
}
