use find_project::engine::Outcome;
use find_project::engine::Search;
use find_project::listing::DirEntry;
use find_project::listing::FilterConfig;
use find_project::model::finddir;
use find_project::model::FsDir;
use find_project::model::FsModel;

fn n(s: &str) -> Vec<u8> {
    s.as_bytes().to_vec()
}

fn dir(s: &str) -> DirEntry {
    DirEntry { name: n(s), is_dir: true }
}

fn cfg(target: &str, vendor: bool, hidden: bool, sort: bool) -> FilterConfig {
    FilterConfig {
        folder_name: n(target),
        include_vendor: vendor,
        include_hidden: hidden,
        sort_alphabetically: sort,
    }
}

fn row(path: &[&str], entries: Vec<DirEntry>) -> FsDir {
    FsDir { path: path.iter().map(|c| n(c)).collect(), entries }
}

fn path(components: &[&str]) -> Vec<Vec<u8>> {
    components.iter().map(|c| n(c)).collect()
}

#[test]
fn test_finddir() {
    let fs = FsModel {
        dirs: vec![
            row(&[], vec![dir("dir1"), dir("dir2"), dir(".hidden")]),
            row(&["dir1"], vec![dir("target")]),
            row(&["dir2"], vec![dir("vendor")]),
            row(&["dir2", "vendor"], vec![dir("target")]),
        ],
    };
    let found = finddir(&fs, &cfg("target", false, false, false));
    assert!(found.is_some());
    assert_eq!(found.unwrap(), path(&["dir1", "target"]));
}

#[test]
fn test_finddir_not_found() {
    let fs = FsModel {
        dirs: vec![
            row(&[], vec![dir("dir1"), dir("dir2"), dir(".hidden")]),
            row(&["dir1"], vec![dir("subdir1")]),
            row(&["dir2"], vec![dir("vendor")]),
        ],
    };
    let found = finddir(&fs, &cfg("target", false, false, false));
    assert!(found.is_none());
}

#[test]
fn test_finddir_inside_vendor() {
    let fs = FsModel {
        dirs: vec![
            row(&[], vec![dir("dir1"), dir("dir2"), dir(".hidden")]),
            row(&["dir1"], vec![dir("extra")]),
            row(&["dir2"], vec![dir("vendor")]),
            row(&["dir2", "vendor"], vec![dir("target")]),
        ],
    };
    let found = finddir(&fs, &cfg("target", true, false, false));
    assert!(found.is_some());
    assert_eq!(found.unwrap(), path(&["dir2", "vendor", "target"]));
}

#[test]
fn test_find_inside_vendor_disabled() {
    let fs = FsModel {
        dirs: vec![
            row(&[], vec![dir("dir1"), dir("dir2"), dir(".hidden")]),
            row(&["dir1"], vec![dir("extra")]),
            row(&["dir2"], vec![dir("vendor")]),
            row(&["dir2", "vendor"], vec![dir("target")]),
        ],
    };
    let found = finddir(&fs, &cfg("target", false, false, false));
    assert!(found.is_none());
}

#[test]
fn test_find_inside_hidden() {
    let fs = FsModel {
        dirs: vec![
            row(&[], vec![dir("dir1"), dir("dir2"), dir(".hidden")]),
            row(&["dir1"], vec![dir("extra")]),
            row(&["dir2"], vec![dir("vendor")]),
            row(&["dir2", "vendor"], vec![dir("target")]),
            row(&[".hidden"], vec![dir("target")]),
        ],
    };
    let found = finddir(&fs, &cfg("target", false, true, false));
    assert!(found.is_some());
    assert_eq!(found.unwrap(), path(&[".hidden", "target"]));
}

#[test]
fn test_find_inside_hidden_disabled() {
    let fs = FsModel {
        dirs: vec![
            row(&[], vec![dir("dir1"), dir("dir2"), dir(".hidden")]),
            row(&["dir1"], vec![dir("extra")]),
            row(&["dir2"], vec![dir("vendor")]),
            row(&["dir2", "vendor"], vec![dir("target")]),
            row(&[".hidden"], vec![dir("target")]),
        ],
    };
    let found = finddir(&fs, &cfg("target", false, false, false));
    assert!(found.is_none());
}

#[test]
fn test_shallow_match_wins_over_filtered_deep_branch() {
    let fs = FsModel {
        dirs: vec![
            row(&[], vec![dir("alpha"), dir("target")]),
            row(&["alpha"], vec![dir("vendor")]),
            row(&["alpha", "vendor"], vec![dir("mid")]),
            row(&["alpha", "vendor", "mid"], vec![dir("target")]),
        ],
    };
    let found = finddir(&fs, &cfg("target", false, false, false));
    assert_eq!(found.unwrap(), path(&["target"]));
}

#[test]
fn test_expansion_match_precedes_later_sibling() {
    let fs = FsModel {
        dirs: vec![
            row(&[], vec![dir("alpha"), dir("target")]),
            row(&["alpha"], vec![dir("target")]),
        ],
    };
    let found = finddir(&fs, &cfg("target", false, false, false));
    assert_eq!(found.unwrap(), path(&["alpha", "target"]));
}

#[test]
fn test_alphabetical_order_decides_tie() {
    let fs = FsModel {
        dirs: vec![
            row(&[], vec![dir("beta"), dir("alph")]),
            row(&["beta"], vec![dir("target")]),
            row(&["alph"], vec![dir("target")]),
        ],
    };
    let sorted = finddir(&fs, &cfg("target", false, false, true));
    assert_eq!(sorted.unwrap(), path(&["alph", "target"]));
    let unsorted = finddir(&fs, &cfg("target", false, false, false));
    assert_eq!(unsorted.unwrap(), path(&["beta", "target"]));
}

#[test]
fn test_finddir_empty_root() {
    let fs = FsModel { dirs: vec![row(&[], vec![])] };
    assert!(finddir(&fs, &cfg("target", false, false, false)).is_none());
}

#[test]
fn test_engine_finds_match_step_by_step() {
    let cfg = cfg("target", false, false, false);
    let root = vec![dir("dir1"), dir("dir2")];
    let mut s = Search::new(cfg, &root);
    assert!(s.done.is_none());
    assert_eq!(s.current(), &path(&["dir1"]));
    let dir1_entries = vec![dir("sub")];
    s.step_entries(&dir1_entries);
    assert!(s.done.is_none());
    assert_eq!(s.current(), &path(&["dir2"]));
    let dir2_entries = vec![dir("other"), dir("target")];
    s.step_entries(&dir2_entries);
    match s.done {
        Some(Outcome::Found(p)) => assert_eq!(p, path(&["dir2", "target"])),
        _ => panic!("expected a match"),
    }
}

#[test]
fn test_engine_exhausts_frontier() {
    let cfg = cfg("target", false, false, false);
    let root = vec![dir("dir1")];
    let mut s = Search::new(cfg, &root);
    assert!(s.done.is_none());
    s.step_entries(&vec![]);
    assert!(matches!(s.done, Some(Outcome::NotFound)));
}

#[test]
fn test_engine_read_failure_aborts_with_sibling_match_pending() {
    let cfg = cfg("target", false, false, false);
    let root = vec![dir("broken"), dir("good")];
    let mut s = Search::new(cfg, &root);
    assert_eq!(s.current(), &path(&["broken"]));
    s.step_failed();
    match s.done {
        Some(Outcome::ReadFailed(p)) => assert_eq!(p, path(&["broken"])),
        _ => panic!("expected the search to abort"),
    }
}

#[test]
fn test_engine_matches_root_entry_immediately() {
    let cfg = cfg("target", false, false, false);
    let root = vec![dir("target"), dir("other")];
    let s = Search::new(cfg, &root);
    match s.done {
        Some(Outcome::Found(p)) => assert_eq!(p, path(&["target"])),
        _ => panic!("expected a match without any read"),
    }
}

#[test]
fn test_hidden_only_root() {
    let fs = FsModel {
        dirs: vec![row(&[], vec![dir(".hidden")]), row(&[".hidden"], vec![dir("target")])],
    };
    assert!(finddir(&fs, &cfg("target", false, false, false)).is_none());
    let found = finddir(&fs, &cfg("target", false, true, false));
    assert_eq!(found.unwrap(), path(&[".hidden", "target"]));
}
