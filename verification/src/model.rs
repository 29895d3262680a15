//! An in-memory directory tree and the complete search over it.
//!
//! [`FsModel`] lists, per directory path, the raw entries a read of that
//! directory yields; every directory in the model is readable.  Running
//! the search against the model closes the loop that a real caller drives
//! through [`crate::engine::Search`], and [`finddir`]'s contract states
//! what the traversal finds: a visible directory bearing the target name,
//! at most one level deeper than the shallowest visible match, and
//! not-found exactly when no visible directory matches.

use crate::engine::enqueue;
use crate::engine::expand;
use crate::listing::getalldirs;
use crate::listing::kept_names;
use crate::listing::lemma_listing_ok_contains;
use crate::listing::listing_ok;
use crate::listing::DirEntry;
use crate::listing::FilterConfig;
use crate::paths::child_paths;
use crate::paths::clone_path;
use crate::paths::last_matches;
use crate::paths::path_eq;
use crate::paths::path_matches;
use vstd::prelude::*;

verus! {

/// One directory of the model: its path from the root, and the raw
/// entries a read of it yields.
pub struct FsDir {
    pub path: Vec<Vec<u8>>,
    pub entries: Vec<DirEntry>,
}

/// A directory tree as a finite table of directory listings.  A path
/// with no row reads as empty.
pub struct FsModel {
    pub dirs: Vec<FsDir>,
}

/// The raw entries of the directory at `p`: those of its first row, or
/// none when no row carries that path.
pub open spec fn entries_at_rec(dirs: Seq<FsDir>, p: Seq<Seq<u8>>) -> Seq<DirEntry>
    decreases dirs.len(),
{
    if dirs.len() == 0 {
        Seq::empty()
    } else if dirs.first().path.deep_view() == p {
        dirs.first().entries@
    } else {
        entries_at_rec(dirs.drop_first(), p)
    }
}

/// The raw entries that reading the directory at `p` yields.
pub open spec fn entries_at(fs: FsModel, p: Seq<Seq<u8>>) -> Seq<DirEntry> {
    entries_at_rec(fs.dirs@, p)
}

/// A path is visible when every step of it survives the filter: each
/// component names a kept directory entry of the directory above it.
/// The root (the empty path) is always visible.
pub open spec fn visible(fs: FsModel, cfg: FilterConfig, p: Seq<Seq<u8>>) -> bool
    decreases p.len(),
{
    if p.len() == 0 {
        true
    } else {
        visible(fs, cfg, p.drop_last()) && kept_names(entries_at(fs, p.drop_last()), cfg).contains(
            p.last(),
        )
    }
}

/// `p` is a proper ancestor of `m`.
pub open spec fn strict_prefix(p: Seq<Seq<u8>>, m: Seq<Seq<u8>>) -> bool {
    p.len() < m.len() && m.take(p.len() as int) == p
}

/// Every frontier entry is a visible, non-root path.
pub open spec fn inv_entries(fs: FsModel, cfg: FilterConfig, f: Seq<Seq<Seq<u8>>>) -> bool {
    forall|k: int|
        0 <= k < f.len() ==> visible(fs, cfg, #[trigger] f[k]) && f[k].len() >= 1
}

/// Every visible non-root path is in the frontier, or lies below an entry
/// not yet expanded (at or after `q`): nothing visible escapes the search.
pub open spec fn inv_coverage(fs: FsModel, cfg: FilterConfig, f: Seq<Seq<Seq<u8>>>, q: int) -> bool {
    forall|m: Seq<Seq<u8>>|
        #![trigger visible(fs, cfg, m)]
        visible(fs, cfg, m) && m.len() >= 1 ==> f.contains(m) || (exists|j: int|
            q <= j < f.len() && strict_prefix(#[trigger] f[j], m))
}

/// Frontier entries are ordered by depth: the queue never holds a deeper
/// path before a shallower one.
pub open spec fn inv_depths(f: Seq<Seq<Seq<u8>>>) -> bool {
    forall|j: int, k: int|
        #![trigger f[j], f[k]]
        0 <= j <= k < f.len() ==> f[j].len() <= f[k].len()
}

/// The deepest frontier entry is at most one level below the entry being
/// worked on.
pub open spec fn inv_last_depth(f: Seq<Seq<Seq<u8>>>, q: int) -> bool {
    q < f.len() ==> f.last().len() <= f[q].len() + 1
}

/// Every entry already dealt with was tested and did not match.
pub open spec fn inv_tested(cfg: FilterConfig, f: Seq<Seq<Seq<u8>>>, q: int) -> bool {
    forall|j: int| 0 <= j < q ==> !path_matches(cfg, #[trigger] f[j])
}

/// How many frontier entries at or after `q` sit at depth `d`.
pub open spec fn count_depth(f: Seq<Seq<Seq<u8>>>, q: int, d: int) -> nat
    decreases f.len() - q,
{
    if q < 0 || q >= f.len() {
        0
    } else if f[q].len() == d {
        1 + count_depth(f, q + 1, d)
    } else {
        count_depth(f, q + 1, d)
    }
}

/// Appending entries of another depth leaves the count unchanged.
proof fn lemma_count_depth_concat(f: Seq<Seq<Seq<u8>>>, c: Seq<Seq<Seq<u8>>>, q: int, d: int)
    requires
        0 <= q,
        forall|i: int| 0 <= i < c.len() ==> #[trigger] c[i].len() != d,
    ensures
        count_depth(f + c, q, d) == count_depth(f, q, d),
    decreases f.len() + c.len() - q,
{
    let fc = f + c;
    if q < fc.len() {
        if q < f.len() {
            assert(fc[q] == f[q]);
        } else {
            assert(fc[q] == c[q - f.len()]);
        }
        lemma_count_depth_concat(f, c, q + 1, d);
    }
}

/// A sequence of pairwise distinct integers drawn from `[0, m)` has at
/// most `m` elements.
proof fn lemma_distinct_bounded_len(s: Seq<int>, m: int)
    requires
        s.no_duplicates(),
        forall|i: int| 0 <= i < s.len() ==> 0 <= #[trigger] s[i] < m,
        0 <= m,
    ensures
        s.len() <= m,
    decreases m,
{
    if s.len() > 0 {
        if s.contains(m - 1) {
            let k = choose|k: int| 0 <= k < s.len() && s[k] == m - 1;
            let s2 = s.remove(k);
            assert forall|i: int, j: int| 0 <= i < j < s2.len() implies s2[i] != s2[j] by {
                assert(s2[i] == if i < k {
                    s[i]
                } else {
                    s[i + 1]
                });
                assert(s2[j] == if j < k {
                    s[j]
                } else {
                    s[j + 1]
                });
            }
            assert forall|i: int| 0 <= i < s2.len() implies 0 <= #[trigger] s2[i] < m - 1 by {
                let orig = if i < k {
                    i
                } else {
                    i + 1
                };
                assert(s2[i] == s[orig]);
                assert(s[orig] != s[k]);
            }
            lemma_distinct_bounded_len(s2, m - 1);
        } else {
            assert(0 <= s[0] < m);
            assert forall|i: int| 0 <= i < s.len() implies 0 <= #[trigger] s[i] < m - 1 by {
                if s[i] == m - 1 {
                    assert(s.contains(m - 1));
                }
            }
            lemma_distinct_bounded_len(s, m - 1);
        }
    }
}

/// A path whose read yields entries has a row in the table.
proof fn lemma_entries_at_row(dirs: Seq<FsDir>, x: Seq<Seq<u8>>)
    requires
        entries_at_rec(dirs, x).len() > 0,
    ensures
        exists|r: int| 0 <= r < dirs.len() && #[trigger] dirs[r].path.deep_view() == x,
    decreases dirs.len(),
{
    if dirs.len() > 0 {
        if dirs.first().path.deep_view() == x {
            assert(dirs[0].path.deep_view() == x);
        } else {
            lemma_entries_at_row(dirs.drop_first(), x);
            let r = choose|r: int|
                0 <= r < dirs.drop_first().len() && #[trigger] dirs.drop_first()[r].path.deep_view()
                    == x;
            assert(dirs[r + 1] == dirs.drop_first()[r]);
        }
    }
}

/// The row index of the directory at `x`.
spec fn row_of(dirs: Seq<FsDir>, x: Seq<Seq<u8>>) -> int {
    choose|r: int| 0 <= r < dirs.len() && #[trigger] dirs[r].path.deep_view() == x
}

/// No visible path is deeper than the table has rows: each of its
/// ancestors, the root included, owns a distinct row.
pub proof fn lemma_visible_depth_bound(fs: FsModel, cfg: FilterConfig, p: Seq<Seq<u8>>)
    requires
        visible(fs, cfg, p),
    ensures
        p.len() <= fs.dirs@.len(),
    decreases p.len(),
{
    let dirs = fs.dirs@;
    assert forall|i: int| 0 <= i < p.len() implies 0 <= #[trigger] row_of(dirs, p.take(i))
        < dirs.len() && dirs[row_of(dirs, p.take(i))].path.deep_view() == p.take(i) by {
        lemma_visible_take(fs, cfg, p, i + 1);
        let c = p.take(i + 1);
        assert(c.drop_last() =~= p.take(i));
        assert(kept_names(entries_at(fs, p.take(i)), cfg).contains(c.last()));
        if entries_at(fs, p.take(i)).len() == 0 {
            assert(entries_at(fs, p.take(i)) =~= Seq::<DirEntry>::empty());
            assert(kept_names(Seq::<DirEntry>::empty(), cfg) == Seq::<Seq<u8>>::empty());
        }
        lemma_entries_at_row(dirs, p.take(i));
    }
    let rows = Seq::new(p.len(), |i: int| row_of(dirs, p.take(i)));
    assert forall|i: int, j: int| 0 <= i < j < rows.len() implies rows[i] != rows[j] by {
        if rows[i] == rows[j] {
            assert(dirs[rows[i]].path.deep_view() == p.take(i));
            assert(dirs[rows[j]].path.deep_view() == p.take(j));
            assert(p.take(i).len() == p.take(j).len());
        }
    }
    assert(forall|i: int| 0 <= i < rows.len() ==> 0 <= #[trigger] rows[i] < dirs.len());
    lemma_distinct_bounded_len(rows, dirs.len() as int);
}

/// Every ancestor of a visible path is visible.
pub proof fn lemma_visible_take(fs: FsModel, cfg: FilterConfig, p: Seq<Seq<u8>>, n: int)
    requires
        visible(fs, cfg, p),
        0 <= n <= p.len(),
    ensures
        visible(fs, cfg, p.take(n)),
    decreases p.len() - n,
{
    if n == p.len() {
        assert(p.take(n) =~= p);
    } else {
        assert(p.drop_last() =~= p.take(p.len() - 1));
        lemma_visible_take(fs, cfg, p.drop_last(), n);
        assert(p.drop_last().take(n) =~= p.take(n));
    }
}

/// A kept child of a visible directory is visible.
proof fn lemma_child_visible(
    fs: FsModel,
    cfg: FilterConfig,
    dir: Seq<Seq<u8>>,
    ns: Seq<Seq<u8>>,
    idx: int,
)
    requires
        visible(fs, cfg, dir),
        listing_ok(ns, entries_at(fs, dir), cfg),
        0 <= idx < ns.len(),
    ensures
        visible(fs, cfg, dir.push(ns[idx])),
{
    let child = dir.push(ns[idx]);
    assert(child.drop_last() =~= dir);
    assert(child.last() == ns[idx]);
    assert(ns.contains(ns[idx]));
    lemma_listing_ok_contains(ns, entries_at(fs, dir), cfg, ns[idx]);
    assert(kept_names(entries_at(fs, child.drop_last()), cfg).contains(child.last()));
}

/// The frontier that the root's listing seeds satisfies the loop's
/// invariants.
proof fn establish_initial_invariants(
    fs: FsModel,
    cfg: FilterConfig,
    ns0: Seq<Seq<u8>>,
    f: Seq<Seq<Seq<u8>>>,
)
    requires
        listing_ok(ns0, entries_at(fs, Seq::<Seq<u8>>::empty()), cfg),
        f == child_paths(Seq::<Seq<u8>>::empty(), ns0),
    ensures
        inv_entries(fs, cfg, f),
        inv_coverage(fs, cfg, f, 0),
        inv_depths(f),
        inv_last_depth(f, 0),
        inv_tested(cfg, f, 0),
{
    let root = Seq::<Seq<u8>>::empty();
    assert(visible(fs, cfg, root));
    assert forall|k: int| 0 <= k < f.len() implies visible(fs, cfg, #[trigger] f[k]) && f[k].len()
        >= 1 by {
        assert(f[k] == root.push(ns0[k]));
        lemma_child_visible(fs, cfg, root, ns0, k);
    }
    assert forall|m: Seq<Seq<u8>>| visible(fs, cfg, m) && m.len() >= 1 implies f.contains(m) || (
    exists|j: int| 0 <= j < f.len() && strict_prefix(#[trigger] f[j], m)) by {
        let c = m.take(1);
        lemma_visible_take(fs, cfg, m, 1);
        assert(c.drop_last() =~= root);
        assert(kept_names(entries_at(fs, root), cfg).contains(c.last()));
        lemma_listing_ok_contains(ns0, entries_at(fs, root), cfg, c.last());
        let idx = choose|idx: int| 0 <= idx < ns0.len() && ns0[idx] == c.last();
        assert(f[idx] == root.push(ns0[idx]));
        assert(f[idx] =~= c);
        if m.len() == 1 {
            assert(m =~= c);
            assert(f.contains(m));
        } else {
            assert(strict_prefix(f[idx], m));
        }
    }
    assert forall|j: int, k: int|
        #![trigger f[j], f[k]]
        0 <= j <= k < f.len() implies f[j].len() <= f[k].len() by {
        assert(f[j] == root.push(ns0[j]));
        assert(f[k] == root.push(ns0[k]));
    }
    if 0 < f.len() {
        assert(f.last() == root.push(ns0[f.len() - 1]));
        assert(f[0] == root.push(ns0[0]));
    }
}

/// A match found when a frontier entry's turn comes is within one level
/// of the shallowest visible match.
proof fn conclude_found_at_dequeue(
    fs: FsModel,
    cfg: FilterConfig,
    f: Seq<Seq<Seq<u8>>>,
    q: int,
    p: Seq<Seq<u8>>,
)
    requires
        inv_entries(fs, cfg, f),
        inv_coverage(fs, cfg, f, q),
        inv_depths(f),
        inv_tested(cfg, f, q),
        0 <= q < f.len(),
        p == f[q],
        path_matches(cfg, p),
    ensures
        visible(fs, cfg, p),
        path_matches(cfg, p),
        forall|m: Seq<Seq<u8>>|
            visible(fs, cfg, m) && #[trigger] path_matches(cfg, m) ==> p.len() <= m.len() + 1,
{
    assert forall|m: Seq<Seq<u8>>|
        visible(fs, cfg, m) && #[trigger] path_matches(cfg, m) implies p.len() <= m.len() + 1 by {
        assert(m.len() >= 1);
        if f.contains(m) {
            let k = choose|k: int| 0 <= k < f.len() && f[k] == m;
            if k < q {
                assert(!path_matches(cfg, f[k]));
            } else {
                assert(f[q].len() <= f[k].len());
            }
        } else {
            let j = choose|j: int| q <= j < f.len() && strict_prefix(#[trigger] f[j], m);
            assert(f[q].len() <= f[j].len());
            assert(f[j].len() < m.len());
        }
    }
}

/// A match found among the children of the entry being expanded is within
/// one level of the shallowest visible match.
proof fn conclude_found_at_expansion(
    fs: FsModel,
    cfg: FilterConfig,
    f: Seq<Seq<Seq<u8>>>,
    q: int,
    ns: Seq<Seq<u8>>,
    j: int,
    p: Seq<Seq<u8>>,
)
    requires
        inv_entries(fs, cfg, f),
        inv_coverage(fs, cfg, f, q),
        inv_depths(f),
        inv_tested(cfg, f, q),
        0 <= q < f.len(),
        listing_ok(ns, entries_at(fs, f[q]), cfg),
        0 <= j < ns.len(),
        ns[j] == cfg.folder_name@,
        p == f[q].push(cfg.folder_name@),
    ensures
        visible(fs, cfg, p),
        path_matches(cfg, p),
        forall|m: Seq<Seq<u8>>|
            visible(fs, cfg, m) && #[trigger] path_matches(cfg, m) ==> p.len() <= m.len() + 1,
{
    lemma_child_visible(fs, cfg, f[q], ns, j);
    assert(p.len() == f[q].len() + 1);
    assert forall|m: Seq<Seq<u8>>|
        visible(fs, cfg, m) && #[trigger] path_matches(cfg, m) implies p.len() <= m.len() + 1 by {
        assert(m.len() >= 1);
        if f.contains(m) {
            let k = choose|k: int| 0 <= k < f.len() && f[k] == m;
            if k < q {
                assert(!path_matches(cfg, f[k]));
            } else {
                assert(f[q].len() <= f[k].len());
            }
        } else {
            let jj = choose|jj: int| q <= jj < f.len() && strict_prefix(#[trigger] f[jj], m);
            assert(f[q].len() <= f[jj].len());
            assert(f[jj].len() < m.len());
        }
    }
}

/// Expanding a non-matching frontier entry with its filtered children
/// preserves the loop's invariants.
proof fn maintain_invariants(
    fs: FsModel,
    cfg: FilterConfig,
    f: Seq<Seq<Seq<u8>>>,
    q: int,
    ns: Seq<Seq<u8>>,
    f2: Seq<Seq<Seq<u8>>>,
)
    requires
        inv_entries(fs, cfg, f),
        inv_coverage(fs, cfg, f, q),
        inv_depths(f),
        inv_last_depth(f, q),
        inv_tested(cfg, f, q),
        0 <= q < f.len(),
        listing_ok(ns, entries_at(fs, f[q]), cfg),
        !path_matches(cfg, f[q]),
        f2 == f + child_paths(f[q], ns),
    ensures
        inv_entries(fs, cfg, f2),
        inv_coverage(fs, cfg, f2, q + 1),
        inv_depths(f2),
        inv_last_depth(f2, q + 1),
        inv_tested(cfg, f2, q + 1),
        f2.last().len() <= f[q].len() + 1,
{
    let dir = f[q];
    let dl = dir.len() as int;
    let c = child_paths(dir, ns);
    assert(f2.len() == f.len() + ns.len());
    assert(forall|k: int| 0 <= k < f.len() ==> f2[k] == #[trigger] f[k]);
    assert(forall|i: int| 0 <= i < ns.len() ==> #[trigger] c[i] == dir.push(ns[i]));
    assert forall|k: int| 0 <= k < f2.len() implies visible(fs, cfg, #[trigger] f2[k]) && f2[k].len()
        >= 1 by {
        if k >= f.len() {
            assert(f2[k] == c[k - f.len()]);
            lemma_child_visible(fs, cfg, dir, ns, k - f.len());
        }
    }
    assert forall|m: Seq<Seq<u8>>| visible(fs, cfg, m) && m.len() >= 1 implies f2.contains(m) || (
    exists|j: int| q + 1 <= j < f2.len() && strict_prefix(#[trigger] f2[j], m)) by {
        if f.contains(m) {
            let k = choose|k: int| 0 <= k < f.len() && f[k] == m;
            assert(f2[k] == m);
            assert(f2.contains(m));
        } else {
            let j = choose|j: int| q <= j < f.len() && strict_prefix(#[trigger] f[j], m);
            if j > q {
                assert(strict_prefix(f2[j], m));
            } else {
                let cpath = m.take(dl + 1);
                lemma_visible_take(fs, cfg, m, dl + 1);
                assert(cpath.drop_last() =~= m.take(dl));
                assert(m.take(dl) == dir);
                assert(kept_names(entries_at(fs, dir), cfg).contains(cpath.last()));
                lemma_listing_ok_contains(ns, entries_at(fs, dir), cfg, cpath.last());
                let idx = choose|idx: int| 0 <= idx < ns.len() && ns[idx] == cpath.last();
                assert(f2[f.len() + idx] == dir.push(ns[idx]));
                assert forall|i: int| 0 <= i < dl + 1 implies dir.push(ns[idx])[i] == cpath[i] by {
                    if i < dl {
                        assert(cpath[i] == m[i]);
                        assert(dir[i] == m.take(dl)[i]);
                    } else {
                        assert(cpath[i] == cpath.last());
                    }
                }
                assert(dir.push(ns[idx]) =~= cpath);
                if m.len() == dl + 1 {
                    assert(m =~= cpath);
                    assert(f2.contains(m));
                } else {
                    assert(strict_prefix(f2[f.len() + idx], m));
                    assert(q + 1 <= f.len() + idx < f2.len());
                }
            }
        }
    }
    assert forall|j: int, k: int|
        #![trigger f2[j], f2[k]]
        0 <= j <= k < f2.len() implies f2[j].len() <= f2[k].len() by {
        if k < f.len() {
            assert(f[j].len() <= f[k].len());
        } else if j < f.len() {
            assert(f2[k] == c[k - f.len()]);
            assert(f[j].len() <= f[f.len() - 1].len());
            assert(f.last().len() <= dir.len() + 1);
        } else {
            assert(f2[j] == c[j - f.len()]);
            assert(f2[k] == c[k - f.len()]);
        }
    }
    if ns.len() > 0 {
        assert(f2.last() == c[ns.len() - 1]);
    } else {
        assert(f2 =~= f);
        assert(f2.last() == f.last());
        assert(f.last().len() <= f[q].len() + 1);
    }
    if q + 1 < f2.len() {
        if ns.len() > 0 {
            if q + 1 < f.len() {
                assert(f[q].len() <= f[q + 1].len());
                assert(f2[q + 1] == f[q + 1]);
            } else {
                assert(f2[q + 1] == c[0]);
            }
        } else {
            assert(f[q].len() <= f[q + 1].len());
        }
    }
    assert forall|j: int| 0 <= j < q + 1 implies !path_matches(cfg, #[trigger] f2[j]) by {
        assert(f2[j] == f[j]);
        if j < q {
            assert(!path_matches(cfg, f[j]));
        }
    }
}

/// Looks a path's row up in the model.
pub fn lookup_entries<'a>(fs: &'a FsModel, p: &Vec<Vec<u8>>) -> (r: Option<&'a Vec<DirEntry>>)
    ensures
        match r {
            Some(es) => es@ == entries_at(*fs, p.deep_view()),
            None => entries_at(*fs, p.deep_view()) == Seq::<DirEntry>::empty(),
        },
{
    let mut k: usize = 0;
    proof {
        assert(fs.dirs@.skip(0) =~= fs.dirs@);
    }
    while k < fs.dirs.len()
        invariant
            k <= fs.dirs@.len(),
            entries_at_rec(fs.dirs@.skip(k as int), p.deep_view()) == entries_at(
                *fs,
                p.deep_view(),
            ),
        decreases fs.dirs@.len() - k,
    {
        let row = &fs.dirs[k];
        proof {
            assert(*row == fs.dirs@[k as int]);
            assert(fs.dirs@.skip(k as int).len() == fs.dirs@.len() - k);
            assert(fs.dirs@.skip(k as int).first() == fs.dirs@[k as int]);
            assert(fs.dirs@.skip(k as int).drop_first() =~= fs.dirs@.skip(k + 1));
        }
        if path_eq(&row.path, p) {
            proof {
                let sk = fs.dirs@.skip(k as int);
                assert(sk.first().path.deep_view() == p.deep_view());
                assert(entries_at_rec(sk, p.deep_view()) == sk.first().entries@);
            }
            return Some(&row.entries);
        }
        proof {
            assert(fs.dirs@.skip(k as int).first().path.deep_view() != p.deep_view());
            assert(entries_at_rec(fs.dirs@.skip(k as int), p.deep_view()) == entries_at_rec(
                fs.dirs@.skip(k + 1),
                p.deep_view(),
            ));
        }
        k = k + 1;
    }
    None
}

/// The filtered listing of the directory at `p`, as [`getalldirs`] builds
/// it from the model's raw entries.
fn listing_of(fs: &FsModel, p: &Vec<Vec<u8>>, cfg: &FilterConfig) -> (names: Vec<Vec<u8>>)
    ensures
        listing_ok(names.deep_view(), entries_at(*fs, p.deep_view()), *cfg),
{
    match lookup_entries(fs, p) {
        Some(es) => getalldirs(es, cfg),
        None => {
            let names: Vec<Vec<u8>> = Vec::new();
            proof {
                assert(names.deep_view() =~= Seq::<Seq<u8>>::empty());
                assert(kept_names(Seq::<DirEntry>::empty(), *cfg) == Seq::<Seq<u8>>::empty());
                if cfg.sort_alphabetically {
                    assert(names.deep_view().to_multiset() =~= kept_names(
                        Seq::<DirEntry>::empty(),
                        *cfg,
                    ).to_multiset());
                }
            }
            names
        },
    }
}

/// The breadth-first search, run to completion over the model.
///
/// The result is `Some` exactly when some visible directory bears the
/// target name; the found directory is itself such a match, and no
/// visible match is more than one level shallower than it.  Matches are
/// discovered in frontier order: each frontier entry is tested when its
/// turn comes, and its children are tested as they are appended, so a
/// match found while expanding an early entry is returned even though a
/// shallower untested entry may still sit later in the frontier.
pub fn finddir(fs: &FsModel, cfg: &FilterConfig) -> (r: Option<Vec<Vec<u8>>>)
    ensures
        match r {
            Some(p) => {
                &&& visible(*fs, *cfg, p.deep_view())
                &&& path_matches(*cfg, p.deep_view())
                &&& forall|m: Seq<Seq<u8>>|
                    visible(*fs, *cfg, m) && #[trigger] path_matches(*cfg, m)
                        ==> p.deep_view().len() <= m.len() + 1
            },
            None => forall|m: Seq<Seq<u8>>|
                #[trigger] visible(*fs, *cfg, m) ==> !path_matches(*cfg, m),
        },
{
    let root_path: Vec<Vec<u8>> = Vec::new();
    proof {
        assert(root_path.deep_view() =~= Seq::<Seq<u8>>::empty());
    }
    let names0 = listing_of(fs, &root_path, cfg);
    let mut frontier: Vec<Vec<Vec<u8>>> = Vec::new();
    proof {
        assert(frontier.deep_view() =~= Seq::<Seq<Seq<u8>>>::empty());
    }
    enqueue(&mut frontier, &root_path, &names0);
    let ghost ns0 = names0.deep_view();
    let mut pos: usize = 0;
    proof {
        assert(frontier.deep_view() =~= child_paths(Seq::<Seq<u8>>::empty(), ns0));
        establish_initial_invariants(*fs, *cfg, ns0, frontier.deep_view());
    }
    while pos < frontier.len()
        invariant
            pos <= frontier.deep_view().len(),
            inv_entries(*fs, *cfg, frontier.deep_view()),
            inv_coverage(*fs, *cfg, frontier.deep_view(), pos as int),
            inv_depths(frontier.deep_view()),
            inv_last_depth(frontier.deep_view(), pos as int),
            inv_tested(*cfg, frontier.deep_view(), pos as int),
        decreases (if pos < frontier.deep_view().len() {
            fs.dirs@.len() + 2 - frontier.deep_view()[pos as int].len()
        } else {
            0
        }), (if pos < frontier.deep_view().len() {
            count_depth(
                frontier.deep_view(),
                pos as int,
                frontier.deep_view()[pos as int].len() as int,
            )
        } else {
            0
        }),
    {
        let ghost fv = frontier.deep_view();
        let ghost q = pos as int;
        proof {
            assert(fv[q] == frontier@[q].deep_view());
        }
        let hit = last_matches(&frontier[pos], &cfg.folder_name);
        if hit {
            let found = clone_path(&frontier[pos]);
            proof {
                assert(found.deep_view() == fv[q]);
                conclude_found_at_dequeue(*fs, *cfg, fv, q, found.deep_view());
            }
            return Some(found);
        }
        let names = listing_of(fs, &frontier[pos], cfg);
        let ghost ns = names.deep_view();
        let dirp = clone_path(&frontier[pos]);
        let (found, jg) = expand(&mut frontier, &dirp, &names, &cfg.folder_name);
        match found {
            Some(p) => {
                proof {
                    conclude_found_at_expansion(*fs, *cfg, fv, q, ns, jg@, p.deep_view());
                }
                return Some(p);
            },
            None => {
                proof {
                    assert(!path_matches(*cfg, fv[q]));
                    maintain_invariants(*fs, *cfg, fv, q, ns, frontier.deep_view());
                    let f2 = frontier.deep_view();
                    let d = fv[q].len() as int;
                    lemma_visible_depth_bound(*fs, *cfg, fv[q]);
                    if q + 1 < f2.len() {
                        assert(f2[q] == fv[q]);
                        assert(f2[q].len() <= f2[q + 1].len());
                        assert(f2[q + 1].len() <= f2.last().len());
                        if f2[q + 1].len() == d {
                            assert(count_depth(fv, q, d) == 1 + count_depth(fv, q + 1, d));
                            lemma_count_depth_concat(fv, child_paths(fv[q], ns), q + 1, d);
                        }
                    }
                }
                pos = pos + 1;
            },
        }
    }
    proof {
        let fv = frontier.deep_view();
        assert forall|m: Seq<Seq<u8>>| #[trigger] visible(*fs, *cfg, m) implies !path_matches(
            *cfg,
            m,
        ) by {
            if path_matches(*cfg, m) {
                assert(m.len() >= 1);
                if fv.contains(m) {
                    let k = choose|k: int| 0 <= k < fv.len() && fv[k] == m;
                    assert(!path_matches(*cfg, fv[k]));
                }
            }
        }
    }
    None
}

/// When no visible match sits exactly one level below the shallowest
/// ones, the search's result — constrained by [`finddir`]'s contract to be
/// a visible match at most one level deeper than any other — has exactly
/// the shallowest depth.  With such a next-level tie present, the deeper
/// directory can be returned instead: it is tested, while expanding an
/// earlier frontier entry, before the shallower one's turn comes.
pub proof fn lemma_shallowest_returned(fs: FsModel, cfg: FilterConfig, p: Seq<Seq<u8>>, d: int)
    requires
        path_matches(cfg, p),
        visible(fs, cfg, p),
        forall|m: Seq<Seq<u8>>|
            visible(fs, cfg, m) && #[trigger] path_matches(cfg, m) ==> p.len() <= m.len() + 1,
        exists|m: Seq<Seq<u8>>|
            visible(fs, cfg, m) && #[trigger] path_matches(cfg, m) && m.len() == d,
        forall|m: Seq<Seq<u8>>|
            visible(fs, cfg, m) && #[trigger] path_matches(cfg, m) ==> m.len() >= d,
        forall|m: Seq<Seq<u8>>|
            visible(fs, cfg, m) && #[trigger] path_matches(cfg, m) ==> m.len() != d + 1,
    ensures
        p.len() == d,
{
    let m = choose|m: Seq<Seq<u8>>|
        visible(fs, cfg, m) && #[trigger] path_matches(cfg, m) && m.len() == d;
    assert(p.len() <= m.len() + 1);
    assert(p.len() >= d);
    assert(p.len() != d + 1);
}

} // verus!
