//! Filtered directory listings: which entries of a directory survive the
//! hidden/`vendor` exclusions, and in what order they are handed on.
//!
//! Directory names are byte strings, as the operating system reports them.

use vstd::prelude::*;

verus! {

/// One entry of a raw directory read: its name and whether it is itself a
/// directory.
pub struct DirEntry {
    pub name: Vec<u8>,
    pub is_dir: bool,
}

/// The switches of one search: which entries to keep, whether each listing
/// is sorted, and the exact directory name being looked for.
pub struct FilterConfig {
    pub folder_name: Vec<u8>,
    pub include_vendor: bool,
    pub include_hidden: bool,
    pub sort_alphabetically: bool,
}

/// ASCII `.`
pub const DOT: u8 = 46;

/// ASCII `v`
pub const LOWER_V: u8 = 118;

/// ASCII `e`
pub const LOWER_E: u8 = 101;

/// ASCII `n`
pub const LOWER_N: u8 = 110;

/// ASCII `d`
pub const LOWER_D: u8 = 100;

/// ASCII `o`
pub const LOWER_O: u8 = 111;

/// ASCII `r`
pub const LOWER_R: u8 = 114;

/// The reserved name whose entries are skipped unless `include_vendor` is
/// set: the bytes of `vendor`.
pub open spec fn vendor_name() -> Seq<u8> {
    seq![LOWER_V, LOWER_E, LOWER_N, LOWER_D, LOWER_O, LOWER_R]
}

/// A name is hidden when it starts with a dot.
pub open spec fn is_hidden_name(name: Seq<u8>) -> bool {
    name.len() > 0 && name[0] == DOT
}

/// Whether an entry name survives the hidden/`vendor` exclusions.
pub open spec fn name_kept(cfg: FilterConfig, name: Seq<u8>) -> bool {
    &&& cfg.include_hidden || !is_hidden_name(name)
    &&& cfg.include_vendor || name != vendor_name()
}

/// Whether a raw directory entry survives filtering: it must be a directory
/// and its name must be kept.
pub open spec fn entry_kept(cfg: FilterConfig, e: DirEntry) -> bool {
    e.is_dir && name_kept(cfg, e.name@)
}

/// The names of the entries that survive filtering, in the order the raw
/// entries came in.
pub open spec fn kept_names(entries: Seq<DirEntry>, cfg: FilterConfig) -> Seq<Seq<u8>>
    decreases entries.len(),
{
    if entries.len() == 0 {
        Seq::empty()
    } else if entry_kept(cfg, entries.last()) {
        kept_names(entries.drop_last(), cfg).push(entries.last().name@)
    } else {
        kept_names(entries.drop_last(), cfg)
    }
}

/// A name is among the kept names exactly when some surviving entry bears it.
pub proof fn lemma_kept_names_contains(entries: Seq<DirEntry>, cfg: FilterConfig, n: Seq<u8>)
    ensures
        kept_names(entries, cfg).contains(n) <==> exists|i: int|
            0 <= i < entries.len() && #[trigger] entry_kept(cfg, entries[i]) && entries[i].name@
                == n,
    decreases entries.len(),
{
    if entries.len() > 0 {
        lemma_kept_names_contains(entries.drop_last(), cfg, n);
        let prefix = entries.drop_last();
        assert(forall|i: int| 0 <= i < prefix.len() ==> prefix[i] == entries[i]);
        if kept_names(entries, cfg).contains(n) {
            let k = choose|k: int|
                0 <= k < kept_names(entries, cfg).len() && kept_names(entries, cfg)[k] == n;
            if k < kept_names(prefix, cfg).len() {
                assert(kept_names(prefix, cfg).contains(n));
            } else {
                assert(entry_kept(cfg, entries.last()) && entries.last().name@ == n);
                assert(entries[entries.len() - 1] == entries.last());
            }
        }
        if exists|i: int|
            0 <= i < entries.len() && #[trigger] entry_kept(cfg, entries[i]) && entries[i].name@
                == n {
            let i = choose|i: int|
                0 <= i < entries.len() && #[trigger] entry_kept(cfg, entries[i]) && entries[i].name@
                    == n;
            if i < entries.len() - 1 {
                assert(entry_kept(cfg, prefix[i]) && prefix[i].name@ == n);
                assert(kept_names(prefix, cfg).contains(n));
                let k = choose|k: int|
                    0 <= k < kept_names(prefix, cfg).len() && kept_names(prefix, cfg)[k] == n;
                assert(kept_names(entries, cfg)[k] == n);
            } else {
                assert(kept_names(entries, cfg).last() == n);
            }
        }
    }
}

/// Every kept name survives the exclusions.
pub proof fn lemma_kept_names_kept(entries: Seq<DirEntry>, cfg: FilterConfig)
    ensures
        forall|k: int| 0 <= k < kept_names(entries, cfg).len() ==> name_kept(
            cfg,
            #[trigger] kept_names(entries, cfg)[k],
        ),
    decreases entries.len(),
{
    if entries.len() > 0 {
        lemma_kept_names_kept(entries.drop_last(), cfg);
        let pre = kept_names(entries.drop_last(), cfg);
        assert forall|k: int| 0 <= k < kept_names(entries, cfg).len() implies name_kept(
            cfg,
            #[trigger] kept_names(entries, cfg)[k],
        ) by {
            if entry_kept(cfg, entries.last()) {
                if k < pre.len() {
                    assert(kept_names(entries, cfg)[k] == pre[k]);
                } else {
                    assert(kept_names(entries, cfg)[k] == entries.last().name@);
                }
            } else {
                assert(kept_names(entries, cfg)[k] == pre[k]);
            }
        }
    }
}

/// With `include_hidden` off no kept name starts with a dot; with it on,
/// every hidden directory entry that the `vendor` rule admits is kept.
pub proof fn lemma_hidden_filtering(entries: Seq<DirEntry>, cfg: FilterConfig)
    ensures
        !cfg.include_hidden ==> forall|k: int|
            0 <= k < kept_names(entries, cfg).len() ==> !is_hidden_name(
                #[trigger] kept_names(entries, cfg)[k],
            ),
        cfg.include_hidden ==> forall|i: int|
            0 <= i < entries.len() && (#[trigger] entries[i]).is_dir && (cfg.include_vendor
                || entries[i].name@ != vendor_name()) ==> kept_names(entries, cfg).contains(
                entries[i].name@,
            ),
{
    lemma_kept_names_kept(entries, cfg);
    if cfg.include_hidden {
        assert forall|i: int|
            0 <= i < entries.len() && (#[trigger] entries[i]).is_dir && (cfg.include_vendor
                || entries[i].name@ != vendor_name()) implies kept_names(entries, cfg).contains(
            entries[i].name@,
        ) by {
            assert(entry_kept(cfg, entries[i]));
            lemma_kept_names_contains(entries, cfg, entries[i].name@);
        }
    }
}

/// With `include_vendor` off no kept name is `vendor`; with it on, every
/// directory entry named `vendor` is kept — `vendor` is never hidden, so
/// the dot rule cannot exclude it.
pub proof fn lemma_vendor_filtering(entries: Seq<DirEntry>, cfg: FilterConfig)
    ensures
        !cfg.include_vendor ==> forall|k: int|
            0 <= k < kept_names(entries, cfg).len() ==> #[trigger] kept_names(entries, cfg)[k]
                != vendor_name(),
        cfg.include_vendor ==> forall|i: int|
            0 <= i < entries.len() && (#[trigger] entries[i]).is_dir && entries[i].name@
                == vendor_name() ==> kept_names(entries, cfg).contains(entries[i].name@),
{
    lemma_kept_names_kept(entries, cfg);
    assert(!is_hidden_name(vendor_name()));
    if cfg.include_vendor {
        assert forall|i: int|
            0 <= i < entries.len() && (#[trigger] entries[i]).is_dir && entries[i].name@
                == vendor_name() implies kept_names(entries, cfg).contains(entries[i].name@) by {
            assert(entry_kept(cfg, entries[i]));
            lemma_kept_names_contains(entries, cfg, entries[i].name@);
        }
    }
}

/// A byte vector's deep view is its view.
pub broadcast proof fn lemma_bytes_deep_view(v: Vec<u8>)
    ensures
        #[trigger] v.deep_view() == v@,
{
    assert(v.deep_view() =~= v@);
}

/// Strict lexicographic order on byte strings: shorter prefixes come first,
/// otherwise the first differing byte decides.
pub open spec fn lex_lt(a: Seq<u8>, b: Seq<u8>) -> bool
    decreases a.len(),
{
    if b.len() == 0 {
        false
    } else if a.len() == 0 {
        true
    } else if a.first() < b.first() {
        true
    } else if a.first() > b.first() {
        false
    } else {
        lex_lt(a.drop_first(), b.drop_first())
    }
}

/// Reflexive closure of [`lex_lt`].
pub open spec fn lex_le(a: Seq<u8>, b: Seq<u8>) -> bool {
    lex_lt(a, b) || a == b
}

/// Lexicographic order is transitive.
pub proof fn lemma_lex_lt_trans(a: Seq<u8>, b: Seq<u8>, c: Seq<u8>)
    requires
        lex_lt(a, b),
        lex_lt(b, c),
    ensures
        lex_lt(a, c),
    decreases a.len(),
{
    if a.len() > 0 {
        if a.first() == b.first() && b.first() == c.first() {
            lemma_lex_lt_trans(a.drop_first(), b.drop_first(), c.drop_first());
        }
    }
}

/// Any two distinct byte strings are lexicographically ordered one way.
pub proof fn lemma_lex_connected(a: Seq<u8>, b: Seq<u8>)
    ensures
        a == b || lex_lt(a, b) || lex_lt(b, a),
    decreases a.len(),
{
    if a.len() > 0 && b.len() > 0 && a.first() == b.first() {
        lemma_lex_connected(a.drop_first(), b.drop_first());
        if a.drop_first() == b.drop_first() {
            assert(a.drop_first().len() == a.len() - 1);
            assert(b.drop_first().len() == b.len() - 1);
            assert(a.len() == b.len());
            assert forall|i: int| 0 <= i < a.len() implies a[i] == b[i] by {
                if i > 0 {
                    assert(a[i] == a.drop_first()[i - 1]);
                    assert(b[i] == b.drop_first()[i - 1]);
                }
            }
            assert(a =~= b);
        }
    }
}

/// Reflexive lexicographic order is transitive.
pub proof fn lemma_lex_le_trans(a: Seq<u8>, b: Seq<u8>, c: Seq<u8>)
    requires
        lex_le(a, b),
        lex_le(b, c),
    ensures
        lex_le(a, c),
{
    if lex_lt(a, b) && lex_lt(b, c) {
        lemma_lex_lt_trans(a, b, c);
    }
}

/// Compares two byte strings lexicographically.
pub fn bytes_lt(a: &Vec<u8>, b: &Vec<u8>) -> (r: bool)
    ensures
        r == lex_lt(a@, b@),
{
    let mut i: usize = 0;
    proof {
        assert(a@.skip(0) =~= a@);
        assert(b@.skip(0) =~= b@);
    }
    loop
        invariant
            i <= a.len(),
            i <= b.len(),
            lex_lt(a@, b@) == lex_lt(a@.skip(i as int), b@.skip(i as int)),
        decreases a.len() - i,
    {
        let ghost ai = i as int;
        if i == b.len() {
            assert(b@.skip(ai).len() == 0);
            return false;
        }
        if i == a.len() {
            assert(a@.skip(ai).len() == 0 && b@.skip(ai).len() > 0);
            return true;
        }
        assert(a@.skip(ai).first() == a@[ai] && b@.skip(ai).first() == b@[ai]);
        if a[i] < b[i] {
            return true;
        }
        if a[i] > b[i] {
            return false;
        }
        proof {
            assert(a@.skip(ai).drop_first() =~= a@.skip(ai + 1));
            assert(b@.skip(ai).drop_first() =~= b@.skip(ai + 1));
        }
        i = i + 1;
    }
}

/// Tests two byte strings for equality.
pub fn bytes_eq(a: &Vec<u8>, b: &Vec<u8>) -> (r: bool)
    ensures
        r == (a@ == b@),
{
    if a.len() != b.len() {
        return false;
    }
    let mut i: usize = 0;
    while i < a.len()
        invariant
            i <= a.len(),
            a.len() == b.len(),
            forall|k: int| 0 <= k < i ==> a@[k] == b@[k],
        decreases a.len() - i,
    {
        if a[i] != b[i] {
            return false;
        }
        i = i + 1;
    }
    proof {
        assert(a@ =~= b@);
    }
    true
}

/// Copies a byte string.
pub fn clone_name(name: &Vec<u8>) -> (r: Vec<u8>)
    ensures
        r@ == name@,
{
    let mut r: Vec<u8> = Vec::new();
    let mut i: usize = 0;
    while i < name.len()
        invariant
            i <= name.len(),
            r@ == name@.take(i as int),
        decreases name.len() - i,
    {
        r.push(name[i]);
        proof {
            assert(name@.take(i + 1) =~= name@.take(i as int).push(name@[i as int]));
        }
        i = i + 1;
    }
    proof {
        assert(name@.take(name.len() as int) =~= name@);
    }
    r
}

/// Each listed name comes no later than any lexicographically larger one.
pub open spec fn sorted_names(s: Seq<Seq<u8>>) -> bool {
    forall|j: int, k: int| 0 <= j < k < s.len() ==> lex_le(#[trigger] s[j], #[trigger] s[k])
}

/// What [`getalldirs`] promises of its result: with `sort_alphabetically`
/// the kept names in ascending lexicographic order, otherwise exactly the
/// kept names in the order the entries came in.
pub open spec fn listing_ok(r: Seq<Seq<u8>>, entries: Seq<DirEntry>, cfg: FilterConfig) -> bool {
    if cfg.sort_alphabetically {
        sorted_names(r) && r.to_multiset() == kept_names(entries, cfg).to_multiset()
    } else {
        r == kept_names(entries, cfg)
    }
}

/// A listing holds a name exactly when the kept names do: sorting changes
/// only the order.
pub proof fn lemma_listing_ok_contains(
    r: Seq<Seq<u8>>,
    entries: Seq<DirEntry>,
    cfg: FilterConfig,
    n: Seq<u8>,
)
    requires
        listing_ok(r, entries, cfg),
    ensures
        r.contains(n) <==> kept_names(entries, cfg).contains(n),
{
    broadcast use vstd::seq_lib::group_to_multiset_ensures;

    if cfg.sort_alphabetically {
        vstd::seq_lib::to_multiset_contains(r, n);
        vstd::seq_lib::to_multiset_contains(kept_names(entries, cfg), n);
    }
}

/// When the kept names are pairwise distinct — as the entries of one real
/// directory always are — a sorted listing is in strictly ascending order.
pub proof fn lemma_sorted_listing_strict(r: Seq<Seq<u8>>, entries: Seq<DirEntry>, cfg: FilterConfig)
    requires
        cfg.sort_alphabetically,
        listing_ok(r, entries, cfg),
        kept_names(entries, cfg).no_duplicates(),
    ensures
        forall|j: int, k: int| 0 <= j < k < r.len() ==> lex_lt(#[trigger] r[j], #[trigger] r[k]),
{
    broadcast use vstd::seq_lib::group_to_multiset_ensures;

    kept_names(entries, cfg).lemma_multiset_has_no_duplicates();
    r.lemma_multiset_has_no_duplicates_conv();
    assert forall|j: int, k: int| 0 <= j < k < r.len() implies lex_lt(
        #[trigger] r[j],
        #[trigger] r[k],
    ) by {
        assert(r[j] != r[k]);
    }
}

/// Inserts a byte string into a sorted vector, keeping it sorted.
fn insert_sorted(out: &mut Vec<Vec<u8>>, x: Vec<u8>)
    requires
        sorted_names(old(out).deep_view()),
    ensures
        sorted_names(final(out).deep_view()),
        final(out).deep_view().to_multiset() == old(out).deep_view().to_multiset().insert(x@),
{
    broadcast use vstd::seq_lib::group_to_multiset_ensures, lemma_bytes_deep_view;

    let ghost pre = out.deep_view();
    let mut p: usize = 0;
    let mut place_found = false;
    while !place_found && p < out.len()
        invariant
            p <= out.len(),
            out.deep_view() == pre,
            forall|k: int| 0 <= k < p ==> lex_lt(#[trigger] pre[k], x@),
            place_found ==> p < out.len() && lex_le(x@, pre[p as int]),
        decreases out.len() - p + (if place_found { 0int } else { 1int }),
    {
        assert(pre[p as int] == out@[p as int].deep_view());
        assert(out@[p as int].deep_view() == out@[p as int]@);
        if bytes_lt(&out[p], &x) {
            assert(lex_lt(out@[p as int]@, x@));
            p = p + 1;
        } else {
            assert(!lex_lt(out@[p as int]@, x@));
            proof {
                lemma_lex_connected(x@, pre[p as int]);
            }
            place_found = true;
        }
    }
    let ghost xv = x@;
    out.insert(p, x);
    proof {
        let post = out.deep_view();
        assert(post =~= pre.insert(p as int, xv)) by {
            assert(forall|k: int| 0 <= k < post.len() ==> post[k] == out@[k].deep_view());
        }
        assert(post == pre.insert(p as int, xv));
        vstd::seq_lib::to_multiset_insert(pre, p as int, xv);
        assert forall|j: int, k: int| 0 <= j < k < post.len() implies lex_le(
            #[trigger] post[j],
            #[trigger] post[k],
        ) by {
            let pi = p as int;
            if j < pi && k == pi {
                assert(post[j] == pre[j] && post[k] == xv);
            } else if j == pi && k > pi {
                assert(post[j] == xv && post[k] == pre[k - 1]);
                if k - 1 > pi {
                    lemma_lex_le_trans(xv, pre[pi], pre[k - 1]);
                }
            } else if j < pi && k > pi {
                assert(post[j] == pre[j] && post[k] == pre[k - 1]);
                if k - 1 > j {
                    assert(lex_le(pre[j], pre[k - 1]));
                }
            } else if k < pi {
                assert(post[j] == pre[j] && post[k] == pre[k]);
            } else if j > pi {
                assert(post[j] == pre[j - 1] && post[k] == pre[k - 1]);
            }
        }
    }
}

/// Sorts the names in ascending lexicographic order.  The result holds the
/// same names, each as often as before.
fn sort_names(names: &mut Vec<Vec<u8>>)
    ensures
        sorted_names(final(names).deep_view()),
        final(names).deep_view().to_multiset() == old(names).deep_view().to_multiset(),
{
    broadcast use vstd::seq_lib::group_to_multiset_ensures, lemma_bytes_deep_view;

    let ghost orig = names.deep_view();
    let mut out: Vec<Vec<u8>> = Vec::new();
    let mut i: usize = 0;
    proof {
        assert(out.deep_view() =~= Seq::<Seq<u8>>::empty());
        assert(orig.take(0).to_multiset() =~= Seq::<Seq<u8>>::empty().to_multiset());
    }
    while i < names.len()
        invariant
            i <= names.len(),
            names.deep_view() == orig,
            sorted_names(out.deep_view()),
            out.deep_view().to_multiset() == orig.take(i as int).to_multiset(),
        decreases names.len() - i,
    {
        let x = clone_name(&names[i]);
        assert(x@ == orig[i as int]);
        insert_sorted(&mut out, x);
        proof {
            assert(orig.take(i + 1) =~= orig.take(i as int).push(orig[i as int]));
            vstd::seq_lib::to_multiset_build(orig.take(i as int), orig[i as int]);
        }
        i = i + 1;
    }
    proof {
        assert(orig.take(orig.len() as int) =~= orig);
    }
    *names = out;
}

/// Whether a name starts with a dot.
fn exec_is_hidden(name: &Vec<u8>) -> (r: bool)
    ensures
        r == is_hidden_name(name@),
{
    name.len() > 0 && name[0] == DOT
}

/// Whether a name is exactly `vendor`.
fn exec_is_vendor(name: &Vec<u8>) -> (r: bool)
    ensures
        r == (name@ == vendor_name()),
{
    if name.len() != 6 {
        return false;
    }
    let r = name[0] == LOWER_V && name[1] == LOWER_E && name[2] == LOWER_N && name[3] == LOWER_D
        && name[4] == LOWER_O && name[5] == LOWER_R;
    proof {
        if r {
            assert(name@ =~= vendor_name());
        }
    }
    r
}

/// The filtered listing of one directory: of the raw entries, keep those
/// that are directories and survive the hidden/`vendor` exclusions, and
/// sort the surviving names when the configuration asks for it.
pub fn getalldirs(entries: &Vec<DirEntry>, cfg: &FilterConfig) -> (dirs: Vec<Vec<u8>>)
    ensures
        listing_ok(dirs.deep_view(), entries@, *cfg),
        forall|k: int| 0 <= k < dirs.deep_view().len() ==> name_kept(
            *cfg,
            #[trigger] dirs.deep_view()[k],
        ),
{
    broadcast use lemma_bytes_deep_view;

    let mut dirs: Vec<Vec<u8>> = Vec::new();
    let mut i: usize = 0;
    proof {
        assert(dirs.deep_view() =~= kept_names(entries@.take(0), *cfg));
    }
    while i < entries.len()
        invariant
            i <= entries.len(),
            dirs.deep_view() == kept_names(entries@.take(i as int), *cfg),
        decreases entries.len() - i,
    {
        let e = &entries[i];
        let ghost pre = dirs.deep_view();
        let keep = e.is_dir && (cfg.include_hidden || !exec_is_hidden(&e.name)) && (
        cfg.include_vendor || !exec_is_vendor(&e.name));
        assert(keep == entry_kept(*cfg, entries@[i as int]));
        if keep {
            let cn = clone_name(&e.name);
            let ghost cng = cn;
            let ghost prevec = dirs@;
            dirs.push(cn);
            proof {
                assert(cng.deep_view() == cng@);
                assert forall|k: int| 0 <= k < dirs.deep_view().len() implies dirs.deep_view()[k]
                    == pre.push(entries@[i as int].name@)[k] by {
                    assert(dirs.deep_view()[k] == dirs@[k].deep_view());
                    if k < pre.len() {
                        assert(dirs@[k] == prevec[k]);
                        assert(pre[k] == prevec[k].deep_view());
                    } else {
                        assert(dirs@[k] == cng);
                    }
                }
                assert(dirs.deep_view() =~= pre.push(entries@[i as int].name@));
            }
        }
        proof {
            assert(entries@.take(i + 1).drop_last() =~= entries@.take(i as int));
            assert(entries@.take(i + 1).last() == entries@[i as int]);
        }
        i = i + 1;
    }
    proof {
        assert(entries@.take(entries.len() as int) =~= entries@);
    }
    if cfg.sort_alphabetically {
        sort_names(&mut dirs);
    }
    proof {
        broadcast use vstd::seq_lib::group_to_multiset_ensures;

        lemma_kept_names_kept(entries@, *cfg);
        let dv = dirs.deep_view();
        assert forall|k: int| 0 <= k < dv.len() implies name_kept(*cfg, #[trigger] dv[k]) by {
            assert(dv.contains(dv[k]));
            lemma_listing_ok_contains(dv, entries@, *cfg, dv[k]);
            let j = choose|j: int|
                0 <= j < kept_names(entries@, *cfg).len() && kept_names(entries@, *cfg)[j] == dv[k];
        }
    }
    dirs
}

} // verus!
