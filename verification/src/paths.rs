//! Paths as sequences of directory names, counted from the search root:
//! the root itself is the empty path, and each further component names a
//! child of the directory before it.

use crate::listing::bytes_eq;
use crate::listing::clone_name;
use crate::listing::FilterConfig;
use vstd::prelude::*;

verus! {

/// Appending one element to a vector appends its deep view.
pub proof fn lemma_deep_view_push<T: DeepView>(pre: Vec<T>, post: Vec<T>, x: T)
    requires
        post@ == pre@.push(x),
    ensures
        post.deep_view() == pre.deep_view().push(x.deep_view()),
{
    assert forall|k: int| 0 <= k < post.deep_view().len() implies post.deep_view()[k]
        == pre.deep_view().push(x.deep_view())[k] by {
        assert(post.deep_view()[k] == post@[k].deep_view());
        if k < pre@.len() {
            assert(post@[k] == pre@[k]);
            assert(pre.deep_view()[k] == pre@[k].deep_view());
        } else {
            assert(post@[k] == x);
        }
    }
    assert(post.deep_view() =~= pre.deep_view().push(x.deep_view()));
}

/// The paths of the children of `dir` that bear the given names.
pub open spec fn child_paths(dir: Seq<Seq<u8>>, names: Seq<Seq<u8>>) -> Seq<Seq<Seq<u8>>> {
    names.map_values(|n: Seq<u8>| dir.push(n))
}

/// Whether a path's final component is the name being searched for.  The
/// root, having no final component, never matches.
pub open spec fn path_matches(cfg: FilterConfig, p: Seq<Seq<u8>>) -> bool {
    p.len() > 0 && p.last() == cfg.folder_name@
}

/// Copies a path.
pub fn clone_path(p: &Vec<Vec<u8>>) -> (r: Vec<Vec<u8>>)
    ensures
        r.deep_view() == p.deep_view(),
{
    let mut r: Vec<Vec<u8>> = Vec::new();
    let mut i: usize = 0;
    proof {
        assert(r.deep_view() =~= p.deep_view().take(0));
    }
    while i < p.len()
        invariant
            i <= p.len(),
            r.deep_view() == p.deep_view().take(i as int),
        decreases p.len() - i,
    {
        let cn = clone_name(&p[i]);
        let ghost cng = cn;
        let ghost prer = r;
        r.push(cn);
        proof {
            lemma_deep_view_push(prer, r, cng);
            assert(cng.deep_view() =~= cng@);
            assert(p.deep_view()[i as int] == p@[i as int].deep_view());
            assert(p@[i as int].deep_view() =~= p@[i as int]@);
            assert(p.deep_view().take(i + 1) =~= p.deep_view().take(i as int).push(
                p.deep_view()[i as int],
            ));
        }
        i = i + 1;
    }
    proof {
        assert(p.deep_view().take(p.len() as int) =~= p.deep_view());
    }
    r
}

/// The path of `dir`'s child named `name`.
pub fn push_child(dir: &Vec<Vec<u8>>, name: &Vec<u8>) -> (r: Vec<Vec<u8>>)
    ensures
        r.deep_view() == dir.deep_view().push(name@),
{
    let mut r = clone_path(dir);
    let cn = clone_name(name);
    let ghost cng = cn;
    let ghost prer = r;
    r.push(cn);
    proof {
        lemma_deep_view_push(prer, r, cng);
        assert(cng.deep_view() =~= cng@);
    }
    r
}

/// Tests two paths for equality, component by component.
pub fn path_eq(a: &Vec<Vec<u8>>, b: &Vec<Vec<u8>>) -> (r: bool)
    ensures
        r == (a.deep_view() == b.deep_view()),
{
    if a.len() != b.len() {
        proof {
            assert(a.deep_view().len() != b.deep_view().len());
        }
        return false;
    }
    let mut i: usize = 0;
    while i < a.len()
        invariant
            i <= a.len(),
            a.len() == b.len(),
            forall|k: int| 0 <= k < i ==> a.deep_view()[k] == b.deep_view()[k],
        decreases a.len() - i,
    {
        proof {
            assert(a.deep_view()[i as int] == a@[i as int].deep_view());
            assert(a@[i as int].deep_view() =~= a@[i as int]@);
            assert(b.deep_view()[i as int] == b@[i as int].deep_view());
            assert(b@[i as int].deep_view() =~= b@[i as int]@);
        }
        if !bytes_eq(&a[i], &b[i]) {
            return false;
        }
        i = i + 1;
    }
    proof {
        assert(a.deep_view() =~= b.deep_view());
    }
    true
}

/// Whether the path's final component equals the target name.
pub fn last_matches(p: &Vec<Vec<u8>>, target: &Vec<u8>) -> (r: bool)
    ensures
        r == (p.deep_view().len() > 0 && p.deep_view().last() == target@),
{
    if p.len() == 0 {
        return false;
    }
    proof {
        assert(p.deep_view()[p@.len() - 1] == p@[p@.len() - 1].deep_view());
        assert(p@[p@.len() - 1].deep_view() =~= p@[p@.len() - 1]@);
    }
    bytes_eq(&p[p.len() - 1], target)
}

} // verus!
