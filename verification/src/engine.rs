//! The incremental search engine: the breadth-first traversal's decisions,
//! kept apart from the directory reads that feed it.
//!
//! A caller constructs a [`Search`] from the filtered listing of the root,
//! then repeatedly reads the directory named by [`Search::current`] and
//! reports the outcome with [`Search::step_entries`] or
//! [`Search::step_failed`], until `done` is set.

use crate::listing::bytes_eq;
use crate::listing::getalldirs;
use crate::listing::listing_ok;
use crate::listing::DirEntry;
use crate::listing::FilterConfig;
use crate::paths::child_paths;
use crate::paths::clone_path;
use crate::paths::last_matches;
use crate::paths::lemma_deep_view_push;
use crate::paths::path_matches;
use crate::paths::push_child;
use vstd::prelude::*;

verus! {

/// How a finished search ended.
pub enum Outcome {
    /// The first directory, in search order, whose final component equals
    /// the target name.
    Found(Vec<Vec<u8>>),
    /// Every reachable directory was listed and none matched.
    NotFound,
    /// The directory at the given path could not be read; the search stops
    /// with no result.
    ReadFailed(Vec<Vec<u8>>),
}

/// Appends to the frontier the paths of `dir`'s children named in `names`,
/// in order.
pub fn enqueue(frontier: &mut Vec<Vec<Vec<u8>>>, dir: &Vec<Vec<u8>>, names: &Vec<Vec<u8>>)
    ensures
        final(frontier).deep_view() == old(frontier).deep_view() + child_paths(
            dir.deep_view(),
            names.deep_view(),
        ),
{
    let mut i: usize = 0;
    proof {
        assert(old(frontier).deep_view() + child_paths(
            dir.deep_view(),
            names.deep_view().take(0),
        ) =~= old(frontier).deep_view());
    }
    while i < names.len()
        invariant
            i <= names.len(),
            frontier.deep_view() == old(frontier).deep_view() + child_paths(
                dir.deep_view(),
                names.deep_view().take(i as int),
            ),
        decreases names.len() - i,
    {
        let c = push_child(dir, &names[i]);
        let ghost cg = c;
        let ghost prev = *frontier;
        frontier.push(c);
        proof {
            lemma_deep_view_push(prev, *frontier, cg);
            assert(names.deep_view()[i as int] == names@[i as int].deep_view());
            assert(names@[i as int].deep_view() =~= names@[i as int]@);
            assert(frontier.deep_view() =~= old(frontier).deep_view() + child_paths(
                dir.deep_view(),
                names.deep_view().take(i + 1),
            ));
        }
        i = i + 1;
    }
    proof {
        assert(names.deep_view().take(names.len() as int) =~= names.deep_view());
    }
}

/// One expansion step of the search: walk the filtered child names of
/// `dir` in order; a child bearing the target name is returned at once,
/// and every child before it is appended to the frontier.  When no child
/// matches, all of them are appended.  The ghost result is the index of
/// the matching name.
pub fn expand(
    frontier: &mut Vec<Vec<Vec<u8>>>,
    dir: &Vec<Vec<u8>>,
    names: &Vec<Vec<u8>>,
    target: &Vec<u8>,
) -> (res: (Option<Vec<Vec<u8>>>, Ghost<int>))
    ensures
        match res.0 {
            Some(p) => {
                let j = res.1@;
                &&& 0 <= j < names.deep_view().len()
                &&& names.deep_view()[j] == target@
                &&& forall|k: int| 0 <= k < j ==> names.deep_view()[k] != target@
                &&& p.deep_view() == dir.deep_view().push(target@)
                &&& final(frontier).deep_view() == old(frontier).deep_view() + child_paths(
                    dir.deep_view(),
                    names.deep_view().take(j),
                )
            },
            None => {
                &&& forall|k: int| 0 <= k < names.deep_view().len() ==> names.deep_view()[k]
                    != target@
                &&& final(frontier).deep_view() == old(frontier).deep_view() + child_paths(
                    dir.deep_view(),
                    names.deep_view(),
                )
            },
        },
{
    let mut i: usize = 0;
    proof {
        assert(old(frontier).deep_view() + child_paths(
            dir.deep_view(),
            names.deep_view().take(0),
        ) =~= old(frontier).deep_view());
    }
    while i < names.len()
        invariant
            i <= names.len(),
            frontier.deep_view() == old(frontier).deep_view() + child_paths(
                dir.deep_view(),
                names.deep_view().take(i as int),
            ),
            forall|k: int| 0 <= k < i ==> names.deep_view()[k] != target@,
        decreases names.len() - i,
    {
        proof {
            assert(names.deep_view()[i as int] == names@[i as int].deep_view());
            assert(names@[i as int].deep_view() =~= names@[i as int]@);
        }
        if bytes_eq(&names[i], target) {
            let hit = push_child(dir, &names[i]);
            return (Some(hit), Ghost(i as int));
        }
        let c = push_child(dir, &names[i]);
        let ghost cg = c;
        let ghost prev = *frontier;
        frontier.push(c);
        proof {
            lemma_deep_view_push(prev, *frontier, cg);
            assert(frontier.deep_view() =~= old(frontier).deep_view() + child_paths(
                dir.deep_view(),
                names.deep_view().take(i + 1),
            ));
        }
        i = i + 1;
    }
    proof {
        assert(names.deep_view().take(names.len() as int) =~= names.deep_view());
    }
    (None, Ghost(-1))
}

/// The state of one breadth-first search.
///
/// `frontier` is the ordered queue of discovered directories; entries up to
/// `pos` have been tested and expanded, the entry at `pos` is the one being
/// worked on, and entries are never removed.  `done` is set once the search
/// has ended.
pub struct Search {
    pub cfg: FilterConfig,
    pub frontier: Vec<Vec<Vec<u8>>>,
    pub pos: usize,
    pub done: Option<Outcome>,
}

impl Search {
    /// While the search runs, `pos` is a frontier index, and every frontier
    /// entry is a non-root path.
    pub open spec fn wf(self) -> bool {
        &&& self.done is None ==> self.pos < self.frontier@.len()
        &&& forall|j: int| 0 <= j < self.frontier.deep_view().len()
            ==> #[trigger] self.frontier.deep_view()[j].len() >= 1
    }

    /// The machine has dealt with every frontier entry before `q` and sits
    /// at `q`: past the end it has concluded not-found; at a matching entry
    /// it has concluded found; otherwise it waits for `q`'s listing.
    pub open spec fn settled(self, f: Seq<Seq<Seq<u8>>>, q: int, cfg: FilterConfig) -> bool {
        &&& self.cfg == cfg
        &&& self.frontier.deep_view() == f
        &&& 0 <= q <= f.len()
        &&& if q == f.len() {
            self.done matches Some(o) && o is NotFound
        } else if path_matches(cfg, f[q]) {
            &&& self.pos == q
            &&& match self.done {
                Some(Outcome::Found(p)) => p.deep_view() == f[q],
                _ => false,
            }
        } else {
            &&& self.pos == q
            &&& self.done is None
        }
    }

    /// Tests the entry at `pos`, recording the conclusion when the search
    /// is over there.
    fn advance(&mut self)
        requires
            old(self).done is None,
            old(self).pos <= old(self).frontier@.len(),
        ensures
            final(self).cfg == old(self).cfg,
            final(self).frontier == old(self).frontier,
            final(self).settled(
                old(self).frontier.deep_view(),
                old(self).pos as int,
                old(self).cfg,
            ),
    {
        if self.pos >= self.frontier.len() {
            self.done = Some(Outcome::NotFound);
        } else {
            proof {
                assert(self.frontier.deep_view()[self.pos as int] == self.frontier@[self.pos as int].deep_view());
            }
            let is_hit = last_matches(&self.frontier[self.pos], &self.cfg.folder_name);
            if is_hit {
                let p = clone_path(&self.frontier[self.pos]);
                self.done = Some(Outcome::Found(p));
            }
        }
    }

    /// Starts a search from the raw entries of the root directory: the
    /// frontier begins as the root's filtered listing, in listing order,
    /// and the first entry is tested at once.
    pub fn new(cfg: FilterConfig, root_entries: &Vec<DirEntry>) -> (s: Search)
        ensures
            s.wf(),
            exists|ns: Seq<Seq<u8>>|
                #[trigger] listing_ok(ns, root_entries@, s.cfg) && s.settled(
                    child_paths(Seq::<Seq<u8>>::empty(), ns),
                    0,
                    s.cfg,
                ),
            s.cfg == cfg,
    {
        let names = getalldirs(root_entries, &cfg);
        let ghost ns = names.deep_view();
        let mut frontier: Vec<Vec<Vec<u8>>> = Vec::new();
        let root: Vec<Vec<u8>> = Vec::new();
        proof {
            assert(frontier.deep_view() =~= Seq::<Seq<Seq<u8>>>::empty());
        }
        enqueue(&mut frontier, &root, &names);
        proof {
            assert(root.deep_view() =~= Seq::<Seq<u8>>::empty());
            assert(frontier.deep_view() =~= child_paths(Seq::<Seq<u8>>::empty(), ns));
        }
        let mut s = Search { cfg, frontier, pos: 0, done: None };
        proof {
            assert forall|j: int| 0 <= j < s.frontier.deep_view().len() implies #[trigger] s
                .frontier
                .deep_view()[j]
                .len() >= 1 by {
                assert(s.frontier.deep_view()[j] == Seq::<Seq<u8>>::empty().push(ns[j]));
            }
        }
        s.advance();
        s
    }

    /// The path whose listing the search is waiting for.
    pub fn current(&self) -> (p: &Vec<Vec<u8>>)
        requires
            self.wf(),
            self.done is None,
        ensures
            p.deep_view() == self.frontier.deep_view()[self.pos as int],
    {
        proof {
            assert(self.frontier.deep_view()[self.pos as int] == self.frontier@[self.pos as int].deep_view());
        }
        &self.frontier[self.pos]
    }

    /// What one [`Search::step_entries`] call does, given the listing `ns`
    /// it computed and the index `j` of the first matching child, `-1` when
    /// none matches: a matching child concludes the search at once, with
    /// only the children before it appended; otherwise every child is
    /// appended and the machine moves to the next frontier entry.
    pub open spec fn step_post(pre: Search, post: Search, ns: Seq<Seq<u8>>, j: int) -> bool {
        let f = pre.frontier.deep_view();
        let q = pre.pos as int;
        let dir = f[q];
        let t = pre.cfg.folder_name@;
        &&& post.cfg == pre.cfg
        &&& if 0 <= j {
            &&& j < ns.len()
            &&& ns[j] == t
            &&& forall|k: int| 0 <= k < j ==> ns[k] != t
            &&& post.frontier.deep_view() == f + child_paths(dir, ns.take(j))
            &&& post.pos == pre.pos
            &&& match post.done {
                Some(Outcome::Found(p)) => p.deep_view() == dir.push(t),
                _ => false,
            }
        } else {
            &&& forall|k: int| 0 <= k < ns.len() ==> ns[k] != t
            &&& post.settled(f + child_paths(dir, ns), q + 1, pre.cfg)
        }
    }

    /// Feeds the search the raw entries of the directory at
    /// [`Search::current`].  The ghost result names the filtered listing
    /// that was used and the index of its first matching child.
    pub fn step_entries(&mut self, entries: &Vec<DirEntry>) -> (r: Ghost<(Seq<Seq<u8>>, int)>)
        requires
            old(self).wf(),
            old(self).done is None,
        ensures
            final(self).wf(),
            listing_ok(r@.0, entries@, old(self).cfg),
            Search::step_post(*old(self), *final(self), r@.0, r@.1),
    {
        let ghost pre = *self;
        let names = getalldirs(entries, &self.cfg);
        proof {
            assert(self.frontier.deep_view()[self.pos as int] == self.frontier@[self.pos as int].deep_view());
        }
        let dirp = clone_path(&self.frontier[self.pos]);
        let ghost dir = dirp.deep_view();
        let (found, jg) = expand(&mut self.frontier, &dirp, &names, &self.cfg.folder_name);
        proof {
            let predv = pre.frontier.deep_view();
            let ns = names.deep_view();
            let kept = match found {
                Some(_) => ns.take(jg@),
                None => ns,
            };
            assert(self.frontier.deep_view() == predv + child_paths(dir, kept));
            assert forall|k: int| 0 <= k < self.frontier.deep_view().len() implies #[trigger] self
                .frontier
                .deep_view()[k]
                .len() >= 1 by {
                if k < predv.len() {
                    assert(self.frontier.deep_view()[k] == predv[k]);
                } else {
                    assert(self.frontier.deep_view()[k] == child_paths(dir, kept)[k - predv.len()]);
                    assert(child_paths(dir, kept)[k - predv.len()] == dir.push(
                        kept[k - predv.len()],
                    ));
                }
            }
        }
        match found {
            Some(p) => {
                self.done = Some(Outcome::Found(p));
                Ghost((names.deep_view(), jg@))
            },
            None => {
                let cap = self.frontier.len();
                proof {
                    assert(self.frontier@.len() == cap);
                    assert(self.frontier.deep_view().len() >= pre.frontier.deep_view().len());
                    assert(pre.pos < pre.frontier.deep_view().len());
                }
                self.pos = self.pos + 1;
                self.advance();
                Ghost((names.deep_view(), -1))
            },
        }
    }

    /// The directory at [`Search::current`] could not be read: the search
    /// ends with [`Outcome::ReadFailed`] naming that directory, whatever
    /// untested entries — and whatever matches below them — the frontier
    /// still holds.
    pub fn step_failed(&mut self)
        requires
            old(self).wf(),
            old(self).done is None,
        ensures
            final(self).cfg == old(self).cfg,
            final(self).frontier == old(self).frontier,
            final(self).pos == old(self).pos,
            match final(self).done {
                Some(Outcome::ReadFailed(p)) => p.deep_view() == old(self).frontier.deep_view()[old(
                    self,
                ).pos as int],
                _ => false,
            },
    {
        proof {
            assert(self.frontier.deep_view()[self.pos as int] == self.frontier@[self.pos as int].deep_view());
        }
        let p = clone_path(&self.frontier[self.pos]);
        self.done = Some(Outcome::ReadFailed(p));
    }
}

} // verus!
