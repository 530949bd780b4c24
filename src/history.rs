use vstd::prelude::*;

use crate::directory::{
    blocked_by_file, dir_ok, lemma_blocked_cases, lemma_follows_tail, lemma_resolve_push,
    resolve_from, PathNodesResult,
};
use crate::utils::split_last;
use crate::error::FsError;
use crate::node::{PrivateDirectory, PrivateNode, PrivateRef, same_revision};
use crate::store::{loaded_from, previous_of_node, NodeStore};

verus! {

/// The first stored revision of the node that revision `i` belongs to: the
/// start of its chain of previous links. Revisions of one node share it,
/// whichever copy of an ancestor they were written through.
pub open spec fn origin(s: Seq<PrivateNode>, i: nat) -> nat
    decreases i,
{
    if i < s.len() {
        match previous_of_node(s[i as int]) {
            Some(p) => if p.index < i {
                origin(s, p.index as nat)
            } else {
                i
            },
            None => i,
        }
    } else {
        i
    }
}

/// The newest stored revision below place `below` of the node whose first revision is `o`.
pub open spec fn newest_below(s: Seq<PrivateNode>, o: nat, below: nat) -> Option<nat>
    decreases below,
{
    if below == 0 {
        None
    } else if (below - 1) < s.len() && origin(s, (below - 1) as nat) == o {
        Some((below - 1) as nat)
    } else {
        newest_below(s, o, (below - 1) as nat)
    }
}

/// How many stored revisions of the node whose first revision is `o` lie below place `below`.
pub open spec fn revision_count(s: Seq<PrivateNode>, o: nat, below: nat) -> nat
    decreases below,
{
    if below == 0 {
        0
    } else if (below - 1) < s.len() && origin(s, (below - 1) as nat) == o {
        1 + revision_count(s, o, (below - 1) as nat)
    } else {
        revision_count(s, o, (below - 1) as nat)
    }
}

/// Counts the stored revisions below place `below` of the node whose first revision is `o`.
fn revision_count_of(store: &NodeStore, o: usize, below: usize) -> (r: usize)
    requires
        below <= store@.len(),
    ensures
        r == revision_count(store@, o as nat, below as nat),
{
    let mut k: usize = 0;
    let mut count: usize = 0;
    while k < below
        invariant
            k <= below <= store@.len(),
            count == revision_count(store@, o as nat, k as nat),
            count <= k,
        decreases below - k,
    {
        if origin_of(store, k) == o {
            count = count + 1;
        }
        k = k + 1;
    }
    count
}

proof fn lemma_newest_below_some(s: Seq<PrivateNode>, o: nat, below: nat, j: nat)
    requires
        j < below,
        j < s.len(),
        origin(s, j) == o,
    ensures
        newest_below(s, o, below) matches Some(k) && j <= k < below && k < s.len() && origin(s, k) == o,
    decreases below,
{
    if below - 1 != j && !((below - 1) < s.len() && origin(s, (below - 1) as nat) == o) {
        lemma_newest_below_some(s, o, (below - 1) as nat, j);
    }
}

proof fn lemma_newest_below_bounds(s: Seq<PrivateNode>, o: nat, below: nat)
    ensures
        newest_below(s, o, below) matches Some(k) ==> k < below && k < s.len() && origin(s, k) == o,
    decreases below,
{
    if below > 0 {
        lemma_newest_below_bounds(s, o, (below - 1) as nat);
    }
}

/// The first revision of the node that stored revision `i` belongs to.
fn origin_of(store: &NodeStore, i: usize) -> (r: usize)
    requires
        i < store@.len(),
    ensures
        r == origin(store@, i as nat),
{
    let mut j = i;
    while true
        invariant
            j < store@.len(),
            origin(store@, j as nat) == origin(store@, i as nat),
        decreases j,
    {
        match store.previous_at(j) {
            Some(p) => {
                if p.index < j {
                    j = p.index;
                } else {
                    return j;
                }
            },
            None => {
                return j;
            },
        }
    }
    j
}

/// The newest revision below place `below` of the node whose first revision is `o`.
fn newest_below_of(store: &NodeStore, o: usize, below: usize) -> (r: Option<usize>)
    requires
        below <= store@.len(),
    ensures
        match newest_below(store@, o as nat, below as nat) {
            Some(k) => r == Some(k as usize),
            None => r is None,
        },
{
    let mut k = below;
    while k > 0
        invariant
            k <= below <= store@.len(),
            newest_below(store@, o as nat, below as nat) == newest_below(store@, o as nat, k as nat),
        decreases k,
    {
        if origin_of(store, k - 1) == o {
            return Some(k - 1);
        }
        k = k - 1;
    }
    None
}

/// Where the history of an unstored top directory starts: at the revision it
/// was made from, or with `search_latest` at the newest revision of its node.
pub open spec fn root_history_start(s: Seq<PrivateNode>, root: PrivateDirectory, search_latest: bool) -> Option<(nat, nat)> {
    match root.previous_view() {
        Some(p) => {
            let o = origin(s, p.index as nat);
            Some((o, 1 + if search_latest { newest_below(s, o, s.len()).unwrap() } else { p.index as nat }))
        },
        None => None,
    }
}

/// Walks back through the stored revisions of one node, newest first, at most
/// `budget` steps. Every stored revision of the node below the starting place
/// is visited, also those written through another copy of an ancestor.
#[derive(Debug)]
pub struct PrivateNodeHistory {
    origin: usize,
    below: usize,
    budget: usize,
}

impl PrivateNodeHistory {
    /// The first revision of the node whose history this is.
    pub closed spec fn origin_spec(&self) -> nat {
        self.origin as nat
    }

    /// The next step returns the newest revision below this place.
    pub closed spec fn below_spec(&self) -> nat {
        self.below as nat
    }

    /// How many more steps may be taken.
    pub closed spec fn budget_spec(&self) -> nat {
        self.budget as nat
    }

    /// Starts a history of the node of stored revision `index`: from that
    /// revision, or, with `search_latest`, from the node's newest revision.
    fn starting_at(store: &NodeStore, index: usize, search_latest: bool, budget: usize) -> (r: PrivateNodeHistory)
        requires
            index < store@.len(),
        ensures
            r.origin_spec() == origin(store@, index as nat),
            r.budget_spec() == budget,
            r.below_spec() == if search_latest {
                newest_below(store@, origin(store@, index as nat), store@.len()).unwrap()
            } else {
                index as nat
            },
            r.below_spec() < store@.len(),
    {
        let o = origin_of(store, index);
        if search_latest {
            proof { lemma_newest_below_some(store@, o as nat, store@.len(), index as nat); }
            proof { lemma_newest_below_bounds(store@, o as nat, store@.len()); }
            match newest_below_of(store, o, store.len()) {
                Some(k) => PrivateNodeHistory { origin: o, below: k, budget },
                None => PrivateNodeHistory { origin: o, below: index, budget },
            }
        } else {
            PrivateNodeHistory { origin: o, below: index, budget }
        }
    }

    /// The history of the node at `path_segments` below `root`. It yields the
    /// node's stored revisions older than the one the path reaches, or, with
    /// `search_latest`, older than the node's newest stored revision. The
    /// empty path names `root`, whose history starts at the revision it was
    /// made from. A file in the middle of the path fails with `NotADirectory`,
    /// a missing node with `NotFound`, and a history with more revisions than
    /// `budget` with `RatchetBudgetExceeded`.
    pub fn previous_of(
        root: &PrivateDirectory,
        path_segments: &[String],
        search_latest: bool,
        store: &NodeStore,
        budget: usize,
    ) -> (r: Result<PrivateNodeHistory, FsError>)
        requires
            root.wf(),
            store.wf(),
            dir_ok(*root, store@.len()),
        ensures
            ({
                let segs = path_segments@.map_values(|s: String| s@);
                if segs.len() == 0 {
                    match root_history_start(store@, *root, search_latest) {
                        None => r matches Ok(h) && h.budget_spec() == budget && h.below_spec() == 0,
                        Some((o, below)) => if revision_count(store@, o, below) > budget {
                            r == Err::<PrivateNodeHistory, FsError>(FsError::RatchetBudgetExceeded)
                        } else {
                            r matches Ok(h) && h.budget_spec() == budget && h.origin_spec() == o && h.below_spec() == below
                        },
                    }
                } else if blocked_by_file(store@, *root, segs.drop_last()) {
                    r == Err::<PrivateNodeHistory, FsError>(FsError::NotADirectory)
                } else {
                    match resolve_from(store@, *root, segs) {
                        Some(i) => {
                            let o = origin(store@, i as nat);
                            let below = if search_latest {
                                newest_below(store@, o, store@.len()).unwrap()
                            } else {
                                i as nat
                            };
                            if revision_count(store@, o, below) > budget {
                                r == Err::<PrivateNodeHistory, FsError>(FsError::RatchetBudgetExceeded)
                            } else {
                                r matches Ok(h) && h.budget_spec() == budget && h.origin_spec() == o && h.below_spec() == below
                            }
                        },
                        None => r == Err::<PrivateNodeHistory, FsError>(FsError::NotFound),
                    }
                }
            }),
    {
        let ghost segs = path_segments@.map_values(|s: String| s@);
        let (path, name) = match split_last(path_segments) {
            Ok(split) => split,
            Err(_) => {
                return match root.get_previous() {
                    Some(p) => {
                        let h = Self::starting_at(store, p.index, search_latest, budget);
                        let n = store.len();
                        proof {
                            lemma_newest_below_bounds(store@, origin(store@, p.index as nat), store@.len());
                            lemma_newest_below_some(store@, origin(store@, p.index as nat), store@.len(), p.index as nat);
                        }
                        assert(h.below < n);
                        let h = PrivateNodeHistory { origin: h.origin, below: h.below + 1, budget };
                        if revision_count_of(store, h.origin, h.below) > budget {
                            Err(FsError::RatchetBudgetExceeded)
                        } else {
                            Ok(h)
                        }
                    },
                    None => Ok(PrivateNodeHistory { origin: 0, below: 0, budget }),
                };
            },
        };
        let ghost dp = segs.drop_last();
        proof {
            assert(path@.map_values(|s: String| s@) =~= dp);
            assert(dp.push(name@) =~= segs);
            lemma_resolve_push(store@, *root, dp, name@);
        }
        match root.get_path_nodes(path, store) {
            PathNodesResult::Complete(pn) => {
                proof {
                    lemma_blocked_cases(pn.path@, pn.tail, store@, *root, dp);
                    lemma_follows_tail(pn.path@, pn.tail, store@, *root, dp);
                    assert(dp.subrange(0, dp.len() as int) =~= dp);
                }
                match pn.tail.get_entry(name) {
                    Some(e) => {
                        if e.index < store.len() {
                            let h = Self::starting_at(store, e.index, search_latest, budget);
                            if revision_count_of(store, h.origin, h.below) > budget {
                                Err(FsError::RatchetBudgetExceeded)
                            } else {
                                Ok(h)
                            }
                        } else {
                            Err(FsError::NotFound)
                        }
                    },
                    None => Err(FsError::NotFound),
                }
            },
            PathNodesResult::MissingLink(pn, _) => {
                proof { lemma_blocked_cases(pn.path@, pn.tail, store@, *root, dp); }
                Err(FsError::NotFound)
            },
            PathNodesResult::NotADirectory(pn, _) => {
                proof { lemma_blocked_cases(pn.path@, pn.tail, store@, *root, dp); }
                Err(FsError::NotADirectory)
            },
        }
    }

    /// The newest revision of the node below the current place, or none when
    /// there is no older one. Taking more steps than the budget fails.
    pub fn previous(&mut self, store: &NodeStore) -> (r: Result<Option<PrivateNode>, FsError>)
        requires
            store.wf(),
            old(self).below_spec() <= store@.len(),
        ensures
            final(self).origin_spec() == old(self).origin_spec(),
            final(self).below_spec() <= store@.len(),
            match newest_below(store@, old(self).origin_spec(), old(self).below_spec()) {
                None => r matches Ok(None) && *final(self) == *old(self),
                Some(j) => if old(self).budget_spec() == 0 {
                    r == Err::<Option<PrivateNode>, FsError>(FsError::RatchetBudgetExceeded)
                        && *final(self) == *old(self)
                } else {
                    r matches Ok(Some(n)) && same_revision(n, store@[j as int])
                        && loaded_from(n) == Some(PrivateRef { index: j as usize })
                        && final(self).below_spec() == j
                        && final(self).budget_spec() == old(self).budget_spec() - 1
                },
            },
    {
        proof { lemma_newest_below_bounds(store@, self.origin as nat, self.below as nat); }
        match newest_below_of(store, self.origin, self.below) {
            None => Ok(None),
            Some(j) => {
                if self.budget == 0 {
                    return Err(FsError::RatchetBudgetExceeded);
                }
                match store.load(PrivateRef { index: j }) {
                    Some(node) => {
                        self.below = j;
                        self.budget = self.budget - 1;
                        Ok(Some(node))
                    },
                    None => Err(FsError::NotFound),
                }
            },
        }
    }
}

} // verus!
