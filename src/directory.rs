use vstd::prelude::*;

use crate::error::FsError;
use crate::node::{
    dir_refs_below, entry_of, metadata_of, Metadata, NodeKind, PrivateDirectory, PrivateFile,
    PrivateNode, PrivateRef, refs_below, same_revision,
};
use crate::store::{loaded_from, NodeStore};
use crate::order::{among, lemma_name_irreflexive, name_lt, sort_by_name};
use crate::utils::split_last;

verus! {

/// The index of the revision reached by following a non-empty path from `dir`.
pub open spec fn resolve_from(store: Seq<PrivateNode>, dir: PrivateDirectory, path: Seq<Seq<char>>) -> Option<usize>
    decreases path.len(),
{
    if path.len() == 0 {
        None
    } else {
        match entry_of(dir.entries_view(), path[0]) {
            None => None,
            Some(r) => if r.index >= store.len() {
                None
            } else if path.len() == 1 {
                Some(r.index)
            } else {
                match store[r.index as int] {
                    PrivateNode::Dir(d) => resolve_from(store, d, path.drop_first()),
                    PrivateNode::File(_) => None,
                }
            },
        }
    }
}

/// The entries of the directory at `path` below `dir`; the empty path is `dir` itself.
#[verifier::opaque]
pub open spec fn dir_entries_at(store: Seq<PrivateNode>, dir: PrivateDirectory, path: Seq<Seq<char>>) -> Option<Map<Seq<char>, PrivateRef>> {
    if path.len() == 0 {
        Some(dir.entries_view())
    } else {
        match resolve_from(store, dir, path) {
            Some(i) => match store[i as int] {
                PrivateNode::Dir(d) => Some(d.entries_view()),
                PrivateNode::File(_) => None,
            },
            None => None,
        }
    }
}

/// A directory whose references, and the place it was loaded from, all lie below `bound`.
pub open spec fn dir_ok(d: PrivateDirectory, bound: nat) -> bool {
    &&& dir_refs_below(d, bound)
    &&& match d.persisted_as_view() {
        Some(p) => p.index < bound,
        None => true,
    }
}

/// `later` keeps every revision of `earlier` where it was.
pub open spec fn extends(later: Seq<PrivateNode>, earlier: Seq<PrivateNode>) -> bool {
    later.len() >= earlier.len() && later.subrange(0, earlier.len() as int) == earlier
}

pub open spec fn store_wf(s: Seq<PrivateNode>) -> bool {
    forall|i: int| 0 <= i < s.len() ==> refs_below(#[trigger] s[i], i as nat)
}

/// A path leads only to stored revisions.
pub proof fn lemma_resolve_bound(s: Seq<PrivateNode>, d: PrivateDirectory, p: Seq<Seq<char>>)
    ensures
        resolve_from(s, d, p) matches Some(i) ==> i < s.len(),
    decreases p.len(),
{
    if p.len() > 1 {
        match entry_of(d.entries_view(), p[0]) {
            Some(r) => {
                if r.index < s.len() {
                    match s[r.index as int] {
                        PrivateNode::Dir(d2) => lemma_resolve_bound(s, d2, p.drop_first()),
                        PrivateNode::File(_) => {},
                    }
                }
            },
            None => {},
        }
    }
}

/// Two directories that agree on the first segment of a path resolve it alike.
pub proof fn lemma_resolve_same_entry(s: Seq<PrivateNode>, d1: PrivateDirectory, d2: PrivateDirectory, p: Seq<Seq<char>>)
    requires
        p.len() > 0,
        entry_of(d1.entries_view(), p[0]) == entry_of(d2.entries_view(), p[0]),
    ensures
        resolve_from(s, d1, p) == resolve_from(s, d2, p),
{
}

/// Resolving a path is resolving its first `k` segments to a directory, then the rest from there.
pub proof fn lemma_resolve_through(s: Seq<PrivateNode>, root: PrivateDirectory, p: Seq<Seq<char>>, k: int, d: PrivateDirectory)
    requires
        0 <= k < p.len(),
        dir_entries_at(s, root, p.subrange(0, k)) == Some(d.entries_view()),
    ensures
        resolve_from(s, root, p) == resolve_from(s, d, p.subrange(k, p.len() as int)),
    decreases k,
{
    reveal(dir_entries_at);
    if k == 0 {
        assert(p.subrange(0, p.len() as int) =~= p);
        lemma_resolve_same_entry(s, root, d, p);
    } else {
        let pre = p.subrange(0, k);
        assert(pre[0] == p[0]);
        let r = entry_of(root.entries_view(), p[0]).unwrap();
        if k == 1 {
            assert(p.drop_first() =~= p.subrange(1, p.len() as int));
            let d1 = s[r.index as int]->Dir_0;
            lemma_resolve_same_entry(s, d1, d, p.drop_first());
        } else {
            let d1 = s[r.index as int]->Dir_0;
            assert(pre.drop_first() =~= p.drop_first().subrange(0, k - 1));
            assert(dir_entries_at(s, d1, p.drop_first().subrange(0, k - 1)) == Some(d.entries_view()));
            lemma_resolve_through(s, d1, p.drop_first(), k - 1, d);
            assert(p.drop_first().subrange(k - 1, p.len() - 1) =~= p.subrange(k, p.len() as int));
        }
    }
}

/// A path through a directory path that cannot be followed cannot be followed.
pub proof fn lemma_resolve_through_none(s: Seq<PrivateNode>, root: PrivateDirectory, p: Seq<Seq<char>>, k: int)
    requires
        1 <= k < p.len(),
        dir_entries_at(s, root, p.subrange(0, k)) is None,
    ensures
        resolve_from(s, root, p) is None,
{
    reveal(dir_entries_at);
    lemma_resolve_none_extends(s, root, p.subrange(0, k), p.subrange(k, p.len() as int));
    assert(p.subrange(0, k) + p.subrange(k, p.len() as int) =~= p);
}

/// Following one more segment from a directory reached by a path.
pub proof fn lemma_resolve_push(s: Seq<PrivateNode>, d: PrivateDirectory, p: Seq<Seq<char>>, x: Seq<char>)
    ensures
        resolve_from(s, d, p.push(x)) == match dir_entries_at(s, d, p) {
            Some(e) => match entry_of(e, x) {
                Some(r) => if r.index < s.len() { Some(r.index) } else { None },
                None => None,
            },
            None => None,
        },
    decreases p.len(),
{
    reveal(dir_entries_at);
    if p.len() > 0 {
        assert(p.push(x)[0] == p[0]);
        assert(p.push(x).drop_first() =~= p.drop_first().push(x));
        match entry_of(d.entries_view(), p[0]) {
            None => {},
            Some(r) => {
                if r.index < s.len() {
                    if p.len() == 1 {
                        assert(p.drop_first() =~= Seq::<Seq<char>>::empty());
                        assert(p.drop_first().push(x) =~= seq![x]);
                        match s[r.index as int] {
                            PrivateNode::Dir(d2) => {
                                assert(seq![x].drop_first() =~= Seq::<Seq<char>>::empty());
                            },
                            PrivateNode::File(_) => {},
                        }
                    } else {
                        match s[r.index as int] {
                            PrivateNode::Dir(d2) => {
                                lemma_resolve_push(s, d2, p.drop_first(), x);
                            },
                            PrivateNode::File(_) => {},
                        }
                    }
                }
            },
        }
    }
}

/// The directory one segment further down.
pub proof fn lemma_dir_entries_push(s: Seq<PrivateNode>, d: PrivateDirectory, p: Seq<Seq<char>>, x: Seq<char>)
    ensures
        dir_entries_at(s, d, p) matches Some(m) ==> (entry_of(m, x) matches Some(e) ==> (e.index < s.len() ==> (
            s[e.index as int] matches PrivateNode::Dir(d2) ==> dir_entries_at(s, d, p.push(x)) == Some(d2.entries_view())))),
{
    reveal(dir_entries_at);
    lemma_resolve_push(s, d, p, x);
}

/// References below a bound are below any larger bound.
pub proof fn lemma_dir_ok_mono(d: PrivateDirectory, b1: nat, b2: nat)
    requires
        dir_refs_below(d, b1),
        b1 <= b2,
        d.persisted_as_view() matches Some(p) ==> p.index < b2,
    ensures
        dir_ok(d, b2),
{
}

/// Following a path from a directory is following its first segment, then the rest.
pub proof fn lemma_dir_entries_cons(s: Seq<PrivateNode>, d: PrivateDirectory, x: Seq<char>, rest: Seq<Seq<char>>, d2: PrivateDirectory)
    requires
        entry_of(d.entries_view(), x) matches Some(e) && e.index < s.len() && s[e.index as int] == PrivateNode::Dir(d2),
    ensures
        dir_entries_at(s, d, seq![x] + rest) == dir_entries_at(s, d2, rest),
{
    reveal(dir_entries_at);
    let p = seq![x] + rest;
    assert(p[0] == x);
    assert(p.drop_first() =~= rest);
}

/// Some prefix of `segs` names a file, so `segs` cannot be a directory path.
pub open spec fn blocked_by_file(s: Seq<PrivateNode>, d: PrivateDirectory, segs: Seq<Seq<char>>) -> bool {
    exists|j: int| 1 <= j <= segs.len() && (#[trigger] resolve_from(s, d, segs.subrange(0, j)) matches Some(i)
        && s[i as int] is File)
}

/// A path that cannot be followed cannot be followed further.
pub proof fn lemma_resolve_none_extends(s: Seq<PrivateNode>, d: PrivateDirectory, p: Seq<Seq<char>>, q: Seq<Seq<char>>)
    requires
        p.len() >= 1,
        resolve_from(s, d, p) is None || (resolve_from(s, d, p) matches Some(i) && s[i as int] is File && q.len() > 0),
    ensures
        resolve_from(s, d, p + q) is None,
    decreases p.len(),
{
    let pq = p + q;
    assert(pq[0] == p[0]);
    if p.len() > 1 {
        assert(pq.drop_first() =~= p.drop_first() + q);
        match entry_of(d.entries_view(), p[0]) {
            Some(r) => {
                if r.index < s.len() {
                    match s[r.index as int] {
                        PrivateNode::Dir(d2) => {
                            lemma_resolve_none_extends(s, d2, p.drop_first(), q);
                        },
                        PrivateNode::File(_) => {},
                    }
                }
            },
            None => {},
        }
    } else if q.len() > 0 {
        assert(pq.drop_first() =~= q);
    }
}

/// Reading a file: its content, or why there is none.
pub open spec fn read_spec(s: Seq<PrivateNode>, root: PrivateDirectory, path: Seq<Seq<char>>) -> Result<Seq<u8>, FsError> {
    if path.len() == 0 {
        Err(FsError::InvalidPath)
    } else {
        match resolve_from(s, root, path) {
            Some(i) => match s[i as int] {
                PrivateNode::File(f) => Ok(f.content_view()),
                PrivateNode::Dir(_) => Err(FsError::NotAFile),
            },
            None => Err(FsError::NotFound),
        }
    }
}

/// The node at a path moved or renamed: the same kind and the same
/// content or entries, with its modification time set to `time`.
pub open spec fn moved_revision(moved: PrivateNode, source: PrivateNode, time: i64) -> bool {
    match (moved, source) {
        (PrivateNode::File(a), PrivateNode::File(b)) => a.content_view() == b.content_view()
            && a.metadata_view() == (Metadata { modified: time, ..b.metadata_view() }),
        (PrivateNode::Dir(a), PrivateNode::Dir(b)) => a.entries_view() == b.entries_view()
            && a.metadata_view() == (Metadata { modified: time, ..b.metadata_view() }),
        _ => false,
    }
}

/// Why writing a file at `path` fails, if it does.
pub open spec fn write_error(s: Seq<PrivateNode>, root: PrivateDirectory, path: Seq<Seq<char>>) -> Option<FsError> {
    if path.len() == 0 {
        Some(FsError::InvalidPath)
    } else if blocked_by_file(s, root, path.drop_last()) {
        Some(FsError::InvalidPath)
    } else {
        match resolve_from(s, root, path) {
            Some(i) => if s[i as int] is Dir {
                Some(FsError::DirectoryAlreadyExists)
            } else {
                None
            },
            None => None,
        }
    }
}

/// Directories that a path leads through are not files.
proof fn lemma_follows_levels_dirs(
    path: Seq<(PrivateDirectory, String)>,
    tail: PrivateDirectory,
    store: Seq<PrivateNode>,
    root: PrivateDirectory,
    segs: Seq<Seq<char>>,
    j: int,
)
    requires
        path_follows(path, tail, store, root, segs),
        1 <= j <= path.len(),
    ensures
        !(resolve_from(store, root, segs.subrange(0, j)) matches Some(i) && store[i as int] is File),
{
    reveal(path_follows);
    assert(dir_entries_at(store, root, segs.subrange(0, j)) == Some(level_of(path, tail, j).entries_view()));
    reveal(dir_entries_at);
}

pub proof fn lemma_follows_tail(
    path: Seq<(PrivateDirectory, String)>,
    tail: PrivateDirectory,
    store: Seq<PrivateNode>,
    root: PrivateDirectory,
    segs: Seq<Seq<char>>,
)
    requires
        path_follows(path, tail, store, root, segs),
    ensures
        tail.wf(),
        dir_ok(tail, store.len()),
        dir_entries_at(store, root, segs.subrange(0, path.len() as int)) == Some(tail.entries_view()),
        segments_of(path) == segs.subrange(0, path.len() as int),
        path.len() <= segs.len(),
        forall|i: int| 0 <= i <= path.len() ==> #[trigger] level_of(path, tail, i).wf()
            && dir_ok(level_of(path, tail, i), store.len()),
        forall|i: int| 0 <= i <= path.len() ==> dir_entries_at(store, root, segs.subrange(0, i))
            == Some(#[trigger] level_of(path, tail, i).entries_view()),
        level_of(path, tail, 0).persisted_as_view() == root.persisted_as_view(),
        level_of(path, tail, 0).previous_view() == root.previous_view(),
        level_of(path, tail, 0).metadata_view() == root.metadata_view(),
{
    reveal(path_follows);
    assert(level_of(path, tail, path.len() as int) == tail);
}

/// Whether the directory path `segs` is blocked by a file, from how far it could be followed.
pub proof fn lemma_blocked_cases(
    path: Seq<(PrivateDirectory, String)>,
    tail: PrivateDirectory,
    store: Seq<PrivateNode>,
    root: PrivateDirectory,
    segs: Seq<Seq<char>>,
)
    requires
        path_follows(path, tail, store, root, segs),
    ensures
        path.len() == segs.len() ==> !blocked_by_file(store, root, segs),
        path.len() < segs.len() && entry_of(tail.entries_view(), segs[path.len() as int]) is None ==> {
            &&& !blocked_by_file(store, root, segs)
            &&& dir_entries_at(store, root, segs) is None
            &&& forall|j: int| path.len() < j <= segs.len() ==> #[trigger] dir_entries_at(store, root, segs.subrange(0, j)) is None
            &&& forall|j: int| path.len() < j <= segs.len() ==> #[trigger] resolve_from(store, root, segs.subrange(0, j)) is None
        },
        path.len() < segs.len() && (entry_of(tail.entries_view(), segs[path.len() as int]) matches Some(e)
            && e.index < store.len() && store[e.index as int] is File) ==> blocked_by_file(store, root, segs),
{
    let k = path.len() as int;
    lemma_follows_tail(path, tail, store, root, segs);
    assert forall|j: int| 1 <= j <= k implies !(#[trigger] resolve_from(store, root, segs.subrange(0, j)) matches Some(i)
        && store[i as int] is File) by {
        lemma_follows_levels_dirs(path, tail, store, root, segs, j);
    }
    if k < segs.len() {
        assert(segs.subrange(0, k + 1) =~= segs.subrange(0, k).push(segs[k]));
        lemma_resolve_push(store, root, segs.subrange(0, k), segs[k]);
        if entry_of(tail.entries_view(), segs[k]) is None {
            assert forall|j: int| k + 1 <= j <= segs.len() implies #[trigger] resolve_from(store, root, segs.subrange(0, j)) is None by {
                lemma_resolve_none_extends(store, root, segs.subrange(0, k + 1), segs.subrange(k + 1, j));
                assert(segs.subrange(0, k + 1) + segs.subrange(k + 1, j) =~= segs.subrange(0, j));
            }
            assert(segs.subrange(0, segs.len() as int) =~= segs);
            assert(resolve_from(store, root, segs.subrange(0, segs.len() as int)) is None);
            reveal(dir_entries_at);
            assert forall|j: int| k < j <= segs.len() implies #[trigger] dir_entries_at(store, root, segs.subrange(0, j)) is None by {
                assert(resolve_from(store, root, segs.subrange(0, j)) is None);
            }
        }
    } else {
        assert(segs.subrange(0, k) =~= segs);
    }
}

/// The entries of the directory at `path`, or none where there is no such directory.
pub open spec fn entries_or_empty(s: Seq<PrivateNode>, root: PrivateDirectory, path: Seq<Seq<char>>) -> Map<Seq<char>, PrivateRef> {
    match dir_entries_at(s, root, path) {
        Some(m) => m,
        None => Map::empty(),
    }
}

/// `p` and `q` agree before segment `k` and differ there.
pub open spec fn diverges_at(p: Seq<Seq<char>>, q: Seq<Seq<char>>, k: int) -> bool {
    0 <= k < p.len() && k < q.len() && p.subrange(0, k) == q.subrange(0, k) && p[k] != q[k]
}

/// `p` and `q` agree up to some segment where they differ.
pub open spec fn diverges(p: Seq<Seq<char>>, q: Seq<Seq<char>>) -> bool {
    exists|k: int| #[trigger] diverges_at(p, q, k)
}

/// A path that leaves a written path at depth `k` resolves in the new tree as
/// it did in the old one: the directory at depth `k` stands for the old one
/// (empty where there was none), and the new tree leads to it unchanged.
proof fn lemma_write_frame(
    store0: Seq<PrivateNode>,
    store2: Seq<PrivateNode>,
    root: PrivateDirectory,
    level: PrivateDirectory,
    new_level: PrivateDirectory,
    dp: Seq<Seq<char>>,
    p: Seq<Seq<char>>,
    k: int,
)
    requires
        store_wf(store0),
        extends(store2, store0),
        0 <= k <= dp.len(),
        k < p.len(),
        p.subrange(0, k) == dp.subrange(0, k),
        dir_ok(level, store0.len()),
        level.entries_view() == entries_or_empty(store0, root, dp.subrange(0, k)),
        entry_of(new_level.entries_view(), p[k]) == entry_of(level.entries_view(), p[k]),
    ensures
        resolve_from(store2, new_level, p.subrange(k, p.len() as int)) == resolve_from(store0, root, p),
{
    let rest = p.subrange(k, p.len() as int);
    assert(rest[0] == p[k]);
    lemma_resolve_same_entry(store2, new_level, level, rest);
    lemma_resolve_grow(store0, store2, level, rest);
    if dir_entries_at(store0, root, dp.subrange(0, k)) is Some {
        lemma_resolve_through(store0, root, p, k, level);
    } else {
        reveal(dir_entries_at);
        assert(k >= 1);
        lemma_resolve_through_none(store0, root, p, k);
    }
}

/// A rebuilt path keeps every path that leaves it: the levels stand for the
/// old directories (empty where there was none), the end changed at most the
/// entry `name`, and the new tree was rebuilt from them.
proof fn lemma_path_frame(
    store0: Seq<PrivateNode>,
    store2: Seq<PrivateNode>,
    store3: Seq<PrivateNode>,
    root0: PrivateDirectory,
    root: PrivateDirectory,
    path: Seq<(PrivateDirectory, String)>,
    tail0: PrivateDirectory,
    new_tail: PrivateDirectory,
    dp: Seq<Seq<char>>,
    name: Seq<char>,
    p: Seq<Seq<char>>,
)
    requires
        store_wf(store0),
        extends(store2, store0),
        segments_of(path) == dp,
        forall|i: int| 0 <= i <= path.len() ==> #[trigger] level_of(path, tail0, i).wf()
            && dir_ok(level_of(path, tail0, i), store0.len()),
        forall|i: int| 0 <= i <= path.len() ==> (#[trigger] level_of(path, tail0, i)).entries_view()
            == entries_or_empty(store0, root0, dp.subrange(0, i)),
        forall|x: Seq<char>| x != name ==> #[trigger] entry_of(new_tail.entries_view(), x) == entry_of(tail0.entries_view(), x),
        forall|q: Seq<Seq<char>>, k: int| #[trigger] leaves_at(q, dp, k) ==>
            resolve_from(store3, root, q) == resolve_from(store2, level_of(path, new_tail, k), q.subrange(k, q.len() as int)),
        diverges(p, dp.push(name)),
    ensures
        resolve_from(store3, root, p) == resolve_from(store0, root0, p),
{
    let segs = dp.push(name);
    assert(path.len() == dp.len()) by {
        assert(segments_of(path).len() == path.len());
    }
    let k = choose|k: int| #[trigger] diverges_at(p, segs, k);
    assert(p.subrange(0, k) == dp.subrange(0, k)) by {
        assert(segs.subrange(0, k) =~= dp.subrange(0, k));
    }
    assert(leaves_at(p, dp, k));
    let level = level_of(path, tail0, k);
    assert(level.wf());
    let new_level = level_of(path, new_tail, k);
    if k < dp.len() {
        assert(new_level == level);
    } else {
        assert(p[k] != name);
        assert(entry_of(new_tail.entries_view(), p[k]) == entry_of(tail0.entries_view(), p[k]));
    }
    lemma_write_frame(store0, store2, root0, level, new_level, dp, p, k);
}

/// A directory path that leaves a changed path is the same directory after the change.
proof fn lemma_dir_entries_kept(
    s0: Seq<PrivateNode>,
    s1: Seq<PrivateNode>,
    r0: PrivateDirectory,
    r1: PrivateDirectory,
    changed: Seq<Seq<char>>,
    dp: Seq<Seq<char>>,
)
    requires
        extends(s1, s0),
        forall|p: Seq<Seq<char>>| #[trigger] diverges(p, changed) ==> resolve_from(s1, r1, p) == resolve_from(s0, r0, p),
        diverges(dp, changed),
    ensures
        dir_entries_at(s1, r1, dp) == dir_entries_at(s0, r0, dp),
{
    reveal(dir_entries_at);
    let k = choose|k: int| #[trigger] diverges_at(dp, changed, k);
    assert(dp.len() > 0);
    lemma_resolve_bound(s0, r0, dp);
    if resolve_from(s0, r0, dp) is Some {
        let x = resolve_from(s0, r0, dp).unwrap();
        assert(s1[x as int] == s0[x as int]) by {
            assert(s1.subrange(0, s0.len() as int)[x as int] == s1[x as int]);
        }
    }
}

/// A path that could not be followed to its end names no directory.
proof fn lemma_incomplete_none(
    path: Seq<(PrivateDirectory, String)>,
    tail: PrivateDirectory,
    store: Seq<PrivateNode>,
    root: PrivateDirectory,
    segs: Seq<Seq<char>>,
)
    requires
        path_follows(path, tail, store, root, segs),
        path.len() < segs.len(),
        entry_of(tail.entries_view(), segs[path.len() as int]) is None || (entry_of(tail.entries_view(), segs[path.len() as int]) matches Some(e)
            && e.index < store.len() && store[e.index as int] is File),
    ensures
        dir_entries_at(store, root, segs) is None,
{
    lemma_blocked_cases(path, tail, store, root, segs);
    lemma_follows_tail(path, tail, store, root, segs);
    let k = path.len() as int;
    if entry_of(tail.entries_view(), segs[k]) is Some {
        assert(segs.subrange(0, k + 1) =~= segs.subrange(0, k).push(segs[k]));
        lemma_resolve_push(store, root, segs.subrange(0, k), segs[k]);
        if k + 1 < segs.len() {
            lemma_resolve_none_extends(store, root, segs.subrange(0, k + 1), segs.subrange(k + 1, segs.len() as int));
            assert(segs.subrange(0, k + 1) + segs.subrange(k + 1, segs.len() as int) =~= segs);
        } else {
            assert(segs.subrange(0, k + 1) =~= segs);
        }
        reveal(dir_entries_at);
    }
}

/// What a successful write of `content` at `path` guarantees: the store only
/// grew, the file reads back, and every path that leaves `path` resolves as before.
pub open spec fn write_post(
    s0: Seq<PrivateNode>,
    r0: PrivateDirectory,
    path: Seq<Seq<char>>,
    content: Seq<u8>,
    s1: Seq<PrivateNode>,
    r1: PrivateDirectory,
) -> bool {
    &&& extends(s1, s0)
    &&& write_error(s0, r0, path) is None
    &&& read_spec(s1, r1, path) == Ok::<Seq<u8>, FsError>(content)
    &&& forall|x: Seq<Seq<char>>| #[trigger] diverges(x, path) ==> resolve_from(s1, r1, x) == resolve_from(s0, r0, x)
}

/// A write to one path followed by a write to a path that leaves it: both
/// files read back what was written to them.
pub proof fn lemma_disjoint_writes(
    s0: Seq<PrivateNode>,
    r0: PrivateDirectory,
    p: Seq<Seq<char>>,
    c1: Seq<u8>,
    s1: Seq<PrivateNode>,
    r1: PrivateDirectory,
    q: Seq<Seq<char>>,
    c2: Seq<u8>,
    s2: Seq<PrivateNode>,
    r2: PrivateDirectory,
)
    requires
        write_post(s0, r0, p, c1, s1, r1),
        write_post(s1, r1, q, c2, s2, r2),
        diverges(p, q),
    ensures
        read_spec(s2, r2, p) == Ok::<Seq<u8>, FsError>(c1),
        read_spec(s2, r2, q) == Ok::<Seq<u8>, FsError>(c2),
{
    assert(resolve_from(s2, r2, p) == resolve_from(s1, r1, p));
    lemma_resolve_bound(s1, r1, p);
    let i = resolve_from(s1, r1, p).unwrap();
    assert(s2[i as int] == s1[i as int]) by {
        assert(s2.subrange(0, s1.len() as int)[i as int] == s2[i as int]);
    }
}

/// The revision that stood at `p` before, if any.
pub open spec fn old_ref(s: Seq<PrivateNode>, root: PrivateDirectory, p: Seq<Seq<char>>) -> Option<PrivateRef> {
    match resolve_from(s, root, p) {
        Some(j) => Some(PrivateRef { index: j }),
        None => None,
    }
}

/// The directory at depth `i` of a path either was loaded from the revision
/// that stood there, or is new and empty-handed: no link, created at `time`.
pub open spec fn level_origin(s: Seq<PrivateNode>, root: PrivateDirectory, segs: Seq<Seq<char>>, level: PrivateDirectory, i: int, time: i64) -> bool {
    match resolve_from(s, root, segs.subrange(0, i)) {
        Some(j) => level.persisted_as_view() == Some(PrivateRef { index: j }),
        None => level.persisted_as_view() is None && level.previous_view() is None
            && level.metadata_view() == (Metadata { kind: NodeKind::Dir, created: time, modified: time }),
    }
}

/// The revision now at `p` is a directory that links back to the revision
/// that stood at `p` before, if any.
pub open spec fn advanced_at(s0: Seq<PrivateNode>, r0: PrivateDirectory, s1: Seq<PrivateNode>, r1: PrivateDirectory, p: Seq<Seq<char>>) -> bool {
    match resolve_from(s1, r1, p) {
        Some(x) => x < s1.len() && match s1[x as int] {
            PrivateNode::Dir(d) => d.previous_view() == old_ref(s0, r0, p),
            PrivateNode::File(_) => false,
        },
        None => false,
    }
}

/// Every directory on `segs`, the top one included, got one new revision
/// linked to the one it replaced.
pub open spec fn ancestors_advanced(s0: Seq<PrivateNode>, r0: PrivateDirectory, s1: Seq<PrivateNode>, r1: PrivateDirectory, segs: Seq<Seq<char>>) -> bool {
    &&& r1.previous_view() == next_previous(r0)
    &&& forall|i: int| 1 <= i <= segs.len() ==> #[trigger] advanced_at(s0, r0, s1, r1, segs.subrange(0, i))
}

/// An existing directory of a followed path was loaded from the revision at its place.
proof fn lemma_follows_origin(
    path: Seq<(PrivateDirectory, String)>,
    tail: PrivateDirectory,
    store: Seq<PrivateNode>,
    root: PrivateDirectory,
    segs: Seq<Seq<char>>,
    i: int,
    time: i64,
)
    requires
        path_follows(path, tail, store, root, segs),
        1 <= i <= path.len(),
    ensures
        level_origin(store, root, segs, level_of(path, tail, i), i, time),
        resolve_from(store, root, segs.subrange(0, i)) is Some,
{
    reveal(path_follows);
    reveal(dir_entries_at);
    assert(segs.subrange(0, i) =~= segs.subrange(0, i - 1).push(segs[i - 1]));
    lemma_resolve_push(store, root, segs.subrange(0, i - 1), segs[i - 1]);
    assert(dir_entries_at(store, root, segs.subrange(0, i - 1)) == Some(level_of(path, tail, i - 1).entries_view()));
    assert(dir_entries_at(store, root, segs.subrange(0, i)) == Some(level_of(path, tail, i).entries_view()));
    assert(dir_ok(level_of(path, tail, i - 1), store.len()));
}

/// From how the levels came to be and how they were stored, every directory
/// on the path advanced one revision.
proof fn lemma_ancestors(
    s0: Seq<PrivateNode>,
    s1: Seq<PrivateNode>,
    root0: PrivateDirectory,
    root: PrivateDirectory,
    path: Seq<(PrivateDirectory, String)>,
    tail0: PrivateDirectory,
    new_tail: PrivateDirectory,
    segs: Seq<Seq<char>>,
    time: i64,
)
    requires
        segments_of(path) == segs,
        forall|i: int| 1 <= i <= path.len() ==> #[trigger] stored_at(s1, root, path, new_tail, segs, 0, i),
        path.len() > 0 ==> rebuilt_level(root, path[0].0, Some(segs[0])),
        path.len() == 0 ==> root == new_tail,
        new_tail.previous_view() == next_previous(tail0),
        forall|i: int| 1 <= i <= path.len() ==> #[trigger] level_origin(s0, root0, segs, level_of(path, tail0, i), i, time),
        level_of(path, tail0, 0).persisted_as_view() == root0.persisted_as_view(),
        level_of(path, tail0, 0).previous_view() == root0.previous_view(),
    ensures
        ancestors_advanced(s0, root0, s1, root, segs),
{
    let n = path.len() as int;
    assert(segs.len() == n) by {
        assert(segments_of(path).len() == path.len());
    }
    assert(next_previous(level_of(path, tail0, 0)) == next_previous(root0));
    if n > 0 {
        assert(level_of(path, tail0, 0) == path[0].0);
    } else {
        assert(level_of(path, tail0, 0) == tail0);
    }
    assert forall|i: int| 1 <= i <= segs.len() implies #[trigger] advanced_at(s0, root0, s1, root, segs.subrange(0, i)) by {
        assert(stored_at(s1, root, path, new_tail, segs, 0, i));
        assert(level_origin(s0, root0, segs, level_of(path, tail0, i), i, time));
        assert(segs.subrange(0, i) =~= segs.subrange(0, i));
        if i < n {
            assert(level_of(path, new_tail, i) == level_of(path, tail0, i));
            assert(next_segment(segs, i) == Some(segs[i]));
        } else {
            assert(level_of(path, new_tail, i) == new_tail);
            assert(level_of(path, tail0, i) == tail0);
            assert(next_segment(segs, i) is None);
        }
    }
}

/// The revision now at `p` is a file that links back to the revision that
/// stood at `p` before, if any.
pub open spec fn file_advanced_at(s0: Seq<PrivateNode>, r0: PrivateDirectory, s1: Seq<PrivateNode>, r1: PrivateDirectory, p: Seq<Seq<char>>) -> bool {
    match resolve_from(s1, r1, p) {
        Some(x) => x < s1.len() && match s1[x as int] {
            PrivateNode::File(f) => f.previous_view() == old_ref(s0, r0, p),
            PrivateNode::Dir(_) => false,
        },
        None => false,
    }
}

/// The directory now at `p`, with its metadata.
pub open spec fn metadata_at(s: Seq<PrivateNode>, r: PrivateDirectory, p: Seq<Seq<char>>) -> Option<Metadata> {
    match resolve_from(s, r, p) {
        Some(x) => if x < s.len() { Some(metadata_of(s[x as int])) } else { None },
        None => None,
    }
}

/// The directory holds `name` and otherwise what `before` held.
pub open spec fn prefix_grew(now: Option<Map<Seq<char>, PrivateRef>>, before: Map<Seq<char>, PrivateRef>, name: Seq<char>) -> bool {
    match now {
        Some(m) => m.contains_key(name) && m.remove(name) == before.remove(name),
        None => false,
    }
}

/// After a directory path was made: each directory that was missing is new,
/// and each directory on the path holds what it held before plus the entry
/// for the next segment.
pub open spec fn prefixes_kept(s0: Seq<PrivateNode>, r0: PrivateDirectory, s1: Seq<PrivateNode>, r1: PrivateDirectory, segs: Seq<Seq<char>>, time: i64) -> bool {
    &&& forall|i: int| 1 <= i <= segs.len() && #[trigger] resolve_from(s0, r0, segs.subrange(0, i)) is None ==>
        metadata_at(s1, r1, segs.subrange(0, i)) == Some(Metadata { kind: NodeKind::Dir, created: time, modified: time })
    &&& forall|i: int| 0 <= i < segs.len() ==> prefix_grew(#[trigger] dir_entries_at(s1, r1, segs.subrange(0, i)), entries_or_empty(s0, r0, segs.subrange(0, i)), segs[i])
}

proof fn lemma_prefixes_kept(
    s0: Seq<PrivateNode>,
    s1: Seq<PrivateNode>,
    root0: PrivateDirectory,
    root: PrivateDirectory,
    path: Seq<(PrivateDirectory, String)>,
    tail0: PrivateDirectory,
    new_tail: PrivateDirectory,
    segs: Seq<Seq<char>>,
    time: i64,
)
    requires
        segments_of(path) == segs,
        forall|i: int| 1 <= i <= path.len() ==> #[trigger] stored_at(s1, root, path, new_tail, segs, 0, i),
        path.len() > 0 ==> rebuilt_level(root, path[0].0, Some(segs[0])),
        new_tail.metadata_view() == tail0.metadata_view(),
        forall|i: int| 1 <= i <= path.len() ==> #[trigger] level_origin(s0, root0, segs, level_of(path, tail0, i), i, time),
        forall|i: int| 0 <= i <= path.len() ==> (#[trigger] level_of(path, tail0, i)).entries_view()
            == entries_or_empty(s0, root0, segs.subrange(0, i)),
    ensures
        prefixes_kept(s0, root0, s1, root, segs, time),
{
    reveal(dir_entries_at);
    let n = path.len() as int;
    assert(segs.len() == n) by {
        assert(segments_of(path).len() == path.len());
    }
    assert forall|i: int| 1 <= i <= segs.len() && #[trigger] resolve_from(s0, root0, segs.subrange(0, i)) is None implies
        metadata_at(s1, root, segs.subrange(0, i)) == Some(Metadata { kind: NodeKind::Dir, created: time, modified: time }) by {
        assert(stored_at(s1, root, path, new_tail, segs, 0, i));
        assert(level_origin(s0, root0, segs, level_of(path, tail0, i), i, time));
        if i < n {
            assert(level_of(path, new_tail, i) == level_of(path, tail0, i));
        } else {
            assert(level_of(path, new_tail, i) == new_tail);
            assert(level_of(path, tail0, i) == tail0);
        }
    }
    assert forall|i: int| 0 <= i < segs.len() implies prefix_grew(#[trigger] dir_entries_at(s1, root, segs.subrange(0, i)), entries_or_empty(s0, root0, segs.subrange(0, i)), segs[i]) by {
        assert(level_of(path, tail0, i).entries_view() == entries_or_empty(s0, root0, segs.subrange(0, i)));
        assert(level_of(path, new_tail, i) == level_of(path, tail0, i));
        assert(next_segment(segs, i) == Some(segs[i]));
        if i == 0 {
            assert(level_of(path, tail0, 0) == path[0].0);
        } else {
            assert(stored_at(s1, root, path, new_tail, segs, 0, i));
        }
    }
}

/// `d` is the revision stored for a directory of a rebuilt path: the old
/// directory readied for a change, with its entry for the next segment
/// replaced; at the end of the path, the end directory as given.
pub open spec fn rebuilt_level(d: PrivateDirectory, level: PrivateDirectory, next_seg: Option<Seq<char>>) -> bool {
    &&& d.metadata_view() == level.metadata_view()
    &&& match next_seg {
        Some(s) => d.entries_view().contains_key(s) && d.entries_view().remove(s) == level.entries_view().remove(s)
            && d.previous_view() == next_previous(level) && d.persisted_as_view() is None,
        None => d.entries_view() == level.entries_view() && d.previous_view() == level.previous_view(),
    }
}

/// The segment after depth `i`, if the path goes on.
pub open spec fn next_segment(segs: Seq<Seq<char>>, i: int) -> Option<Seq<char>> {
    if i < segs.len() {
        Some(segs[i])
    } else {
        None
    }
}

/// Following the path from depth `j` to depth `i` reaches the stored rebuilt revision of depth `i`.
pub open spec fn stored_at(
    cur: Seq<PrivateNode>,
    working: PrivateDirectory,
    orig: Seq<(PrivateDirectory, String)>,
    tail: PrivateDirectory,
    segs: Seq<Seq<char>>,
    j: int,
    i: int,
) -> bool {
    match resolve_from(cur, working, segs.subrange(j, i)) {
        Some(x) => x < cur.len() && match cur[x as int] {
            PrivateNode::Dir(d) => rebuilt_level(d, level_of(orig, tail, i), next_segment(segs, i)),
            PrivateNode::File(_) => false,
        },
        None => false,
    }
}

#[verifier::opaque]
pub open spec fn levels_stored(
    cur: Seq<PrivateNode>,
    working: PrivateDirectory,
    orig: Seq<(PrivateDirectory, String)>,
    tail: PrivateDirectory,
    segs: Seq<Seq<char>>,
    j: int,
) -> bool {
    forall|i: int| j < i <= segs.len() ==> #[trigger] stored_at(cur, working, orig, tail, segs, j, i)
}

/// Following a first segment to a stored directory, then the rest from there.
pub proof fn lemma_resolve_cons(s: Seq<PrivateNode>, d: PrivateDirectory, x: Seq<char>, rest: Seq<Seq<char>>, d2: PrivateDirectory)
    requires
        entry_of(d.entries_view(), x) matches Some(e) && e.index < s.len() && s[e.index as int] == PrivateNode::Dir(d2),
        rest.len() > 0,
    ensures
        resolve_from(s, d, seq![x] + rest) == resolve_from(s, d2, rest),
{
    let p = seq![x] + rest;
    assert(p[0] == x);
    assert(p.drop_first() =~= rest);
}

#[verifier::rlimit(50)]
proof fn lemma_levels_step(
    store1: Seq<PrivateNode>,
    store2: Seq<PrivateNode>,
    old_w: PrivateDirectory,
    new_w: PrivateDirectory,
    orig: Seq<(PrivateDirectory, String)>,
    tail: PrivateDirectory,
    segs: Seq<Seq<char>>,
    j: int,
    w: PrivateRef,
)
    requires
        1 <= j <= segs.len(),
        store_wf(store1),
        extends(store2, store1),
        w.index == store1.len(),
        w.index < store2.len(),
        store2[w.index as int] == PrivateNode::Dir(old_w),
        dir_refs_below(old_w, store1.len()),
        rebuilt_level(old_w, level_of(orig, tail, j), next_segment(segs, j)),
        entry_of(new_w.entries_view(), segs[j - 1]) == Some(w),
        levels_stored(store1, old_w, orig, tail, segs, j),
    ensures
        levels_stored(store2, new_w, orig, tail, segs, j - 1),
{
    reveal(levels_stored);
    assert forall|i: int| j - 1 < i <= segs.len() implies #[trigger] stored_at(store2, new_w, orig, tail, segs, j - 1, i) by {
        if i == j {
            let p = segs.subrange(j - 1, i);
            assert(p =~= seq![segs[j - 1]]);
            assert(p[0] == segs[j - 1]);
        } else {
            let rest = segs.subrange(j, i);
            assert(segs.subrange(j - 1, i) =~= seq![segs[j - 1]] + rest);
            lemma_resolve_cons(store2, new_w, segs[j - 1], rest, old_w);
            lemma_resolve_grow(store1, store2, old_w, rest);
            assert(stored_at(store1, old_w, orig, tail, segs, j, i));
            let x = resolve_from(store1, old_w, rest).unwrap();
            assert(store2[x as int] == store1[x as int]) by {
                assert(store2.subrange(0, store1.len() as int)[x as int] == store2[x as int]);
            }
        }
    }
}

/// `p` follows `segs` for `k` segments and then leaves it, or goes on past its end.
pub open spec fn leaves_at(p: Seq<Seq<char>>, segs: Seq<Seq<char>>, k: int) -> bool {
    &&& 0 <= k <= segs.len()
    &&& k < p.len()
    &&& p.subrange(0, k) == segs.subrange(0, k)
    &&& k < segs.len() ==> p[k] != segs[k]
}

/// Paths that leave the rebuilt part of a path resolve from `working` as they
/// did from the directory where they leave it.
#[verifier::opaque]
pub open spec fn frame_from(
    cur: Seq<PrivateNode>,
    base: Seq<PrivateNode>,
    working: PrivateDirectory,
    orig: Seq<(PrivateDirectory, String)>,
    tail: PrivateDirectory,
    segs: Seq<Seq<char>>,
    j: int,
) -> bool {
    forall|p: Seq<Seq<char>>, k: int| #[trigger] leaves_at(p, segs.subrange(j, segs.len() as int), k) ==>
        resolve_from(cur, working, p) == resolve_from(base, level_of(orig, tail, j + k), p.subrange(k, p.len() as int))
}

proof fn lemma_frame_start(
    base: Seq<PrivateNode>,
    orig: Seq<(PrivateDirectory, String)>,
    tail: PrivateDirectory,
    segs: Seq<Seq<char>>,
)
    requires
        segs.len() == orig.len(),
    ensures
        frame_from(base, base, tail, orig, tail, segs, segs.len() as int),
{
    reveal(frame_from);
    let n = segs.len() as int;
    assert forall|p: Seq<Seq<char>>, k: int| #[trigger] leaves_at(p, segs.subrange(n, n), k) implies
        resolve_from(base, tail, p) == resolve_from(base, level_of(orig, tail, n + k), p.subrange(k, p.len() as int)) by {
        assert(k == 0);
        assert(p.subrange(0, p.len() as int) =~= p);
    }
}

#[verifier::rlimit(50)]
proof fn lemma_frame_step(
    store0: Seq<PrivateNode>,
    store1: Seq<PrivateNode>,
    store2: Seq<PrivateNode>,
    old_w: PrivateDirectory,
    new_w: PrivateDirectory,
    orig: Seq<(PrivateDirectory, String)>,
    tail: PrivateDirectory,
    segs: Seq<Seq<char>>,
    j: int,
    w: PrivateRef,
)
    requires
        1 <= j <= segs.len(),
        segs.len() == orig.len(),
        store_wf(store0),
        store_wf(store1),
        extends(store1, store0),
        extends(store2, store1),
        extends(store2, store0),
        w.index == store1.len(),
        w.index < store2.len(),
        store2[w.index as int] == PrivateNode::Dir(old_w),
        dir_refs_below(old_w, store1.len()),
        dir_refs_below(level_of(orig, tail, j - 1), store0.len()),
        new_w.entries_view() == level_of(orig, tail, j - 1).entries_view().insert(segs[j - 1], w),
        frame_from(store1, store0, old_w, orig, tail, segs, j),
    ensures
        frame_from(store2, store0, new_w, orig, tail, segs, j - 1),
{
    reveal(frame_from);
    let dir0 = level_of(orig, tail, j - 1);
    let rest0 = segs.subrange(j - 1, segs.len() as int);
    let rest1 = segs.subrange(j, segs.len() as int);
    assert forall|p: Seq<Seq<char>>, k: int| #[trigger] leaves_at(p, rest0, k) implies
        resolve_from(store2, new_w, p) == resolve_from(store0, level_of(orig, tail, j - 1 + k), p.subrange(k, p.len() as int)) by {
        if k == 0 {
            assert(p[0] != segs[j - 1]);
            lemma_resolve_same_entry(store2, new_w, dir0, p);
            lemma_resolve_grow(store0, store2, dir0, p);
            assert(p.subrange(0, p.len() as int) =~= p);
        } else {
            assert(p.subrange(0, k)[0] == rest0.subrange(0, k)[0]);
            assert(p[0] == segs[j - 1]);
            let q = p.drop_first();
            lemma_resolve_grow(store1, store2, old_w, q);
            assert(q.subrange(0, k - 1) =~= rest1.subrange(0, k - 1)) by {
                assert forall|i: int| 0 <= i < k - 1 implies #[trigger] q.subrange(0, k - 1)[i] == rest1.subrange(0, k - 1)[i] by {
                    assert(p.subrange(0, k)[i + 1] == rest0.subrange(0, k)[i + 1]);
                }
            }
            assert(leaves_at(q, rest1, k - 1));
            assert(q.subrange(k - 1, q.len() as int) =~= p.subrange(k, p.len() as int));
            assert(j + (k - 1) == j - 1 + k);
        }
    }
}

/// The revision a directory becomes when it is readied for a change.
pub open spec fn next_previous(d: PrivateDirectory) -> Option<PrivateRef> {
    if d.persisted_as_view() is Some {
        d.persisted_as_view()
    } else {
        d.previous_view()
    }
}

/// Resolution does not change when the store grows.
pub proof fn lemma_resolve_grow(s: Seq<PrivateNode>, s2: Seq<PrivateNode>, d: PrivateDirectory, p: Seq<Seq<char>>)
    requires
        store_wf(s),
        extends(s2, s),
        dir_refs_below(d, s.len()),
    ensures
        resolve_from(s2, d, p) == resolve_from(s, d, p),
        dir_entries_at(s2, d, p) == dir_entries_at(s, d, p),
        resolve_from(s, d, p) matches Some(i) ==> i < s.len(),
    decreases p.len(),
{
    reveal(dir_entries_at);
    if p.len() > 0 {
        match entry_of(d.entries_view(), p[0]) {
            None => {},
            Some(r) => {
                assert(r.index < s.len());
                assert(s2[r.index as int] == s[r.index as int]) by {
                    assert(s2.subrange(0, s.len() as int)[r.index as int] == s2[r.index as int]);
                }
                if p.len() > 1 {
                    match s[r.index as int] {
                        PrivateNode::Dir(d2) => {
                            assert(refs_below(s[r.index as int], r.index as nat));
                            lemma_resolve_grow(s, s2, d2, p.drop_first());
                        },
                        PrivateNode::File(_) => {},
                    }
                }
            },
        }
        match resolve_from(s, d, p) {
            Some(i) => {
                assert(s2[i as int] == s[i as int]) by {
                    assert(s2.subrange(0, s.len() as int)[i as int] == s2[i as int]);
                }
            },
            None => {},
        }
    }
}

/// The directories along a path, each with the segment that leads to the next,
/// and the directory at its end.
pub struct PathNodes {
    pub path: Vec<(PrivateDirectory, String)>,
    pub tail: PrivateDirectory,
}

/// How far a path could be followed.
pub enum PathNodesResult {
    /// Every segment named a directory.
    Complete(PathNodes),
    /// The segment was not found in the last directory reached.
    MissingLink(PathNodes, String),
    /// The segment named a file.
    NotADirectory(PathNodes, String),
}

/// The directory at depth `i` of a path and its end.
pub open spec fn level_of(path: Seq<(PrivateDirectory, String)>, tail: PrivateDirectory, i: int) -> PrivateDirectory {
    if i < path.len() {
        path[i].0
    } else {
        tail
    }
}

/// The segments of a path.
pub open spec fn segments_of(path: Seq<(PrivateDirectory, String)>) -> Seq<Seq<char>> {
    path.map_values(|e: (PrivateDirectory, String)| e.1@)
}

/// The path and its end are the directories that `segs` leads through from
/// `root` in `store`, as loaded from there.
#[verifier::opaque]
pub open spec fn path_follows(
    path: Seq<(PrivateDirectory, String)>,
    tail: PrivateDirectory,
    store: Seq<PrivateNode>,
    root: PrivateDirectory,
    segs: Seq<Seq<char>>,
) -> bool {
    let k = path.len();
    &&& k <= segs.len()
    &&& segments_of(path) == segs.subrange(0, k as int)
    &&& forall|i: int| 0 <= i <= k ==> #[trigger] level_of(path, tail, i).wf()
    &&& forall|i: int| 0 <= i <= k ==> dir_ok(#[trigger] level_of(path, tail, i), store.len())
    &&& forall|i: int| 0 <= i <= k ==> dir_entries_at(store, root, segs.subrange(0, i))
        == Some(#[trigger] level_of(path, tail, i).entries_view())
    &&& level_of(path, tail, 0).persisted_as_view() == root.persisted_as_view()
    &&& level_of(path, tail, 0).previous_view() == root.previous_view()
    &&& level_of(path, tail, 0).metadata_view() == root.metadata_view()
    &&& forall|i: int| 1 <= i <= k ==> (#[trigger] level_of(path, tail, i)).persisted_as_view()
        == entry_of(level_of(path, tail, i - 1).entries_view(), segs[i - 1])
}

proof fn lemma_follows_start(tail: PrivateDirectory, store: Seq<PrivateNode>, root: PrivateDirectory, segs: Seq<Seq<char>>)
    requires
        tail.wf(),
        dir_ok(tail, store.len()),
        tail.entries_view() == root.entries_view(),
        tail.persisted_as_view() == root.persisted_as_view(),
        tail.previous_view() == root.previous_view(),
        tail.metadata_view() == root.metadata_view(),
    ensures
        path_follows(Seq::empty(), tail, store, root, segs),
{
    reveal(path_follows);
    reveal(dir_entries_at);
    let path = Seq::<(PrivateDirectory, String)>::empty();
    assert(segments_of(path) =~= segs.subrange(0, 0));
    assert(segs.subrange(0, 0) =~= Seq::<Seq<char>>::empty());
    assert(level_of(path, tail, 0) == tail);
}

#[verifier::rlimit(50)]
proof fn lemma_follows_step(
    path: Seq<(PrivateDirectory, String)>,
    tail: PrivateDirectory,
    store: Seq<PrivateNode>,
    root: PrivateDirectory,
    segs: Seq<Seq<char>>,
    seg: String,
    dir: PrivateDirectory,
)
    requires
        store_wf(store),
        path_follows(path, tail, store, root, segs),
        path.len() < segs.len(),
        seg@ == segs[path.len() as int],
        entry_of(tail.entries_view(), seg@) matches Some(e) && e.index < store.len()
            && same_revision(PrivateNode::Dir(dir), store[e.index as int])
            && dir.persisted_as_view() == Some(e)
            && dir_refs_below(dir, e.index as nat),
    ensures
        path_follows(path.push((tail, seg)), dir, store, root, segs),
        dir.wf(),
        dir_ok(dir, store.len()),
{
    reveal(path_follows);
    let i = path.len() as int;
    let np = path.push((tail, seg));
    assert(segments_of(np) =~= segs.subrange(0, i + 1)) by {
        assert(segments_of(np) =~= segments_of(path).push(seg@));
    }
    let e = entry_of(tail.entries_view(), seg@).unwrap();
    assert(level_of(path, tail, i) == tail);
    assert(level_of(np, dir, i + 1) == dir);
    assert(dir_entries_at(store, root, segs.subrange(0, i)) == Some(tail.entries_view()));
    assert(segs.subrange(0, i + 1) =~= segs.subrange(0, i).push(segs[i]));
    lemma_dir_entries_push(store, root, segs.subrange(0, i), segs[i]);
    lemma_dir_ok_mono(dir, e.index as nat, store.len());
    assert forall|j: int| 0 <= j <= i implies level_of(np, dir, j) == level_of(path, tail, j) by {}
    assert forall|j: int| 0 <= j <= i + 1 implies #[trigger] level_of(np, dir, j).wf() by {
        if j <= i {
            assert(level_of(np, dir, j) == level_of(path, tail, j));
        }
    }
    assert forall|j: int| 0 <= j <= i + 1 implies dir_ok(#[trigger] level_of(np, dir, j), store.len()) by {
        if j <= i {
            assert(level_of(np, dir, j) == level_of(path, tail, j));
        }
    }
    assert forall|j: int| 0 <= j <= i + 1 implies dir_entries_at(store, root, segs.subrange(0, j))
        == Some(#[trigger] level_of(np, dir, j).entries_view()) by {
        if j <= i {
            assert(level_of(np, dir, j) == level_of(path, tail, j));
        }
    }
    assert forall|j: int| 1 <= j <= i + 1 implies (#[trigger] level_of(np, dir, j)).persisted_as_view()
        == entry_of(level_of(np, dir, j - 1).entries_view(), segs[j - 1]) by {
        if j <= i {
            assert(level_of(np, dir, j) == level_of(path, tail, j));
            assert(level_of(np, dir, j - 1) == level_of(path, tail, j - 1));
        } else {
            assert(level_of(np, dir, j - 1) == tail);
            assert(level_of(path, tail, i) == tail);
        }
    }
    assert(level_of(np, dir, 0) == level_of(path, tail, 0));
}

impl PathNodes {
    pub open spec fn follows(&self, store: Seq<PrivateNode>, root: PrivateDirectory, segs: Seq<Seq<char>>) -> bool {
        path_follows(self.path@, self.tail, store, root, segs)
    }
}

impl PrivateDirectory {
    /// The revision stored under `segment`, loaded from the store.
    pub fn lookup_node(&self, segment: &String, store: &NodeStore) -> (r: Option<PrivateNode>)
        requires
            self.wf(),
            store.wf(),
        ensures
            match entry_of(self.entries_view(), segment@) {
                Some(e) => if e.index < store@.len() {
                    r matches Some(n) && same_revision(n, store@[e.index as int]) && loaded_from(n) == Some(e)
                        && refs_below(n, e.index as nat)
                } else {
                    r is None
                },
                None => r is None,
            },
    {
        match self.get_entry(segment) {
            Some(e) => store.load(e),
            None => None,
        }
    }

    /// Follows `path_segments` from this directory as far as directories go.
    pub fn get_path_nodes(&self, path_segments: &[String], store: &NodeStore) -> (r: PathNodesResult)
        requires
            self.wf(),
            store.wf(),
            dir_ok(*self, store@.len()),
        ensures
            ({
                let segs = path_segments@.map_values(|s: String| s@);
                match r {
                    PathNodesResult::Complete(pn) => pn.follows(store@, *self, segs)
                        && pn.path@.len() == segs.len(),
                    PathNodesResult::MissingLink(pn, s) => pn.follows(store@, *self, segs)
                        && pn.path@.len() < segs.len() && s@ == segs[pn.path@.len() as int]
                        && entry_of(pn.tail.entries_view(), s@) is None,
                    PathNodesResult::NotADirectory(pn, s) => pn.follows(store@, *self, segs)
                        && pn.path@.len() < segs.len() && s@ == segs[pn.path@.len() as int]
                        && (entry_of(pn.tail.entries_view(), s@) matches Some(e) && e.index < store@.len()
                            && store@[e.index as int] is File),
                }
            }),
    {
        let ghost segs = path_segments@.map_values(|s: String| s@);
        let mut path: Vec<(PrivateDirectory, String)> = Vec::new();
        let mut working = self.duplicate(self.get_persisted_as());
        let mut i: usize = 0;
        proof {
            assert(dir_ok(working, store@.len())) by {
                assert(working.entries_view() == self.entries_view());
            }
            lemma_follows_start(working, store@, *self, segs);
        }
        while i < path_segments.len()
            invariant
                self.wf(),
                store.wf(),
                dir_ok(*self, store@.len()),
                segs == path_segments@.map_values(|s: String| s@),
                i <= path_segments@.len(),
                path@.len() == i,
                path_follows(path@, working, store@, *self, segs),
                working.wf(),
                dir_ok(working, store@.len()),
            decreases path_segments@.len() - i,
        {
            let segment = &path_segments[i];
            match working.lookup_node(segment, store) {
                Some(PrivateNode::Dir(dir)) => {
                    let seg = segment.clone();
                    proof { lemma_follows_step(path@, working, store@, *self, segs, seg, dir); }
                    path.push((working, seg));
                    working = dir;
                },
                Some(PrivateNode::File(_)) => {
                    return PathNodesResult::NotADirectory(PathNodes { path, tail: working }, segment.clone());
                },
                None => {
                    return PathNodesResult::MissingLink(PathNodes { path, tail: working }, segment.clone());
                },
            }
            i = i + 1;
        }
        PathNodesResult::Complete(PathNodes { path, tail: working })
    }
}

impl PrivateDirectory {
    /// Stores the path's directories from the end up, each readied for a
    /// change and pointing at the revision of the next that was just stored,
    /// and returns the new top directory, which is not stored.
    pub(crate) fn fix_up_path_nodes(path_nodes: PathNodes, store: &mut NodeStore) -> (r: PrivateDirectory)
        requires
            old(store).wf(),
            forall|i: int| 0 <= i <= path_nodes.path@.len() ==> #[trigger] level_of(path_nodes.path@, path_nodes.tail, i).wf()
                && dir_ok(level_of(path_nodes.path@, path_nodes.tail, i), old(store)@.len()),
        ensures
            final(store).wf(),
            extends(final(store)@, old(store)@),
            r.wf(),
            dir_ok(r, final(store)@.len()),
            dir_entries_at(final(store)@, r, segments_of(path_nodes.path@)) == Some(path_nodes.tail.entries_view()),
            forall|p: Seq<Seq<char>>, k: int| #[trigger] leaves_at(p, segments_of(path_nodes.path@), k) ==>
                resolve_from(final(store)@, r, p) == resolve_from(old(store)@, level_of(path_nodes.path@, path_nodes.tail, k), p.subrange(k, p.len() as int)),
            path_nodes.path@.len() == 0 ==> r == path_nodes.tail,
            path_nodes.path@.len() > 0 ==> rebuilt_level(r, path_nodes.path@[0].0, Some(segments_of(path_nodes.path@)[0])),
            forall|i: int| 1 <= i <= path_nodes.path@.len() ==> #[trigger] stored_at(final(store)@, r, path_nodes.path@,
                path_nodes.tail, segments_of(path_nodes.path@), 0, i),
    {
        let ghost orig = path_nodes.path@;
        let ghost store0 = store@;
        let ghost k = orig.len() as int;
        let ghost segs = segments_of(orig);
        let ghost tail0 = path_nodes.tail;
        let PathNodes { mut path, tail } = path_nodes;
        let mut working = tail;
        proof {
            assert(level_of(orig, tail0, k) == tail0);
            assert(level_of(orig, tail0, k).wf());
            assert(dir_ok(tail0, store0.len()));
            assert(segs.subrange(k, k) =~= Seq::<Seq<char>>::empty());
            reveal(dir_entries_at);
            assert(store@.subrange(0, store0.len() as int) =~= store0);
            assert(path@ =~= orig.subrange(0, k));
            lemma_frame_start(store0, orig, tail0, segs);
            reveal(levels_stored);
            assert(segs.len() == k) by {
                assert(segments_of(orig).len() == orig.len());
            }
        }
        while path.len() > 0
            invariant
                store.wf(),
                extends(store@, store0),
                path@.len() <= k,
                path@ == orig.subrange(0, path@.len() as int),
                k == orig.len(),
                segs == segments_of(orig),
                forall|i: int| 0 <= i <= k ==> #[trigger] level_of(orig, tail0, i).wf()
                    && dir_ok(level_of(orig, tail0, i), store0.len()),
                working.wf(),
                dir_ok(working, store@.len()),
                dir_entries_at(store@, working, segs.subrange(path@.len() as int, k)) == Some(tail0.entries_view()),
                path@.len() == k ==> working == tail0,
                frame_from(store@, store0, working, orig, tail0, segs, path@.len() as int),
                segs.len() == k,
                levels_stored(store@, working, orig, tail0, segs, path@.len() as int),
                path@.len() < k ==> rebuilt_level(working, orig[path@.len() as int].0, Some(segs[path@.len() as int])),
            decreases path@.len(),
        {
            let ghost j = path@.len() as int;
            let ghost old_w = working;
            let ghost store1 = store@;
            assert(path@[j - 1] == orig.subrange(0, j)[j - 1]);
            let ghost last = path@[j - 1];
            let (mut dir, seg) = path.pop().unwrap();
            assert(last == (dir, seg));
            proof {
                assert(orig[j - 1] == (dir, seg));
                assert(level_of(orig, tail0, j - 1) == dir);
                assert(segs[j - 1] == seg@);
            }
            let w = store.put(PrivateNode::Dir(working));
            let ghost dir0 = dir;
            dir.prepare_next_revision();
            dir.set_entry(seg, w);
            working = dir;
            proof {
                lemma_dir_ok_mono(dir0, store0.len(), store1.len());
                assert(dir_ok(working, store@.len())) by {
                    assert forall|n: Seq<char>| #[trigger] working.entries_view().contains_key(n)
                        implies working.entries_view()[n].index < store@.len() by {
                        if n != seg@ {
                            assert(dir0.entries_view().contains_key(n));
                        }
                    }
                }
                assert(extends(store@, store0)) by {
                    assert(store@.subrange(0, store0.len() as int) =~= store1.subrange(0, store0.len() as int));
                }
                assert(extends(store@, store1)) by {
                    assert(store@.subrange(0, store1.len() as int) =~= store1);
                }
                let rest = segs.subrange(j, k);
                assert(segs.subrange(j - 1, k) =~= seq![seg@] + rest);
                assert(store@[w.index as int] == PrivateNode::Dir(old_w));
                lemma_dir_entries_cons(store@, working, seg@, rest, old_w);
                lemma_resolve_grow(store1, store@, old_w, rest);
                assert(path@ =~= orig.subrange(0, j - 1));
                lemma_frame_step(store0, store1, store@, old_w, working, orig, tail0, segs, j, w);
                assert(level_of(orig, tail0, j) == if j < k { orig[j].0 } else { tail0 });
                lemma_levels_step(store1, store@, old_w, working, orig, tail0, segs, j, w);
                assert(segs[j - 1] == seg@);
                assert(working.entries_view().remove(seg@) =~= dir0.entries_view().remove(seg@));
                assert(orig[j - 1].0 == dir0);
            }
        }
        proof {
            assert(segs.subrange(0, k) =~= segs);
            reveal(frame_from);
            reveal(levels_stored);
            assert(segs.subrange(0, segs.len() as int) =~= segs);
        }
        working
    }
}

impl PrivateDirectory {
    /// New empty directories, one for each segment and one for the end.
    pub(crate) fn create_path_nodes(path_segments: &[String], time: i64) -> (r: PathNodes)
        ensures
            segments_of(r.path@) == path_segments@.map_values(|s: String| s@),
            forall|i: int| 0 <= i <= r.path@.len() ==> (#[trigger] level_of(r.path@, r.tail, i)).wf()
                && level_of(r.path@, r.tail, i).entries_view() == Map::<Seq<char>, PrivateRef>::empty()
                && level_of(r.path@, r.tail, i).persisted_as_view() is None
                && level_of(r.path@, r.tail, i).previous_view() is None
                && level_of(r.path@, r.tail, i).metadata_view() == (Metadata { kind: NodeKind::Dir, created: time, modified: time }),
    {
        let mut path: Vec<(PrivateDirectory, String)> = Vec::new();
        let mut i: usize = 0;
        while i < path_segments.len()
            invariant
                i <= path_segments@.len(),
                path@.len() == i,
                segments_of(path@) == path_segments@.map_values(|s: String| s@).subrange(0, i as int),
                forall|j: int| 0 <= j < i ==> (#[trigger] path@[j]).0.wf()
                    && path@[j].0.entries_view() == Map::<Seq<char>, PrivateRef>::empty()
                    && path@[j].0.persisted_as_view() is None
                    && path@[j].0.previous_view() is None
                    && path@[j].0.metadata_view() == (Metadata { kind: NodeKind::Dir, created: time, modified: time }),
            decreases path_segments@.len() - i,
        {
            path.push((PrivateDirectory::new(time), path_segments[i].clone()));
            i = i + 1;
            assert(segments_of(path@) =~= path_segments@.map_values(|s: String| s@).subrange(0, i as int));
        }
        let r = PathNodes { path, tail: PrivateDirectory::new(time) };
        assert(path_segments@.map_values(|s: String| s@).subrange(0, i as int) =~= path_segments@.map_values(|s: String| s@));
        assert forall|j: int| 0 <= j <= r.path@.len() implies (#[trigger] level_of(r.path@, r.tail, j)).wf()
            && level_of(r.path@, r.tail, j).entries_view() == Map::<Seq<char>, PrivateRef>::empty() by {
            if j < r.path@.len() {
                assert(r.path@[j].0.wf());
            }
        }
        r
    }
}

impl PrivateDirectory {
    /// Follows `path_segments` from this directory, adding empty directories
    /// for the segments that are missing. A segment that names a file makes the
    /// path invalid.
    #[verifier::rlimit(100)]
    #[verifier::spinoff_prover]
    pub(crate) fn get_or_create_path_nodes(&self, path_segments: &[String], time: i64, store: &NodeStore) -> (r: Result<PathNodes, FsError>)
        requires
            self.wf(),
            store.wf(),
            dir_ok(*self, store@.len()),
        ensures
            ({
                let segs = path_segments@.map_values(|s: String| s@);
                &&& r is Err <==> blocked_by_file(store@, *self, segs)
                &&& r is Err ==> r == Err::<PathNodes, FsError>(FsError::InvalidPath)
                &&& r matches Ok(pn) ==> {
                    &&& segments_of(pn.path@) == segs
                    &&& forall|i: int| 0 <= i <= pn.path@.len() ==> #[trigger] level_of(pn.path@, pn.tail, i).wf()
                        && dir_ok(level_of(pn.path@, pn.tail, i), store@.len())
                    &&& match dir_entries_at(store@, *self, segs) {
                        Some(m) => pn.tail.entries_view() == m,
                        None => pn.tail.entries_view() == Map::<Seq<char>, PrivateRef>::empty(),
                    }
                    &&& forall|i: int| 0 <= i <= pn.path@.len() ==> (#[trigger] level_of(pn.path@, pn.tail, i)).entries_view()
                        == entries_or_empty(store@, *self, segs.subrange(0, i))
                    &&& forall|i: int| 1 <= i <= pn.path@.len() ==> #[trigger] level_origin(store@, *self, segs, level_of(pn.path@, pn.tail, i), i, time)
                    &&& level_of(pn.path@, pn.tail, 0).persisted_as_view() == self.persisted_as_view()
                    &&& level_of(pn.path@, pn.tail, 0).previous_view() == self.previous_view()
                }
            }),
    {
        let ghost segs = path_segments@.map_values(|s: String| s@);
        match self.get_path_nodes(path_segments, store) {
            PathNodesResult::Complete(pn) => {
                proof {
                    lemma_blocked_cases(pn.path@, pn.tail, store@, *self, segs);
                    lemma_follows_tail(pn.path@, pn.tail, store@, *self, segs);
                    assert(segs.subrange(0, segs.len() as int) =~= segs);
                    assert forall|i: int| 0 <= i <= pn.path@.len() implies (#[trigger] level_of(pn.path@, pn.tail, i)).entries_view()
                        == entries_or_empty(store@, *self, segs.subrange(0, i)) by {
                        assert(dir_entries_at(store@, *self, segs.subrange(0, i)) == Some(level_of(pn.path@, pn.tail, i).entries_view()));
                    }
                    assert forall|i: int| 1 <= i <= pn.path@.len() implies #[trigger] level_origin(store@, *self, segs, level_of(pn.path@, pn.tail, i), i, time) by {
                        lemma_follows_origin(pn.path@, pn.tail, store@, *self, segs, i, time);
                    }
                }
                Ok(pn)
            },
            PathNodesResult::NotADirectory(pn, _) => {
                proof { lemma_blocked_cases(pn.path@, pn.tail, store@, *self, segs); }
                Err(FsError::InvalidPath)
            },
            PathNodesResult::MissingLink(pn, missing) => {
                let ghost pn0 = pn;
                proof {
                    lemma_blocked_cases(pn.path@, pn.tail, store@, *self, segs);
                    lemma_follows_tail(pn.path@, pn.tail, store@, *self, segs);
                }
                let k = pn.path.len();
                let n = path_segments.len();
                assert(k < n);
                let (_, missing_path) = path_segments.split_at(k + 1);
                let mut created = Self::create_path_nodes(missing_path, time);
                let PathNodes { mut path, tail } = pn;
                path.push((tail, missing));
                let ghost mid = path@;
                let ghost created_path = created.path@;
                path.append(&mut created.path);
                let r = PathNodes { path, tail: created.tail };
                proof {
                    assert(r.path@ =~= mid + created_path);
                    assert(segments_of(r.path@) =~= segs) by {
                        assert(missing_path@.map_values(|s: String| s@) =~= segs.subrange(k + 1, segs.len() as int));
                        assert forall|i: int| 0 <= i < segs.len() implies segments_of(r.path@)[i] == segs[i] by {
                            if i < k {
                                assert(segments_of(pn0.path@)[i] == segs.subrange(0, k as int)[i]);
                                assert(r.path@[i] == pn0.path@[i]);
                            } else if i == k {
                                assert(r.path@[i] == mid[i]);
                            } else {
                                assert(r.path@[i] == created_path[i - k - 1]);
                                assert(segments_of(created_path)[i - k - 1] == segs.subrange(k + 1, segs.len() as int)[i - k - 1]);
                            }
                        }
                    }
                    assert forall|i: int| 0 <= i <= r.path@.len() implies #[trigger] level_of(r.path@, r.tail, i).wf()
                        && dir_ok(level_of(r.path@, r.tail, i), store@.len()) by {
                        if i < k {
                            assert(level_of(r.path@, r.tail, i) == level_of(pn0.path@, pn0.tail, i));
                            assert(level_of(pn0.path@, pn0.tail, i).wf());
                        } else if i == k {
                            assert(level_of(r.path@, r.tail, i) == pn0.tail);
                            assert(level_of(pn0.path@, pn0.tail, k as int) == pn0.tail);
                            assert(level_of(pn0.path@, pn0.tail, k as int).wf());
                        } else {
                            let c = if i < r.path@.len() { i - k - 1 } else { created_path.len() as int };
                            assert(level_of(r.path@, r.tail, i) == level_of(created_path, created.tail, c));
                            let d = level_of(created_path, created.tail, c);
                            assert(d.wf());
                            assert(d.entries_view() == Map::<Seq<char>, PrivateRef>::empty());
                            assert(dir_ok(d, store@.len()));
                        }
                    }
                    assert(level_of(created_path, created.tail, created_path.len() as int) == created.tail);
                    assert(created.tail.entries_view() == Map::<Seq<char>, PrivateRef>::empty());
                    assert forall|i: int| 1 <= i <= r.path@.len() implies #[trigger] level_origin(store@, *self, segs, level_of(r.path@, r.tail, i), i, time) by {
                        if i <= k {
                            lemma_follows_origin(pn0.path@, pn0.tail, store@, *self, segs, i, time);
                            if i < k {
                                assert(level_of(r.path@, r.tail, i) == level_of(pn0.path@, pn0.tail, i));
                            } else {
                                assert(level_of(r.path@, r.tail, i) == pn0.tail);
                                assert(level_of(pn0.path@, pn0.tail, k as int) == pn0.tail);
                            }
                        } else {
                            assert(resolve_from(store@, *self, segs.subrange(0, i)) is None);
                            let c = if i < r.path@.len() { i - k - 1 } else { created_path.len() as int };
                            assert(level_of(r.path@, r.tail, i) == level_of(created_path, created.tail, c));
                            assert(level_of(created_path, created.tail, c).wf());
                        }
                    }
                    lemma_follows_tail(pn0.path@, pn0.tail, store@, *self, segs);
                    if k == 0 {
                        assert(level_of(pn0.path@, pn0.tail, 0) == pn0.tail);
                        assert(level_of(r.path@, r.tail, 0) == pn0.tail);
                    } else {
                        assert(level_of(r.path@, r.tail, 0) == level_of(pn0.path@, pn0.tail, 0));
                    }
                    assert forall|i: int| 0 <= i <= r.path@.len() implies (#[trigger] level_of(r.path@, r.tail, i)).entries_view()
                        == entries_or_empty(store@, *self, segs.subrange(0, i)) by {
                        if i <= k {
                            if i < k {
                                assert(level_of(r.path@, r.tail, i) == level_of(pn0.path@, pn0.tail, i));
                            } else {
                                assert(level_of(r.path@, r.tail, i) == pn0.tail);
                                assert(level_of(pn0.path@, pn0.tail, i) == pn0.tail);
                            }
                            assert(dir_entries_at(store@, *self, segs.subrange(0, i)) == Some(level_of(pn0.path@, pn0.tail, i).entries_view()));
                        } else {
                            assert(dir_entries_at(store@, *self, segs.subrange(0, i)) is None);
                            if i < r.path@.len() {
                                assert(level_of(r.path@, r.tail, i) == level_of(created_path, created.tail, i - k - 1));
                                assert(level_of(created_path, created.tail, i - k - 1).wf());
                            } else {
                                assert(level_of(created_path, created.tail, created_path.len() as int).wf());
                            }
                        }
                    }
                }
                Ok(r)
            },
        }
    }

    /// Reads the content of the file at `path_segments`.
    pub fn read(&self, path_segments: &[String], store: &NodeStore) -> (r: Result<Vec<u8>, FsError>)
        requires
            self.wf(),
            store.wf(),
            dir_ok(*self, store@.len()),
        ensures
            match read_spec(store@, *self, path_segments@.map_values(|s: String| s@)) {
                Ok(c) => r matches Ok(v) && v@ == c,
                Err(e) => r == Err::<Vec<u8>, FsError>(e),
            },
    {
        let ghost segs = path_segments@.map_values(|s: String| s@);
        let (path, filename) = match split_last(path_segments) {
            Ok(split) => split,
            Err(e) => {
                return Err(e);
            },
        };
        proof {
            assert(path@.map_values(|s: String| s@) =~= segs.drop_last());
            assert(segs.drop_last().push(filename@) =~= segs);
        }
        match self.get_path_nodes(path, store) {
            PathNodesResult::Complete(pn) => {
                proof {
                    lemma_follows_tail(pn.path@, pn.tail, store@, *self, segs.drop_last());
                    assert(segs.drop_last().subrange(0, segs.len() - 1) =~= segs.drop_last());
                    lemma_resolve_push(store@, *self, segs.drop_last(), filename@);
                }
                match pn.tail.lookup_node(filename, store) {
                    Some(PrivateNode::File(file)) => Ok(file.into_content()),
                    Some(PrivateNode::Dir(_)) => Err(FsError::NotAFile),
                    None => Err(FsError::NotFound),
                }
            },
            PathNodesResult::MissingLink(pn, _) => {
                proof {
                    lemma_blocked_cases(pn.path@, pn.tail, store@, *self, segs.drop_last());
                    lemma_resolve_push(store@, *self, segs.drop_last(), filename@);
                }
                Err(FsError::NotFound)
            },
            PathNodesResult::NotADirectory(pn, _) => {
                proof {
                    lemma_follows_tail(pn.path@, pn.tail, store@, *self, segs.drop_last());
                    let k = pn.path@.len() as int;
                    let d = segs.drop_last();
                    assert(d.subrange(0, k + 1) =~= d.subrange(0, k).push(d[k]));
                    lemma_resolve_push(store@, *self, d.subrange(0, k), d[k]);
                    lemma_resolve_none_extends(store@, *self, d.subrange(0, k + 1), d.subrange(k + 1, d.len() as int).push(filename@));
                    assert(d.subrange(0, k + 1) + d.subrange(k + 1, d.len() as int).push(filename@) =~= segs);
                }
                Err(FsError::NotFound)
            },
        }
    }
}

impl PrivateDirectory {
    /// Writes `content` to the file at `path_segments`, creating missing
    /// directories on the way. An existing file gets a new revision; a fresh
    /// one is created otherwise. Returns the new top directory.
    pub fn write(&self, path_segments: &[String], time: i64, content: Vec<u8>, store: &mut NodeStore) -> (r: Result<PrivateDirectory, FsError>)
        requires
            self.wf(),
            old(store).wf(),
            dir_ok(*self, old(store)@.len()),
        ensures
            ({
                let segs = path_segments@.map_values(|s: String| s@);
                &&& r is Err <==> write_error(old(store)@, *self, segs) is Some
                &&& r matches Err(e) ==> write_error(old(store)@, *self, segs) == Some(e) && final(store)@ == old(store)@
                &&& r matches Ok(root) ==> {
                    &&& final(store).wf()
                    &&& root.wf()
                    &&& dir_ok(root, final(store)@.len())
                    &&& write_post(old(store)@, *self, segs, content@, final(store)@, root)
                    &&& file_advanced_at(old(store)@, *self, final(store)@, root, segs)
                    &&& ancestors_advanced(old(store)@, *self, final(store)@, root, segs.drop_last())
                }
            }),
    {
        let ghost segs = path_segments@.map_values(|s: String| s@);
        let ghost store0 = store@;
        let (directory_path, filename) = match split_last(path_segments) {
            Ok(split) => split,
            Err(e) => {
                return Err(e);
            },
        };
        let ghost dp = segs.drop_last();
        proof {
            assert(directory_path@.map_values(|s: String| s@) =~= dp);
            assert(dp.push(filename@) =~= segs);
            lemma_resolve_push(store0, *self, dp, filename@);
        }
        let pn = match self.get_or_create_path_nodes(directory_path, time, store) {
            Ok(pn) => pn,
            Err(e) => {
                return Err(e);
            },
        };
        let ghost pn0 = pn;
        let PathNodes { path, tail } = pn;
        let mut directory = tail;
        proof {
            assert(level_of(pn0.path@, pn0.tail, pn0.path@.len() as int) == directory);
            assert(directory.wf());
        }
        let file = match directory.lookup_node(filename, store) {
            Some(PrivateNode::File(f)) => {
                let mut f = f;
                f.prepare_next_revision();
                f.set_content(content, time);
                f
            },
            Some(PrivateNode::Dir(_)) => {
                return Err(FsError::DirectoryAlreadyExists);
            },
            None => PrivateFile::new(time, content),
        };
        let ghost store1 = store@;
        let ghost file_node = PrivateNode::File(file);
        let file_ref = store.put(PrivateNode::File(file));
        let ghost dir0 = directory;
        directory.prepare_next_revision();
        directory.set_entry(filename.clone(), file_ref);
        let ghost store2 = store@;
        proof {
            assert forall|n: Seq<char>| #[trigger] directory.entries_view().contains_key(n)
                implies directory.entries_view()[n].index < store2.len() by {
                if n != filename@ {
                    assert(dir0.entries_view().contains_key(n));
                }
            }
            assert(dir_ok(directory, store2.len()));
            assert forall|i: int| 0 <= i <= path@.len() implies #[trigger] level_of(path@, directory, i).wf()
                && dir_ok(level_of(path@, directory, i), store2.len()) by {
                if i < path@.len() {
                    assert(level_of(path@, directory, i) == level_of(pn0.path@, pn0.tail, i));
                    assert(level_of(pn0.path@, pn0.tail, i).wf());
                    lemma_dir_ok_mono(level_of(pn0.path@, pn0.tail, i), store0.len(), store2.len());
                }
            }
        }
        let root = Self::fix_up_path_nodes(PathNodes { path, tail: directory }, store);
        proof {
            assert(segments_of(pn0.path@) == dp);
            assert(store@[file_ref.index as int] == file_node) by {
                assert(store@.subrange(0, store2.len() as int)[file_ref.index as int] == store2[file_ref.index as int]);
            }
            lemma_resolve_push(store@, root, dp, filename@);
            assert(store1 == store0);
            lemma_ancestors(store0, store@, *self, root, pn0.path@, pn0.tail, directory, dp, time);
            assert(file_advanced_at(store0, *self, store@, root, segs));
            assert(extends(store2, store0)) by {
                assert(store2.subrange(0, store0.len() as int) =~= store0);
            }
            assert(pn0.path@.len() == dp.len()) by {
                assert(segments_of(pn0.path@).len() == pn0.path@.len());
            }
            assert forall|p: Seq<Seq<char>>| #[trigger] diverges(p, segs) implies
                resolve_from(store@, root, p) == resolve_from(store0, *self, p) by {
                let k = choose|k: int| #[trigger] diverges_at(p, segs, k);
                assert(p.subrange(0, k) == dp.subrange(0, k)) by {
                    assert(segs.subrange(0, k) =~= dp.subrange(0, k));
                }
                assert(leaves_at(p, dp, k));
                let level = level_of(pn0.path@, pn0.tail, k);
                assert(level.wf());
                assert(level.entries_view() == entries_or_empty(store0, *self, dp.subrange(0, k)));
                let new_level = level_of(path@, directory, k);
                if k < dp.len() {
                    assert(new_level == level);
                } else {
                    assert(p[k] != filename@);
                }
                lemma_write_frame(store0, store2, *self, level, new_level, dp, p, k);
            }
            assert(store2.subrange(0, store0.len() as int) =~= store0);
            assert(extends(store@, store0)) by {
                assert(store@.subrange(0, store0.len() as int) =~= store@.subrange(0, store2.len() as int).subrange(0, store0.len() as int));
            }
        }
        Ok(root)
    }
}

/// The result of an operation on a directory tree: the new top directory and
/// what the operation returns.
#[derive(Debug)]
pub struct OpResult<T, U> {
    pub root_dir: T,
    pub result: U,
}

impl PrivateDirectory {
    /// Creates the directories along `path_segments` that are missing.
    /// Returns the new top directory.
    pub fn mkdir(&self, path_segments: &[String], time: i64, store: &mut NodeStore) -> (r: Result<PrivateDirectory, FsError>)
        requires
            self.wf(),
            old(store).wf(),
            dir_ok(*self, old(store)@.len()),
        ensures
            ({
                let segs = path_segments@.map_values(|s: String| s@);
                &&& r is Err <==> blocked_by_file(old(store)@, *self, segs)
                &&& r is Err ==> r == Err::<PrivateDirectory, FsError>(FsError::InvalidPath) && final(store)@ == old(store)@
                &&& r matches Ok(root) ==> {
                    &&& final(store).wf()
                    &&& extends(final(store)@, old(store)@)
                    &&& root.wf()
                    &&& dir_ok(root, final(store)@.len())
                    &&& dir_entries_at(final(store)@, root, segs) == Some(match dir_entries_at(old(store)@, *self, segs) {
                        Some(m) => m,
                        None => Map::<Seq<char>, PrivateRef>::empty(),
                    })
                    &&& ancestors_advanced(old(store)@, *self, final(store)@, root, segs)
                    &&& prefixes_kept(old(store)@, *self, final(store)@, root, segs, time)
                }
            }),
    {
        let ghost segs = path_segments@.map_values(|s: String| s@);
        let ghost store0 = store@;
        let pn = match self.get_or_create_path_nodes(path_segments, time, store) {
            Ok(pn) => pn,
            Err(e) => {
                return Err(e);
            },
        };
        let ghost pn0 = pn;
        let PathNodes { path, tail } = pn;
        let mut directory = tail;
        directory.prepare_next_revision();
        proof {
            let k = pn0.path@.len() as int;
            assert(level_of(pn0.path@, pn0.tail, k) == pn0.tail);
            assert(level_of(pn0.path@, pn0.tail, k).wf());
            assert(dir_ok(directory, store0.len()));
            assert forall|i: int| 0 <= i <= path@.len() implies #[trigger] level_of(path@, directory, i).wf()
                && dir_ok(level_of(path@, directory, i), store0.len()) by {
                if i < path@.len() {
                    assert(level_of(path@, directory, i) == level_of(pn0.path@, pn0.tail, i));
                    assert(level_of(pn0.path@, pn0.tail, i).wf());
                }
            }
        }
        let root = Self::fix_up_path_nodes(PathNodes { path, tail: directory }, store);
        proof {
            assert(segments_of(pn0.path@) == segs);
            lemma_ancestors(store0, store@, *self, root, pn0.path@, pn0.tail, directory, segs, time);
            lemma_prefixes_kept(store0, store@, *self, root, pn0.path@, pn0.tail, directory, segs, time);
        }
        Ok(root)
    }

    /// The names and metadata of the entries of the directory at `path_segments`.
    #[verifier::spinoff_prover]
    pub fn ls(&self, path_segments: &[String], store: &NodeStore) -> (r: Result<Vec<(String, Metadata)>, FsError>)
        requires
            self.wf(),
            store.wf(),
            dir_ok(*self, store@.len()),
        ensures
            match dir_entries_at(store@, *self, path_segments@.map_values(|s: String| s@)) {
                Some(m) => r matches Ok(v) && {
                    &&& v@.len() == m.dom().len()
                    &&& forall|i: int| 0 <= i < v@.len() ==> #[trigger] m.contains_key(v@[i].0@)
                        && m[v@[i].0@].index < store@.len()
                        && v@[i].1 == metadata_of(store@[m[v@[i].0@].index as int])
                    &&& forall|i: int, j: int| 0 <= i < j < v@.len() ==> #[trigger] v@[i].0@ != #[trigger] v@[j].0@
                    &&& forall|i: int, j: int| 0 <= i < j < v@.len() ==> name_lt(#[trigger] v@[i].0@, #[trigger] v@[j].0@)
                },
                None => r == Err::<Vec<(String, Metadata)>, FsError>(FsError::NotFound),
            },
    {
        let ghost segs = path_segments@.map_values(|s: String| s@);
        match self.get_path_nodes(path_segments, store) {
            PathNodesResult::Complete(pn) => {
                let dir = pn.tail;
                proof {
                    lemma_follows_tail(pn.path@, dir, store@, *self, segs);
                    assert(segs.subrange(0, segs.len() as int) =~= segs);
                    dir.lemma_entry_names();
                }
                let n = dir.entry_count();
                let mut result: Vec<(String, Metadata)> = Vec::new();
                let mut i: usize = 0;
                while i < n
                    invariant
                        store.wf(),
                        dir.wf(),
                        dir_ok(dir, store@.len()),
                        n == dir.entry_count_spec(),
                        i <= n,
                        result@.len() == i,
                        forall|j: int| 0 <= j < i ==> #[trigger] result@[j].0@ == dir.entry_name_spec(j)
                            && result@[j].1 == metadata_of(store@[dir.entries_view()[dir.entry_name_spec(j)].index as int]),
                    decreases n - i,
                {
                    let name = dir.entry_name_at(i);
                    let e = dir.entry_ref_at(i);
                    match store.load(e) {
                        Some(node) => {
                            result.push((name.clone(), node.get_metadata()));
                        },
                        None => {
                            proof { assert(false); }
                            return Err(FsError::NotFound);
                        },
                    }
                    i = i + 1;
                }
                proof {
                    dir.lemma_entry_names();
                    assert forall|a: int, b: int| 0 <= a < b < result@.len() implies #[trigger] result@[a].0@ != #[trigger] result@[b].0@ by {
                        assert(result@[a].0@ == dir.entry_name_spec(a));
                        assert(result@[b].0@ == dir.entry_name_spec(b));
                    }
                    assert forall|j: int| 0 <= j < result@.len() implies #[trigger] dir.entries_view().contains_key(result@[j].0@)
                        && dir.entries_view()[result@[j].0@].index < store@.len()
                        && result@[j].1 == metadata_of(store@[dir.entries_view()[result@[j].0@].index as int]) by {
                        assert(result@[j].0@ == dir.entry_name_spec(j));
                        assert(dir.entries_view().contains_key(dir.entry_name_spec(j)));
                    }
                    assert(pn.path@.len() == segs.len());
                    assert(segs.subrange(0, pn.path@.len() as int) =~= segs);
                    assert(dir_entries_at(store@, *self, segs) == Some(dir.entries_view()));
                    assert(result@.len() == dir.entries_view().dom().len());
                }
                let ghost unsorted = result@;
                let sorted = sort_by_name(result);
                proof {
                    let m = dir.entries_view();
                    assert forall|t: int| 0 <= t < sorted@.len() implies #[trigger] m.contains_key(sorted@[t].0@)
                        && m[sorted@[t].0@].index < store@.len()
                        && sorted@[t].1 == metadata_of(store@[m[sorted@[t].0@].index as int]) by {
                        assert(among(unsorted, sorted@[t], unsorted.len() as int));
                        let u = choose|u: int| 0 <= u < unsorted.len() && sorted@[t] == #[trigger] unsorted[u];
                        assert(m.contains_key(unsorted[u].0@));
                    }
                    assert forall|a: int, b: int| 0 <= a < b < sorted@.len() implies #[trigger] sorted@[a].0@ != #[trigger] sorted@[b].0@ by {
                        assert(name_lt(sorted@[a].0@, sorted@[b].0@));
                        lemma_name_irreflexive(sorted@[a].0@);
                    }
                }
                Ok(sorted)
            },
            PathNodesResult::MissingLink(pn, _) => {
                proof { lemma_blocked_cases(pn.path@, pn.tail, store@, *self, segs); }
                Err(FsError::NotFound)
            },
            PathNodesResult::NotADirectory(pn, _) => {
                proof {
                    lemma_follows_tail(pn.path@, pn.tail, store@, *self, segs);
                    let k = pn.path@.len() as int;
                    assert(segs.subrange(0, k + 1) =~= segs.subrange(0, k).push(segs[k]));
                    lemma_resolve_push(store@, *self, segs.subrange(0, k), segs[k]);
                    if k + 1 < segs.len() {
                        lemma_resolve_none_extends(store@, *self, segs.subrange(0, k + 1), segs.subrange(k + 1, segs.len() as int));
                        assert(segs.subrange(0, k + 1) + segs.subrange(k + 1, segs.len() as int) =~= segs);
                    } else {
                        assert(segs.subrange(0, k + 1) =~= segs);
                    }
                    reveal(dir_entries_at);
                }
                Err(FsError::NotFound)
            },
        }
    }
}

impl PrivateDirectory {
    /// Removes the node at `path_segments` from its parent and returns it
    /// with the new top directory.
    #[verifier::spinoff_prover]
    pub fn rm(&self, path_segments: &[String], store: &mut NodeStore) -> (r: Result<OpResult<PrivateDirectory, PrivateNode>, FsError>)
        requires
            self.wf(),
            old(store).wf(),
            dir_ok(*self, old(store)@.len()),
        ensures
            ({
                let segs = path_segments@.map_values(|s: String| s@);
                &&& segs.len() == 0 ==> r == Err::<OpResult<PrivateDirectory, PrivateNode>, FsError>(FsError::InvalidPath)
                &&& segs.len() > 0 ==> (r is Err <==> resolve_from(old(store)@, *self, segs) is None)
                &&& segs.len() > 0 && r is Err ==> r == Err::<OpResult<PrivateDirectory, PrivateNode>, FsError>(FsError::NotFound)
                &&& r is Err ==> final(store)@ == old(store)@
                &&& r matches Ok(res) ==> {
                    &&& final(store).wf()
                    &&& extends(final(store)@, old(store)@)
                    &&& res.root_dir.wf()
                    &&& dir_ok(res.root_dir, final(store)@.len())
                    &&& resolve_from(old(store)@, *self, segs) matches Some(i)
                    &&& same_revision(res.result, old(store)@[i as int])
                    &&& refs_below(res.result, final(store)@.len())
                    &&& res.result is Dir ==> dir_ok(res.result->Dir_0, final(store)@.len())
                    &&& resolve_from(final(store)@, res.root_dir, segs) is None
                    &&& dir_entries_at(final(store)@, res.root_dir, segs.drop_last())
                        == Some(dir_entries_at(old(store)@, *self, segs.drop_last()).unwrap().remove(segs.last()))
                    &&& forall|p: Seq<Seq<char>>| #[trigger] diverges(p, segs) ==>
                        resolve_from(final(store)@, res.root_dir, p) == resolve_from(old(store)@, *self, p)
                    &&& prefixes_kept(old(store)@, *self, final(store)@, res.root_dir, segs.drop_last(), 0)
                }
            }),
    {
        let ghost segs = path_segments@.map_values(|s: String| s@);
        let ghost store0 = store@;
        let (path, name) = match split_last(path_segments) {
            Ok(split) => split,
            Err(e) => {
                return Err(e);
            },
        };
        let ghost dp = segs.drop_last();
        proof {
            assert(path@.map_values(|s: String| s@) =~= dp);
            assert(dp.push(name@) =~= segs);
            lemma_resolve_push(store0, *self, dp, name@);
        }
        match self.get_path_nodes(path, store) {
            PathNodesResult::Complete(pn) => {
                let ghost pn0 = pn;
                proof {
                    lemma_follows_tail(pn.path@, pn.tail, store0, *self, dp);
                    assert(dp.subrange(0, dp.len() as int) =~= dp);
                }
                let PathNodes { path, tail } = pn;
                let mut directory = tail;
                let ghost dir0 = directory;
                directory.prepare_next_revision();
                let removed = match directory.remove_entry(name) {
                    Some(e) => e,
                    None => {
                        return Err(FsError::NotFound);
                    },
                };
                let node = match store.load(removed) {
                    Some(node) => node,
                    None => {
                        return Err(FsError::NotFound);
                    },
                };
                proof {
                    assert forall|n: Seq<char>| #[trigger] directory.entries_view().contains_key(n)
                        implies directory.entries_view()[n].index < store0.len() by {
                        assert(dir0.entries_view().contains_key(n));
                    }
                    assert(dir_ok(directory, store0.len()));
                    assert forall|i: int| 0 <= i <= path@.len() implies #[trigger] level_of(path@, directory, i).wf()
                        && dir_ok(level_of(path@, directory, i), store0.len()) by {
                        if i < path@.len() {
                            assert(level_of(path@, directory, i) == level_of(pn0.path@, pn0.tail, i));
                            assert(level_of(pn0.path@, pn0.tail, i).wf());
                        }
                    }
                }
                let root = Self::fix_up_path_nodes(PathNodes { path, tail: directory }, store);
                proof {
                    assert(extends(store0, store0)) by {
                        assert(store0.subrange(0, store0.len() as int) =~= store0);
                    }
                    assert forall|i: int| 0 <= i <= pn0.path@.len() implies (#[trigger] level_of(pn0.path@, pn0.tail, i)).entries_view()
                        == entries_or_empty(store0, *self, dp.subrange(0, i)) by {
                        assert(dir_entries_at(store0, *self, dp.subrange(0, i)) == Some(level_of(pn0.path@, pn0.tail, i).entries_view()));
                    }
                    assert forall|x: Seq<char>| x != name@ implies #[trigger] entry_of(directory.entries_view(), x) == entry_of(pn0.tail.entries_view(), x) by {}
                    assert forall|p: Seq<Seq<char>>| #[trigger] diverges(p, segs) implies
                        resolve_from(store@, root, p) == resolve_from(store0, *self, p) by {
                        lemma_path_frame(store0, store0, store@, *self, root, pn0.path@, pn0.tail, directory, dp, name@, p);
                    }
                    lemma_resolve_push(store@, root, dp, name@);
                    if node is Dir {
                        lemma_dir_ok_mono(node->Dir_0, removed.index as nat, store@.len());
                    }
                    assert forall|i: int| 1 <= i <= pn0.path@.len() implies #[trigger] level_origin(store0, *self, dp,
                        level_of(pn0.path@, pn0.tail, i), i, 0) by {
                        lemma_follows_origin(pn0.path@, pn0.tail, store0, *self, dp, i, 0);
                    }
                    lemma_prefixes_kept(store0, store@, *self, root, pn0.path@, pn0.tail, directory, dp, 0);
                }
                Ok(OpResult { root_dir: root, result: node })
            },
            PathNodesResult::MissingLink(pn, _) => {
                proof { lemma_blocked_cases(pn.path@, pn.tail, store0, *self, dp); }
                Err(FsError::NotFound)
            },
            PathNodesResult::NotADirectory(pn, _) => {
                proof {
                    lemma_follows_tail(pn.path@, pn.tail, store0, *self, dp);
                    let k = pn.path@.len() as int;
                    assert(dp.subrange(0, k + 1) =~= dp.subrange(0, k).push(dp[k]));
                    lemma_resolve_push(store0, *self, dp.subrange(0, k), dp[k]);
                    lemma_resolve_none_extends(store0, *self, dp.subrange(0, k + 1), dp.subrange(k + 1, dp.len() as int).push(name@));
                    assert(dp.subrange(0, k + 1) + dp.subrange(k + 1, dp.len() as int).push(name@) =~= segs);
                }
                Err(FsError::NotFound)
            },
        }
    }

    /// Moves the node at `path_segments_from` to `path_segments_to`, whose
    /// parent must exist and whose name must be free. Moving a directory into
    /// its own subtree is not detected.
    #[verifier::spinoff_prover]
    pub fn basic_mv(
        &self,
        path_segments_from: &[String],
        path_segments_to: &[String],
        time: i64,
        store: &mut NodeStore,
    ) -> (r: Result<PrivateDirectory, FsError>)
        requires
            self.wf(),
            old(store).wf(),
            dir_ok(*self, old(store)@.len()),
        ensures
            ({
                let from = path_segments_from@.map_values(|s: String| s@);
                let to = path_segments_to@.map_values(|s: String| s@);
                &&& to.len() == 0 ==> r == Err::<PrivateDirectory, FsError>(FsError::InvalidPath)
                &&& to.len() > 0 && from.len() == 0 ==> r == Err::<PrivateDirectory, FsError>(FsError::InvalidPath)
                &&& to.len() > 0 && from.len() > 0 && resolve_from(old(store)@, *self, from) is None
                    ==> r == Err::<PrivateDirectory, FsError>(FsError::NotFound)
                &&& to.len() > 0 && from.len() > 0 && resolve_from(old(store)@, *self, from) is Some
                    && diverges(to.drop_last(), from) ==> match dir_entries_at(old(store)@, *self, to.drop_last()) {
                        None => r == Err::<PrivateDirectory, FsError>(FsError::NotFound),
                        Some(m) => if m.contains_key(to.last()) {
                            r == Err::<PrivateDirectory, FsError>(FsError::FileAlreadyExists)
                        } else {
                            r is Ok
                        },
                    }
                &&& to.len() > 0 && from.len() > 0 && resolve_from(old(store)@, *self, from) is Some
                    && to.drop_last() == from.drop_last() ==> if dir_entries_at(old(store)@, *self, from.drop_last()).unwrap()
                        .remove(from.last()).contains_key(to.last()) {
                        r == Err::<PrivateDirectory, FsError>(FsError::FileAlreadyExists)
                    } else {
                        r is Ok
                    }
                &&& to.len() > 0 && from.len() > 0 && resolve_from(old(store)@, *self, from) is Some
                    && to.drop_last().len() < from.drop_last().len()
                    && to.drop_last() == from.drop_last().subrange(0, to.drop_last().len() as int)
                    ==> if dir_entries_at(old(store)@, *self, to.drop_last()).unwrap().contains_key(to.last()) {
                        r == Err::<PrivateDirectory, FsError>(FsError::FileAlreadyExists)
                    } else {
                        r is Ok
                    }
                &&& r matches Err(e) ==> e == FsError::InvalidPath || e == FsError::NotFound || e == FsError::FileAlreadyExists
                &&& final(store).wf()
                &&& extends(final(store)@, old(store)@)
                &&& r matches Ok(root) ==> {
                    &&& root.wf()
                    &&& dir_ok(root, final(store)@.len())
                    &&& resolve_from(old(store)@, *self, from) matches Some(i)
                    &&& resolve_from(final(store)@, root, to) matches Some(j)
                    &&& moved_revision(final(store)@[j as int], old(store)@[i as int], time)
                    &&& diverges(from, to) ==> resolve_from(final(store)@, root, from) is None
                }
            }),
    {
        let ghost store0 = store@;
        let ghost to = path_segments_to@.map_values(|s: String| s@);
        let ghost from = path_segments_from@.map_values(|s: String| s@);
        let (to_path, to_name) = match split_last(path_segments_to) {
            Ok(split) => split,
            Err(e) => {
                proof { assert(store@.subrange(0, store0.len() as int) =~= store0); }
                return Err(e);
            },
        };
        let removed = match self.rm(path_segments_from, store) {
            Ok(res) => res,
            Err(e) => {
                proof { assert(store@.subrange(0, store0.len() as int) =~= store0); }
                return Err(e);
            },
        };
        let OpResult { root_dir, result: node } = removed;
        let ghost store1 = store@;
        let ghost dp = to.drop_last();
        proof {
            assert(to_path@.map_values(|s: String| s@) =~= dp);
            assert(dp.push(to_name@) =~= to);
        }
        proof {
            if diverges(dp, from) {
                lemma_dir_entries_kept(store0, store1, *self, root_dir, from, dp);
            }
            if dp.len() < from.drop_last().len() && dp == from.drop_last().subrange(0, dp.len() as int) {
                crate::laws::lemma_ancestor_names_kept(store0, *self, store1, root_dir, from, dp);
            }
        }
        let pn = match root_dir.get_path_nodes(to_path, store) {
            PathNodesResult::Complete(pn) => pn,
            PathNodesResult::MissingLink(pn, _) => {
                proof { lemma_incomplete_none(pn.path@, pn.tail, store1, root_dir, dp); }
                return Err(FsError::NotFound);
            },
            PathNodesResult::NotADirectory(pn, _) => {
                proof { lemma_incomplete_none(pn.path@, pn.tail, store1, root_dir, dp); }
                return Err(FsError::NotFound);
            },
        };
        let ghost pn0 = pn;
        proof {
            lemma_follows_tail(pn.path@, pn.tail, store1, root_dir, dp);
            assert(dp.subrange(0, dp.len() as int) =~= dp);
            assert(dir_entries_at(store1, root_dir, dp) == Some(pn.tail.entries_view()));
        }
        let PathNodes { path, tail } = pn;
        let mut directory = tail;
        if directory.get_entry(to_name).is_some() {
            return Err(FsError::FileAlreadyExists);
        }
        let mut node = node;
        let ghost node0 = node;
        node.prepare_next_revision();
        node.update_mtime(time);
        proof {
            if node0 is Dir {
                assert(dir_ok(node0->Dir_0, store1.len()));
                assert(node->Dir_0.entries_view() == node0->Dir_0.entries_view());
                assert(dir_refs_below(node->Dir_0, store1.len()));
            }
        }
        let ghost moved = node;
        let moved_ref = store.put(node);
        let ghost store2 = store@;
        let ghost dir0 = directory;
        directory.prepare_next_revision();
        directory.set_entry(to_name.clone(), moved_ref);
        proof {
            assert forall|n: Seq<char>| #[trigger] directory.entries_view().contains_key(n)
                implies directory.entries_view()[n].index < store2.len() by {
                if n != to_name@ {
                    assert(dir0.entries_view().contains_key(n));
                }
            }
            assert forall|i: int| 0 <= i <= path@.len() implies #[trigger] level_of(path@, directory, i).wf()
                && dir_ok(level_of(path@, directory, i), store2.len()) by {
                if i < path@.len() {
                    assert(level_of(path@, directory, i) == level_of(pn0.path@, pn0.tail, i));
                    assert(level_of(pn0.path@, pn0.tail, i).wf());
                    lemma_dir_ok_mono(level_of(pn0.path@, pn0.tail, i), store1.len(), store2.len());
                }
            }
        }
        let root = Self::fix_up_path_nodes(PathNodes { path, tail: directory }, store);
        proof {
            assert(segments_of(pn0.path@) == dp.subrange(0, dp.len() as int));
            assert(dp.subrange(0, dp.len() as int) =~= dp);
            assert(store@[moved_ref.index as int] == moved) by {
                assert(store@.subrange(0, store2.len() as int)[moved_ref.index as int] == store2[moved_ref.index as int]);
            }
            lemma_resolve_push(store@, root, dp, to_name@);
            assert(store2.subrange(0, store1.len() as int) =~= store1);
            assert(extends(store2, store1));
            if diverges(from, to) {
                assert forall|i: int| 0 <= i <= pn0.path@.len() implies (#[trigger] level_of(pn0.path@, pn0.tail, i)).entries_view()
                    == entries_or_empty(store1, root_dir, dp.subrange(0, i)) by {
                    assert(dir_entries_at(store1, root_dir, dp.subrange(0, i)) == Some(level_of(pn0.path@, pn0.tail, i).entries_view()));
                }
                assert forall|x: Seq<char>| x != to_name@ implies #[trigger] entry_of(directory.entries_view(), x) == entry_of(pn0.tail.entries_view(), x) by {}
                lemma_path_frame(store1, store2, store@, root_dir, root, pn0.path@, pn0.tail, directory, dp, to_name@, from);
            }
            assert(store@.subrange(0, store0.len() as int) =~= store@.subrange(0, store1.len() as int).subrange(0, store0.len() as int));
            assert(store2.subrange(0, store1.len() as int) =~= store1);
            assert(store@.subrange(0, store1.len() as int) =~= store@.subrange(0, store2.len() as int).subrange(0, store1.len() as int));
        }
        Ok(root)
    }
}

impl PrivateDirectory {
    /// The reference of the revision at a path, if the path is not empty and leads to one.
    pub fn get_node_index(&self, path_segments: &[String], store: &NodeStore) -> (r: Option<PrivateRef>)
        requires
            self.wf(),
            store.wf(),
            dir_ok(*self, store@.len()),
        ensures
            path_segments@.len() == 0 ==> r is None,
            path_segments@.len() > 0 ==> match resolve_from(store@, *self, path_segments@.map_values(|s: String| s@)) {
                Some(i) => r == Some(PrivateRef { index: i }),
                None => r is None,
            },
    {
        let ghost segs = path_segments@.map_values(|s: String| s@);
        let (path, name) = match split_last(path_segments) {
            Ok(split) => split,
            Err(_) => {
                return None;
            },
        };
        let ghost dp = segs.drop_last();
        proof {
            assert(path@.map_values(|s: String| s@) =~= dp);
            assert(dp.push(name@) =~= segs);
            lemma_resolve_push(store@, *self, dp, name@);
        }
        match self.get_path_nodes(path, store) {
            PathNodesResult::Complete(pn) => {
                proof {
                    lemma_follows_tail(pn.path@, pn.tail, store@, *self, dp);
                    assert(dp.subrange(0, dp.len() as int) =~= dp);
                }
                match pn.tail.get_entry(name) {
                    Some(e) => {
                        if e.index < store.len() {
                            Some(e)
                        } else {
                            None
                        }
                    },
                    None => None,
                }
            },
            PathNodesResult::MissingLink(pn, _) => {
                proof { lemma_blocked_cases(pn.path@, pn.tail, store@, *self, dp); }
                None
            },
            PathNodesResult::NotADirectory(pn, _) => {
                proof {
                    lemma_follows_tail(pn.path@, pn.tail, store@, *self, dp);
                    let k = pn.path@.len() as int;
                    assert(dp.subrange(0, k + 1) =~= dp.subrange(0, k).push(dp[k]));
                    lemma_resolve_push(store@, *self, dp.subrange(0, k), dp[k]);
                    lemma_resolve_none_extends(store@, *self, dp.subrange(0, k + 1), dp.subrange(k + 1, dp.len() as int).push(name@));
                    assert(dp.subrange(0, k + 1) + dp.subrange(k + 1, dp.len() as int).push(name@) =~= segs);
                }
                None
            },
        }
    }

    /// Stores this directory as a revision of its own and returns its reference.
    pub fn store(self, store: &mut NodeStore) -> (r: PrivateRef)
        requires
            old(store).wf(),
            dir_ok(self, old(store)@.len()),
        ensures
            final(store).wf(),
            final(store)@ == old(store)@.push(PrivateNode::Dir(self)),
            r.index == old(store)@.len(),
    {
        store.put(PrivateNode::Dir(self))
    }
}

} // verus!
