//! Laws that relate several operations of the directory engine.

use vstd::prelude::*;

use crate::directory::{
    blocked_by_file, dir_entries_at, diverges, diverges_at, entries_or_empty, lemma_resolve_bound,
    lemma_resolve_none_extends, lemma_resolve_push, prefixes_kept, read_spec, resolve_from,
    write_error, write_post,
};
use crate::error::FsError;
use crate::node::{PrivateDirectory, PrivateNode};

verus! {

/// A path that resolves leads through directories at each shorter prefix.
pub proof fn lemma_prefix_is_dir(s: Seq<PrivateNode>, d: PrivateDirectory, p: Seq<Seq<char>>, j: int)
    requires
        1 <= j < p.len(),
        resolve_from(s, d, p) is Some,
    ensures
        resolve_from(s, d, p.subrange(0, j)) matches Some(i) && i < s.len() && s[i as int] is Dir,
{
    lemma_resolve_bound(s, d, p.subrange(0, j));
    assert(p.subrange(0, j) + p.subrange(j, p.len() as int) =~= p);
    if !(resolve_from(s, d, p.subrange(0, j)) matches Some(i) && i < s.len() && s[i as int] is Dir) {
        lemma_resolve_none_extends(s, d, p.subrange(0, j), p.subrange(j, p.len() as int));
    }
}

proof fn lemma_prefix_or_diverges(p: Seq<Seq<char>>, q: Seq<Seq<char>>, i: int)
    requires
        0 <= i <= p.len(),
        i <= q.len(),
        p.subrange(0, i) == q.subrange(0, i),
    ensures
        diverges(p, q) || (p.len() <= q.len() && p == q.subrange(0, p.len() as int))
            || (q.len() <= p.len() && q == p.subrange(0, q.len() as int)),
    decreases p.len() - i,
{
    if i == p.len() {
        assert(p.subrange(0, i) =~= p);
    } else if i == q.len() {
        assert(q.subrange(0, i) =~= q);
    } else if p[i] != q[i] {
        assert(diverges_at(p, q, i));
    } else {
        assert(p.subrange(0, i + 1) =~= p.subrange(0, i).push(p[i]));
        assert(q.subrange(0, i + 1) =~= q.subrange(0, i).push(q[i]));
        lemma_prefix_or_diverges(p, q, i + 1);
    }
}

/// A file path and another path that can be written leave each other.
pub proof fn lemma_other_write_diverges(s: Seq<PrivateNode>, r: PrivateDirectory, p: Seq<Seq<char>>, q: Seq<Seq<char>>)
    requires
        read_spec(s, r, p) is Ok,
        write_error(s, r, q) is None,
        p != q,
    ensures
        diverges(p, q),
{
    assert(p.subrange(0, 0) =~= q.subrange(0, 0));
    lemma_prefix_or_diverges(p, q, 0);
    let i = resolve_from(s, r, p).unwrap();
    if !diverges(p, q) {
        if p.len() <= q.len() && p == q.subrange(0, p.len() as int) {
            assert(q.subrange(0, q.len() as int) =~= q);
            assert(p.len() < q.len());
            let dq = q.drop_last();
            assert(dq.subrange(0, p.len() as int) =~= p);
            assert(blocked_by_file(s, r, dq)) by {
                assert(resolve_from(s, r, dq.subrange(0, p.len() as int)) == Some(i));
            }
        } else {
            assert(p.subrange(0, p.len() as int) =~= p);
            assert(q.len() < p.len());
            lemma_prefix_is_dir(s, r, p, q.len() as int);
            assert(p.subrange(0, q.len() as int) == q);
        }
    }
}

/// After a sequence of successful writes, a path reads what was last written to it.
pub proof fn lemma_write_sequence(
    stores: Seq<Seq<PrivateNode>>,
    roots: Seq<PrivateDirectory>,
    paths: Seq<Seq<Seq<char>>>,
    contents: Seq<Seq<u8>>,
    j: int,
)
    requires
        stores.len() == paths.len() + 1,
        roots.len() == paths.len() + 1,
        contents.len() == paths.len(),
        forall|w: int| 0 <= w < paths.len() ==> #[trigger] write_post(stores[w], roots[w], paths[w], contents[w],
            stores[w + 1], roots[w + 1]),
        0 <= j < paths.len(),
        forall|w: int| j < w < paths.len() ==> #[trigger] paths[w] != paths[j],
    ensures
        read_spec(stores.last(), roots.last(), paths[j]) == Ok::<Seq<u8>, FsError>(contents[j]),
    decreases paths.len() - j,
{
    assert(write_post(stores[j], roots[j], paths[j], contents[j], stores[j + 1], roots[j + 1]));
    lemma_read_kept(stores, roots, paths, contents, j, j + 1);
}

proof fn lemma_read_kept(
    stores: Seq<Seq<PrivateNode>>,
    roots: Seq<PrivateDirectory>,
    paths: Seq<Seq<Seq<char>>>,
    contents: Seq<Seq<u8>>,
    j: int,
    w: int,
)
    requires
        stores.len() == paths.len() + 1,
        roots.len() == paths.len() + 1,
        contents.len() == paths.len(),
        forall|v: int| 0 <= v < paths.len() ==> #[trigger] write_post(stores[v], roots[v], paths[v], contents[v],
            stores[v + 1], roots[v + 1]),
        0 <= j < w <= paths.len(),
        forall|v: int| j < v < paths.len() ==> #[trigger] paths[v] != paths[j],
        read_spec(stores[w], roots[w], paths[j]) == Ok::<Seq<u8>, FsError>(contents[j]),
    ensures
        read_spec(stores.last(), roots.last(), paths[j]) == Ok::<Seq<u8>, FsError>(contents[j]),
    decreases paths.len() - w,
{
    let n = paths.len() as int;
    let p = paths[j];
    if w == n {
        assert(stores.last() == stores[n]);
        assert(roots.last() == roots[n]);
    } else {
        assert(write_post(stores[w], roots[w], paths[w], contents[w], stores[w + 1], roots[w + 1]));
        assert(paths[w] != p);
        lemma_other_write_diverges(stores[w], roots[w], p, paths[w]);
        let s0 = stores[w];
        let s1 = stores[w + 1];
        assert(resolve_from(s1, roots[w + 1], p) == resolve_from(s0, roots[w], p));
        lemma_resolve_bound(s0, roots[w], p);
        if resolve_from(s0, roots[w], p) is Some {
            let i = resolve_from(s0, roots[w], p).unwrap();
            assert(s1[i as int] == s0[i as int]) by {
                assert(s1.subrange(0, s0.len() as int)[i as int] == s1[i as int]);
            }
        }
        lemma_read_kept(stores, roots, paths, contents, j, w + 1);
    }
}


/// After a node was removed, each directory above its parent holds the same
/// names as before: only the entry on the way down was replaced.
pub proof fn lemma_ancestor_names_kept(
    s0: Seq<PrivateNode>,
    r0: PrivateDirectory,
    s1: Seq<PrivateNode>,
    r1: PrivateDirectory,
    from: Seq<Seq<char>>,
    dpt: Seq<Seq<char>>,
)
    requires
        from.len() > 0,
        resolve_from(s0, r0, from) is Some,
        dpt.len() < from.drop_last().len(),
        dpt == from.drop_last().subrange(0, dpt.len() as int),
        prefixes_kept(s0, r0, s1, r1, from.drop_last(), 0),
    ensures
        dir_entries_at(s0, r0, dpt) is Some,
        dir_entries_at(s1, r1, dpt) is Some,
        forall|y: Seq<char>| #[trigger] dir_entries_at(s1, r1, dpt).unwrap().contains_key(y)
            == dir_entries_at(s0, r0, dpt).unwrap().contains_key(y),
{
    let dpf = from.drop_last();
    let i = dpt.len() as int;
    assert(dpf.subrange(0, i) == dpt);
    lemma_prefix_is_dir(s0, r0, from, i + 1);
    assert(from.subrange(0, i + 1) =~= dpt.push(dpf[i]));
    lemma_resolve_push(s0, r0, dpt, dpf[i]);
    let m = dir_entries_at(s0, r0, dpt).unwrap();
    assert(m.contains_key(dpf[i]));
    assert(entries_or_empty(s0, r0, dpt) == m);
    let m1 = dir_entries_at(s1, r1, dpt).unwrap();
    assert forall|y: Seq<char>| #[trigger] m1.contains_key(y) == m.contains_key(y) by {
        if y != dpf[i] {
            assert(m1.remove(dpf[i]).contains_key(y) == m1.contains_key(y));
            assert(m.remove(dpf[i]).contains_key(y) == m.contains_key(y));
        }
    }
}

} // verus!
