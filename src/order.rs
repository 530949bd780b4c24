use vstd::prelude::*;

use crate::node::Metadata;

verus! {

/// Lexicographic order on names, character by character; a proper prefix comes first.
pub open spec fn name_lt(a: Seq<char>, b: Seq<char>) -> bool
    decreases a.len(),
{
    if a.len() == 0 {
        b.len() > 0
    } else if b.len() == 0 {
        false
    } else if a[0] != b[0] {
        (a[0] as int) < (b[0] as int)
    } else {
        name_lt(a.drop_first(), b.drop_first())
    }
}

pub proof fn lemma_name_irreflexive(a: Seq<char>)
    ensures
        !name_lt(a, a),
    decreases a.len(),
{
    if a.len() > 0 {
        lemma_name_irreflexive(a.drop_first());
    }
}

pub proof fn lemma_name_transitive(a: Seq<char>, b: Seq<char>, c: Seq<char>)
    requires
        name_lt(a, b),
        name_lt(b, c),
    ensures
        name_lt(a, c),
    decreases a.len(),
{
    if a.len() > 0 && b.len() > 0 && c.len() > 0 && a[0] == b[0] && b[0] == c[0] {
        lemma_name_transitive(a.drop_first(), b.drop_first(), c.drop_first());
    }
}

pub proof fn lemma_name_total(a: Seq<char>, b: Seq<char>)
    requires
        a != b,
    ensures
        name_lt(a, b) || name_lt(b, a),
    decreases a.len(),
{
    if a.len() > 0 && b.len() > 0 && a[0] == b[0] {
        if a.drop_first() == b.drop_first() {
            assert(a =~= seq![a[0]] + a.drop_first());
            assert(b =~= seq![b[0]] + b.drop_first());
        }
        lemma_name_total(a.drop_first(), b.drop_first());
    } else if a.len() == 0 && b.len() == 0 {
        assert(a =~= b);
    }
}

/// Whether `a` comes before `b`.
pub fn names_lt(a: &String, b: &String) -> (r: bool)
    ensures
        r == name_lt(a@, b@),
{
    let x = a.as_str();
    let y = b.as_str();
    let n = x.unicode_len();
    let m = y.unicode_len();
    let mut i: usize = 0;
    assert(x@.subrange(0, n as int) =~= x@);
    assert(y@.subrange(0, m as int) =~= y@);
    while i < n && i < m
        invariant
            x@ == a@,
            y@ == b@,
            n == x@.len(),
            m == y@.len(),
            i <= n,
            i <= m,
            name_lt(x@, y@) == name_lt(x@.subrange(i as int, n as int), y@.subrange(i as int, m as int)),
        decreases n - i,
    {
        let c = x.get_char(i);
        let d = y.get_char(i);
        let ghost sa = x@.subrange(i as int, n as int);
        let ghost sb = y@.subrange(i as int, m as int);
        assert(sa[0] == c && sb[0] == d);
        if c != d {
            assert(name_lt(sa, sb) == ((sa[0] as int) < (sb[0] as int)));
            let cu = c as u32;
            let du = d as u32;
            assert(cu as int == c as int && du as int == d as int);
            return cu < du;
        }
        assert(sa.drop_first() =~= x@.subrange(i + 1, n as int));
        assert(sb.drop_first() =~= y@.subrange(i + 1, m as int));
        i = i + 1;
    }
    i < m
}

/// `x` is one of the first `n` entries of `v`.
pub open spec fn among(v: Seq<(String, Metadata)>, x: (String, Metadata), n: int) -> bool {
    exists|u: int| 0 <= u < n && x == #[trigger] v[u]
}

/// The entries in ascending order of their names, which must be distinct.
pub fn sort_by_name(v: Vec<(String, Metadata)>) -> (r: Vec<(String, Metadata)>)
    requires
        forall|t: int, u: int| 0 <= t < u < v@.len() ==> #[trigger] v@[t].0@ != #[trigger] v@[u].0@,
    ensures
        r@.len() == v@.len(),
        forall|t: int| 0 <= t < r@.len() ==> among(v@, #[trigger] r@[t], v@.len() as int),
        forall|t: int, u: int| 0 <= t < u < r@.len() ==> name_lt(#[trigger] r@[t].0@, #[trigger] r@[u].0@),
{
    let mut out: Vec<(String, Metadata)> = Vec::new();
    let mut i: usize = 0;
    while i < v.len()
        invariant
            i <= v@.len(),
            out@.len() == i,
            forall|t: int, u: int| 0 <= t < u < v@.len() ==> #[trigger] v@[t].0@ != #[trigger] v@[u].0@,
            forall|t: int| 0 <= t < out@.len() ==> among(v@, #[trigger] out@[t], i as int),
            forall|t: int, u: int| 0 <= t < u < out@.len() ==> name_lt(#[trigger] out@[t].0@, #[trigger] out@[u].0@),
        decreases v@.len() - i,
    {
        let name = v[i].0.clone();
        let meta = v[i].1;
        let ghost e = v@[i as int];
        let mut pos: usize = 0;
        while pos < out.len() && !names_lt(&name, &out[pos].0)
            invariant
                pos <= out@.len(),
                forall|t: int| 0 <= t < pos ==> !name_lt(name@, #[trigger] out@[t].0@),
            decreases out@.len() - pos,
        {
            pos = pos + 1;
        }
        let ghost before = out@;
        proof {
            assert forall|t: int| 0 <= t < before.len() implies (#[trigger] before[t]).0@ != name@ by {
                assert(among(v@, before[t], i as int));
                let u = choose|u: int| 0 <= u < i && before[t] == #[trigger] v@[u];
                assert(v@[u].0@ != v@[i as int].0@);
            }
        }
        out.insert(pos, (name, meta));
        proof {
            assert(out@[pos as int] == e);
            assert forall|t: int| 0 <= t < out@.len() implies among(v@, #[trigger] out@[t], i + 1) by {
                if t < pos {
                    assert(out@[t] == before[t]);
                    assert(among(v@, before[t], i as int));
                } else if t > pos {
                    assert(out@[t] == before[t - 1]);
                    assert(among(v@, before[t - 1], i as int));
                } else {
                    assert(out@[t] == v@[i as int]);
                }
            }
            assert forall|t: int, u: int| 0 <= t < u < out@.len() implies name_lt(#[trigger] out@[t].0@, #[trigger] out@[u].0@) by {
                if t < pos && u < pos {
                    assert(out@[t] == before[t] && out@[u] == before[u]);
                } else if t < pos && u == pos {
                    assert(out@[t] == before[t]);
                    lemma_name_total(before[t].0@, name@);
                } else if t < pos && u > pos {
                    assert(out@[t] == before[t] && out@[u] == before[u - 1]);
                } else if t == pos {
                    assert(out@[u] == before[u - 1]);
                    if u - 1 > pos {
                        assert(name_lt(before[pos as int].0@, before[u - 1].0@));
                        lemma_name_transitive(name@, before[pos as int].0@, before[u - 1].0@);
                    }
                } else {
                    assert(out@[t] == before[t - 1] && out@[u] == before[u - 1]);
                }
            }
        }
        i = i + 1;
    }
    assert forall|t: int| 0 <= t < out@.len() implies among(v@, #[trigger] out@[t], v@.len() as int) by {
        assert(among(v@, out@[t], i as int));
    }
    out
}

} // verus!
