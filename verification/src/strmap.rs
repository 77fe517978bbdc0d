//! A string-to-string mapping with unique keys, the last write winning, plus
//! the zip constructor and the key-sorted export.

use vstd::prelude::*;
use crate::text::{lex_lt, lemma_lex_connex, lemma_lex_trans, str_eq, str_lt};

verus! {

/// The character-level view of a sequence of string pairs.
pub open spec fn pair_views(ps: Seq<(String, String)>) -> Seq<(Seq<char>, Seq<char>)> {
    Seq::new(ps.len(), |i: int| (ps[i].0@, ps[i].1@))
}

/// The character-level views of a sequence of strings.
pub open spec fn str_views(ss: Seq<String>) -> Seq<Seq<char>> {
    Seq::new(ss.len(), |i: int| ss[i]@)
}

/// No two pairs share a key.
pub open spec fn unique_keys(ps: Seq<(Seq<char>, Seq<char>)>) -> bool {
    forall|i: int, j: int| 0 <= i < j < ps.len() ==> (#[trigger] ps[i]).0 != (#[trigger] ps[j]).0
}

/// Keys in strictly ascending lexicographic order.
pub open spec fn sorted_by_keys(ps: Seq<(Seq<char>, Seq<char>)>) -> bool {
    forall|i: int, j: int| 0 <= i < j < ps.len() ==> lex_lt((#[trigger] ps[i]).0, (#[trigger] ps[j]).0)
}

/// The mapping a sequence of pairs denotes, later pairs overriding earlier
/// ones.
pub open spec fn pairs_map(ps: Seq<(Seq<char>, Seq<char>)>) -> Map<Seq<char>, Seq<char>>
    decreases ps.len(),
{
    if ps.len() == 0 {
        Map::empty()
    } else {
        pairs_map(ps.drop_last()).insert(ps.last().0, ps.last().1)
    }
}

/// With unique keys, the denoted mapping contains exactly the pairs' keys and
/// assigns each key its pair's value.
pub proof fn lemma_pairs_map_props(ps: Seq<(Seq<char>, Seq<char>)>)
    requires
        unique_keys(ps),
    ensures
        forall|k: Seq<char>|
            pairs_map(ps).dom().contains(k) <==> exists|i: int|
                0 <= i < ps.len() && (#[trigger] ps[i]).0 == k,
        forall|i: int|
            0 <= i < ps.len() ==> pairs_map(ps)[(#[trigger] ps[i]).0] == ps[i].1,
    decreases ps.len(),
{
    if ps.len() > 0 {
        let t = ps.drop_last();
        let last = ps.last();
        assert(unique_keys(t)) by {
            assert forall|i: int, j: int| 0 <= i < j < t.len() implies (#[trigger] t[i]).0 != (
            #[trigger] t[j]).0 by {
                assert(ps[i].0 != ps[j].0);
            }
        }
        lemma_pairs_map_props(t);
        assert forall|k: Seq<char>| pairs_map(ps).dom().contains(k) implies exists|i: int|
            0 <= i < ps.len() && (#[trigger] ps[i]).0 == k by {
            if k == last.0 {
                assert((ps[ps.len() - 1]).0 == k);
            } else {
                assert(pairs_map(t).dom().contains(k));
                let i = choose|i: int| 0 <= i < t.len() && (#[trigger] t[i]).0 == k;
                assert(t[i] == ps[i]);
                assert((ps[i]).0 == k);
            }
        }
        assert forall|k: Seq<char>|
            (exists|i: int| 0 <= i < ps.len() && (#[trigger] ps[i]).0 == k) implies pairs_map(
            ps,
        ).dom().contains(k) by {
            let i = choose|i: int| 0 <= i < ps.len() && (#[trigger] ps[i]).0 == k;
            if i < ps.len() - 1 {
                assert((t[i]).0 == k);
            }
        }
        assert forall|i: int| 0 <= i < ps.len() implies pairs_map(ps)[(#[trigger] ps[i]).0]
            == ps[i].1 by {
            if i < ps.len() - 1 {
                assert(ps[i].0 != last.0);
                assert(pairs_map(t)[(t[i]).0] == t[i].1);
            }
        }
    }
}

/// Rewriting the value of the pair at `idx` rewrites the denoted mapping at
/// that pair's key.
proof fn lemma_pairs_map_update(ps: Seq<(Seq<char>, Seq<char>)>, idx: int, v: Seq<char>)
    requires
        unique_keys(ps),
        0 <= idx < ps.len(),
    ensures
        pairs_map(ps.update(idx, (ps[idx].0, v))) == pairs_map(ps).insert(ps[idx].0, v),
    decreases ps.len(),
{
    let k = ps[idx].0;
    let q = ps.update(idx, (k, v));
    if idx == ps.len() - 1 {
        assert(q.drop_last() =~= ps.drop_last());
        assert(q.last() == (k, v));
        assert(pairs_map(ps.drop_last()).insert(k, ps.last().1).insert(k, v) =~= pairs_map(
            ps.drop_last(),
        ).insert(k, v));
    } else {
        let t = ps.drop_last();
        let last = ps.last();
        assert(unique_keys(t)) by {
            assert forall|i: int, j: int| 0 <= i < j < t.len() implies (#[trigger] t[i]).0 != (
            #[trigger] t[j]).0 by {
                assert(ps[i].0 != ps[j].0);
            }
        }
        assert(q.drop_last() =~= t.update(idx, (k, v)));
        assert(q.last() == last);
        assert(t[idx] == ps[idx]);
        lemma_pairs_map_update(t, idx, v);
        assert(k != last.0) by {
            assert(ps[idx].0 != ps[ps.len() - 1].0);
        }
        assert(pairs_map(t).insert(k, v).insert(last.0, last.1) =~= pairs_map(t).insert(
            last.0,
            last.1,
        ).insert(k, v));
    }
}

/// Inserting a pair with a fresh key anywhere adds exactly that binding.
proof fn lemma_pairs_map_insert_fresh(
    ps: Seq<(Seq<char>, Seq<char>)>,
    p: int,
    pair: (Seq<char>, Seq<char>),
)
    requires
        unique_keys(ps),
        0 <= p <= ps.len(),
        forall|i: int| 0 <= i < ps.len() ==> (#[trigger] ps[i]).0 != pair.0,
    ensures
        pairs_map(ps.insert(p, pair)) == pairs_map(ps).insert(pair.0, pair.1),
        unique_keys(ps.insert(p, pair)),
    decreases ps.len(),
{
    let q = ps.insert(p, pair);
    ps.insert_ensures(p, pair);
    assert(unique_keys(q)) by {
        assert forall|i: int, j: int| 0 <= i < j < q.len() implies (#[trigger] q[i]).0 != (
        #[trigger] q[j]).0 by {
            if i < p && j < p {
                assert(q[i] == ps[i] && q[j] == ps[j]);
            } else if i < p && j == p {
                assert(q[i] == ps[i] && q[j] == pair);
            } else if i < p && j > p {
                assert(q[i] == ps[i] && q[j] == ps[j - 1]);
            } else if i == p {
                assert(q[i] == pair && q[j] == ps[j - 1]);
            } else {
                assert(q[i] == ps[i - 1] && q[j] == ps[j - 1]);
            }
        }
    }
    if p == ps.len() {
        assert(q =~= ps.push(pair));
        assert(q.drop_last() =~= ps);
    } else {
        let t = ps.drop_last();
        let last = ps.last();
        assert(unique_keys(t)) by {
            assert forall|i: int, j: int| 0 <= i < j < t.len() implies (#[trigger] t[i]).0 != (
            #[trigger] t[j]).0 by {
                assert(ps[i].0 != ps[j].0);
            }
        }
        assert(q.drop_last() =~= t.insert(p, pair)) by {
            t.insert_ensures(p, pair);
            assert forall|i: int| 0 <= i < q.len() - 1 implies q[i] == t.insert(p, pair)[i] by {
                if i < p {
                    assert(q[i] == ps[i]);
                } else if i == p {
                    assert(q[i] == pair);
                } else {
                    assert(q[i] == ps[i - 1]);
                    assert(t.insert(p, pair)[i] == t[i - 1]);
                }
            }
        }
        assert(q.last() == ps.last()) by {
            assert(q[q.len() - 1] == ps[ps.len() - 1]);
        }
        lemma_pairs_map_insert_fresh(t, p, pair);
        assert(pair.0 != last.0) by {
            assert(ps[ps.len() - 1].0 != pair.0);
        }
        assert(pairs_map(t).insert(pair.0, pair.1).insert(last.0, last.1) =~= pairs_map(t).insert(
            last.0,
            last.1,
        ).insert(pair.0, pair.1));
    }
}

/// A prefix of a unique-key sequence keeps its keys unique.
proof fn lemma_unique_take(ps: Seq<(Seq<char>, Seq<char>)>, n: int)
    requires
        unique_keys(ps),
        0 <= n <= ps.len(),
    ensures
        unique_keys(ps.take(n)),
{
    assert forall|i: int, j: int| 0 <= i < j < ps.take(n).len() implies (#[trigger] ps.take(
        n,
    )[i]).0 != (#[trigger] ps.take(n)[j]).0 by {
        assert(ps[i].0 != ps[j].0);
    }
}

/// A key that denotes no binding of a unique-key prefix appears nowhere in a
/// pair sequence denoting the same mapping.
proof fn lemma_fresh_key(e: Seq<(Seq<char>, Seq<char>)>, i: int, ov: Seq<(Seq<char>, Seq<char>)>)
    requires
        unique_keys(e),
        0 <= i < e.len(),
        unique_keys(ov),
        pairs_map(ov) == pairs_map(e.take(i)),
    ensures
        forall|q: int| 0 <= q < ov.len() ==> (#[trigger] ov[q]).0 != e[i].0,
{
    lemma_unique_take(e, i);
    lemma_pairs_map_props(ov);
    lemma_pairs_map_props(e.take(i));
    assert forall|q: int| 0 <= q < ov.len() implies (#[trigger] ov[q]).0 != e[i].0 by {
        if ov[q].0 == e[i].0 {
            assert(pairs_map(ov).dom().contains(e[i].0));
            let a = choose|a: int|
                0 <= a < e.take(i).len() && (#[trigger] e.take(i)[a]).0 == e[i].0;
            assert(e.take(i)[a] == e[a]);
            assert(e[a].0 != e[i].0);
            assert(false);
        }
    }
}

/// Inserting a pair between smaller and larger keys keeps the keys strictly
/// ascending.
proof fn lemma_sorted_insert(
    ov: Seq<(Seq<char>, Seq<char>)>,
    p: int,
    pair: (Seq<char>, Seq<char>),
)
    requires
        sorted_by_keys(ov),
        0 <= p <= ov.len(),
        forall|q: int| 0 <= q < p ==> lex_lt((#[trigger] ov[q]).0, pair.0),
        p < ov.len() ==> lex_lt(pair.0, ov[p].0),
    ensures
        sorted_by_keys(ov.insert(p, pair)),
{
    ov.insert_ensures(p, pair);
    let nv = ov.insert(p, pair);
    assert forall|a: int, b: int| 0 <= a < b < nv.len() implies lex_lt(
        (#[trigger] nv[a]).0,
        (#[trigger] nv[b]).0,
    ) by {
        if a < p && b < p {
            assert(nv[a] == ov[a] && nv[b] == ov[b]);
        } else if a < p && b == p {
            assert(nv[a] == ov[a]);
        } else if a < p && b > p {
            assert(nv[a] == ov[a] && nv[b] == ov[b - 1]);
        } else if a == p && b > p {
            assert(nv[b] == ov[b - 1]);
            if b - 1 > p {
                lemma_lex_trans(pair.0, ov[p].0, ov[b - 1].0);
            }
        } else {
            assert(nv[a] == ov[a - 1] && nv[b] == ov[b - 1]);
        }
    }
}

/// The mapping obtained by pairing `ks[i]` with `vs[i]`, later indices
/// winning on duplicate keys.
pub open spec fn zip_map_spec(ks: Seq<Seq<char>>, vs: Seq<Seq<char>>) -> Map<Seq<char>, Seq<char>>
    recommends
        ks.len() == vs.len(),
    decreases ks.len(),
{
    if ks.len() == 0 {
        Map::empty()
    } else {
        zip_map_spec(ks.drop_last(), vs.drop_last()).insert(ks.last(), vs.last())
    }
}

/// A string-keyed mapping stored as a vector of pairs in insertion order,
/// with unique keys.
#[derive(Debug)]
pub struct StrMap {
    pairs: Vec<(String, String)>,
}

impl View for StrMap {
    type V = Map<Seq<char>, Seq<char>>;

    closed spec fn view(&self) -> Map<Seq<char>, Seq<char>> {
        pairs_map(pair_views(self.pairs@))
    }
}

impl StrMap {
    /// The stored pairs, as character sequences, in insertion order.
    pub closed spec fn entries(&self) -> Seq<(Seq<char>, Seq<char>)> {
        pair_views(self.pairs@)
    }

    /// The map's invariant: no two stored pairs share a key.
    pub open spec fn wf(&self) -> bool {
        unique_keys(self.entries())
    }

    /// Creates an empty mapping.
    pub fn new() -> (r: StrMap)
        ensures
            r@ == Map::<Seq<char>, Seq<char>>::empty(),
            r.entries() == Seq::<(Seq<char>, Seq<char>)>::empty(),
            r.wf(),
    {
        let r = StrMap { pairs: Vec::new() };
        proof {
            assert(r.entries() =~= Seq::<(Seq<char>, Seq<char>)>::empty());
        }
        r
    }

    /// Binds `k` to `v`, replacing any earlier binding of `k`.
    pub fn insert(&mut self, k: String, v: String)
        requires
            old(self).wf(),
        ensures
            final(self).wf(),
            final(self)@ == old(self)@.insert(k@, v@),
    {
        let n = self.pairs.len();
        let mut idx: usize = 0;
        while idx < n
            invariant
                *self == *old(self),
                old(self).wf(),
                n == self.pairs.len(),
                idx <= n,
                forall|j: int| 0 <= j < idx ==> (#[trigger] old(self).entries()[j]).0 != k@,
            decreases n - idx,
        {
            proof {
                assert(self.entries()[idx as int].0 == self.pairs@[idx as int].0@);
            }
            if str_eq(self.pairs[idx].0.as_str(), k.as_str()) {
                let ghost e0 = old(self).entries();
                self.pairs.remove(idx);
                self.pairs.insert(idx, (k, v));
                proof {
                    let e1 = self.entries();
                    assert(e1 =~= e0.update(idx as int, (e0[idx as int].0, v@))) by {
                        old(self).pairs@.remove(idx as int).insert_ensures(idx as int, (k, v));
                        old(self).pairs@.remove_ensures(idx as int);
                        assert forall|j: int| 0 <= j < e1.len() implies e1[j] == e0.update(
                            idx as int,
                            (e0[idx as int].0, v@),
                        )[j] by {
                            if j < idx {
                                assert(self.pairs@[j] == old(self).pairs@[j]);
                            } else if j > idx {
                                assert(self.pairs@[j] == old(self).pairs@.remove(idx as int)[j
                                    - 1]);
                                assert(self.pairs@[j] == old(self).pairs@[j]);
                            }
                        }
                    }
                    lemma_pairs_map_update(e0, idx as int, v@);
                    assert(unique_keys(e1)) by {
                        assert forall|i: int, j: int| 0 <= i < j < e1.len() implies (
                        #[trigger] e1[i]).0 != (#[trigger] e1[j]).0 by {
                            assert(e1[i].0 == e0[i].0 && e1[j].0 == e0[j].0);
                            assert(e0[i].0 != e0[j].0);
                        }
                    }
                }
                return;
            }
            idx += 1;
        }
        let ghost e0 = old(self).entries();
        self.pairs.push((k, v));
        proof {
            let e1 = self.entries();
            assert(e1 =~= e0.push((k@, v@)));
            assert(e1.drop_last() =~= e0);
            assert(e1.last() == (k@, v@));
            assert(unique_keys(e1)) by {
                assert forall|i: int, j: int| 0 <= i < j < e1.len() implies (#[trigger] e1[i]).0
                    != (#[trigger] e1[j]).0 by {
                    if j < e0.len() {
                        assert(e0[i].0 != e0[j].0);
                    } else {
                        assert(e1[i].0 == e0[i].0);
                        assert(e0[i].0 != k@);
                    }
                }
            }
        }
    }
}

/// Zips two slices into a mapping, `arr1[i]` becoming the key for `arr2[i]`
/// (later pairs winning on duplicate keys), or None if the lengths differ.
pub fn zip_hash(arr1: &[String], arr2: &[String]) -> (r: Option<StrMap>)
    ensures
        r is Some <==> arr1@.len() == arr2@.len(),
        match r {
            Some(m) => m.wf() && m@ == zip_map_spec(str_views(arr1@), str_views(arr2@)),
            None => arr1@.len() != arr2@.len(),
        },
{
    let n = arr1.len();
    if n != arr2.len() {
        return None;
    }
    let ghost ks = str_views(arr1@);
    let ghost vs = str_views(arr2@);
    let mut m = StrMap::new();
    let mut i: usize = 0;
    proof {
        assert(ks.take(0) =~= Seq::<Seq<char>>::empty());
    }
    while i < n
        invariant
            n == arr1@.len(),
            n == arr2@.len(),
            ks == str_views(arr1@),
            vs == str_views(arr2@),
            i <= n,
            m.wf(),
            m@ == zip_map_spec(ks.take(i as int), vs.take(i as int)),
        decreases n - i,
    {
        m.insert(arr1[i].clone(), arr2[i].clone());
        proof {
            assert(ks.take(i as int + 1).drop_last() =~= ks.take(i as int));
            assert(vs.take(i as int + 1).drop_last() =~= vs.take(i as int));
            assert(ks.take(i as int + 1).last() == arr1@[i as int]@);
            assert(vs.take(i as int + 1).last() == arr2@[i as int]@);
        }
        i += 1;
    }
    proof {
        assert(ks.take(n as int) =~= ks);
        assert(vs.take(n as int) =~= vs);
    }
    Some(m)
}

/// Converts a mapping into its pairs, sorted by key ascending: the result's
/// keys are unique, strictly ascending, and denote exactly the mapping.
pub fn hash_to_array(map: &StrMap) -> (r: Vec<(String, String)>)
    requires
        map.wf(),
    ensures
        unique_keys(pair_views(r@)),
        sorted_by_keys(pair_views(r@)),
        pairs_map(pair_views(r@)) == map@,
{
    let n = map.pairs.len();
    let ghost e = map.entries();
    let mut out: Vec<(String, String)> = Vec::new();
    let mut i: usize = 0;
    proof {
        assert(pair_views(out@) =~= Seq::<(Seq<char>, Seq<char>)>::empty());
        assert(e.take(0) =~= Seq::<(Seq<char>, Seq<char>)>::empty());
    }
    while i < n
        invariant
            n == map.pairs@.len(),
            e == map.entries(),
            unique_keys(e),
            i <= n,
            unique_keys(pair_views(out@)),
            sorted_by_keys(pair_views(out@)),
            pairs_map(pair_views(out@)) == pairs_map(e.take(i as int)),
        decreases n - i,
    {
        let key = map.pairs[i].0.clone();
        let val = map.pairs[i].1.clone();
        let ghost ov = pair_views(out@);
        let ghost vp0 = out@;
        proof {
            assert(key@ == e[i as int].0 && val@ == e[i as int].1);
            lemma_fresh_key(e, i as int, ov);
        }
        let mut p: usize = 0;
        while p < out.len() && str_lt(out[p].0.as_str(), key.as_str())
            invariant
                ov == pair_views(out@),
                p <= out@.len(),
                forall|q: int| 0 <= q < p ==> lex_lt((#[trigger] ov[q]).0, key@),
            decreases out@.len() - p,
        {
            proof {
                assert(ov[p as int].0 == out@[p as int].0@);
            }
            p += 1;
        }
        proof {
            if (p as int) < ov.len() {
                assert(ov[p as int].0 == out@[p as int].0@);
                assert(!lex_lt(ov[p as int].0, key@));
                assert(ov[p as int].0 != key@);
                lemma_lex_connex(ov[p as int].0, key@);
                assert(lex_lt(key@, ov[p as int].0));
            }
        }
        out.insert(p, (key, val));
        proof {
            let nv = pair_views(out@);
            let gpair = (e[i as int].0, e[i as int].1);
            assert(nv =~= ov.insert(p as int, gpair)) by {
                ov.insert_ensures(p as int, gpair);
                vp0.insert_ensures(p as int, (key, val));
                assert forall|j: int| 0 <= j < nv.len() implies nv[j] == ov.insert(
                    p as int,
                    gpair,
                )[j] by {
                    if j < p {
                        assert(out@[j] == vp0[j]);
                    } else if j == p {
                        assert(out@[j] == (key, val));
                    } else {
                        assert(out@[j] == vp0[j - 1]);
                    }
                }
            }
            lemma_pairs_map_insert_fresh(ov, p as int, gpair);
            lemma_sorted_insert(ov, p as int, gpair);
            assert(e.take(i as int + 1).drop_last() =~= e.take(i as int));
            assert(e.take(i as int + 1).last() == e[i as int]);
        }
        i += 1;
    }
    proof {
        assert(e.take(n as int) =~= e);
    }
    out
}

} // verus!
