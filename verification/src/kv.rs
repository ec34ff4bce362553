//! Sorted association lists over raw byte keys: the representation behind
//! every committed view and every change log in this crate. Entries are held
//! in strictly ascending key order, so a list is the canonical form of the
//! finite map it denotes, and equal maps have equal representations.

use vstd::prelude::*;

use crate::bytes::{copy_bytes, key_cmp, lex_lt, KeyOrder};
use crate::bytes::{lemma_lex_asym, lemma_lex_irrefl, lemma_lex_total, lemma_lex_trans};

verus! {

/// The finite map denoted by a sequence of key-value pairs; on duplicate
/// keys the later pair wins.
pub open spec fn kmap<V>(s: Seq<(Seq<u8>, V)>) -> Map<Seq<u8>, V>
    decreases s.len(),
{
    if s.len() == 0 {
        Map::empty()
    } else {
        kmap(s.drop_last()).insert(s.last().0, s.last().1)
    }
}

/// Keys strictly ascend, so every key occurs at most once.
pub open spec fn keys_sorted<V>(s: Seq<(Seq<u8>, V)>) -> bool {
    forall|i: int, j: int| 0 <= i < j < s.len() ==> lex_lt(s[i].0, s[j].0)
}

/// The map restricted to keys not below `from`.
pub open spec fn restrict_from<V>(m: Map<Seq<u8>, V>, from: Seq<u8>) -> Map<Seq<u8>, V> {
    Map::new(|k: Seq<u8>| m.contains_key(k) && !lex_lt(k, from), |k: Seq<u8>| m[k])
}

/// A key is in the denoted map exactly when some pair carries it.
pub proof fn lemma_kmap_domain<V>(s: Seq<(Seq<u8>, V)>)
    ensures
        forall|k: Seq<u8>|
            #[trigger] kmap(s).contains_key(k) <==> (exists|i: int|
                0 <= i < s.len() && #[trigger] s[i].0 == k),
    decreases s.len(),
{
    if s.len() > 0 {
        lemma_kmap_domain(s.drop_last());
        assert(forall|i: int|
            0 <= i < s.drop_last().len() ==> #[trigger] s.drop_last()[i] == s[i]);
        assert(kmap(s) == kmap(s.drop_last()).insert(s.last().0, s.last().1));
        assert forall|k: Seq<u8>| #[trigger] kmap(s).contains_key(k) implies (exists|i: int|
            0 <= i < s.len() && #[trigger] s[i].0 == k) by {
            if k == s.last().0 {
                assert(s[s.len() - 1].0 == k);
            } else {
                assert(kmap(s.drop_last()).contains_key(k));
                let i = choose|i: int|
                    0 <= i < s.drop_last().len() && #[trigger] s.drop_last()[i].0 == k;
                assert(s.drop_last()[i] == s[i]);
                assert(s[i].0 == k);
            }
        }
        assert forall|k: Seq<u8>| (exists|i: int|
            0 <= i < s.len() && #[trigger] s[i].0 == k) implies #[trigger] kmap(s).contains_key(k) by {
            let i = choose|i: int| 0 <= i < s.len() && #[trigger] s[i].0 == k;
            if i < s.len() - 1 {
                assert(s.drop_last()[i].0 == k);
            }
        }
    }
}

/// With sorted keys, looking a pair's key up in the denoted map gives that
/// pair's value.
pub proof fn lemma_kmap_index<V>(s: Seq<(Seq<u8>, V)>)
    requires
        keys_sorted(s),
    ensures
        forall|i: int|
            0 <= i < s.len() ==> kmap(s).contains_key(#[trigger] s[i].0) && kmap(s)[s[i].0]
                == s[i].1,
    decreases s.len(),
{
    if s.len() > 0 {
        assert(keys_sorted(s.drop_last())) by {
            assert(forall|i: int, j: int|
                0 <= i < j < s.drop_last().len() ==> #[trigger] s.drop_last()[i].0
                    == s[i].0 && #[trigger] s.drop_last()[j].0 == s[j].0);
        }
        lemma_kmap_index(s.drop_last());
        assert forall|i: int| 0 <= i < s.len() implies kmap(s).contains_key(
            #[trigger] s[i].0,
        ) && kmap(s)[s[i].0] == s[i].1 by {
            if i < s.len() - 1 {
                assert(s.drop_last()[i] == s[i]);
                assert(lex_lt(s[i].0, s.last().0));
                lemma_lex_asym(s[i].0, s.last().0);
            }
        }
    }
}

/// Dropping the last pair of a sorted list removes exactly its key.
pub proof fn lemma_kmap_drop_last<V>(s: Seq<(Seq<u8>, V)>)
    requires
        keys_sorted(s),
        s.len() > 0,
    ensures
        kmap(s.drop_last()) == kmap(s).remove(s.last().0),
        keys_sorted(s.drop_last()),
{
    assert(forall|i: int|
        0 <= i < s.drop_last().len() ==> #[trigger] s.drop_last()[i] == s[i]);
    lemma_kmap_domain(s.drop_last());
    assert forall|i: int| 0 <= i < s.drop_last().len() implies #[trigger] s.drop_last()[i].0
        != s.last().0 by {
        assert(lex_lt(s[i].0, s.last().0));
        lemma_lex_asym(s[i].0, s.last().0);
    }
    assert(!kmap(s.drop_last()).contains_key(s.last().0));
    assert(kmap(s.drop_last()) =~= kmap(s).remove(s.last().0));
}

/// Inserting a pair at its ordered position inserts its key into the map.
pub proof fn lemma_kmap_insert<V>(s: Seq<(Seq<u8>, V)>, i: int, k: Seq<u8>, v: V)
    requires
        keys_sorted(s),
        0 <= i <= s.len(),
        forall|j: int| 0 <= j < i ==> lex_lt(#[trigger] s[j].0, k),
        forall|j: int| i <= j < s.len() ==> lex_lt(k, #[trigger] s[j].0),
    ensures
        kmap(s.insert(i, (k, v))) == kmap(s).insert(k, v),
        keys_sorted(s.insert(i, (k, v))),
    decreases s.len(),
{
    let t = s.insert(i, (k, v));
    assert(keys_sorted(t)) by {
        assert forall|p: int, q: int| 0 <= p < q < t.len() implies lex_lt(
            t[p].0,
            t[q].0,
        ) by {
            if p < i && q == i {
            } else if p == i && q > i {
            } else if p < i && q > i {
                lemma_lex_trans(s[p].0, k, s[q - 1].0);
            }
        }
    }
    if i == s.len() {
        assert(t =~= s.push((k, v)));
        assert(s.push((k, v)).drop_last() =~= s);
    } else {
        let dl = s.drop_last();
        assert(forall|j: int| 0 <= j < dl.len() ==> #[trigger] dl[j] == s[j]);
        lemma_kmap_insert(dl, i, k, v);
        assert(t.drop_last() =~= dl.insert(i, (k, v)));
        assert(t.last() == s.last());
        assert(kmap(t) == kmap(dl).insert(k, v).insert(s.last().0, s.last().1));
        assert(lex_lt(k, s.last().0));
        lemma_lex_asym(k, s.last().0);
        assert(kmap(dl).insert(k, v).insert(s.last().0, s.last().1) =~= kmap(dl).insert(
            s.last().0,
            s.last().1,
        ).insert(k, v));
    }
}

/// Replacing the value of the pair at `i` updates that key in the map.
pub proof fn lemma_kmap_update<V>(s: Seq<(Seq<u8>, V)>, i: int, v: V)
    requires
        keys_sorted(s),
        0 <= i < s.len(),
    ensures
        kmap(s.update(i, (s[i].0, v))) == kmap(s).insert(s[i].0, v),
        keys_sorted(s.update(i, (s[i].0, v))),
    decreases s.len(),
{
    let t = s.update(i, (s[i].0, v));
    assert(keys_sorted(t));
    if i == s.len() - 1 {
        assert(t.drop_last() =~= s.drop_last());
        assert(kmap(t) =~= kmap(s).insert(s[i].0, v));
    } else {
        let dl = s.drop_last();
        assert(forall|j: int| 0 <= j < dl.len() ==> #[trigger] dl[j] == s[j]);
        assert(keys_sorted(dl));
        lemma_kmap_update(dl, i, v);
        assert(t.drop_last() =~= dl.update(i, (s[i].0, v)));
        assert(t.last() == s.last());
        assert(lex_lt(s[i].0, s.last().0));
        lemma_lex_asym(s[i].0, s.last().0);
        assert(kmap(dl).insert(s[i].0, v).insert(s.last().0, s.last().1) =~= kmap(dl).insert(
            s.last().0,
            s.last().1,
        ).insert(s[i].0, v));
    }
}

/// Deleting the pair at `i` removes that key from the map.
pub proof fn lemma_kmap_remove<V>(s: Seq<(Seq<u8>, V)>, i: int)
    requires
        keys_sorted(s),
        0 <= i < s.len(),
    ensures
        kmap(s.remove(i)) == kmap(s).remove(s[i].0),
        keys_sorted(s.remove(i)),
    decreases s.len(),
{
    let t = s.remove(i);
    assert(keys_sorted(t)) by {
        assert forall|p: int, q: int| 0 <= p < q < t.len() implies lex_lt(
            t[p].0,
            t[q].0,
        ) by {
            if p < i && q >= i {
                assert(t[p] == s[p] && t[q] == s[q + 1]);
            } else if p >= i {
                assert(t[p] == s[p + 1] && t[q] == s[q + 1]);
            }
        }
    }
    if i == s.len() - 1 {
        assert(t =~= s.drop_last());
        lemma_kmap_drop_last(s);
    } else {
        let dl = s.drop_last();
        assert(forall|j: int| 0 <= j < dl.len() ==> #[trigger] dl[j] == s[j]);
        assert(keys_sorted(dl));
        lemma_kmap_remove(dl, i);
        assert(t.drop_last() =~= dl.remove(i));
        assert(t.last() == s.last());
        assert(lex_lt(s[i].0, s.last().0));
        lemma_lex_asym(s[i].0, s.last().0);
        assert(kmap(dl).remove(s[i].0).insert(s.last().0, s.last().1) =~= kmap(dl).insert(
            s.last().0,
            s.last().1,
        ).remove(s[i].0));
    }
}

/// Prepending a pair whose key occurs nowhere in the list inserts its key.
pub proof fn lemma_kmap_prepend<V>(x: (Seq<u8>, V), s: Seq<(Seq<u8>, V)>)
    requires
        forall|j: int| 0 <= j < s.len() ==> (#[trigger] s[j].0) != x.0,
    ensures
        kmap(seq![x] + s) == kmap(s).insert(x.0, x.1),
    decreases s.len(),
{
    let t = seq![x] + s;
    if s.len() == 0 {
        assert(t =~= seq![x]);
        assert(t.len() == 1 && t.last() == x);
        assert(t.drop_last() =~= Seq::<(Seq<u8>, V)>::empty());
        assert(kmap(t.drop_last()) == Map::<Seq<u8>, V>::empty()) by {
            assert(t.drop_last().len() == 0);
        }
        assert(kmap(t) == kmap(t.drop_last()).insert(x.0, x.1));
        assert(kmap(s) == Map::<Seq<u8>, V>::empty());
        assert(kmap(t) =~= kmap(s).insert(x.0, x.1));
    } else {
        assert(forall|j: int| 0 <= j < s.drop_last().len() ==> #[trigger] s.drop_last()[j] == s[j]);
        lemma_kmap_prepend(x, s.drop_last());
        assert(t.drop_last() =~= seq![x] + s.drop_last());
        assert(t.last() == s.last());
        assert(s[s.len() - 1].0 != x.0);
        assert(kmap(t) == kmap(s.drop_last()).insert(x.0, x.1).insert(s.last().0, s.last().1));
        assert(kmap(s.drop_last()).insert(x.0, x.1).insert(s.last().0, s.last().1) =~= kmap(
            s.drop_last(),
        ).insert(s.last().0, s.last().1).insert(x.0, x.1));
    }
}

/// Skipping the first pair of a sorted list removes exactly its key.
pub proof fn lemma_kmap_skip_first<V>(s: Seq<(Seq<u8>, V)>)
    requires
        keys_sorted(s),
        s.len() > 0,
    ensures
        keys_sorted(s.skip(1)),
        kmap(s.skip(1)) == kmap(s).remove(s[0].0),
        kmap(s).contains_key(s[0].0),
        kmap(s)[s[0].0] == s[0].1,
        !kmap(s.skip(1)).contains_key(s[0].0),
{
    let t = s.skip(1);
    assert(forall|j: int| 0 <= j < t.len() ==> #[trigger] t[j] == s[j + 1]);
    assert(keys_sorted(t));
    lemma_kmap_domain(s);
    lemma_kmap_domain(t);
    lemma_kmap_index(s);
    lemma_kmap_index(t);
    assert(s[0].0 == s[0].0 && 0 < s.len());
    assert(kmap(s).contains_key(s[0].0));
    assert forall|j: int| 0 <= j < t.len() implies #[trigger] t[j].0 != s[0].0 by {
        assert(lex_lt(s[0].0, s[j + 1].0));
        lemma_lex_asym(s[0].0, s[j + 1].0);
    }
    assert(!kmap(t).contains_key(s[0].0));
    assert forall|k: Seq<u8>| #[trigger] kmap(t).contains_key(k) implies kmap(s).contains_key(k)
        && kmap(t)[k] == kmap(s)[k] by {
        let j = choose|j: int| 0 <= j < t.len() && #[trigger] t[j].0 == k;
        assert(s[j + 1].0 == k);
        assert(kmap(t)[k] == t[j].1);
        assert(kmap(s)[k] == s[j + 1].1);
    }
    assert forall|k: Seq<u8>| #[trigger] kmap(s).contains_key(k) && k != s[0].0 implies kmap(
        t,
    ).contains_key(k) by {
        let j = choose|j: int| 0 <= j < s.len() && #[trigger] s[j].0 == k;
        assert(j >= 1);
        assert(t[j - 1].0 == k);
    }
    assert(kmap(t) =~= kmap(s).remove(s[0].0));
}

/// A sorted list is the canonical form of the map it denotes: two sorted
/// lists denoting equal maps are equal.
pub proof fn lemma_kmap_canonical<V>(s1: Seq<(Seq<u8>, V)>, s2: Seq<(Seq<u8>, V)>)
    requires
        keys_sorted(s1),
        keys_sorted(s2),
        kmap(s1) == kmap(s2),
    ensures
        s1 == s2,
    decreases s1.len(),
{
    lemma_kmap_domain(s1);
    lemma_kmap_domain(s2);
    if s1.len() == 0 {
        if s2.len() > 0 {
            assert(kmap(s2).contains_key(s2[0].0));
        }
        assert(s1 =~= s2);
    } else if s2.len() == 0 {
        assert(kmap(s1).contains_key(s1[0].0));
        assert(s1 =~= s2);
    } else {
        let k1 = s1.last().0;
        let k2 = s2.last().0;
        assert(kmap(s1).contains_key(k1)) by {
            assert(s1[s1.len() - 1].0 == k1);
        }
        assert(kmap(s2).contains_key(k2)) by {
            assert(s2[s2.len() - 1].0 == k2);
        }
        assert(k1 == k2) by {
            lemma_lex_total(k1, k2);
            if lex_lt(k1, k2) {
                let i = choose|i: int| 0 <= i < s1.len() && #[trigger] s1[i].0 == k2;
                if i < s1.len() - 1 {
                    assert(lex_lt(s1[i].0, k1));
                    lemma_lex_trans(k2, k1, k2);
                    lemma_lex_irrefl(k2);
                } else {
                    lemma_lex_irrefl(k2);
                }
            } else if lex_lt(k2, k1) {
                let i = choose|i: int| 0 <= i < s2.len() && #[trigger] s2[i].0 == k1;
                if i < s2.len() - 1 {
                    assert(lex_lt(s2[i].0, k2));
                    lemma_lex_trans(k1, k2, k1);
                    lemma_lex_irrefl(k1);
                } else {
                    lemma_lex_irrefl(k1);
                }
            }
        }
        lemma_kmap_index(s1);
        lemma_kmap_index(s2);
        assert(s1.last().1 == s2.last().1) by {
            assert(kmap(s1)[s1[s1.len() - 1].0] == s1[s1.len() - 1].1);
            assert(kmap(s2)[s2[s2.len() - 1].0] == s2[s2.len() - 1].1);
        }
        lemma_kmap_drop_last(s1);
        lemma_kmap_drop_last(s2);
        lemma_kmap_canonical(s1.drop_last(), s2.drop_last());
        assert(s1 =~= s2) by {
            assert(s1.len() == s2.len());
            assert(forall|j: int|
                0 <= j < s1.len() - 1 ==> #[trigger] s1[j] == s1.drop_last()[j]
                    && #[trigger] s2[j] == s2.drop_last()[j]);
        }
    }
}

/// The suffix of a sorted list from the first key not below `from` denotes
/// the restriction of the map to keys not below `from`.
pub proof fn lemma_kmap_skip<V>(s: Seq<(Seq<u8>, V)>, i: int, from: Seq<u8>)
    requires
        keys_sorted(s),
        0 <= i <= s.len(),
        forall|j: int| 0 <= j < i ==> lex_lt(#[trigger] s[j].0, from),
        forall|j: int| i <= j < s.len() ==> !lex_lt(#[trigger] s[j].0, from),
    ensures
        keys_sorted(s.skip(i)),
        kmap(s.skip(i)) == restrict_from(kmap(s), from),
{
    let t = s.skip(i);
    assert(forall|j: int| 0 <= j < t.len() ==> #[trigger] t[j] == s[j + i]);
    assert(keys_sorted(t));
    lemma_kmap_domain(s);
    lemma_kmap_domain(t);
    lemma_kmap_index(s);
    lemma_kmap_index(t);
    assert forall|k: Seq<u8>| #[trigger] kmap(t).contains_key(k) implies kmap(s).contains_key(k)
        && !lex_lt(k, from) && kmap(t)[k] == kmap(s)[k] by {
        let j = choose|j: int| 0 <= j < t.len() && #[trigger] t[j].0 == k;
        assert(s[j + i].0 == k);
        assert(kmap(t)[k] == t[j].1);
        assert(kmap(s)[k] == s[j + i].1);
    }
    assert forall|k: Seq<u8>| #[trigger] kmap(s).contains_key(k) && !lex_lt(k, from) implies kmap(
        t,
    ).contains_key(k) by {
        let j = choose|j: int| 0 <= j < s.len() && #[trigger] s[j].0 == k;
        assert(j >= i);
        assert(t[j - i].0 == k);
    }
    assert(kmap(t) =~= restrict_from(kmap(s), from));
}

/// In a sorted list, the first key is the least key of the denoted map.
pub proof fn lemma_first_key_min<V>(s: Seq<(Seq<u8>, V)>)
    requires
        keys_sorted(s),
        s.len() > 0,
    ensures
        forall|k: Seq<u8>|
            #[trigger] kmap(s).contains_key(k) ==> k == s[0].0 || lex_lt(s[0].0, k),
{
    lemma_kmap_domain(s);
    assert forall|k: Seq<u8>| #[trigger] kmap(s).contains_key(k) implies k == s[0].0 || lex_lt(
        s[0].0,
        k,
    ) by {
        let j = choose|j: int| 0 <= j < s.len() && #[trigger] s[j].0 == k;
        if j > 0 {
            assert(lex_lt(s[0].0, s[j].0));
        }
    }
}

/// A view-level copy of a sequence of raw entry pairs.
pub open spec fn pair_view(s: Seq<(Vec<u8>, Vec<u8>)>) -> Seq<(Seq<u8>, Seq<u8>)> {
    Seq::new(s.len(), |i: int| (s[i].0@, s[i].1@))
}

/// A committed, ordered byte-keyed store: the canonical sorted form of a
/// finite map from byte keys to byte values.
pub struct ByteMap {
    pub entries: Vec<(Vec<u8>, Vec<u8>)>,
}

impl View for ByteMap {
    type V = Map<Seq<u8>, Seq<u8>>;

    open spec fn view(&self) -> Map<Seq<u8>, Seq<u8>> {
        kmap(self.pair_seq())
    }
}

impl ByteMap {
    /// The entries as view-level pairs, in storage order.
    pub open spec fn pair_seq(self) -> Seq<(Seq<u8>, Seq<u8>)> {
        pair_view(self.entries@)
    }

    /// Entries are strictly sorted by key.
    pub open spec fn wf(self) -> bool {
        keys_sorted(self.pair_seq())
    }

    /// An empty store.
    pub fn new() -> (r: ByteMap)
        ensures
            r.wf(),
            r@ == Map::<Seq<u8>, Seq<u8>>::empty(),
            r.pair_seq() == Seq::<(Seq<u8>, Seq<u8>)>::empty(),
    {
        let r = ByteMap { entries: Vec::new() };
        proof {
            assert(r.pair_seq() =~= Seq::<(Seq<u8>, Seq<u8>)>::empty());
        }
        r
    }

    /// The number of entries.
    pub fn len(&self) -> (n: usize)
        ensures
            n == self.pair_seq().len(),
    {
        self.entries.len()
    }

    /// The position of the first entry whose key is not below `key`.
    pub fn lower_bound(&self, key: &Vec<u8>) -> (i: usize)
        requires
            self.wf(),
        ensures
            0 <= i <= self.pair_seq().len(),
            forall|j: int| 0 <= j < i ==> lex_lt(#[trigger] self.pair_seq()[j].0, key@),
            forall|j: int|
                i <= j < self.pair_seq().len() ==> !lex_lt(#[trigger] self.pair_seq()[j].0, key@),
    {
        let mut i: usize = 0;
        while i < self.entries.len()
            invariant
                self.wf(),
                0 <= i <= self.pair_seq().len(),
                forall|j: int| 0 <= j < i ==> lex_lt(#[trigger] self.pair_seq()[j].0, key@),
            decreases self.pair_seq().len() - i,
        {
            match key_cmp(&self.entries[i].0, key) {
                KeyOrder::Less => {
                    i = i + 1;
                },
                _ => {
                    proof {
                        let ps = self.pair_seq();
                        assert forall|j: int| i <= j < ps.len() implies !lex_lt(
                            #[trigger] ps[j].0,
                            key@,
                        ) by {
                            if j > i && lex_lt(ps[j].0, key@) {
                                assert(lex_lt(ps[i as int].0, ps[j].0));
                                lemma_lex_trans(ps[i as int].0, ps[j].0, key@);
                            }
                        }
                    }
                    return i;
                },
            }
        }
        i
    }

    /// Look a key up; `Some` exactly when the key is present.
    pub fn get(&self, key: &Vec<u8>) -> (r: Option<&Vec<u8>>)
        requires
            self.wf(),
        ensures
            match r {
                Some(v) => self@.contains_key(key@) && v@ == self@[key@],
                None => !self@.contains_key(key@),
            },
    {
        proof {
            lemma_kmap_domain(self.pair_seq());
            lemma_kmap_index(self.pair_seq());
        }
        let i = self.lower_bound(key);
        if i < self.entries.len() {
            match key_cmp(&self.entries[i].0, key) {
                KeyOrder::Equal => {
                    proof {
                        let ps = self.pair_seq();
                        assert(ps[i as int].0 == key@);
                        assert(kmap(ps).contains_key(ps[i as int].0) && kmap(ps)[ps[i as int].0]
                            == ps[i as int].1);
                    }
                    return Some(&self.entries[i].1);
                },
                _ => {},
            }
        }
        proof {
            let ps = self.pair_seq();
            assert forall|j: int| 0 <= j < ps.len() implies #[trigger] ps[j].0 != key@ by {
                if j < i {
                    lemma_lex_asym(ps[j].0, key@);
                } else if j == i {
                    lemma_lex_total(ps[j].0, key@);
                } else {
                    assert(!lex_lt(ps[i as int].0, key@));
                    lemma_lex_total(ps[i as int].0, key@);
                    if ps[i as int].0 == key@ {
                        assert(lex_lt(key@, ps[j].0));
                        lemma_lex_asym(key@, ps[j].0);
                    } else {
                        assert(lex_lt(key@, ps[i as int].0));
                        assert(lex_lt(ps[i as int].0, ps[j].0));
                        lemma_lex_trans(key@, ps[i as int].0, ps[j].0);
                        lemma_lex_asym(key@, ps[j].0);
                    }
                }
            }
        }
        None
    }

    /// Insert or overwrite a key.
    pub fn put(&mut self, key: Vec<u8>, value: Vec<u8>)
        requires
            old(self).wf(),
        ensures
            final(self).wf(),
            final(self)@ == old(self)@.insert(key@, value@),
    {
        let ghost ps = self.pair_seq();
        let i = self.lower_bound(&key);
        let mut replace = false;
        if i < self.entries.len() {
            match key_cmp(&self.entries[i].0, &key) {
                KeyOrder::Equal => {
                    replace = true;
                },
                _ => {},
            }
        }
        if replace {
            self.entries.remove(i);
            self.entries.insert(i, (key, value));
            proof {
                assert(self.pair_seq() =~= ps.update(i as int, (ps[i as int].0, value@)));
                lemma_kmap_update(ps, i as int, value@);
            }
        } else {
            self.entries.insert(i, (key, value));
            proof {
                assert forall|j: int| i <= j < ps.len() implies lex_lt(
                    key@,
                    #[trigger] ps[j].0,
                ) by {
                    if j == i {
                        lemma_lex_total(ps[j].0, key@);
                    } else {
                        assert(!lex_lt(ps[i as int].0, key@));
                        lemma_lex_total(ps[i as int].0, key@);
                        if ps[i as int].0 == key@ {
                            assert(lex_lt(key@, ps[j].0));
                        } else {
                            lemma_lex_trans(key@, ps[i as int].0, ps[j].0);
                        }
                    }
                }
                assert(self.pair_seq() =~= ps.insert(i as int, (key@, value@)));
                lemma_kmap_insert(ps, i as int, key@, value@);
            }
        }
    }

    /// Delete a key; deleting an absent key leaves the store unchanged.
    pub fn delete(&mut self, key: &Vec<u8>)
        requires
            old(self).wf(),
        ensures
            final(self).wf(),
            final(self)@ == old(self)@.remove(key@),
    {
        let ghost ps = self.pair_seq();
        let i = self.lower_bound(key);
        let mut found = false;
        if i < self.entries.len() {
            match key_cmp(&self.entries[i].0, key) {
                KeyOrder::Equal => {
                    found = true;
                },
                _ => {},
            }
        }
        if found {
            self.entries.remove(i);
            proof {
                assert(self.pair_seq() =~= ps.remove(i as int));
                lemma_kmap_remove(ps, i as int);
            }
        } else {
            proof {
                lemma_kmap_domain(ps);
                assert forall|j: int| 0 <= j < ps.len() implies #[trigger] ps[j].0 != key@ by {
                    if j < i {
                        lemma_lex_asym(ps[j].0, key@);
                    } else if j == i {
                        lemma_lex_total(ps[j].0, key@);
                    } else {
                        lemma_lex_total(ps[i as int].0, key@);
                        if ps[i as int].0 == key@ {
                            assert(lex_lt(key@, ps[j].0));
                            lemma_lex_asym(key@, ps[j].0);
                        } else {
                            assert(lex_lt(key@, ps[i as int].0));
                            lemma_lex_trans(key@, ps[i as int].0, ps[j].0);
                            lemma_lex_asym(key@, ps[j].0);
                        }
                    }
                }
                assert(!self@.contains_key(key@));
                assert(self@ =~= self@.remove(key@));
            }
        }
    }

    /// All entries whose key is not below `from`, in ascending key order.
    pub fn entries_from(&self, from: &Vec<u8>) -> (r: Vec<(Vec<u8>, Vec<u8>)>)
        requires
            self.wf(),
        ensures
            keys_sorted(pair_view(r@)),
            kmap(pair_view(r@)) == restrict_from(self@, from@),
    {
        let i = self.lower_bound(from);
        let mut r: Vec<(Vec<u8>, Vec<u8>)> = Vec::new();
        let mut j: usize = i;
        while j < self.entries.len()
            invariant
                i <= j <= self.entries@.len(),
                r@.len() == j - i,
                forall|t: int|
                    0 <= t < r@.len() ==> #[trigger] r@[t].0@ == self.entries@[i + t].0@
                        && r@[t].1@ == self.entries@[i + t].1@,
            decreases self.entries@.len() - j,
        {
            let k = copy_bytes(&self.entries[j].0);
            let v = copy_bytes(&self.entries[j].1);
            r.push((k, v));
            j = j + 1;
        }
        proof {
            assert(pair_view(r@) =~= self.pair_seq().skip(i as int));
            lemma_kmap_skip(self.pair_seq(), i as int, from@);
        }
        r
    }

    /// A copy with the same contents.
    pub fn duplicate(&self) -> (r: ByteMap)
        requires
            self.wf(),
        ensures
            r.wf(),
            r@ == self@,
            r.pair_seq() == self.pair_seq(),
    {
        let empty: Vec<u8> = Vec::new();
        let entries = self.entries_from(&empty);
        let r = ByteMap { entries };
        proof {
            assert(restrict_from(self@, empty@) =~= self@);
            lemma_kmap_canonical(r.pair_seq(), self.pair_seq());
        }
        r
    }
}

} // verus!
