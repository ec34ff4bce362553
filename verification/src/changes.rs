//! The pending-change log of a fork: an ordered map from raw byte keys to
//! explicit change records. A deletion is a record of its own (a tombstone),
//! never a sentinel value, so it can suppress a committed entry without
//! colliding with any legitimately stored value.

use vstd::prelude::*;

use crate::bytes::{key_cmp, lex_lt, KeyOrder};
use crate::bytes::{lemma_lex_asym, lemma_lex_total, lemma_lex_trans};
use crate::kv::{keys_sorted, kmap};
use crate::kv::{lemma_kmap_domain, lemma_kmap_index, lemma_kmap_insert, lemma_kmap_update};

verus! {

/// One pending change: overwrite the key with a value, or delete it.
pub enum Change {
    Put(Vec<u8>),
    Delete,
}

/// What a change means: `Some` of the new value, or `None` for a deletion.
pub open spec fn change_view(c: Change) -> Option<Seq<u8>> {
    match c {
        Change::Put(v) => Some(v@),
        Change::Delete => None,
    }
}

/// The ordered log of pending changes, keyed by raw byte key; the last
/// recorded change per key wins, so the log holds one record per key.
pub struct ChangeMap {
    pub entries: Vec<(Vec<u8>, Change)>,
}

impl View for ChangeMap {
    type V = Map<Seq<u8>, Option<Seq<u8>>>;

    open spec fn view(&self) -> Map<Seq<u8>, Option<Seq<u8>>> {
        kmap(self.pair_seq())
    }
}

impl ChangeMap {
    /// The records as view-level pairs, in storage order.
    pub open spec fn pair_seq(self) -> Seq<(Seq<u8>, Option<Seq<u8>>)> {
        Seq::new(self.entries@.len(), |i: int| (self.entries@[i].0@, change_view(self.entries@[i].1)))
    }

    /// Records are strictly sorted by key.
    pub open spec fn wf(self) -> bool {
        keys_sorted(self.pair_seq())
    }

    /// An empty log.
    pub fn new() -> (r: ChangeMap)
        ensures
            r.wf(),
            r@ == Map::<Seq<u8>, Option<Seq<u8>>>::empty(),
            r.pair_seq() == Seq::<(Seq<u8>, Option<Seq<u8>>)>::empty(),
    {
        let r = ChangeMap { entries: Vec::new() };
        proof {
            assert(r.pair_seq() =~= Seq::<(Seq<u8>, Option<Seq<u8>>)>::empty());
        }
        r
    }

    /// The position of the first record whose key is not below `key`.
    pub fn lower_bound(&self, key: &Vec<u8>) -> (i: usize)
        requires
            self.wf(),
        ensures
            0 <= i <= self.pair_seq().len(),
            forall|j: int| 0 <= j < i ==> lex_lt(#[trigger] self.pair_seq()[j].0, key@),
            forall|j: int|
                i <= j < self.pair_seq().len() ==> !lex_lt(#[trigger] self.pair_seq()[j].0, key@),
    {
        let mut i: usize = 0;
        while i < self.entries.len()
            invariant
                self.wf(),
                0 <= i <= self.pair_seq().len(),
                forall|j: int| 0 <= j < i ==> lex_lt(#[trigger] self.pair_seq()[j].0, key@),
            decreases self.pair_seq().len() - i,
        {
            match key_cmp(&self.entries[i].0, key) {
                KeyOrder::Less => {
                    i = i + 1;
                },
                _ => {
                    proof {
                        let ps = self.pair_seq();
                        assert forall|j: int| i <= j < ps.len() implies !lex_lt(
                            #[trigger] ps[j].0,
                            key@,
                        ) by {
                            if j > i && lex_lt(ps[j].0, key@) {
                                assert(lex_lt(ps[i as int].0, ps[j].0));
                                lemma_lex_trans(ps[i as int].0, ps[j].0, key@);
                            }
                        }
                    }
                    return i;
                },
            }
        }
        i
    }

    /// Look a key's pending change up; `Some` exactly when one is recorded.
    pub fn get_change(&self, key: &Vec<u8>) -> (r: Option<&Change>)
        requires
            self.wf(),
        ensures
            match r {
                Some(c) => self@.contains_key(key@) && change_view(*c) == self@[key@],
                None => !self@.contains_key(key@),
            },
    {
        proof {
            lemma_kmap_domain(self.pair_seq());
            lemma_kmap_index(self.pair_seq());
        }
        let i = self.lower_bound(key);
        if i < self.entries.len() {
            match key_cmp(&self.entries[i].0, key) {
                KeyOrder::Equal => {
                    proof {
                        let ps = self.pair_seq();
                        assert(ps[i as int].0 == key@);
                        assert(kmap(ps).contains_key(ps[i as int].0) && kmap(ps)[ps[i as int].0]
                            == ps[i as int].1);
                    }
                    return Some(&self.entries[i].1);
                },
                _ => {},
            }
        }
        proof {
            let ps = self.pair_seq();
            assert forall|j: int| 0 <= j < ps.len() implies #[trigger] ps[j].0 != key@ by {
                if j < i {
                    lemma_lex_asym(ps[j].0, key@);
                } else if j == i {
                    lemma_lex_total(ps[j].0, key@);
                } else {
                    assert(!lex_lt(ps[i as int].0, key@));
                    lemma_lex_total(ps[i as int].0, key@);
                    if ps[i as int].0 == key@ {
                        assert(lex_lt(key@, ps[j].0));
                        lemma_lex_asym(key@, ps[j].0);
                    } else {
                        assert(lex_lt(key@, ps[i as int].0));
                        assert(lex_lt(ps[i as int].0, ps[j].0));
                        lemma_lex_trans(key@, ps[i as int].0, ps[j].0);
                        lemma_lex_asym(key@, ps[j].0);
                    }
                }
            }
        }
        None
    }

    /// Record a change for a key; a later record for the same key replaces
    /// the earlier one.
    pub fn record(&mut self, key: Vec<u8>, ch: Change)
        requires
            old(self).wf(),
        ensures
            final(self).wf(),
            final(self)@ == old(self)@.insert(key@, change_view(ch)),
    {
        let ghost ps = self.pair_seq();
        let ghost cv = change_view(ch);
        let i = self.lower_bound(&key);
        let mut replace = false;
        if i < self.entries.len() {
            match key_cmp(&self.entries[i].0, &key) {
                KeyOrder::Equal => {
                    replace = true;
                },
                _ => {},
            }
        }
        if replace {
            self.entries.remove(i);
            self.entries.insert(i, (key, ch));
            proof {
                assert(self.pair_seq() =~= ps.update(i as int, (ps[i as int].0, cv)));
                lemma_kmap_update(ps, i as int, cv);
            }
        } else {
            self.entries.insert(i, (key, ch));
            proof {
                assert forall|j: int| i <= j < ps.len() implies lex_lt(
                    key@,
                    #[trigger] ps[j].0,
                ) by {
                    if j == i {
                        lemma_lex_total(ps[j].0, key@);
                    } else {
                        assert(!lex_lt(ps[i as int].0, key@));
                        lemma_lex_total(ps[i as int].0, key@);
                        if ps[i as int].0 == key@ {
                            assert(lex_lt(key@, ps[j].0));
                        } else {
                            lemma_lex_trans(key@, ps[i as int].0, ps[j].0);
                        }
                    }
                }
                assert(self.pair_seq() =~= ps.insert(i as int, (key@, cv)));
                lemma_kmap_insert(ps, i as int, key@, cv);
            }
        }
    }
}

} // verus!
