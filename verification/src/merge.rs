//! Merged iteration: one ascending, duplicate-free entry stream over a base
//! view and a log of pending changes. A pending put overrides the committed
//! value, a tombstone suppresses the committed entry entirely, and entries
//! untouched by the log pass through unchanged.

use vstd::prelude::*;

use crate::bytes::{copy_bytes, key_cmp, lex_lt, KeyOrder};
use crate::bytes::{lemma_lex_asym, lemma_lex_total, lemma_lex_trans};
use crate::changes::{change_view, Change, ChangeMap};
use crate::kv::{keys_sorted, kmap, pair_view, restrict_from, ByteMap};
use crate::kv::{
    lemma_first_key_min, lemma_kmap_index, lemma_kmap_prepend, lemma_kmap_skip,
    lemma_kmap_skip_first,
};

verus! {

/// The value a pending change carries; meaningful only for a put.
pub open spec fn some_val(o: Option<Seq<u8>>) -> Seq<u8>
    recommends
        o is Some,
{
    match o {
        Some(v) => v,
        None => Seq::empty(),
    }
}

/// The view through a change log laid over a base view: a recorded put is
/// read back, a recorded deletion hides the base entry, and any other key
/// falls through to the base.
pub open spec fn apply_changes(
    base: Map<Seq<u8>, Seq<u8>>,
    ch: Map<Seq<u8>, Option<Seq<u8>>>,
) -> Map<Seq<u8>, Seq<u8>> {
    Map::new(
        |k: Seq<u8>|
            if ch.contains_key(k) {
                ch[k] is Some
            } else {
                base.contains_key(k)
            },
        |k: Seq<u8>|
            if ch.contains_key(k) && ch[k] is Some {
                some_val(ch[k])
            } else {
                base[k]
            },
    )
}

/// The merged entry stream over sorted base entries and sorted change
/// records: at each step the smaller key goes first, a change wins a tie,
/// and a tombstone emits nothing.
pub open spec fn merge_pairs(
    b: Seq<(Seq<u8>, Seq<u8>)>,
    c: Seq<(Seq<u8>, Option<Seq<u8>>)>,
) -> Seq<(Seq<u8>, Seq<u8>)>
    decreases b.len() + c.len(),
{
    if c.len() == 0 {
        b
    } else if b.len() > 0 && lex_lt(b[0].0, c[0].0) {
        seq![b[0]] + merge_pairs(b.skip(1), c)
    } else if b.len() > 0 && b[0].0 == c[0].0 {
        if c[0].1 is Some {
            seq![(c[0].0, some_val(c[0].1))] + merge_pairs(b.skip(1), c.skip(1))
        } else {
            merge_pairs(b.skip(1), c.skip(1))
        }
    } else {
        if c[0].1 is Some {
            seq![(c[0].0, some_val(c[0].1))] + merge_pairs(b, c.skip(1))
        } else {
            merge_pairs(b, c.skip(1))
        }
    }
}

proof fn lemma_sorted_prepend(x: (Seq<u8>, Seq<u8>), s: Seq<(Seq<u8>, Seq<u8>)>)
    requires
        keys_sorted(s),
        forall|t: int| 0 <= t < s.len() ==> lex_lt(x.0, (#[trigger] s[t]).0),
    ensures
        keys_sorted(seq![x] + s),
{
    let m = seq![x] + s;
    assert forall|p: int, q: int| 0 <= p < q < m.len() implies lex_lt(m[p].0, m[q].0) by {
        if p == 0 {
            assert(m[q] == s[q - 1]);
        } else {
            assert(m[p] == s[p - 1] && m[q] == s[q - 1]);
        }
    }
}

/// The merged stream is sorted, introduces no key of its own, and denotes
/// exactly the base view with the changes applied.
pub proof fn lemma_merge_pairs(b: Seq<(Seq<u8>, Seq<u8>)>, c: Seq<(Seq<u8>, Option<Seq<u8>>)>)
    requires
        keys_sorted(b),
        keys_sorted(c),
    ensures
        keys_sorted(merge_pairs(b, c)),
        kmap(merge_pairs(b, c)) == apply_changes(kmap(b), kmap(c)),
        forall|k: Seq<u8>|
            #[trigger] kmap(merge_pairs(b, c)).contains_key(k) ==> kmap(b).contains_key(k)
                || kmap(c).contains_key(k),
    decreases b.len() + c.len(),
{
    let m = merge_pairs(b, c);
    if c.len() == 0 {
        assert(kmap(c) =~= Map::<Seq<u8>, Option<Seq<u8>>>::empty());
        assert(kmap(m) =~= apply_changes(kmap(b), kmap(c)));
    } else if b.len() > 0 && lex_lt(b[0].0, c[0].0) {
        lemma_kmap_skip_first(b);
        if b.len() > 1 {
            lemma_first_key_min(b.skip(1));
        } else {
            assert(b.skip(1) =~= Seq::<(Seq<u8>, Seq<u8>)>::empty());
        }
        lemma_first_key_min(c);
        lemma_merge_pairs(b.skip(1), c);
        let rest = merge_pairs(b.skip(1), c);
        lemma_kmap_index(rest);
        assert forall|k: Seq<u8>| #[trigger] kmap(rest).contains_key(k) implies lex_lt(
            b[0].0,
            k,
        ) by {
            if kmap(b.skip(1)).contains_key(k) {
                assert(b.len() > 1);
                assert(b.skip(1)[0] == b[1]);
                if k != b[1].0 {
                    lemma_lex_trans(b[0].0, b[1].0, k);
                }
            } else {
                if k != c[0].0 {
                    lemma_lex_trans(b[0].0, c[0].0, k);
                }
            }
        }
        assert forall|t: int| 0 <= t < rest.len() implies lex_lt(b[0].0, (#[trigger] rest[t]).0)
            && rest[t].0 != b[0].0 by {
            assert(kmap(rest).contains_key(rest[t].0));
            lemma_lex_asym(b[0].0, rest[t].0);
        }
        lemma_sorted_prepend(b[0], rest);
        lemma_kmap_prepend(b[0], rest);
        assert(!kmap(c).contains_key(b[0].0)) by {
            if kmap(c).contains_key(b[0].0) {
                lemma_lex_asym(b[0].0, c[0].0);
                if b[0].0 != c[0].0 {
                    lemma_lex_asym(c[0].0, b[0].0);
                }
            }
        }
        assert(kmap(m) =~= apply_changes(kmap(b), kmap(c)));
    } else if b.len() > 0 && b[0].0 == c[0].0 {
        lemma_kmap_skip_first(b);
        lemma_kmap_skip_first(c);
        if b.len() > 1 {
            lemma_first_key_min(b.skip(1));
        } else {
            assert(b.skip(1) =~= Seq::<(Seq<u8>, Seq<u8>)>::empty());
        }
        if c.len() > 1 {
            lemma_first_key_min(c.skip(1));
        } else {
            assert(c.skip(1) =~= Seq::<(Seq<u8>, Option<Seq<u8>>)>::empty());
        }
        lemma_merge_pairs(b.skip(1), c.skip(1));
        let rest = merge_pairs(b.skip(1), c.skip(1));
        lemma_kmap_index(rest);
        assert forall|k: Seq<u8>| #[trigger] kmap(rest).contains_key(k) implies lex_lt(
            c[0].0,
            k,
        ) by {
            if kmap(b.skip(1)).contains_key(k) {
                assert(b.len() > 1);
                assert(b.skip(1)[0] == b[1]);
                if k != b[1].0 {
                    lemma_lex_trans(b[0].0, b[1].0, k);
                }
            } else {
                assert(c.len() > 1);
                assert(c.skip(1)[0] == c[1]);
                if k != c[1].0 {
                    lemma_lex_trans(c[0].0, c[1].0, k);
                }
            }
        }
        if c[0].1 is Some {
            assert forall|t: int| 0 <= t < rest.len() implies lex_lt(c[0].0, (#[trigger] rest[t]).0)
                && rest[t].0 != c[0].0 by {
                assert(kmap(rest).contains_key(rest[t].0));
                lemma_lex_asym(c[0].0, rest[t].0);
            }
            lemma_sorted_prepend((c[0].0, some_val(c[0].1)), rest);
            lemma_kmap_prepend((c[0].0, some_val(c[0].1)), rest);
            assert(kmap(m) =~= apply_changes(kmap(b), kmap(c)));
        } else {
            assert forall|k: Seq<u8>| #[trigger] kmap(m).contains_key(k) implies k != c[0].0 by {
                lemma_lex_asym(c[0].0, k);
            }
            assert(kmap(m) =~= apply_changes(kmap(b), kmap(c)));
        }
    } else {
        lemma_kmap_skip_first(c);
        if c.len() > 1 {
            lemma_first_key_min(c.skip(1));
        } else {
            assert(c.skip(1) =~= Seq::<(Seq<u8>, Option<Seq<u8>>)>::empty());
        }
        if b.len() > 0 {
            lemma_first_key_min(b);
            lemma_lex_total(b[0].0, c[0].0);
            assert(lex_lt(c[0].0, b[0].0));
            lemma_lex_asym(c[0].0, b[0].0);
        }
        lemma_merge_pairs(b, c.skip(1));
        let rest = merge_pairs(b, c.skip(1));
        lemma_kmap_index(rest);
        assert forall|k: Seq<u8>| #[trigger] kmap(rest).contains_key(k) implies lex_lt(
            c[0].0,
            k,
        ) by {
            if kmap(b).contains_key(k) {
                assert(b.len() > 0);
                if k != b[0].0 {
                    lemma_lex_trans(c[0].0, b[0].0, k);
                }
            } else {
                assert(c.len() > 1);
                assert(c.skip(1)[0] == c[1]);
                if k != c[1].0 {
                    lemma_lex_trans(c[0].0, c[1].0, k);
                }
            }
        }
        if c[0].1 is Some {
            assert forall|t: int| 0 <= t < rest.len() implies lex_lt(c[0].0, (#[trigger] rest[t]).0)
                && rest[t].0 != c[0].0 by {
                assert(kmap(rest).contains_key(rest[t].0));
                lemma_lex_asym(c[0].0, rest[t].0);
            }
            lemma_sorted_prepend((c[0].0, some_val(c[0].1)), rest);
            lemma_kmap_prepend((c[0].0, some_val(c[0].1)), rest);
            assert(kmap(m) =~= apply_changes(kmap(b), kmap(c)));
        } else {
            assert forall|k: Seq<u8>| #[trigger] kmap(m).contains_key(k) implies k != c[0].0 by {
                lemma_lex_asym(c[0].0, k);
            }
            assert(kmap(m) =~= apply_changes(kmap(b), kmap(c)));
        }
    }
}

/// All merged entries whose key is not below `from`, in ascending key order:
/// the restartable merged iteration over a base store and a change log.
pub fn merged_entries_from(base: &ByteMap, changes: &ChangeMap, from: &Vec<u8>) -> (r: Vec<
    (Vec<u8>, Vec<u8>),
>)
    requires
        base.wf(),
        changes.wf(),
    ensures
        keys_sorted(pair_view(r@)),
        kmap(pair_view(r@)) == restrict_from(apply_changes(base@, changes@), from@),
{
    let i0 = base.lower_bound(from);
    let j0 = changes.lower_bound(from);
    let ghost bp = base.pair_seq().skip(i0 as int);
    let ghost cp = changes.pair_seq().skip(j0 as int);
    proof {
        lemma_kmap_skip(base.pair_seq(), i0 as int, from@);
        lemma_kmap_skip(changes.pair_seq(), j0 as int, from@);
    }
    let mut r: Vec<(Vec<u8>, Vec<u8>)> = Vec::new();
    let mut i: usize = i0;
    let mut j: usize = j0;
    let blen = base.entries.len();
    let clen = changes.entries.len();
    proof {
        assert(pair_view(r@) + merge_pairs(
            base.pair_seq().skip(i as int),
            changes.pair_seq().skip(j as int),
        ) =~= merge_pairs(bp, cp));
    }
    while i < blen || j < clen
        invariant
            base.wf(),
            changes.wf(),
            i0 <= i <= blen,
            j0 <= j <= clen,
            blen == base.entries@.len(),
            clen == changes.entries@.len(),
            pair_view(r@) + merge_pairs(
                base.pair_seq().skip(i as int),
                changes.pair_seq().skip(j as int),
            ) == merge_pairs(bp, cp),
        decreases blen - i + clen - j,
    {
        let ghost bs = base.pair_seq().skip(i as int);
        let ghost cs = changes.pair_seq().skip(j as int);
        proof {
            assert(forall|t: int| 0 <= t < bs.len() ==> #[trigger] bs[t] == base.pair_seq()[t + i]);
            assert(forall|t: int|
                0 <= t < cs.len() ==> #[trigger] cs[t] == changes.pair_seq()[t + j]);
        }
        let take_base: bool;
        let drop_base: bool;
        if j >= clen {
            take_base = true;
            drop_base = false;
        } else if i >= blen {
            take_base = false;
            drop_base = false;
        } else {
            match key_cmp(&base.entries[i].0, &changes.entries[j].0) {
                KeyOrder::Less => {
                    take_base = true;
                    drop_base = false;
                },
                KeyOrder::Equal => {
                    take_base = false;
                    drop_base = true;
                },
                KeyOrder::Greater => {
                    take_base = false;
                    drop_base = false;
                },
            }
        }
        if take_base {
            let k = copy_bytes(&base.entries[i].0);
            let v = copy_bytes(&base.entries[i].1);
            let ghost r0 = pair_view(r@);
            r.push((k, v));
            proof {
                assert(merge_pairs(bs, cs) == seq![bs[0]] + merge_pairs(bs.skip(1), cs));
                assert(bs.skip(1) =~= base.pair_seq().skip(i + 1));
                assert(pair_view(r@) =~= r0 + seq![bs[0]]);
                assert(pair_view(r@) + merge_pairs(base.pair_seq().skip(i + 1), cs) =~= r0
                    + merge_pairs(bs, cs));
            }
            i = i + 1;
        } else {
            // the change record at j goes first (or coincides with the base key)
            let ghost r0 = pair_view(r@);
            match &changes.entries[j].1 {
                Change::Put(v) => {
                    let kk = copy_bytes(&changes.entries[j].0);
                    let vv = copy_bytes(v);
                    r.push((kk, vv));
                    proof {
                        assert(cs[0].1 is Some && some_val(cs[0].1) == v@);
                        assert(pair_view(r@) =~= r0 + seq![(cs[0].0, some_val(cs[0].1))]);
                    }
                },
                Change::Delete => {
                    proof {
                        assert(cs[0].1 is None);
                        assert(pair_view(r@) =~= r0 + Seq::<(Seq<u8>, Seq<u8>)>::empty());
                    }
                },
            }
            proof {
                let emitted: Seq<(Seq<u8>, Seq<u8>)> = if cs[0].1 is Some {
                    seq![(cs[0].0, some_val(cs[0].1))]
                } else {
                    Seq::<(Seq<u8>, Seq<u8>)>::empty()
                };
                assert(cs.skip(1) =~= changes.pair_seq().skip(j + 1));
                if drop_base {
                    assert(bs[0].0 == cs[0].0);
                    assert(merge_pairs(bs, cs) == emitted + merge_pairs(bs.skip(1), cs.skip(1)));
                    assert(bs.skip(1) =~= base.pair_seq().skip(i + 1));
                    assert(pair_view(r@) + merge_pairs(
                        base.pair_seq().skip(i + 1),
                        changes.pair_seq().skip(j + 1),
                    ) =~= r0 + merge_pairs(bs, cs));
                } else {
                    assert(bs.len() == 0 || lex_lt(cs[0].0, bs[0].0));
                    assert(merge_pairs(bs, cs) == emitted + merge_pairs(bs, cs.skip(1)));
                    assert(pair_view(r@) + merge_pairs(bs, changes.pair_seq().skip(j + 1)) =~= r0
                        + merge_pairs(bs, cs));
                }
            }
            if drop_base {
                i = i + 1;
            }
            j = j + 1;
        }
    }
    proof {
        let bs = base.pair_seq().skip(i as int);
        let cs = changes.pair_seq().skip(j as int);
        assert(bs =~= Seq::<(Seq<u8>, Seq<u8>)>::empty());
        assert(cs =~= Seq::<(Seq<u8>, Option<Seq<u8>>)>::empty());
        assert(merge_pairs(bs, cs) == bs);
        assert(pair_view(r@) =~= merge_pairs(bp, cp));
        lemma_merge_pairs(bp, cp);
        assert(apply_changes(restrict_from(base@, from@), restrict_from(changes@, from@))
            =~= restrict_from(apply_changes(base@, changes@), from@));
    }
    r
}

} // verus!
