//! The Merkelized list: a binary Merkle tree over positions `0..len`. Leaves
//! hash the values; each level pairs neighbours and promotes a lone last node
//! unchanged; the root summarizes the whole list. A range proof reveals one
//! contiguous run of values plus the sibling hashes needed to recompute the
//! root.

use vstd::prelude::*;

use crate::access::{Fork, RawAccess};
use crate::address::IndexAddress;
use crate::bytes::{copy_bytes, key_cmp, KeyOrder};
use crate::hash::{hash_of, sha256};
use crate::indexes::{Entry, ListIndex};
use crate::merge::some_val;

verus! {

/// The root reserved for an empty Merkelized index: a fixed all-zero value,
/// not the digest of any input.
pub open spec fn empty_root() -> Seq<u8> {
    Seq::new(32, |i: int| 0u8)
}

/// The all-zero sentinel root as bytes.
pub fn empty_root_bytes() -> (r: Vec<u8>)
    ensures
        r@ == empty_root(),
{
    let mut r: Vec<u8> = Vec::new();
    let mut i: usize = 0;
    while i < 32
        invariant
            0 <= i <= 32,
            r@.len() == i,
            forall|j: int| 0 <= j < i ==> r@[j] == 0u8,
        decreases 32 - i,
    {
        r.push(0u8);
        i = i + 1;
    }
    proof {
        assert(r@ =~= empty_root());
    }
    r
}

/// The digest of a leaf holding one value.
pub open spec fn leaf_hash(v: Seq<u8>) -> Seq<u8> {
    hash_of(seq![0u8] + v)
}

/// The digest of an inner node over two children.
pub open spec fn node_hash(l: Seq<u8>, r: Seq<u8>) -> Seq<u8> {
    hash_of(seq![1u8] + l + r)
}

/// Compute a leaf digest.
pub fn hash_leaf(v: &Vec<u8>) -> (r: Vec<u8>)
    ensures
        r@ == leaf_hash(v@),
{
    let mut buf: Vec<u8> = Vec::new();
    buf.push(0u8);
    let mut tail = copy_bytes(v);
    buf.append(&mut tail);
    proof {
        assert(buf@ =~= seq![0u8] + v@);
    }
    sha256(buf.as_slice())
}

/// Compute an inner-node digest.
pub fn hash_node(l: &Vec<u8>, r: &Vec<u8>) -> (h: Vec<u8>)
    ensures
        h@ == node_hash(l@, r@),
{
    let mut buf: Vec<u8> = Vec::new();
    buf.push(1u8);
    let mut la = copy_bytes(l);
    buf.append(&mut la);
    let mut ra = copy_bytes(r);
    buf.append(&mut ra);
    proof {
        assert(buf@ =~= seq![1u8] + l@ + r@);
    }
    sha256(buf.as_slice())
}

/// One level up the tree: pair neighbours, promote a lone last node.
pub open spec fn level_up(h: Seq<Seq<u8>>) -> Seq<Seq<u8>> {
    Seq::new(((h.len() + 1) / 2) as nat, |i: int|
        if 2 * i + 1 < h.len() {
            node_hash(h[2 * i], h[2 * i + 1])
        } else {
            h[2 * i]
        })
}

/// Fold a level of digests to the root.
pub open spec fn root_from(h: Seq<Seq<u8>>) -> Seq<u8>
    decreases h.len(),
{
    if h.len() == 0 {
        empty_root()
    } else if h.len() == 1 {
        h[0]
    } else {
        root_from(level_up(h))
    }
}

/// The leaf digests of a value sequence.
pub open spec fn leaves_of(vals: Seq<Seq<u8>>) -> Seq<Seq<u8>> {
    Seq::new(vals.len(), |i: int| leaf_hash(vals[i]))
}

/// The Merkle root of a value sequence; the empty list keeps the sentinel.
pub open spec fn list_root(vals: Seq<Seq<u8>>) -> Seq<u8> {
    root_from(leaves_of(vals))
}

/// View of a vector of digests.
pub open spec fn hview(s: Seq<Vec<u8>>) -> Seq<Seq<u8>> {
    Seq::new(s.len(), |i: int| s[i]@)
}

/// The sibling digests one level of a range proof carries: a left neighbour
/// when the range starts at an odd position, a right neighbour when it ends
/// at one that is not the level's end.
pub struct ListProofLevel {
    pub left: Option<Vec<u8>>,
    pub right: Option<Vec<u8>>,
}

/// View of one proof level.
pub open spec fn level_view(l: ListProofLevel) -> (Option<Seq<u8>>, Option<Seq<u8>>) {
    (
        match l.left {
            Some(v) => Some(v@),
            None => None,
        },
        match l.right {
            Some(v) => Some(v@),
            None => None,
        },
    )
}

/// View of a proof's levels.
pub open spec fn levels_view(ls: Seq<ListProofLevel>) -> Seq<(Option<Seq<u8>>, Option<Seq<u8>>)> {
    Seq::new(ls.len(), |i: int| level_view(ls[i]))
}

/// A range proof: the claimed list length, the revealed range, its values,
/// and per level the sibling digests bordering the range.
pub struct ListProof {
    pub length: u64,
    pub from: u64,
    pub to: u64,
    pub values: Vec<Vec<u8>>,
    pub levels: Vec<ListProofLevel>,
}

/// Recompute a root from a revealed interval `[lo, hi)` of digests at a
/// level of length `llen`, consuming one proof level per tree level; `None`
/// when the proof's shape does not fit the claimed length and range.
pub open spec fn recompute(
    cur: Seq<Seq<u8>>,
    lo: int,
    hi: int,
    llen: int,
    levels: Seq<(Option<Seq<u8>>, Option<Seq<u8>>)>,
) -> Option<Seq<u8>>
    decreases levels.len(),
{
    if !(0 <= lo && lo < hi && hi <= llen && hi - lo == cur.len() && llen >= 1) {
        None
    } else if llen == 1 {
        if levels.len() == 0 && lo == 0 && hi == 1 {
            Some(cur[0])
        } else {
            None
        }
    } else if levels.len() == 0 {
        None
    } else {
        let lft = levels[0].0;
        let rgt = levels[0].1;
        let need_l = lo % 2 == 1;
        let need_r = hi % 2 == 1 && hi < llen;
        if need_l != (lft is Some) || need_r != (rgt is Some) {
            None
        } else {
            let ext = (if need_l {
                seq![some_val(lft)]
            } else {
                Seq::<Seq<u8>>::empty()
            }) + cur + (if need_r {
                seq![some_val(rgt)]
            } else {
                Seq::<Seq<u8>>::empty()
            });
            let elo = if need_l {
                lo - 1
            } else {
                lo
            };
            let ehi = if need_r {
                hi + 1
            } else {
                hi
            };
            let parents = Seq::new((((ehi - elo) + 1) / 2) as nat, |p: int|
                if elo + 2 * p + 1 < ehi {
                    node_hash(ext[2 * p], ext[2 * p + 1])
                } else {
                    ext[2 * p]
                });
            recompute(parents, elo / 2, (ehi + 1) / 2, (llen + 1) / 2, levels.skip(1))
        }
    }
}

/// The proof levels an honest prover emits for range `[lo, hi)` over a full
/// level of digests.
pub open spec fn gen_levels(level: Seq<Seq<u8>>, lo: int, hi: int) -> Seq<
    (Option<Seq<u8>>, Option<Seq<u8>>),
>
    decreases level.len(),
{
    if level.len() <= 1 {
        Seq::empty()
    } else {
        let llen = level.len() as int;
        let need_l = lo % 2 == 1;
        let need_r = hi % 2 == 1 && hi < llen;
        let entry = (
            (if need_l {
                Some(level[lo - 1])
            } else {
                None
            }),
            (if need_r {
                Some(level[hi])
            } else {
                None
            }),
        );
        seq![entry] + gen_levels(
            level_up(level),
            (if need_l {
                lo - 1
            } else {
                lo
            }) / 2,
            ((if need_r {
                hi + 1
            } else {
                hi
            }) + 1) / 2,
        )
    }
}

/// Completeness of range proofs: over any full level, recomputing from the
/// revealed interval and the honestly generated siblings gives back the
/// level's root.
pub proof fn lemma_range_proof_complete(level: Seq<Seq<u8>>, lo: int, hi: int)
    requires
        level.len() >= 1,
        0 <= lo < hi <= level.len(),
    ensures
        recompute(level.subrange(lo, hi), lo, hi, level.len() as int, gen_levels(level, lo, hi))
            == Some(root_from(level)),
    decreases level.len(),
{
    let llen = level.len() as int;
    let cur = level.subrange(lo, hi);
    if llen == 1 {
        assert(gen_levels(level, lo, hi) =~= Seq::<(Option<Seq<u8>>, Option<Seq<u8>>)>::empty());
        assert(cur[0] == level[0]);
    } else {
        let gl = gen_levels(level, lo, hi);
        let need_l = lo % 2 == 1;
        let need_r = hi % 2 == 1 && hi < llen;
        let elo = if need_l {
            lo - 1
        } else {
            lo
        };
        let ehi = if need_r {
            hi + 1
        } else {
            hi
        };
        assert(gl.len() >= 1);
        assert(gl.skip(1) =~= gen_levels(level_up(level), elo / 2, (ehi + 1) / 2));
        let lft = gl[0].0;
        let rgt = gl[0].1;
        let ext = (if need_l {
            seq![some_val(lft)]
        } else {
            Seq::<Seq<u8>>::empty()
        }) + cur + (if need_r {
            seq![some_val(rgt)]
        } else {
            Seq::<Seq<u8>>::empty()
        });
        assert(ext =~= level.subrange(elo, ehi));
        let parents = Seq::new((((ehi - elo) + 1) / 2) as nat, |p: int|
            if elo + 2 * p + 1 < ehi {
                node_hash(ext[2 * p], ext[2 * p + 1])
            } else {
                ext[2 * p]
            });
        let up = level_up(level);
        assert(ehi % 2 == 1 ==> ehi == llen);
        assert(parents =~= up.subrange(elo / 2, (ehi + 1) / 2)) by {
            assert forall|p: int| 0 <= p < parents.len() implies parents[p] == up.subrange(
                elo / 2,
                (ehi + 1) / 2,
            )[p] by {
                let q = elo / 2 + p;
                assert(2 * q == elo + 2 * p);
                assert(ext[2 * p] == level[elo + 2 * p]);
                if elo + 2 * p + 1 < ehi {
                    assert(ext[2 * p + 1] == level[elo + 2 * p + 1]);
                    assert(2 * q + 1 < llen);
                } else {
                    assert(elo + 2 * p + 1 == ehi);
                    assert(ehi == llen);
                }
            }
        }
        lemma_range_proof_complete(up, elo / 2, (ehi + 1) / 2);
        assert(root_from(level) == root_from(up));
    }
}

/// The Merkelized list index.
pub struct ProofListIndex {
    pub list: ListIndex,
}

impl ProofListIndex {
    /// Representation invariant of the handle.
    pub open spec fn wf(self) -> bool {
        self.list.wf()
    }

    /// Well-formedness of the stored list in a raw view.
    pub open spec fn lwf(self, store: Map<Seq<u8>, Seq<u8>>) -> bool {
        self.list.lwf(store)
    }

    /// The list's values in a raw view.
    pub open spec fn lview(self, store: Map<Seq<u8>, Seq<u8>>) -> Seq<Seq<u8>> {
        self.list.lview(store)
    }

    /// A handle at an address.
    pub fn new(addr: IndexAddress) -> (r: ProofListIndex)
        ensures
            r.list.addr == addr,
    {
        ProofListIndex { list: ListIndex::new(addr) }
    }

    /// The number of values.
    pub fn len<A: RawAccess>(&self, access: &A) -> (n: u64)
        requires
            access.inv(),
            self.wf(),
            self.lwf(access.view_map()),
        ensures
            n == self.lview(access.view_map()).len(),
    {
        self.list.len(access)
    }

    /// Read the value at a position.
    pub fn get<A: RawAccess>(&self, access: &A, i: u64) -> (r: Vec<u8>)
        requires
            access.inv(),
            self.wf(),
            self.lwf(access.view_map()),
            i < self.lview(access.view_map()).len(),
        ensures
            r@ == self.lview(access.view_map())[i as int],
    {
        self.list.get(access, i)
    }

    /// Append a value.
    pub fn push(&self, fork: &mut Fork, value: Vec<u8>)
        requires
            old(fork).wf(),
            self.wf(),
            self.lwf(old(fork)@),
            self.lview(old(fork)@).len() < u64::MAX,
        ensures
            final(fork).wf(),
            final(fork).base_map() == old(fork).base_map(),
            final(fork)@ == old(fork)@.insert(
                self.list.addr.prefix() + crate::address::be64(
                    self.lview(old(fork)@).len() as u64,
                ),
                value@,
            ).insert(
                self.list.addr.prefix() + Seq::<u8>::empty(),
                crate::address::be64((self.lview(old(fork)@).len() + 1) as u64),
            ),
            self.lwf(final(fork)@),
            self.lview(final(fork)@) == self.lview(old(fork)@).push(value@),
    {
        self.list.push(fork, value)
    }

    /// Overwrite the value at a position.
    pub fn set(&self, fork: &mut Fork, i: u64, value: Vec<u8>)
        requires
            old(fork).wf(),
            self.wf(),
            self.lwf(old(fork)@),
            i < self.lview(old(fork)@).len(),
        ensures
            final(fork).wf(),
            final(fork).base_map() == old(fork).base_map(),
            final(fork)@ == old(fork)@.insert(
                self.list.addr.prefix() + crate::address::be64(i),
                value@,
            ),
            self.lwf(final(fork)@),
            self.lview(final(fork)@) == self.lview(old(fork)@).update(i as int, value@),
    {
        self.list.set(fork, i, value)
    }

    /// The root digest of the whole list; the empty list keeps the sentinel.
    pub fn object_hash<A: RawAccess>(&self, access: &A) -> (r: Vec<u8>)
        requires
            access.inv(),
            self.wf(),
            self.lwf(access.view_map()),
            self.lview(access.view_map()).len() <= usize::MAX,
        ensures
            r@ == list_root(self.lview(access.view_map())),
    {
        let ghost vals = self.lview(access.view_map());
        let n64 = self.list.len(access);
        let n: usize = n64 as usize;
        if n == 0 {
            proof {
                assert(leaves_of(vals) =~= Seq::<Seq<u8>>::empty());
            }
            return empty_root_bytes();
        }
        let mut cur: Vec<Vec<u8>> = Vec::new();
        let mut i: usize = 0;
        while i < n
            invariant
                access.inv(),
                self.wf(),
                self.lwf(access.view_map()),
                vals == self.lview(access.view_map()),
                0 <= i <= n,
                n == vals.len(),
                cur@.len() == i,
                forall|t: int| 0 <= t < i ==> (#[trigger] cur@[t])@ == leaf_hash(vals[t]),
            decreases n - i,
        {
            let v = self.list.get(access, i as u64);
            cur.push(hash_leaf(&v));
            i = i + 1;
        }
        proof {
            assert(hview(cur@) =~= leaves_of(vals));
        }
        fold_to_root(cur)
    }

    /// A proof for the values at positions `from..to`: the claimed length,
    /// the values, and the honest sibling digests.
    pub fn get_range_proof<A: RawAccess>(&self, access: &A, from: u64, to: u64) -> (p: ListProof)
        requires
            access.inv(),
            self.wf(),
            self.lwf(access.view_map()),
            from < to,
            to <= self.lview(access.view_map()).len(),
            self.lview(access.view_map()).len() < usize::MAX,
        ensures
            p.length == self.lview(access.view_map()).len(),
            p.from == from,
            p.to == to,
            hview(p.values@) == self.lview(access.view_map()).subrange(from as int, to as int),
            levels_view(p.levels@) == gen_levels(
                leaves_of(self.lview(access.view_map())),
                from as int,
                to as int,
            ),
    {
        let ghost vals = self.lview(access.view_map());
        let n64 = self.list.len(access);
        let n: usize = n64 as usize;
        let mut values: Vec<Vec<u8>> = Vec::new();
        let mut i: usize = from as usize;
        while i < to as usize
            invariant
                access.inv(),
                self.wf(),
                self.lwf(access.view_map()),
                vals == self.lview(access.view_map()),
                from <= i <= to,
                to <= vals.len(),
                vals.len() < usize::MAX,
                values@.len() == i - from,
                forall|t: int|
                    0 <= t < values@.len() ==> (#[trigger] values@[t])@ == vals[from + t],
            decreases to - i,
        {
            let v = self.list.get(access, i as u64);
            values.push(v);
            i = i + 1;
        }
        proof {
            assert(hview(values@) =~= vals.subrange(from as int, to as int));
        }
        let mut cur: Vec<Vec<u8>> = Vec::new();
        let mut j: usize = 0;
        while j < n
            invariant
                access.inv(),
                self.wf(),
                self.lwf(access.view_map()),
                vals == self.lview(access.view_map()),
                0 <= j <= n,
                n == vals.len(),
                cur@.len() == j,
                forall|t: int| 0 <= t < j ==> (#[trigger] cur@[t])@ == leaf_hash(vals[t]),
            decreases n - j,
        {
            let v = self.list.get(access, j as u64);
            cur.push(hash_leaf(&v));
            j = j + 1;
        }
        proof {
            assert(hview(cur@) =~= leaves_of(vals));
        }
        let mut levels: Vec<ListProofLevel> = Vec::new();
        let mut lo: usize = from as usize;
        let mut hi: usize = to as usize;
        while cur.len() > 1
            invariant
                0 <= lo < hi <= cur@.len(),
                cur@.len() < usize::MAX,
                levels_view(levels@) + gen_levels(hview(cur@), lo as int, hi as int)
                    == gen_levels(leaves_of(vals), from as int, to as int),
            decreases cur@.len(),
        {
            let llen = cur.len();
            let need_l = lo % 2 == 1;
            let need_r = hi % 2 == 1 && hi < llen;
            let ghost lv0 = levels_view(levels@);
            let ghost g0 = gen_levels(hview(cur@), lo as int, hi as int);
            let lvl = ListProofLevel {
                left: if need_l {
                    Some(copy_bytes(&cur[lo - 1]))
                } else {
                    None
                },
                right: if need_r {
                    Some(copy_bytes(&cur[hi]))
                } else {
                    None
                },
            };
            levels.push(lvl);
            let next = one_level_up(&cur);
            proof {
                assert(hview(next@) == level_up(hview(cur@)));
                assert(levels_view(levels@) =~= lv0 + seq![g0[0]]);
                assert(g0.skip(1) == gen_levels(
                    level_up(hview(cur@)),
                    (if need_l {
                        lo - 1
                    } else {
                        lo as int
                    }) / 2,
                    ((if need_r {
                        hi + 1
                    } else {
                        hi as int
                    }) + 1) / 2,
                ));
                assert((lv0 + seq![g0[0]]) + g0.skip(1) =~= lv0 + g0);
            }
            lo = (if need_l {
                lo - 1
            } else {
                lo
            }) / 2;
            hi = ((if need_r {
                hi + 1
            } else {
                hi
            }) + 1) / 2;
            cur = next;
        }
        proof {
            assert(gen_levels(hview(cur@), lo as int, hi as int) =~= Seq::<
                (Option<Seq<u8>>, Option<Seq<u8>>),
            >::empty());
            assert(levels_view(levels@) =~= gen_levels(leaves_of(vals), from as int, to as int));
        }
        ListProof { length: n64, from, to, values, levels }
    }
}

/// Fold a non-empty level of digests to the root.
fn fold_to_root(start: Vec<Vec<u8>>) -> (r: Vec<u8>)
    requires
        start@.len() >= 1,
    ensures
        r@ == root_from(hview(start@)),
{
    let mut cur = start;
    let ghost whole = root_from(hview(cur@));
    while cur.len() > 1
        invariant
            cur@.len() >= 1,
            root_from(hview(cur@)) == whole,
        decreases cur@.len(),
    {
        let next = one_level_up(&cur);
        proof {
            assert(hview(next@) == level_up(hview(cur@)));
            assert(root_from(hview(cur@)) == root_from(level_up(hview(cur@))));
        }
        cur = next;
    }
    proof {
        assert(root_from(hview(cur@)) == hview(cur@)[0]);
    }
    copy_bytes(&cur[0])
}

/// Compute one level up from a non-empty level of digests.
fn one_level_up(cur: &Vec<Vec<u8>>) -> (next: Vec<Vec<u8>>)
    requires
        cur@.len() >= 1,
    ensures
        hview(next@) == level_up(hview(cur@)),
{
    let llen = cur.len();
    let nl = llen / 2 + llen % 2;
    let mut next: Vec<Vec<u8>> = Vec::new();
    let mut p: usize = 0;
    while p < nl
        invariant
            0 <= p <= nl,
            nl == (cur@.len() + 1) / 2,
            llen == cur@.len(),
            cur@.len() >= 1,
            next@.len() == p,
            forall|t: int|
                0 <= t < p ==> (#[trigger] next@[t])@ == level_up(hview(cur@))[t],
        decreases nl - p,
    {
        proof {
            assert(2 * nl <= cur@.len() + 1);
            assert(2 * p + 1 <= cur@.len());
        }
        if 2 * p + 1 < llen {
            next.push(hash_node(&cur[2 * p], &cur[2 * p + 1]));
            proof {
                assert(next@[p as int]@ == level_up(hview(cur@))[p as int]);
            }
        } else {
            next.push(copy_bytes(&cur[2 * p]));
            proof {
                assert(next@[p as int]@ == level_up(hview(cur@))[p as int]);
            }
        }
        p = p + 1;
    }
    proof {
        assert(hview(next@) =~= level_up(hview(cur@)));
    }
    next
}

/// Copy a vector of digests or values.
fn copy_values(vs: &Vec<Vec<u8>>) -> (r: Vec<Vec<u8>>)
    ensures
        hview(r@) == hview(vs@),
{
    let mut r: Vec<Vec<u8>> = Vec::new();
    let mut i: usize = 0;
    while i < vs.len()
        invariant
            0 <= i <= vs@.len(),
            r@.len() == i,
            forall|t: int| 0 <= t < i ==> (#[trigger] r@[t])@ == vs@[t]@,
        decreases vs@.len() - i,
    {
        r.push(copy_bytes(&vs[i]));
        i = i + 1;
    }
    proof {
        assert(hview(r@) =~= hview(vs@));
    }
    r
}

/// The leaves a proof's revealed values denote.
pub open spec fn proof_leaves(pf: ListProof) -> Seq<Seq<u8>> {
    Seq::new(pf.values@.len(), |i: int| leaf_hash(pf.values@[i]@))
}

/// What it means for a range proof to verify against a root: recomputation
/// from the revealed values and siblings reproduces exactly that root.
pub open spec fn list_proof_checks(pf: ListProof, root: Seq<u8>) -> bool {
    recompute(
        proof_leaves(pf),
        pf.from as int,
        pf.to as int,
        pf.length as int,
        levels_view(pf.levels@),
    ) == Some(root)
}

/// Check a range proof against an expected root: `Some` of the revealed
/// values exactly when the proof verifies, `None` on any mismatch or
/// malformed shape.
#[verifier::rlimit(80)]
pub fn check_range_proof(pf: &ListProof, expected: &Vec<u8>) -> (r: Option<Vec<Vec<u8>>>)
    ensures
        match r {
            Some(vals) => hview(vals@) == hview(pf.values@) && list_proof_checks(*pf, expected@),
            None => !list_proof_checks(*pf, expected@),
        },
{
    let ghost leaves0 = proof_leaves(*pf);
    let ghost target = recompute(
        leaves0,
        pf.from as int,
        pf.to as int,
        pf.length as int,
        levels_view(pf.levels@),
    );
    if !(pf.from < pf.to && pf.to <= pf.length && pf.values.len() as u64 == pf.to - pf.from) {
        proof {
            assert(target is None);
        }
        return None;
    }
    let mut cur: Vec<Vec<u8>> = Vec::new();
    let mut i: usize = 0;
    while i < pf.values.len()
        invariant
            0 <= i <= pf.values@.len(),
            cur@.len() == i,
            forall|t: int| 0 <= t < i ==> (#[trigger] cur@[t])@ == leaf_hash(pf.values@[t]@),
        decreases pf.values@.len() - i,
    {
        cur.push(hash_leaf(&pf.values[i]));
        i = i + 1;
    }
    proof {
        assert(hview(cur@) =~= leaves0);
    }
    let mut lo: u64 = pf.from;
    let mut hi: u64 = pf.to;
    let mut llen: u64 = pf.length;
    let mut li: usize = 0;
    proof {
        assert(levels_view(pf.levels@).skip(0) =~= levels_view(pf.levels@));
    }
    while llen > 1
        invariant
            0 <= lo < hi <= llen,
            hi - lo == cur@.len(),
            0 <= li <= pf.levels@.len(),
            target == recompute(
                hview(cur@),
                lo as int,
                hi as int,
                llen as int,
                levels_view(pf.levels@).skip(li as int),
            ),
            target == recompute(
                proof_leaves(*pf),
                pf.from as int,
                pf.to as int,
                pf.length as int,
                levels_view(pf.levels@),
            ),
        decreases llen,
    {
        let ghost lvls = levels_view(pf.levels@).skip(li as int);
        if li >= pf.levels.len() {
            proof {
                assert(lvls.len() == 0);
                assert(target is None);
                assert(!list_proof_checks(*pf, expected@));
            }
            return None;
        }
        proof {
            assert(lvls[0] == level_view(pf.levels@[li as int]));
        }
        let need_l = lo % 2 == 1;
        let need_r = hi % 2 == 1 && hi < llen;
        let has_l = match &pf.levels[li].left {
            Some(_) => true,
            None => false,
        };
        let has_r = match &pf.levels[li].right {
            Some(_) => true,
            None => false,
        };
        if need_l != has_l || need_r != has_r {
            proof {
                assert(need_l == (lo as int % 2 == 1));
                assert(need_r == (hi as int % 2 == 1 && (hi as int) < (llen as int)));
                assert(has_l == (lvls[0].0 is Some));
                assert(has_r == (lvls[0].1 is Some));
                assert(target is None);
                assert(!list_proof_checks(*pf, expected@));
            }
            return None;
        }
        let mut ext: Vec<Vec<u8>> = Vec::new();
        match &pf.levels[li].left {
            Some(h) => {
                if need_l {
                    ext.push(copy_bytes(h));
                }
            },
            None => {},
        }
        let ghost cur0 = hview(cur@);
        let mut body = cur;
        ext.append(&mut body);
        match &pf.levels[li].right {
            Some(h) => {
                if need_r {
                    ext.push(copy_bytes(h));
                }
            },
            None => {},
        }
        let elo: u64 = if need_l {
            lo - 1
        } else {
            lo
        };
        let ehi: u64 = if need_r {
            hi + 1
        } else {
            hi
        };
        proof {
            let lft = lvls[0].0;
            let rgt = lvls[0].1;
            assert(hview(ext@) =~= (if need_l {
                seq![some_val(lft)]
            } else {
                Seq::<Seq<u8>>::empty()
            }) + cur0 + (if need_r {
                seq![some_val(rgt)]
            } else {
                Seq::<Seq<u8>>::empty()
            }));
        }
        let enext = one_level_up(&ext);
        proof {
            let spec_parents = Seq::new((((ehi as int - elo as int) + 1) / 2) as nat, |p: int|
                if elo + 2 * p + 1 < ehi {
                    node_hash(hview(ext@)[2 * p], hview(ext@)[2 * p + 1])
                } else {
                    hview(ext@)[2 * p]
                });
            assert(hview(enext@) =~= spec_parents);
            assert(lvls.skip(1) =~= levels_view(pf.levels@).skip(li + 1));
            assert(target == recompute(
                spec_parents,
                elo as int / 2,
                (ehi as int + 1) / 2,
                (llen as int + 1) / 2,
                lvls.skip(1),
            ));
        }
        cur = enext;
        lo = elo / 2;
        hi = ehi / 2 + ehi % 2;
        llen = llen / 2 + llen % 2;
        li = li + 1;
    }
    proof {
        assert(levels_view(pf.levels@).skip(li as int).len() == pf.levels@.len() - li);
    }
    if li < pf.levels.len() || !(lo == 0 && hi == 1) {
        proof {
            assert(target is None);
        }
        return None;
    }
    match key_cmp(&cur[0], expected) {
        KeyOrder::Equal => {
            proof {
                assert(target == Some(cur@[0]@));
            }
            Some(copy_values(&pf.values))
        },
        _ => {
            proof {
                assert(target == Some(cur@[0]@));
            }
            None
        },
    }
}

/// An honestly generated range proof verifies: a proof whose values are the
/// list's range `from..to` and whose levels are the generated siblings for
/// that range checks against the list's own root.
pub proof fn lemma_generated_proof_checks(pf: ListProof, vals: Seq<Seq<u8>>)
    requires
        vals.len() >= 1,
        pf.length == vals.len(),
        pf.from < pf.to <= vals.len(),
        hview(pf.values@) == vals.subrange(pf.from as int, pf.to as int),
        levels_view(pf.levels@) == gen_levels(leaves_of(vals), pf.from as int, pf.to as int),
    ensures
        list_proof_checks(pf, list_root(vals)),
{
    assert(hview(pf.values@).len() == pf.values@.len());
    assert(pf.values@.len() == pf.to - pf.from);
    assert forall|i: int| 0 <= i < pf.values@.len() implies leaf_hash((#[trigger] pf.values@[i])@)
        == leaf_hash(vals[pf.from + i]) by {
        assert(hview(pf.values@)[i] == pf.values@[i]@);
        assert(vals.subrange(pf.from as int, pf.to as int)[i] == vals[pf.from + i]);
        assert(hview(pf.values@)[i] == vals.subrange(pf.from as int, pf.to as int)[i]);
    }
    assert(proof_leaves(pf) =~= leaves_of(vals).subrange(pf.from as int, pf.to as int));
    lemma_range_proof_complete(leaves_of(vals), pf.from as int, pf.to as int);
}

/// The root digest a single Merkelized value presents: the digest of the
/// stored bytes, or the sentinel when nothing is set.
pub open spec fn entry_root_of(v: Option<Seq<u8>>) -> Seq<u8> {
    match v {
        Some(b) => hash_of(b),
        None => empty_root(),
    }
}

/// A single optional Merkelized value at one address.
pub struct ProofEntry {
    pub entry: Entry,
}

impl ProofEntry {
    /// Representation invariant.
    pub open spec fn wf(self) -> bool {
        self.entry.wf()
    }

    /// What this entry holds in a given raw view.
    pub open spec fn value_of(self, store: Map<Seq<u8>, Seq<u8>>) -> Option<Seq<u8>> {
        self.entry.value_of(store)
    }

    /// A handle at an address.
    pub fn new(addr: IndexAddress) -> (r: ProofEntry)
        ensures
            r.entry.addr == addr,
    {
        ProofEntry { entry: Entry::new(addr) }
    }

    /// Read the value, if set.
    pub fn get<A: RawAccess>(&self, access: &A) -> (r: Option<Vec<u8>>)
        requires
            access.inv(),
            self.wf(),
        ensures
            match r {
                Some(v) => self.value_of(access.view_map()) == Some(v@),
                None => self.value_of(access.view_map()) is None,
            },
    {
        self.entry.get(access)
    }

    /// Set the value.
    pub fn set(&self, fork: &mut Fork, value: Vec<u8>)
        requires
            old(fork).wf(),
            self.wf(),
        ensures
            final(fork).wf(),
            final(fork).base_map() == old(fork).base_map(),
            self.value_of(final(fork)@) == Some(value@),
    {
        self.entry.set(fork, value)
    }

    /// Unset the value.
    pub fn remove(&self, fork: &mut Fork)
        requires
            old(fork).wf(),
            self.wf(),
        ensures
            final(fork).wf(),
            final(fork).base_map() == old(fork).base_map(),
            self.value_of(final(fork)@) is None,
    {
        self.entry.remove(fork)
    }

    /// The root digest of the entry; unset keeps the sentinel.
    pub fn object_hash<A: RawAccess>(&self, access: &A) -> (r: Vec<u8>)
        requires
            access.inv(),
            self.wf(),
        ensures
            r@ == entry_root_of(self.value_of(access.view_map())),
    {
        match self.entry.get(access) {
            Some(v) => sha256(v.as_slice()),
            None => empty_root_bytes(),
        }
    }
}

} // verus!
