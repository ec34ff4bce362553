//! Index addressing: a name plus an optional numeric sub-identifier, mapped
//! deterministically to a byte prefix of the flat key space. Distinct
//! addresses never produce overlapping prefixes, so two indexes can never
//! read or clobber one another's entries.

use vstd::prelude::*;

use crate::bytes::{copy_bytes, lex_lt};
use crate::bytes::{lemma_lex_asym, lemma_lex_trans};
use crate::kv::{keys_sorted, kmap, pair_view, restrict_from};
use crate::kv::{lemma_kmap_domain, lemma_kmap_index};
use crate::access::RawAccess;

verus! {

/// A 64-bit number as eight big-endian bytes.
pub open spec fn be64(n: u64) -> Seq<u8> {
    seq![
        ((n >> 56) & 0xff) as u8,
        ((n >> 48) & 0xff) as u8,
        ((n >> 40) & 0xff) as u8,
        ((n >> 32) & 0xff) as u8,
        ((n >> 24) & 0xff) as u8,
        ((n >> 16) & 0xff) as u8,
        ((n >> 8) & 0xff) as u8,
        (n & 0xff) as u8,
    ]
}

/// Encode a 64-bit number as eight big-endian bytes.
pub fn u64_to_be(n: u64) -> (r: Vec<u8>)
    ensures
        r@ == be64(n),
        r@.len() == 8,
{
    let mut r: Vec<u8> = Vec::new();
    r.push(((n >> 56) & 0xff) as u8);
    r.push(((n >> 48) & 0xff) as u8);
    r.push(((n >> 40) & 0xff) as u8);
    r.push(((n >> 32) & 0xff) as u8);
    r.push(((n >> 24) & 0xff) as u8);
    r.push(((n >> 16) & 0xff) as u8);
    r.push(((n >> 8) & 0xff) as u8);
    r.push((n & 0xff) as u8);
    proof {
        assert(r@ =~= be64(n));
    }
    r
}

/// Big-endian encoding is injective.
pub proof fn lemma_be64_injective(a: u64, b: u64)
    requires
        be64(a) == be64(b),
    ensures
        a == b,
{
    assert(be64(a)[0] == be64(b)[0]);
    assert(be64(a)[1] == be64(b)[1]);
    assert(be64(a)[2] == be64(b)[2]);
    assert(be64(a)[3] == be64(b)[3]);
    assert(be64(a)[4] == be64(b)[4]);
    assert(be64(a)[5] == be64(b)[5]);
    assert(be64(a)[6] == be64(b)[6]);
    assert(be64(a)[7] == be64(b)[7]);
    assert(a == b) by (bit_vector)
        requires
            ((a >> 56) & 0xff) as u8 == ((b >> 56) & 0xff) as u8,
            ((a >> 48) & 0xff) as u8 == ((b >> 48) & 0xff) as u8,
            ((a >> 40) & 0xff) as u8 == ((b >> 40) & 0xff) as u8,
            ((a >> 32) & 0xff) as u8 == ((b >> 32) & 0xff) as u8,
            ((a >> 24) & 0xff) as u8 == ((b >> 24) & 0xff) as u8,
            ((a >> 16) & 0xff) as u8 == ((b >> 16) & 0xff) as u8,
            ((a >> 8) & 0xff) as u8 == ((b >> 8) & 0xff) as u8,
            (a & 0xff) as u8 == (b & 0xff) as u8,
    ;
}

/// The number eight big-endian bytes encode.
pub open spec fn be64_val(s: Seq<u8>) -> u64
    recommends
        s.len() == 8,
{
    ((s[0] as u64) << 56) | ((s[1] as u64) << 48) | ((s[2] as u64) << 40) | ((s[3] as u64) << 32)
        | ((s[4] as u64) << 24) | ((s[5] as u64) << 16) | ((s[6] as u64) << 8) | (s[7] as u64)
}

/// Decode eight big-endian bytes.
pub fn u64_from_be(v: &Vec<u8>) -> (r: u64)
    requires
        v@.len() == 8,
    ensures
        r == be64_val(v@),
{
    ((v[0] as u64) << 56) | ((v[1] as u64) << 48) | ((v[2] as u64) << 40) | ((v[3] as u64) << 32)
        | ((v[4] as u64) << 24) | ((v[5] as u64) << 16) | ((v[6] as u64) << 8) | (v[7] as u64)
}

/// Decoding inverts encoding.
pub proof fn lemma_be64_roundtrip(n: u64)
    ensures
        be64_val(be64(n)) == n,
        be64(n).len() == 8,
{
    assert(((((n >> 56) & 0xff) as u8) as u64) << 56 | ((((n >> 48) & 0xff) as u8) as u64) << 48
        | ((((n >> 40) & 0xff) as u8) as u64) << 40 | ((((n >> 32) & 0xff) as u8) as u64) << 32 | (
    (((n >> 24) & 0xff) as u8) as u64) << 24 | ((((n >> 16) & 0xff) as u8) as u64) << 16 | ((((n
        >> 8) & 0xff) as u8) as u64) << 8 | (((n & 0xff) as u8) as u64) == n) by (bit_vector);
}

/// The namespace of one index: a non-empty, zero-free name, and optionally a
/// numeric identifier for one member of an index family.
pub struct IndexAddress {
    pub name: Vec<u8>,
    pub id: Option<u64>,
}

impl IndexAddress {
    /// The name is non-empty and holds no zero byte, so the zero terminator
    /// below ends it unambiguously.
    pub open spec fn wf(self) -> bool {
        self.name@.len() > 0 && forall|i: int| 0 <= i < self.name@.len() ==> self.name@[i] != 0
    }

    /// The byte prefix this address claims in the flat key space: the name,
    /// a zero terminator, then a fixed-width tag-and-identifier block.
    pub open spec fn prefix(self) -> Seq<u8> {
        self.name@ + seq![0u8] + (match self.id {
            Some(n) => seq![1u8] + be64(n),
            None => seq![0u8],
        })
    }

    /// A plain-name address.
    pub fn named(name: Vec<u8>) -> (r: IndexAddress)
        ensures
            r.name@ == name@,
            r.id == Option::<u64>::None,
    {
        IndexAddress { name, id: None }
    }

    /// A member of an index family, selected by a numeric identifier.
    pub fn in_family(name: Vec<u8>, id: u64) -> (r: IndexAddress)
        ensures
            r.name@ == name@,
            r.id == Some(id),
    {
        IndexAddress { name, id: Some(id) }
    }

    /// The prefix as bytes.
    pub fn prefix_bytes(&self) -> (r: Vec<u8>)
        ensures
            r@ == self.prefix(),
    {
        let mut r = copy_bytes(&self.name);
        r.push(0u8);
        match self.id {
            Some(n) => {
                r.push(1u8);
                let mut tail = u64_to_be(n);
                r.append(&mut tail);
            },
            None => {
                r.push(0u8);
            },
        }
        proof {
            assert(r@ =~= self.prefix());
        }
        r
    }

    /// The flat-store key carrying `key` inside this index's namespace.
    pub fn resolved_key(&self, key: &Vec<u8>) -> (r: Vec<u8>)
        ensures
            r@ == self.prefix() + key@,
    {
        let mut r = self.prefix_bytes();
        let mut tail = copy_bytes(key);
        r.append(&mut tail);
        proof {
            assert(r@ =~= self.prefix() + key@);
        }
        r
    }
}

/// Two distinct addresses never resolve to a common flat key: if two
/// resolved keys coincide, the addresses and the index-local keys coincide.
pub proof fn lemma_address_separation(
    a1: IndexAddress,
    a2: IndexAddress,
    k1: Seq<u8>,
    k2: Seq<u8>,
)
    requires
        a1.wf(),
        a2.wf(),
        a1.prefix() + k1 == a2.prefix() + k2,
    ensures
        a1.name@ == a2.name@,
        a1.id == a2.id,
        k1 == k2,
{
    let p1 = a1.prefix();
    let p2 = a2.prefix();
    let t = p1 + k1;
    let n1 = a1.name@.len() as int;
    let n2 = a2.name@.len() as int;
    assert(p1[n1] == 0);
    assert(p2[n2] == 0);
    assert(forall|i: int| 0 <= i < n1 ==> p1[i] == a1.name@[i] && p1[i] != 0);
    assert(forall|i: int| 0 <= i < n2 ==> p2[i] == a2.name@[i] && p2[i] != 0);
    assert(n1 == n2) by {
        if n1 < n2 {
            assert(t[n1] == p1[n1]);
            assert(t[n1] == p2[n1]);
        } else if n2 < n1 {
            assert(t[n2] == p2[n2]);
            assert(t[n2] == p1[n2]);
        }
    }
    assert forall|i: int| 0 <= i < n1 implies a1.name@[i] == a2.name@[i] by {
        assert(p1[i] == a1.name@[i]);
        assert(p2[i] == a2.name@[i]);
        assert(t[i] == p1[i]);
        assert(t[i] == p2[i]);
    }
    assert(a1.name@ =~= a2.name@);
    let tag1: u8 = if a1.id is Some {
        1
    } else {
        0
    };
    let tag2: u8 = if a2.id is Some {
        1
    } else {
        0
    };
    assert(p1[n1 + 1] == tag1);
    assert(p2[n2 + 1] == tag2);
    assert(t[n1 + 1] == p1[n1 + 1] && t[n1 + 1] == p2[n1 + 1]);
    assert(tag1 == tag2);
    match a1.id {
        Some(v1) => {
            let v2 = a2.id->0;
            assert(p1.len() == n1 + 2 + 8);
            assert(p2.len() == n2 + 2 + 8);
            assert(be64(v1) =~= be64(v2)) by {
                assert forall|j: int| 0 <= j < 8 implies #[trigger] be64(v1)[j] == be64(v2)[j] by {
                    assert(p1[n1 + 2 + j] == be64(v1)[j]);
                    assert(p2[n1 + 2 + j] == be64(v2)[j]);
                    assert(t[n1 + 2 + j] == p1[n1 + 2 + j]);
                    assert(t[n1 + 2 + j] == p2[n1 + 2 + j]);
                }
            }
            lemma_be64_injective(v1, v2);
        },
        None => {
            assert(p1.len() == n1 + 2);
            assert(p2.len() == n2 + 2);
        },
    }
    assert(p1.len() == p2.len());
    assert(k1 =~= k2) by {
        assert(k1 =~= t.skip(p1.len() as int));
        assert(k2 =~= (p2 + k2).skip(p2.len() as int));
    }
}

/// What one index sees of a flat store view: the entries under its prefix,
/// with the prefix stripped.
pub open spec fn index_map(store: Map<Seq<u8>, Seq<u8>>, p: Seq<u8>) -> Map<Seq<u8>, Seq<u8>> {
    Map::new(|k: Seq<u8>| store.contains_key(p + k), |k: Seq<u8>| store[p + k])
}

/// A write under one index-local key is, through the index's view, an
/// insertion of exactly that key.
pub proof fn lemma_index_map_insert(m: Map<Seq<u8>, Seq<u8>>, p: Seq<u8>, k: Seq<u8>, v: Seq<u8>)
    ensures
        index_map(m.insert(p + k, v), p) == index_map(m, p).insert(k, v),
{
    assert forall|a: Seq<u8>| p + a == p + k implies a == k by {
        assert(a =~= (p + a).skip(p.len() as int));
        assert(k =~= (p + k).skip(p.len() as int));
    }
    assert(index_map(m.insert(p + k, v), p) =~= index_map(m, p).insert(k, v));
}

/// A deletion under one index-local key is, through the index's view, a
/// removal of exactly that key.
pub proof fn lemma_index_map_remove(m: Map<Seq<u8>, Seq<u8>>, p: Seq<u8>, k: Seq<u8>)
    ensures
        index_map(m.remove(p + k), p) == index_map(m, p).remove(k),
{
    assert forall|a: Seq<u8>| p + a == p + k implies a == k by {
        assert(a =~= (p + a).skip(p.len() as int));
        assert(k =~= (p + k).skip(p.len() as int));
    }
    assert(index_map(m.remove(p + k), p) =~= index_map(m, p).remove(k));
}

/// Writes under one address are invisible through any other address: the
/// address prefixes never overlap.
pub proof fn lemma_index_isolation(
    m: Map<Seq<u8>, Seq<u8>>,
    a1: IndexAddress,
    a2: IndexAddress,
    k: Seq<u8>,
    v: Seq<u8>,
)
    requires
        a1.wf(),
        a2.wf(),
        a1.name@ != a2.name@ || a1.id != a2.id,
    ensures
        index_map(m.insert(a1.prefix() + k, v), a2.prefix()) == index_map(m, a2.prefix()),
        index_map(m.remove(a1.prefix() + k), a2.prefix()) == index_map(m, a2.prefix()),
{
    assert forall|a: Seq<u8>| a1.prefix() + k != #[trigger] (a2.prefix() + a) by {
        if a1.prefix() + k == a2.prefix() + a {
            lemma_address_separation(a1, a2, k, a);
        }
    }
    assert(index_map(m.insert(a1.prefix() + k, v), a2.prefix()) =~= index_map(m, a2.prefix()));
    assert(index_map(m.remove(a1.prefix() + k), a2.prefix()) =~= index_map(m, a2.prefix()));
}

/// `y` starts with `p`.
pub open spec fn is_prefix(p: Seq<u8>, y: Seq<u8>) -> bool {
    y.len() >= p.len() && y.subrange(0, p.len() as int) == p
}

/// Whether a key starts with a prefix.
pub fn has_prefix(k: &Vec<u8>, p: &Vec<u8>) -> (r: bool)
    ensures
        r == is_prefix(p@, k@),
{
    if k.len() < p.len() {
        return false;
    }
    let mut i: usize = 0;
    while i < p.len()
        invariant
            0 <= i <= p@.len(),
            p@.len() <= k@.len(),
            forall|j: int| 0 <= j < i ==> k@[j] == p@[j],
        decreases p@.len() - i,
    {
        if k[i] != p[i] {
            proof {
                assert(k@.subrange(0, p@.len() as int)[i as int] != p@[i as int]);
            }
            return false;
        }
        i = i + 1;
    }
    proof {
        assert(k@.subrange(0, p@.len() as int) =~= p@);
    }
    true
}

/// Copy the part of a key after its first `plen` bytes.
pub fn strip_prefix(k: &Vec<u8>, plen: usize) -> (r: Vec<u8>)
    requires
        plen <= k@.len(),
    ensures
        r@ == k@.skip(plen as int),
{
    let mut r: Vec<u8> = Vec::new();
    let mut i: usize = plen;
    while i < k.len()
        invariant
            plen <= i <= k@.len(),
            r@.len() == i - plen,
            forall|j: int| 0 <= j < r@.len() ==> r@[j] == k@[plen + j],
        decreases k@.len() - i,
    {
        r.push(k[i]);
        i = i + 1;
    }
    proof {
        assert(r@ =~= k@.skip(plen as int));
    }
    r
}

/// Prepending a common prefix to both sides does not change the comparison.
pub proof fn lemma_lex_concat(p: Seq<u8>, a: Seq<u8>, b: Seq<u8>)
    ensures
        lex_lt(p + a, p + b) == lex_lt(a, b),
    decreases p.len(),
{
    if p.len() == 0 {
        assert(p + a =~= a);
        assert(p + b =~= b);
    } else {
        let pa = p + a;
        let pb = p + b;
        assert(pa.len() > 0 && pb.len() > 0 && pa[0] == p[0] && pb[0] == p[0]);
        assert(lex_lt(pa, pb) == lex_lt(pa.skip(1), pb.skip(1)));
        assert(pa.skip(1) =~= p.skip(1) + a);
        assert(pb.skip(1) =~= p.skip(1) + b);
        lemma_lex_concat(p.skip(1), a, b);
    }
}

/// A string never sorts below its own prefix.
pub proof fn lemma_prefix_le(p: Seq<u8>, a: Seq<u8>)
    ensures
        !lex_lt(p + a, p),
    decreases p.len(),
{
    if p.len() > 0 {
        let pa = p + a;
        assert(pa[0] == p[0]);
        assert(lex_lt(pa, p) == lex_lt(pa.skip(1), p.skip(1)));
        assert(pa.skip(1) =~= p.skip(1) + a);
        lemma_prefix_le(p.skip(1), a);
    }
}

/// A string at or above `p` that does not start with `p` sorts above every
/// string that does: the keys of one prefix form one contiguous block.
pub proof fn lemma_prefix_block(p: Seq<u8>, y: Seq<u8>)
    requires
        !lex_lt(y, p),
        !is_prefix(p, y),
    ensures
        forall|a: Seq<u8>| lex_lt(#[trigger] (p + a), y),
    decreases p.len(),
{
    if p.len() == 0 {
        assert(y.subrange(0, p.len() as int) =~= p);
        assert(is_prefix(p, y));
    } else if y.len() == 0 {
        assert(lex_lt(y, p));
    } else if y[0] < p[0] {
        assert(lex_lt(y, p));
    } else if y[0] > p[0] {
        assert forall|a: Seq<u8>| lex_lt(#[trigger] (p + a), y) by {
            assert((p + a)[0] == p[0]);
        }
    } else {
        assert(lex_lt(y, p) == lex_lt(y.skip(1), p.skip(1)));
        assert(!is_prefix(p.skip(1), y.skip(1))) by {
            if is_prefix(p.skip(1), y.skip(1)) {
                assert(y.len() >= p.len());
                assert forall|j: int| 0 <= j < p.len() implies y.subrange(0, p.len() as int)[j]
                    == p[j] by {
                    if j >= 1 {
                        assert(y.skip(1).subrange(0, p.len() - 1)[j - 1] == p.skip(1)[j - 1]);
                        assert(y.skip(1)[j - 1] == y[j]);
                        assert(p.skip(1)[j - 1] == p[j]);
                    }
                }
                assert(y.subrange(0, p.len() as int) =~= p);
                assert(is_prefix(p, y));
            }
        }
        lemma_prefix_block(p.skip(1), y.skip(1));
        assert forall|a: Seq<u8>| lex_lt(#[trigger] (p + a), y) by {
            let pa = p + a;
            assert(pa[0] == p[0] && pa[0] == y[0]);
            assert(lex_lt(pa, y) == lex_lt(pa.skip(1), y.skip(1)));
            assert(pa.skip(1) =~= p.skip(1) + a);
            assert(lex_lt(p.skip(1) + a, y.skip(1)));
        }
    }
}

/// All entries of one index, in ascending key order, with the prefix
/// stripped: the canonical listing of the index's contents.
pub fn index_entries<A: RawAccess>(access: &A, addr: &IndexAddress) -> (r: Vec<(Vec<u8>, Vec<u8>)>)
    requires
        access.inv(),
        addr.wf(),
    ensures
        keys_sorted(pair_view(r@)),
        kmap(pair_view(r@)) == index_map(access.view_map(), addr.prefix()),
{
    let p = addr.prefix_bytes();
    let all = access.raw_entries_from(&p);
    let ghost ap = pair_view(all@);
    let ghost plen = p@.len() as int;
    let mut j0: usize = 0;
    while j0 < all.len()
        invariant
            0 <= j0 <= ap.len(),
            ap == pair_view(all@),
            p@ == addr.prefix(),
            forall|t: int| 0 <= t < j0 ==> is_prefix(p@, (#[trigger] ap[t]).0),
        ensures
            0 <= j0 <= ap.len(),
            forall|t: int| 0 <= t < j0 ==> is_prefix(p@, (#[trigger] ap[t]).0),
            j0 < ap.len() ==> !is_prefix(p@, ap[j0 as int].0),
        decreases ap.len() - j0,
    {
        if !has_prefix(&all[j0].0, &p) {
            break;
        }
        j0 = j0 + 1;
    }
    let mut r: Vec<(Vec<u8>, Vec<u8>)> = Vec::new();
    let mut t: usize = 0;
    while t < j0
        invariant
            0 <= t <= j0 <= ap.len(),
            ap == pair_view(all@),
            p@ == addr.prefix(),
            plen == p@.len() as int,
            forall|u: int| 0 <= u < j0 ==> is_prefix(p@, (#[trigger] ap[u]).0),
            r@.len() == t,
            forall|u: int|
                0 <= u < t ==> (#[trigger] r@[u]).0@ == ap[u].0.skip(plen) && r@[u].1@ == ap[u].1,
        decreases j0 - t,
    {
        proof {
            assert(is_prefix(p@, ap[t as int].0));
            assert(ap[t as int].0 == all@[t as int].0@);
        }
        let k = strip_prefix(&all[t].0, p.len());
        let v = copy_bytes(&all[t].1);
        r.push((k, v));
        t = t + 1;
    }
    proof {
        let rp = pair_view(r@);
        let im = index_map(access.view_map(), addr.prefix());
        lemma_kmap_domain(ap);
        lemma_kmap_index(ap);
        assert(forall|u: int|
            0 <= u < j0 ==> (#[trigger] ap[u]).0 =~= p@ + ap[u].0.skip(plen));
        assert(forall|u: int| 0 <= u < j0 ==> (#[trigger] rp[u]).0 == ap[u].0.skip(plen));
        assert(keys_sorted(rp)) by {
            assert forall|u: int, w: int| 0 <= u < w < rp.len() implies lex_lt(
                rp[u].0,
                rp[w].0,
            ) by {
                assert(lex_lt(ap[u].0, ap[w].0));
                lemma_lex_concat(p@, rp[u].0, rp[w].0);
            }
        }
        lemma_kmap_domain(rp);
        lemma_kmap_index(rp);
        assert forall|a: Seq<u8>| #[trigger] kmap(rp).contains_key(a) implies im.contains_key(a)
            && kmap(rp)[a] == im[a] by {
            let u = choose|u: int| 0 <= u < rp.len() && #[trigger] rp[u].0 == a;
            assert(ap[u].0 == p@ + a);
            assert(kmap(ap).contains_key(p@ + a));
            assert(kmap(ap)[p@ + a] == ap[u].1);
            assert(kmap(rp)[a] == rp[u].1);
        }
        assert forall|a: Seq<u8>| #[trigger] im.contains_key(a) implies kmap(rp).contains_key(
            a,
        ) by {
            assert(access.view_map().contains_key(p@ + a));
            lemma_prefix_le(p@, a);
            assert(kmap(ap).contains_key(p@ + a));
            let u = choose|u: int| 0 <= u < ap.len() && #[trigger] ap[u].0 == p@ + a;
            assert(is_prefix(p@, p@ + a)) by {
                assert((p@ + a).subrange(0, plen) =~= p@);
            }
            if u >= j0 {
                assert(j0 < ap.len());
                assert(kmap(ap).contains_key(ap[j0 as int].0));
                assert(!lex_lt(ap[j0 as int].0, p@));
                lemma_prefix_block(p@, ap[j0 as int].0);
                assert(lex_lt(p@ + a, ap[j0 as int].0));
                if u > j0 {
                    assert(lex_lt(ap[j0 as int].0, ap[u].0));
                    lemma_lex_asym(p@ + a, ap[j0 as int].0);
                    lemma_lex_trans(ap[j0 as int].0, ap[u].0, ap[j0 as int].0);
                    lemma_lex_asym(ap[j0 as int].0, ap[u].0);
                } else {
                    lemma_lex_asym(p@ + a, ap[j0 as int].0);
                }
            }
            assert(u < j0);
            assert(rp[u].0 =~= a) by {
                assert(ap[u].0 == p@ + a);
                assert(ap[u].0.skip(plen) =~= a);
            }
        }
        assert(kmap(rp) =~= im);
    }
    r
}

} // verus!
