use merkle_store::{
    check_map_proof, check_range_proof, empty_root_bytes, key_cmp, sha256, u64_from_be, u64_to_be,
    Entry, IndexAddress, KeyOrder, KeySetIndex, ListIndex, MapIndex, ProofEntry, ProofListIndex,
    ProofMapIndex, RawAccess, TemporaryDb, ValueSetIndex,
};

fn addr(name: &[u8]) -> IndexAddress {
    IndexAddress::named(name.to_vec())
}

fn bytes(s: &[u8]) -> Vec<u8> {
    s.to_vec()
}

#[test]
fn key_cmp_orders_lexicographically() {
    assert!(matches!(key_cmp(&bytes(b"a"), &bytes(b"b")), KeyOrder::Less));
    assert!(matches!(key_cmp(&bytes(b"b"), &bytes(b"a")), KeyOrder::Greater));
    assert!(matches!(key_cmp(&bytes(b"ab"), &bytes(b"ab")), KeyOrder::Equal));
    assert!(matches!(key_cmp(&bytes(b"a"), &bytes(b"ab")), KeyOrder::Less));
    assert!(matches!(key_cmp(&bytes(b""), &bytes(b"a")), KeyOrder::Less));
}

#[test]
fn be64_round_trips() {
    let v = u64_to_be(0x0102_0304_0506_0708);
    assert_eq!(v, vec![1, 2, 3, 4, 5, 6, 7, 8]);
    assert_eq!(u64_from_be(&v), 0x0102_0304_0506_0708);
    let z = u64_to_be(0);
    assert_eq!(u64_from_be(&z), 0);
    let m = u64_to_be(u64::MAX);
    assert_eq!(u64_from_be(&m), u64::MAX);
}

#[test]
fn raw_fork_reads_through_overlay() {
    let mut db = TemporaryDb::new();
    let mut fork = db.fork();
    fork.put(bytes(b"k1"), bytes(b"v1"));
    fork.put(bytes(b"k2"), bytes(b"v2"));
    assert_eq!(fork.get(&bytes(b"k1")), Some(&bytes(b"v1")));
    db.merge(fork.into_patch());

    let mut fork = db.fork();
    fork.remove(&bytes(b"k1"));
    fork.put(bytes(b"k2"), bytes(b"v2b"));
    // overlay wins over the committed value, tombstone hides it
    assert_eq!(fork.get(&bytes(b"k1")), None);
    assert_eq!(fork.get(&bytes(b"k2")), Some(&bytes(b"v2b")));
    db.merge(fork.into_patch());

    let snap = db.snapshot();
    assert_eq!(snap.get(&bytes(b"k1")), None);
    assert_eq!(snap.get(&bytes(b"k2")), Some(&bytes(b"v2b")));
}

#[test]
fn fork_isolation_before_and_after_merge() {
    // writes staged in a fork are invisible to a snapshot taken before the
    // merge and visible to one taken after
    let mut db = TemporaryDb::new();
    let mut fork = db.fork();
    fork.put(bytes(b"base"), bytes(b"old"));
    db.merge(fork.into_patch());

    let before = db.snapshot();
    let mut fork = db.fork();
    fork.put(bytes(b"base"), bytes(b"new"));
    fork.put(bytes(b"extra"), bytes(b"1"));
    assert_eq!(before.get(&bytes(b"base")), Some(&bytes(b"old")));
    assert_eq!(before.get(&bytes(b"extra")), None);

    db.merge(fork.into_patch());
    assert_eq!(before.get(&bytes(b"base")), Some(&bytes(b"old")));
    assert_eq!(before.get(&bytes(b"extra")), None);

    let after = db.snapshot();
    assert_eq!(after.get(&bytes(b"base")), Some(&bytes(b"new")));
    assert_eq!(after.get(&bytes(b"extra")), Some(&bytes(b"1")));
}

#[test]
fn merged_iteration_honors_tombstones() {
    // base {a:1, b:2, c:3}, fork changes {b: delete, d: put 4}
    let mut db = TemporaryDb::new();
    let mut fork = db.fork();
    fork.put(bytes(b"a"), bytes(b"1"));
    fork.put(bytes(b"b"), bytes(b"2"));
    fork.put(bytes(b"c"), bytes(b"3"));
    db.merge(fork.into_patch());

    let mut fork = db.fork();
    fork.remove(&bytes(b"b"));
    fork.put(bytes(b"d"), bytes(b"4"));

    let merged = fork.raw_entries_from(&Vec::new());
    let expected = vec![
        (bytes(b"a"), bytes(b"1")),
        (bytes(b"c"), bytes(b"3")),
        (bytes(b"d"), bytes(b"4")),
    ];
    assert_eq!(merged, expected);
}

#[test]
fn merged_iteration_is_restartable() {
    let mut db = TemporaryDb::new();
    let mut fork = db.fork();
    fork.put(bytes(b"a"), bytes(b"1"));
    fork.put(bytes(b"c"), bytes(b"3"));
    db.merge(fork.into_patch());
    let mut fork = db.fork();
    fork.put(bytes(b"b"), bytes(b"2"));
    let from_b = fork.raw_entries_from(&bytes(b"b"));
    assert_eq!(from_b, vec![(bytes(b"b"), bytes(b"2")), (bytes(b"c"), bytes(b"3"))]);
}

#[test]
fn map_index_basic_operations() {
    let mut db = TemporaryDb::new();
    let idx = MapIndex::new(addr(b"plain_map"));
    let mut fork = db.fork();
    idx.put(&mut fork, &bytes(b"k"), bytes(b"v"));
    assert_eq!(idx.get(&fork, &bytes(b"k")), Some(bytes(b"v")));
    assert!(idx.contains(&fork, &bytes(b"k")));
    idx.remove(&mut fork, &bytes(b"k"));
    assert_eq!(idx.get(&fork, &bytes(b"k")), None);
    idx.put(&mut fork, &bytes(b"x"), bytes(b"1"));
    idx.put(&mut fork, &bytes(b"y"), bytes(b"2"));
    db.merge(fork.into_patch());
    let snap = db.snapshot();
    assert_eq!(idx.get(&snap, &bytes(b"x")), Some(bytes(b"1")));
    let entries = idx.entries(&snap);
    assert_eq!(entries, vec![(bytes(b"x"), bytes(b"1")), (bytes(b"y"), bytes(b"2"))]);
}

#[test]
fn two_indexes_do_not_interfere() {
    let mut db = TemporaryDb::new();
    let a = MapIndex::new(addr(b"alpha"));
    let b = MapIndex::new(addr(b"beta"));
    let mut fork = db.fork();
    a.put(&mut fork, &bytes(b"k"), bytes(b"from_a"));
    b.put(&mut fork, &bytes(b"k"), bytes(b"from_b"));
    db.merge(fork.into_patch());
    let snap = db.snapshot();
    assert_eq!(a.get(&snap, &bytes(b"k")), Some(bytes(b"from_a")));
    assert_eq!(b.get(&snap, &bytes(b"k")), Some(bytes(b"from_b")));
    let fam = MapIndex::new(IndexAddress::in_family(bytes(b"alpha"), 7));
    assert_eq!(fam.get(&snap, &bytes(b"k")), None);
}

#[test]
fn entry_set_get_remove() {
    let mut db = TemporaryDb::new();
    let e = Entry::new(addr(b"entry"));
    let mut fork = db.fork();
    assert_eq!(e.get(&fork), None);
    e.set(&mut fork, bytes(b"payload"));
    assert_eq!(e.get(&fork), Some(bytes(b"payload")));
    e.remove(&mut fork);
    assert_eq!(e.get(&fork), None);
}

#[test]
fn key_set_membership() {
    let mut db = TemporaryDb::new();
    let s = KeySetIndex::new(addr(b"keyset"));
    let mut fork = db.fork();
    assert!(!s.contains(&fork, &bytes(b"m")));
    s.insert(&mut fork, &bytes(b"m"));
    assert!(s.contains(&fork, &bytes(b"m")));
    s.remove(&mut fork, &bytes(b"m"));
    assert!(!s.contains(&fork, &bytes(b"m")));
}

#[test]
fn value_set_membership_by_digest() {
    let mut db = TemporaryDb::new();
    let s = ValueSetIndex::new(addr(b"valueset"));
    let mut fork = db.fork();
    s.insert(&mut fork, bytes(b"payload"));
    assert!(s.contains(&fork, &bytes(b"payload")));
    let h = sha256(b"payload");
    assert!(s.contains_by_hash(&fork, &h));
    assert!(!s.contains(&fork, &bytes(b"other")));
    s.remove(&mut fork, &bytes(b"payload"));
    assert!(!s.contains(&fork, &bytes(b"payload")));
}

#[test]
fn list_index_push_get_set() {
    let mut db = TemporaryDb::new();
    let l = ListIndex::new(addr(b"list"));
    let mut fork = db.fork();
    assert_eq!(l.len(&fork), 0);
    l.push(&mut fork, bytes(b"first"));
    l.push(&mut fork, bytes(b"second"));
    assert_eq!(l.len(&fork), 2);
    assert_eq!(l.get(&fork, 0), bytes(b"first"));
    assert_eq!(l.get(&fork, 1), bytes(b"second"));
    l.set(&mut fork, 0, bytes(b"patched"));
    assert_eq!(l.get(&fork, 0), bytes(b"patched"));
    db.merge(fork.into_patch());
    let snap = db.snapshot();
    assert_eq!(l.len(&snap), 2);
    assert_eq!(l.get(&snap, 0), bytes(b"patched"));
}

#[test]
fn proof_map_root_is_deterministic() {
    // the same entries reached by different operation orders give one root
    let mut db1 = TemporaryDb::new();
    let mut db2 = TemporaryDb::new();
    let idx = ProofMapIndex::new(addr(b"pm"));

    let mut fork = db1.fork();
    idx.put(&mut fork, &bytes(b"x"), bytes(b"1"));
    idx.put(&mut fork, &bytes(b"y"), bytes(b"2"));
    idx.put(&mut fork, &bytes(b"z"), bytes(b"3"));
    idx.remove(&mut fork, &bytes(b"z"));
    db1.merge(fork.into_patch());

    let mut fork = db2.fork();
    idx.put(&mut fork, &bytes(b"y"), bytes(b"0"));
    idx.put(&mut fork, &bytes(b"x"), bytes(b"1"));
    idx.put(&mut fork, &bytes(b"y"), bytes(b"2"));
    db2.merge(fork.into_patch());

    let s1 = db1.snapshot();
    let s2 = db2.snapshot();
    assert_eq!(idx.object_hash(&s1), idx.object_hash(&s2));
}

#[test]
fn proof_map_empty_root_is_sentinel() {
    let db = TemporaryDb::new();
    let idx = ProofMapIndex::new(addr(b"pm_empty"));
    let snap = db.snapshot();
    assert_eq!(idx.object_hash(&snap), empty_root_bytes());
}

#[test]
fn proof_map_removal_returns_to_sentinel() {
    // removing every entry gives back the empty-map root whatever the order
    let mut db = TemporaryDb::new();
    let idx = ProofMapIndex::new(addr(b"pm_drain"));
    let mut fork = db.fork();
    idx.put(&mut fork, &bytes(b"a"), bytes(b"1"));
    idx.put(&mut fork, &bytes(b"b"), bytes(b"2"));
    idx.put(&mut fork, &bytes(b"c"), bytes(b"3"));
    db.merge(fork.into_patch());

    let mut fork = db.fork();
    idx.remove(&mut fork, &bytes(b"b"));
    idx.remove(&mut fork, &bytes(b"c"));
    idx.remove(&mut fork, &bytes(b"a"));
    db.merge(fork.into_patch());

    let snap = db.snapshot();
    assert_eq!(idx.object_hash(&snap), empty_root_bytes());
}

#[test]
fn proof_map_proofs_verify_presence_and_absence() {
    let mut db = TemporaryDb::new();
    let idx = ProofMapIndex::new(addr(b"pm_proofs"));
    let mut fork = db.fork();
    idx.put(&mut fork, &bytes(b"alpha"), bytes(b"1"));
    idx.put(&mut fork, &bytes(b"beta"), bytes(b"2"));
    idx.put(&mut fork, &bytes(b"gamma"), bytes(b"3"));
    db.merge(fork.into_patch());
    let snap = db.snapshot();
    let root = idx.object_hash(&snap);

    // a present key: the proof checks and reports its value digest
    let p = idx.get_proof(&snap, &bytes(b"beta"));
    let res = check_map_proof(&p, &root, &bytes(b"beta"));
    assert_eq!(res, Some(Some(sha256(b"2"))));

    // an absent key: the proof checks and attests absence
    let p = idx.get_proof(&snap, &bytes(b"delta"));
    let res = check_map_proof(&p, &root, &bytes(b"delta"));
    assert_eq!(res, Some(None));

    // a proof never verifies against a different root
    let other = empty_root_bytes();
    let p = idx.get_proof(&snap, &bytes(b"beta"));
    assert_eq!(check_map_proof(&p, &other, &bytes(b"beta")), None);
}

#[test]
fn proof_map_scenario_two_keys_then_removal() {
    // start empty, put x and y, take the root; remove x: root changes and
    // x's absence verifies against the new root
    let mut db = TemporaryDb::new();
    let idx = ProofMapIndex::new(addr(b"pm_scenario"));
    let mut fork = db.fork();
    idx.put(&mut fork, &bytes(b"x"), bytes(b"1"));
    idx.put(&mut fork, &bytes(b"y"), bytes(b"2"));
    db.merge(fork.into_patch());
    let h1 = idx.object_hash(&db.snapshot());

    let mut fork = db.fork();
    idx.remove(&mut fork, &bytes(b"x"));
    db.merge(fork.into_patch());
    let snap = db.snapshot();
    let h2 = idx.object_hash(&snap);
    assert_ne!(h1, h2);

    let p = idx.get_proof(&snap, &bytes(b"x"));
    assert_eq!(check_map_proof(&p, &h2, &bytes(b"x")), Some(None));
    let p = idx.get_proof(&snap, &bytes(b"y"));
    assert_eq!(check_map_proof(&p, &h2, &bytes(b"y")), Some(Some(sha256(b"2"))));
}

#[test]
fn proof_list_full_range_proof_reconstructs_root() {
    // push N values; the proof over 0..N alone recomputes object_hash
    let mut db = TemporaryDb::new();
    let l = ProofListIndex::new(addr(b"pl"));
    let mut fork = db.fork();
    let n = 5u64;
    for i in 0..n {
        l.push(&mut fork, vec![i as u8, 10 + i as u8]);
    }
    db.merge(fork.into_patch());
    let snap = db.snapshot();
    let root = l.object_hash(&snap);

    let p = l.get_range_proof(&snap, 0, n);
    let checked = check_range_proof(&p, &root);
    let values: Vec<Vec<u8>> = (0..n).map(|i| vec![i as u8, 10 + i as u8]).collect();
    assert_eq!(checked, Some(values));
}

#[test]
fn proof_list_partial_range_proof_verifies() {
    let mut db = TemporaryDb::new();
    let l = ProofListIndex::new(addr(b"pl_part"));
    let mut fork = db.fork();
    for i in 0..7u64 {
        l.push(&mut fork, vec![i as u8]);
    }
    db.merge(fork.into_patch());
    let snap = db.snapshot();
    let root = l.object_hash(&snap);

    let p = l.get_range_proof(&snap, 2, 5);
    let checked = check_range_proof(&p, &root);
    assert_eq!(checked, Some(vec![vec![2u8], vec![3u8], vec![4u8]]));

    // and it rejects a wrong root
    let p = l.get_range_proof(&snap, 2, 5);
    assert_eq!(check_range_proof(&p, &empty_root_bytes()), None);
}

#[test]
fn proof_list_single_element() {
    let mut db = TemporaryDb::new();
    let l = ProofListIndex::new(addr(b"pl_one"));
    let mut fork = db.fork();
    l.push(&mut fork, bytes(b"only"));
    db.merge(fork.into_patch());
    let snap = db.snapshot();
    assert_eq!(l.len(&snap), 1);
    let root = l.object_hash(&snap);
    assert_ne!(root, empty_root_bytes());
    let p = l.get_range_proof(&snap, 0, 1);
    assert_eq!(check_range_proof(&p, &root), Some(vec![bytes(b"only")]));
}

#[test]
fn proof_list_empty_root_is_sentinel() {
    let db = TemporaryDb::new();
    let l = ProofListIndex::new(addr(b"pl_empty"));
    assert_eq!(l.object_hash(&db.snapshot()), empty_root_bytes());
}

#[test]
fn proof_list_set_changes_root() {
    let mut db = TemporaryDb::new();
    let l = ProofListIndex::new(addr(b"pl_set"));
    let mut fork = db.fork();
    l.push(&mut fork, bytes(b"a"));
    l.push(&mut fork, bytes(b"b"));
    let before = l.object_hash(&fork);
    l.set(&mut fork, 1, bytes(b"c"));
    let after = l.object_hash(&fork);
    assert_ne!(before, after);
    assert_eq!(l.get(&fork, 1), bytes(b"c"));
}

#[test]
fn proof_entry_root_tracks_value() {
    let mut db = TemporaryDb::new();
    let e = ProofEntry::new(addr(b"proof_entry"));
    let mut fork = db.fork();
    assert_eq!(e.object_hash(&fork), empty_root_bytes());
    e.set(&mut fork, bytes(b"payload"));
    assert_eq!(e.object_hash(&fork), sha256(b"payload"));
    assert_eq!(e.get(&fork), Some(bytes(b"payload")));
    e.remove(&mut fork);
    assert_eq!(e.object_hash(&fork), empty_root_bytes());
    db.merge(fork.into_patch());
}

#[test]
fn discarded_fork_leaves_store_unmodified() {
    let mut db = TemporaryDb::new();
    let mut fork = db.fork();
    fork.put(bytes(b"kept"), bytes(b"1"));
    db.merge(fork.into_patch());

    // a fork dropped without merging changes nothing
    let mut abandoned = db.fork();
    abandoned.put(bytes(b"lost"), bytes(b"2"));
    drop(abandoned);

    let snap = db.snapshot();
    assert_eq!(snap.get(&bytes(b"kept")), Some(&bytes(b"1")));
    assert_eq!(snap.get(&bytes(b"lost")), None);
}
