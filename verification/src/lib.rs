//! An authenticated key-value storage layer: snapshot/fork access over an
//! ordered byte-keyed store, plain typed indexes, and Merkelized indexes
//! (`ProofMapIndex`, `ProofListIndex`) whose contents are summarized by a
//! single root hash and attested by compact inclusion/exclusion proofs.

use vstd::prelude::*;

mod access;
mod address;
mod bytes;
mod changes;
mod config;
mod hash;
mod indexes;
mod kv;
mod merge;
mod proof_list;
mod proof_map;

pub use access::{lemma_fork_isolation, Fork, Patch, RawAccess, Snapshot, TemporaryDb};
pub use address::{
    be64, has_prefix, index_entries, index_map, is_prefix, lemma_address_separation, strip_prefix,
    u64_from_be, u64_to_be, IndexAddress,
};
pub use bytes::{copy_bytes, key_cmp, lex_lt, KeyOrder};
pub use changes::{change_view, Change, ChangeMap};
pub use config::{Argument, Config, Finalize, GenerateNodeConfig, JvmConfig, ServiceConfig};
pub use hash::{hash_of, sha256, HASH_LEN};
pub use indexes::{
    list_len_of, list_view_im, list_wf_im, Entry, KeySetIndex, ListIndex, MapIndex, ValueSetIndex,
};
pub use kv::{kmap, keys_sorted, pair_view, restrict_from, ByteMap};
pub use merge::{apply_changes, merge_pairs, merged_entries_from, some_val};
pub use proof_list::{
    check_range_proof, empty_root, empty_root_bytes, gen_levels, hash_leaf, hash_node, hview,
    leaf_hash, leaves_of, lemma_generated_proof_checks, lemma_range_proof_complete, level_up, levels_view, list_proof_checks,
    list_root, node_hash, proof_leaves, recompute, root_from, ListProof, ListProofLevel,
    entry_root_of, ProofEntry, ProofListIndex,
};
pub use proof_map::{
    bit_at, branch_hash, canonical_entries, check_map_proof, get_bit, hash_pairs,
    last_entry_vhash, lemma_canonical_entries, lemma_digest_eq_from_bits, lemma_empty_map_root,
    lemma_proof_attests_presence, lemma_root_deterministic, map_leaf_hash, map_proof_result,
    map_root_of, node_digest, proof_digest, proof_lookup, subtree_hash, MapProofNode,
    ProofMapIndex,
};
