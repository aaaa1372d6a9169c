//! Deterministic key derivation (ratcheting) from a master key and a label.
use crate::digest::{concat_bytes, hex_spec, sha256, sha256_of, to_hex};
use vstd::prelude::*;
use vstd::string::StringSliceAdditionalSpecFns;

verus! {

/// The key derived from `master` for `label`: the SHA-256 digest of the
/// master material followed by the label bytes.
pub open spec fn derived_key(master: Seq<u8>, label: Seq<u8>) -> Seq<u8> {
    sha256_of(master + label)
}

/// Derives the 32-byte key that `master` gives for `label`.
pub fn derive_key(master: &[u8], label: &[u8]) -> (r: Vec<u8>)
    requires
        master@.len() + label@.len() <= usize::MAX,
    ensures
        r@ == derived_key(master@, label@),
        r@.len() == 32,
{
    let joined = concat_bytes(master, label);
    sha256(joined.as_slice())
}

/// Ratchets a text key: the lowercase hexadecimal digest of the old key's
/// bytes followed by the bytes of `data_hash`.
pub fn ratchet_key(old_key: &str, data_hash: &str) -> (r: String)
    requires
        old_key.spec_bytes().len() + data_hash.spec_bytes().len() <= usize::MAX,
    ensures
        r@ == hex_spec(derived_key(old_key.spec_bytes(), data_hash.spec_bytes())),
        r@.len() == 64,
{
    let k = derive_key(old_key.as_bytes(), data_hash.as_bytes());
    to_hex(k.as_slice())
}

/// Derivation is a function of the master key and the label alone: the same
/// pair always gives the same key.
pub proof fn lemma_derive_stable(m1: Seq<u8>, l1: Seq<u8>, m2: Seq<u8>, l2: Seq<u8>)
    requires
        m1 == m2,
        l1 == l2,
    ensures
        derived_key(m1, l1) == derived_key(m2, l2),
{
}

/// Ratcheting is a function of the old key and the data hash alone: the
/// same texts always give the same new key.
pub proof fn lemma_ratchet_stable(k1: Seq<u8>, h1: Seq<u8>, k2: Seq<u8>, h2: Seq<u8>)
    requires
        k1 == k2,
        h1 == h2,
    ensures
        hex_spec(derived_key(k1, h1)) == hex_spec(derived_key(k2, h2)),
{
}
} // verus!
