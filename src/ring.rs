//! Placement of files on a hash ring of `RING_SIZE` slots.

use vstd::prelude::*;
use sha2::{Digest, Sha256};
use vstd::utf8::encode_utf8;
use vstd::arithmetic::div_mod::{lemma_add_mod_noop, lemma_mul_mod_noop_left};

verus! {

/// Number of slots on the ring.
pub const RING_SIZE: u64 = 32;

/// The SHA-256 digest of `data`.
pub uninterp spec fn sha256_of(data: Seq<u8>) -> Seq<u8>;

/// Value of `bytes` read as a big-endian unsigned integer.
pub open spec fn be_value(bytes: Seq<u8>) -> nat
    decreases bytes.len(),
{
    if bytes.len() == 0 {
        0
    } else {
        be_value(bytes.drop_last()) * 256 + bytes.last() as nat
    }
}

/// Relies on sha2's `Sha256::digest`: the 32-byte SHA-256 digest of the
/// input, which depends on the input alone.
#[verifier::external_body]
fn sha256(data: &[u8]) -> (r: Vec<u8>)
    ensures
        r@ == sha256_of(data@),
        r@.len() == 32,
{
    Sha256::digest(data).to_vec()
}

proof fn lemma_be_value_mod(bytes: Seq<u8>, k: int, m: int)
    requires
        0 <= k < bytes.len(),
        m > 0,
    ensures
        (be_value(bytes.subrange(0, k + 1)) as int) % m == ((be_value(bytes.subrange(0, k)) as int)
            % m * 256 + bytes[k] as int) % m,
{
    let pre = bytes.subrange(0, k + 1);
    assert(pre.drop_last() =~= bytes.subrange(0, k));
    let v = be_value(bytes.subrange(0, k)) as int;
    lemma_mul_mod_noop_left(v, 256, m);
    lemma_add_mod_noop(v * 256, bytes[k] as int, m);
    lemma_add_mod_noop((v % m) * 256, bytes[k] as int, m);
}

/// The big-endian value of `bytes` modulo `m`, read one byte at a time.
fn be_value_mod(bytes: &[u8], m: u64) -> (r: u64)
    requires
        0 < m <= 256,
    ensures
        r as nat == be_value(bytes@) % (m as nat),
{
    let mut r: u64 = 0;
    let mut k: usize = 0;
    assert(be_value(bytes@.subrange(0, 0)) == 0);
    while k < bytes.len()
        invariant
            0 < m <= 256,
            0 <= k <= bytes@.len(),
            r as nat == be_value(bytes@.subrange(0, k as int)) % (m as nat),
        decreases bytes@.len() - k,
    {
        proof {
            lemma_be_value_mod(bytes@, k as int, m as int);
        }
        r = (r * 256 + bytes[k] as u64) % m;
        k = k + 1;
    }
    assert(bytes@.subrange(0, bytes@.len() as int) =~= bytes@);
    r
}

/// Ring slot of a name: its SHA-256 digest read as a big-endian integer,
/// reduced modulo the ring size.
pub open spec fn slot_of(name: Seq<u8>) -> nat {
    be_value(sha256_of(name)) % (RING_SIZE as nat)
}

/// Ring slot of a text: that of its UTF-8 bytes.
pub open spec fn text_slot(text: Seq<char>) -> nat {
    slot_of(encode_utf8(text))
}

/// Ring slot of `input`.
pub fn hash_sha256(input: &str) -> (r: u64)
    ensures
        r as nat == text_slot(input@),
        r < RING_SIZE,
{
    let digest = sha256(input.as_bytes());
    be_value_mod(digest.as_slice(), RING_SIZE)
}

/// A file stored on the ring.
#[derive(Clone, Debug)]
pub struct File {
    pub name: String,
    /// Ring slot of the name.
    pub hash: u64,
}

impl File {
    /// A file named `name`, placed at the ring slot of its name.
    pub fn new(name: String) -> (r: File)
        ensures
            r.name@ == name@,
            r.hash as nat == text_slot(name@),
            r.hash < RING_SIZE,
    {
        let hash = hash_sha256(name.as_str());
        File { name, hash }
    }
}

} // verus!
