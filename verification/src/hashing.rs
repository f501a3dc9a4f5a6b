//! Keccak-256 hashing, RLP encoding of the legacy create pair, and the
//! address-derivation rules built on them.
//!
//! The digest itself is computed by an outside crate; its value is only
//! named here (`keccak_of`), never restated. The RLP encoding of the
//! two-item list `[caller, nonce]` is short enough to state exactly, so the
//! wrapper's contract pins it byte for byte.

use vstd::prelude::*;
use crate::addr::Address;
use crate::addr::ADDRESS_LEN;
use crate::bytes::extend_bytes;

verus! {

/// Number of bytes in a Keccak-256 digest.
pub const HASH_LEN: usize = 32;

/// The Keccak-256 digest of a byte string: a function of the input alone.
pub uninterp spec fn keccak_of(data: Seq<u8>) -> Seq<u8>;

/// Relies on solana_program::keccak::hash for the Keccak-256 digest of the
/// input; the digest is 32 bytes and depends on the input bytes alone.
#[verifier::external_body]
pub fn keccak256(data: &Vec<u8>) -> (r: Vec<u8>)
    ensures
        r@ == keccak_of(data@),
        r@.len() == HASH_LEN,
{
    solana_program::keccak::hash(data.as_slice()).to_bytes().to_vec()
}

/// Minimal big-endian byte representation of an integer; empty for zero.
pub open spec fn be_min_bytes(n: u64) -> Seq<u8>
    decreases n,
{
    if n == 0 {
        Seq::empty()
    } else {
        be_min_bytes(n / 256).push((n % 256) as u8)
    }
}

/// RLP encoding of an unsigned integer.
pub open spec fn rlp_uint(n: u64) -> Seq<u8> {
    if n == 0 {
        seq![0x80u8]
    } else if n < 0x80 {
        seq![n as u8]
    } else {
        seq![(0x80 + be_min_bytes(n).len()) as u8] + be_min_bytes(n)
    }
}

/// RLP encoding of the two-item list [20-byte address, nonce].
pub open spec fn rlp_addr_nonce(a: Seq<u8>, nonce: u64) -> Seq<u8> {
    let payload = seq![0x94u8] + a + rlp_uint(nonce);
    seq![(0xc0 + payload.len()) as u8] + payload
}

/// Relies on rlp::RlpStream (new_list, append, out): the canonical RLP
/// encoding of the two-item list [caller address, nonce], as stated by
/// `rlp_addr_nonce`.
#[verifier::external_body]
pub fn rlp_encode_caller_nonce(caller: &Address, nonce: u64) -> (r: Vec<u8>)
    requires
        caller.wf(),
    ensures
        r@ == rlp_addr_nonce(caller@, nonce),
{
    let mut s = rlp::RlpStream::new_list(2);
    s.append(&caller.bytes);
    s.append(&nonce);
    s.out().to_vec()
}

/// The address derived by the Create2 scheme:
/// keccak256(0xff ++ caller ++ salt ++ code_hash), low 20 bytes.
pub open spec fn create2_of(caller: Seq<u8>, salt: Seq<u8>, code_hash: Seq<u8>) -> Seq<u8> {
    keccak_of(seq![0xffu8] + caller + salt + code_hash).skip(12)
}

/// The address derived by the legacy scheme:
/// keccak256(RLP([caller, nonce])), low 20 bytes.
pub open spec fn legacy_of(caller: Seq<u8>, nonce: u64) -> Seq<u8> {
    keccak_of(rlp_addr_nonce(caller, nonce)).skip(12)
}

/// Low 20 bytes of a 32-byte digest, as an address.
pub fn address_from_hash(h: &Vec<u8>) -> (r: Address)
    requires
        h@.len() == 32,
    ensures
        r.wf(),
        r@ == h@.skip(12),
{
    let mut b: Vec<u8> = Vec::new();
    let mut i: usize = 12;
    while i < 32
        invariant
            12 <= i <= 32,
            h@.len() == 32,
            b@ == h@.subrange(12, i as int),
        decreases 32 - i,
    {
        proof {
            assert(h@.subrange(12, i as int + 1) =~= h@.subrange(12, i as int).push(h@[i as int]));
        }
        b.push(h[i]);
        i += 1;
    }
    proof {
        assert(h@.subrange(12, 32) =~= h@.skip(12).subrange(0, 20));
        assert(h@.skip(12).subrange(0, 20) =~= h@.skip(12));
    }
    Address { bytes: b }
}

/// Create2 address from the already-hashed init code.
pub fn create2_address(caller: &Address, salt: &Vec<u8>, code_hash: &Vec<u8>) -> (r: Address)
    requires
        caller.wf(),
    ensures
        r.wf(),
        r@ == create2_of(caller@, salt@, code_hash@),
{
    let mut buf: Vec<u8> = Vec::new();
    buf.push(0xffu8);
    proof {
        assert(buf@ =~= seq![0xffu8]);
    }
    extend_bytes(&mut buf, &caller.bytes);
    extend_bytes(&mut buf, salt);
    extend_bytes(&mut buf, code_hash);
    proof {
        assert(buf@ =~= seq![0xffu8] + caller@ + salt@ + code_hash@);
    }
    let h = keccak256(&buf);
    address_from_hash(&h)
}

/// Create2 address from the raw init code, hashing it first: the full
/// keccak256(0xff ++ caller ++ salt ++ keccak256(initCode)) derivation.
pub fn create2_address_for_code(caller: &Address, salt: &Vec<u8>, init_code: &Vec<u8>) -> (r:
    Address)
    requires
        caller.wf(),
    ensures
        r.wf(),
        r@ == create2_of(caller@, salt@, keccak_of(init_code@)),
{
    let code_hash = keccak256(init_code);
    create2_address(caller, salt, &code_hash)
}

/// Legacy create address for a caller and its current nonce.
pub fn legacy_address(caller: &Address, nonce: u64) -> (r: Address)
    requires
        caller.wf(),
    ensures
        r.wf(),
        r@ == legacy_of(caller@, nonce),
{
    let enc = rlp_encode_caller_nonce(caller, nonce);
    let h = keccak256(&enc);
    address_from_hash(&h)
}

/// Address standing for a native signer: low 20 bytes of the Keccak-256
/// digest of its raw 32-byte key.
pub fn derive_from_signer_key(key: &Vec<u8>) -> (r: Address)
    ensures
        r.wf(),
        r@ == keccak_of(key@).skip(12),
{
    let h = keccak256(key);
    address_from_hash(&h)
}

/// The all-zero 32-byte digest value.
pub open spec fn zero_hash_bytes() -> Seq<u8> {
    Seq::new(HASH_LEN as nat, |i: int| 0u8)
}

/// A 32-byte vector of zeroes, the hash reported for absent accounts.
pub fn zero_hash() -> (r: Vec<u8>)
    ensures
        r@ == zero_hash_bytes(),
{
    let mut b: Vec<u8> = Vec::new();
    let mut i: usize = 0;
    while i < HASH_LEN
        invariant
            i <= HASH_LEN,
            b@.len() == i,
            forall|j: int| 0 <= j < i ==> b@[j] == 0u8,
        decreases HASH_LEN - i,
    {
        b.push(0u8);
        i += 1;
    }
    proof {
        assert(b@ =~= zero_hash_bytes());
    }
    b
}

} // verus!
