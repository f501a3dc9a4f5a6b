//! 160-bit account addresses and their total order.
//!
//! The resolver keys its alias index by address; binary search over the
//! frozen index needs a total order, which is the byte-wise lexicographic
//! order below together with its trichotomy and transitivity lemmas.

use vstd::prelude::*;
use crate::bytes::clone_bytes;
use crate::bytes::eq_bytes;

verus! {

/// Number of bytes in an account address.
pub const ADDRESS_LEN: usize = 20;

/// A 160-bit Ethereum-style account identity.
#[verifier::ext_equal]
pub struct Address {
    pub bytes: Vec<u8>,
}

impl View for Address {
    type V = Seq<u8>;

    open spec fn view(&self) -> Seq<u8> {
        self.bytes@
    }
}

impl Address {
    /// A value is well formed when it holds exactly 20 bytes.
    pub open spec fn wf(&self) -> bool {
        self@.len() == ADDRESS_LEN
    }

    /// Wraps 20 raw bytes as an address.
    pub fn from_bytes(b: Vec<u8>) -> (r: Address)
        requires
            b@.len() == ADDRESS_LEN,
        ensures
            r@ == b@,
            r.wf(),
    {
        Address { bytes: b }
    }

    /// The address whose bytes are all zero.
    pub fn zero() -> (r: Address)
        ensures
            r.wf(),
            r@ == zero_addr_bytes(),
    {
        let mut b: Vec<u8> = Vec::new();
        let mut i: usize = 0;
        while i < ADDRESS_LEN
            invariant
                i <= ADDRESS_LEN,
                b@.len() == i,
                forall|j: int| 0 <= j < i ==> b@[j] == 0u8,
            decreases ADDRESS_LEN - i,
        {
            b.push(0u8);
            i += 1;
        }
        proof {
            assert(b@ =~= zero_addr_bytes());
        }
        Address { bytes: b }
    }

    /// Byte equality with another address.
    pub fn eq_addr(&self, other: &Address) -> (r: bool)
        ensures
            r == (self@ == other@),
    {
        eq_bytes(&self.bytes, &other.bytes)
    }
}

impl Clone for Address {
    fn clone(&self) -> (r: Self)
        ensures
            r@ == self@,
    {
        Address { bytes: clone_bytes(&self.bytes) }
    }
}

/// The all-zero address value, byte by byte.
pub open spec fn zero_addr_bytes() -> Seq<u8> {
    Seq::new(ADDRESS_LEN as nat, |i: int| 0u8)
}

/// Byte-wise lexicographic order on byte strings; a strict prefix sorts first.
pub open spec fn lex_lt(a: Seq<u8>, b: Seq<u8>) -> bool
    decreases a.len(),
{
    if b.len() == 0 {
        false
    } else if a.len() == 0 {
        true
    } else if a[0] < b[0] {
        true
    } else if a[0] > b[0] {
        false
    } else {
        lex_lt(a.drop_first(), b.drop_first())
    }
}

/// Non-strict lexicographic order.
pub open spec fn lex_le(a: Seq<u8>, b: Seq<u8>) -> bool {
    lex_lt(a, b) || a == b
}

/// The order is irreflexive.
pub proof fn lemma_lex_irreflexive(a: Seq<u8>)
    ensures
        !lex_lt(a, a),
    decreases a.len(),
{
    if a.len() > 0 {
        lemma_lex_irreflexive(a.drop_first());
    }
}

/// The order is asymmetric.
pub proof fn lemma_lex_asymmetric(a: Seq<u8>, b: Seq<u8>)
    requires
        lex_lt(a, b),
    ensures
        !lex_lt(b, a),
    decreases a.len(),
{
    if b.len() > 0 && a.len() > 0 && a[0] == b[0] {
        lemma_lex_asymmetric(a.drop_first(), b.drop_first());
    }
}

/// The order is transitive.
pub proof fn lemma_lex_transitive(a: Seq<u8>, b: Seq<u8>, c: Seq<u8>)
    requires
        lex_lt(a, b),
        lex_lt(b, c),
    ensures
        lex_lt(a, c),
    decreases a.len(),
{
    if a.len() == 0 {
    } else if b.len() == 0 {
    } else if c.len() == 0 {
    } else {
        if a[0] == b[0] && b[0] == c[0] {
            lemma_lex_transitive(a.drop_first(), b.drop_first(), c.drop_first());
        }
    }
}

/// Three-way comparison result for addresses.
#[derive(PartialEq, Eq, Structural, Clone, Copy)]
pub enum AddrOrder {
    Less,
    Equal,
    Greater,
}

/// Auxiliary: if the first `i` bytes agree, the order is decided by the tails.
proof fn lemma_lex_skip(a: Seq<u8>, b: Seq<u8>, i: int)
    requires
        0 <= i <= a.len(),
        0 <= i <= b.len(),
        a.subrange(0, i) == b.subrange(0, i),
    ensures
        lex_lt(a, b) == lex_lt(a.skip(i), b.skip(i)),
    decreases i,
{
    if i == 0 {
        assert(a.skip(0) =~= a);
        assert(b.skip(0) =~= b);
    }
    if i > 0 {
        assert(a.subrange(0, i)[0] == a[0]);
        assert(b.subrange(0, i)[0] == b[0]);
        assert(a[0] == b[0]);
        if a.len() > 0 && b.len() > 0 {
            assert(a.drop_first().subrange(0, i - 1) =~= a.subrange(0, i).drop_first());
            assert(b.drop_first().subrange(0, i - 1) =~= b.subrange(0, i).drop_first());
            lemma_lex_skip(a.drop_first(), b.drop_first(), i - 1);
            assert(a.drop_first().skip(i - 1) =~= a.skip(i));
            assert(b.drop_first().skip(i - 1) =~= b.skip(i));
        }
    }
}

/// Compares two addresses in the lexicographic order.
pub fn addr_cmp(a: &Address, b: &Address) -> (r: AddrOrder)
    requires
        a.wf(),
        b.wf(),
    ensures
        (r == AddrOrder::Less) == lex_lt(a@, b@),
        (r == AddrOrder::Greater) == lex_lt(b@, a@),
        (r == AddrOrder::Equal) == (a@ == b@),
{
    let mut i: usize = 0;
    while i < ADDRESS_LEN
        invariant
            i <= ADDRESS_LEN,
            a.wf(),
            b.wf(),
            a@.subrange(0, i as int) == b@.subrange(0, i as int),
        decreases ADDRESS_LEN - i,
    {
        let x = a.bytes[i];
        let y = b.bytes[i];
        if x < y {
            proof {
                lemma_lex_skip(a@, b@, i as int);
                lemma_lex_skip(b@, a@, i as int);
                assert(a@.skip(i as int)[0] == x);
                assert(b@.skip(i as int)[0] == y);
                lemma_lex_asymmetric(a@, b@);
                lemma_lex_irreflexive(a@);
            }
            return AddrOrder::Less;
        }
        if x > y {
            proof {
                lemma_lex_skip(a@, b@, i as int);
                lemma_lex_skip(b@, a@, i as int);
                assert(a@.skip(i as int)[0] == x);
                assert(b@.skip(i as int)[0] == y);
                lemma_lex_asymmetric(b@, a@);
                lemma_lex_irreflexive(a@);
            }
            return AddrOrder::Greater;
        }
        proof {
            assert(a@.subrange(0, i as int + 1) =~= a@.subrange(0, i as int).push(a@[i as int]));
            assert(b@.subrange(0, i as int + 1) =~= b@.subrange(0, i as int).push(b@[i as int]));
        }
        i += 1;
    }
    proof {
        assert(a@.subrange(0, ADDRESS_LEN as int) =~= a@);
        assert(b@.subrange(0, ADDRESS_LEN as int) =~= b@);
        lemma_lex_irreflexive(a@);
    }
    AddrOrder::Equal
}

} // verus!
