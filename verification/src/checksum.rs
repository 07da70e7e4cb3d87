//! A checksum that is combined by exclusive or, so that the order in which
//! its parts come in does not count.

use vstd::prelude::*;

verus! {

/// The SHA-256 digest of `data`.
pub uninterp spec fn sha256(data: Seq<u8>) -> Seq<u8>;

/// The hexadecimal digit of a number below 16, in lower case.
pub open spec fn hex_digit_lower(n: u8) -> char {
    if n < 10 {
        (48 + n) as char
    } else {
        (87 + n) as char
    }
}

/// Bytes written as hexadecimal digits in lower case, two for each byte, the
/// upper half first.
pub open spec fn hex_lower(bytes: Seq<u8>) -> Seq<char>
    decreases bytes.len(),
{
    if bytes.len() == 0 {
        Seq::empty()
    } else {
        hex_lower(bytes.drop_last()).push(hex_digit_lower(bytes.last() / 16)).push(
            hex_digit_lower(bytes.last() % 16),
        )
    }
}

/// Calls `Sha256::digest` of sha2. The contract names the digest, which
/// depends on the bytes alone, and has the 32 bytes that the hasher's
/// output size fixes.
#[verifier::external_body]
fn sha256_digest(data: &[u8]) -> (r: [u8; 32])
    ensures
        r@ == sha256(data@),
{
    <sha2::Sha256 as sha2::Digest>::digest(data).into()
}

/// Calls `hex::encode`. The contract says what its source shows: each byte
/// gives two digits from `0123456789abcdef`, the upper half first.
#[verifier::external_body]
fn hex_encode(bytes: &[u8]) -> (r: String)
    ensures
        r@ == hex_lower(bytes@),
{
    hex::encode(bytes)
}

/// A checksum: nothing yet, or 32 bytes.
pub struct Checksum(Option<[u8; 32]>);

/// Two checksums combined: the one that is there where the other is not,
/// and else the exclusive or of their bytes.
pub open spec fn combined(a: Option<Seq<u8>>, b: Option<Seq<u8>>) -> Option<Seq<u8>> {
    match (a, b) {
        (None, _) => b,
        (_, None) => a,
        (Some(x), Some(y)) => Some(Seq::new(32, |i: int| x[i] ^ y[i])),
    }
}

/// A checksum has 32 bytes where it has any.
pub open spec fn is_checksum(a: Option<Seq<u8>>) -> bool {
    a is Some ==> a->0.len() == 32
}

impl View for Checksum {
    type V = Option<Seq<u8>>;

    closed spec fn view(&self) -> Option<Seq<u8>> {
        match self.0 {
            Some(bytes) => Some(bytes@),
            None => None,
        }
    }
}

impl Default for Checksum {
    /// The checksum of nothing.
    fn default() -> (r: Checksum)
        ensures
            r@ is None,
    {
        Checksum(None)
    }
}

impl Checksum {
    /// The view has 32 bytes where it has any.
    pub proof fn lemma_view_is_checksum(&self)
        ensures
            is_checksum(self@),
    {
    }

    /// The checksum that holds a digest.
    pub fn from_digest(digest: [u8; 32]) -> (r: Checksum)
        ensures
            r@ == Some(digest@),
    {
        Checksum(Some(digest))
    }

    /// The checksum that holds the SHA-256 digest of a text.
    pub fn with_sha256(input: &str) -> (r: Checksum)
        ensures
            r@ == Some(sha256(crate::debversion::text_bytes(input@))),
    {
        Checksum::from_digest(sha256_digest(input.as_bytes()))
    }

    /// Combines `rhs` into `self` by exclusive or.
    pub fn update(&mut self, rhs: Checksum)
        ensures
            final(self)@ == combined(old(self)@, rhs@),
    {
        match (self.0, rhs.0) {
            (None, _) => {
                self.0 = rhs.0;
            },
            (_, None) => {},
            (Some(self_bytes), Some(rhs_bytes)) => {
                let mut bytes = self_bytes;
                let mut i: usize = 0;
                while i < 32
                    invariant
                        i <= 32,
                        forall|k: int| 0 <= k < i ==> bytes@[k] == self_bytes@[k] ^ rhs_bytes@[k],
                        forall|k: int| i <= k < 32 ==> bytes@[k] == self_bytes@[k],
                    decreases 32 - i,
                {
                    bytes[i] = self_bytes[i] ^ rhs_bytes[i];
                    i += 1;
                }
                self.0 = Some(bytes);
                assert(bytes@ =~= Seq::new(32, |i: int| self_bytes@[i] ^ rhs_bytes@[i]));
            },
        }
    }

    /// Combines `other` into `self`, as `update` does.
    pub fn merge(&mut self, other: Checksum)
        ensures
            final(self)@ == combined(old(self)@, other@),
    {
        self.update(other);
    }

    /// The checksum in hexadecimal digits; empty where there is none yet.
    pub fn to_string(&self) -> (r: String)
        ensures
            r@ == match self@ {
                Some(bytes) => hex_lower(bytes),
                None => Seq::<char>::empty(),
            },
    {
        match &self.0 {
            Some(bytes) => hex_encode(bytes.as_slice()),
            None => String::new(),
        }
    }
}

/// Combining checksums does not depend on which comes first.
pub proof fn lemma_combined_commutative(a: Option<Seq<u8>>, b: Option<Seq<u8>>)
    requires
        is_checksum(a),
        is_checksum(b),
    ensures
        combined(a, b) == combined(b, a),
{
    if a is Some && b is Some {
        let x = a->0;
        let y = b->0;
        assert forall|i: int| 0 <= i < 32 implies x[i] ^ y[i] == y[i] ^ x[i] by {
            lemma_xor_commutative(x[i], y[i]);
        }
        assert(Seq::new(32, |i: int| x[i] ^ y[i]) =~= Seq::new(32, |i: int| y[i] ^ x[i]));
    }
}

/// Combining checksums does not depend on how they are grouped.
pub proof fn lemma_combined_associative(
    a: Option<Seq<u8>>,
    b: Option<Seq<u8>>,
    c: Option<Seq<u8>>,
)
    requires
        is_checksum(a),
        is_checksum(b),
        is_checksum(c),
    ensures
        combined(combined(a, b), c) == combined(a, combined(b, c)),
{
    if a is Some && b is Some && c is Some {
        let x = a->0;
        let y = b->0;
        let z = c->0;
        let xy = Seq::new(32, |i: int| x[i] ^ y[i]);
        let yz = Seq::new(32, |i: int| y[i] ^ z[i]);
        assert forall|i: int| 0 <= i < 32 implies xy[i] ^ z[i] == x[i] ^ yz[i] by {
            lemma_xor_associative(x[i], y[i], z[i]);
        }
        assert(Seq::new(32, |i: int| xy[i] ^ z[i]) =~= Seq::new(32, |i: int| x[i] ^ yz[i]));
    }
}

/// A checksum combined with itself is all zeros.
pub proof fn lemma_combined_with_itself(a: Seq<u8>)
    requires
        a.len() == 32,
    ensures
        combined(Some(a), Some(a)) == Some(Seq::new(32, |i: int| 0u8)),
{
    assert forall|i: int| 0 <= i < 32 implies a[i] ^ a[i] == 0u8 by {
        lemma_xor_self(a[i]);
    }
    assert(Seq::new(32, |i: int| a[i] ^ a[i]) =~= Seq::new(32, |i: int| 0u8));
}

proof fn lemma_xor_commutative(x: u8, y: u8)
    ensures
        x ^ y == y ^ x,
{
    assert(x ^ y == y ^ x) by (bit_vector);
}

proof fn lemma_xor_associative(x: u8, y: u8, z: u8)
    ensures
        (x ^ y) ^ z == x ^ (y ^ z),
{
    assert((x ^ y) ^ z == x ^ (y ^ z)) by (bit_vector);
}

proof fn lemma_xor_self(x: u8)
    ensures
        x ^ x == 0u8,
{
    assert(x ^ x == 0u8) by (bit_vector);
}

} // verus!
