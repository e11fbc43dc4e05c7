//! Keys.
use vstd::prelude::*;

verus! {

/// What data can be stored under. What the three spec functions say is up to each type; they have a
/// body here only so that a type outside of verified code does not have to write them down.
pub trait KeyType: Sized {
    /// The bytes of the key.
    closed spec fn bytes(&self) -> Seq<u8> {
        arbitrary()
    }

    /// The bytes of the key that data are stored under when no key is given.
    closed spec fn digest(data: Seq<u8>) -> Seq<u8> {
        arbitrary()
    }

    /// The number of bytes of a key.
    closed spec fn spec_size() -> nat {
        arbitrary()
    }

    /// The number of bytes of a key.
    fn size() -> (n: usize)
        ensures
            n == Self::spec_size(),
    ;

    /// The key that data are stored under when no key is given.
    fn from_data(data: &[u8]) -> (key: Self)
        ensures
            key.bytes() == Self::digest(data@),
    ;

    /// The bytes of the key.
    fn as_bytes(&self) -> (b: &[u8])
        ensures
            b@ == self.bytes(),
            b@.len() == Self::spec_size(),
    ;
}

/// The BLAKE2b hash of some data: `nn` bytes, under a hash key.
pub uninterp spec fn blake2b_digest(nn: usize, key: Seq<u8>, data: Seq<u8>) -> Seq<u8>;

/// Calls `blake2_rfc::blake2b::blake2b` and hands back the bytes of its result. The result is a
/// function of the three arguments and has `nn` bytes; which bytes they are is not said here. The
/// function panics when the result would not have 1 to 64 bytes and when the hash key has more
/// than 64.
#[verifier::external_body]
fn blake2b_bytes(nn: usize, key: &[u8], data: &[u8]) -> (r: Vec<u8>)
    requires
        1 <= nn <= 64,
        key@.len() <= 64,
    ensures
        r@ == blake2b_digest(nn, key@, data@),
        r@.len() == nn,
{
    blake2_rfc::blake2b::blake2b(nn, key, data).as_bytes().to_vec()
}

/// The 32-byte hash of some data.
pub open spec fn hash32(data: Seq<u8>) -> Seq<u8> {
    blake2b_digest(32, Seq::empty(), data)
}

/// The first 32 bytes of some bytes.
pub fn to_key(bytes: &[u8]) -> (key: [u8; 32])
    requires
        bytes@.len() >= 32,
    ensures
        key@ == bytes@.take(32),
{
    let mut key: [u8; 32] = [0u8; 32];
    let mut i: usize = 0;
    while i < 32
        invariant
            i <= 32 <= bytes@.len(),
            forall|j: int| 0 <= j < i ==> key@[j] == bytes@[j],
        decreases 32 - i,
    {
        key[i] = bytes[i];
        i = i + 1;
    }
    assert(key@ =~= bytes@.take(32));
    key
}

/// The 32-byte hash of some data.
pub fn hash_bytes(data: &[u8]) -> (key: [u8; 32])
    ensures
        key@ == blake2b_digest(32, Seq::<u8>::empty(), data@),
{
    let no_key: Vec<u8> = Vec::new();
    let bytes = blake2b_bytes(32, no_key.as_slice(), data);
    assert(no_key@ =~= Seq::<u8>::empty());
    assert(bytes@.take(32) =~= bytes@);
    to_key(bytes.as_slice())
}

/// A key of 32 bytes; that of given data is their hash.
impl KeyType for [u8; 32] {
    open spec fn bytes(&self) -> Seq<u8> {
        self@
    }

    open spec fn digest(data: Seq<u8>) -> Seq<u8> {
        hash32(data)
    }

    open spec fn spec_size() -> nat {
        32
    }

    fn size() -> (n: usize) {
        32
    }

    fn from_data(data: &[u8]) -> (key: Self)
        ensures
            key@ == blake2b_digest(32, Seq::<u8>::empty(), data@),
    {
        hash_bytes(data)
    }

    fn as_bytes(&self) -> (b: &[u8])
        ensures
            b@ == self@,
    {
        self.as_slice()
    }
}

} // verus!
