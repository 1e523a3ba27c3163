use vstd::prelude::*;

verus! {

/// The Keccak-256 digest of a byte string.
pub uninterp spec fn keccak256_of(data: Seq<u8>) -> Seq<u8>;

/// Relies on tiny_keccak::keccak256: the 32-byte Keccak-256 digest of the input.
#[verifier::external_body]
fn keccak256(data: &Vec<u8>) -> (r: Vec<u8>)
    ensures
        r@ == keccak256_of(data@),
        r@.len() == 32,
{
    tiny_keccak::keccak256(data).to_vec()
}

/// The address an account gets from a 32-byte digest of its public key:
/// the last twenty bytes.
pub fn address_from_digest(digest: &Vec<u8>) -> (r: Vec<u8>)
    requires
        digest@.len() == 32,
    ensures
        r@ == digest@.subrange(12, 32),
{
    let mut r: Vec<u8> = Vec::new();
    let mut i: usize = 12;
    while i < 32
        invariant
            12 <= i <= 32,
            digest@.len() == 32,
            r@ == digest@.subrange(12, i as int),
        decreases 32 - i,
    {
        r.push(digest[i]);
        i = i + 1;
        assert(r@ =~= digest@.subrange(12, i as int));
    }
    r
}

/// The account address of an uncompressed public key (a tag byte, then the
/// point): the last twenty bytes of the Keccak-256 digest of the point.
pub fn public_key_address(public_key: &Vec<u8>) -> (r: Vec<u8>)
    requires
        public_key@.len() >= 1,
    ensures
        r@ == keccak256_of(public_key@.subrange(1, public_key@.len() as int)).subrange(12, 32),
        r@.len() == 20,
{
    let mut point: Vec<u8> = Vec::new();
    let n = public_key.len();
    let mut i: usize = 1;
    while i < n
        invariant
            1 <= i <= n,
            n == public_key@.len(),
            point@ == public_key@.subrange(1, i as int),
        decreases n - i,
    {
        point.push(public_key[i]);
        i = i + 1;
        assert(point@ =~= public_key@.subrange(1, i as int));
    }
    let digest = keccak256(&point);
    address_from_digest(&digest)
}

/// A key pair, as bytes, and the address derived from its public key.
#[derive(Debug)]
pub struct EthereumWallet {
    pub secret_key: Vec<u8>,
    pub public_key: Vec<u8>,
    pub public_address: Vec<u8>,
}

impl EthereumWallet {
    pub fn new(secret_key: &Vec<u8>, public_key: &Vec<u8>) -> (r: Self)
        requires
            public_key@.len() >= 1,
        ensures
            r.secret_key@ == secret_key@,
            r.public_key@ == public_key@,
            r.public_address@ == keccak256_of(public_key@.subrange(1, public_key@.len() as int)).subrange(12, 32),
    {
        let public_address = public_key_address(public_key);
        EthereumWallet {
            secret_key: secret_key.clone(),
            public_key: public_key.clone(),
            public_address,
        }
    }
}


/// The byte of `u` at big-endian position `j` (0 is the most significant).
pub open spec fn be_byte(u: u128, j: int) -> u8 {
    ((u >> ((8 * (15 - j)) as u128)) & 0xff) as u8
}

/// Encodes `u` as its sixteen big-endian bytes.
pub fn u128_to_bytes(u: u128) -> (r: Vec<u8>)
    ensures
        r@.len() == 16,
        forall|j: int| 0 <= j < 16 ==> r@[j] == be_byte(u, j),
{
    let mut result: Vec<u8> = Vec::new();
    let mut k: usize = 0;
    while k < 16
        invariant
            k <= 16,
            result@.len() == k,
            forall|j: int| 0 <= j < k ==> result@[j] == be_byte(u, j),
        decreases 16 - k,
    {
        let shift: u128 = (8 * (15 - k)) as u128;
        let byte: u8 = ((u >> shift) & 0xff) as u8;
        result.push(byte);
        k = k + 1;
    }
    result
}

} // verus!
