//! Short-lived, human-presentable verification codes derived from long-term
//! secrets and wall-clock time. A secret plus the current 60-second window
//! yields a SHA-512 digest; the first 5 digest bytes render as an
//! 8-character string over a transcription-friendly base32 alphabet. Named
//! secrets persist in an append-only binary key store.

pub mod base32;
pub mod store;

use rand::RngCore;
use rand::SeedableRng;
use sha2::Digest;
use vstd::prelude::*;

verus! {

/// Length of a code's validity window, in seconds.
pub const KEY_TTL_SECONDS: u64 = 60;

/// The SHA-512 digest of a byte sequence, as sha2 computes it: a function
/// of the input bytes alone.
pub uninterp spec fn sha512_of(data: Seq<u8>) -> Seq<u8>;

/// Relies on sha2::Sha512 through its Digest trait: the one-shot digest of
/// the input bytes, 64 bytes long and depending on the input alone.
#[verifier::external_body]
fn sha512(data: &Vec<u8>) -> (r: Vec<u8>)
    ensures
        r@ == sha512_of(data@),
        r@.len() == 64,
{
    sha2::Sha512::digest(data.as_slice()).to_vec()
}

/// The ChaCha20 generator of rand_chacha, opaque to the contracts: values
/// of it are only created, carried and drawn from.
#[verifier::external_type_specification]
#[verifier::external_body]
pub struct ExChaCha20Rng(rand_chacha::ChaCha20Rng);

/// Relies on rand_chacha::ChaCha20Rng::from_entropy (rand's SeedableRng):
/// a fresh generator seeded from the operating system's entropy source,
/// created anew for each call. Nothing is assumed of its state; it panics
/// only if the system's entropy source fails.
#[verifier::external_body]
fn rng_from_entropy() -> rand_chacha::ChaCha20Rng {
    rand_chacha::ChaCha20Rng::from_entropy()
}

/// Relies on rand's RngCore::fill_bytes for ChaCha20Rng: fills the buffer
/// in place with generator output, keeping its length. Nothing is assumed
/// of the values written.
#[verifier::external_body]
fn fill_random(rng: &mut rand_chacha::ChaCha20Rng, buf: &mut Vec<u8>)
    ensures
        final(buf)@.len() == old(buf)@.len(),
{
    rng.fill_bytes(buf.as_mut_slice());
}

/// The window index of a point in time: the count of whole 60-second
/// windows between the epoch and `iat` seconds after it.
pub open spec fn window_of(iat: u64) -> u64 {
    iat / KEY_TTL_SECONDS
}

/// The seconds left in the window holding `iat`: the distance to the next
/// window boundary.
pub open spec fn ttl_of(iat: u64) -> int {
    (window_of(iat) + 1) * (KEY_TTL_SECONDS as int) - iat
}

/// The window index as 8 big-endian bytes.
pub open spec fn u64_be_bytes(n: u64) -> Seq<u8> {
    seq![
        ((n >> 56) & 0xff) as u8,
        ((n >> 48) & 0xff) as u8,
        ((n >> 40) & 0xff) as u8,
        ((n >> 32) & 0xff) as u8,
        ((n >> 24) & 0xff) as u8,
        ((n >> 16) & 0xff) as u8,
        ((n >> 8) & 0xff) as u8,
        (n & 0xff) as u8,
    ]
}

/// The bytes hashed to derive a code: the full secret, then the window
/// index as an 8-byte big-endian integer.
pub open spec fn code_material(secret: Seq<u8>, iat: u64) -> Seq<u8> {
    secret + u64_be_bytes(window_of(iat))
}

/// The window index serialized as 8 big-endian bytes.
fn window_be_bytes(n: u64) -> (r: Vec<u8>)
    ensures
        r@ == u64_be_bytes(n),
{
    proof {
        assert((n >> 56) & 0xff < 256 && (n >> 48) & 0xff < 256 && (n >> 40) & 0xff < 256 && (n
            >> 32) & 0xff < 256 && (n >> 24) & 0xff < 256 && (n >> 16) & 0xff < 256 && (n >> 8)
            & 0xff < 256 && n & 0xff < 256) by (bit_vector);
    }
    let mut r: Vec<u8> = Vec::new();
    r.push(((n >> 56) & 0xff) as u8);
    r.push(((n >> 48) & 0xff) as u8);
    r.push(((n >> 40) & 0xff) as u8);
    r.push(((n >> 32) & 0xff) as u8);
    r.push(((n >> 24) & 0xff) as u8);
    r.push(((n >> 16) & 0xff) as u8);
    r.push(((n >> 8) & 0xff) as u8);
    r.push((n & 0xff) as u8);
    proof {
        assert(r@ =~= u64_be_bytes(n));
    }
    r
}

/// A derived code: a 64-byte SHA-512 digest and the seconds left until it
/// expires.
#[derive(Debug)]
pub struct Code(Vec<u8>, u64);

/// A long-term secret from which codes are derived.
#[derive(Debug)]
pub struct Key(Vec<u8>);

impl View for Key {
    type V = Seq<u8>;

    closed spec fn view(&self) -> Seq<u8> {
        self.0@
    }
}

impl Code {
    /// The digest bytes.
    pub closed spec fn digest(&self) -> Seq<u8> {
        self.0@
    }

    /// The seconds left until expiry.
    pub closed spec fn ttl_secs(&self) -> u64 {
        self.1
    }

    /// A code carries a full 64-byte digest.
    pub open spec fn wf(&self) -> bool {
        self.digest().len() == 64
    }

    /// Seconds remaining until the code expires.
    pub fn ttl(&self) -> (t: u64)
        ensures
            t == self.ttl_secs(),
    {
        self.1
    }

    /// The code as presented to a person: the base32 encoding of the first
    /// 5 digest bytes, an 8-character string.
    pub fn text(&self) -> (r: String)
        requires
            self.wf(),
        ensures
            r@ == base32::spec_encode(self.digest().take(5)),
    {
        let first = vstd::slice::slice_subrange(self.0.as_slice(), 0, 5);
        proof {
            assert(first@ =~= self.digest().take(5));
        }
        base32::encode(first)
    }
}

impl Key {
    /// The secret bytes.
    pub fn as_bytes(&self) -> (r: &[u8])
        ensures
            r@ == self@,
    {
        self.0.as_slice()
    }

    /// Derives the code for this secret at `iat` seconds after the epoch:
    /// the SHA-512 digest of the secret followed by the window index in
    /// 8 big-endian bytes, together with the seconds left in the window.
    pub fn code(&self, iat: u64) -> (c: Code)
        ensures
            c.digest() == sha512_of(code_material(self@, iat)),
            c.wf(),
            c.ttl_secs() == ttl_of(iat),
            1 <= c.ttl_secs() <= KEY_TTL_SECONDS,
    {
        let window = iat / KEY_TTL_SECONDS;
        let ttl = KEY_TTL_SECONDS - iat % KEY_TTL_SECONDS;
        proof {
            vstd::arithmetic::div_mod::lemma_fundamental_div_mod(iat as int, 60);
        }
        let mut material = vstd::slice::slice_to_vec(self.0.as_slice());
        let mut suffix = window_be_bytes(window);
        material.append(&mut suffix);
        let digest = sha512(&material);
        Code(digest, ttl)
    }

    /// Generates a fresh 256-byte secret from the operating system's
    /// entropy source, through a ChaCha20 generator created for this call
    /// alone.
    pub fn generate() -> (k: Key)
        ensures
            k@.len() == 256,
    {
        let mut rng = rng_from_entropy();
        let mut buf: Vec<u8> = Vec::new();
        let mut i: usize = 0;
        while i < 256
            invariant
                buf@.len() == i,
                i <= 256,
            decreases 256 - i,
        {
            buf.push(0);
            i = i + 1;
        }
        fill_random(&mut rng, &mut buf);
        Key(buf)
    }

    /// Wraps secret bytes, as read back from the key store.
    pub fn import(bytes: Vec<u8>) -> (k: Key)
        ensures
            k@ == bytes@,
    {
        Key(bytes)
    }
}

/// Derivation is deterministic within a window: two timestamps with the
/// same window index yield the same digest for the same secret.
pub proof fn lemma_derivation_deterministic(secret: Seq<u8>, t1: u64, t2: u64)
    requires
        window_of(t1) == window_of(t2),
    ensures
        sha512_of(code_material(secret, t1)) == sha512_of(code_material(secret, t2)),
{
}

/// Every derived ttl lies in `[1, 60]`.
pub proof fn lemma_ttl_bounds(iat: u64)
    ensures
        1 <= ttl_of(iat) <= KEY_TTL_SECONDS,
{
    vstd::arithmetic::div_mod::lemma_fundamental_div_mod(iat as int, 60);
}

/// The ttl strictly decreases as time advances within one window.
pub proof fn lemma_ttl_decreases(t1: u64, t2: u64)
    requires
        t1 < t2,
        window_of(t1) == window_of(t2),
    ensures
        ttl_of(t2) < ttl_of(t1),
{
}

/// At each window boundary the ttl is the full window length again.
pub proof fn lemma_ttl_resets(t: u64)
    requires
        t % KEY_TTL_SECONDS == 0,
    ensures
        ttl_of(t) == KEY_TTL_SECONDS,
{
    vstd::arithmetic::div_mod::lemma_fundamental_div_mod(t as int, 60);
}

} // verus!
