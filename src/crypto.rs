//! Keys, nonces, the XOR distance between public keys, and the authenticated
//! encryption (XSalsa20-Poly1305) and randomness the protocol draws on.
use vstd::prelude::*;
use std::cmp::Ordering;
use xsalsa20poly1305::aead::{Aead, KeyInit};
use xsalsa20poly1305::XSalsa20Poly1305;

verus! {

/// Number of bytes in a public key.
pub const PUBLICKEYBYTES: usize = 32;

/// Number of bytes in a nonce.
pub const NONCEBYTES: usize = 24;

/// Number of bytes that authenticated encryption adds to a message.
pub const MACBYTES: usize = 16;

/// A node's public key, which is also its identity in the DHT.
#[derive(Clone, Copy, Debug, PartialEq, Eq, Hash)]
pub struct PublicKey(pub [u8; 32]);

/// A shared secret precomputed from one side's secret key and the other's
/// public key.
#[derive(Clone, Copy, Debug, PartialEq, Eq)]
pub struct PrecomputedKey(pub [u8; 32]);

/// A full session nonce.
#[derive(Clone, Copy, Debug, PartialEq, Eq)]
pub struct Nonce(pub [u8; 24]);

/// What sealing `plaintext` under `key` and `nonce` gives.
pub uninterp spec fn sealed(key: Seq<u8>, nonce: Seq<u8>, plaintext: Seq<u8>) -> Seq<u8>;

/// What opening `ciphertext` under `key` and `nonce` gives: the plaintext, or
/// nothing when authentication fails.
pub uninterp spec fn opened(key: Seq<u8>, nonce: Seq<u8>, ciphertext: Seq<u8>) -> Option<Seq<u8>>;

/// Relies on `XSalsa20Poly1305::encrypt` (the NaCl secretbox): the
/// authentication tag followed by the encrypted bytes. Without associated
/// data it does not fail.
#[verifier::external_body]
pub(crate) fn seal_precomputed(plaintext: &[u8], nonce: &Nonce, key: &PrecomputedKey) -> (r: Vec<u8>)
    ensures
        r@ == sealed(key.0@, nonce.0@, plaintext@),
        r@.len() == plaintext@.len() + MACBYTES,
{
    let cipher = XSalsa20Poly1305::new(xsalsa20poly1305::Key::from_slice(&key.0));
    cipher.encrypt(xsalsa20poly1305::Nonce::from_slice(&nonce.0), plaintext).unwrap_or_default()
}

/// Relies on `XSalsa20Poly1305::decrypt`: it fails on a ciphertext shorter than
/// the tag or whose tag does not match, and otherwise gives the plaintext,
/// `MACBYTES` shorter. Opening what was sealed under the same key and nonce
/// gives the sealed plaintext back.
#[verifier::external_body]
pub(crate) fn open_precomputed(ciphertext: &[u8], nonce: &Nonce, key: &PrecomputedKey) -> (r: Option<Vec<u8>>)
    ensures
        match r {
            Some(p) => opened(key.0@, nonce.0@, ciphertext@) == Some(p@)
                && p@.len() + MACBYTES == ciphertext@.len(),
            None => opened(key.0@, nonce.0@, ciphertext@) is None,
        },
        forall|p: Seq<u8>| #[trigger] sealed(key.0@, nonce.0@, p) == ciphertext@
            ==> r is Some && r->Some_0@ == p,
{
    let cipher = XSalsa20Poly1305::new(xsalsa20poly1305::Key::from_slice(&key.0));
    cipher.decrypt(xsalsa20poly1305::Nonce::from_slice(&nonce.0), ciphertext).ok()
}

/// Relies on `rand::random::<u64>`: a value from the thread-local
/// cryptographically secure generator, of which nothing is known.
#[verifier::external_body]
pub(crate) fn random_u64() -> (r: u64) {
    rand::random::<u64>()
}

/// Lexicographic order of two byte strings of equal length.
pub open spec fn lex_cmp(x: Seq<u8>, y: Seq<u8>) -> Ordering
    decreases x.len(),
{
    if x.len() == 0 || y.len() == 0 {
        Ordering::Equal
    } else if x[0] < y[0] {
        Ordering::Less
    } else if x[0] > y[0] {
        Ordering::Greater
    } else {
        lex_cmp(x.drop_first(), y.drop_first())
    }
}

/// The XOR distance between two keys, as a byte string.
pub open spec fn xor_bytes(a: Seq<u8>, b: Seq<u8>) -> Seq<u8> {
    Seq::new(a.len(), |i: int| a[i] ^ b[i])
}

/// How the distance from `base` to `pk1` compares with that to `pk2`.
pub open spec fn distance_order(base: PublicKey, pk1: PublicKey, pk2: PublicKey) -> Ordering {
    lex_cmp(xor_bytes(base.0@, pk1.0@), xor_bytes(base.0@, pk2.0@))
}

/// Ordering reversed.
pub open spec fn flip(o: Ordering) -> Ordering {
    match o {
        Ordering::Less => Ordering::Greater,
        Ordering::Equal => Ordering::Equal,
        Ordering::Greater => Ordering::Less,
    }
}

proof fn lemma_lex_cmp_suffix(x: Seq<u8>, y: Seq<u8>, i: int)
    requires
        x.len() == y.len(),
        0 <= i <= x.len(),
        forall|j: int| 0 <= j < i ==> x[j] == y[j],
    ensures
        lex_cmp(x, y) == lex_cmp(x.subrange(i, x.len() as int), y.subrange(i, y.len() as int)),
    decreases i,
{
    if i > 0 {
        lemma_lex_cmp_suffix(x.drop_first(), y.drop_first(), i - 1);
        assert(x.drop_first().subrange(i - 1, x.len() - 1) =~= x.subrange(i, x.len() as int));
        assert(y.drop_first().subrange(i - 1, y.len() - 1) =~= y.subrange(i, y.len() as int));
    } else {
        assert(x.subrange(0, x.len() as int) =~= x);
        assert(y.subrange(0, y.len() as int) =~= y);
    }
}

proof fn lemma_lex_flip(x: Seq<u8>, y: Seq<u8>)
    requires
        x.len() == y.len(),
    ensures
        lex_cmp(x, y) == flip(lex_cmp(y, x)),
    decreases x.len(),
{
    if x.len() > 0 && x[0] == y[0] {
        lemma_lex_flip(x.drop_first(), y.drop_first());
    }
}

proof fn lemma_lex_equal(x: Seq<u8>, y: Seq<u8>)
    requires
        x.len() == y.len(),
        lex_cmp(x, y) == Ordering::Equal,
    ensures
        x == y,
    decreases x.len(),
{
    if x.len() > 0 {
        lemma_lex_equal(x.drop_first(), y.drop_first());
        assert(x =~= seq![x[0]] + x.drop_first());
        assert(y =~= seq![y[0]] + y.drop_first());
    } else {
        assert(x =~= y);
    }
}

proof fn lemma_lex_less_trans(x: Seq<u8>, y: Seq<u8>, z: Seq<u8>)
    requires
        x.len() == y.len() && y.len() == z.len(),
        lex_cmp(x, y) == Ordering::Less,
        lex_cmp(y, z) == Ordering::Less,
    ensures
        lex_cmp(x, z) == Ordering::Less,
    decreases x.len(),
{
    if x[0] == y[0] && y[0] == z[0] {
        lemma_lex_less_trans(x.drop_first(), y.drop_first(), z.drop_first());
    }
}

proof fn lemma_xor_injective(base: Seq<u8>, a: Seq<u8>, b: Seq<u8>)
    requires
        base.len() == a.len() && a.len() == b.len(),
        xor_bytes(base, a) == xor_bytes(base, b),
    ensures
        a == b,
{
    assert forall|i: int| 0 <= i < a.len() implies a[i] == b[i] by {
        let p: u8 = base[i];
        let q: u8 = a[i];
        let r: u8 = b[i];
        assert(xor_bytes(base, a)[i] == p ^ q);
        assert(xor_bytes(base, b)[i] == p ^ r);
        assert(p ^ q == p ^ r ==> q == r) by (bit_vector);
    }
    assert(a =~= b);
}

/// Distances to a fixed key compare as a strict weak order: swapping the
/// keys flips the answer, equal distance means equal keys, and closer is
/// transitive.
pub proof fn lemma_distance_order(base: PublicKey, a: PublicKey, b: PublicKey, c: PublicKey)
    ensures
        distance_order(base, a, b) == flip(distance_order(base, b, a)),
        distance_order(base, a, b) == Ordering::Equal <==> a == b,
        distance_order(base, a, b) == Ordering::Less && distance_order(base, b, c)
            == Ordering::Less ==> distance_order(base, a, c) == Ordering::Less,
{
    let xa = xor_bytes(base.0@, a.0@);
    let xb = xor_bytes(base.0@, b.0@);
    let xc = xor_bytes(base.0@, c.0@);
    lemma_lex_flip(xa, xb);
    if distance_order(base, a, b) == Ordering::Equal {
        lemma_lex_equal(xa, xb);
        lemma_xor_injective(base.0@, a.0@, b.0@);
        assert(a.0 == b.0);
    }
    if a == b {
        assert(xa =~= xb);
        lemma_lex_self(xa);
    }
    if distance_order(base, a, b) == Ordering::Less && distance_order(base, b, c)
        == Ordering::Less {
        lemma_lex_less_trans(xa, xb, xc);
    }
}

proof fn lemma_lex_self(x: Seq<u8>)
    ensures
        lex_cmp(x, x) == Ordering::Equal,
    decreases x.len(),
{
    if x.len() > 0 {
        lemma_lex_self(x.drop_first());
    }
}

/// Compares the distances from `base` to `pk1` and to `pk2`: closer is less.
pub fn distance(base: &PublicKey, pk1: &PublicKey, pk2: &PublicKey) -> (r: Ordering)
    ensures
        r == distance_order(*base, *pk1, *pk2),
{
    let ghost x = xor_bytes(base.0@, pk1.0@);
    let ghost y = xor_bytes(base.0@, pk2.0@);
    let mut i: usize = 0;
    while i < PUBLICKEYBYTES
        invariant
            0 <= i <= 32,
            x == xor_bytes(base.0@, pk1.0@),
            y == xor_bytes(base.0@, pk2.0@),
            x.len() == 32 && y.len() == 32,
            forall|j: int| 0 <= j < i ==> x[j] == y[j],
        decreases 32 - i,
    {
        let d1 = base.0[i] ^ pk1.0[i];
        let d2 = base.0[i] ^ pk2.0[i];
        assert(x[i as int] == d1 && y[i as int] == d2);
        if d1 != d2 {
            proof {
                lemma_lex_cmp_suffix(x, y, i as int);
                let xs = x.subrange(i as int, 32);
                let ys = y.subrange(i as int, 32);
                assert(xs[0] == d1 && ys[0] == d2);
            }
            if d1 < d2 {
                return Ordering::Less;
            } else {
                return Ordering::Greater;
            }
        }
        i = i + 1;
    }
    proof {
        lemma_lex_cmp_suffix(x, y, 32);
    }
    Ordering::Equal
}

} // verus!
