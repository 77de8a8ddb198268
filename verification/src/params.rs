//! The parameter sets.

use vstd::prelude::*;

verus! {

/// One parameter set of the scheme.
#[derive(Clone, Copy, Debug, PartialEq, Eq, Structural)]
pub struct KyberParams {
    /// Degree of the ring: the number of coefficients of a polynomial.
    pub n: usize,
    /// Dimension of the module: the number of polynomials in a vector.
    pub k: usize,
    /// The field modulus.
    pub q: usize,
    /// Width of the centered binomial distribution of secrets and noise.
    pub eta: usize,
    /// Bits kept of each coefficient of the ciphertext's vector part.
    pub du: usize,
    /// Bits kept of each coefficient of the ciphertext's polynomial part.
    pub dv: usize,
    /// Decryption fails with probability at most `2^-delta`.
    pub delta: usize,
    /// Public key size in bytes: `12 * k * n / 8 + 32`.
    pub pk_size: usize,
    /// Secret key size in bytes: `24 * k * n / 8 + 96`.
    pub sk_size: usize,
    /// Ciphertext size in bytes, as the parameter table lists it. What the
    /// scheme writes and reads is `ciphertext_len`.
    pub ct_size: usize,
}

/// The parameter set with module dimension 2.
pub open spec fn kyber512_spec() -> KyberParams {
    KyberParams {
        n: 256,
        k: 2,
        q: 3329,
        eta: 2,
        du: 10,
        dv: 3,
        delta: 178,
        pk_size: 800,
        sk_size: 1632,
        ct_size: 738,
    }
}

/// The parameter set with module dimension 3.
pub open spec fn kyber768_spec() -> KyberParams {
    KyberParams {
        n: 256,
        k: 3,
        q: 3329,
        eta: 2,
        du: 10,
        dv: 4,
        delta: 164,
        pk_size: 1184,
        sk_size: 2400,
        ct_size: 1088,
    }
}

/// The number of bytes of a public key: a vector at 12 bits per coefficient,
/// then a seed of 32 bytes.
pub open spec fn public_key_len(p: KyberParams) -> int {
    384 * p.k + 32
}

/// The number of bytes of a secret key: a vector at 12 bits per coefficient,
/// the public key, its digest and the rejection secret, 32 bytes each.
pub open spec fn secret_key_len(p: KyberParams) -> int {
    384 * p.k + public_key_len(p) + 64
}

/// The number of bytes of a ciphertext: a vector at `du` bits and a
/// polynomial at `dv` bits per coefficient.
pub open spec fn ciphertext_len(p: KyberParams) -> int {
    32 * p.du * p.k + 32 * p.dv
}

/// `p` is one of the two supported parameter sets.
pub open spec fn supported(p: KyberParams) -> bool {
    p == kyber512_spec() || p == kyber768_spec()
}

impl KyberParams {
    /// kyber-512 params
    pub fn kyber512() -> (r: Self)
        ensures
            r == kyber512_spec(),
    {
        KyberParams {
            n: 256,
            k: 2,
            q: 3329,
            eta: 2,
            du: 10,
            dv: 3,
            delta: 178,
            pk_size: 800,
            sk_size: 1632,
            ct_size: 738,
        }
    }

    /// kyber-768 params
    pub fn kyber768() -> (r: Self)
        ensures
            r == kyber768_spec(),
    {
        KyberParams {
            n: 256,
            k: 3,
            q: 3329,
            eta: 2,
            du: 10,
            dv: 4,
            delta: 164,
            pk_size: 1184,
            sk_size: 2400,
            ct_size: 1088,
        }
    }

    /// Whether this is one of the two supported parameter sets.
    pub fn is_supported(&self) -> (r: bool)
        ensures
            r == supported(*self),
    {
        let a = KyberParams::kyber512();
        let b = KyberParams::kyber768();
        *self == a || *self == b
    }
}

/// In a supported set the ring has 256 coefficients, its modulus is 3329,
/// 256 divides `q - 1`, and the key sizes are those that the byte layouts
/// give.
pub proof fn lemma_supported_sets(p: KyberParams)
    requires
        supported(p),
    ensures
        p.n == 256,
        p.q == 3329,
        (p.q - 1) % (p.n as int) == 0,
        p.k == 2 || p.k == 3,
        p.pk_size == public_key_len(p),
        p.sk_size == secret_key_len(p),
        ciphertext_len(p) == (if p.k == 2 { 736int } else { 1088int }),
{
    assert(32 * p.du * p.k == 320 * p.k) by (nonlinear_arith)
        requires
            p.du == 10,
    ;
}

} // verus!
