//! Lattice-based key encapsulation over the ring Z_q[X]/(X^256 + 1), q = 3329.
//!
//! Every executable function carries a contract stated over mathematical
//! models: field elements are integers in `[0, q)`, polynomials are sequences
//! of such integers, byte strings are sequences of bytes.
//!
//! - `field`, `poly`, `polyvec`, `structures`: the arithmetic.
//! - `bytearray`, `compress`, `encode`: byte strings and the two codecs.
//! - `ntt`: the transform, its inverse, and multiplication in its image;
//!   `orthogonality`, `inversion` and `convolution` prove that the two
//!   transforms undo each other and that multiplication in the image is
//!   multiplication in the ring.
//! - `hash`, `sample`: the hash functions and the two samplers.
//! - `pke`, `kem`: the encryption scheme and the key encapsulation
//!   mechanism built on it.

pub mod arith;
pub mod bytearray;
pub mod compress;
pub mod congruence;
pub mod convolution;
pub mod encode;
pub mod error;
pub mod field;
pub mod hash;
pub mod inversion;
pub mod kem;
pub mod ntt;
pub mod orthogonality;
pub mod params;
pub mod pke;
pub mod poly;
pub mod polyvec;
pub mod sample;
pub mod structures;

pub use bytearray::ByteArray;
pub use compress::{
    compress_integer, compress_poly, compress_polyvec, decompress_integer, decompress_poly,
    decompress_polyvec,
};
pub use encode::{decode_to_poly, decode_to_polyvec, encode_poly, encode_polyvec};
pub use error::KyberError;
pub use field::F3329;
pub use kem::{
    kem_decapsulate, kem_encapsulate, kem_encapsulate_from, kem_keygen, kem_keygen_from,
};
pub use ntt::{
    base_ntt, bcm, bcm_matrix_vec, bcm_vec, byte_rev, ntt_product, ntt_product_matvec,
    ntt_product_vec, ntt_vec, rev_ntt, rev_ntt_vec,
};
pub use params::KyberParams;
pub use pke::{cpapke_decrypt, cpapke_encrypt, cpapke_keygen};
pub use poly::Poly3329;
pub use polyvec::{PolyMatrix3329, PolyVec3329};
pub use structures::{FiniteField, FiniteGroup, FiniteRing, RingModule, VectorSpace};
