//! ML-KEM over the ring Z_q[X]/(X^256 + 1) with q = 3329: field and polynomial
//! arithmetic, the number-theoretic transform, byte codecs, samplers, the
//! K-PKE encryption scheme and the key-encapsulation mechanism built on it.
//!
//! The modules `fermat`, `twiddle`, `ntt_laws`, `convolution`, `algebra` and
//! `correctness` hold no executable code: they state and prove that the
//! power `Q - 2` inverts, what the tables of constants hold, that the inverse
//! transform undoes the transform, that the product of the ring is the
//! negacyclic convolution, and that decapsulation recovers the shared secret
//! whenever the noise is small.

pub mod constant;
pub mod field;
pub mod fermat;
pub mod encode;
pub mod helper;
pub mod poly;
pub mod matrix;
pub mod kpke;
pub mod mlkem;
pub mod twiddle;
pub mod ntt_laws;
pub mod convolution;
pub mod algebra;
pub mod correctness;
