//! Fixed parameters of the scheme and the precomputed twiddle tables.

use vstd::prelude::*;

verus! {

/// The prime modulus of the coefficient field.
pub const Q: u16 = 3329;

/// The number of coefficients of a ring element.
pub const N: usize = 256;

/// The module rank of ML-KEM-768.
pub const K: usize = 3;

/// The noise parameter of the secret and of the encryption randomness of
/// ML-KEM-768.
pub const ETA1: usize = 2;

/// The noise parameter of the ciphertext errors of ML-KEM-768.
pub const ETA2: usize = 2;

/// Bits kept of each coefficient of the ciphertext vector of ML-KEM-768.
pub const DU: usize = 10;

/// Bits kept of each coefficient of the ciphertext polynomial of ML-KEM-768.
pub const DV: usize = 4;

/// Powers of the root of unity 17 in bit-reversed order: entry `i` is
/// `17^BitRev7(i) mod Q`.
pub const BITREV7: [u16; 128] = [
    1, 1729, 2580, 3289, 2642, 630, 1897, 848,
    1062, 1919, 193, 797, 2786, 3260, 569, 1746,
    296, 2447, 1339, 1476, 3046, 56, 2240, 1333,
    1426, 2094, 535, 2882, 2393, 2879, 1974, 821,
    289, 331, 3253, 1756, 1197, 2304, 2277, 2055,
    650, 1977, 2513, 632, 2865, 33, 1320, 1915,
    2319, 1435, 807, 452, 1438, 2868, 1534, 2402,
    2647, 2617, 1481, 648, 2474, 3110, 1227, 910,
    17, 2761, 583, 2649, 1637, 723, 2288, 1100,
    1409, 2662, 3281, 233, 756, 2156, 3015, 3050,
    1703, 1651, 2789, 1789, 1847, 952, 1461, 2687,
    939, 2308, 2437, 2388, 733, 2337, 268, 641,
    1584, 2298, 2037, 3220, 375, 2549, 2090, 1645,
    1063, 319, 2773, 757, 2099, 561, 2466, 2594,
    2804, 1092, 403, 1026, 1143, 2150, 2775, 886,
    1722, 1212, 1874, 1029, 2110, 2935, 885, 2154,
];

/// The moduli of the 128 quadratic factors: entry `i` is
/// `17^(2 * BitRev7(i) + 1) mod Q`.
pub const BITREV7_2: [u16; 128] = [
    17, 3312, 2761, 568, 583, 2746, 2649, 680,
    1637, 1692, 723, 2606, 2288, 1041, 1100, 2229,
    1409, 1920, 2662, 667, 3281, 48, 233, 3096,
    756, 2573, 2156, 1173, 3015, 314, 3050, 279,
    1703, 1626, 1651, 1678, 2789, 540, 1789, 1540,
    1847, 1482, 952, 2377, 1461, 1868, 2687, 642,
    939, 2390, 2308, 1021, 2437, 892, 2388, 941,
    733, 2596, 2337, 992, 268, 3061, 641, 2688,
    1584, 1745, 2298, 1031, 2037, 1292, 3220, 109,
    375, 2954, 2549, 780, 2090, 1239, 1645, 1684,
    1063, 2266, 319, 3010, 2773, 556, 757, 2572,
    2099, 1230, 561, 2768, 2466, 863, 2594, 735,
    2804, 525, 1092, 2237, 403, 2926, 1026, 2303,
    1143, 2186, 2150, 1179, 2775, 554, 886, 2443,
    1722, 1607, 1212, 2117, 1874, 1455, 1029, 2300,
    2110, 1219, 2935, 394, 885, 2444, 2154, 1175,
];

/// A parameter set: the module rank, the two noise parameters, and the
/// numbers of bits kept of each coefficient of the two ciphertext parts.
#[derive(Debug, Clone, Copy, PartialEq, Eq, Structural)]
pub struct ParameterSet {
    pub k: usize,
    pub eta1: usize,
    pub eta2: usize,
    pub du: usize,
    pub dv: usize,
}

/// The parameter set ML-KEM-512.
pub open spec fn ml_kem_512() -> ParameterSet {
    ParameterSet { k: 2, eta1: 3, eta2: 2, du: 10, dv: 4 }
}

/// The parameter set ML-KEM-768.
pub open spec fn ml_kem_768() -> ParameterSet {
    ParameterSet { k: 3, eta1: 2, eta2: 2, du: 10, dv: 4 }
}

/// The parameter set ML-KEM-1024.
pub open spec fn ml_kem_1024() -> ParameterSet {
    ParameterSet { k: 4, eta1: 2, eta2: 2, du: 11, dv: 5 }
}

/// The ranges of the parameters and the sizes that follow from them.
pub proof fn lemma_parameter_ranges(p: ParameterSet)
    requires
        p.wf(),
    ensures
        2 <= p.k <= 4,
        p.eta1 == 2 || p.eta1 == 3,
        p.eta2 == 2,
        p.du == 10 || p.du == 11,
        p.dv == 4 || p.dv == 5,
        p.du * p.k == 20 || p.du * p.k == 30 || p.du * p.k == 44,
        32 * p.du * p.k == 32 * (p.du * p.k),
        p.ct_len() == 768 || p.ct_len() == 1088 || p.ct_len() == 1568,
        p.ct_len() == 32 * p.du * p.k + 32 * p.dv,
{
    if p == ml_kem_512() {
        assert(p.du * p.k == 20) by (nonlinear_arith)
            requires
                p.du == 10,
                p.k == 2,
        ;
    } else if p == ml_kem_768() {
        assert(p.du * p.k == 30) by (nonlinear_arith)
            requires
                p.du == 10,
                p.k == 3,
        ;
    } else {
        assert(p.du * p.k == 44) by (nonlinear_arith)
            requires
                p.du == 11,
                p.k == 4,
        ;
    }
    assert(32 * p.du * p.k == 32 * (p.du * p.k)) by (nonlinear_arith);
}

impl ParameterSet {
    /// The set is one of the three that are defined.
    pub open spec fn wf(self) -> bool {
        self == ml_kem_512() || self == ml_kem_768() || self == ml_kem_1024()
    }

    /// The length of an encryption key and of an encapsulation key in bytes.
    pub open spec fn ek_len(self) -> int {
        384 * self.k + 32
    }

    /// The length of a decapsulation key in bytes.
    pub open spec fn dk_len(self) -> int {
        768 * self.k + 96
    }

    /// The length of a ciphertext in bytes.
    pub open spec fn ct_len(self) -> int {
        32 * (self.du * self.k + self.dv)
    }

    /// The parameter set ML-KEM-512.
    pub fn ml_kem_512() -> (p: ParameterSet)
        ensures
            p == ml_kem_512(),
    {
        ParameterSet { k: 2, eta1: 3, eta2: 2, du: 10, dv: 4 }
    }

    /// The parameter set ML-KEM-768.
    pub fn ml_kem_768() -> (p: ParameterSet)
        ensures
            p == ml_kem_768(),
    {
        ParameterSet { k: K, eta1: ETA1, eta2: ETA2, du: DU, dv: DV }
    }

    /// The parameter set ML-KEM-1024.
    pub fn ml_kem_1024() -> (p: ParameterSet)
        ensures
            p == ml_kem_1024(),
    {
        ParameterSet { k: 4, eta1: 2, eta2: 2, du: 11, dv: 5 }
    }

    /// The length of an encryption key and of an encapsulation key in bytes.
    pub fn encapsulation_key_length(&self) -> (n: usize)
        requires
            self.wf(),
        ensures
            n == self.ek_len(),
    {
        384 * self.k + 32
    }

    /// The length of a decapsulation key in bytes.
    pub fn decapsulation_key_length(&self) -> (n: usize)
        requires
            self.wf(),
        ensures
            n == self.dk_len(),
    {
        768 * self.k + 96
    }

    /// The length of a ciphertext in bytes.
    pub fn ciphertext_length(&self) -> (n: usize)
        requires
            self.wf(),
        ensures
            n == self.ct_len(),
            n == 768 || n == 1088 || n == 1568,
    {
        proof {
            lemma_parameter_ranges(*self);
        }
        32 * (self.du * self.k + self.dv)
    }
}

} // verus!
