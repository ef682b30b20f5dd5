//! What the two tables of constants hold: the powers of the root of unity 17
//! in bit-reversed order, and the relations between them that the laws of
//! the transform rest on.

use vstd::prelude::*;
use vstd::arithmetic::power::pow;
use vstd::arithmetic::power::lemma_pow0;
use vstd::arithmetic::power::lemma_pow1;
use vstd::arithmetic::power::lemma_pow_adds;
use vstd::arithmetic::div_mod::lemma_mul_mod_noop_general;
use vstd::arithmetic::div_mod::lemma_small_mod;
use crate::field::fmul;
use crate::field::fsub;
use crate::field::fpow;
use crate::poly::zeta;
use crate::poly::gamma;

verus! {

/// The number of groups of the layer in which the twiddle factor with index
/// `i` is used: the largest power of two that is at most `i`.
pub open spec fn layer_groups(i: int) -> int {
    if i < 2 {
        1
    } else if i < 4 {
        2
    } else if i < 8 {
        4
    } else if i < 16 {
        8
    } else if i < 32 {
        16
    } else if i < 64 {
        32
    } else {
        64
    }
}

/// The index of the twiddle factor that the inverse transform uses in the
/// group in which the forward transform uses the factor with index `i`.
pub open spec fn partner(i: int) -> int {
    3 * layer_groups(i) - 1 - i
}

/// The pairing of twiddle factors for the indices from 1 up to 15.
#[verifier::rlimit(40)]
proof fn lemma_twiddle_pairs_from_1(i: int)
    requires
        1 <= i < 16,
    ensures
        fmul(zeta(i), zeta(partner(i))) == 3328,
{
    if i == 1 {
        assert(zeta(1) == 1729 && zeta(1) == 1729);
        assert((1729int * 1729) % 3329 == 3328);
    } else if i == 2 {
        assert(zeta(2) == 2580 && zeta(3) == 3289);
        assert((2580int * 3289) % 3329 == 3328);
    } else if i == 3 {
        assert(zeta(3) == 3289 && zeta(2) == 2580);
        assert((3289int * 2580) % 3329 == 3328);
    } else if i == 4 {
        assert(zeta(4) == 2642 && zeta(7) == 848);
        assert((2642int * 848) % 3329 == 3328);
    } else if i == 5 {
        assert(zeta(5) == 630 && zeta(6) == 1897);
        assert((630int * 1897) % 3329 == 3328);
    } else if i == 6 {
        assert(zeta(6) == 1897 && zeta(5) == 630);
        assert((1897int * 630) % 3329 == 3328);
    } else if i == 7 {
        assert(zeta(7) == 848 && zeta(4) == 2642);
        assert((848int * 2642) % 3329 == 3328);
    } else if i == 8 {
        assert(zeta(8) == 1062 && zeta(15) == 1746);
        assert((1062int * 1746) % 3329 == 3328);
    } else if i == 9 {
        assert(zeta(9) == 1919 && zeta(14) == 569);
        assert((1919int * 569) % 3329 == 3328);
    } else if i == 10 {
        assert(zeta(10) == 193 && zeta(13) == 3260);
        assert((193int * 3260) % 3329 == 3328);
    } else if i == 11 {
        assert(zeta(11) == 797 && zeta(12) == 2786);
        assert((797int * 2786) % 3329 == 3328);
    } else if i == 12 {
        assert(zeta(12) == 2786 && zeta(11) == 797);
        assert((2786int * 797) % 3329 == 3328);
    } else if i == 13 {
        assert(zeta(13) == 3260 && zeta(10) == 193);
        assert((3260int * 193) % 3329 == 3328);
    } else if i == 14 {
        assert(zeta(14) == 569 && zeta(9) == 1919);
        assert((569int * 1919) % 3329 == 3328);
    } else if i == 15 {
        assert(zeta(15) == 1746 && zeta(8) == 1062);
        assert((1746int * 1062) % 3329 == 3328);
    }
}

/// The pairing of twiddle factors for the indices from 16 up to 31.
#[verifier::rlimit(40)]
proof fn lemma_twiddle_pairs_from_16(i: int)
    requires
        16 <= i < 32,
    ensures
        fmul(zeta(i), zeta(partner(i))) == 3328,
{
    if i == 16 {
        assert(zeta(16) == 296 && zeta(31) == 821);
        assert((296int * 821) % 3329 == 3328);
    } else if i == 17 {
        assert(zeta(17) == 2447 && zeta(30) == 1974);
        assert((2447int * 1974) % 3329 == 3328);
    } else if i == 18 {
        assert(zeta(18) == 1339 && zeta(29) == 2879);
        assert((1339int * 2879) % 3329 == 3328);
    } else if i == 19 {
        assert(zeta(19) == 1476 && zeta(28) == 2393);
        assert((1476int * 2393) % 3329 == 3328);
    } else if i == 20 {
        assert(zeta(20) == 3046 && zeta(27) == 2882);
        assert((3046int * 2882) % 3329 == 3328);
    } else if i == 21 {
        assert(zeta(21) == 56 && zeta(26) == 535);
        assert((56int * 535) % 3329 == 3328);
    } else if i == 22 {
        assert(zeta(22) == 2240 && zeta(25) == 2094);
        assert((2240int * 2094) % 3329 == 3328);
    } else if i == 23 {
        assert(zeta(23) == 1333 && zeta(24) == 1426);
        assert((1333int * 1426) % 3329 == 3328);
    } else if i == 24 {
        assert(zeta(24) == 1426 && zeta(23) == 1333);
        assert((1426int * 1333) % 3329 == 3328);
    } else if i == 25 {
        assert(zeta(25) == 2094 && zeta(22) == 2240);
        assert((2094int * 2240) % 3329 == 3328);
    } else if i == 26 {
        assert(zeta(26) == 535 && zeta(21) == 56);
        assert((535int * 56) % 3329 == 3328);
    } else if i == 27 {
        assert(zeta(27) == 2882 && zeta(20) == 3046);
        assert((2882int * 3046) % 3329 == 3328);
    } else if i == 28 {
        assert(zeta(28) == 2393 && zeta(19) == 1476);
        assert((2393int * 1476) % 3329 == 3328);
    } else if i == 29 {
        assert(zeta(29) == 2879 && zeta(18) == 1339);
        assert((2879int * 1339) % 3329 == 3328);
    } else if i == 30 {
        assert(zeta(30) == 1974 && zeta(17) == 2447);
        assert((1974int * 2447) % 3329 == 3328);
    } else if i == 31 {
        assert(zeta(31) == 821 && zeta(16) == 296);
        assert((821int * 296) % 3329 == 3328);
    }
}

/// The pairing of twiddle factors for the indices from 32 up to 47.
#[verifier::rlimit(40)]
proof fn lemma_twiddle_pairs_from_32(i: int)
    requires
        32 <= i < 48,
    ensures
        fmul(zeta(i), zeta(partner(i))) == 3328,
{
    if i == 32 {
        assert(zeta(32) == 289 && zeta(63) == 910);
        assert((289int * 910) % 3329 == 3328);
    } else if i == 33 {
        assert(zeta(33) == 331 && zeta(62) == 1227);
        assert((331int * 1227) % 3329 == 3328);
    } else if i == 34 {
        assert(zeta(34) == 3253 && zeta(61) == 3110);
        assert((3253int * 3110) % 3329 == 3328);
    } else if i == 35 {
        assert(zeta(35) == 1756 && zeta(60) == 2474);
        assert((1756int * 2474) % 3329 == 3328);
    } else if i == 36 {
        assert(zeta(36) == 1197 && zeta(59) == 648);
        assert((1197int * 648) % 3329 == 3328);
    } else if i == 37 {
        assert(zeta(37) == 2304 && zeta(58) == 1481);
        assert((2304int * 1481) % 3329 == 3328);
    } else if i == 38 {
        assert(zeta(38) == 2277 && zeta(57) == 2617);
        assert((2277int * 2617) % 3329 == 3328);
    } else if i == 39 {
        assert(zeta(39) == 2055 && zeta(56) == 2647);
        assert((2055int * 2647) % 3329 == 3328);
    } else if i == 40 {
        assert(zeta(40) == 650 && zeta(55) == 2402);
        assert((650int * 2402) % 3329 == 3328);
    } else if i == 41 {
        assert(zeta(41) == 1977 && zeta(54) == 1534);
        assert((1977int * 1534) % 3329 == 3328);
    } else if i == 42 {
        assert(zeta(42) == 2513 && zeta(53) == 2868);
        assert((2513int * 2868) % 3329 == 3328);
    } else if i == 43 {
        assert(zeta(43) == 632 && zeta(52) == 1438);
        assert((632int * 1438) % 3329 == 3328);
    } else if i == 44 {
        assert(zeta(44) == 2865 && zeta(51) == 452);
        assert((2865int * 452) % 3329 == 3328);
    } else if i == 45 {
        assert(zeta(45) == 33 && zeta(50) == 807);
        assert((33int * 807) % 3329 == 3328);
    } else if i == 46 {
        assert(zeta(46) == 1320 && zeta(49) == 1435);
        assert((1320int * 1435) % 3329 == 3328);
    } else if i == 47 {
        assert(zeta(47) == 1915 && zeta(48) == 2319);
        assert((1915int * 2319) % 3329 == 3328);
    }
}

/// The pairing of twiddle factors for the indices from 48 up to 63.
#[verifier::rlimit(40)]
proof fn lemma_twiddle_pairs_from_48(i: int)
    requires
        48 <= i < 64,
    ensures
        fmul(zeta(i), zeta(partner(i))) == 3328,
{
    if i == 48 {
        assert(zeta(48) == 2319 && zeta(47) == 1915);
        assert((2319int * 1915) % 3329 == 3328);
    } else if i == 49 {
        assert(zeta(49) == 1435 && zeta(46) == 1320);
        assert((1435int * 1320) % 3329 == 3328);
    } else if i == 50 {
        assert(zeta(50) == 807 && zeta(45) == 33);
        assert((807int * 33) % 3329 == 3328);
    } else if i == 51 {
        assert(zeta(51) == 452 && zeta(44) == 2865);
        assert((452int * 2865) % 3329 == 3328);
    } else if i == 52 {
        assert(zeta(52) == 1438 && zeta(43) == 632);
        assert((1438int * 632) % 3329 == 3328);
    } else if i == 53 {
        assert(zeta(53) == 2868 && zeta(42) == 2513);
        assert((2868int * 2513) % 3329 == 3328);
    } else if i == 54 {
        assert(zeta(54) == 1534 && zeta(41) == 1977);
        assert((1534int * 1977) % 3329 == 3328);
    } else if i == 55 {
        assert(zeta(55) == 2402 && zeta(40) == 650);
        assert((2402int * 650) % 3329 == 3328);
    } else if i == 56 {
        assert(zeta(56) == 2647 && zeta(39) == 2055);
        assert((2647int * 2055) % 3329 == 3328);
    } else if i == 57 {
        assert(zeta(57) == 2617 && zeta(38) == 2277);
        assert((2617int * 2277) % 3329 == 3328);
    } else if i == 58 {
        assert(zeta(58) == 1481 && zeta(37) == 2304);
        assert((1481int * 2304) % 3329 == 3328);
    } else if i == 59 {
        assert(zeta(59) == 648 && zeta(36) == 1197);
        assert((648int * 1197) % 3329 == 3328);
    } else if i == 60 {
        assert(zeta(60) == 2474 && zeta(35) == 1756);
        assert((2474int * 1756) % 3329 == 3328);
    } else if i == 61 {
        assert(zeta(61) == 3110 && zeta(34) == 3253);
        assert((3110int * 3253) % 3329 == 3328);
    } else if i == 62 {
        assert(zeta(62) == 1227 && zeta(33) == 331);
        assert((1227int * 331) % 3329 == 3328);
    } else if i == 63 {
        assert(zeta(63) == 910 && zeta(32) == 289);
        assert((910int * 289) % 3329 == 3328);
    }
}

/// The pairing of twiddle factors for the indices from 64 up to 79.
#[verifier::rlimit(40)]
proof fn lemma_twiddle_pairs_from_64(i: int)
    requires
        64 <= i < 80,
    ensures
        fmul(zeta(i), zeta(partner(i))) == 3328,
{
    if i == 64 {
        assert(zeta(64) == 17 && zeta(127) == 2154);
        assert((17int * 2154) % 3329 == 3328);
    } else if i == 65 {
        assert(zeta(65) == 2761 && zeta(126) == 885);
        assert((2761int * 885) % 3329 == 3328);
    } else if i == 66 {
        assert(zeta(66) == 583 && zeta(125) == 2935);
        assert((583int * 2935) % 3329 == 3328);
    } else if i == 67 {
        assert(zeta(67) == 2649 && zeta(124) == 2110);
        assert((2649int * 2110) % 3329 == 3328);
    } else if i == 68 {
        assert(zeta(68) == 1637 && zeta(123) == 1029);
        assert((1637int * 1029) % 3329 == 3328);
    } else if i == 69 {
        assert(zeta(69) == 723 && zeta(122) == 1874);
        assert((723int * 1874) % 3329 == 3328);
    } else if i == 70 {
        assert(zeta(70) == 2288 && zeta(121) == 1212);
        assert((2288int * 1212) % 3329 == 3328);
    } else if i == 71 {
        assert(zeta(71) == 1100 && zeta(120) == 1722);
        assert((1100int * 1722) % 3329 == 3328);
    } else if i == 72 {
        assert(zeta(72) == 1409 && zeta(119) == 886);
        assert((1409int * 886) % 3329 == 3328);
    } else if i == 73 {
        assert(zeta(73) == 2662 && zeta(118) == 2775);
        assert((2662int * 2775) % 3329 == 3328);
    } else if i == 74 {
        assert(zeta(74) == 3281 && zeta(117) == 2150);
        assert((3281int * 2150) % 3329 == 3328);
    } else if i == 75 {
        assert(zeta(75) == 233 && zeta(116) == 1143);
        assert((233int * 1143) % 3329 == 3328);
    } else if i == 76 {
        assert(zeta(76) == 756 && zeta(115) == 1026);
        assert((756int * 1026) % 3329 == 3328);
    } else if i == 77 {
        assert(zeta(77) == 2156 && zeta(114) == 403);
        assert((2156int * 403) % 3329 == 3328);
    } else if i == 78 {
        assert(zeta(78) == 3015 && zeta(113) == 1092);
        assert((3015int * 1092) % 3329 == 3328);
    } else if i == 79 {
        assert(zeta(79) == 3050 && zeta(112) == 2804);
        assert((3050int * 2804) % 3329 == 3328);
    }
}

/// The pairing of twiddle factors for the indices from 80 up to 95.
#[verifier::rlimit(40)]
proof fn lemma_twiddle_pairs_from_80(i: int)
    requires
        80 <= i < 96,
    ensures
        fmul(zeta(i), zeta(partner(i))) == 3328,
{
    if i == 80 {
        assert(zeta(80) == 1703 && zeta(111) == 2594);
        assert((1703int * 2594) % 3329 == 3328);
    } else if i == 81 {
        assert(zeta(81) == 1651 && zeta(110) == 2466);
        assert((1651int * 2466) % 3329 == 3328);
    } else if i == 82 {
        assert(zeta(82) == 2789 && zeta(109) == 561);
        assert((2789int * 561) % 3329 == 3328);
    } else if i == 83 {
        assert(zeta(83) == 1789 && zeta(108) == 2099);
        assert((1789int * 2099) % 3329 == 3328);
    } else if i == 84 {
        assert(zeta(84) == 1847 && zeta(107) == 757);
        assert((1847int * 757) % 3329 == 3328);
    } else if i == 85 {
        assert(zeta(85) == 952 && zeta(106) == 2773);
        assert((952int * 2773) % 3329 == 3328);
    } else if i == 86 {
        assert(zeta(86) == 1461 && zeta(105) == 319);
        assert((1461int * 319) % 3329 == 3328);
    } else if i == 87 {
        assert(zeta(87) == 2687 && zeta(104) == 1063);
        assert((2687int * 1063) % 3329 == 3328);
    } else if i == 88 {
        assert(zeta(88) == 939 && zeta(103) == 1645);
        assert((939int * 1645) % 3329 == 3328);
    } else if i == 89 {
        assert(zeta(89) == 2308 && zeta(102) == 2090);
        assert((2308int * 2090) % 3329 == 3328);
    } else if i == 90 {
        assert(zeta(90) == 2437 && zeta(101) == 2549);
        assert((2437int * 2549) % 3329 == 3328);
    } else if i == 91 {
        assert(zeta(91) == 2388 && zeta(100) == 375);
        assert((2388int * 375) % 3329 == 3328);
    } else if i == 92 {
        assert(zeta(92) == 733 && zeta(99) == 3220);
        assert((733int * 3220) % 3329 == 3328);
    } else if i == 93 {
        assert(zeta(93) == 2337 && zeta(98) == 2037);
        assert((2337int * 2037) % 3329 == 3328);
    } else if i == 94 {
        assert(zeta(94) == 268 && zeta(97) == 2298);
        assert((268int * 2298) % 3329 == 3328);
    } else if i == 95 {
        assert(zeta(95) == 641 && zeta(96) == 1584);
        assert((641int * 1584) % 3329 == 3328);
    }
}

/// The pairing of twiddle factors for the indices from 96 up to 111.
#[verifier::rlimit(40)]
proof fn lemma_twiddle_pairs_from_96(i: int)
    requires
        96 <= i < 112,
    ensures
        fmul(zeta(i), zeta(partner(i))) == 3328,
{
    if i == 96 {
        assert(zeta(96) == 1584 && zeta(95) == 641);
        assert((1584int * 641) % 3329 == 3328);
    } else if i == 97 {
        assert(zeta(97) == 2298 && zeta(94) == 268);
        assert((2298int * 268) % 3329 == 3328);
    } else if i == 98 {
        assert(zeta(98) == 2037 && zeta(93) == 2337);
        assert((2037int * 2337) % 3329 == 3328);
    } else if i == 99 {
        assert(zeta(99) == 3220 && zeta(92) == 733);
        assert((3220int * 733) % 3329 == 3328);
    } else if i == 100 {
        assert(zeta(100) == 375 && zeta(91) == 2388);
        assert((375int * 2388) % 3329 == 3328);
    } else if i == 101 {
        assert(zeta(101) == 2549 && zeta(90) == 2437);
        assert((2549int * 2437) % 3329 == 3328);
    } else if i == 102 {
        assert(zeta(102) == 2090 && zeta(89) == 2308);
        assert((2090int * 2308) % 3329 == 3328);
    } else if i == 103 {
        assert(zeta(103) == 1645 && zeta(88) == 939);
        assert((1645int * 939) % 3329 == 3328);
    } else if i == 104 {
        assert(zeta(104) == 1063 && zeta(87) == 2687);
        assert((1063int * 2687) % 3329 == 3328);
    } else if i == 105 {
        assert(zeta(105) == 319 && zeta(86) == 1461);
        assert((319int * 1461) % 3329 == 3328);
    } else if i == 106 {
        assert(zeta(106) == 2773 && zeta(85) == 952);
        assert((2773int * 952) % 3329 == 3328);
    } else if i == 107 {
        assert(zeta(107) == 757 && zeta(84) == 1847);
        assert((757int * 1847) % 3329 == 3328);
    } else if i == 108 {
        assert(zeta(108) == 2099 && zeta(83) == 1789);
        assert((2099int * 1789) % 3329 == 3328);
    } else if i == 109 {
        assert(zeta(109) == 561 && zeta(82) == 2789);
        assert((561int * 2789) % 3329 == 3328);
    } else if i == 110 {
        assert(zeta(110) == 2466 && zeta(81) == 1651);
        assert((2466int * 1651) % 3329 == 3328);
    } else if i == 111 {
        assert(zeta(111) == 2594 && zeta(80) == 1703);
        assert((2594int * 1703) % 3329 == 3328);
    }
}

/// The pairing of twiddle factors for the indices from 112 up to 127.
#[verifier::rlimit(40)]
proof fn lemma_twiddle_pairs_from_112(i: int)
    requires
        112 <= i < 128,
    ensures
        fmul(zeta(i), zeta(partner(i))) == 3328,
{
    if i == 112 {
        assert(zeta(112) == 2804 && zeta(79) == 3050);
        assert((2804int * 3050) % 3329 == 3328);
    } else if i == 113 {
        assert(zeta(113) == 1092 && zeta(78) == 3015);
        assert((1092int * 3015) % 3329 == 3328);
    } else if i == 114 {
        assert(zeta(114) == 403 && zeta(77) == 2156);
        assert((403int * 2156) % 3329 == 3328);
    } else if i == 115 {
        assert(zeta(115) == 1026 && zeta(76) == 756);
        assert((1026int * 756) % 3329 == 3328);
    } else if i == 116 {
        assert(zeta(116) == 1143 && zeta(75) == 233);
        assert((1143int * 233) % 3329 == 3328);
    } else if i == 117 {
        assert(zeta(117) == 2150 && zeta(74) == 3281);
        assert((2150int * 3281) % 3329 == 3328);
    } else if i == 118 {
        assert(zeta(118) == 2775 && zeta(73) == 2662);
        assert((2775int * 2662) % 3329 == 3328);
    } else if i == 119 {
        assert(zeta(119) == 886 && zeta(72) == 1409);
        assert((886int * 1409) % 3329 == 3328);
    } else if i == 120 {
        assert(zeta(120) == 1722 && zeta(71) == 1100);
        assert((1722int * 1100) % 3329 == 3328);
    } else if i == 121 {
        assert(zeta(121) == 1212 && zeta(70) == 2288);
        assert((1212int * 2288) % 3329 == 3328);
    } else if i == 122 {
        assert(zeta(122) == 1874 && zeta(69) == 723);
        assert((1874int * 723) % 3329 == 3328);
    } else if i == 123 {
        assert(zeta(123) == 1029 && zeta(68) == 1637);
        assert((1029int * 1637) % 3329 == 3328);
    } else if i == 124 {
        assert(zeta(124) == 2110 && zeta(67) == 2649);
        assert((2110int * 2649) % 3329 == 3328);
    } else if i == 125 {
        assert(zeta(125) == 2935 && zeta(66) == 583);
        assert((2935int * 583) % 3329 == 3328);
    } else if i == 126 {
        assert(zeta(126) == 885 && zeta(65) == 2761);
        assert((885int * 2761) % 3329 == 3328);
    } else if i == 127 {
        assert(zeta(127) == 2154 && zeta(64) == 17);
        assert((2154int * 17) % 3329 == 3328);
    }
}

/// The twiddle factors that the two transforms use in one group multiply to
/// -1.
pub proof fn lemma_twiddle_pair(i: int)
    requires
        1 <= i < 128,
    ensures
        fmul(zeta(i), zeta(partner(i))) == 3328,
{
    if i < 16 {
        lemma_twiddle_pairs_from_1(i);
    } else if i < 32 {
        lemma_twiddle_pairs_from_16(i);
    } else if i < 48 {
        lemma_twiddle_pairs_from_32(i);
    } else if i < 64 {
        lemma_twiddle_pairs_from_48(i);
    } else if i < 80 {
        lemma_twiddle_pairs_from_64(i);
    } else if i < 96 {
        lemma_twiddle_pairs_from_80(i);
    } else if i < 112 {
        lemma_twiddle_pairs_from_96(i);
    } else {
        lemma_twiddle_pairs_from_112(i);
    }
}

/// The squares of the twiddle factors with the indices `2 s` and `2 s + 1`,
/// for `s` from 1 up to 15.
#[verifier::rlimit(40)]
proof fn lemma_twiddle_squares_from_1(s: int)
    requires
        1 <= s < 16,
    ensures
        fmul(zeta(2 * s), zeta(2 * s)) == zeta(s),
        fmul(zeta(2 * s + 1), zeta(2 * s + 1)) == fsub(0, zeta(s)),
{
    if s == 1 {
        assert(zeta(1) == 1729 && zeta(2) == 2580 && zeta(3) == 3289);
        assert((2580int * 2580) % 3329 == 1729);
        assert((3289int * 3289) % 3329 == 1600);
    } else if s == 2 {
        assert(zeta(2) == 2580 && zeta(4) == 2642 && zeta(5) == 630);
        assert((2642int * 2642) % 3329 == 2580);
        assert((630int * 630) % 3329 == 749);
    } else if s == 3 {
        assert(zeta(3) == 3289 && zeta(6) == 1897 && zeta(7) == 848);
        assert((1897int * 1897) % 3329 == 3289);
        assert((848int * 848) % 3329 == 40);
    } else if s == 4 {
        assert(zeta(4) == 2642 && zeta(8) == 1062 && zeta(9) == 1919);
        assert((1062int * 1062) % 3329 == 2642);
        assert((1919int * 1919) % 3329 == 687);
    } else if s == 5 {
        assert(zeta(5) == 630 && zeta(10) == 193 && zeta(11) == 797);
        assert((193int * 193) % 3329 == 630);
        assert((797int * 797) % 3329 == 2699);
    } else if s == 6 {
        assert(zeta(6) == 1897 && zeta(12) == 2786 && zeta(13) == 3260);
        assert((2786int * 2786) % 3329 == 1897);
        assert((3260int * 3260) % 3329 == 1432);
    } else if s == 7 {
        assert(zeta(7) == 848 && zeta(14) == 569 && zeta(15) == 1746);
        assert((569int * 569) % 3329 == 848);
        assert((1746int * 1746) % 3329 == 2481);
    } else if s == 8 {
        assert(zeta(8) == 1062 && zeta(16) == 296 && zeta(17) == 2447);
        assert((296int * 296) % 3329 == 1062);
        assert((2447int * 2447) % 3329 == 2267);
    } else if s == 9 {
        assert(zeta(9) == 1919 && zeta(18) == 1339 && zeta(19) == 1476);
        assert((1339int * 1339) % 3329 == 1919);
        assert((1476int * 1476) % 3329 == 1410);
    } else if s == 10 {
        assert(zeta(10) == 193 && zeta(20) == 3046 && zeta(21) == 56);
        assert((3046int * 3046) % 3329 == 193);
        assert((56int * 56) % 3329 == 3136);
    } else if s == 11 {
        assert(zeta(11) == 797 && zeta(22) == 2240 && zeta(23) == 1333);
        assert((2240int * 2240) % 3329 == 797);
        assert((1333int * 1333) % 3329 == 2532);
    } else if s == 12 {
        assert(zeta(12) == 2786 && zeta(24) == 1426 && zeta(25) == 2094);
        assert((1426int * 1426) % 3329 == 2786);
        assert((2094int * 2094) % 3329 == 543);
    } else if s == 13 {
        assert(zeta(13) == 3260 && zeta(26) == 535 && zeta(27) == 2882);
        assert((535int * 535) % 3329 == 3260);
        assert((2882int * 2882) % 3329 == 69);
    } else if s == 14 {
        assert(zeta(14) == 569 && zeta(28) == 2393 && zeta(29) == 2879);
        assert((2393int * 2393) % 3329 == 569);
        assert((2879int * 2879) % 3329 == 2760);
    } else if s == 15 {
        assert(zeta(15) == 1746 && zeta(30) == 1974 && zeta(31) == 821);
        assert((1974int * 1974) % 3329 == 1746);
        assert((821int * 821) % 3329 == 1583);
    }
}

/// The squares of the twiddle factors with the indices `2 s` and `2 s + 1`,
/// for `s` from 16 up to 31.
#[verifier::rlimit(40)]
proof fn lemma_twiddle_squares_from_16(s: int)
    requires
        16 <= s < 32,
    ensures
        fmul(zeta(2 * s), zeta(2 * s)) == zeta(s),
        fmul(zeta(2 * s + 1), zeta(2 * s + 1)) == fsub(0, zeta(s)),
{
    if s == 16 {
        assert(zeta(16) == 296 && zeta(32) == 289 && zeta(33) == 331);
        assert((289int * 289) % 3329 == 296);
        assert((331int * 331) % 3329 == 3033);
    } else if s == 17 {
        assert(zeta(17) == 2447 && zeta(34) == 3253 && zeta(35) == 1756);
        assert((3253int * 3253) % 3329 == 2447);
        assert((1756int * 1756) % 3329 == 882);
    } else if s == 18 {
        assert(zeta(18) == 1339 && zeta(36) == 1197 && zeta(37) == 2304);
        assert((1197int * 1197) % 3329 == 1339);
        assert((2304int * 2304) % 3329 == 1990);
    } else if s == 19 {
        assert(zeta(19) == 1476 && zeta(38) == 2277 && zeta(39) == 2055);
        assert((2277int * 2277) % 3329 == 1476);
        assert((2055int * 2055) % 3329 == 1853);
    } else if s == 20 {
        assert(zeta(20) == 3046 && zeta(40) == 650 && zeta(41) == 1977);
        assert((650int * 650) % 3329 == 3046);
        assert((1977int * 1977) % 3329 == 283);
    } else if s == 21 {
        assert(zeta(21) == 56 && zeta(42) == 2513 && zeta(43) == 632);
        assert((2513int * 2513) % 3329 == 56);
        assert((632int * 632) % 3329 == 3273);
    } else if s == 22 {
        assert(zeta(22) == 2240 && zeta(44) == 2865 && zeta(45) == 33);
        assert((2865int * 2865) % 3329 == 2240);
        assert((33int * 33) % 3329 == 1089);
    } else if s == 23 {
        assert(zeta(23) == 1333 && zeta(46) == 1320 && zeta(47) == 1915);
        assert((1320int * 1320) % 3329 == 1333);
        assert((1915int * 1915) % 3329 == 1996);
    } else if s == 24 {
        assert(zeta(24) == 1426 && zeta(48) == 2319 && zeta(49) == 1435);
        assert((2319int * 2319) % 3329 == 1426);
        assert((1435int * 1435) % 3329 == 1903);
    } else if s == 25 {
        assert(zeta(25) == 2094 && zeta(50) == 807 && zeta(51) == 452);
        assert((807int * 807) % 3329 == 2094);
        assert((452int * 452) % 3329 == 1235);
    } else if s == 26 {
        assert(zeta(26) == 535 && zeta(52) == 1438 && zeta(53) == 2868);
        assert((1438int * 1438) % 3329 == 535);
        assert((2868int * 2868) % 3329 == 2794);
    } else if s == 27 {
        assert(zeta(27) == 2882 && zeta(54) == 1534 && zeta(55) == 2402);
        assert((1534int * 1534) % 3329 == 2882);
        assert((2402int * 2402) % 3329 == 447);
    } else if s == 28 {
        assert(zeta(28) == 2393 && zeta(56) == 2647 && zeta(57) == 2617);
        assert((2647int * 2647) % 3329 == 2393);
        assert((2617int * 2617) % 3329 == 936);
    } else if s == 29 {
        assert(zeta(29) == 2879 && zeta(58) == 1481 && zeta(59) == 648);
        assert((1481int * 1481) % 3329 == 2879);
        assert((648int * 648) % 3329 == 450);
    } else if s == 30 {
        assert(zeta(30) == 1974 && zeta(60) == 2474 && zeta(61) == 3110);
        assert((2474int * 2474) % 3329 == 1974);
        assert((3110int * 3110) % 3329 == 1355);
    } else if s == 31 {
        assert(zeta(31) == 821 && zeta(62) == 1227 && zeta(63) == 910);
        assert((1227int * 1227) % 3329 == 821);
        assert((910int * 910) % 3329 == 2508);
    }
}

/// The squares of the twiddle factors with the indices `2 s` and `2 s + 1`,
/// for `s` from 32 up to 47.
#[verifier::rlimit(40)]
proof fn lemma_twiddle_squares_from_32(s: int)
    requires
        32 <= s < 48,
    ensures
        fmul(zeta(2 * s), zeta(2 * s)) == zeta(s),
        fmul(zeta(2 * s + 1), zeta(2 * s + 1)) == fsub(0, zeta(s)),
{
    if s == 32 {
        assert(zeta(32) == 289 && zeta(64) == 17 && zeta(65) == 2761);
        assert((17int * 17) % 3329 == 289);
        assert((2761int * 2761) % 3329 == 3040);
    } else if s == 33 {
        assert(zeta(33) == 331 && zeta(66) == 583 && zeta(67) == 2649);
        assert((583int * 583) % 3329 == 331);
        assert((2649int * 2649) % 3329 == 2998);
    } else if s == 34 {
        assert(zeta(34) == 3253 && zeta(68) == 1637 && zeta(69) == 723);
        assert((1637int * 1637) % 3329 == 3253);
        assert((723int * 723) % 3329 == 76);
    } else if s == 35 {
        assert(zeta(35) == 1756 && zeta(70) == 2288 && zeta(71) == 1100);
        assert((2288int * 2288) % 3329 == 1756);
        assert((1100int * 1100) % 3329 == 1573);
    } else if s == 36 {
        assert(zeta(36) == 1197 && zeta(72) == 1409 && zeta(73) == 2662);
        assert((1409int * 1409) % 3329 == 1197);
        assert((2662int * 2662) % 3329 == 2132);
    } else if s == 37 {
        assert(zeta(37) == 2304 && zeta(74) == 3281 && zeta(75) == 233);
        assert((3281int * 3281) % 3329 == 2304);
        assert((233int * 233) % 3329 == 1025);
    } else if s == 38 {
        assert(zeta(38) == 2277 && zeta(76) == 756 && zeta(77) == 2156);
        assert((756int * 756) % 3329 == 2277);
        assert((2156int * 2156) % 3329 == 1052);
    } else if s == 39 {
        assert(zeta(39) == 2055 && zeta(78) == 3015 && zeta(79) == 3050);
        assert((3015int * 3015) % 3329 == 2055);
        assert((3050int * 3050) % 3329 == 1274);
    } else if s == 40 {
        assert(zeta(40) == 650 && zeta(80) == 1703 && zeta(81) == 1651);
        assert((1703int * 1703) % 3329 == 650);
        assert((1651int * 1651) % 3329 == 2679);
    } else if s == 41 {
        assert(zeta(41) == 1977 && zeta(82) == 2789 && zeta(83) == 1789);
        assert((2789int * 2789) % 3329 == 1977);
        assert((1789int * 1789) % 3329 == 1352);
    } else if s == 42 {
        assert(zeta(42) == 2513 && zeta(84) == 1847 && zeta(85) == 952);
        assert((1847int * 1847) % 3329 == 2513);
        assert((952int * 952) % 3329 == 816);
    } else if s == 43 {
        assert(zeta(43) == 632 && zeta(86) == 1461 && zeta(87) == 2687);
        assert((1461int * 1461) % 3329 == 632);
        assert((2687int * 2687) % 3329 == 2697);
    } else if s == 44 {
        assert(zeta(44) == 2865 && zeta(88) == 939 && zeta(89) == 2308);
        assert((939int * 939) % 3329 == 2865);
        assert((2308int * 2308) % 3329 == 464);
    } else if s == 45 {
        assert(zeta(45) == 33 && zeta(90) == 2437 && zeta(91) == 2388);
        assert((2437int * 2437) % 3329 == 33);
        assert((2388int * 2388) % 3329 == 3296);
    } else if s == 46 {
        assert(zeta(46) == 1320 && zeta(92) == 733 && zeta(93) == 2337);
        assert((733int * 733) % 3329 == 1320);
        assert((2337int * 2337) % 3329 == 2009);
    } else if s == 47 {
        assert(zeta(47) == 1915 && zeta(94) == 268 && zeta(95) == 641);
        assert((268int * 268) % 3329 == 1915);
        assert((641int * 641) % 3329 == 1414);
    }
}

/// The squares of the twiddle factors with the indices `2 s` and `2 s + 1`,
/// for `s` from 48 up to 63.
#[verifier::rlimit(40)]
proof fn lemma_twiddle_squares_from_48(s: int)
    requires
        48 <= s < 64,
    ensures
        fmul(zeta(2 * s), zeta(2 * s)) == zeta(s),
        fmul(zeta(2 * s + 1), zeta(2 * s + 1)) == fsub(0, zeta(s)),
{
    if s == 48 {
        assert(zeta(48) == 2319 && zeta(96) == 1584 && zeta(97) == 2298);
        assert((1584int * 1584) % 3329 == 2319);
        assert((2298int * 2298) % 3329 == 1010);
    } else if s == 49 {
        assert(zeta(49) == 1435 && zeta(98) == 2037 && zeta(99) == 3220);
        assert((2037int * 2037) % 3329 == 1435);
        assert((3220int * 3220) % 3329 == 1894);
    } else if s == 50 {
        assert(zeta(50) == 807 && zeta(100) == 375 && zeta(101) == 2549);
        assert((375int * 375) % 3329 == 807);
        assert((2549int * 2549) % 3329 == 2522);
    } else if s == 51 {
        assert(zeta(51) == 452 && zeta(102) == 2090 && zeta(103) == 1645);
        assert((2090int * 2090) % 3329 == 452);
        assert((1645int * 1645) % 3329 == 2877);
    } else if s == 52 {
        assert(zeta(52) == 1438 && zeta(104) == 1063 && zeta(105) == 319);
        assert((1063int * 1063) % 3329 == 1438);
        assert((319int * 319) % 3329 == 1891);
    } else if s == 53 {
        assert(zeta(53) == 2868 && zeta(106) == 2773 && zeta(107) == 757);
        assert((2773int * 2773) % 3329 == 2868);
        assert((757int * 757) % 3329 == 461);
    } else if s == 54 {
        assert(zeta(54) == 1534 && zeta(108) == 2099 && zeta(109) == 561);
        assert((2099int * 2099) % 3329 == 1534);
        assert((561int * 561) % 3329 == 1795);
    } else if s == 55 {
        assert(zeta(55) == 2402 && zeta(110) == 2466 && zeta(111) == 2594);
        assert((2466int * 2466) % 3329 == 2402);
        assert((2594int * 2594) % 3329 == 927);
    } else if s == 56 {
        assert(zeta(56) == 2647 && zeta(112) == 2804 && zeta(113) == 1092);
        assert((2804int * 2804) % 3329 == 2647);
        assert((1092int * 1092) % 3329 == 682);
    } else if s == 57 {
        assert(zeta(57) == 2617 && zeta(114) == 403 && zeta(115) == 1026);
        assert((403int * 403) % 3329 == 2617);
        assert((1026int * 1026) % 3329 == 712);
    } else if s == 58 {
        assert(zeta(58) == 1481 && zeta(116) == 1143 && zeta(117) == 2150);
        assert((1143int * 1143) % 3329 == 1481);
        assert((2150int * 2150) % 3329 == 1848);
    } else if s == 59 {
        assert(zeta(59) == 648 && zeta(118) == 2775 && zeta(119) == 886);
        assert((2775int * 2775) % 3329 == 648);
        assert((886int * 886) % 3329 == 2681);
    } else if s == 60 {
        assert(zeta(60) == 2474 && zeta(120) == 1722 && zeta(121) == 1212);
        assert((1722int * 1722) % 3329 == 2474);
        assert((1212int * 1212) % 3329 == 855);
    } else if s == 61 {
        assert(zeta(61) == 3110 && zeta(122) == 1874 && zeta(123) == 1029);
        assert((1874int * 1874) % 3329 == 3110);
        assert((1029int * 1029) % 3329 == 219);
    } else if s == 62 {
        assert(zeta(62) == 1227 && zeta(124) == 2110 && zeta(125) == 2935);
        assert((2110int * 2110) % 3329 == 1227);
        assert((2935int * 2935) % 3329 == 2102);
    } else if s == 63 {
        assert(zeta(63) == 910 && zeta(126) == 885 && zeta(127) == 2154);
        assert((885int * 885) % 3329 == 910);
        assert((2154int * 2154) % 3329 == 2419);
    }
}

/// Each twiddle factor is the square of the first of its two successors in
/// the table, and the negative of the square of the second.
pub proof fn lemma_twiddle_squares(s: int)
    requires
        1 <= s < 64,
    ensures
        fmul(zeta(2 * s), zeta(2 * s)) == zeta(s),
        fmul(zeta(2 * s + 1), zeta(2 * s + 1)) == fsub(0, zeta(s)),
{
    if s < 16 {
        lemma_twiddle_squares_from_1(s);
    } else if s < 32 {
        lemma_twiddle_squares_from_16(s);
    } else if s < 48 {
        lemma_twiddle_squares_from_32(s);
    } else {
        lemma_twiddle_squares_from_48(s);
    }
}

/// The constants of the quadratic factors `2 m` and `2 m + 1`, for `m` from
/// 0 up to 15.
#[verifier::rlimit(40)]
proof fn lemma_factor_constants_from_0(m: int)
    requires
        0 <= m < 16,
    ensures
        gamma(2 * m) == zeta(64 + m),
        gamma(2 * m + 1) == fsub(0, zeta(64 + m)),
{
    if m == 0 {
        assert(zeta(64) == 17 && gamma(0) == 17 && gamma(1) == 3312);
    } else if m == 1 {
        assert(zeta(65) == 2761 && gamma(2) == 2761 && gamma(3) == 568);
    } else if m == 2 {
        assert(zeta(66) == 583 && gamma(4) == 583 && gamma(5) == 2746);
    } else if m == 3 {
        assert(zeta(67) == 2649 && gamma(6) == 2649 && gamma(7) == 680);
    } else if m == 4 {
        assert(zeta(68) == 1637 && gamma(8) == 1637 && gamma(9) == 1692);
    } else if m == 5 {
        assert(zeta(69) == 723 && gamma(10) == 723 && gamma(11) == 2606);
    } else if m == 6 {
        assert(zeta(70) == 2288 && gamma(12) == 2288 && gamma(13) == 1041);
    } else if m == 7 {
        assert(zeta(71) == 1100 && gamma(14) == 1100 && gamma(15) == 2229);
    } else if m == 8 {
        assert(zeta(72) == 1409 && gamma(16) == 1409 && gamma(17) == 1920);
    } else if m == 9 {
        assert(zeta(73) == 2662 && gamma(18) == 2662 && gamma(19) == 667);
    } else if m == 10 {
        assert(zeta(74) == 3281 && gamma(20) == 3281 && gamma(21) == 48);
    } else if m == 11 {
        assert(zeta(75) == 233 && gamma(22) == 233 && gamma(23) == 3096);
    } else if m == 12 {
        assert(zeta(76) == 756 && gamma(24) == 756 && gamma(25) == 2573);
    } else if m == 13 {
        assert(zeta(77) == 2156 && gamma(26) == 2156 && gamma(27) == 1173);
    } else if m == 14 {
        assert(zeta(78) == 3015 && gamma(28) == 3015 && gamma(29) == 314);
    } else if m == 15 {
        assert(zeta(79) == 3050 && gamma(30) == 3050 && gamma(31) == 279);
    }
}

/// The constants of the quadratic factors `2 m` and `2 m + 1`, for `m` from
/// 16 up to 31.
#[verifier::rlimit(40)]
proof fn lemma_factor_constants_from_16(m: int)
    requires
        16 <= m < 32,
    ensures
        gamma(2 * m) == zeta(64 + m),
        gamma(2 * m + 1) == fsub(0, zeta(64 + m)),
{
    if m == 16 {
        assert(zeta(80) == 1703 && gamma(32) == 1703 && gamma(33) == 1626);
    } else if m == 17 {
        assert(zeta(81) == 1651 && gamma(34) == 1651 && gamma(35) == 1678);
    } else if m == 18 {
        assert(zeta(82) == 2789 && gamma(36) == 2789 && gamma(37) == 540);
    } else if m == 19 {
        assert(zeta(83) == 1789 && gamma(38) == 1789 && gamma(39) == 1540);
    } else if m == 20 {
        assert(zeta(84) == 1847 && gamma(40) == 1847 && gamma(41) == 1482);
    } else if m == 21 {
        assert(zeta(85) == 952 && gamma(42) == 952 && gamma(43) == 2377);
    } else if m == 22 {
        assert(zeta(86) == 1461 && gamma(44) == 1461 && gamma(45) == 1868);
    } else if m == 23 {
        assert(zeta(87) == 2687 && gamma(46) == 2687 && gamma(47) == 642);
    } else if m == 24 {
        assert(zeta(88) == 939 && gamma(48) == 939 && gamma(49) == 2390);
    } else if m == 25 {
        assert(zeta(89) == 2308 && gamma(50) == 2308 && gamma(51) == 1021);
    } else if m == 26 {
        assert(zeta(90) == 2437 && gamma(52) == 2437 && gamma(53) == 892);
    } else if m == 27 {
        assert(zeta(91) == 2388 && gamma(54) == 2388 && gamma(55) == 941);
    } else if m == 28 {
        assert(zeta(92) == 733 && gamma(56) == 733 && gamma(57) == 2596);
    } else if m == 29 {
        assert(zeta(93) == 2337 && gamma(58) == 2337 && gamma(59) == 992);
    } else if m == 30 {
        assert(zeta(94) == 268 && gamma(60) == 268 && gamma(61) == 3061);
    } else if m == 31 {
        assert(zeta(95) == 641 && gamma(62) == 641 && gamma(63) == 2688);
    }
}

/// The constants of the quadratic factors `2 m` and `2 m + 1`, for `m` from
/// 32 up to 47.
#[verifier::rlimit(40)]
proof fn lemma_factor_constants_from_32(m: int)
    requires
        32 <= m < 48,
    ensures
        gamma(2 * m) == zeta(64 + m),
        gamma(2 * m + 1) == fsub(0, zeta(64 + m)),
{
    if m == 32 {
        assert(zeta(96) == 1584 && gamma(64) == 1584 && gamma(65) == 1745);
    } else if m == 33 {
        assert(zeta(97) == 2298 && gamma(66) == 2298 && gamma(67) == 1031);
    } else if m == 34 {
        assert(zeta(98) == 2037 && gamma(68) == 2037 && gamma(69) == 1292);
    } else if m == 35 {
        assert(zeta(99) == 3220 && gamma(70) == 3220 && gamma(71) == 109);
    } else if m == 36 {
        assert(zeta(100) == 375 && gamma(72) == 375 && gamma(73) == 2954);
    } else if m == 37 {
        assert(zeta(101) == 2549 && gamma(74) == 2549 && gamma(75) == 780);
    } else if m == 38 {
        assert(zeta(102) == 2090 && gamma(76) == 2090 && gamma(77) == 1239);
    } else if m == 39 {
        assert(zeta(103) == 1645 && gamma(78) == 1645 && gamma(79) == 1684);
    } else if m == 40 {
        assert(zeta(104) == 1063 && gamma(80) == 1063 && gamma(81) == 2266);
    } else if m == 41 {
        assert(zeta(105) == 319 && gamma(82) == 319 && gamma(83) == 3010);
    } else if m == 42 {
        assert(zeta(106) == 2773 && gamma(84) == 2773 && gamma(85) == 556);
    } else if m == 43 {
        assert(zeta(107) == 757 && gamma(86) == 757 && gamma(87) == 2572);
    } else if m == 44 {
        assert(zeta(108) == 2099 && gamma(88) == 2099 && gamma(89) == 1230);
    } else if m == 45 {
        assert(zeta(109) == 561 && gamma(90) == 561 && gamma(91) == 2768);
    } else if m == 46 {
        assert(zeta(110) == 2466 && gamma(92) == 2466 && gamma(93) == 863);
    } else if m == 47 {
        assert(zeta(111) == 2594 && gamma(94) == 2594 && gamma(95) == 735);
    }
}

/// The constants of the quadratic factors `2 m` and `2 m + 1`, for `m` from
/// 48 up to 63.
#[verifier::rlimit(40)]
proof fn lemma_factor_constants_from_48(m: int)
    requires
        48 <= m < 64,
    ensures
        gamma(2 * m) == zeta(64 + m),
        gamma(2 * m + 1) == fsub(0, zeta(64 + m)),
{
    if m == 48 {
        assert(zeta(112) == 2804 && gamma(96) == 2804 && gamma(97) == 525);
    } else if m == 49 {
        assert(zeta(113) == 1092 && gamma(98) == 1092 && gamma(99) == 2237);
    } else if m == 50 {
        assert(zeta(114) == 403 && gamma(100) == 403 && gamma(101) == 2926);
    } else if m == 51 {
        assert(zeta(115) == 1026 && gamma(102) == 1026 && gamma(103) == 2303);
    } else if m == 52 {
        assert(zeta(116) == 1143 && gamma(104) == 1143 && gamma(105) == 2186);
    } else if m == 53 {
        assert(zeta(117) == 2150 && gamma(106) == 2150 && gamma(107) == 1179);
    } else if m == 54 {
        assert(zeta(118) == 2775 && gamma(108) == 2775 && gamma(109) == 554);
    } else if m == 55 {
        assert(zeta(119) == 886 && gamma(110) == 886 && gamma(111) == 2443);
    } else if m == 56 {
        assert(zeta(120) == 1722 && gamma(112) == 1722 && gamma(113) == 1607);
    } else if m == 57 {
        assert(zeta(121) == 1212 && gamma(114) == 1212 && gamma(115) == 2117);
    } else if m == 58 {
        assert(zeta(122) == 1874 && gamma(116) == 1874 && gamma(117) == 1455);
    } else if m == 59 {
        assert(zeta(123) == 1029 && gamma(118) == 1029 && gamma(119) == 2300);
    } else if m == 60 {
        assert(zeta(124) == 2110 && gamma(120) == 2110 && gamma(121) == 1219);
    } else if m == 61 {
        assert(zeta(125) == 2935 && gamma(122) == 2935 && gamma(123) == 394);
    } else if m == 62 {
        assert(zeta(126) == 885 && gamma(124) == 885 && gamma(125) == 2444);
    } else if m == 63 {
        assert(zeta(127) == 2154 && gamma(126) == 2154 && gamma(127) == 1175);
    }
}

/// The constants of the quadratic factors are the twiddle factors of the last
/// layer and their negatives.
pub proof fn lemma_factor_constants(m: int)
    requires
        0 <= m < 64,
    ensures
        gamma(2 * m) == zeta(64 + m),
        gamma(2 * m + 1) == fsub(0, zeta(64 + m)),
{
    if m < 16 {
        lemma_factor_constants_from_0(m);
    } else if m < 32 {
        lemma_factor_constants_from_16(m);
    } else if m < 48 {
        lemma_factor_constants_from_32(m);
    } else {
        lemma_factor_constants_from_48(m);
    }
}

/// The twiddle factors with the indices from 1 up to 15 as products.
#[verifier::rlimit(40)]
proof fn lemma_twiddle_products_from_1(i: int)
    requires
        1 <= i < 16,
    ensures
        zeta(i) == fmul(zeta(i - layer_groups(i)), zeta(layer_groups(i))),
{
    if i == 1 {
        assert(zeta(1) == 1729 && zeta(0) == 1 && zeta(1) == 1729);
        assert((1int * 1729) % 3329 == 1729);
    } else if i == 2 {
        assert(zeta(2) == 2580 && zeta(0) == 1 && zeta(2) == 2580);
        assert((1int * 2580) % 3329 == 2580);
    } else if i == 3 {
        assert(zeta(3) == 3289 && zeta(1) == 1729 && zeta(2) == 2580);
        assert((1729int * 2580) % 3329 == 3289);
    } else if i == 4 {
        assert(zeta(4) == 2642 && zeta(0) == 1 && zeta(4) == 2642);
        assert((1int * 2642) % 3329 == 2642);
    } else if i == 5 {
        assert(zeta(5) == 630 && zeta(1) == 1729 && zeta(4) == 2642);
        assert((1729int * 2642) % 3329 == 630);
    } else if i == 6 {
        assert(zeta(6) == 1897 && zeta(2) == 2580 && zeta(4) == 2642);
        assert((2580int * 2642) % 3329 == 1897);
    } else if i == 7 {
        assert(zeta(7) == 848 && zeta(3) == 3289 && zeta(4) == 2642);
        assert((3289int * 2642) % 3329 == 848);
    } else if i == 8 {
        assert(zeta(8) == 1062 && zeta(0) == 1 && zeta(8) == 1062);
        assert((1int * 1062) % 3329 == 1062);
    } else if i == 9 {
        assert(zeta(9) == 1919 && zeta(1) == 1729 && zeta(8) == 1062);
        assert((1729int * 1062) % 3329 == 1919);
    } else if i == 10 {
        assert(zeta(10) == 193 && zeta(2) == 2580 && zeta(8) == 1062);
        assert((2580int * 1062) % 3329 == 193);
    } else if i == 11 {
        assert(zeta(11) == 797 && zeta(3) == 3289 && zeta(8) == 1062);
        assert((3289int * 1062) % 3329 == 797);
    } else if i == 12 {
        assert(zeta(12) == 2786 && zeta(4) == 2642 && zeta(8) == 1062);
        assert((2642int * 1062) % 3329 == 2786);
    } else if i == 13 {
        assert(zeta(13) == 3260 && zeta(5) == 630 && zeta(8) == 1062);
        assert((630int * 1062) % 3329 == 3260);
    } else if i == 14 {
        assert(zeta(14) == 569 && zeta(6) == 1897 && zeta(8) == 1062);
        assert((1897int * 1062) % 3329 == 569);
    } else if i == 15 {
        assert(zeta(15) == 1746 && zeta(7) == 848 && zeta(8) == 1062);
        assert((848int * 1062) % 3329 == 1746);
    }
}

/// The twiddle factors with the indices from 16 up to 31 as products.
#[verifier::rlimit(40)]
proof fn lemma_twiddle_products_from_16(i: int)
    requires
        16 <= i < 32,
    ensures
        zeta(i) == fmul(zeta(i - layer_groups(i)), zeta(layer_groups(i))),
{
    if i == 16 {
        assert(zeta(16) == 296 && zeta(0) == 1 && zeta(16) == 296);
        assert((1int * 296) % 3329 == 296);
    } else if i == 17 {
        assert(zeta(17) == 2447 && zeta(1) == 1729 && zeta(16) == 296);
        assert((1729int * 296) % 3329 == 2447);
    } else if i == 18 {
        assert(zeta(18) == 1339 && zeta(2) == 2580 && zeta(16) == 296);
        assert((2580int * 296) % 3329 == 1339);
    } else if i == 19 {
        assert(zeta(19) == 1476 && zeta(3) == 3289 && zeta(16) == 296);
        assert((3289int * 296) % 3329 == 1476);
    } else if i == 20 {
        assert(zeta(20) == 3046 && zeta(4) == 2642 && zeta(16) == 296);
        assert((2642int * 296) % 3329 == 3046);
    } else if i == 21 {
        assert(zeta(21) == 56 && zeta(5) == 630 && zeta(16) == 296);
        assert((630int * 296) % 3329 == 56);
    } else if i == 22 {
        assert(zeta(22) == 2240 && zeta(6) == 1897 && zeta(16) == 296);
        assert((1897int * 296) % 3329 == 2240);
    } else if i == 23 {
        assert(zeta(23) == 1333 && zeta(7) == 848 && zeta(16) == 296);
        assert((848int * 296) % 3329 == 1333);
    } else if i == 24 {
        assert(zeta(24) == 1426 && zeta(8) == 1062 && zeta(16) == 296);
        assert((1062int * 296) % 3329 == 1426);
    } else if i == 25 {
        assert(zeta(25) == 2094 && zeta(9) == 1919 && zeta(16) == 296);
        assert((1919int * 296) % 3329 == 2094);
    } else if i == 26 {
        assert(zeta(26) == 535 && zeta(10) == 193 && zeta(16) == 296);
        assert((193int * 296) % 3329 == 535);
    } else if i == 27 {
        assert(zeta(27) == 2882 && zeta(11) == 797 && zeta(16) == 296);
        assert((797int * 296) % 3329 == 2882);
    } else if i == 28 {
        assert(zeta(28) == 2393 && zeta(12) == 2786 && zeta(16) == 296);
        assert((2786int * 296) % 3329 == 2393);
    } else if i == 29 {
        assert(zeta(29) == 2879 && zeta(13) == 3260 && zeta(16) == 296);
        assert((3260int * 296) % 3329 == 2879);
    } else if i == 30 {
        assert(zeta(30) == 1974 && zeta(14) == 569 && zeta(16) == 296);
        assert((569int * 296) % 3329 == 1974);
    } else if i == 31 {
        assert(zeta(31) == 821 && zeta(15) == 1746 && zeta(16) == 296);
        assert((1746int * 296) % 3329 == 821);
    }
}

/// The twiddle factors with the indices from 32 up to 47 as products.
#[verifier::rlimit(40)]
proof fn lemma_twiddle_products_from_32(i: int)
    requires
        32 <= i < 48,
    ensures
        zeta(i) == fmul(zeta(i - layer_groups(i)), zeta(layer_groups(i))),
{
    if i == 32 {
        assert(zeta(32) == 289 && zeta(0) == 1 && zeta(32) == 289);
        assert((1int * 289) % 3329 == 289);
    } else if i == 33 {
        assert(zeta(33) == 331 && zeta(1) == 1729 && zeta(32) == 289);
        assert((1729int * 289) % 3329 == 331);
    } else if i == 34 {
        assert(zeta(34) == 3253 && zeta(2) == 2580 && zeta(32) == 289);
        assert((2580int * 289) % 3329 == 3253);
    } else if i == 35 {
        assert(zeta(35) == 1756 && zeta(3) == 3289 && zeta(32) == 289);
        assert((3289int * 289) % 3329 == 1756);
    } else if i == 36 {
        assert(zeta(36) == 1197 && zeta(4) == 2642 && zeta(32) == 289);
        assert((2642int * 289) % 3329 == 1197);
    } else if i == 37 {
        assert(zeta(37) == 2304 && zeta(5) == 630 && zeta(32) == 289);
        assert((630int * 289) % 3329 == 2304);
    } else if i == 38 {
        assert(zeta(38) == 2277 && zeta(6) == 1897 && zeta(32) == 289);
        assert((1897int * 289) % 3329 == 2277);
    } else if i == 39 {
        assert(zeta(39) == 2055 && zeta(7) == 848 && zeta(32) == 289);
        assert((848int * 289) % 3329 == 2055);
    } else if i == 40 {
        assert(zeta(40) == 650 && zeta(8) == 1062 && zeta(32) == 289);
        assert((1062int * 289) % 3329 == 650);
    } else if i == 41 {
        assert(zeta(41) == 1977 && zeta(9) == 1919 && zeta(32) == 289);
        assert((1919int * 289) % 3329 == 1977);
    } else if i == 42 {
        assert(zeta(42) == 2513 && zeta(10) == 193 && zeta(32) == 289);
        assert((193int * 289) % 3329 == 2513);
    } else if i == 43 {
        assert(zeta(43) == 632 && zeta(11) == 797 && zeta(32) == 289);
        assert((797int * 289) % 3329 == 632);
    } else if i == 44 {
        assert(zeta(44) == 2865 && zeta(12) == 2786 && zeta(32) == 289);
        assert((2786int * 289) % 3329 == 2865);
    } else if i == 45 {
        assert(zeta(45) == 33 && zeta(13) == 3260 && zeta(32) == 289);
        assert((3260int * 289) % 3329 == 33);
    } else if i == 46 {
        assert(zeta(46) == 1320 && zeta(14) == 569 && zeta(32) == 289);
        assert((569int * 289) % 3329 == 1320);
    } else if i == 47 {
        assert(zeta(47) == 1915 && zeta(15) == 1746 && zeta(32) == 289);
        assert((1746int * 289) % 3329 == 1915);
    }
}

/// The twiddle factors with the indices from 48 up to 63 as products.
#[verifier::rlimit(40)]
proof fn lemma_twiddle_products_from_48(i: int)
    requires
        48 <= i < 64,
    ensures
        zeta(i) == fmul(zeta(i - layer_groups(i)), zeta(layer_groups(i))),
{
    if i == 48 {
        assert(zeta(48) == 2319 && zeta(16) == 296 && zeta(32) == 289);
        assert((296int * 289) % 3329 == 2319);
    } else if i == 49 {
        assert(zeta(49) == 1435 && zeta(17) == 2447 && zeta(32) == 289);
        assert((2447int * 289) % 3329 == 1435);
    } else if i == 50 {
        assert(zeta(50) == 807 && zeta(18) == 1339 && zeta(32) == 289);
        assert((1339int * 289) % 3329 == 807);
    } else if i == 51 {
        assert(zeta(51) == 452 && zeta(19) == 1476 && zeta(32) == 289);
        assert((1476int * 289) % 3329 == 452);
    } else if i == 52 {
        assert(zeta(52) == 1438 && zeta(20) == 3046 && zeta(32) == 289);
        assert((3046int * 289) % 3329 == 1438);
    } else if i == 53 {
        assert(zeta(53) == 2868 && zeta(21) == 56 && zeta(32) == 289);
        assert((56int * 289) % 3329 == 2868);
    } else if i == 54 {
        assert(zeta(54) == 1534 && zeta(22) == 2240 && zeta(32) == 289);
        assert((2240int * 289) % 3329 == 1534);
    } else if i == 55 {
        assert(zeta(55) == 2402 && zeta(23) == 1333 && zeta(32) == 289);
        assert((1333int * 289) % 3329 == 2402);
    } else if i == 56 {
        assert(zeta(56) == 2647 && zeta(24) == 1426 && zeta(32) == 289);
        assert((1426int * 289) % 3329 == 2647);
    } else if i == 57 {
        assert(zeta(57) == 2617 && zeta(25) == 2094 && zeta(32) == 289);
        assert((2094int * 289) % 3329 == 2617);
    } else if i == 58 {
        assert(zeta(58) == 1481 && zeta(26) == 535 && zeta(32) == 289);
        assert((535int * 289) % 3329 == 1481);
    } else if i == 59 {
        assert(zeta(59) == 648 && zeta(27) == 2882 && zeta(32) == 289);
        assert((2882int * 289) % 3329 == 648);
    } else if i == 60 {
        assert(zeta(60) == 2474 && zeta(28) == 2393 && zeta(32) == 289);
        assert((2393int * 289) % 3329 == 2474);
    } else if i == 61 {
        assert(zeta(61) == 3110 && zeta(29) == 2879 && zeta(32) == 289);
        assert((2879int * 289) % 3329 == 3110);
    } else if i == 62 {
        assert(zeta(62) == 1227 && zeta(30) == 1974 && zeta(32) == 289);
        assert((1974int * 289) % 3329 == 1227);
    } else if i == 63 {
        assert(zeta(63) == 910 && zeta(31) == 821 && zeta(32) == 289);
        assert((821int * 289) % 3329 == 910);
    }
}

/// The twiddle factors with the indices from 64 up to 79 as products.
#[verifier::rlimit(40)]
proof fn lemma_twiddle_products_from_64(i: int)
    requires
        64 <= i < 80,
    ensures
        zeta(i) == fmul(zeta(i - layer_groups(i)), zeta(layer_groups(i))),
{
    if i == 64 {
        assert(zeta(64) == 17 && zeta(0) == 1 && zeta(64) == 17);
        assert((1int * 17) % 3329 == 17);
    } else if i == 65 {
        assert(zeta(65) == 2761 && zeta(1) == 1729 && zeta(64) == 17);
        assert((1729int * 17) % 3329 == 2761);
    } else if i == 66 {
        assert(zeta(66) == 583 && zeta(2) == 2580 && zeta(64) == 17);
        assert((2580int * 17) % 3329 == 583);
    } else if i == 67 {
        assert(zeta(67) == 2649 && zeta(3) == 3289 && zeta(64) == 17);
        assert((3289int * 17) % 3329 == 2649);
    } else if i == 68 {
        assert(zeta(68) == 1637 && zeta(4) == 2642 && zeta(64) == 17);
        assert((2642int * 17) % 3329 == 1637);
    } else if i == 69 {
        assert(zeta(69) == 723 && zeta(5) == 630 && zeta(64) == 17);
        assert((630int * 17) % 3329 == 723);
    } else if i == 70 {
        assert(zeta(70) == 2288 && zeta(6) == 1897 && zeta(64) == 17);
        assert((1897int * 17) % 3329 == 2288);
    } else if i == 71 {
        assert(zeta(71) == 1100 && zeta(7) == 848 && zeta(64) == 17);
        assert((848int * 17) % 3329 == 1100);
    } else if i == 72 {
        assert(zeta(72) == 1409 && zeta(8) == 1062 && zeta(64) == 17);
        assert((1062int * 17) % 3329 == 1409);
    } else if i == 73 {
        assert(zeta(73) == 2662 && zeta(9) == 1919 && zeta(64) == 17);
        assert((1919int * 17) % 3329 == 2662);
    } else if i == 74 {
        assert(zeta(74) == 3281 && zeta(10) == 193 && zeta(64) == 17);
        assert((193int * 17) % 3329 == 3281);
    } else if i == 75 {
        assert(zeta(75) == 233 && zeta(11) == 797 && zeta(64) == 17);
        assert((797int * 17) % 3329 == 233);
    } else if i == 76 {
        assert(zeta(76) == 756 && zeta(12) == 2786 && zeta(64) == 17);
        assert((2786int * 17) % 3329 == 756);
    } else if i == 77 {
        assert(zeta(77) == 2156 && zeta(13) == 3260 && zeta(64) == 17);
        assert((3260int * 17) % 3329 == 2156);
    } else if i == 78 {
        assert(zeta(78) == 3015 && zeta(14) == 569 && zeta(64) == 17);
        assert((569int * 17) % 3329 == 3015);
    } else if i == 79 {
        assert(zeta(79) == 3050 && zeta(15) == 1746 && zeta(64) == 17);
        assert((1746int * 17) % 3329 == 3050);
    }
}

/// The twiddle factors with the indices from 80 up to 95 as products.
#[verifier::rlimit(40)]
proof fn lemma_twiddle_products_from_80(i: int)
    requires
        80 <= i < 96,
    ensures
        zeta(i) == fmul(zeta(i - layer_groups(i)), zeta(layer_groups(i))),
{
    if i == 80 {
        assert(zeta(80) == 1703 && zeta(16) == 296 && zeta(64) == 17);
        assert((296int * 17) % 3329 == 1703);
    } else if i == 81 {
        assert(zeta(81) == 1651 && zeta(17) == 2447 && zeta(64) == 17);
        assert((2447int * 17) % 3329 == 1651);
    } else if i == 82 {
        assert(zeta(82) == 2789 && zeta(18) == 1339 && zeta(64) == 17);
        assert((1339int * 17) % 3329 == 2789);
    } else if i == 83 {
        assert(zeta(83) == 1789 && zeta(19) == 1476 && zeta(64) == 17);
        assert((1476int * 17) % 3329 == 1789);
    } else if i == 84 {
        assert(zeta(84) == 1847 && zeta(20) == 3046 && zeta(64) == 17);
        assert((3046int * 17) % 3329 == 1847);
    } else if i == 85 {
        assert(zeta(85) == 952 && zeta(21) == 56 && zeta(64) == 17);
        assert((56int * 17) % 3329 == 952);
    } else if i == 86 {
        assert(zeta(86) == 1461 && zeta(22) == 2240 && zeta(64) == 17);
        assert((2240int * 17) % 3329 == 1461);
    } else if i == 87 {
        assert(zeta(87) == 2687 && zeta(23) == 1333 && zeta(64) == 17);
        assert((1333int * 17) % 3329 == 2687);
    } else if i == 88 {
        assert(zeta(88) == 939 && zeta(24) == 1426 && zeta(64) == 17);
        assert((1426int * 17) % 3329 == 939);
    } else if i == 89 {
        assert(zeta(89) == 2308 && zeta(25) == 2094 && zeta(64) == 17);
        assert((2094int * 17) % 3329 == 2308);
    } else if i == 90 {
        assert(zeta(90) == 2437 && zeta(26) == 535 && zeta(64) == 17);
        assert((535int * 17) % 3329 == 2437);
    } else if i == 91 {
        assert(zeta(91) == 2388 && zeta(27) == 2882 && zeta(64) == 17);
        assert((2882int * 17) % 3329 == 2388);
    } else if i == 92 {
        assert(zeta(92) == 733 && zeta(28) == 2393 && zeta(64) == 17);
        assert((2393int * 17) % 3329 == 733);
    } else if i == 93 {
        assert(zeta(93) == 2337 && zeta(29) == 2879 && zeta(64) == 17);
        assert((2879int * 17) % 3329 == 2337);
    } else if i == 94 {
        assert(zeta(94) == 268 && zeta(30) == 1974 && zeta(64) == 17);
        assert((1974int * 17) % 3329 == 268);
    } else if i == 95 {
        assert(zeta(95) == 641 && zeta(31) == 821 && zeta(64) == 17);
        assert((821int * 17) % 3329 == 641);
    }
}

/// The twiddle factors with the indices from 96 up to 111 as products.
#[verifier::rlimit(40)]
proof fn lemma_twiddle_products_from_96(i: int)
    requires
        96 <= i < 112,
    ensures
        zeta(i) == fmul(zeta(i - layer_groups(i)), zeta(layer_groups(i))),
{
    if i == 96 {
        assert(zeta(96) == 1584 && zeta(32) == 289 && zeta(64) == 17);
        assert((289int * 17) % 3329 == 1584);
    } else if i == 97 {
        assert(zeta(97) == 2298 && zeta(33) == 331 && zeta(64) == 17);
        assert((331int * 17) % 3329 == 2298);
    } else if i == 98 {
        assert(zeta(98) == 2037 && zeta(34) == 3253 && zeta(64) == 17);
        assert((3253int * 17) % 3329 == 2037);
    } else if i == 99 {
        assert(zeta(99) == 3220 && zeta(35) == 1756 && zeta(64) == 17);
        assert((1756int * 17) % 3329 == 3220);
    } else if i == 100 {
        assert(zeta(100) == 375 && zeta(36) == 1197 && zeta(64) == 17);
        assert((1197int * 17) % 3329 == 375);
    } else if i == 101 {
        assert(zeta(101) == 2549 && zeta(37) == 2304 && zeta(64) == 17);
        assert((2304int * 17) % 3329 == 2549);
    } else if i == 102 {
        assert(zeta(102) == 2090 && zeta(38) == 2277 && zeta(64) == 17);
        assert((2277int * 17) % 3329 == 2090);
    } else if i == 103 {
        assert(zeta(103) == 1645 && zeta(39) == 2055 && zeta(64) == 17);
        assert((2055int * 17) % 3329 == 1645);
    } else if i == 104 {
        assert(zeta(104) == 1063 && zeta(40) == 650 && zeta(64) == 17);
        assert((650int * 17) % 3329 == 1063);
    } else if i == 105 {
        assert(zeta(105) == 319 && zeta(41) == 1977 && zeta(64) == 17);
        assert((1977int * 17) % 3329 == 319);
    } else if i == 106 {
        assert(zeta(106) == 2773 && zeta(42) == 2513 && zeta(64) == 17);
        assert((2513int * 17) % 3329 == 2773);
    } else if i == 107 {
        assert(zeta(107) == 757 && zeta(43) == 632 && zeta(64) == 17);
        assert((632int * 17) % 3329 == 757);
    } else if i == 108 {
        assert(zeta(108) == 2099 && zeta(44) == 2865 && zeta(64) == 17);
        assert((2865int * 17) % 3329 == 2099);
    } else if i == 109 {
        assert(zeta(109) == 561 && zeta(45) == 33 && zeta(64) == 17);
        assert((33int * 17) % 3329 == 561);
    } else if i == 110 {
        assert(zeta(110) == 2466 && zeta(46) == 1320 && zeta(64) == 17);
        assert((1320int * 17) % 3329 == 2466);
    } else if i == 111 {
        assert(zeta(111) == 2594 && zeta(47) == 1915 && zeta(64) == 17);
        assert((1915int * 17) % 3329 == 2594);
    }
}

/// The twiddle factors with the indices from 112 up to 127 as products.
#[verifier::rlimit(40)]
proof fn lemma_twiddle_products_from_112(i: int)
    requires
        112 <= i < 128,
    ensures
        zeta(i) == fmul(zeta(i - layer_groups(i)), zeta(layer_groups(i))),
{
    if i == 112 {
        assert(zeta(112) == 2804 && zeta(48) == 2319 && zeta(64) == 17);
        assert((2319int * 17) % 3329 == 2804);
    } else if i == 113 {
        assert(zeta(113) == 1092 && zeta(49) == 1435 && zeta(64) == 17);
        assert((1435int * 17) % 3329 == 1092);
    } else if i == 114 {
        assert(zeta(114) == 403 && zeta(50) == 807 && zeta(64) == 17);
        assert((807int * 17) % 3329 == 403);
    } else if i == 115 {
        assert(zeta(115) == 1026 && zeta(51) == 452 && zeta(64) == 17);
        assert((452int * 17) % 3329 == 1026);
    } else if i == 116 {
        assert(zeta(116) == 1143 && zeta(52) == 1438 && zeta(64) == 17);
        assert((1438int * 17) % 3329 == 1143);
    } else if i == 117 {
        assert(zeta(117) == 2150 && zeta(53) == 2868 && zeta(64) == 17);
        assert((2868int * 17) % 3329 == 2150);
    } else if i == 118 {
        assert(zeta(118) == 2775 && zeta(54) == 1534 && zeta(64) == 17);
        assert((1534int * 17) % 3329 == 2775);
    } else if i == 119 {
        assert(zeta(119) == 886 && zeta(55) == 2402 && zeta(64) == 17);
        assert((2402int * 17) % 3329 == 886);
    } else if i == 120 {
        assert(zeta(120) == 1722 && zeta(56) == 2647 && zeta(64) == 17);
        assert((2647int * 17) % 3329 == 1722);
    } else if i == 121 {
        assert(zeta(121) == 1212 && zeta(57) == 2617 && zeta(64) == 17);
        assert((2617int * 17) % 3329 == 1212);
    } else if i == 122 {
        assert(zeta(122) == 1874 && zeta(58) == 1481 && zeta(64) == 17);
        assert((1481int * 17) % 3329 == 1874);
    } else if i == 123 {
        assert(zeta(123) == 1029 && zeta(59) == 648 && zeta(64) == 17);
        assert((648int * 17) % 3329 == 1029);
    } else if i == 124 {
        assert(zeta(124) == 2110 && zeta(60) == 2474 && zeta(64) == 17);
        assert((2474int * 17) % 3329 == 2110);
    } else if i == 125 {
        assert(zeta(125) == 2935 && zeta(61) == 3110 && zeta(64) == 17);
        assert((3110int * 17) % 3329 == 2935);
    } else if i == 126 {
        assert(zeta(126) == 885 && zeta(62) == 1227 && zeta(64) == 17);
        assert((1227int * 17) % 3329 == 885);
    } else if i == 127 {
        assert(zeta(127) == 2154 && zeta(63) == 910 && zeta(64) == 17);
        assert((910int * 17) % 3329 == 2154);
    }
}

/// Each twiddle factor is the product of the factor whose index lacks the
/// leading binary digit and the factor whose index is that digit alone.
pub proof fn lemma_twiddle_product(i: int)
    requires
        1 <= i < 128,
    ensures
        zeta(i) == fmul(zeta(i - layer_groups(i)), zeta(layer_groups(i))),
{
    if i < 16 {
        lemma_twiddle_products_from_1(i);
    } else if i < 32 {
        lemma_twiddle_products_from_16(i);
    } else if i < 48 {
        lemma_twiddle_products_from_32(i);
    } else if i < 64 {
        lemma_twiddle_products_from_48(i);
    } else if i < 80 {
        lemma_twiddle_products_from_64(i);
    } else if i < 96 {
        lemma_twiddle_products_from_80(i);
    } else if i < 112 {
        lemma_twiddle_products_from_96(i);
    } else {
        lemma_twiddle_products_from_112(i);
    }
}

/// The seven binary digits of `i` in reverse order.
pub open spec fn bit_reverse7(i: int) -> int {
    64 * (i % 2) + 32 * (i / 2 % 2) + 16 * (i / 4 % 2) + 8 * (i / 8 % 2) + 4 * (i / 16 % 2) + 2 * (
    i / 32 % 2) + i / 64 % 2
}

/// A power with a sum as its exponent is the product of the powers.
pub proof fn lemma_fpow_adds(b: int, x: nat, y: nat)
    ensures
        fpow(b, x + y) == fmul(fpow(b, x), fpow(b, y)),
{
    lemma_pow_adds(b, x, y);
    lemma_mul_mod_noop_general(pow(b, x), pow(b, y), 3329);
}

/// The twiddle factor whose index is a power of two `g` is 17 to the power
/// `64 / g`.
proof fn lemma_zeta_of_power_of_two(g: int)
    requires
        g == 1 || g == 2 || g == 4 || g == 8 || g == 16 || g == 32 || g == 64,
    ensures
        zeta(g) == fpow(17, (64int / g) as nat),
    decreases 64 - g,
{
    if g == 64 {
        lemma_pow1(17);
        assert(zeta(64) == 17);
        lemma_small_mod(17, 3329);
    } else {
        lemma_zeta_of_power_of_two(2 * g);
        lemma_twiddle_squares(g);
        let e = (64int / (2 * g)) as nat;
        lemma_fpow_adds(17, e, e);
        assert(e + e == 64int / g);
    }
}

/// The bit reversal of an index is that of the index without its leading
/// binary digit `g`, plus `64 / g`.
#[verifier::rlimit(40)]
proof fn lemma_bit_reverse_leading(i: int)
    requires
        1 <= i < 128,
    ensures
        bit_reverse7(i) == bit_reverse7(i - layer_groups(i)) + 64int / layer_groups(i),
        0 <= i - layer_groups(i) < i,
        0 <= bit_reverse7(i - layer_groups(i)),
        layer_groups(i) == 1 || layer_groups(i) == 2 || layer_groups(i) == 4 || layer_groups(i)
            == 8 || layer_groups(i) == 16 || layer_groups(i) == 32 || layer_groups(i) == 64,
        64int / layer_groups(i) >= 1,
{
    let x: u32 = i as u32;
    let r: u32 = (i - layer_groups(i)) as u32;
    if i < 2 {
        assert(x % 2 == 1 && r % 2 == 0 && x / 2 % 2 == 0 && r / 2 % 2 == 0 && x / 4 % 2 == 0
            && r / 4 % 2 == 0 && x / 8 % 2 == 0 && r / 8 % 2 == 0 && x / 16 % 2 == 0
            && r / 16 % 2 == 0 && x / 32 % 2 == 0 && r / 32 % 2 == 0 && x / 64 % 2 == 0
            && r / 64 % 2 == 0) by (bit_vector)
            requires
                1 <= x < 2,
                r == x - 1,
        ;
        assert(64int / 1 == 64);
    } else if i < 4 {
        assert(x % 2 == r % 2 && x / 2 % 2 == 1 && r / 2 % 2 == 0 && x / 4 % 2 == 0
            && r / 4 % 2 == 0 && x / 8 % 2 == 0 && r / 8 % 2 == 0 && x / 16 % 2 == 0
            && r / 16 % 2 == 0 && x / 32 % 2 == 0 && r / 32 % 2 == 0 && x / 64 % 2 == 0
            && r / 64 % 2 == 0) by (bit_vector)
            requires
                2 <= x < 4,
                r == x - 2,
        ;
        assert(64int / 2 == 32);
    } else if i < 8 {
        assert(x % 2 == r % 2 && x / 2 % 2 == r / 2 % 2 && x / 4 % 2 == 1 && r / 4 % 2 == 0
            && x / 8 % 2 == 0 && r / 8 % 2 == 0 && x / 16 % 2 == 0 && r / 16 % 2 == 0
            && x / 32 % 2 == 0 && r / 32 % 2 == 0 && x / 64 % 2 == 0 && r / 64 % 2 == 0) by (bit_vector)
            requires
                4 <= x < 8,
                r == x - 4,
        ;
        assert(64int / 4 == 16);
    } else if i < 16 {
        assert(x % 2 == r % 2 && x / 2 % 2 == r / 2 % 2 && x / 4 % 2 == r / 4 % 2
            && x / 8 % 2 == 1 && r / 8 % 2 == 0 && x / 16 % 2 == 0 && r / 16 % 2 == 0
            && x / 32 % 2 == 0 && r / 32 % 2 == 0 && x / 64 % 2 == 0 && r / 64 % 2 == 0) by (bit_vector)
            requires
                8 <= x < 16,
                r == x - 8,
        ;
        assert(64int / 8 == 8);
    } else if i < 32 {
        assert(x % 2 == r % 2 && x / 2 % 2 == r / 2 % 2 && x / 4 % 2 == r / 4 % 2
            && x / 8 % 2 == r / 8 % 2 && x / 16 % 2 == 1 && r / 16 % 2 == 0
            && x / 32 % 2 == 0 && r / 32 % 2 == 0 && x / 64 % 2 == 0 && r / 64 % 2 == 0) by (bit_vector)
            requires
                16 <= x < 32,
                r == x - 16,
        ;
        assert(64int / 16 == 4);
    } else if i < 64 {
        assert(x % 2 == r % 2 && x / 2 % 2 == r / 2 % 2 && x / 4 % 2 == r / 4 % 2
            && x / 8 % 2 == r / 8 % 2 && x / 16 % 2 == r / 16 % 2 && x / 32 % 2 == 1
            && r / 32 % 2 == 0 && x / 64 % 2 == 0 && r / 64 % 2 == 0) by (bit_vector)
            requires
                32 <= x < 64,
                r == x - 32,
        ;
        assert(64int / 32 == 2);
    } else {
        assert(x % 2 == r % 2 && x / 2 % 2 == r / 2 % 2 && x / 4 % 2 == r / 4 % 2
            && x / 8 % 2 == r / 8 % 2 && x / 16 % 2 == r / 16 % 2 && x / 32 % 2 == r / 32 % 2
            && x / 64 % 2 == 1 && r / 64 % 2 == 0) by (bit_vector)
            requires
                64 <= x < 128,
                r == x - 64,
        ;
        assert(64int / 64 == 1);
    }
}

/// The bit reversals of `64 + m`, `2 m` and `2 m + 1` in terms of that of
/// `m`, which is even.
#[verifier::rlimit(40)]
proof fn lemma_bit_reverse_doubled(m: int)
    requires
        0 <= m < 64,
    ensures
        0 <= bit_reverse7(m),
        bit_reverse7(64 + m) == bit_reverse7(m) + 1,
        2 * bit_reverse7(2 * m) == bit_reverse7(m),
        bit_reverse7(2 * m + 1) == bit_reverse7(2 * m) + 64,
{
    let d = 2 * m;
    let o = 2 * m + 1;
    let t = 64 + m;
    assert(m / 64 % 2 == 0);
    assert(d % 2 == 0 && o % 2 == 1);
    assert(d / 2 == m && o / 2 == m);
    assert(d / 4 == m / 2 && o / 4 == m / 2);
    assert(d / 8 == m / 4 && o / 8 == m / 4);
    assert(d / 16 == m / 8 && o / 16 == m / 8);
    assert(d / 32 == m / 16 && o / 32 == m / 16);
    assert(d / 64 == m / 32 && o / 64 == m / 32);
    assert(t % 2 == m % 2);
    assert(t / 2 % 2 == m / 2 % 2);
    assert(t / 4 % 2 == m / 4 % 2);
    assert(t / 8 % 2 == m / 8 % 2);
    assert(t / 16 % 2 == m / 16 % 2);
    assert(t / 32 % 2 == m / 32 % 2);
    assert(t / 64 % 2 == 1);
}

/// Entry `i` of the table of twiddle factors is 17 to the power of the bit
/// reversal of `i`.
#[verifier::rlimit(40)]
pub proof fn lemma_zeta_is_power(i: int)
    requires
        0 <= i < 128,
    ensures
        zeta(i) == fpow(17, bit_reverse7(i) as nat),
    decreases i,
{
    if i == 0 {
        lemma_pow0(17);
        assert(zeta(0) == 1);
        lemma_small_mod(1, 3329);
    } else {
        let g = layer_groups(i);
        let r = i - g;
        lemma_bit_reverse_leading(i);
        lemma_twiddle_product(i);
        lemma_zeta_of_power_of_two(g);
        lemma_zeta_is_power(r);
        lemma_fpow_adds(17, bit_reverse7(r) as nat, (64int / g) as nat);
    }
}

/// 17 to the power 128 is -1.
pub proof fn lemma_half_turn()
    ensures
        fpow(17, 128) == 3328,
{
    lemma_zeta_of_power_of_two(1);
    lemma_fpow_adds(17, 64, 64);
    assert(zeta(1) == 1729);
    assert((1729int * 1729) % 3329 == 3328);
}

/// Entry `i` of the table of factor constants is 17 to the power of twice
/// the bit reversal of `i`, plus one.
#[verifier::rlimit(40)]
pub proof fn lemma_gamma_is_power(i: int)
    requires
        0 <= i < 128,
    ensures
        gamma(i) == fpow(17, (2 * bit_reverse7(i) + 1) as nat),
{
    let m = i / 2;
    lemma_factor_constants(m);
    lemma_zeta_is_power(64 + m);
    lemma_bit_reverse_doubled(m);
    if i % 2 == 0 {
        assert(i == 2 * m);
    } else {
        assert(i == 2 * m + 1);
        let e = (bit_reverse7(m) + 1) as nat;
        lemma_fpow_adds(17, e, 128);
        lemma_half_turn();
        // -z = z * (-1)
        let z = fpow(17, e);
        assert(z * 3328 == 3329 * z + (0 - z));
        vstd::arithmetic::div_mod::lemma_mod_multiples_vanish(z, 0 - z, 3329);
    }
}

} // verus!
