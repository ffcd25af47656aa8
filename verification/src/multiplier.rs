//! The reciprocal table that sets the predictor's learning rate.

use vstd::prelude::*;

verus! {

/// Fixed-point reciprocals: entry `i` is `2^32 / (i + 2)`, rounded down.
pub const MULTIPLIER: [u32; 256] = [
    0x80000000, 0x55555555, 0x40000000, 0x33333333, 0x2AAAAAAA, 0x24924924, 0x20000000, 0x1C71C71C,
    0x19999999, 0x1745D174, 0x15555555, 0x13B13B13, 0x12492492, 0x11111111, 0x10000000, 0x0F0F0F0F,
    0x0E38E38E, 0x0D79435E, 0x0CCCCCCC, 0x0C30C30C, 0x0BA2E8BA, 0x0B21642C, 0x0AAAAAAA, 0x0A3D70A3,
    0x09D89D89, 0x097B425E, 0x09249249, 0x08D3DCB0, 0x08888888, 0x08421084, 0x08000000, 0x07C1F07C,
    0x07878787, 0x07507507, 0x071C71C7, 0x06EB3E45, 0x06BCA1AF, 0x06906906, 0x06666666, 0x063E7063,
    0x06186186, 0x05F417D0, 0x05D1745D, 0x05B05B05, 0x0590B216, 0x0572620A, 0x05555555, 0x05397829,
    0x051EB851, 0x05050505, 0x04EC4EC4, 0x04D4873E, 0x04BDA12F, 0x04A7904A, 0x04924924, 0x047DC11F,
    0x0469EE58, 0x0456C797, 0x04444444, 0x04325C53, 0x04210842, 0x04104104, 0x04000000, 0x03F03F03,
    0x03E0F83E, 0x03D22635, 0x03C3C3C3, 0x03B5CC0E, 0x03A83A83, 0x039B0AD1, 0x038E38E3, 0x0381C0E0,
    0x03759F22, 0x0369D036, 0x035E50D7, 0x03531DEC, 0x03483483, 0x033D91D2, 0x03333333, 0x0329161F,
    0x031F3831, 0x03159721, 0x030C30C3, 0x03030303, 0x02FA0BE8, 0x02F14990, 0x02E8BA2E, 0x02E05C0B,
    0x02D82D82, 0x02D02D02, 0x02C8590B, 0x02C0B02C, 0x02B93105, 0x02B1DA46, 0x02AAAAAA, 0x02A3A0FD,
    0x029CBC14, 0x0295FAD4, 0x028F5C28, 0x0288DF0C, 0x02828282, 0x027C4597, 0x02762762, 0x02702702,
    0x026A439F, 0x02647C69, 0x025ED097, 0x02593F69, 0x0253C825, 0x024E6A17, 0x02492492, 0x0243F6F0,
    0x023EE08F, 0x0239E0D5, 0x0234F72C, 0x02302302, 0x022B63CB, 0x0226B902, 0x02222222, 0x021D9EAD,
    0x02192E29, 0x0214D021, 0x02108421, 0x020C49BA, 0x02082082, 0x02040810, 0x02000000, 0x01FC07F0,
    0x01F81F81, 0x01F44659, 0x01F07C1F, 0x01ECC07B, 0x01E9131A, 0x01E573AC, 0x01E1E1E1, 0x01DE5D6E,
    0x01DAE607, 0x01D77B65, 0x01D41D41, 0x01D0CB58, 0x01CD8568, 0x01CA4B30, 0x01C71C71, 0x01C3F8F0,
    0x01C0E070, 0x01BDD2B8, 0x01BACF91, 0x01B7D6C3, 0x01B4E81B, 0x01B20364, 0x01AF286B, 0x01AC5701,
    0x01A98EF6, 0x01A6D01A, 0x01A41A41, 0x01A16D3F, 0x019EC8E9, 0x019C2D14, 0x01999999, 0x01970E4F,
    0x01948B0F, 0x01920FB4, 0x018F9C18, 0x018D3018, 0x018ACB90, 0x01886E5F, 0x01861861, 0x0183C977,
    0x01818181, 0x017F405F, 0x017D05F4, 0x017AD220, 0x0178A4C8, 0x01767DCE, 0x01745D17, 0x01724287,
    0x01702E05, 0x016E1F76, 0x016C16C1, 0x016A13CD, 0x01681681, 0x01661EC6, 0x01642C85, 0x01623FA7,
    0x01605816, 0x015E75BB, 0x015C9882, 0x015AC056, 0x0158ED23, 0x01571ED3, 0x01555555, 0x01539094,
    0x0151D07E, 0x01501501, 0x014E5E0A, 0x014CAB88, 0x014AFD6A, 0x0149539E, 0x0147AE14, 0x01460CBC,
    0x01446F86, 0x0142D662, 0x01414141, 0x013FB013, 0x013E22CB, 0x013C995A, 0x013B13B1, 0x013991C2,
    0x01381381, 0x013698DF, 0x013521CF, 0x0133AE45, 0x01323E34, 0x0130D190, 0x012F684B, 0x012E025C,
    0x012C9FB4, 0x012B404A, 0x0129E412, 0x01288B01, 0x0127350B, 0x0125E227, 0x01249249, 0x01234567,
    0x0121FB78, 0x0120B470, 0x011F7047, 0x011E2EF3, 0x011CF06A, 0x011BB4A4, 0x011A7B96, 0x01194538,
    0x01181181, 0x0116E068, 0x0115B1E5, 0x011485F0, 0x01135C81, 0x0112358E, 0x01111111, 0x010FEF01,
    0x010ECF56, 0x010DB20A, 0x010C9714, 0x010B7E6E, 0x010A6810, 0x010953F3, 0x01084210, 0x01073260,
    0x010624DD, 0x0105197F, 0x01041041, 0x0103091B, 0x01020408, 0x01010101, 0x01000000, 0x00FF00FF,
];

/// The learning rate, in units of `2^-32`, of a predictor that has seen `count` bits.
pub open spec fn multiplier(count: int) -> int {
    0x1_0000_0000int / (count + 2)
}

/// The learning rate never exceeds one half and never reaches zero.
pub proof fn lemma_multiplier_bounds(count: int)
    requires
        0 <= count <= 255,
    ensures
        0x00FF_00FF <= multiplier(count) <= 0x8000_0000,
{
    assert(0x00FF_00FF <= 0x1_0000_0000int / (count + 2) <= 0x8000_0000) by (nonlinear_arith)
        requires
            0 <= count <= 255,
    ;
}

/// Looks the learning rate up in the table.
pub fn multiplier_of(count: u8) -> (m: u32)
    ensures
        m == multiplier(count as int),
{
    proof {
        lemma_table_is_reciprocal(count as int);
    }
    MULTIPLIER[count as usize]
}

/// Entry `i` of the table is the reciprocal of `i + 2`, rounded down.
pub open spec fn is_reciprocal(i: int) -> bool {
    MULTIPLIER@[i] == multiplier(i)
}

/// Every table entry is the rounded-down reciprocal of its index plus two.
pub proof fn lemma_table_is_reciprocal(i: int)
    requires
        0 <= i < 256,
    ensures
        is_reciprocal(i),
{
    assert(is_reciprocal(0) && is_reciprocal(1) && is_reciprocal(2) && is_reciprocal(3)
        && is_reciprocal(4) && is_reciprocal(5) && is_reciprocal(6) && is_reciprocal(7)
        && is_reciprocal(8) && is_reciprocal(9) && is_reciprocal(10) && is_reciprocal(11)
        && is_reciprocal(12) && is_reciprocal(13) && is_reciprocal(14) && is_reciprocal(15));
    assert(is_reciprocal(16) && is_reciprocal(17) && is_reciprocal(18) && is_reciprocal(19)
        && is_reciprocal(20) && is_reciprocal(21) && is_reciprocal(22) && is_reciprocal(23)
        && is_reciprocal(24) && is_reciprocal(25) && is_reciprocal(26) && is_reciprocal(27)
        && is_reciprocal(28) && is_reciprocal(29) && is_reciprocal(30) && is_reciprocal(31));
    assert(is_reciprocal(32) && is_reciprocal(33) && is_reciprocal(34) && is_reciprocal(35)
        && is_reciprocal(36) && is_reciprocal(37) && is_reciprocal(38) && is_reciprocal(39)
        && is_reciprocal(40) && is_reciprocal(41) && is_reciprocal(42) && is_reciprocal(43)
        && is_reciprocal(44) && is_reciprocal(45) && is_reciprocal(46) && is_reciprocal(47));
    assert(is_reciprocal(48) && is_reciprocal(49) && is_reciprocal(50) && is_reciprocal(51)
        && is_reciprocal(52) && is_reciprocal(53) && is_reciprocal(54) && is_reciprocal(55)
        && is_reciprocal(56) && is_reciprocal(57) && is_reciprocal(58) && is_reciprocal(59)
        && is_reciprocal(60) && is_reciprocal(61) && is_reciprocal(62) && is_reciprocal(63));
    assert(is_reciprocal(64) && is_reciprocal(65) && is_reciprocal(66) && is_reciprocal(67)
        && is_reciprocal(68) && is_reciprocal(69) && is_reciprocal(70) && is_reciprocal(71)
        && is_reciprocal(72) && is_reciprocal(73) && is_reciprocal(74) && is_reciprocal(75)
        && is_reciprocal(76) && is_reciprocal(77) && is_reciprocal(78) && is_reciprocal(79));
    assert(is_reciprocal(80) && is_reciprocal(81) && is_reciprocal(82) && is_reciprocal(83)
        && is_reciprocal(84) && is_reciprocal(85) && is_reciprocal(86) && is_reciprocal(87)
        && is_reciprocal(88) && is_reciprocal(89) && is_reciprocal(90) && is_reciprocal(91)
        && is_reciprocal(92) && is_reciprocal(93) && is_reciprocal(94) && is_reciprocal(95));
    assert(is_reciprocal(96) && is_reciprocal(97) && is_reciprocal(98) && is_reciprocal(99)
        && is_reciprocal(100) && is_reciprocal(101) && is_reciprocal(102) && is_reciprocal(103)
        && is_reciprocal(104) && is_reciprocal(105) && is_reciprocal(106) && is_reciprocal(107)
        && is_reciprocal(108) && is_reciprocal(109) && is_reciprocal(110) && is_reciprocal(111));
    assert(is_reciprocal(112) && is_reciprocal(113) && is_reciprocal(114) && is_reciprocal(115)
        && is_reciprocal(116) && is_reciprocal(117) && is_reciprocal(118) && is_reciprocal(119)
        && is_reciprocal(120) && is_reciprocal(121) && is_reciprocal(122) && is_reciprocal(123)
        && is_reciprocal(124) && is_reciprocal(125) && is_reciprocal(126) && is_reciprocal(127));
    assert(is_reciprocal(128) && is_reciprocal(129) && is_reciprocal(130) && is_reciprocal(131)
        && is_reciprocal(132) && is_reciprocal(133) && is_reciprocal(134) && is_reciprocal(135)
        && is_reciprocal(136) && is_reciprocal(137) && is_reciprocal(138) && is_reciprocal(139)
        && is_reciprocal(140) && is_reciprocal(141) && is_reciprocal(142) && is_reciprocal(143));
    assert(is_reciprocal(144) && is_reciprocal(145) && is_reciprocal(146) && is_reciprocal(147)
        && is_reciprocal(148) && is_reciprocal(149) && is_reciprocal(150) && is_reciprocal(151)
        && is_reciprocal(152) && is_reciprocal(153) && is_reciprocal(154) && is_reciprocal(155)
        && is_reciprocal(156) && is_reciprocal(157) && is_reciprocal(158) && is_reciprocal(159));
    assert(is_reciprocal(160) && is_reciprocal(161) && is_reciprocal(162) && is_reciprocal(163)
        && is_reciprocal(164) && is_reciprocal(165) && is_reciprocal(166) && is_reciprocal(167)
        && is_reciprocal(168) && is_reciprocal(169) && is_reciprocal(170) && is_reciprocal(171)
        && is_reciprocal(172) && is_reciprocal(173) && is_reciprocal(174) && is_reciprocal(175));
    assert(is_reciprocal(176) && is_reciprocal(177) && is_reciprocal(178) && is_reciprocal(179)
        && is_reciprocal(180) && is_reciprocal(181) && is_reciprocal(182) && is_reciprocal(183)
        && is_reciprocal(184) && is_reciprocal(185) && is_reciprocal(186) && is_reciprocal(187)
        && is_reciprocal(188) && is_reciprocal(189) && is_reciprocal(190) && is_reciprocal(191));
    assert(is_reciprocal(192) && is_reciprocal(193) && is_reciprocal(194) && is_reciprocal(195)
        && is_reciprocal(196) && is_reciprocal(197) && is_reciprocal(198) && is_reciprocal(199)
        && is_reciprocal(200) && is_reciprocal(201) && is_reciprocal(202) && is_reciprocal(203)
        && is_reciprocal(204) && is_reciprocal(205) && is_reciprocal(206) && is_reciprocal(207));
    assert(is_reciprocal(208) && is_reciprocal(209) && is_reciprocal(210) && is_reciprocal(211)
        && is_reciprocal(212) && is_reciprocal(213) && is_reciprocal(214) && is_reciprocal(215)
        && is_reciprocal(216) && is_reciprocal(217) && is_reciprocal(218) && is_reciprocal(219)
        && is_reciprocal(220) && is_reciprocal(221) && is_reciprocal(222) && is_reciprocal(223));
    assert(is_reciprocal(224) && is_reciprocal(225) && is_reciprocal(226) && is_reciprocal(227)
        && is_reciprocal(228) && is_reciprocal(229) && is_reciprocal(230) && is_reciprocal(231)
        && is_reciprocal(232) && is_reciprocal(233) && is_reciprocal(234) && is_reciprocal(235)
        && is_reciprocal(236) && is_reciprocal(237) && is_reciprocal(238) && is_reciprocal(239));
    assert(is_reciprocal(240) && is_reciprocal(241) && is_reciprocal(242) && is_reciprocal(243)
        && is_reciprocal(244) && is_reciprocal(245) && is_reciprocal(246) && is_reciprocal(247)
        && is_reciprocal(248) && is_reciprocal(249) && is_reciprocal(250) && is_reciprocal(251)
        && is_reciprocal(252) && is_reciprocal(253) && is_reciprocal(254) && is_reciprocal(255));
}

} // verus!

