//! The table of powers of two.
use crate::entropy::EXP2_TABLE;
use vstd::prelude::*;

verus! {

/// 256 times 2^(i/256), in units of 2^-20: each step multiplies by 2^(1/256), which is
/// 1051419 of those units.
pub open spec fn exp2_scaled(i: nat) -> int
    decreases i,
{
    if i == 0 {
        0x1000_0000
    } else {
        exp2_scaled((i - 1) as nat) * 1051419 / 0x10_0000
    }
}

/// Entry `i` is the fraction of 2^(i/256) in 256ths, rounded to the nearest integer.
pub open spec fn is_exp2_entry(i: nat) -> bool {
    256 + EXP2_TABLE@[i as int] == (exp2_scaled(i) + 0x8_0000) / 0x10_0000
}

/// The table of the fractions of 2^(i/256) holds for every `i` what it is a table of.
pub proof fn law_exp2_table(i: nat)
    requires
        i < 256,
    ensures
        256 + EXP2_TABLE@[i as int] == (exp2_scaled(i) + 0x8_0000) / 0x10_0000,
{
    lemma_exp2_entries_0();
    lemma_exp2_entries_16();
    lemma_exp2_entries_32();
    lemma_exp2_entries_48();
    lemma_exp2_entries_64();
    lemma_exp2_entries_80();
    lemma_exp2_entries_96();
    lemma_exp2_entries_112();
    lemma_exp2_entries_128();
    lemma_exp2_entries_144();
    lemma_exp2_entries_160();
    lemma_exp2_entries_176();
    lemma_exp2_entries_192();
    lemma_exp2_entries_208();
    lemma_exp2_entries_224();
    lemma_exp2_entries_240();
    assert(is_exp2_entry(i));
}

/// Entries 0 to 15.
proof fn lemma_exp2_entries_0()
    requires
        exp2_scaled(0) == 268435456,
    ensures
        forall|i: nat| 0 <= i < 16 ==> #[trigger] is_exp2_entry(i),
        exp2_scaled(16) == 280320194,
{
    assert(exp2_scaled(1) == 269163264);
    assert(exp2_scaled(2) == 269893045);
    assert(exp2_scaled(3) == 270624804);
    assert(exp2_scaled(4) == 271358547);
    assert(exp2_scaled(5) == 272094280);
    assert(exp2_scaled(6) == 272832008);
    assert(exp2_scaled(7) == 273571736);
    assert(exp2_scaled(8) == 274313469);
    assert(exp2_scaled(9) == 275057214);
    assert(exp2_scaled(10) == 275802975);
    assert(exp2_scaled(11) == 276550758);
    assert(exp2_scaled(12) == 277300568);
    assert(exp2_scaled(13) == 278052411);
    assert(exp2_scaled(14) == 278806293);
    assert(exp2_scaled(15) == 279562219);
    assert(exp2_scaled(16) == 280320194);
    assert(is_exp2_entry(0));
    assert(is_exp2_entry(1));
    assert(is_exp2_entry(2));
    assert(is_exp2_entry(3));
    assert(is_exp2_entry(4));
    assert(is_exp2_entry(5));
    assert(is_exp2_entry(6));
    assert(is_exp2_entry(7));
    assert(is_exp2_entry(8));
    assert(is_exp2_entry(9));
    assert(is_exp2_entry(10));
    assert(is_exp2_entry(11));
    assert(is_exp2_entry(12));
    assert(is_exp2_entry(13));
    assert(is_exp2_entry(14));
    assert(is_exp2_entry(15));
    assert forall|i: nat| 0 <= i < 16 implies #[trigger] is_exp2_entry(i) by {
        assert(i == 0 || i == 1 || i == 2 || i == 3
            || i == 4 || i == 5 || i == 6 || i == 7
            || i == 8 || i == 9 || i == 10 || i == 11
            || i == 12 || i == 13 || i == 14 || i == 15);
    }
}

/// Entries 16 to 31.
proof fn lemma_exp2_entries_16()
    requires
        exp2_scaled(16) == 280320194,
    ensures
        forall|i: nat| 16 <= i < 32 ==> #[trigger] is_exp2_entry(i),
        exp2_scaled(32) == 292731119,
{
    assert(exp2_scaled(17) == 281080225);
    assert(exp2_scaled(18) == 281842316);
    assert(exp2_scaled(19) == 282606473);
    assert(exp2_scaled(20) == 283372702);
    assert(exp2_scaled(21) == 284141009);
    assert(exp2_scaled(22) == 284911399);
    assert(exp2_scaled(23) == 285683878);
    assert(exp2_scaled(24) == 286458451);
    assert(exp2_scaled(25) == 287235124);
    assert(exp2_scaled(26) == 288013903);
    assert(exp2_scaled(27) == 288794793);
    assert(exp2_scaled(28) == 289577801);
    assert(exp2_scaled(29) == 290362932);
    assert(exp2_scaled(30) == 291150191);
    assert(exp2_scaled(31) == 291939585);
    assert(exp2_scaled(32) == 292731119);
    assert(is_exp2_entry(16));
    assert(is_exp2_entry(17));
    assert(is_exp2_entry(18));
    assert(is_exp2_entry(19));
    assert(is_exp2_entry(20));
    assert(is_exp2_entry(21));
    assert(is_exp2_entry(22));
    assert(is_exp2_entry(23));
    assert(is_exp2_entry(24));
    assert(is_exp2_entry(25));
    assert(is_exp2_entry(26));
    assert(is_exp2_entry(27));
    assert(is_exp2_entry(28));
    assert(is_exp2_entry(29));
    assert(is_exp2_entry(30));
    assert(is_exp2_entry(31));
    assert forall|i: nat| 16 <= i < 32 implies #[trigger] is_exp2_entry(i) by {
        assert(i == 16 || i == 17 || i == 18 || i == 19
            || i == 20 || i == 21 || i == 22 || i == 23
            || i == 24 || i == 25 || i == 26 || i == 27
            || i == 28 || i == 29 || i == 30 || i == 31);
    }
}

/// Entries 32 to 47.
proof fn lemma_exp2_entries_32()
    requires
        exp2_scaled(32) == 292731119,
    ensures
        forall|i: nat| 32 <= i < 48 ==> #[trigger] is_exp2_entry(i),
        exp2_scaled(48) == 305691529,
{
    assert(exp2_scaled(33) == 293524799);
    assert(exp2_scaled(34) == 294320631);
    assert(exp2_scaled(35) == 295118621);
    assert(exp2_scaled(36) == 295918774);
    assert(exp2_scaled(37) == 296721097);
    assert(exp2_scaled(38) == 297525595);
    assert(exp2_scaled(39) == 298332274);
    assert(exp2_scaled(40) == 299141141);
    assert(exp2_scaled(41) == 299952201);
    assert(exp2_scaled(42) == 300765460);
    assert(exp2_scaled(43) == 301580924);
    assert(exp2_scaled(44) == 302398599);
    assert(exp2_scaled(45) == 303218491);
    assert(exp2_scaled(46) == 304040606);
    assert(exp2_scaled(47) == 304864950);
    assert(exp2_scaled(48) == 305691529);
    assert(is_exp2_entry(32));
    assert(is_exp2_entry(33));
    assert(is_exp2_entry(34));
    assert(is_exp2_entry(35));
    assert(is_exp2_entry(36));
    assert(is_exp2_entry(37));
    assert(is_exp2_entry(38));
    assert(is_exp2_entry(39));
    assert(is_exp2_entry(40));
    assert(is_exp2_entry(41));
    assert(is_exp2_entry(42));
    assert(is_exp2_entry(43));
    assert(is_exp2_entry(44));
    assert(is_exp2_entry(45));
    assert(is_exp2_entry(46));
    assert(is_exp2_entry(47));
    assert forall|i: nat| 32 <= i < 48 implies #[trigger] is_exp2_entry(i) by {
        assert(i == 32 || i == 33 || i == 34 || i == 35
            || i == 36 || i == 37 || i == 38 || i == 39
            || i == 40 || i == 41 || i == 42 || i == 43
            || i == 44 || i == 45 || i == 46 || i == 47);
    }
}

/// Entries 48 to 63.
proof fn lemma_exp2_entries_48()
    requires
        exp2_scaled(48) == 305691529,
    ensures
        forall|i: nat| 48 <= i < 64 ==> #[trigger] is_exp2_entry(i),
        exp2_scaled(64) == 319225752,
{
    assert(exp2_scaled(49) == 306520349);
    assert(exp2_scaled(50) == 307351416);
    assert(exp2_scaled(51) == 308184736);
    assert(exp2_scaled(52) == 309020316);
    assert(exp2_scaled(53) == 309858161);
    assert(exp2_scaled(54) == 310698278);
    assert(exp2_scaled(55) == 311540673);
    assert(exp2_scaled(56) == 312385352);
    assert(exp2_scaled(57) == 313232321);
    assert(exp2_scaled(58) == 314081586);
    assert(exp2_scaled(59) == 314933154);
    assert(exp2_scaled(60) == 315787031);
    assert(exp2_scaled(61) == 316643223);
    assert(exp2_scaled(62) == 317501736);
    assert(exp2_scaled(63) == 318362577);
    assert(exp2_scaled(64) == 319225752);
    assert(is_exp2_entry(48));
    assert(is_exp2_entry(49));
    assert(is_exp2_entry(50));
    assert(is_exp2_entry(51));
    assert(is_exp2_entry(52));
    assert(is_exp2_entry(53));
    assert(is_exp2_entry(54));
    assert(is_exp2_entry(55));
    assert(is_exp2_entry(56));
    assert(is_exp2_entry(57));
    assert(is_exp2_entry(58));
    assert(is_exp2_entry(59));
    assert(is_exp2_entry(60));
    assert(is_exp2_entry(61));
    assert(is_exp2_entry(62));
    assert(is_exp2_entry(63));
    assert forall|i: nat| 48 <= i < 64 implies #[trigger] is_exp2_entry(i) by {
        assert(i == 48 || i == 49 || i == 50 || i == 51
            || i == 52 || i == 53 || i == 54 || i == 55
            || i == 56 || i == 57 || i == 58 || i == 59
            || i == 60 || i == 61 || i == 62 || i == 63);
    }
}

/// Entries 64 to 79.
proof fn lemma_exp2_entries_64()
    requires
        exp2_scaled(64) == 319225752,
    ensures
        forall|i: nat| 64 <= i < 80 ==> #[trigger] is_exp2_entry(i),
        exp2_scaled(80) == 333359188,
{
    assert(exp2_scaled(65) == 320091267);
    assert(exp2_scaled(66) == 320959129);
    assert(exp2_scaled(67) == 321829344);
    assert(exp2_scaled(68) == 322701918);
    assert(exp2_scaled(69) == 323576858);
    assert(exp2_scaled(70) == 324454170);
    assert(exp2_scaled(71) == 325333861);
    assert(exp2_scaled(72) == 326215937);
    assert(exp2_scaled(73) == 327100404);
    assert(exp2_scaled(74) == 327987270);
    assert(exp2_scaled(75) == 328876540);
    assert(exp2_scaled(76) == 329768221);
    assert(exp2_scaled(77) == 330662320);
    assert(exp2_scaled(78) == 331558843);
    assert(exp2_scaled(79) == 332457797);
    assert(exp2_scaled(80) == 333359188);
    assert(is_exp2_entry(64));
    assert(is_exp2_entry(65));
    assert(is_exp2_entry(66));
    assert(is_exp2_entry(67));
    assert(is_exp2_entry(68));
    assert(is_exp2_entry(69));
    assert(is_exp2_entry(70));
    assert(is_exp2_entry(71));
    assert(is_exp2_entry(72));
    assert(is_exp2_entry(73));
    assert(is_exp2_entry(74));
    assert(is_exp2_entry(75));
    assert(is_exp2_entry(76));
    assert(is_exp2_entry(77));
    assert(is_exp2_entry(78));
    assert(is_exp2_entry(79));
    assert forall|i: nat| 64 <= i < 80 implies #[trigger] is_exp2_entry(i) by {
        assert(i == 64 || i == 65 || i == 66 || i == 67
            || i == 68 || i == 69 || i == 70 || i == 71
            || i == 72 || i == 73 || i == 74 || i == 75
            || i == 76 || i == 77 || i == 78 || i == 79);
    }
}

/// Entries 80 to 95.
proof fn lemma_exp2_entries_80()
    requires
        exp2_scaled(80) == 333359188,
    ensures
        forall|i: nat| 80 <= i < 96 ==> #[trigger] is_exp2_entry(i),
        exp2_scaled(96) == 348118370,
{
    assert(exp2_scaled(81) == 334263023);
    assert(exp2_scaled(82) == 335169309);
    assert(exp2_scaled(83) == 336078052);
    assert(exp2_scaled(84) == 336989259);
    assert(exp2_scaled(85) == 337902936);
    assert(exp2_scaled(86) == 338819090);
    assert(exp2_scaled(87) == 339737728);
    assert(exp2_scaled(88) == 340658857);
    assert(exp2_scaled(89) == 341582484);
    assert(exp2_scaled(90) == 342508615);
    assert(exp2_scaled(91) == 343437257);
    assert(exp2_scaled(92) == 344368417);
    assert(exp2_scaled(93) == 345302101);
    assert(exp2_scaled(94) == 346238317);
    assert(exp2_scaled(95) == 347177071);
    assert(exp2_scaled(96) == 348118370);
    assert(is_exp2_entry(80));
    assert(is_exp2_entry(81));
    assert(is_exp2_entry(82));
    assert(is_exp2_entry(83));
    assert(is_exp2_entry(84));
    assert(is_exp2_entry(85));
    assert(is_exp2_entry(86));
    assert(is_exp2_entry(87));
    assert(is_exp2_entry(88));
    assert(is_exp2_entry(89));
    assert(is_exp2_entry(90));
    assert(is_exp2_entry(91));
    assert(is_exp2_entry(92));
    assert(is_exp2_entry(93));
    assert(is_exp2_entry(94));
    assert(is_exp2_entry(95));
    assert forall|i: nat| 80 <= i < 96 implies #[trigger] is_exp2_entry(i) by {
        assert(i == 80 || i == 81 || i == 82 || i == 83
            || i == 84 || i == 85 || i == 86 || i == 87
            || i == 88 || i == 89 || i == 90 || i == 91
            || i == 92 || i == 93 || i == 94 || i == 95);
    }
}

/// Entries 96 to 111.
proof fn lemma_exp2_entries_96()
    requires
        exp2_scaled(96) == 348118370,
    ensures
        forall|i: nat| 96 <= i < 112 ==> #[trigger] is_exp2_entry(i),
        exp2_scaled(112) == 363531000,
{
    assert(exp2_scaled(97) == 349062221);
    assert(exp2_scaled(98) == 350008632);
    assert(exp2_scaled(99) == 350957609);
    assert(exp2_scaled(100) == 351909158);
    assert(exp2_scaled(101) == 352863287);
    assert(exp2_scaled(102) == 353820003);
    assert(exp2_scaled(103) == 354779313);
    assert(exp2_scaled(104) == 355741224);
    assert(exp2_scaled(105) == 356705743);
    assert(exp2_scaled(106) == 357672877);
    assert(exp2_scaled(107) == 358642634);
    assert(exp2_scaled(108) == 359615020);
    assert(exp2_scaled(109) == 360590042);
    assert(exp2_scaled(110) == 361567708);
    assert(exp2_scaled(111) == 362548025);
    assert(exp2_scaled(112) == 363531000);
    assert(is_exp2_entry(96));
    assert(is_exp2_entry(97));
    assert(is_exp2_entry(98));
    assert(is_exp2_entry(99));
    assert(is_exp2_entry(100));
    assert(is_exp2_entry(101));
    assert(is_exp2_entry(102));
    assert(is_exp2_entry(103));
    assert(is_exp2_entry(104));
    assert(is_exp2_entry(105));
    assert(is_exp2_entry(106));
    assert(is_exp2_entry(107));
    assert(is_exp2_entry(108));
    assert(is_exp2_entry(109));
    assert(is_exp2_entry(110));
    assert(is_exp2_entry(111));
    assert forall|i: nat| 96 <= i < 112 implies #[trigger] is_exp2_entry(i) by {
        assert(i == 96 || i == 97 || i == 98 || i == 99
            || i == 100 || i == 101 || i == 102 || i == 103
            || i == 104 || i == 105 || i == 106 || i == 107
            || i == 108 || i == 109 || i == 110 || i == 111);
    }
}

/// Entries 112 to 127.
proof fn lemma_exp2_entries_112()
    requires
        exp2_scaled(112) == 363531000,
    ensures
        forall|i: nat| 112 <= i < 128 ==> #[trigger] is_exp2_entry(i),
        exp2_scaled(128) == 379626013,
{
    assert(exp2_scaled(113) == 364516640);
    assert(exp2_scaled(114) == 365504952);
    assert(exp2_scaled(115) == 366495944);
    assert(exp2_scaled(116) == 367489623);
    assert(exp2_scaled(117) == 368485996);
    assert(exp2_scaled(118) == 369485070);
    assert(exp2_scaled(119) == 370486853);
    assert(exp2_scaled(120) == 371491352);
    assert(exp2_scaled(121) == 372498575);
    assert(exp2_scaled(122) == 373508528);
    assert(exp2_scaled(123) == 374521220);
    assert(exp2_scaled(124) == 375536657);
    assert(exp2_scaled(125) == 376554848);
    assert(exp2_scaled(126) == 377575799);
    assert(exp2_scaled(127) == 378599518);
    assert(exp2_scaled(128) == 379626013);
    assert(is_exp2_entry(112));
    assert(is_exp2_entry(113));
    assert(is_exp2_entry(114));
    assert(is_exp2_entry(115));
    assert(is_exp2_entry(116));
    assert(is_exp2_entry(117));
    assert(is_exp2_entry(118));
    assert(is_exp2_entry(119));
    assert(is_exp2_entry(120));
    assert(is_exp2_entry(121));
    assert(is_exp2_entry(122));
    assert(is_exp2_entry(123));
    assert(is_exp2_entry(124));
    assert(is_exp2_entry(125));
    assert(is_exp2_entry(126));
    assert(is_exp2_entry(127));
    assert forall|i: nat| 112 <= i < 128 implies #[trigger] is_exp2_entry(i) by {
        assert(i == 112 || i == 113 || i == 114 || i == 115
            || i == 116 || i == 117 || i == 118 || i == 119
            || i == 120 || i == 121 || i == 122 || i == 123
            || i == 124 || i == 125 || i == 126 || i == 127);
    }
}

/// Entries 128 to 143.
proof fn lemma_exp2_entries_128()
    requires
        exp2_scaled(128) == 379626013,
    ensures
        forall|i: nat| 128 <= i < 144 ==> #[trigger] is_exp2_entry(i),
        exp2_scaled(144) == 396433617,
{
    assert(exp2_scaled(129) == 380655291);
    assert(exp2_scaled(130) == 381687360);
    assert(exp2_scaled(131) == 382722227);
    assert(exp2_scaled(132) == 383759900);
    assert(exp2_scaled(133) == 384800386);
    assert(exp2_scaled(134) == 385843693);
    assert(exp2_scaled(135) == 386889829);
    assert(exp2_scaled(136) == 387938801);
    assert(exp2_scaled(137) == 388990617);
    assert(exp2_scaled(138) == 390045285);
    assert(exp2_scaled(139) == 391102813);
    assert(exp2_scaled(140) == 392163208);
    assert(exp2_scaled(141) == 393226478);
    assert(exp2_scaled(142) == 394292631);
    assert(exp2_scaled(143) == 395361675);
    assert(exp2_scaled(144) == 396433617);
    assert(is_exp2_entry(128));
    assert(is_exp2_entry(129));
    assert(is_exp2_entry(130));
    assert(is_exp2_entry(131));
    assert(is_exp2_entry(132));
    assert(is_exp2_entry(133));
    assert(is_exp2_entry(134));
    assert(is_exp2_entry(135));
    assert(is_exp2_entry(136));
    assert(is_exp2_entry(137));
    assert(is_exp2_entry(138));
    assert(is_exp2_entry(139));
    assert(is_exp2_entry(140));
    assert(is_exp2_entry(141));
    assert(is_exp2_entry(142));
    assert(is_exp2_entry(143));
    assert forall|i: nat| 128 <= i < 144 implies #[trigger] is_exp2_entry(i) by {
        assert(i == 128 || i == 129 || i == 130 || i == 131
            || i == 132 || i == 133 || i == 134 || i == 135
            || i == 136 || i == 137 || i == 138 || i == 139
            || i == 140 || i == 141 || i == 142 || i == 143);
    }
}

/// Entries 144 to 159.
proof fn lemma_exp2_entries_144()
    requires
        exp2_scaled(144) == 396433617,
    ensures
        forall|i: nat| 144 <= i < 160 ==> #[trigger] is_exp2_entry(i),
        exp2_scaled(160) == 413985365,
{
    assert(exp2_scaled(145) == 397508465);
    assert(exp2_scaled(146) == 398586228);
    assert(exp2_scaled(147) == 399666913);
    assert(exp2_scaled(148) == 400750528);
    assert(exp2_scaled(149) == 401837081);
    assert(exp2_scaled(150) == 402926580);
    assert(exp2_scaled(151) == 404019033);
    assert(exp2_scaled(152) == 405114448);
    assert(exp2_scaled(153) == 406212833);
    assert(exp2_scaled(154) == 407314196);
    assert(exp2_scaled(155) == 408418545);
    assert(exp2_scaled(156) == 409525888);
    assert(exp2_scaled(157) == 410636233);
    assert(exp2_scaled(158) == 411749589);
    assert(exp2_scaled(159) == 412865964);
    assert(exp2_scaled(160) == 413985365);
    assert(is_exp2_entry(144));
    assert(is_exp2_entry(145));
    assert(is_exp2_entry(146));
    assert(is_exp2_entry(147));
    assert(is_exp2_entry(148));
    assert(is_exp2_entry(149));
    assert(is_exp2_entry(150));
    assert(is_exp2_entry(151));
    assert(is_exp2_entry(152));
    assert(is_exp2_entry(153));
    assert(is_exp2_entry(154));
    assert(is_exp2_entry(155));
    assert(is_exp2_entry(156));
    assert(is_exp2_entry(157));
    assert(is_exp2_entry(158));
    assert(is_exp2_entry(159));
    assert forall|i: nat| 144 <= i < 160 implies #[trigger] is_exp2_entry(i) by {
        assert(i == 144 || i == 145 || i == 146 || i == 147
            || i == 148 || i == 149 || i == 150 || i == 151
            || i == 152 || i == 153 || i == 154 || i == 155
            || i == 156 || i == 157 || i == 158 || i == 159);
    }
}

/// Entries 160 to 175.
proof fn lemma_exp2_entries_160()
    requires
        exp2_scaled(160) == 413985365,
    ensures
        forall|i: nat| 160 <= i < 176 ==> #[trigger] is_exp2_entry(i),
        exp2_scaled(176) == 432314200,
{
    assert(exp2_scaled(161) == 415107801);
    assert(exp2_scaled(162) == 416233281);
    assert(exp2_scaled(163) == 417361812);
    assert(exp2_scaled(164) == 418493403);
    assert(exp2_scaled(165) == 419628062);
    assert(exp2_scaled(166) == 420765797);
    assert(exp2_scaled(167) == 421906617);
    assert(exp2_scaled(168) == 423050530);
    assert(exp2_scaled(169) == 424197545);
    assert(exp2_scaled(170) == 425347670);
    assert(exp2_scaled(171) == 426500913);
    assert(exp2_scaled(172) == 427657283);
    assert(exp2_scaled(173) == 428816788);
    assert(exp2_scaled(174) == 429979437);
    assert(exp2_scaled(175) == 431145238);
    assert(exp2_scaled(176) == 432314200);
    assert(is_exp2_entry(160));
    assert(is_exp2_entry(161));
    assert(is_exp2_entry(162));
    assert(is_exp2_entry(163));
    assert(is_exp2_entry(164));
    assert(is_exp2_entry(165));
    assert(is_exp2_entry(166));
    assert(is_exp2_entry(167));
    assert(is_exp2_entry(168));
    assert(is_exp2_entry(169));
    assert(is_exp2_entry(170));
    assert(is_exp2_entry(171));
    assert(is_exp2_entry(172));
    assert(is_exp2_entry(173));
    assert(is_exp2_entry(174));
    assert(is_exp2_entry(175));
    assert forall|i: nat| 160 <= i < 176 implies #[trigger] is_exp2_entry(i) by {
        assert(i == 160 || i == 161 || i == 162 || i == 163
            || i == 164 || i == 165 || i == 166 || i == 167
            || i == 168 || i == 169 || i == 170 || i == 171
            || i == 172 || i == 173 || i == 174 || i == 175);
    }
}

/// Entries 176 to 191.
proof fn lemma_exp2_entries_176()
    requires
        exp2_scaled(176) == 432314200,
    ensures
        forall|i: nat| 176 <= i < 192 ==> #[trigger] is_exp2_entry(i),
        exp2_scaled(192) == 451454528,
{
    assert(exp2_scaled(177) == 433486331);
    assert(exp2_scaled(178) == 434661640);
    assert(exp2_scaled(179) == 435840136);
    assert(exp2_scaled(180) == 437021827);
    assert(exp2_scaled(181) == 438206722);
    assert(exp2_scaled(182) == 439394830);
    assert(exp2_scaled(183) == 440586159);
    assert(exp2_scaled(184) == 441780718);
    assert(exp2_scaled(185) == 442978516);
    assert(exp2_scaled(186) == 444179561);
    assert(exp2_scaled(187) == 445383863);
    assert(exp2_scaled(188) == 446591430);
    assert(exp2_scaled(189) == 447802271);
    assert(exp2_scaled(190) == 449016395);
    assert(exp2_scaled(191) == 450233811);
    assert(exp2_scaled(192) == 451454528);
    assert(is_exp2_entry(176));
    assert(is_exp2_entry(177));
    assert(is_exp2_entry(178));
    assert(is_exp2_entry(179));
    assert(is_exp2_entry(180));
    assert(is_exp2_entry(181));
    assert(is_exp2_entry(182));
    assert(is_exp2_entry(183));
    assert(is_exp2_entry(184));
    assert(is_exp2_entry(185));
    assert(is_exp2_entry(186));
    assert(is_exp2_entry(187));
    assert(is_exp2_entry(188));
    assert(is_exp2_entry(189));
    assert(is_exp2_entry(190));
    assert(is_exp2_entry(191));
    assert forall|i: nat| 176 <= i < 192 implies #[trigger] is_exp2_entry(i) by {
        assert(i == 176 || i == 177 || i == 178 || i == 179
            || i == 180 || i == 181 || i == 182 || i == 183
            || i == 184 || i == 185 || i == 186 || i == 187
            || i == 188 || i == 189 || i == 190 || i == 191);
    }
}

/// Entries 192 to 207.
proof fn lemma_exp2_entries_192()
    requires
        exp2_scaled(192) == 451454528,
    ensures
        forall|i: nat| 192 <= i < 208 ==> #[trigger] is_exp2_entry(i),
        exp2_scaled(208) == 471442277,
{
    assert(exp2_scaled(193) == 452678554);
    assert(exp2_scaled(194) == 453905899);
    assert(exp2_scaled(195) == 455136572);
    assert(exp2_scaled(196) == 456370582);
    assert(exp2_scaled(197) == 457607937);
    assert(exp2_scaled(198) == 458848647);
    assert(exp2_scaled(199) == 460092721);
    assert(exp2_scaled(200) == 461340168);
    assert(exp2_scaled(201) == 462590997);
    assert(exp2_scaled(202) == 463845218);
    assert(exp2_scaled(203) == 465102839);
    assert(exp2_scaled(204) == 466363870);
    assert(exp2_scaled(205) == 467628320);
    assert(exp2_scaled(206) == 468896198);
    assert(exp2_scaled(207) == 470167514);
    assert(exp2_scaled(208) == 471442277);
    assert(is_exp2_entry(192));
    assert(is_exp2_entry(193));
    assert(is_exp2_entry(194));
    assert(is_exp2_entry(195));
    assert(is_exp2_entry(196));
    assert(is_exp2_entry(197));
    assert(is_exp2_entry(198));
    assert(is_exp2_entry(199));
    assert(is_exp2_entry(200));
    assert(is_exp2_entry(201));
    assert(is_exp2_entry(202));
    assert(is_exp2_entry(203));
    assert(is_exp2_entry(204));
    assert(is_exp2_entry(205));
    assert(is_exp2_entry(206));
    assert(is_exp2_entry(207));
    assert forall|i: nat| 192 <= i < 208 implies #[trigger] is_exp2_entry(i) by {
        assert(i == 192 || i == 193 || i == 194 || i == 195
            || i == 196 || i == 197 || i == 198 || i == 199
            || i == 200 || i == 201 || i == 202 || i == 203
            || i == 204 || i == 205 || i == 206 || i == 207);
    }
}

/// Entries 208 to 223.
proof fn lemma_exp2_entries_208()
    requires
        exp2_scaled(208) == 471442277,
    ensures
        forall|i: nat| 208 <= i < 224 ==> #[trigger] is_exp2_entry(i),
        exp2_scaled(224) == 492314966,
{
    assert(exp2_scaled(209) == 472720496);
    assert(exp2_scaled(210) == 474002181);
    assert(exp2_scaled(211) == 475287341);
    assert(exp2_scaled(212) == 476575985);
    assert(exp2_scaled(213) == 477868123);
    assert(exp2_scaled(214) == 479163764);
    assert(exp2_scaled(215) == 480462918);
    assert(exp2_scaled(216) == 481765595);
    assert(exp2_scaled(217) == 483071804);
    assert(exp2_scaled(218) == 484381554);
    assert(exp2_scaled(219) == 485694855);
    assert(exp2_scaled(220) == 487011717);
    assert(exp2_scaled(221) == 488332149);
    assert(exp2_scaled(222) == 489656162);
    assert(exp2_scaled(223) == 490983764);
    assert(exp2_scaled(224) == 492314966);
    assert(is_exp2_entry(208));
    assert(is_exp2_entry(209));
    assert(is_exp2_entry(210));
    assert(is_exp2_entry(211));
    assert(is_exp2_entry(212));
    assert(is_exp2_entry(213));
    assert(is_exp2_entry(214));
    assert(is_exp2_entry(215));
    assert(is_exp2_entry(216));
    assert(is_exp2_entry(217));
    assert(is_exp2_entry(218));
    assert(is_exp2_entry(219));
    assert(is_exp2_entry(220));
    assert(is_exp2_entry(221));
    assert(is_exp2_entry(222));
    assert(is_exp2_entry(223));
    assert forall|i: nat| 208 <= i < 224 implies #[trigger] is_exp2_entry(i) by {
        assert(i == 208 || i == 209 || i == 210 || i == 211
            || i == 212 || i == 213 || i == 214 || i == 215
            || i == 216 || i == 217 || i == 218 || i == 219
            || i == 220 || i == 221 || i == 222 || i == 223);
    }
}

/// Entries 224 to 239.
proof fn lemma_exp2_entries_224()
    requires
        exp2_scaled(224) == 492314966,
    ensures
        forall|i: nat| 224 <= i < 240 ==> #[trigger] is_exp2_entry(i),
        exp2_scaled(240) == 514111776,
{
    assert(exp2_scaled(225) == 493649777);
    assert(exp2_scaled(226) == 494988207);
    assert(exp2_scaled(227) == 496330266);
    assert(exp2_scaled(228) == 497675964);
    assert(exp2_scaled(229) == 499025310);
    assert(exp2_scaled(230) == 500378315);
    assert(exp2_scaled(231) == 501734988);
    assert(exp2_scaled(232) == 503095340);
    assert(exp2_scaled(233) == 504459380);
    assert(exp2_scaled(234) == 505827118);
    assert(exp2_scaled(235) == 507198565);
    assert(exp2_scaled(236) == 508573730);
    assert(exp2_scaled(237) == 509952623);
    assert(exp2_scaled(238) == 511335255);
    assert(exp2_scaled(239) == 512721636);
    assert(exp2_scaled(240) == 514111776);
    assert(is_exp2_entry(224));
    assert(is_exp2_entry(225));
    assert(is_exp2_entry(226));
    assert(is_exp2_entry(227));
    assert(is_exp2_entry(228));
    assert(is_exp2_entry(229));
    assert(is_exp2_entry(230));
    assert(is_exp2_entry(231));
    assert(is_exp2_entry(232));
    assert(is_exp2_entry(233));
    assert(is_exp2_entry(234));
    assert(is_exp2_entry(235));
    assert(is_exp2_entry(236));
    assert(is_exp2_entry(237));
    assert(is_exp2_entry(238));
    assert(is_exp2_entry(239));
    assert forall|i: nat| 224 <= i < 240 implies #[trigger] is_exp2_entry(i) by {
        assert(i == 224 || i == 225 || i == 226 || i == 227
            || i == 228 || i == 229 || i == 230 || i == 231
            || i == 232 || i == 233 || i == 234 || i == 235
            || i == 236 || i == 237 || i == 238 || i == 239);
    }
}

/// Entries 240 to 255.
proof fn lemma_exp2_entries_240()
    requires
        exp2_scaled(240) == 514111776,
    ensures
        forall|i: nat| 240 <= i < 256 ==> #[trigger] is_exp2_entry(i),
        exp2_scaled(256) == 536873623,
{
    assert(exp2_scaled(241) == 515505685);
    assert(exp2_scaled(242) == 516903373);
    assert(exp2_scaled(243) == 518304851);
    assert(exp2_scaled(244) == 519710128);
    assert(exp2_scaled(245) == 521119216);
    assert(exp2_scaled(246) == 522532124);
    assert(exp2_scaled(247) == 523948863);
    assert(exp2_scaled(248) == 525369443);
    assert(exp2_scaled(249) == 526793875);
    assert(exp2_scaled(250) == 528222169);
    assert(exp2_scaled(251) == 529654335);
    assert(exp2_scaled(252) == 531090384);
    assert(exp2_scaled(253) == 532530327);
    assert(exp2_scaled(254) == 533974174);
    assert(exp2_scaled(255) == 535421936);
    assert(exp2_scaled(256) == 536873623);
    assert(is_exp2_entry(240));
    assert(is_exp2_entry(241));
    assert(is_exp2_entry(242));
    assert(is_exp2_entry(243));
    assert(is_exp2_entry(244));
    assert(is_exp2_entry(245));
    assert(is_exp2_entry(246));
    assert(is_exp2_entry(247));
    assert(is_exp2_entry(248));
    assert(is_exp2_entry(249));
    assert(is_exp2_entry(250));
    assert(is_exp2_entry(251));
    assert(is_exp2_entry(252));
    assert(is_exp2_entry(253));
    assert(is_exp2_entry(254));
    assert(is_exp2_entry(255));
    assert forall|i: nat| 240 <= i < 256 implies #[trigger] is_exp2_entry(i) by {
        assert(i == 240 || i == 241 || i == 242 || i == 243
            || i == 244 || i == 245 || i == 246 || i == 247
            || i == 248 || i == 249 || i == 250 || i == 251
            || i == 252 || i == 253 || i == 254 || i == 255);
    }
}

} // verus!
