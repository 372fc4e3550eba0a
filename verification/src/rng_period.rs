//! The period of the generator: the multiplier is a primitive root modulo the
//! prime `2^31 - 1`, so from any state the generator reaches every state.
use vstd::prelude::*;
use vstd::arithmetic::power::{pow, lemma_pow_adds, lemma_pow1, lemma1_pow, lemma_pow_multiplies, lemma_pow_distributes, lemma_pow_mod_noop};
use vstd::relations::injective_on;
use crate::rng::{lcg_iter, lemma_iter_is_power};
use vstd::set_lib::{set_int_range, lemma_int_range, lemma_map_size, lemma_subset_equality};
use vstd::arithmetic::div_mod::{lemma_mul_mod_noop, lemma_mul_mod_noop_left, lemma_mul_mod_noop_right, lemma_fundamental_div_mod, lemma_fundamental_div_mod_converse_mod, lemma_small_mod, lemma_mod_multiples_basic, lemma_add_mod_noop};

verus! {

/// The multiplier to the power `e`, modulo `2^31 - 1`.
#[verifier::opaque]
pub open spec fn power_of_multiplier(e: nat) -> int {
    pow(48271, e) % 2147483647
}

proof fn lemma_power_first()
    ensures
        power_of_multiplier(1) == 48271,
{
    reveal(power_of_multiplier);
    lemma_pow1(48271);
}

/// Squaring, with the quotient given explicitly.
proof fn lemma_power_square(e: nat, c: int, q: int, r: int)
    requires
        power_of_multiplier(e) == c,
        c * c == q * 2147483647 + r,
        0 <= r < 2147483647,
    ensures
        power_of_multiplier(2 * e) == r,
{
    reveal(power_of_multiplier);
    let p = pow(48271, e);
    lemma_pow_adds(48271, e, e);
    lemma_mul_mod_noop(p, p, 2147483647);
    lemma_fundamental_div_mod_converse_mod(c * c, 2147483647, q, r);
}

/// One more factor, with the quotient given explicitly.
proof fn lemma_power_times(e: nat, c: int, q: int, r: int)
    requires
        power_of_multiplier(e) == c,
        c * 48271 == q * 2147483647 + r,
        0 <= r < 2147483647,
    ensures
        power_of_multiplier(e + 1) == r,
{
    reveal(power_of_multiplier);
    let p = pow(48271, e);
    lemma_pow_adds(48271, e, 1);
    lemma_pow1(48271);
    lemma_mul_mod_noop_left(p, 48271, 2147483647);
    lemma_fundamental_div_mod_converse_mod(c * 48271, 2147483647, q, r);
}

proof fn lemma_power_n()
    ensures
        power_of_multiplier(2147483646) == 1,
{
    lemma_power_first();
    lemma_power_square(1, 48271, 1, 182605794);
    lemma_power_times(2, 182605794, 4104, 1291394886);
    lemma_power_square(3, 1291394886, 776583679, 407355683);
    lemma_power_times(6, 407355683, 9156, 1105902161);
    lemma_power_square(7, 1105902161, 569512876, 1738531149);
    lemma_power_times(14, 1738531149, 39078, 1271135913);
    lemma_power_square(15, 1271135913, 752409226, 631416347);
    lemma_power_times(30, 631416347, 14192, 2010567813);
    lemma_power_square(31, 2010567813, 1882381240, 352020689);
    lemma_power_times(62, 352020689, 7912, 1500063655);
    lemma_power_square(63, 1500063655, 1047826823, 1771495544);
    lemma_power_times(126, 1771495544, 39819, 1210064531);
    lemma_power_square(127, 1210064531, 681847413, 17494750);
    lemma_power_times(254, 17494750, 393, 528003979);
    lemma_power_square(255, 528003979, 129820873, 33068610);
    lemma_power_times(510, 33068610, 743, 674523589);
    lemma_power_square(511, 674523589, 211867537, 1079773482);
    lemma_power_times(1022, 1079773482, 24271, 170153285);
    lemma_power_square(1023, 170153285, 13481890, 2090638395);
    lemma_power_times(2046, 2090638395, 46993, 506941574);
    lemma_power_square(2047, 506941574, 119670182, 571083722);
    lemma_power_times(4094, 571083722, 12836, 1682251770);
    lemma_power_square(4095, 1682251770, 1317807947, 1598990191);
    lemma_power_times(8190, 1598990191, 35941, 2145752934);
    lemma_power_square(8191, 2145752934, 2144023615, 1775284451);
    lemma_power_times(16382, 1775284451, 39904, 1568284333);
    lemma_power_square(16383, 1568284333, 1145301270, 919923199);
    lemma_power_times(32766, 919923199, 20677, 2093369910);
    lemma_power_square(32767, 2093369910, 2040619767, 715957851);
    lemma_power_times(65534, 715957851, 16093, 547094450);
    lemma_power_square(65535, 547094450, 139378168, 691983804);
    lemma_power_times(131070, 691983804, 15554, 789557446);
    lemma_power_square(131071, 789557446, 290293693, 1989304545);
    lemma_power_times(262142, 1989304545, 44715, 988416090);
    lemma_power_square(262143, 988416090, 454935416, 669745948);
    lemma_power_times(524286, 669745948, 15054, 1087833970);
    lemma_power_square(524287, 1087833970, 551055533, 579592049);
    lemma_power_times(1048574, 579592049, 13028, 70844163);
    lemma_power_square(1048575, 70844163, 2337105, 662348634);
    lemma_power_times(2097150, 662348634, 14888, 494375278);
    lemma_power_square(2097151, 494375278, 113810838, 2041211098);
    lemma_power_times(4194302, 2041211098, 45882, 456219904);
    lemma_power_square(4194303, 456219904, 96921157, 1099949637);
    lemma_power_times(8388606, 1099949637, 24724, 1283239199);
    lemma_power_square(8388607, 1283239199, 766805765, 1087336646);
    lemma_power_times(16777214, 1087336646, 24441, 179422739);
    lemma_power_square(16777215, 179422739, 14990809, 2087461698);
    lemma_power_times(33554430, 2087461698, 46921, 1783423271);
    lemma_power_square(33554431, 1783423271, 1481081622, 427104007);
    lemma_power_times(67108862, 427104007, 9600, 894510697);
    lemma_power_square(67108863, 894510697, 372598593, 1684717138);
    lemma_power_times(134217726, 1684717138, 37868, 2070223802);
    lemma_power_square(134217727, 2070223802, 1995743528, 381248588);
    lemma_power_times(268435454, 381248588, 8569, 1463220205);
    lemma_power_square(268435455, 1463220205, 996987041, 1501823498);
    lemma_power_times(536870910, 1501823498, 33757, 1916600179);
    lemma_power_square(536870911, 1916600179, 1710539799, 247665088);
    lemma_power_times(1073741822, 247665088, 5566, 2147483646);
    lemma_power_square(1073741823, 2147483646, 2147483645, 1);
}

proof fn lemma_power_half()
    ensures
        power_of_multiplier(1073741823) == 2147483646,
{
    lemma_power_first();
    lemma_power_square(1, 48271, 1, 182605794);
    lemma_power_times(2, 182605794, 4104, 1291394886);
    lemma_power_square(3, 1291394886, 776583679, 407355683);
    lemma_power_times(6, 407355683, 9156, 1105902161);
    lemma_power_square(7, 1105902161, 569512876, 1738531149);
    lemma_power_times(14, 1738531149, 39078, 1271135913);
    lemma_power_square(15, 1271135913, 752409226, 631416347);
    lemma_power_times(30, 631416347, 14192, 2010567813);
    lemma_power_square(31, 2010567813, 1882381240, 352020689);
    lemma_power_times(62, 352020689, 7912, 1500063655);
    lemma_power_square(63, 1500063655, 1047826823, 1771495544);
    lemma_power_times(126, 1771495544, 39819, 1210064531);
    lemma_power_square(127, 1210064531, 681847413, 17494750);
    lemma_power_times(254, 17494750, 393, 528003979);
    lemma_power_square(255, 528003979, 129820873, 33068610);
    lemma_power_times(510, 33068610, 743, 674523589);
    lemma_power_square(511, 674523589, 211867537, 1079773482);
    lemma_power_times(1022, 1079773482, 24271, 170153285);
    lemma_power_square(1023, 170153285, 13481890, 2090638395);
    lemma_power_times(2046, 2090638395, 46993, 506941574);
    lemma_power_square(2047, 506941574, 119670182, 571083722);
    lemma_power_times(4094, 571083722, 12836, 1682251770);
    lemma_power_square(4095, 1682251770, 1317807947, 1598990191);
    lemma_power_times(8190, 1598990191, 35941, 2145752934);
    lemma_power_square(8191, 2145752934, 2144023615, 1775284451);
    lemma_power_times(16382, 1775284451, 39904, 1568284333);
    lemma_power_square(16383, 1568284333, 1145301270, 919923199);
    lemma_power_times(32766, 919923199, 20677, 2093369910);
    lemma_power_square(32767, 2093369910, 2040619767, 715957851);
    lemma_power_times(65534, 715957851, 16093, 547094450);
    lemma_power_square(65535, 547094450, 139378168, 691983804);
    lemma_power_times(131070, 691983804, 15554, 789557446);
    lemma_power_square(131071, 789557446, 290293693, 1989304545);
    lemma_power_times(262142, 1989304545, 44715, 988416090);
    lemma_power_square(262143, 988416090, 454935416, 669745948);
    lemma_power_times(524286, 669745948, 15054, 1087833970);
    lemma_power_square(524287, 1087833970, 551055533, 579592049);
    lemma_power_times(1048574, 579592049, 13028, 70844163);
    lemma_power_square(1048575, 70844163, 2337105, 662348634);
    lemma_power_times(2097150, 662348634, 14888, 494375278);
    lemma_power_square(2097151, 494375278, 113810838, 2041211098);
    lemma_power_times(4194302, 2041211098, 45882, 456219904);
    lemma_power_square(4194303, 456219904, 96921157, 1099949637);
    lemma_power_times(8388606, 1099949637, 24724, 1283239199);
    lemma_power_square(8388607, 1283239199, 766805765, 1087336646);
    lemma_power_times(16777214, 1087336646, 24441, 179422739);
    lemma_power_square(16777215, 179422739, 14990809, 2087461698);
    lemma_power_times(33554430, 2087461698, 46921, 1783423271);
    lemma_power_square(33554431, 1783423271, 1481081622, 427104007);
    lemma_power_times(67108862, 427104007, 9600, 894510697);
    lemma_power_square(67108863, 894510697, 372598593, 1684717138);
    lemma_power_times(134217726, 1684717138, 37868, 2070223802);
    lemma_power_square(134217727, 2070223802, 1995743528, 381248588);
    lemma_power_times(268435454, 381248588, 8569, 1463220205);
    lemma_power_square(268435455, 1463220205, 996987041, 1501823498);
    lemma_power_times(536870910, 1501823498, 33757, 1916600179);
    lemma_power_square(536870911, 1916600179, 1710539799, 247665088);
    lemma_power_times(1073741822, 247665088, 5566, 2147483646);
}

proof fn lemma_power_third()
    ensures
        power_of_multiplier(715827882) == 634005911,
{
    lemma_power_first();
    lemma_power_square(1, 48271, 1, 182605794);
    lemma_power_square(2, 182605794, 15527417, 1914720637);
    lemma_power_times(4, 1914720637, 43038, 2078669041);
    lemma_power_square(5, 2078669041, 2012059550, 1596680831);
    lemma_power_square(10, 1596680831, 1187152078, 2075782095);
    lemma_power_times(20, 2075782095, 46659, 638022372);
    lemma_power_square(21, 638022372, 189557926, 928270262);
    lemma_power_square(42, 928270262, 401253662, 1869683330);
    lemma_power_times(84, 1869683330, 42026, 1336273608);
    lemma_power_square(85, 1336273608, 831497440, 514973984);
    lemma_power_square(170, 514973984, 123492537, 462789817);
    lemma_power_times(340, 462789817, 10402, 1202360313);
    lemma_power_square(341, 1202360313, 673192703, 1305230128);
    lemma_power_square(682, 1305230128, 793312530, 1903699474);
    lemma_power_times(1364, 1903699474, 42791, 504570677);
    lemma_power_square(1365, 504570677, 118553437, 835093590);
    lemma_power_square(2730, 835093590, 324743475, 2026634775);
    lemma_power_times(5460, 2026634775, 45554, 1217168587);
    lemma_power_square(5461, 1217168587, 689876903, 1544071328);
    lemma_power_square(10922, 1544071328, 1110209276, 993974012);
    lemma_power_times(21844, 993974012, 22342, 1039891978);
    lemma_power_square(21845, 1039891978, 503554626, 1202551462);
    lemma_power_square(43690, 1202551462, 673406766, 994181842);
    lemma_power_times(87380, 994181842, 22347, 334635673);
    lemma_power_square(87381, 334635673, 52145232, 655141825);
    lemma_power_square(174762, 655141825, 199866858, 1732059499);
    lemma_power_times(349524, 1732059499, 38933, 263247578);
    lemma_power_square(349525, 263247578, 32269995, 771594319);
    lemma_power_square(699050, 771594319, 277235076, 1028271589);
    lemma_power_times(1398100, 1028271589, 23113, 908339508);
    lemma_power_square(1398101, 908339508, 384208123, 606617483);
    lemma_power_square(2796202, 606617483, 171356262, 225207775);
    lemma_power_times(5592404, 225207775, 5062, 442285911);
    lemma_power_square(5592405, 442285911, 91091183, 1190715520);
    lemma_power_square(11184810, 1190715520, 660216179, 1681545587);
    lemma_power_times(22369620, 1681545587, 37797, 1447624418);
    lemma_power_square(22369621, 1447624418, 975847456, 1863286692);
    lemma_power_square(44739242, 1863286692, 1616700225, 1295582289);
    lemma_power_times(89478484, 1295582289, 29122, 33904385);
    lemma_power_square(89478485, 33904385, 535281, 128178418);
    lemma_power_square(178956970, 128178418, 7650678, 947520058);
    lemma_power_times(357913940, 947520058, 21298, 634005912);
    lemma_power_square(357913941, 634005912, 187178839, 634005911);
}

proof fn lemma_power_seventh()
    ensures
        power_of_multiplier(306783378) == 1752599774,
{
    lemma_power_first();
    lemma_power_square(1, 48271, 1, 182605794);
    lemma_power_square(2, 182605794, 15527417, 1914720637);
    lemma_power_square(4, 1914720637, 1707186512, 854716505);
    lemma_power_times(8, 854716505, 19212, 564586691);
    lemma_power_square(9, 564586691, 148433321, 2136927794);
    lemma_power_square(18, 2136927794, 2126423827, 1696049367);
    lemma_power_square(36, 1696049367, 1339513555, 1003765604);
    lemma_power_times(72, 1003765604, 22562, 1243427070);
    lemma_power_square(73, 1243427070, 719963982, 634782546);
    lemma_power_square(146, 634782546, 187637694, 1280452098);
    lemma_power_square(292, 1280452098, 763478491, 1013864927);
    lemma_power_times(584, 1013864927, 22789, 1269059734);
    lemma_power_square(585, 1269059734, 749953374, 1782675778);
    lemma_power_square(1170, 1782675778, 1479840339, 1294468951);
    lemma_power_square(2340, 1294468951, 780285273, 1340609770);
    lemma_power_times(4680, 1340609770, 30134, 301988972);
    lemma_power_square(4681, 301988972, 42467070, 848612494);
    lemma_power_square(9362, 848612494, 335342793, 866093965);
    lemma_power_square(18724, 866093965, 349301265, 1745507770);
    lemma_power_times(37448, 1745507770, 39235, 884675625);
    lemma_power_square(37449, 884675625, 364450254, 859144287);
    lemma_power_square(74898, 859144287, 343718056, 1446108137);
    lemma_power_square(149796, 1446108137, 973804269, 841321726);
    lemma_power_times(299592, 841321726, 18911, 377787329);
    lemma_power_square(299593, 377787329, 66460699, 1682264988);
    lemma_power_square(599186, 1682264988, 1317828656, 1542651712);
    lemma_power_square(1198372, 1542651712, 1108168766, 1435361342);
    lemma_power_times(2396744, 1435361342, 32263, 2062436521);
    lemma_power_square(2396745, 2062436521, 1980757529, 954955178);
    lemma_power_square(4793490, 954955178, 424654871, 897617147);
    lemma_power_square(9586980, 897617147, 375191002, 1291875315);
    lemma_power_times(19173960, 1291875315, 29038, 1483188779);
    lemma_power_square(19173961, 1483188779, 1024384496, 751173929);
    lemma_power_square(38347922, 751173929, 262755095, 1930865576);
    lemma_power_square(76695844, 1930865576, 1736097910, 1265934006);
    lemma_power_times(153391688, 1265934006, 28455, 1253228241);
    lemma_power_square(153391689, 1253228241, 731358781, 1752599774);
}

proof fn lemma_power_eleventh()
    ensures
        power_of_multiplier(195225786) == 219454379,
{
    lemma_power_first();
    lemma_power_square(1, 48271, 1, 182605794);
    lemma_power_square(2, 182605794, 15527417, 1914720637);
    lemma_power_times(4, 1914720637, 43038, 2078669041);
    lemma_power_square(5, 2078669041, 2012059550, 1596680831);
    lemma_power_times(10, 1596680831, 35890, 192302371);
    lemma_power_square(11, 192302371, 17220248, 914937185);
    lemma_power_times(22, 914937185, 20565, 1931656580);
    lemma_power_square(23, 1931656580, 1737520631, 1659675143);
    lemma_power_square(46, 1659675143, 1282674065, 1273555394);
    lemma_power_times(92, 1273555394, 28626, 1925544752);
    lemma_power_square(93, 1925544752, 1726542875, 2047876379);
    lemma_power_square(186, 2047876379, 1952889219, 1461049948);
    lemma_power_square(372, 1461049948, 994031760, 1352173984);
    lemma_power_square(744, 1352173984, 851403215, 1790707151);
    lemma_power_times(1488, 1790707151, 40251, 860610524);
    lemma_power_square(1489, 860610524, 344892253, 725067885);
    lemma_power_square(2978, 725067885, 244809052, 2050800581);
    lemma_power_times(5956, 2050800581, 46097, 1641169692);
    lemma_power_square(5957, 1641169692, 1254229787, 776581675);
    lemma_power_times(11914, 776581675, 17455, 2046975540);
    lemma_power_square(11915, 2046975540, 1951171487, 533118511);
    lemma_power_times(23830, 533118511, 11983, 867102480);
    lemma_power_square(23831, 867102480, 350115220, 1306343060);
    lemma_power_square(47662, 1306343060, 794665976, 2122869128);
    lemma_power_times(95324, 2122869128, 47717, 1538493789);
    lemma_power_square(95325, 1538493789, 1102203102, 1573903527);
    lemma_power_square(190650, 1573903527, 1153523248, 788714273);
    lemma_power_square(381300, 788714273, 289674012, 703036765);
    lemma_power_square(762600, 703036765, 230158070, 1391583935);
    lemma_power_times(1525200, 1391583935, 31279, 2007131872);
    lemma_power_square(1525201, 2007131872, 1875952982, 212339030);
    lemma_power_square(3050402, 212339030, 20995672, 1383565116);
    lemma_power_times(6100804, 1383565116, 31099, 1477776383);
    lemma_power_square(6100805, 1477776383, 1016921847, 1443026680);
    lemma_power_times(12201610, 1443026680, 32436, 561296188);
    lemma_power_square(12201611, 561296188, 146708176, 1822133472);
    lemma_power_times(24403222, 1822133472, 40957, 1717096733);
    lemma_power_square(24403223, 1717096733, 1372965607, 1553344560);
    lemma_power_square(48806446, 1553344560, 1123584491, 1636274923);
    lemma_power_times(97612892, 1636274923, 36780, 178271473);
    lemma_power_square(97612893, 178271473, 14799050, 219454379);
}

proof fn lemma_power_thirty_first()
    ensures
        power_of_multiplier(69273666) == 64,
{
    lemma_power_first();
    lemma_power_square(1, 48271, 1, 182605794);
    lemma_power_square(2, 182605794, 15527417, 1914720637);
    lemma_power_square(4, 1914720637, 1707186512, 854716505);
    lemma_power_square(8, 854716505, 340184338, 1098894339);
    lemma_power_square(16, 1098894339, 562318027, 890442452);
    lemma_power_times(32, 890442452, 20015, 662405787);
    lemma_power_square(33, 662405787, 204323524, 163677341);
    lemma_power_square(66, 163677341, 12475192, 1143645057);
    lemma_power_square(132, 1143645057, 609049581, 990831342);
    lemma_power_square(264, 990831342, 457161454, 1785778226);
    lemma_power_square(528, 1785778226, 1484995649, 362055173);
    lemma_power_times(1056, 362055173, 8138, 543336597);
    lemma_power_square(1057, 543336597, 137470037, 1229555470);
    lemma_power_square(2114, 1229555470, 703989832, 1932643596);
    lemma_power_square(4228, 1932643596, 1739296722, 1384106082);
    lemma_power_square(8456, 1384106082, 892090446, 1799454162);
    lemma_power_square(16912, 1799454162, 1507827678, 140140578);
    lemma_power_times(33824, 140140578, 3150, 152352588);
    lemma_power_square(33825, 152352588, 10808608, 2143464368);
    lemma_power_square(67650, 2143464368, 2139452611, 1231687107);
    lemma_power_square(135300, 1231687107, 706432913, 1179955738);
    lemma_power_square(270600, 1179955738, 648338135, 1000146299);
    lemma_power_square(541200, 1000146299, 465797549, 113216198);
    lemma_power_times(1082400, 113216198, 2544, 1860695690);
    lemma_power_square(1082401, 1860695690, 1612207131, 1385289343);
    lemma_power_square(2164802, 1385289343, 893616380, 1088033789);
    lemma_power_square(4329604, 1088033789, 551257993, 760156050);
    lemma_power_square(8659208, 760156050, 269076424, 18364172);
    lemma_power_square(17318416, 18364172, 157040, 1981320704);
    lemma_power_times(34636832, 1981320704, 44535, 2147483639);
    lemma_power_square(34636833, 2147483639, 2147483631, 64);
}

proof fn lemma_power_p151()
    ensures
        power_of_multiplier(14221746) == 556613938,
{
    lemma_power_first();
    lemma_power_square(1, 48271, 1, 182605794);
    lemma_power_times(2, 182605794, 4104, 1291394886);
    lemma_power_square(3, 1291394886, 776583679, 407355683);
    lemma_power_square(6, 407355683, 77271206, 1203428207);
    lemma_power_times(12, 1203428207, 27050, 1250328747);
    lemma_power_square(13, 1250328747, 727978523, 2064876628);
    lemma_power_times(26, 2064876628, 46414, 353718330);
    lemma_power_square(27, 353718330, 58261983, 1243696899);
    lemma_power_square(54, 1243696899, 720276486, 1578591759);
    lemma_power_square(108, 1578591759, 1160405549, 1217156878);
    lemma_power_times(216, 1217156878, 27359, 374559665);
    lemma_power_square(217, 374559665, 65329923, 1342643044);
    lemma_power_square(434, 1342643044, 839443106, 879698354);
    lemma_power_square(868, 879698354, 360360925, 575015841);
    lemma_power_square(1736, 575015841, 153967746, 700487619);
    lemma_power_square(3472, 700487619, 228492033, 35004810);
    lemma_power_square(6944, 35004810, 570591, 1881510723);
    lemma_power_square(13888, 1881510723, 1648479421, 1750454342);
    lemma_power_square(27776, 1750454342, 1426828282, 754548510);
    lemma_power_times(55552, 754548510, 16960, 1488473090);
    lemma_power_square(55553, 1488473090, 1031696861, 1995416033);
    lemma_power_times(111106, 1995416033, 44852, 1790793699);
    lemma_power_square(111107, 1790793699, 1493348774, 945603823);
    lemma_power_square(222214, 945603823, 416378765, 1276659374);
    lemma_power_times(444428, 1276659374, 28696, 1433908042);
    lemma_power_square(444429, 1433908042, 957442575, 158202739);
    lemma_power_times(888858, 158202739, 3556, 152565537);
    lemma_power_square(888859, 152565537, 10838845, 690230654);
    lemma_power_square(1777718, 690230654, 221849584, 1987514868);
    lemma_power_square(3555436, 1987514868, 1839462366, 264128622);
    lemma_power_times(7110872, 264128622, 5937, 142300323);
    lemma_power_square(7110873, 142300323, 9429353, 556613938);
}

proof fn lemma_power_p331()
    ensures
        power_of_multiplier(6487866) == 1627574666,
{
    lemma_power_first();
    lemma_power_square(1, 48271, 1, 182605794);
    lemma_power_times(2, 182605794, 4104, 1291394886);
    lemma_power_square(3, 1291394886, 776583679, 407355683);
    lemma_power_square(6, 407355683, 77271206, 1203428207);
    lemma_power_square(12, 1203428207, 674389046, 1402304087);
    lemma_power_square(24, 1402304087, 915702783, 412013968);
    lemma_power_times(48, 412013968, 9261, 480194461);
    lemma_power_square(49, 480194461, 107375309, 206008598);
    lemma_power_square(98, 206008598, 19762451, 2102786807);
    lemma_power_times(196, 2102786807, 47266, 659901595);
    lemma_power_square(197, 659901595, 202781574, 1005623647);
    lemma_power_times(394, 1005623647, 22604, 738707549);
    lemma_power_square(395, 738707549, 254106169, 420269058);
    lemma_power_times(790, 420269058, 9446, 1677169156);
    lemma_power_square(791, 1677169156, 1309856948, 2098422980);
    lemma_power_times(1582, 2098422980, 47168, 467005884);
    lemma_power_square(1583, 467005884, 101558163, 1428760995);
    lemma_power_times(3166, 1428760995, 32115, 1284666240);
    lemma_power_square(3167, 1284666240, 768512184, 535482552);
    lemma_power_times(6334, 535482552, 12036, 1165092300);
    lemma_power_square(6335, 1165092300, 632107289, 1242287017);
    lemma_power_times(12670, 1242287017, 27924, 103238779);
    lemma_power_square(12671, 103238779, 4963132, 681508437);
    lemma_power_times(25342, 681508437, 15318, 1939257681);
    lemma_power_square(25343, 1939257681, 1751221881, 1601417754);
    lemma_power_square(50686, 1601417754, 1194206450, 309481366);
    lemma_power_square(101372, 309481366, 44600440, 352221276);
    lemma_power_times(202744, 352221276, 7917, 445180497);
    lemma_power_square(202745, 445180497, 92287396, 1174953797);
    lemma_power_times(405490, 1174953797, 26410, 1151617717);
    lemma_power_square(405491, 1151617717, 617570880, 444892729);
    lemma_power_times(810982, 444892729, 10000, 580451559);
    lemma_power_square(810983, 580451559, 156892469, 830576038);
    lemma_power_square(1621966, 830576038, 321239491, 1206673767);
    lemma_power_times(3243932, 1206673767, 27123, 1150449276);
    lemma_power_square(3243933, 1150449276, 616318330, 1627574666);
}

/// Products of powers: the power of a sum is the product of the powers.
proof fn lemma_power_sum(x: nat, y: nat)
    ensures
        power_of_multiplier(x + y) == (power_of_multiplier(x) * power_of_multiplier(y)) % 2147483647,
        0 <= power_of_multiplier(x) < 2147483647,
{
    reveal(power_of_multiplier);
    lemma_pow_adds(48271, x, y);
    lemma_mul_mod_noop(pow(48271, x), pow(48271, y), 2147483647);
}

/// A power equal to 1 stays 1 when raised further.
proof fn lemma_power_one_multiple(g: nat, t: nat)
    requires
        power_of_multiplier(g) == 1,
    ensures
        power_of_multiplier(g * t) == 1,
{
    reveal(power_of_multiplier);
    lemma_pow_multiplies(48271, g, t);
    lemma_pow_mod_noop(pow(48271, g), t, 2147483647);
    lemma1_pow(t);
}

/// The exponents whose power is 1 are closed under remainders.
proof fn lemma_power_mod_closure(x: nat, y: nat)
    requires
        y > 0,
        power_of_multiplier(x) == 1,
        power_of_multiplier(y) == 1,
    ensures
        power_of_multiplier(x % y) == 1,
{
    lemma_fundamental_div_mod(x as int, y as int);
    let t: nat = x / y;
    let r: nat = x % y;
    assert(x == y * t + r);
    lemma_power_one_multiple(y, t);
    lemma_power_sum(y * t, r);
    lemma_power_sum(r, 0);
    lemma_small_mod(power_of_multiplier(r) as nat, 2147483647);
}

/// Greatest common divisor, by Euclid's algorithm.
pub open spec fn gcd(x: nat, y: nat) -> nat
    decreases y,
{
    if y == 0 {
        x
    } else {
        gcd(y, x % y)
    }
}

proof fn lemma_gcd_power(x: nat, y: nat)
    requires
        power_of_multiplier(x) == 1,
        power_of_multiplier(y) == 1,
    ensures
        power_of_multiplier(gcd(x, y)) == 1,
    decreases y,
{
    if y > 0 {
        lemma_power_mod_closure(x, y);
        lemma_gcd_power(y, x % y);
    }
}

proof fn lemma_gcd_divides(x: nat, y: nat)
    requires
        x > 0,
    ensures
        gcd(x, y) > 0,
        x % gcd(x, y) == 0,
        y % gcd(x, y) == 0,
    decreases y,
{
    if y == 0 {
        lemma_mod_multiples_basic(1, x as int);
    } else {
        lemma_gcd_divides(y, x % y);
        let g = gcd(y, x % y);
        lemma_fundamental_div_mod(x as int, y as int);
        let q: int = x as int / y as int;
        lemma_mul_mod_noop(y as int, q, g as int);
        lemma_add_mod_noop(y * q, (x % y) as int, g as int);
        lemma_small_mod(0, g);
        assert(x == y * q + x % y);
    }
}

proof fn lemma_bezout(x: nat, y: nat) -> (c: (int, int))
    ensures
        c.0 * x + c.1 * y == gcd(x, y),
    decreases y,
{
    if y == 0 {
        (1, 0)
    } else {
        let (u, w) = lemma_bezout(y, x % y);
        lemma_fundamental_div_mod(x as int, y as int);
        let q: int = x as int / y as int;
        let r: int = (x % y) as int;
        assert(w * x + (u - w * q) * y == u * y + w * r) by (nonlinear_arith)
            requires
                x == y * q + r,
        ;
        (w, u - w * q)
    }
}

/// `p` is a prime number.
pub open spec fn is_prime(p: int) -> bool {
    p >= 2 && forall|t: int| 2 <= t < p ==> #[trigger] (p % t) != 0
}

/// A number with no divisor up to `b`, where `(b + 1)^2` exceeds it, is prime.
proof fn lemma_prime_from_small(p: int, b: int)
    requires
        2 <= p,
        1 <= b,
        p < (b + 1) * (b + 1),
        forall|t: int| 2 <= t <= b ==> #[trigger] (p % t) != 0,
    ensures
        is_prime(p),
{
    assert forall|t: int| 2 <= t < p implies #[trigger] (p % t) != 0 by {
        if p % t == 0 && t > b {
            lemma_fundamental_div_mod(p, t);
            let s = p / t;
            assert(p == t * s);
            assert(s >= 2 && s <= b) by (nonlinear_arith)
                requires
                    p == t * s,
                    2 <= t < p,
                    t >= b + 1,
                    p < (b + 1) * (b + 1),
                    b >= 1,
            ;
            lemma_mod_multiples_basic(t, s);
            assert(t * s == s * t) by (nonlinear_arith);
        }
    }
}

/// Euclid's lemma: a prime that does not share a factor with `h`... more exactly,
/// if `h` divides `p * m` for a prime `p` that does not divide `h`, then `h`
/// divides `m`.
proof fn lemma_euclid(p: int, h: int, m: int)
    requires
        is_prime(p),
        h >= 1,
        h % p != 0,
        m >= 0,
        (p * m) % h == 0,
    ensures
        m % h == 0,
{
    let g = gcd(h as nat, p as nat) as int;
    lemma_gcd_divides(h as nat, p as nat);
    if g > p {
        lemma_small_mod(p as nat, g as nat);
    }
    if g == p {
        assert(h % p == 0);
    }
    if 2 <= g && g < p {
        assert(p % g != 0);
    }
    assert(g == 1);
    let (u, w) = lemma_bezout(h as nat, p as nat);
    lemma_fundamental_div_mod(p * m, h);
    let c = (p * m) / h;
    assert(m == h * (m * u + w * c)) by (nonlinear_arith)
        requires
            u * h + w * p == 1,
            p * m == h * c + 0,
    ;
    lemma_mod_multiples_basic(m * u + w * c, h);
    assert(h * (m * u + w * c) == (m * u + w * c) * h) by (nonlinear_arith);
}

proof fn lemma_small_primes()
    ensures
        is_prime(2),
        is_prime(3),
        is_prime(7),
        is_prime(11),
        is_prime(31),
        is_prime(151),
        is_prime(331),
{
    lemma_prime_from_small(2, 1);
    lemma_prime_from_small(3, 1);
    lemma_prime_from_small(7, 2);
    assert forall|t: int| 2 <= t <= 3 implies #[trigger] (11int % t) != 0 by {
        assert(t == 2 || t == 3);
    }
    lemma_prime_from_small(11, 3);
    assert forall|t: int| 2 <= t <= 5 implies #[trigger] (31int % t) != 0 by {
        assert(t == 2 || t == 3 || t == 4 || t == 5);
    }
    lemma_prime_from_small(31, 5);
    assert forall|t: int| 2 <= t <= 12 implies #[trigger] (151int % t) != 0 by {
        assert(t == 2 || t == 3 || t == 4 || t == 5 || t == 6 || t == 7 || t == 8 || t == 9
            || t == 10 || t == 11 || t == 12);
    }
    lemma_prime_from_small(151, 12);
    assert forall|t: int| 2 <= t <= 18 implies #[trigger] (331int % t) != 0 by {
        assert(t == 2 || t == 3 || t == 4 || t == 5 || t == 6 || t == 7 || t == 8 || t == 9
            || t == 10 || t == 11 || t == 12 || t == 13 || t == 14 || t == 15 || t == 16 || t
            == 17 || t == 18);
    }
    lemma_prime_from_small(331, 18);
}

/// A divisor of `2^31 - 2` that none of its prime factors 2, 3, 7, 11, 31, 151,
/// 331 divides is 1.
proof fn lemma_divisor_of_period(h: int)
    requires
        h >= 1,
        2147483646int % h == 0,
        h % 2 != 0,
        h % 3 != 0,
        h % 7 != 0,
        h % 11 != 0,
        h % 31 != 0,
        h % 151 != 0,
        h % 331 != 0,
    ensures
        h == 1,
{
    lemma_small_primes();
    lemma_euclid(2, h, 1073741823);
    lemma_euclid(3, h, 357913941);
    lemma_euclid(3, h, 119304647);
    lemma_euclid(7, h, 17043521);
    lemma_euclid(11, h, 1549411);
    lemma_euclid(31, h, 49981);
    lemma_euclid(151, h, 331);
    lemma_euclid(331, h, 1);
    if h >= 2 {
        lemma_small_mod(1, h as nat);
    }
}

/// A factor `q` of the cofactor `h` of an exponent `g` with power 1 would make the
/// power of `e = (g * h) / q` equal to 1.
proof fn lemma_cofactor(g: nat, h: int, q: int, e: nat)
    requires
        power_of_multiplier(g) == 1,
        g * h == 2147483646,
        q >= 1,
        q * e == 2147483646,
        h % q == 0,
    ensures
        power_of_multiplier(e) == 1,
{
    lemma_fundamental_div_mod(h, q);
    let t = h / q;
    assert(h == q * t);
    assert(t >= 0 && e == g * t) by (nonlinear_arith)
        requires
            g * h == 2147483646,
            h == q * t,
            q * e == 2147483646,
            q >= 1,
            g >= 0,
    ;
    lemma_power_one_multiple(g, t as nat);
}

/// No exponent `0 < k < 2^31 - 2` brings the multiplier to 1: its order is the
/// whole period.
pub proof fn lemma_no_shorter_period(k: nat)
    requires
        0 < k < 2147483646,
    ensures
        power_of_multiplier(k) != 1,
{
    if power_of_multiplier(k) == 1 {
        let n: nat = 2147483646;
        lemma_power_n();
        lemma_gcd_power(n, k);
        lemma_gcd_divides(n, k);
        let g = gcd(n, k);
        if g > k {
            lemma_small_mod(k, g);
        }
        lemma_fundamental_div_mod(n as int, g as int);
        let h: int = n as int / g as int;
        assert(n == g * h);
        assert(h >= 2) by (nonlinear_arith)
            requires
                n == g * h,
                0 < g <= k < n,
        ;
        lemma_mod_multiples_basic(g as int, h);
        assert(g * h == h * g) by (nonlinear_arith);
        lemma_power_half();
        lemma_power_third();
        lemma_power_seventh();
        lemma_power_eleventh();
        lemma_power_thirty_first();
        lemma_power_p151();
        lemma_power_p331();
        if h % 2 == 0 {
            lemma_cofactor(g, h, 2, 1073741823);
        }
        if h % 3 == 0 {
            lemma_cofactor(g, h, 3, 715827882);
        }
        if h % 7 == 0 {
            lemma_cofactor(g, h, 7, 306783378);
        }
        if h % 11 == 0 {
            lemma_cofactor(g, h, 11, 195225786);
        }
        if h % 31 == 0 {
            lemma_cofactor(g, h, 31, 69273666);
        }
        if h % 151 == 0 {
            lemma_cofactor(g, h, 151, 14221746);
        }
        if h % 331 == 0 {
            lemma_cofactor(g, h, 331, 6487866);
        }
        lemma_divisor_of_period(h);
    }
}

/// The multiplier is invertible: every power times the same power of the inverse
/// 1899818559 is 1.
proof fn lemma_power_invertible(i: nat)
    ensures
        (power_of_multiplier(i) * pow(1899818559, i)) % 2147483647 == 1,
{
    reveal(power_of_multiplier);
    let p = pow(48271, i);
    let w = pow(1899818559, i);
    assert((48271int * 1899818559int) % 2147483647 == 1);
    lemma_pow_distributes(48271, 1899818559, i);
    lemma_pow_mod_noop(48271int * 1899818559int, i, 2147483647);
    lemma1_pow(i);
    lemma_mul_mod_noop_left(p, w, 2147483647);
}

/// Distinct exponents below the period give distinct powers.
proof fn lemma_powers_distinct(i: nat, j: nat)
    requires
        i < j < 2147483646,
    ensures
        power_of_multiplier(i) != power_of_multiplier(j),
{
    if power_of_multiplier(i) == power_of_multiplier(j) {
        let d: nat = (j - i) as nat;
        lemma_power_sum(i, d);
        lemma_power_sum(d, 0);
        lemma_power_invertible(i);
        let c = power_of_multiplier(i);
        let r = power_of_multiplier(d);
        let w = pow(1899818559, i);
        let m: int = 2147483647;
        assert(c == (c * r) % m);
        // (c * r * w) mod m computed two ways
        lemma_mul_mod_noop_left(c * r, w, m);
        assert((c * r * w) % m == (c * w) % m);
        assert(c * r * w == (c * w) * r) by (nonlinear_arith);
        lemma_mul_mod_noop_left(c * w, r, m);
        assert(((c * w) * r) % m == (1 * r) % m);
        lemma_small_mod(r as nat, 2147483647);
        assert(r == 1);
        lemma_no_shorter_period(d);
    }
}

/// No power of the multiplier is 0.
proof fn lemma_power_nonzero(i: nat)
    ensures
        1 <= power_of_multiplier(i) < 2147483647,
{
    lemma_power_sum(i, 0);
    lemma_power_invertible(i);
    if power_of_multiplier(i) == 0 {
        assert((0 * pow(1899818559, i)) % 2147483647 == 0);
    }
}

/// Every nonzero residue is a power of the multiplier with an exponent below the
/// period: the multiplier is a primitive root modulo `2^31 - 1`.
pub proof fn lemma_powers_cover(t: int)
    requires
        1 <= t < 2147483647,
    ensures
        exists|k: nat| k < 2147483646 && #[trigger] power_of_multiplier(k) == t,
{
    let f = |k: int| power_of_multiplier(k as nat);
    let dom = set_int_range(0, 2147483646);
    let range = set_int_range(1, 2147483647);
    lemma_int_range(0, 2147483646);
    lemma_int_range(1, 2147483647);
    assert forall|x1: int, x2: int| dom.contains(x1) && dom.contains(x2) && #[trigger] f(x1) == #[trigger] f(x2) implies x1 == x2 by {
        if x1 < x2 {
            lemma_powers_distinct(x1 as nat, x2 as nat);
        } else if x2 < x1 {
            lemma_powers_distinct(x2 as nat, x1 as nat);
        }
    }
    assert(injective_on(f, dom));
    let img = dom.map(f);
    lemma_map_size(dom, img, f);
    assert forall|y: int| img.contains(y) implies range.contains(y) by {
        let x = choose|x: int| dom.contains(x) && y == f(x);
        lemma_power_nonzero(x as nat);
    }
    lemma_subset_equality(img, range);
    assert(range.contains(t));
    assert(img.contains(t));
    let x = choose|x: int| dom.contains(x) && t == f(x);
    assert(power_of_multiplier(x as nat) == t);
}

/// From any state, the generator reaches any state after some positive number
/// of steps.
pub proof fn lemma_generator_reaches(s: int, t: int)
    requires
        1 <= s < 2147483647,
        1 <= t < 2147483647,
    ensures
        exists|k: nat| k >= 1 && #[trigger] lcg_iter(s, k) == t,
{
    lemma_powers_cover(s);
    lemma_powers_cover(t);
    let j = choose|k: nat| k < 2147483646 && #[trigger] power_of_multiplier(k) == s;
    let l = choose|k: nat| k < 2147483646 && #[trigger] power_of_multiplier(k) == t;
    let kk: nat = ((2147483646 - j) + l) as nat;
    lemma_iter_is_power(s, kk);
    reveal(power_of_multiplier);
    let m: int = 2147483647;
    lemma_mul_mod_noop_right(pow(48271, kk), pow(48271, j), m);
    lemma_pow_adds(48271, kk, j);
    assert(kk + j == 2147483646 + l);
    lemma_power_n();
    lemma_power_sum(2147483646, l);
    assert(pow(48271, kk) * s == s * pow(48271, kk)) by (nonlinear_arith);
    assert(lcg_iter(s, kk) == (pow(48271, kk) * s) % m);
    assert(power_of_multiplier(2147483646 + l) == (1 * t) % m);
    lemma_small_mod(t as nat, 2147483647);
}

} // verus!
