//! Primality certificates for the coefficient moduli: trial division for small primes, and
//! Pocklington's criterion with a small base for the others, each power checked one squaring at a
//! time.
use vstd::prelude::*;

use crate::primitives::field::is_prime;
use crate::primitives::field::primality::{
    lemma_pocklington, lemma_pocklington_single, lemma_pow_mod, lemma_pow_mod_compose,
    lemma_pow_mod_square, lemma_pow_mod_square_mul, lemma_pow_mod_zero, lemma_trial_division, no_divisor_in, pow_mod,
};

verus! {

/// `2` is prime: no integer lies strictly between `1` and `2`.
proof fn lemma_prime_2()
    ensures
        is_prime(2),
{
}

/// `5` is prime, by trial division up to `2`.
proof fn lemma_prime_5()
    ensures
        is_prime(5),
{
    assert(no_divisor_in(5, 3, 3));
    assert(no_divisor_in(5, 2, 3));
    lemma_trial_division(5, 2);
}

/// `7` is prime, by trial division up to `2`.
pub proof fn lemma_prime_7()
    ensures
        is_prime(7),
{
    assert(no_divisor_in(7, 3, 3));
    assert(no_divisor_in(7, 2, 3));
    lemma_trial_division(7, 2);
}

/// `79` is prime, by trial division up to `8`.
proof fn lemma_prime_79()
    ensures
        is_prime(79),
{
    assert(no_divisor_in(79, 9, 9));
    assert(no_divisor_in(79, 8, 9));
    assert(no_divisor_in(79, 7, 9));
    assert(no_divisor_in(79, 6, 9));
    assert(no_divisor_in(79, 5, 9));
    assert(no_divisor_in(79, 4, 9));
    assert(no_divisor_in(79, 3, 9));
    assert(no_divisor_in(79, 2, 9));
    lemma_trial_division(79, 8);
}

/// `113` is prime, by trial division up to `10`.
proof fn lemma_prime_113()
    ensures
        is_prime(113),
{
    assert(no_divisor_in(113, 11, 11));
    assert(no_divisor_in(113, 10, 11));
    assert(no_divisor_in(113, 9, 11));
    assert(no_divisor_in(113, 8, 11));
    assert(no_divisor_in(113, 7, 11));
    assert(no_divisor_in(113, 6, 11));
    assert(no_divisor_in(113, 5, 11));
    assert(no_divisor_in(113, 4, 11));
    assert(no_divisor_in(113, 3, 11));
    assert(no_divisor_in(113, 2, 11));
    lemma_trial_division(113, 10);
}

/// `271` is prime, by trial division up to `16`.
proof fn lemma_prime_271()
    ensures
        is_prime(271),
{
    assert(no_divisor_in(271, 17, 17));
    assert(no_divisor_in(271, 16, 17));
    assert(no_divisor_in(271, 15, 17));
    assert(no_divisor_in(271, 14, 17));
    assert(no_divisor_in(271, 13, 17));
    assert(no_divisor_in(271, 12, 17));
    assert(no_divisor_in(271, 11, 17));
    assert(no_divisor_in(271, 10, 17));
    assert(no_divisor_in(271, 9, 17));
    assert(no_divisor_in(271, 8, 17));
    assert(no_divisor_in(271, 7, 17));
    assert(no_divisor_in(271, 6, 17));
    assert(no_divisor_in(271, 5, 17));
    assert(no_divisor_in(271, 4, 17));
    assert(no_divisor_in(271, 3, 17));
    assert(no_divisor_in(271, 2, 17));
    lemma_trial_division(271, 16);
}

/// `5^132 mod 29833` is `14425`, one squaring at a time.
proof fn lemma_power_29833_base()
    ensures
        pow_mod(5, 132, 29833) == 14425,
{
    lemma_pow_mod_zero(5, 29833);
    lemma_pow_mod_square_mul(5, 1, 29833, 1, 0, 1, 0, 5);
    lemma_pow_mod_square(5, 2, 29833, 5, 0, 25);
    lemma_pow_mod_square(5, 4, 29833, 25, 0, 625);
    lemma_pow_mod_square(5, 8, 29833, 625, 13, 2796);
    lemma_pow_mod_square(5, 16, 29833, 2796, 262, 1370);
    lemma_pow_mod_square_mul(5, 33, 29833, 1370, 62, 27254, 4, 16938);
    lemma_pow_mod_square(5, 66, 29833, 16938, 9616, 21716);
    lemma_pow_mod_square(5, 132, 29833, 21716, 15807, 14425);
}

/// `14425^2 mod 29833` is `25283`, one squaring at a time.
proof fn lemma_power_29833_first()
    ensures
        pow_mod(14425, 2, 29833) == 25283,
{
    lemma_pow_mod_zero(14425, 29833);
    lemma_pow_mod_square_mul(14425, 1, 29833, 1, 0, 1, 0, 14425);
    lemma_pow_mod_square(14425, 2, 29833, 14425, 6974, 25283);
}

/// `14425^113 mod 29833` is `29832`, one squaring at a time.
proof fn lemma_power_29833_second()
    ensures
        pow_mod(14425, 113, 29833) == 29832,
{
    lemma_pow_mod_zero(14425, 29833);
    lemma_pow_mod_square_mul(14425, 1, 29833, 1, 0, 1, 0, 14425);
    lemma_pow_mod_square_mul(14425, 3, 29833, 14425, 6974, 25283, 12224, 28683);
    lemma_pow_mod_square_mul(14425, 7, 29833, 28683, 27577, 9848, 4761, 22487);
    lemma_pow_mod_square(14425, 14, 29833, 22487, 16949, 25652);
    lemma_pow_mod_square(14425, 28, 29833, 25652, 22056, 28456);
    lemma_pow_mod_square(14425, 56, 29833, 28456, 27142, 16650);
    lemma_pow_mod_square_mul(14425, 113, 29833, 16650, 9292, 14264, 6896, 29832);
}

/// `25283^113 mod 29833` is `1`, one squaring at a time.
proof fn lemma_power_29833_full()
    ensures
        pow_mod(25283, 113, 29833) == 1,
{
    lemma_pow_mod_zero(25283, 29833);
    lemma_pow_mod_square_mul(25283, 1, 29833, 1, 0, 1, 0, 25283);
    lemma_pow_mod_square_mul(25283, 3, 29833, 25283, 21426, 28231, 23925, 9848);
    lemma_pow_mod_square_mul(25283, 7, 29833, 9848, 3250, 25854, 21910, 25652);
    lemma_pow_mod_square(25283, 14, 29833, 25652, 22056, 28456);
    lemma_pow_mod_square(25283, 28, 29833, 28456, 27142, 16650);
    lemma_pow_mod_square(25283, 56, 29833, 16650, 9292, 14264);
    lemma_pow_mod_square_mul(25283, 113, 29833, 14264, 6820, 636, 539, 1);
}

/// `29833` is prime, by Pocklington's criterion with the prime factors `113` and `2` of `n - 1` and the base `5`.
proof fn lemma_prime_29833()
    ensures
        is_prime(29833),
{
    lemma_prime_113();
    lemma_prime_2();
    lemma_power_29833_base();
    lemma_pow_mod(5, 132, 29833);
    lemma_power_29833_first();
    lemma_pow_mod_compose(5, 132, 2, 264, 29833, 14425);
    lemma_power_29833_second();
    lemma_pow_mod_compose(5, 132, 113, 14916, 29833, 14425);
    lemma_power_29833_full();
    lemma_pow_mod_compose(5, 264, 113, 29832, 29833, 25283);
    lemma_pocklington(29833, 113, 2, 226, 5, -2491, 2111, 14916, -14915);
}

/// `2^196 mod 53117` is `46662`, one squaring at a time.
proof fn lemma_power_53117_base()
    ensures
        pow_mod(2, 196, 53117) == 46662,
{
    lemma_pow_mod_zero(2, 53117);
    lemma_pow_mod_square_mul(2, 1, 53117, 1, 0, 1, 0, 2);
    lemma_pow_mod_square_mul(2, 3, 53117, 2, 0, 4, 0, 8);
    lemma_pow_mod_square(2, 6, 53117, 8, 0, 64);
    lemma_pow_mod_square(2, 12, 53117, 64, 0, 4096);
    lemma_pow_mod_square(2, 24, 53117, 4096, 315, 45361);
    lemma_pow_mod_square_mul(2, 49, 53117, 45361, 38737, 27092, 1, 1067);
    lemma_pow_mod_square(2, 98, 53117, 1067, 21, 23032);
    lemma_pow_mod_square(2, 196, 53117, 23032, 9986, 46662);
}

/// `46662^271 mod 53117` is `1`, one squaring at a time.
proof fn lemma_power_53117_full()
    ensures
        pow_mod(46662, 271, 53117) == 1,
{
    lemma_pow_mod_zero(46662, 53117);
    lemma_pow_mod_square_mul(46662, 1, 53117, 1, 0, 1, 0, 46662);
    lemma_pow_mod_square(46662, 2, 53117, 46662, 40991, 23297);
    lemma_pow_mod_square(46662, 4, 53117, 23297, 10218, 703);
    lemma_pow_mod_square(46662, 8, 53117, 703, 9, 16156);
    lemma_pow_mod_square(46662, 16, 53117, 16156, 4913, 52515);
    lemma_pow_mod_square_mul(46662, 33, 53117, 52515, 51919, 43702, 38391, 7977);
    lemma_pow_mod_square_mul(46662, 67, 53117, 7977, 1197, 51480, 45223, 49669);
    lemma_pow_mod_square_mul(46662, 135, 53117, 49669, 46444, 43613, 38312, 51302);
    lemma_pow_mod_square_mul(46662, 271, 53117, 51302, 49549, 971, 853, 1);
}

/// `53117` is prime, by Pocklington's criterion with the prime factor `271` of `n - 1` and the base `2`.
proof fn lemma_prime_53117()
    ensures
        is_prime(53117),
{
    lemma_prime_271();
    lemma_power_53117_base();
    lemma_pow_mod(2, 196, 53117);
    lemma_power_53117_full();
    lemma_pow_mod_compose(2, 196, 271, 53116, 53117, 46662);
    lemma_pocklington_single(53117, 271, 2, 20972, -18423);
}

/// `2^726 mod 21658759` is `3257180`, one squaring at a time.
proof fn lemma_power_21658759_base()
    ensures
        pow_mod(2, 726, 21658759) == 3257180,
{
    lemma_pow_mod_zero(2, 21658759);
    lemma_pow_mod_square_mul(2, 1, 21658759, 1, 0, 1, 0, 2);
    lemma_pow_mod_square(2, 2, 21658759, 2, 0, 4);
    lemma_pow_mod_square_mul(2, 5, 21658759, 4, 0, 16, 0, 32);
    lemma_pow_mod_square_mul(2, 11, 21658759, 32, 0, 1024, 0, 2048);
    lemma_pow_mod_square(2, 22, 21658759, 2048, 0, 4194304);
    lemma_pow_mod_square_mul(2, 45, 21658759, 4194304, 812243, 10657979, 0, 21315958);
    lemma_pow_mod_square(2, 90, 21658759, 21315958, 20978582, 13758026);
    lemma_pow_mod_square_mul(2, 181, 21658759, 13758026, 8739340, 20537616, 1, 19416473);
    lemma_pow_mod_square_mul(2, 363, 21658759, 19416473, 17406326, 3850295, 0, 7700590);
    lemma_pow_mod_square(2, 726, 21658759, 7700590, 2737880, 3257180);
}

/// `3257180^29833 mod 21658759` is `1`, one squaring at a time.
proof fn lemma_power_21658759_full()
    ensures
        pow_mod(3257180, 29833, 21658759) == 1,
{
    lemma_pow_mod_zero(3257180, 21658759);
    lemma_pow_mod_square_mul(3257180, 1, 21658759, 1, 0, 1, 0, 3257180);
    lemma_pow_mod_square_mul(3257180, 3, 21658759, 3257180, 489835, 3337635, 501934, 10429394);
    lemma_pow_mod_square_mul(3257180, 7, 21658759, 10429394, 5022091, 562167, 84542, 4305682);
    lemma_pow_mod_square(3257180, 14, 21658759, 4305682, 855953, 17742797);
    lemma_pow_mod_square_mul(3257180, 29, 21658759, 17742797, 14534851, 10473300, 1575040, 11518640);
    lemma_pow_mod_square(3257180, 58, 21658759, 11518640, 6125885, 572885);
    lemma_pow_mod_square(3257180, 116, 21658759, 572885, 15153, 2048098);
    lemma_pow_mod_square_mul(3257180, 233, 21658759, 2048098, 193672, 10244556, 1540640, 12446320);
    lemma_pow_mod_square(3257180, 466, 21658759, 12446320, 7152343, 8220063);
    lemma_pow_mod_square(3257180, 932, 21658759, 8220063, 3119727, 20485176);
    lemma_pow_mod_square(3257180, 1864, 21658759, 20485176, 19375183, 16573079);
    lemma_pow_mod_square_mul(3257180, 3729, 21658759, 16573079, 12681564, 9121165, 1371697, 21470677);
    lemma_pow_mod_square(3257180, 7458, 21658759, 21470677, 21284228, 6085277);
    lemma_pow_mod_square(3257180, 14916, 21658759, 6085277, 1709728, 9459177);
    lemma_pow_mod_square_mul(3257180, 29833, 21658759, 9459177, 4131170, 14099299, 2120341, 1);
}

/// `21658759` is prime, by Pocklington's criterion with the prime factor `29833` of `n - 1` and the base `2`.
proof fn lemma_prime_21658759()
    ensures
        is_prime(21658759),
{
    lemma_prime_29833();
    lemma_power_21658759_base();
    lemma_pow_mod(2, 726, 21658759);
    lemma_power_21658759_full();
    lemma_pow_mod_compose(2, 726, 29833, 21658758, 21658759, 3257180);
    lemma_pocklington_single(21658759, 29833, 2, 10037289, -1509470);
}

/// `2^494 mod 26239799` is `9923326`, one squaring at a time.
proof fn lemma_power_26239799_base()
    ensures
        pow_mod(2, 494, 26239799) == 9923326,
{
    lemma_pow_mod_zero(2, 26239799);
    lemma_pow_mod_square_mul(2, 1, 26239799, 1, 0, 1, 0, 2);
    lemma_pow_mod_square_mul(2, 3, 26239799, 2, 0, 4, 0, 8);
    lemma_pow_mod_square_mul(2, 7, 26239799, 8, 0, 64, 0, 128);
    lemma_pow_mod_square_mul(2, 15, 26239799, 128, 0, 16384, 0, 32768);
    lemma_pow_mod_square(2, 30, 26239799, 32768, 40, 24149864);
    lemma_pow_mod_square_mul(2, 61, 26239799, 24149864, 22226387, 3842283, 0, 7684566);
    lemma_pow_mod_square_mul(2, 123, 26239799, 7684566, 2250495, 18157851, 1, 10075903);
    lemma_pow_mod_square_mul(2, 247, 26239799, 10075903, 3869077, 18469886, 1, 10699973);
    lemma_pow_mod_square(2, 494, 26239799, 10699973, 4363197, 9923326);
}

/// `9923326^53117 mod 26239799` is `1`, one squaring at a time.
proof fn lemma_power_26239799_full()
    ensures
        pow_mod(9923326, 53117, 26239799) == 1,
{
    lemma_pow_mod_zero(9923326, 26239799);
    lemma_pow_mod_square_mul(9923326, 1, 26239799, 1, 0, 1, 0, 9923326);
    lemma_pow_mod_square_mul(9923326, 3, 26239799, 9923326, 3752787, 22332463, 8445655, 21108593);
    lemma_pow_mod_square(9923326, 6, 26239799, 21108593, 16980796, 24539645);
    lemma_pow_mod_square(9923326, 12, 26239799, 24539645, 22949648, 26085273);
    lemma_pow_mod_square_mul(9923326, 25, 26239799, 26085273, 25931657, 67586, 25559, 14888395);
    lemma_pow_mod_square_mul(9923326, 51, 26239799, 14888395, 8447637, 8771062, 3317026, 12074438);
    lemma_pow_mod_square_mul(9923326, 103, 26239799, 12074438, 5556142, 3720386, 1406969, 19364605);
    lemma_pow_mod_square_mul(9923326, 207, 26239799, 19364605, 14290807, 23578232, 8916778, 20192010);
    lemma_pow_mod_square(9923326, 414, 26239799, 20192010, 15538124, 17243024);
    lemma_pow_mod_square_mul(9923326, 829, 26239799, 17243024, 11330950, 26185526, 9902801, 3202477);
    lemma_pow_mod_square_mul(9923326, 1659, 26239799, 3202477, 390851, 7256580, 2744282, 905762);
    lemma_pow_mod_square_mul(9923326, 3319, 26239799, 905762, 31265, 17484909, 6612415, 11582749);
    lemma_pow_mod_square_mul(9923326, 6639, 26239799, 11582749, 5112846, 23039047, 8712870, 16597192);
    lemma_pow_mod_square_mul(9923326, 13279, 26239799, 16597192, 10498052, 7913316, 2992645, 11130661);
    lemma_pow_mod_square(9923326, 26558, 26239799, 11130661, 4721515, 9721436);
    lemma_pow_mod_square_mul(9923326, 53117, 26239799, 9721436, 3601640, 8231736, 3113065, 1);
}

/// `26239799` is prime, by Pocklington's criterion with the prime factor `53117` of `n - 1` and the base `2`.
proof fn lemma_prime_26239799()
    ensures
        is_prime(26239799),
{
    lemma_prime_53117();
    lemma_power_26239799_base();
    lemma_pow_mod(2, 494, 26239799);
    lemma_power_26239799_full();
    lemma_pow_mod_compose(2, 494, 53117, 26239798, 26239799, 9923326);
    lemma_pocklington_single(26239799, 53117, 2, -8846021, 3345374);
}

/// `2^8 mod 209918393` is `256`, one squaring at a time.
proof fn lemma_power_209918393_base()
    ensures
        pow_mod(2, 8, 209918393) == 256,
{
    lemma_pow_mod_zero(2, 209918393);
    lemma_pow_mod_square_mul(2, 1, 209918393, 1, 0, 1, 0, 2);
    lemma_pow_mod_square(2, 2, 209918393, 2, 0, 4);
    lemma_pow_mod_square(2, 4, 209918393, 4, 0, 16);
    lemma_pow_mod_square(2, 8, 209918393, 16, 0, 256);
}

/// `256^26239799 mod 209918393` is `1`, one squaring at a time.
proof fn lemma_power_209918393_full()
    ensures
        pow_mod(256, 26239799, 209918393) == 1,
{
    lemma_pow_mod_zero(256, 209918393);
    lemma_pow_mod_square_mul(256, 1, 209918393, 1, 0, 1, 0, 256);
    lemma_pow_mod_square_mul(256, 3, 209918393, 256, 0, 65536, 0, 16777216);
    lemma_pow_mod_square(256, 6, 209918393, 16777216, 1340878, 21741602);
    lemma_pow_mod_square(256, 12, 209918393, 21741602, 2251814, 81311502);
    lemma_pow_mod_square_mul(256, 25, 209918393, 81311502, 31495860, 40143024, 48, 200531280);
    lemma_pow_mod_square(256, 50, 209918393, 200531280, 191563939, 26808373);
    lemma_pow_mod_square(256, 100, 209918393, 26808373, 3423658, 77365535);
    lemma_pow_mod_square(256, 200, 209918393, 77365535, 28513108, 195040781);
    lemma_pow_mod_square(256, 400, 209918393, 195040781, 181217594, 137283519);
    lemma_pow_mod_square(256, 800, 209918393, 137283519, 89781387, 108672270);
    lemma_pow_mod_square_mul(256, 1601, 209918393, 108672270, 56258349, 52039743, 63, 97315449);
    lemma_pow_mod_square_mul(256, 3203, 209918393, 97315449, 45114182, 27122075, 33, 15944231);
    lemma_pow_mod_square(256, 6406, 209918393, 15944231, 1211034, 191032999);
    lemma_pow_mod_square(256, 12812, 209918393, 191032999, 173846637, 39439660);
    lemma_pow_mod_square(256, 25624, 209918393, 39439660, 7409959, 95439713);
    lemma_pow_mod_square_mul(256, 51249, 209918393, 95439713, 43391809, 2879432, 3, 107379413);
    lemma_pow_mod_square_mul(256, 102499, 209918393, 107379413, 54927718, 42507395, 51, 176055077);
    lemma_pow_mod_square(256, 204998, 209918393, 176055077, 147654475, 26217254);
    lemma_pow_mod_square(256, 409996, 209918393, 26217254, 3274341, 6446503);
    lemma_pow_mod_square_mul(256, 819993, 209918393, 6446503, 197969, 66585192, 81, 42419319);
    lemma_pow_mod_square_mul(256, 1639987, 209918393, 42419319, 8571895, 201059026, 245, 41104371);
    lemma_pow_mod_square(256, 3279974, 209918393, 41104371, 8048695, 195158506);
    lemma_pow_mod_square_mul(256, 6559949, 209918393, 195158506, 181436423, 116323797, 141, 180398619);
    lemma_pow_mod_square_mul(256, 13119899, 209918393, 180398619, 155030063, 45458402, 55, 91839297);
    lemma_pow_mod_square_mul(256, 26239799, 209918393, 91839297, 40179692, 97579253, 119, 1);
}

/// `209918393` is prime, by Pocklington's criterion with the prime factor `26239799` of `n - 1` and the base `2`.
proof fn lemma_prime_209918393()
    ensures
        is_prime(209918393),
{
    lemma_prime_26239799();
    lemma_power_209918393_base();
    lemma_pow_mod(2, 8, 209918393);
    lemma_power_209918393_full();
    lemma_pow_mod_compose(2, 8, 26239799, 209918392, 209918393, 256);
    lemma_pocklington_single(209918393, 26239799, 2, 10701722, -13);
}

/// `2^89686314 mod 9712471302621631` is `3927438670739744`, one squaring at a time.
proof fn lemma_power_9712471302621631_base()
    ensures
        pow_mod(2, 89686314, 9712471302621631) == 3927438670739744,
{
    lemma_pow_mod_zero(2, 9712471302621631);
    lemma_pow_mod_square_mul(2, 1, 9712471302621631, 1, 0, 1, 0, 2);
    lemma_pow_mod_square(2, 2, 9712471302621631, 2, 0, 4);
    lemma_pow_mod_square_mul(2, 5, 9712471302621631, 4, 0, 16, 0, 32);
    lemma_pow_mod_square(2, 10, 9712471302621631, 32, 0, 1024);
    lemma_pow_mod_square_mul(2, 21, 9712471302621631, 1024, 0, 1048576, 0, 2097152);
    lemma_pow_mod_square(2, 42, 9712471302621631, 2097152, 0, 4398046511104);
    lemma_pow_mod_square_mul(2, 85, 9712471302621631, 4398046511104, 1991543914, 1198305332495082, 0, 2396610664990164);
    lemma_pow_mod_square_mul(2, 171, 9712471302621631, 2396610664990164, 591378084998225, 116203735141921, 0, 232407470283842);
    lemma_pow_mod_square(2, 342, 9712471302621631, 232407470283842, 5561224384689, 3352109489673205);
    lemma_pow_mod_square(2, 684, 9712471302621631, 3352109489673205, 1156928826932452, 7292430343902813);
    lemma_pow_mod_square(2, 1368, 9712471302621631, 7292430343902813, 5475387124831972, 9484460821726637);
    lemma_pow_mod_square_mul(2, 2737, 9712471302621631, 9484460821726637, 9261803126727024, 629370260673625, 0, 1258740521347250);
    lemma_pow_mod_square(2, 5474, 9712471302621631, 1258740521347250, 163133321140817, 2990067261349973);
    lemma_pow_mod_square(2, 10948, 9712471302621631, 2990067261349973, 920517749687833, 7899865623785106);
    lemma_pow_mod_square(2, 21896, 9712471302621631, 7899865623785106, 6425540413902303, 7096995458915043);
    lemma_pow_mod_square(2, 43792, 9712471302621631, 7096995458915043, 5185842302593509, 5124204468098670);
    lemma_pow_mod_square(2, 87584, 9712471302621631, 5124204468098670, 2703479949927352, 3304119262017788);
    lemma_pow_mod_square(2, 175168, 9712471302621631, 3304119262017788, 1124039779112670, 7619339300248174);
    lemma_pow_mod_square_mul(2, 350337, 9712471302621631, 7619339300248174, 5977297596404332, 7402307305028784, 1, 5092143307435937);
    lemma_pow_mod_square(2, 700674, 9712471302621631, 5092143307435937, 2669755477832453, 3908633087477126);
    lemma_pow_mod_square(2, 1401348, 9712471302621631, 3908633087477126, 1572968623175980, 6605844105596496);
    lemma_pow_mod_square_mul(2, 2802697, 9712471302621631, 6605844105596496, 4492901444729647, 7741788838283759, 1, 5771106373945887);
    lemma_pow_mod_square(2, 5605394, 9712471302621631, 5771106373945887, 3429165218785134, 3434227314583215);
    lemma_pow_mod_square_mul(2, 11210789, 9712471302621631, 3434227314583215, 1214306522073941, 8300044631718454, 1, 6887617960815277);
    lemma_pow_mod_square(2, 22421578, 9712471302621631, 6887617960815277, 4884367705811412, 2560384838733757);
    lemma_pow_mod_square_mul(2, 44843157, 9712471302621631, 2560384838733757, 674964210256989, 8455275191005990, 1, 7198079079390349);
    lemma_pow_mod_square(2, 89686314, 9712471302621631, 7198079079390349, 5334619873643447, 3927438670739744);
}

/// `3927438670739744^5 mod 9712471302621631` is `3129909443666513`, one squaring at a time.
proof fn lemma_power_9712471302621631_first()
    ensures
        pow_mod(3927438670739744, 5, 9712471302621631) == 3129909443666513,
{
    lemma_pow_mod_zero(3927438670739744, 9712471302621631);
    lemma_pow_mod_square_mul(3927438670739744, 1, 9712471302621631, 1, 0, 1, 0, 3927438670739744);
    lemma_pow_mod_square(3927438670739744, 2, 9712471302621631, 3927438670739744, 1588141064391968, 6286246801725728);
    lemma_pow_mod_square_mul(3927438670739744, 5, 9712471302621631, 6286246801725728, 4068675996143265, 5117079373164769, 2069196889774833, 3129909443666513);
}

/// `3927438670739744^21658759 mod 9712471302621631` is `2973328209444361`, one squaring at a time.
proof fn lemma_power_9712471302621631_second()
    ensures
        pow_mod(3927438670739744, 21658759, 9712471302621631) == 2973328209444361,
{
    lemma_pow_mod_zero(3927438670739744, 9712471302621631);
    lemma_pow_mod_square_mul(3927438670739744, 1, 9712471302621631, 1, 0, 1, 0, 3927438670739744);
    lemma_pow_mod_square(3927438670739744, 2, 9712471302621631, 3927438670739744, 1588141064391968, 6286246801725728);
    lemma_pow_mod_square_mul(3927438670739744, 5, 9712471302621631, 6286246801725728, 4068675996143265, 5117079373164769, 2069196889774833, 3129909443666513);
    lemma_pow_mod_square(3927438670739744, 10, 9712471302621631, 3129909443666513, 1008634447435489, 8065578309116610);
    lemma_pow_mod_square(3927438670739744, 20, 9712471302621631, 8065578309116610, 6697940352516956, 7676566398016864);
    lemma_pow_mod_square_mul(3927438670739744, 41, 9712471302621631, 7676566398016864, 6067422989168067, 3822979259737219, 1545900740841846, 5489240029761110);
    lemma_pow_mod_square(3927438670739744, 82, 9712471302621631, 5489240029761110, 3102377877420184, 6640645514031996);
    lemma_pow_mod_square_mul(3927438670739744, 165, 9712471302621631, 6640645514031996, 4540365831622082, 4696965081288274, 1899314985917797, 1894675332894949);
    lemma_pow_mod_square(3927438670739744, 330, 9712471302621631, 1894675332894949, 369606715451670, 1977089792638831);
    lemma_pow_mod_square(3927438670739744, 660, 9712471302621631, 1977089792638831, 402460293200717, 4379388220137134);
    lemma_pow_mod_square_mul(3927438670739744, 1321, 9712471302621631, 4379388220137134, 1974681889407385, 6371382293589021, 2576400220524063, 2452806166943871);
    lemma_pow_mod_square_mul(3927438670739744, 2643, 9712471302621631, 2452806166943871, 619436382887839, 3743880736219232, 1513915616728367, 2170268894050031);
    lemma_pow_mod_square_mul(3927438670739744, 5287, 9712471302621631, 2170268894050031, 484950423607407, 663162521080144, 268163482714475, 7979342658234411);
    lemma_pow_mod_square_mul(3927438670739744, 10575, 9712471302621631, 7979342658234411, 6555479781992596, 1868823993072845, 755697637656792, 3012270415383928);
    lemma_pow_mod_square_mul(3927438670739744, 21151, 9712471302621631, 3012270415383928, 934239368403387, 8187007800844987, 3310585950046247, 8103058771494471);
    lemma_pow_mod_square(3927438670739744, 42302, 9712471302621631, 8103058771494471, 6760335182310436, 3963532292928725);
    lemma_pow_mod_square(3927438670739744, 84604, 9712471302621631, 3963532292928725, 1617465601452890, 5931378388662035);
    lemma_pow_mod_square_mul(3927438670739744, 169209, 9712471302621631, 5931378388662035, 3622275782682700, 7487697220857525, 3027805252000957, 2792795158072733);
    lemma_pow_mod_square(3927438670739744, 338418, 9712471302621631, 2792795158072733, 803060781538594, 8597340912362475);
    lemma_pow_mod_square(3927438670739744, 676836, 9712471302621631, 8597340912362475, 7610243413891002, 5733640706661363);
    lemma_pow_mod_square(3927438670739744, 1353672, 9712471302621631, 5733640706661363, 3384785882889615, 7718426672755704);
    lemma_pow_mod_square(3927438670739744, 2707344, 9712471302621631, 7718426672755704, 6133774653895367, 8433911799652039);
    lemma_pow_mod_square_mul(3927438670739744, 5414689, 9712471302621631, 8433911799652039, 7323663157193571, 5983972638123220, 2419743112885181, 4093551633305469);
    lemma_pow_mod_square_mul(3927438670739744, 10829379, 9712471302621631, 4093551633305469, 1725324528888410, 5639027814113251, 2280257538217631, 2636474236571583);
    lemma_pow_mod_square_mul(3927438670739744, 21658759, 9712471302621631, 2636474236571583, 715677419631548, 2768919408311101, 1119669837009193, 2973328209444361);
}

/// `3129909443666513^21658759 mod 9712471302621631` is `1`, one squaring at a time.
proof fn lemma_power_9712471302621631_full()
    ensures
        pow_mod(3129909443666513, 21658759, 9712471302621631) == 1,
{
    lemma_pow_mod_zero(3129909443666513, 9712471302621631);
    lemma_pow_mod_square_mul(3129909443666513, 1, 9712471302621631, 1, 0, 1, 0, 3129909443666513);
    lemma_pow_mod_square(3129909443666513, 2, 9712471302621631, 3129909443666513, 1008634447435489, 8065578309116610);
    lemma_pow_mod_square_mul(3129909443666513, 5, 9712471302621631, 8065578309116610, 6697940352516956, 7676566398016864, 2473825344287045, 9671011076004837);
    lemma_pow_mod_square(3129909443666513, 10, 9712471302621631, 9671011076004837, 9629727833220227, 811031170466332);
    lemma_pow_mod_square(3129909443666513, 20, 9712471302621631, 811031170466332, 67724427591404, 539818265474300);
    lemma_pow_mod_square_mul(3129909443666513, 41, 9712471302621631, 539818265474300, 30003049755320, 7383754871163080, 2379464853063078, 108545947699822);
    lemma_pow_mod_square(3129909443666513, 82, 9712471302621631, 108545947699822, 1213102453015, 4399966118664219);
    lemma_pow_mod_square_mul(3129909443666513, 165, 9712471302621631, 4399966118664219, 1993282784801373, 8710808362580598, 2807116799269308, 9200510000913426);
    lemma_pow_mod_square(3129909443666513, 330, 9712471302621631, 9200510000913426, 8715535072320785, 4462200435157141);
    lemma_pow_mod_square(3129909443666513, 660, 9712471302621631, 4462200435157141, 2050068628582928, 7163350473178313);
    lemma_pow_mod_square_mul(3129909443666513, 1321, 9712471302621631, 7163350473178313, 5283268120208826, 8737870908810763, 2815837887484271, 4381053620213418);
    lemma_pow_mod_square_mul(3129909443666513, 2643, 9712471302621631, 4381053620213418, 1976184044734759, 7549693136270795, 2432939579200604, 2582327982722711);
    lemma_pow_mod_square_mul(3129909443666513, 5287, 9712471302621631, 2582327982722711, 686583012971454, 3995771149268047, 1287664227275346, 581094022200785);
    lemma_pow_mod_square_mul(3129909443666513, 10575, 9712471302621631, 581094022200785, 34766667732273, 3440296328018962, 1108658716260122, 4554868728520524);
    lemma_pow_mod_square_mul(3129909443666513, 21151, 9712471302621631, 4554868728520524, 2136101975246413, 7115903760274973, 2293148024385400, 3044904671491749);
    lemma_pow_mod_square(3129909443666513, 42302, 9712471302621631, 3044904671491749, 954591696550978, 5899408938073883);
    lemma_pow_mod_square(3129909443666513, 84604, 9712471302621631, 5899408938073883, 3583333709231330, 3483843125798459);
    lemma_pow_mod_square_mul(3129909443666513, 169209, 9712471302621631, 3483843125798459, 1249647236733359, 8446145074086152, 2721827267878157, 8730588938813909);
    lemma_pow_mod_square(3129909443666513, 338418, 9712471302621631, 8730588938813909, 7847969980407076, 8313916348799325);
    lemma_pow_mod_square(3129909443666513, 676836, 9712471302621631, 8313916348799325, 7116747416919030, 528165266917695);
    lemma_pow_mod_square(3129909443666513, 1353672, 9712471302621631, 528165266917695, 28721685808527, 6559742909665488);
    lemma_pow_mod_square(3129909443666513, 2707344, 9712471302621631, 6559742909665488, 4430409696993569, 8058083410987105);
    lemma_pow_mod_square_mul(3129909443666513, 5414689, 9712471302621631, 8058083410987105, 6685498081306934, 4963441497591671, 1599502529516367, 8320207947678646);
    lemma_pow_mod_square_mul(3129909443666513, 10829379, 9712471302621631, 8320207947678646, 7127522762814153, 3619751953649773, 1166489503078441, 9657701073794278);
    lemma_pow_mod_square_mul(3129909443666513, 21658759, 9712471302621631, 9657701073794278, 9603239703327720, 4414240711629964, 1422518868726901, 1);
}

/// `9712471302621631` is prime, by Pocklington's criterion with the prime factors `21658759` and `5` of `n - 1` and the base `2`.
proof fn lemma_prime_9712471302621631()
    ensures
        is_prime(9712471302621631),
{
    lemma_prime_21658759();
    lemma_prime_5();
    lemma_power_9712471302621631_base();
    lemma_pow_mod(2, 89686314, 9712471302621631);
    lemma_power_9712471302621631_first();
    lemma_pow_mod_compose(2, 89686314, 5, 448431570, 9712471302621631, 3927438670739744);
    lemma_power_9712471302621631_second();
    lemma_pow_mod_compose(2, 89686314, 21658759, 1942494260524326, 9712471302621631, 3927438670739744);
    lemma_power_9712471302621631_full();
    lemma_pow_mod_compose(2, 448431570, 21658759, 9712471302621630, 9712471302621631, 3129909443666513);
    lemma_pocklington(9712471302621631, 21658759, 5, 108293795, 2, -1433695080914539, 462017918331599, 3117843458666311, -954481266346889);
}

/// `2^1294221216 mod 21462786190088845153` is `6151578448162879591`, one squaring at a time.
proof fn lemma_power_21462786190088845153_base()
    ensures
        pow_mod(2, 1294221216, 21462786190088845153) == 6151578448162879591,
{
    lemma_pow_mod_zero(2, 21462786190088845153);
    lemma_pow_mod_square_mul(2, 1, 21462786190088845153, 1, 0, 1, 0, 2);
    lemma_pow_mod_square(2, 2, 21462786190088845153, 2, 0, 4);
    lemma_pow_mod_square(2, 4, 21462786190088845153, 4, 0, 16);
    lemma_pow_mod_square_mul(2, 9, 21462786190088845153, 16, 0, 256, 0, 512);
    lemma_pow_mod_square_mul(2, 19, 21462786190088845153, 512, 0, 262144, 0, 524288);
    lemma_pow_mod_square(2, 38, 21462786190088845153, 524288, 0, 274877906944);
    lemma_pow_mod_square_mul(2, 77, 21462786190088845153, 274877906944, 3520, 8856336801588480576, 0, 17712673603176961152);
    lemma_pow_mod_square(2, 154, 21462786190088845153, 17712673603176961152, 14617804202772202652, 14458741312553221348);
    lemma_pow_mod_square(2, 308, 21462786190088845153, 14458741312553221348, 9740357029688505066, 19454771696952892006);
    lemma_pow_mod_square_mul(2, 617, 21462786190088845153, 19454771696952892006, 17634622943564465452, 20818924348652549880, 1, 20175062507216254607);
    lemma_pow_mod_square(2, 1234, 21462786190088845153, 20175062507216254607, 18964599636092172836, 8503917295331860541);
    lemma_pow_mod_square(2, 2468, 21462786190088845153, 8503917295331860541, 3369395227877680860, 7612458787380941101);
    lemma_pow_mod_square_mul(2, 4937, 21462786190088845153, 7612458787380941101, 2700000283110187675, 14867748906587002926, 1, 8272711623085160699);
    lemma_pow_mod_square(2, 9874, 21462786190088845153, 8272711623085160699, 3188670706244640458, 17646863141733168527);
    lemma_pow_mod_square(2, 19748, 21462786190088845153, 17646863141733168527, 14509382704789062936, 19888470733707800521);
    lemma_pow_mod_square(2, 39496, 21462786190088845153, 19888470733707800521, 18429632789624053634, 10359805045934935439);
    lemma_pow_mod_square(2, 78992, 21462786190088845153, 10359805045934935439, 5000541851334292021, 13666395366345698508);
    lemma_pow_mod_square_mul(2, 157985, 21462786190088845153, 13666395366345698508, 8702055765505533531, 18018527175525100821, 1, 14574268160961356489);
    lemma_pow_mod_square_mul(2, 315971, 21462786190088845153, 14574268160961356489, 9896631804760696466, 4883152033034077823, 0, 9766304066068155646);
    lemma_pow_mod_square_mul(2, 631943, 21462786190088845153, 9766304066068155646, 4444003414381707621, 1406139260092666303, 0, 2812278520185332606);
    lemma_pow_mod_square_mul(2, 1263887, 21462786190088845153, 2812278520185332606, 368494118380026842, 21219208837925154410, 1, 20975631485761463667);
    lemma_pow_mod_square_mul(2, 2527775, 21462786190088845153, 20975631485761463667, 20499534046033674974, 16332957949943785867, 1, 11203129709798726581);
    lemma_pow_mod_square_mul(2, 5055551, 21462786190088845153, 11203129709798726581, 5847801594022931038, 6532777595616390747, 0, 13065555191232781494);
    lemma_pow_mod_square_mul(2, 10111103, 21462786190088845153, 13065555191232781494, 7953707917659838412, 12088127906279455000, 1, 2713469622470064847);
    lemma_pow_mod_square(2, 20222206, 21462786190088845153, 2713469622470064847, 343055059434357505, 550391092396710144);
    lemma_pow_mod_square_mul(2, 40444413, 21462786190088845153, 550391092396710144, 14114213872639335, 5304880420120607481, 0, 10609760840241214962);
    lemma_pow_mod_square(2, 80888826, 21462786190088845153, 10609760840241214962, 5244753597699143867, 16451883203060034793);
    lemma_pow_mod_square(2, 161777652, 21462786190088845153, 16451883203060034793, 12610872536768652174, 9074782046367740227);
    lemma_pow_mod_square(2, 323555304, 21462786190088845153, 9074782046367740227, 3836951477767918648, 10844623807780898385);
    lemma_pow_mod_square(2, 647110608, 21462786190088845153, 10844623807780898385, 5479524628847893418, 16787948953245705271);
    lemma_pow_mod_square(2, 1294221216, 21462786190088845153, 16787948953245705271, 13131344065055745450, 6151578448162879591);
}

/// `6151578448162879591^79 mod 21462786190088845153` is `7276840594520826791`, one squaring at a time.
proof fn lemma_power_21462786190088845153_first()
    ensures
        pow_mod(6151578448162879591, 79, 21462786190088845153) == 7276840594520826791,
{
    lemma_pow_mod_zero(6151578448162879591, 21462786190088845153);
    lemma_pow_mod_square_mul(6151578448162879591, 1, 21462786190088845153, 1, 0, 1, 0, 6151578448162879591);
    lemma_pow_mod_square(6151578448162879591, 2, 21462786190088845153, 6151578448162879591, 1763140957970162556, 112511995441636213);
    lemma_pow_mod_square(6151578448162879591, 4, 21462786190088845153, 112511995441636213, 589809217039326, 7522955805507494491);
    lemma_pow_mod_square_mul(6151578448162879591, 9, 21462786190088845153, 7522955805507494491, 2636883373406267016, 2194746204199975633, 629049431391086720, 14091951194838337943);
    lemma_pow_mod_square_mul(6151578448162879591, 19, 21462786190088845153, 14091951194838337943, 9252437531591681301, 16270279941958887196, 4663322951180960549, 16280416812636747839);
    lemma_pow_mod_square_mul(6151578448162879591, 39, 21462786190088845153, 16280416812636747839, 12349373899814640131, 13496157082392534878, 3868214886257647345, 15682354900595306113);
    lemma_pow_mod_square_mul(6151578448162879591, 79, 21462786190088845153, 15682354900595306113, 11458729218566919010, 7479776507993110239, 2143823805359119186, 7276840594520826791);
}

/// `6151578448162879591^209918393 mod 21462786190088845153` is `1112815938283118504`, one squaring at a time.
proof fn lemma_power_21462786190088845153_second()
    ensures
        pow_mod(6151578448162879591, 209918393, 21462786190088845153) == 1112815938283118504,
{
    lemma_pow_mod_zero(6151578448162879591, 21462786190088845153);
    lemma_pow_mod_square_mul(6151578448162879591, 1, 21462786190088845153, 1, 0, 1, 0, 6151578448162879591);
    lemma_pow_mod_square_mul(6151578448162879591, 3, 21462786190088845153, 6151578448162879591, 1763140957970162556, 112511995441636213, 32247740819324838, 3929880514155418669);
    lemma_pow_mod_square(6151578448162879591, 6, 21462786190088845153, 3929880514155418669, 719569245053105919, 19062690396174970954);
    lemma_pow_mod_square(6151578448162879591, 12, 21462786190088845153, 19062690396174970954, 16930987520540418470, 13379696981092494206);
    lemma_pow_mod_square_mul(6151578448162879591, 25, 21462786190088845153, 13379696981092494206, 8340775970107847668, 1987879277579417232, 569758055324340785, 3710494213099047007);
    lemma_pow_mod_square(6151578448162879591, 50, 21462786190088845153, 3710494213099047007, 641471577059237546, 6959482301757943511);
    lemma_pow_mod_square(6151578448162879591, 100, 21462786190088845153, 6959482301757943511, 2256668518221004998, 2732069891005932427);
    lemma_pow_mod_square(6151578448162879591, 200, 21462786190088845153, 2732069891005932427, 347774320781707858, 9338343173444798055);
    lemma_pow_mod_square(6151578448162879591, 400, 21462786190088845153, 9338343173444798055, 4063063036302933893, 17471385953659312396);
    lemma_pow_mod_square(6151578448162879591, 800, 21462786190088845153, 17471385953659312396, 14222260075566654191, 10141106368221774593);
    lemma_pow_mod_square_mul(6151578448162879591, 1601, 21462786190088845153, 10141106368221774593, 4791644358786882949, 11593318598103319452, 3322830885009298561, 14784683417009379299);
    lemma_pow_mod_square_mul(6151578448162879591, 3203, 21462786190088845153, 14784683417009379299, 10184458895748208355, 14025279266473878086, 4019869783026955793, 1747130442278221497);
    lemma_pow_mod_square(6151578448162879591, 6406, 21462786190088845153, 1747130442278221497, 142221273384574409, 2826111498185431432);
    lemma_pow_mod_square(6151578448162879591, 12812, 21462786190088845153, 2826111498185431432, 372128116519379165, 18782497668594133379);
    lemma_pow_mod_square(6151578448162879591, 25624, 21462786190088845153, 18782497668594133379, 16436925548540989061, 2868314126146086308);
    lemma_pow_mod_square_mul(6151578448162879591, 51249, 21462786190088845153, 2868314126146086308, 383325158876547990, 20691120511101678394, 5930406699164303742, 6035204330131794328);
    lemma_pow_mod_square_mul(6151578448162879591, 102499, 21462786190088845153, 6035204330131794328, 1697062580032661850, 10354022137832458534, 2967628660639787924, 1465475108547047222);
    lemma_pow_mod_square(6151578448162879591, 204998, 21462786190088845153, 1465475108547047222, 100062371900378595, 16503725528067217249);
    lemma_pow_mod_square(6151578448162879591, 409996, 21462786190088845153, 16503725528067217249, 12690475220386569094, 15709017792261626619);
    lemma_pow_mod_square_mul(6151578448162879591, 819993, 21462786190088845153, 15709017792261626619, 11497726241691215973, 12825075051892142292, 3675872022697745735, 5458618386053590117);
    lemma_pow_mod_square_mul(6151578448162879591, 1639987, 21462786190088845153, 5458618386053590117, 1388287355642662644, 18938930088706509157, 5428200846484236713, 3153943273675212698);
    lemma_pow_mod_square(6151578448162879591, 3279974, 21462786190088845153, 3153943273675212698, 463470030659609369, 1305791500231400747);
    lemma_pow_mod_square_mul(6151578448162879591, 6559949, 21462786190088845153, 1305791500231400747, 79444086474847096, 697840044816432321, 200012139241275877, 3228852885316386530);
    lemma_pow_mod_square_mul(6151578448162879591, 13119899, 21462786190088845153, 3228852885316386530, 485747323887998813, 19728416256960637511, 5654480233267555599, 21284952991761776354);
    lemma_pow_mod_square_mul(6151578448162879591, 26239799, 21462786190088845153, 21284952991761776354, 21108593257604137631, 19598328930254280773, 5617195120875414917, 12318239120066056542);
    lemma_pow_mod_square(6151578448162879591, 52479598, 21462786190088845153, 12318239120066056542, 7069865658410943321, 8654506560512424651);
    lemma_pow_mod_square(6151578448162879591, 104959196, 21462786190088845153, 8654506560512424651, 3489783811970338983, 16770527374545972402);
    lemma_pow_mod_square_mul(6151578448162879591, 209918393, 21462786190088845153, 16770527374545972402, 13104104282149194253, 19885884157511143895, 5699613056877906297, 1112815938283118504);
}

/// `7276840594520826791^209918393 mod 21462786190088845153` is `1`, one squaring at a time.
proof fn lemma_power_21462786190088845153_full()
    ensures
        pow_mod(7276840594520826791, 209918393, 21462786190088845153) == 1,
{
    lemma_pow_mod_zero(7276840594520826791, 21462786190088845153);
    lemma_pow_mod_square_mul(7276840594520826791, 1, 21462786190088845153, 1, 0, 1, 0, 7276840594520826791);
    lemma_pow_mod_square_mul(7276840594520826791, 3, 21462786190088845153, 7276840594520826791, 2467173113923054159, 7463123867239716354, 2530331441504353068, 11627150053911560610);
    lemma_pow_mod_square(7276840594520826791, 6, 21462786190088845153, 11627150053911560610, 6298838239305778852, 20586340989813467744);
    lemma_pow_mod_square(7276840594520826791, 12, 21462786190088845153, 20586340989813467744, 19745685932638917946, 9007629303861633798);
    lemma_pow_mod_square_mul(7276840594520826791, 25, 21462786190088845153, 9007629303861633798, 3780375248450022111, 17870976072550726821, 6059056964770946326, 13186921632610803533);
    lemma_pow_mod_square(7276840594520826791, 50, 21462786190088845153, 13186921632610803533, 8102158806619456079, 12335380669809747002);
    lemma_pow_mod_square(7276840594520826791, 100, 21462786190088845153, 12335380669809747002, 7089555611348429965, 8182255736697778359);
    lemma_pow_mod_square(7276840594520826791, 200, 21462786190088845153, 8182255736697778359, 3119320499574271123, 12174825163502316062);
    lemma_pow_mod_square(7276840594520826791, 400, 21462786190088845153, 12174825163502316062, 6906203437384921101, 10259673213031914391);
    lemma_pow_mod_square(7276840594520826791, 800, 21462786190088845153, 10259673213031914391, 4904344361721886891, 3826131420073311558);
    lemma_pow_mod_square_mul(7276840594520826791, 1601, 21462786190088845153, 3826131420073311558, 682077411293058985, 12953686401176037659, 4391876721778962572, 14876712724141508753);
    lemma_pow_mod_square_mul(7276840594520826791, 3203, 21462786190088845153, 14876712724141508753, 10311642650516369461, 3189975107408542476, 1081543661270816891, 56221056646395193);
    lemma_pow_mod_square(7276840594520826791, 6406, 21462786190088845153, 56221056646395193, 147269193404945, 327664562604025664);
    lemma_pow_mod_square(7276840594520826791, 12812, 21462786190088845153, 327664562604025664, 5002335886664443, 7945835075672646117);
    lemma_pow_mod_square(7276840594520826791, 25624, 21462786190088845153, 7945835075672646117, 2941663514261955814, 12386230542341108147);
    lemma_pow_mod_square_mul(7276840594520826791, 51249, 21462786190088845153, 12386230542341108147, 7148126328485249923, 17728642458297600390, 6010799529180393526, 18663156226706369012);
    lemma_pow_mod_square_mul(7276840594520826791, 102499, 21462786190088845153, 18663156226706369012, 16228713143650194048, 18346185016439606800, 6220173965291914435, 19030332377305295245);
    lemma_pow_mod_square(7276840594520826791, 204998, 21462786190088845153, 19030332377305295245, 16873557197245465190, 9127249283257885955);
    lemma_pow_mod_square(7276840594520826791, 409996, 21462786190088845153, 9127249283257885955, 3881447578190068392, 1886663126418558049);
    lemma_pow_mod_square_mul(7276840594520826791, 819993, 21462786190088845153, 1886663126418558049, 165845092107899967, 16241111993305876450, 5506460438376013190, 10127914349500403880);
    lemma_pow_mod_square_mul(7276840594520826791, 1639987, 21462786190088845153, 10127914349500403880, 4779186083407169307, 6277701234741735429, 2128420363537762970, 15846268130909693929);
    lemma_pow_mod_square(7276840594520826791, 3279974, 21462786190088845153, 15846268130909693929, 11699516151013046057, 6685630572529245320);
    lemma_pow_mod_square_mul(7276840594520826791, 6559949, 21462786190088845153, 6685630572529245320, 2082565411427261612, 9078445402452735764, 3077997397663847631, 13438903437790170781);
    lemma_pow_mod_square_mul(7276840594520826791, 13119899, 21462786190088845153, 13438903437790170781, 8414756779977076231, 17961217892910291618, 6089652961763134545, 11213907537867027453);
    lemma_pow_mod_square_mul(7276840594520826791, 26239799, 21462786190088845153, 11213907537867027453, 5859058612152646561, 9502500993188698376, 3221771132801083743, 17736853202926343737);
    lemma_pow_mod_square(7276840594520826791, 52479598, 21462786190088845153, 17736853202926343737, 14657741020009491569, 768553017179110112);
    lemma_pow_mod_square(7276840594520826791, 104959196, 21462786190088845153, 768553017179110112, 27520832336664507, 18875299604586567973);
    lemma_pow_mod_square_mul(7276840594520826791, 209918393, 21462786190088845153, 18875299604586567973, 16599752334458261764, 17614736772412698837, 5972180427650287922, 1);
}

/// `21462786190088845153` is prime, by Pocklington's criterion with the prime factors `209918393` and `79` of `n - 1` and the base `2`.
pub proof fn lemma_prime_21462786190088845153()
    ensures
        is_prime(21462786190088845153),
{
    lemma_prime_209918393();
    lemma_prime_79();
    lemma_power_21462786190088845153_base();
    lemma_pow_mod(2, 1294221216, 21462786190088845153);
    lemma_power_21462786190088845153_first();
    lemma_pow_mod_compose(2, 1294221216, 79, 102243476064, 21462786190088845153, 6151578448162879591);
    lemma_power_21462786190088845153_second();
    lemma_pow_mod_compose(2, 1294221216, 209918393, 271680837849225888, 21462786190088845153, 6151578448162879591);
    lemma_power_21462786190088845153_full();
    lemma_pow_mod_compose(2, 102243476064, 209918393, 21462786190088845152, 21462786190088845153, 7276840594520826791);
    lemma_pocklington(21462786190088845153, 209918393, 79, 16583553047, 2, 6738959466271892145, -2284807451124066533, -3306885208433865976, 171457448880389993);
}

/// `2^51060736 mod 495925933090739208380417` is `458922017521735375382470`, one squaring at a time.
proof fn lemma_power_495925933090739208380417_base()
    ensures
        pow_mod(2, 51060736, 495925933090739208380417) == 458922017521735375382470,
{
    lemma_pow_mod_zero(2, 495925933090739208380417);
    lemma_pow_mod_square_mul(2, 1, 495925933090739208380417, 1, 0, 1, 0, 2);
    lemma_pow_mod_square_mul(2, 3, 495925933090739208380417, 2, 0, 4, 0, 8);
    lemma_pow_mod_square(2, 6, 495925933090739208380417, 8, 0, 64);
    lemma_pow_mod_square(2, 12, 495925933090739208380417, 64, 0, 4096);
    lemma_pow_mod_square(2, 24, 495925933090739208380417, 4096, 0, 16777216);
    lemma_pow_mod_square(2, 48, 495925933090739208380417, 16777216, 0, 281474976710656);
    lemma_pow_mod_square_mul(2, 97, 495925933090739208380417, 281474976710656, 159758, 27295554023141105291250, 0, 54591108046282210582500);
    lemma_pow_mod_square(2, 194, 495925933090739208380417, 54591108046282210582500, 6009343087076624565851, 2504844783115830910133);
    lemma_pow_mod_square_mul(2, 389, 495925933090739208380417, 2504844783115830910133, 12651581554527416689, 336791430145740535498376, 1, 177656927200741862616335);
    lemma_pow_mod_square_mul(2, 779, 495925933090739208380417, 177656927200741862616335, 63642535460299916638268, 293917298141211884834469, 1, 91908663191684561288521);
    lemma_pow_mod_square(2, 1558, 495925933090739208380417, 91908663191684561288521, 17033193479190236328677, 176981007672730544049132);
    lemma_pow_mod_square(2, 3116, 495925933090739208380417, 176981007672730544049132, 63159183633827217861232, 247521031835856657659680);
    lemma_pow_mod_square_mul(2, 6233, 495925933090739208380417, 247521031835856657659680, 123539942384656961400698, 192821607533962344371334, 0, 385643215067924688742668);
    lemma_pow_mod_square(2, 12466, 495925933090739208380417, 385643215067924688742668, 299884880794717986657977, 130728503696734040121815);
    lemma_pow_mod_square(2, 24932, 495925933090739208380417, 130728503696734040121815, 34460673537030118078067, 306407359246000198880286);
    lemma_pow_mod_square(2, 49864, 495925933090739208380417, 306407359246000198880286, 189313491260658206459546, 384274324764361870331114);
    lemma_pow_mod_square(2, 99728, 495925933090739208380417, 384274324764361870331114, 297759699221229834768597, 276032433787451655116047);
    lemma_pow_mod_square(2, 199456, 495925933090739208380417, 276032433787451655116047, 153639685724365494362549, 477981294720038927103276);
    lemma_pow_mod_square(2, 398912, 495925933090739208380417, 477981294720038927103276, 460685967112839877976417, 461350701880342479306287);
    lemma_pow_mod_square(2, 797824, 495925933090739208380417, 461350701880342479306287, 429186005254822282718362, 367428128371562590609415);
    lemma_pow_mod_square(2, 1595648, 495925933090739208380417, 367428128371562590609415, 272224984640857647456947, 106330961003390481235326);
    lemma_pow_mod_square(2, 3191296, 495925933090739208380417, 106330961003390481235326, 22798310218304003542401, 258671462882444992765059);
    lemma_pow_mod_square(2, 6382592, 495925933090739208380417, 258671462882444992765059, 134921207472934217467348, 126100638891267711149365);
    lemma_pow_mod_square(2, 12765184, 495925933090739208380417, 126100638891267711149365, 32064004053356162075354, 243653283074941487960607);
    lemma_pow_mod_square(2, 25530368, 495925933090739208380417, 243653283074941487960607, 119709251708632154589860, 51345871624344493036829);
    lemma_pow_mod_square(2, 51060736, 495925933090739208380417, 51345871624344493036829, 5316113469672667954563, 458922017521735375382470);
}

/// `458922017521735375382470^9712471302621631 mod 495925933090739208380417` is `1`, one squaring at a time.
proof fn lemma_power_495925933090739208380417_full()
    ensures
        pow_mod(458922017521735375382470, 9712471302621631, 495925933090739208380417) == 1,
{
    lemma_pow_mod_zero(458922017521735375382470, 495925933090739208380417);
    lemma_pow_mod_square_mul(458922017521735375382470, 1, 495925933090739208380417, 1, 0, 1, 0, 458922017521735375382470);
    lemma_pow_mod_square(458922017521735375382470, 2, 495925933090739208380417, 458922017521735375382470, 424679179113799113153711, 206842499647269300023413);
    lemma_pow_mod_square(458922017521735375382470, 4, 495925933090739208380417, 206842499647269300023413, 86270583580275234455250, 174822381771934585329319);
    lemma_pow_mod_square(458922017521735375382470, 8, 495925933090739208380417, 174822381771934585329319, 61627882570964444168865, 41064539066987373887056);
    lemma_pow_mod_square_mul(458922017521735375382470, 17, 495925933090739208380417, 41064539066987373887056, 3400298827437184728982, 232893351539245343201642, 215515825296100198834619, 179350352155518260759617);
    lemma_pow_mod_square(458922017521735375382470, 34, 495925933090739208380417, 179350352155518260759617, 64861598621871067852140, 359615490458065630444309);
    lemma_pow_mod_square_mul(458922017521735375382470, 69, 495925933090739208380417, 359615490458065630444309, 260771402236254706791937, 470179859373237186189752, 435097007968267456304306, 130119931373124431271838);
    lemma_pow_mod_square(458922017521735375382470, 138, 495925933090739208380417, 130119931373124431271838, 34140575055284965079784, 378093362961690423708316);
    lemma_pow_mod_square(458922017521735375382470, 276, 495925933090739208380417, 378093362961690423708316, 288257946554136498547102, 276596556226274038654322);
    lemma_pow_mod_square(458922017521735375382470, 552, 495925933090739208380417, 276596556226274038654322, 154268308655349530700223, 136863290583748838546693);
    lemma_pow_mod_square(458922017521735375382470, 1104, 495925933090739208380417, 136863290583748838546693, 37770882826537674704766, 57690779968020850268827);
    lemma_pow_mod_square(458922017521735375382470, 2208, 495925933090739208380417, 57690779968020850268827, 6711135416081644398655, 110949882660275724816794);
    lemma_pow_mod_square(458922017521735375382470, 4416, 495925933090739208380417, 110949882660275724816794, 24822005950789072321714, 472574488299996942963698);
    lemma_pow_mod_square_mul(458922017521735375382470, 8833, 495925933090739208380417, 472574488299996942963698, 450322582648933652094129, 259954327070913221563411, 240557624198814700216160, 22401151225202071866450);
    lemma_pow_mod_square(458922017521735375382470, 17666, 495925933090739208380417, 22401151225202071866450, 1011867988203303305107, 144231653183017960712881);
    lemma_pow_mod_square_mul(458922017521735375382470, 35333, 495925933090739208380417, 144231653183017960712881, 41947332034560304664738, 390253425294126569684415, 361134349568243602929692, 373125816222328182563486);
    lemma_pow_mod_square_mul(458922017521735375382470, 70667, 495925933090739208380417, 373125816222328182563486, 280733201153457560139852, 370637321355869482393912, 342981917129075587156737, 94227477141084499103311);
    lemma_pow_mod_square_mul(458922017521735375382470, 141335, 495925933090739208380417, 94227477141084499103311, 17903515133879984086368, 63418847304540323307265, 58686798596147059903327, 371657611757822444697191);
    lemma_pow_mod_square(458922017521735375382470, 282670, 495925933090739208380417, 371657611757822444697191, 278528246177146069353203, 62455436022847321864830);
    lemma_pow_mod_square(458922017521735375382470, 565340, 495925933090739208380417, 62455436022847321864830, 7865451730854070972550, 426294283849131226375550);
    lemma_pow_mod_square(458922017521735375382470, 1130680, 495925933090739208380417, 426294283849131226375550, 366439430400170745917602, 273250805346600685402466);
    lemma_pow_mod_square(458922017521735375382470, 2261360, 495925933090739208380417, 273250805346600685402466, 150558778318423354885026, 149509931360045693945314);
    lemma_pow_mod_square_mul(458922017521735375382470, 4522721, 495925933090739208380417, 149509931360045693945314, 45073705736609709558268, 28225555594306050920840, 26119482879796843064974, 213094346079061853460642);
    lemma_pow_mod_square_mul(458922017521735375382470, 9045443, 495925933090739208380417, 213094346079061853460642, 91564480300235671405249, 260771543734679680443331, 241313863578656658201217, 323261243437754217440081);
    lemma_pow_mod_square_mul(458922017521735375382470, 18090887, 495925933090739208380417, 323261243437754217440081, 210712577294890327198192, 58281192621623134680497, 53932494182743968066484, 4527426846198005043762);
    lemma_pow_mod_square_mul(458922017521735375382470, 36181775, 495925933090739208380417, 4527426846198005043762, 41331966086000153845, 407114491347816249859279, 376737313508245329656292, 190206953895509709805366);
    lemma_pow_mod_square(458922017521735375382470, 72363550, 495925933090739208380417, 190206953895509709805366, 72951791580516053698636, 64406313949325440382744);
    lemma_pow_mod_square(458922017521735375382470, 144727100, 495925933090739208380417, 64406313949325440382744, 8364501631698466853455, 221140797238132582178801);
    lemma_pow_mod_square(458922017521735375382470, 289454200, 495925933090739208380417, 221140797238132582178801, 98609991815388840515334, 228370480916062539983323);
    lemma_pow_mod_square_mul(458922017521735375382470, 578908401, 495925933090739208380417, 228370480916062539983323, 105163035594452920392992, 350207759110593641284665, 324076723233977504593173, 416770094024914715729409);
    lemma_pow_mod_square_mul(458922017521735375382470, 1157816803, 495925933090739208380417, 416770094024914715729409, 350248494147118904020565, 43006005644315596213676, 39797077666090305413006, 415543410861018797156218);
    lemma_pow_mod_square_mul(458922017521735375382470, 2315633607, 495925933090739208380417, 415543410861018797156218, 348189749291483437332676, 185111489570343503457632, 171299245697103237667340, 265596249586469024030260);
    lemma_pow_mod_square_mul(458922017521735375382470, 4631267215, 495925933090739208380417, 265596249586469024030260, 142241740323531426017585, 356116077569869384034655, 329544187721251295882899, 454530112512502482708967);
    lemma_pow_mod_square(458922017521735375382470, 9262534430, 495925933090739208380417, 454530112512502482708967, 416589674778768120371208, 40105952306844304373353);
    lemma_pow_mod_square(458922017521735375382470, 18525068860, 495925933090739208380417, 40105952306844304373353, 3243402498462539978376, 122952107099564854599817);
    lemma_pow_mod_square(458922017521735375382470, 37050137720, 495925933090739208380417, 122952107099564854599817, 30482819371853416311060, 376296198473309931921469);
    lemma_pow_mod_square_mul(458922017521735375382470, 74100275441, 495925933090739208380417, 376296198473309931921469, 285524146928522136537694, 272904721798144771179563, 252541714723954710877455, 256456818993770663661875);
    lemma_pow_mod_square(458922017521735375382470, 148200550882, 495925933090739208380417, 256456818993770663661875, 132620812141255258631655, 205786937044432210215490);
    lemma_pow_mod_square(458922017521735375382470, 296401101764, 495925933090739208380417, 205786937044432210215490, 85392314925343246433230, 391882849077052005883190);
    lemma_pow_mod_square_mul(458922017521735375382470, 592802203529, 495925933090739208380417, 391882849077052005883190, 309667547417102973047272, 139907940276833624503676, 129468595882859526060386, 68245124584962819098758);
    lemma_pow_mod_square(458922017521735375382470, 1185604407058, 495925933090739208380417, 68245124584962819098758, 9391315756752200402336, 427977460625357013688452);
    lemma_pow_mod_square(458922017521735375382470, 2371208814116, 495925933090739208380417, 427977460625357013688452, 369338835865668471553016, 288966449537307606468632);
    lemma_pow_mod_square_mul(458922017521735375382470, 4742417628233, 495925933090739208380417, 288966449537307606468632, 168375161262073210776646, 102358144284689212610042, 94720608362127308798906, 155342656528644911339938);
    lemma_pow_mod_square(458922017521735375382470, 9484835256466, 495925933090739208380417, 155342656528644911339938, 48659163248398327946913, 469429544810239109041123);
    lemma_pow_mod_square(458922017521735375382470, 18969670512932, 495925933090739208380417, 469429544810239109041123, 444348808636366327090871, 50384818659137409227922);
    lemma_pow_mod_square_mul(458922017521735375382470, 37939341025865, 495925933090739208380417, 50384818659137409227922, 5118969954833295549636, 171906189400998750559872, 159079269706077624450932, 6467378333796028045196);
    lemma_pow_mod_square_mul(458922017521735375382470, 75878682051731, 495925933090739208380417, 6467378333796028045196, 84341188313701746450, 160909219451276139408766, 148902847584935600895283, 79387536875495275859009);
    lemma_pow_mod_square(458922017521735375382470, 151757364103462, 495925933090739208380417, 79387536875495275859009, 12708311041288054889695, 197952710137464313359266);
    lemma_pow_mod_square_mul(458922017521735375382470, 303514728206925, 495925933090739208380417, 197952710137464313359266, 79014370566495995881964, 331687347094767646959768, 306938226776117290716214, 405011966726824800485722);
    lemma_pow_mod_square_mul(458922017521735375382470, 607029456413851, 495925933090739208380417, 405011966726824800485722, 330764499790571206973952, 46697547383293699963300, 43213172025300903719490, 46447568482508286123670);
    lemma_pow_mod_square_mul(458922017521735375382470, 1214058912827703, 495925933090739208380417, 46447568482508286123670, 4350199241431005097156, 98766586038316041474848, 91397037146159412639710, 492733753110703044555490);
    lemma_pow_mod_square_mul(458922017521735375382470, 2428117825655407, 495925933090739208380417, 492733753110703044555490, 489562120580084250126289, 434174710530112284657587, 401778412497209577054329, 424964531183447403624697);
    lemma_pow_mod_square_mul(458922017521735375382470, 4856235651310815, 495925933090739208380417, 424964531183447403624697, 364156904718519592848768, 264830427753965534565553, 245069890676107469520850, 182985505610823148861460);
    lemma_pow_mod_square_mul(458922017521735375382470, 9712471302621631, 495925933090739208380417, 182985505610823148861460, 67517532416523381627714, 186460790228415091254862, 172547867192628698243667, 1);
}

/// `495925933090739208380417` is prime, by Pocklington's criterion with the prime factor `9712471302621631` of `n - 1` and the base `2`.
pub proof fn lemma_prime_495925933090739208380417()
    ensures
        is_prime(495925933090739208380417),
{
    lemma_prime_9712471302621631();
    lemma_power_495925933090739208380417_base();
    lemma_pow_mod(2, 51060736, 495925933090739208380417);
    lemma_power_495925933090739208380417_full();
    lemma_pow_mod_compose(2, 51060736, 9712471302621631, 495925933090739208380416, 495925933090739208380417, 458922017521735375382470);
    lemma_pocklington_single(495925933090739208380417, 9712471302621631, 2, 7836079634479053841335, -7251384199458924485842);
}

} // verus!
