//! Primality certificates for the two BN254 moduli.
//!
//! Each certificate follows Pocklington's criterion with base two. The powers
//! of two are walked through sixteen-fold: every line raises the last residue
//! to its sixteenth power and appends one hexadecimal digit to the exponent.

use crate::modular;
use vstd::arithmetic::div_mod::*;
use vstd::arithmetic::mul::*;
use vstd::arithmetic::power::*;
use vstd::prelude::*;

verus! {

spec fn pow16(x: int) -> int {
    x * x * x * x * x * x * x * x * x * x * x * x * x * x * x * x
}

proof fn lemma_pow16(x: int)
    ensures
        pow16(x) == pow(x, 16),
{
    lemma_pow1(x);
    lemma_pow_adds(x, 1, 1);
    lemma_pow_adds(x, 2, 2);
    lemma_pow_adds(x, 4, 4);
    lemma_pow_adds(x, 8, 8);
    let x2 = x * x;
    let x4 = x2 * x2;
    let x8 = x4 * x4;
    assert(x4 == x * x * x * x) by (nonlinear_arith)
        requires
            x4 == (x * x) * (x * x),
    ;
    assert(x8 == x * x * x * x * x * x * x * x) by (nonlinear_arith)
        requires
            x8 == (x * x * x * x) * (x * x * x * x),
    ;
    let y = x * x * x * x * x * x * x * x;
    assert(pow16(x) == y * x * x * x * x * x * x * x * x);
    assert(y * x * x * x * x * x * x * x * x == y * (x * x * x * x * x * x * x * x)) by (nonlinear_arith);
}

/// The first sixteen powers of two.
proof fn lemma_small_powers()
    ensures
        pow(2, 0) == 1,
        pow(2, 1) == 2,
        pow(2, 2) == 4,
        pow(2, 3) == 8,
        pow(2, 4) == 16,
        pow(2, 5) == 32,
        pow(2, 6) == 64,
        pow(2, 7) == 128,
        pow(2, 8) == 256,
        pow(2, 9) == 512,
        pow(2, 10) == 1024,
        pow(2, 11) == 2048,
        pow(2, 12) == 4096,
        pow(2, 13) == 8192,
        pow(2, 14) == 16384,
        pow(2, 15) == 32768,
{
    lemma_pow0(2);
    lemma_pow1(2);
    lemma_pow_adds(2, 1, 1);
    lemma_pow_adds(2, 1, 2);
    lemma_pow_adds(2, 1, 3);
    lemma_pow_adds(2, 1, 4);
    lemma_pow_adds(2, 1, 5);
    lemma_pow_adds(2, 1, 6);
    lemma_pow_adds(2, 1, 7);
    lemma_pow_adds(2, 1, 8);
    lemma_pow_adds(2, 1, 9);
    lemma_pow_adds(2, 1, 10);
    lemma_pow_adds(2, 1, 11);
    lemma_pow_adds(2, 1, 12);
    lemma_pow_adds(2, 1, 13);
    lemma_pow_adds(2, 1, 14);
}

/// Appends the digit `w` to the exponent `e`.
proof fn lemma_step(e: nat, w: nat, x: int, n: int) -> (f: nat)
    requires
        n > 1,
        pow(2, e) % n == x,
    ensures
        f == 16 * e + w,
        pow(2, f) % n == (pow16(x) * pow(2, w)) % n,
{
    let f = 16 * e + w;
    lemma_pow_adds(2, 16 * e, w);
    lemma_mul_is_commutative(16, e as int);
    lemma_pow_multiplies(2, e, 16);
    lemma_pow16(x);
    lemma_mod_twice(pow(2, e), n);
    modular::lemma_pow_cong(pow(2, e), x, 16, n);
    modular::lemma_mul_cong(pow(2, 16 * e), pow(2, w), pow16(x), pow(2, w), n);
    f
}

/// An inverse of the residue less one is an inverse of the power less one.
proof fn lemma_inverse_of_shift(h: nat, x: int, w: int, n: int)
    requires
        n > 1,
        pow(2, h) % n == x,
        (w * (x - 1)) % n == 1,
    ensures
        (w * (pow(2, h) - 1)) % n == 1,
{
    lemma_mod_twice(pow(2, h), n);
    modular::lemma_sub_cong(pow(2, h), 1, x, 1, n);
    modular::lemma_mul_cong(w, pow(2, h) - 1, w, x - 1, n);
}

proof fn lemma_prime_5()
    ensures
        modular::is_prime(5int),
{
    assert forall|d: int| 1 < d < 5 implies #[trigger] (5int % d) != 0 by {
        assert(5int % 2int != 0);
        assert(5int % 3int != 0);
        assert(5int % 4int != 0);
    }
}

proof fn lemma_power_71_a()
    ensures
        pow(2, 14nat) % 71int == 54,
{
    lemma_small_powers();
    let n = 71int;
    let e = 14nat;
}

proof fn lemma_power_71_n()
    ensures
        pow(2, 70nat) % 71int == 1,
{
    lemma_small_powers();
    let n = 71int;
    let e = 4nat;
    let e = lemma_step(e, 6, 16, n);
    assert(pow(2, e) % n == 1);
}

proof fn lemma_prime_71()
    ensures
        modular::is_prime(71int),
{
    let n = 71int;
    lemma_power_71_a();
    lemma_inverse_of_shift(14nat, 54, 67, n);
    lemma_power_71_n();
    lemma_prime_5();
    modular::lemma_pocklington_one(n, 5, 11, 14nat, 2, 67);
}

proof fn lemma_power_853_a()
    ensures
        pow(2, 12nat) % 853int == 684,
{
    lemma_small_powers();
    let n = 853int;
    let e = 12nat;
}

proof fn lemma_power_853_n()
    ensures
        pow(2, 852nat) % 853int == 1,
{
    lemma_small_powers();
    let n = 853int;
    let e = 3nat;
    let e = lemma_step(e, 5, 8, n);
    assert(pow(2, e) % n == 757);
    let e = lemma_step(e, 4, 757, n);
    assert(pow(2, e) % n == 1);
}

proof fn lemma_prime_853()
    ensures
        modular::is_prime(853int),
{
    let n = 853int;
    lemma_power_853_a();
    lemma_inverse_of_shift(12nat, 684, 286, n);
    lemma_power_853_n();
    lemma_prime_71();
    modular::lemma_pocklington_one(n, 71, 143, 12nat, 2, 286);
}

proof fn lemma_prime_19()
    ensures
        modular::is_prime(19int),
{
    assert forall|d: int| 1 < d < 19 implies #[trigger] (19int % d) != 0 by {
        assert(19int % 2int != 0);
        assert(19int % 3int != 0);
        assert(19int % 4int != 0);
        assert(19int % 5int != 0);
        assert(19int % 6int != 0);
        assert(19int % 7int != 0);
        assert(19int % 8int != 0);
        assert(19int % 9int != 0);
        assert(19int % 10int != 0);
        assert(19int % 11int != 0);
        assert(19int % 12int != 0);
        assert(19int % 13int != 0);
        assert(19int % 14int != 0);
        assert(19int % 15int != 0);
        assert(19int % 16int != 0);
        assert(19int % 17int != 0);
        assert(19int % 18int != 0);
    }
}

proof fn lemma_power_229_a()
    ensures
        pow(2, 12nat) % 229int == 203,
{
    lemma_small_powers();
    let n = 229int;
    let e = 12nat;
}

proof fn lemma_power_229_n()
    ensures
        pow(2, 228nat) % 229int == 1,
{
    lemma_small_powers();
    let n = 229int;
    let e = 14nat;
    let e = lemma_step(e, 4, 125, n);
    assert(pow(2, e) % n == 1);
}

proof fn lemma_prime_229()
    ensures
        modular::is_prime(229int),
{
    let n = 229int;
    lemma_power_229_a();
    lemma_inverse_of_shift(12nat, 203, 212, n);
    lemma_power_229_n();
    lemma_prime_19();
    modular::lemma_pocklington_one(n, 19, 39, 12nat, 2, 212);
}

proof fn lemma_power_639533339_a()
    ensures
        pow(2, 749746nat) % 639533339int == 256057581,
{
    lemma_small_powers();
    let n = 639533339int;
    let e = 11nat;
    let e = lemma_step(e, 7, 2048, n);
    assert(pow(2, e) % n == 418421286);
    let e = lemma_step(e, 0, 418421286, n);
    assert(pow(2, e) % n == 42878818);
    let e = lemma_step(e, 11, 42878818, n);
    assert(pow(2, e) % n == 486480982);
    let e = lemma_step(e, 2, 486480982, n);
    assert(pow(2, e) % n == 256057581);
}

proof fn lemma_power_639533339_b()
    ensures
        pow(2, 2792722nat) % 639533339int == 271298491,
{
    lemma_small_powers();
    let n = 639533339int;
    let e = 2nat;
    let e = lemma_step(e, 10, 4, n);
    assert(pow(2, e) % n == 615272140);
    let e = lemma_step(e, 9, 615272140, n);
    assert(pow(2, e) % n == 421356568);
    let e = lemma_step(e, 13, 421356568, n);
    assert(pow(2, e) % n == 427885953);
    let e = lemma_step(e, 1, 427885953, n);
    assert(pow(2, e) % n == 560023661);
    let e = lemma_step(e, 2, 560023661, n);
    assert(pow(2, e) % n == 271298491);
}

proof fn lemma_power_639533339_n()
    ensures
        pow(2, 639533338nat) % 639533339int == 1,
{
    lemma_small_powers();
    let n = 639533339int;
    let e = 2nat;
    let e = lemma_step(e, 6, 4, n);
    assert(pow(2, e) % n == 518104513);
    let e = lemma_step(e, 1, 518104513, n);
    assert(pow(2, e) % n == 122159254);
    let e = lemma_step(e, 14, 122159254, n);
    assert(pow(2, e) % n == 338340564);
    let e = lemma_step(e, 8, 338340564, n);
    assert(pow(2, e) % n == 461375189);
    let e = lemma_step(e, 1, 461375189, n);
    assert(pow(2, e) % n == 364905960);
    let e = lemma_step(e, 1, 364905960, n);
    assert(pow(2, e) % n == 203221123);
    let e = lemma_step(e, 10, 203221123, n);
    assert(pow(2, e) % n == 1);
}

proof fn lemma_prime_639533339()
    ensures
        modular::is_prime(639533339int),
{
    let n = 639533339int;
    lemma_power_639533339_a();
    lemma_inverse_of_shift(749746nat, 256057581, 303978671, n);
    lemma_power_639533339_b();
    lemma_inverse_of_shift(2792722nat, 271298491, 178689417, n);
    lemma_power_639533339_n();
    lemma_prime_853();
    lemma_prime_229();
    modular::lemma_pocklington_two(
        n,
        853,
        749746nat,
        303978671,
        229,
        2792722nat,
        178689417,
        195337,
        390675,
        2,
    );
}

proof fn lemma_power_65865678001877903_a()
    ensures
        pow(2, 102990218nat) % 65865678001877903int == 8595199928015311int,
{
    lemma_small_powers();
    let n = 65865678001877903int;
    let e = 6nat;
    let e = lemma_step(e, 2, 64, n);
    assert(pow(2, e) % n == 33669438334804592int);
    let e = lemma_step(e, 3, 33669438334804592int, n);
    assert(pow(2, e) % n == 59236409187319396int);
    let e = lemma_step(e, 8, 59236409187319396int, n);
    assert(pow(2, e) % n == 24290170823953961int);
    let e = lemma_step(e, 1, 24290170823953961int, n);
    assert(pow(2, e) % n == 38057013584529261int);
    let e = lemma_step(e, 8, 38057013584529261int, n);
    assert(pow(2, e) % n == 44900285821727216int);
    let e = lemma_step(e, 10, 44900285821727216int, n);
    assert(pow(2, e) % n == 8595199928015311int);
}

proof fn lemma_power_65865678001877903_n()
    ensures
        pow(2, 65865678001877902nat) % 65865678001877903int == 1,
{
    lemma_small_powers();
    let n = 65865678001877903int;
    let e = 14nat;
    let e = lemma_step(e, 10, 16384, n);
    assert(pow(2, e) % n == 50776245064532323int);
    let e = lemma_step(e, 0, 50776245064532323int, n);
    assert(pow(2, e) % n == 39988798988784193int);
    let e = lemma_step(e, 0, 39988798988784193int, n);
    assert(pow(2, e) % n == 54959091447018552int);
    let e = lemma_step(e, 7, 54959091447018552int, n);
    assert(pow(2, e) % n == 26725532180975600int);
    let e = lemma_step(e, 12, 26725532180975600int, n);
    assert(pow(2, e) % n == 61741187713513007int);
    let e = lemma_step(e, 3, 61741187713513007int, n);
    assert(pow(2, e) % n == 30282754335241338int);
    let e = lemma_step(e, 4, 30282754335241338int, n);
    assert(pow(2, e) % n == 20248364495759583int);
    let e = lemma_step(e, 3, 20248364495759583int, n);
    assert(pow(2, e) % n == 54780797807667950int);
    let e = lemma_step(e, 1, 54780797807667950int, n);
    assert(pow(2, e) % n == 53003616040201417int);
    let e = lemma_step(e, 3, 53003616040201417int, n);
    assert(pow(2, e) % n == 52076174007498535int);
    let e = lemma_step(e, 3, 52076174007498535int, n);
    assert(pow(2, e) % n == 53821571024233192int);
    let e = lemma_step(e, 8, 53821571024233192int, n);
    assert(pow(2, e) % n == 20694289694811505int);
    let e = lemma_step(e, 14, 20694289694811505int, n);
    assert(pow(2, e) % n == 1);
}

proof fn lemma_prime_65865678001877903()
    ensures
        modular::is_prime(65865678001877903int),
{
    let n = 65865678001877903int;
    lemma_power_65865678001877903_a();
    lemma_inverse_of_shift(102990218nat, 8595199928015311int, 39033286818209505int, n);
    lemma_power_65865678001877903_n();
    lemma_prime_639533339();
    modular::lemma_pocklington_one(n, 639533339, 1279066679, 102990218nat, 2, 39033286818209505int);
}

proof fn lemma_power_13818364434197438864469338081_a()
    ensures
        pow(2, 209796131360nat) % 13818364434197438864469338081int == 7935281130018080704632618576int,
{
    lemma_small_powers();
    let n = 13818364434197438864469338081int;
    let e = 3nat;
    let e = lemma_step(e, 0, 8, n);
    assert(pow(2, e) % n == 281474976710656int);
    let e = lemma_step(e, 13, 281474976710656int, n);
    assert(pow(2, e) % n == 3033976872573099009872716038int);
    let e = lemma_step(e, 8, 3033976872573099009872716038int, n);
    assert(pow(2, e) % n == 3112286383224838334422801731int);
    let e = lemma_step(e, 13, 3112286383224838334422801731int, n);
    assert(pow(2, e) % n == 3614946713776805242456025115int);
    let e = lemma_step(e, 2, 3614946713776805242456025115int, n);
    assert(pow(2, e) % n == 10070268653200299995843475387int);
    let e = lemma_step(e, 14, 10070268653200299995843475387int, n);
    assert(pow(2, e) % n == 13703444609288914443892883008int);
    let e = lemma_step(e, 10, 13703444609288914443892883008int, n);
    assert(pow(2, e) % n == 7993853100498013929712605736int);
    let e = lemma_step(e, 2, 7993853100498013929712605736int, n);
    assert(pow(2, e) % n == 9108418817094604941133376915int);
    let e = lemma_step(e, 0, 9108418817094604941133376915int, n);
    assert(pow(2, e) % n == 7935281130018080704632618576int);
}

proof fn lemma_power_13818364434197438864469338081_n()
    ensures
        pow(2, 13818364434197438864469338080nat) % 13818364434197438864469338081int == 1,
{
    lemma_small_powers();
    let n = 13818364434197438864469338081int;
    let e = 2nat;
    let e = lemma_step(e, 12, 4, n);
    assert(pow(2, e) % n == 17592186044416int);
    let e = lemma_step(e, 10, 17592186044416int, n);
    assert(pow(2, e) % n == 162924862185005111030005321int);
    let e = lemma_step(e, 6, 162924862185005111030005321int, n);
    assert(pow(2, e) % n == 9839920673038653734844477016int);
    let e = lemma_step(e, 4, 9839920673038653734844477016int, n);
    assert(pow(2, e) % n == 10823023948676318266240065071int);
    let e = lemma_step(e, 8, 10823023948676318266240065071int, n);
    assert(pow(2, e) % n == 10842125652913221989502227383int);
    let e = lemma_step(e, 7, 10842125652913221989502227383int, n);
    assert(pow(2, e) % n == 11310960134983252039514346356int);
    let e = lemma_step(e, 12, 11310960134983252039514346356int, n);
    assert(pow(2, e) % n == 1861784969160347241849600425int);
    let e = lemma_step(e, 15, 1861784969160347241849600425int, n);
    assert(pow(2, e) % n == 184740295942378513371394847int);
    let e = lemma_step(e, 12, 184740295942378513371394847int, n);
    assert(pow(2, e) % n == 851045574865712212740054502int);
    let e = lemma_step(e, 13, 851045574865712212740054502int, n);
    assert(pow(2, e) % n == 8456939014094168640064712146int);
    let e = lemma_step(e, 7, 8456939014094168640064712146int, n);
    assert(pow(2, e) % n == 9459818903955850503284223198int);
    let e = lemma_step(e, 9, 9459818903955850503284223198int, n);
    assert(pow(2, e) % n == 1611467993626079498393747791int);
    let e = lemma_step(e, 5, 1611467993626079498393747791int, n);
    assert(pow(2, e) % n == 1025311132267771918757263326int);
    let e = lemma_step(e, 14, 1025311132267771918757263326int, n);
    assert(pow(2, e) % n == 4818227162475886378821534653int);
    let e = lemma_step(e, 8, 4818227162475886378821534653int, n);
    assert(pow(2, e) % n == 11676141843324411525769700010int);
    let e = lemma_step(e, 7, 11676141843324411525769700010int, n);
    assert(pow(2, e) % n == 8138656656241206449331711431int);
    let e = lemma_step(e, 2, 8138656656241206449331711431int, n);
    assert(pow(2, e) % n == 7687913616269438161645219082int);
    let e = lemma_step(e, 9, 7687913616269438161645219082int, n);
    assert(pow(2, e) % n == 10455326951625388287140308532int);
    let e = lemma_step(e, 5, 10455326951625388287140308532int, n);
    assert(pow(2, e) % n == 5214820507653657639863010745int);
    let e = lemma_step(e, 2, 5214820507653657639863010745int, n);
    assert(pow(2, e) % n == 1144981196161732916354927114int);
    let e = lemma_step(e, 7, 1144981196161732916354927114int, n);
    assert(pow(2, e) % n == 4818801896161848909510425937int);
    let e = lemma_step(e, 14, 4818801896161848909510425937int, n);
    assert(pow(2, e) % n == 1);
    let e = lemma_step(e, 0, 1, n);
    assert(pow(2, e) % n == 1);
}

proof fn lemma_prime_13818364434197438864469338081()
    ensures
        modular::is_prime(13818364434197438864469338081int),
{
    let n = 13818364434197438864469338081int;
    lemma_power_13818364434197438864469338081_a();
    lemma_inverse_of_shift(209796131360nat, 7935281130018080704632618576int, 12281824895882260584345986666int, n);
    lemma_power_13818364434197438864469338081_n();
    lemma_prime_65865678001877903();
    modular::lemma_pocklington_one(n, 65865678001877903int, 131731356003755807int, 209796131360nat, 2, 12281824895882260584345986666int);
}

proof fn lemma_prime_31()
    ensures
        modular::is_prime(31int),
{
    assert forall|d: int| 1 < d < 31 implies #[trigger] (31int % d) != 0 by {
        assert(31int % 2int != 0);
        assert(31int % 3int != 0);
        assert(31int % 4int != 0);
        assert(31int % 5int != 0);
        assert(31int % 6int != 0);
        assert(31int % 7int != 0);
        assert(31int % 8int != 0);
        assert(31int % 9int != 0);
        assert(31int % 10int != 0);
        assert(31int % 11int != 0);
        assert(31int % 12int != 0);
        assert(31int % 13int != 0);
        assert(31int % 14int != 0);
        assert(31int % 15int != 0);
        assert(31int % 16int != 0);
        assert(31int % 17int != 0);
        assert(31int % 18int != 0);
        assert(31int % 19int != 0);
        assert(31int % 20int != 0);
        assert(31int % 21int != 0);
        assert(31int % 22int != 0);
        assert(31int % 23int != 0);
        assert(31int % 24int != 0);
        assert(31int % 25int != 0);
        assert(31int % 26int != 0);
        assert(31int % 27int != 0);
        assert(31int % 28int != 0);
        assert(31int % 29int != 0);
        assert(31int % 30int != 0);
    }
}

proof fn lemma_power_93001_a()
    ensures
        pow(2, 3000nat) % 93001int == 52049,
{
    lemma_small_powers();
    let n = 93001int;
    let e = 11nat;
    let e = lemma_step(e, 11, 2048, n);
    assert(pow(2, e) % n == 17260);
    let e = lemma_step(e, 8, 17260, n);
    assert(pow(2, e) % n == 52049);
}

proof fn lemma_power_93001_b()
    ensures
        pow(2, 18600nat) % 93001int == 28198,
{
    lemma_small_powers();
    let n = 93001int;
    let e = 4nat;
    let e = lemma_step(e, 8, 16, n);
    assert(pow(2, e) % n == 19262);
    let e = lemma_step(e, 10, 19262, n);
    assert(pow(2, e) % n == 10192);
    let e = lemma_step(e, 8, 10192, n);
    assert(pow(2, e) % n == 28198);
}

proof fn lemma_power_93001_n()
    ensures
        pow(2, 93000nat) % 93001int == 1,
{
    lemma_small_powers();
    let n = 93001int;
    let e = 1nat;
    let e = lemma_step(e, 6, 2, n);
    assert(pow(2, e) % n == 9259);
    let e = lemma_step(e, 11, 9259, n);
    assert(pow(2, e) % n == 40110);
    let e = lemma_step(e, 4, 40110, n);
    assert(pow(2, e) % n == 778);
    let e = lemma_step(e, 8, 778, n);
    assert(pow(2, e) % n == 1);
}

proof fn lemma_prime_93001()
    ensures
        modular::is_prime(93001int),
{
    let n = 93001int;
    lemma_power_93001_a();
    lemma_inverse_of_shift(3000nat, 52049, 79405, n);
    lemma_power_93001_b();
    lemma_inverse_of_shift(18600nat, 28198, 35420, n);
    lemma_power_93001_n();
    lemma_prime_31();
    lemma_prime_5();
    modular::lemma_pocklington_two(
        n,
        31,
        3000nat,
        79405,
        5,
        18600nat,
        35420,
        155,
        311,
        2,
    );
}

proof fn lemma_power_12048837557_a()
    ensures
        pow(2, 129556nat) % 12048837557int == 4746995210int,
{
    lemma_small_powers();
    let n = 12048837557int;
    let e = 1nat;
    let e = lemma_step(e, 15, 2, n);
    assert(pow(2, e) % n == 2147483648int);
    let e = lemma_step(e, 10, 2147483648int, n);
    assert(pow(2, e) % n == 7480721140int);
    let e = lemma_step(e, 1, 7480721140int, n);
    assert(pow(2, e) % n == 2062192906);
    let e = lemma_step(e, 4, 2062192906, n);
    assert(pow(2, e) % n == 4746995210int);
}

proof fn lemma_power_12048837557_n()
    ensures
        pow(2, 12048837556nat) % 12048837557int == 1,
{
    lemma_small_powers();
    let n = 12048837557int;
    let e = 2nat;
    let e = lemma_step(e, 12, 4, n);
    assert(pow(2, e) % n == 883211196);
    let e = lemma_step(e, 14, 883211196, n);
    assert(pow(2, e) % n == 7981552270int);
    let e = lemma_step(e, 2, 7981552270int, n);
    assert(pow(2, e) % n == 8474336178int);
    let e = lemma_step(e, 10, 8474336178int, n);
    assert(pow(2, e) % n == 9426048753int);
    let e = lemma_step(e, 10, 9426048753int, n);
    assert(pow(2, e) % n == 284884293);
    let e = lemma_step(e, 11, 284884293, n);
    assert(pow(2, e) % n == 4016385526int);
    let e = lemma_step(e, 11, 4016385526int, n);
    assert(pow(2, e) % n == 11446980907int);
    let e = lemma_step(e, 4, 11446980907int, n);
    assert(pow(2, e) % n == 1);
}

proof fn lemma_prime_12048837557()
    ensures
        modular::is_prime(12048837557int),
{
    let n = 12048837557int;
    lemma_power_12048837557_a();
    lemma_inverse_of_shift(129556nat, 4746995210int, 10304344409int, n);
    lemma_power_12048837557_n();
    lemma_prime_93001();
    modular::lemma_pocklington_one(n, 93001, 186003, 129556nat, 2, 10304344409int);
}

proof fn lemma_power_5156902474397_a()
    ensures
        pow(2, 428nat) % 5156902474397int == 4746712836098int,
{
    lemma_small_powers();
    let n = 5156902474397int;
    let e = 1nat;
    let e = lemma_step(e, 10, 2, n);
    assert(pow(2, e) % n == 67108864);
    let e = lemma_step(e, 12, 67108864, n);
    assert(pow(2, e) % n == 4746712836098int);
}

proof fn lemma_power_5156902474397_n()
    ensures
        pow(2, 5156902474396nat) % 5156902474397int == 1,
{
    lemma_small_powers();
    let n = 5156902474397int;
    let e = 4nat;
    let e = lemma_step(e, 11, 16, n);
    assert(pow(2, e) % n == 3612365223546int);
    let e = lemma_step(e, 0, 3612365223546int, n);
    assert(pow(2, e) % n == 1476751069562int);
    let e = lemma_step(e, 10, 1476751069562int, n);
    assert(pow(2, e) % n == 3044316283765int);
    let e = lemma_step(e, 15, 3044316283765int, n);
    assert(pow(2, e) % n == 1163788361085int);
    let e = lemma_step(e, 5, 1163788361085int, n);
    assert(pow(2, e) % n == 2550693829131int);
    let e = lemma_step(e, 7, 2550693829131int, n);
    assert(pow(2, e) % n == 24272984856int);
    let e = lemma_step(e, 1, 24272984856int, n);
    assert(pow(2, e) % n == 3400251867718int);
    let e = lemma_step(e, 2, 3400251867718int, n);
    assert(pow(2, e) % n == 599630194631int);
    let e = lemma_step(e, 9, 599630194631int, n);
    assert(pow(2, e) % n == 1040775521777int);
    let e = lemma_step(e, 12, 1040775521777int, n);
    assert(pow(2, e) % n == 1);
}

proof fn lemma_prime_5156902474397()
    ensures
        modular::is_prime(5156902474397int),
{
    let n = 5156902474397int;
    lemma_power_5156902474397_a();
    lemma_inverse_of_shift(428nat, 4746712836098int, 5089286551700int, n);
    lemma_power_5156902474397_n();
    lemma_prime_12048837557();
    modular::lemma_pocklington_one(n, 12048837557int, 24097675115int, 428nat, 2, 5089286551700int);
}

proof fn lemma_power_1670836401704629_a()
    ensures
        pow(2, 324nat) % 1670836401704629int == 11046204280772int,
{
    lemma_small_powers();
    let n = 1670836401704629int;
    let e = 1nat;
    let e = lemma_step(e, 4, 2, n);
    assert(pow(2, e) % n == 1048576);
    let e = lemma_step(e, 4, 1048576, n);
    assert(pow(2, e) % n == 11046204280772int);
}

proof fn lemma_power_1670836401704629_n()
    ensures
        pow(2, 1670836401704628nat) % 1670836401704629int == 1,
{
    lemma_small_powers();
    let n = 1670836401704629int;
    let e = 5nat;
    let e = lemma_step(e, 14, 32, n);
    assert(pow(2, e) % n == 334550377564754int);
    let e = lemma_step(e, 15, 334550377564754int, n);
    assert(pow(2, e) % n == 697087771204285int);
    let e = lemma_step(e, 9, 697087771204285int, n);
    assert(pow(2, e) % n == 1096796053977318int);
    let e = lemma_step(e, 13, 1096796053977318int, n);
    assert(pow(2, e) % n == 393450958863751int);
    let e = lemma_step(e, 14, 393450958863751int, n);
    assert(pow(2, e) % n == 1408413978844002int);
    let e = lemma_step(e, 10, 1408413978844002int, n);
    assert(pow(2, e) % n == 351800355889703int);
    let e = lemma_step(e, 3, 351800355889703int, n);
    assert(pow(2, e) % n == 932282227416658int);
    let e = lemma_step(e, 3, 932282227416658int, n);
    assert(pow(2, e) % n == 1417046708254361int);
    let e = lemma_step(e, 8, 1417046708254361int, n);
    assert(pow(2, e) % n == 1073117598149064int);
    let e = lemma_step(e, 14, 1073117598149064int, n);
    assert(pow(2, e) % n == 1314053965769530int);
    let e = lemma_step(e, 11, 1314053965769530int, n);
    assert(pow(2, e) % n == 879277017913070int);
    let e = lemma_step(e, 4, 879277017913070int, n);
    assert(pow(2, e) % n == 1);
}

proof fn lemma_prime_1670836401704629()
    ensures
        modular::is_prime(1670836401704629int),
{
    let n = 1670836401704629int;
    lemma_power_1670836401704629_a();
    lemma_inverse_of_shift(324nat, 11046204280772int, 735766788910399int, n);
    lemma_power_1670836401704629_n();
    lemma_prime_5156902474397();
    modular::lemma_pocklington_one(n, 5156902474397int, 10313804948795int, 324nat, 2, 735766788910399int);
}

#[verifier::rlimit(50)]
proof fn lemma_power_fr_modulus_a()
    ensures
        pow(2, 1583996642733683218748855262055434666238317428736nat) % 21888242871839275222246405745257275088548364400416034343698204186575808495617int == 18810536960267738281623319138564098156538132287104634306360290224932305588168int,
{
    lemma_small_powers();
    let n = 21888242871839275222246405745257275088548364400416034343698204186575808495617int;
    let e = 1nat;
    let e = lemma_step(e, 1, 2, n);
    assert(pow(2, e) % n == 131072);
    let e = lemma_step(e, 5, 131072, n);
    assert(pow(2, e) % n == 16823798998409075995906430829693723340228930651970971436816852745399769151256int);
    let e = lemma_step(e, 7, 16823798998409075995906430829693723340228930651970971436816852745399769151256int, n);
    assert(pow(2, e) % n == 13040802464669606266831328614835655406347254131609343917662803793370204559824int);
    let e = lemma_step(e, 4, 13040802464669606266831328614835655406347254131609343917662803793370204559824int, n);
    assert(pow(2, e) % n == 15423151490781065810462554846089359082891424688625192605349197341591613906807int);
    let e = lemma_step(e, 13, 15423151490781065810462554846089359082891424688625192605349197341591613906807int, n);
    assert(pow(2, e) % n == 4415629775696761809366967581967850696271101556904942673342310861023430697297int);
    let e = lemma_step(e, 13, 4415629775696761809366967581967850696271101556904942673342310861023430697297int, n);
    assert(pow(2, e) % n == 16903234367497423095143607983962563344147386365464922800903706963833024205330int);
    let e = lemma_step(e, 11, 16903234367497423095143607983962563344147386365464922800903706963833024205330int, n);
    assert(pow(2, e) % n == 5136329686385792633667409240589845061727958138014677303582601827836827181640int);
    let e = lemma_step(e, 3, 5136329686385792633667409240589845061727958138014677303582601827836827181640int, n);
    assert(pow(2, e) % n == 15064244127951094484801649277423757974486289324981975834466208895816822285784int);
    let e = lemma_step(e, 2, 15064244127951094484801649277423757974486289324981975834466208895816822285784int, n);
    assert(pow(2, e) % n == 14351601549161313509516825845606964073888132288590030162625057286317260928312int);
    let e = lemma_step(e, 3, 14351601549161313509516825845606964073888132288590030162625057286317260928312int, n);
    assert(pow(2, e) % n == 5505133553961665794846945255669827063873552819639867305960132232749432963505int);
    let e = lemma_step(e, 2, 5505133553961665794846945255669827063873552819639867305960132232749432963505int, n);
    assert(pow(2, e) % n == 13623864290473809962718573051333670985157009783322283495750301430280919763477int);
    let e = lemma_step(e, 5, 13623864290473809962718573051333670985157009783322283495750301430280919763477int, n);
    assert(pow(2, e) % n == 1214886458681328827564745908810427513985332232063783670337243191496626895572int);
    let e = lemma_step(e, 1, 1214886458681328827564745908810427513985332232063783670337243191496626895572int, n);
    assert(pow(2, e) % n == 13645177904280813992524432883792949978420720477393570944050403552883905747996int);
    let e = lemma_step(e, 4, 13645177904280813992524432883792949978420720477393570944050403552883905747996int, n);
    assert(pow(2, e) % n == 3519413043441545167674786953040808655176477143472670998166668418214599255234int);
    let e = lemma_step(e, 15, 3519413043441545167674786953040808655176477143472670998166668418214599255234int, n);
    assert(pow(2, e) % n == 7793623458572817506809316253877996767069350338293738609297703141844092289277int);
    let e = lemma_step(e, 11, 7793623458572817506809316253877996767069350338293738609297703141844092289277int, n);
    assert(pow(2, e) % n == 2412218306366704782133657359123471729627699419777983678798591160568971282377int);
    let e = lemma_step(e, 3, 2412218306366704782133657359123471729627699419777983678798591160568971282377int, n);
    assert(pow(2, e) % n == 787464373951933926068285074246266433330488287615106256611538486063969085692int);
    let e = lemma_step(e, 12, 787464373951933926068285074246266433330488287615106256611538486063969085692int, n);
    assert(pow(2, e) % n == 6968620511371477278720388326138254747853451835993314225820107606799471458990int);
    let e = lemma_step(e, 4, 6968620511371477278720388326138254747853451835993314225820107606799471458990int, n);
    assert(pow(2, e) % n == 4244681544183076339905945143710879178731768150175807879203452448449964451944int);
    let e = lemma_step(e, 14, 4244681544183076339905945143710879178731768150175807879203452448449964451944int, n);
    assert(pow(2, e) % n == 14347245513828210624065731147832910615033166257671196662416396884567453857758int);
    let e = lemma_step(e, 3, 14347245513828210624065731147832910615033166257671196662416396884567453857758int, n);
    assert(pow(2, e) % n == 4720080804450928125080183689651601884297168351150269607792134244579735542266int);
    let e = lemma_step(e, 14, 4720080804450928125080183689651601884297168351150269607792134244579735542266int, n);
    assert(pow(2, e) % n == 20652453224003960036896297428831100671748897059575934048369632915918827833349int);
    let e = lemma_step(e, 9, 20652453224003960036896297428831100671748897059575934048369632915918827833349int, n);
    assert(pow(2, e) % n == 3047967642539099701066638927705445379443221784620136459635871028647419028894int);
    let e = lemma_step(e, 12, 3047967642539099701066638927705445379443221784620136459635871028647419028894int, n);
    assert(pow(2, e) % n == 8970431178471626965245527204882810073408839746137462402937951298070320642821int);
    let e = lemma_step(e, 4, 8970431178471626965245527204882810073408839746137462402937951298070320642821int, n);
    assert(pow(2, e) % n == 19400496696570890224459609582569021991621579166279079662351363770934344192341int);
    let e = lemma_step(e, 0, 19400496696570890224459609582569021991621579166279079662351363770934344192341int, n);
    assert(pow(2, e) % n == 6836462522930919388234219650804948234905003753396941540800536443196821348715int);
    let e = lemma_step(e, 8, 6836462522930919388234219650804948234905003753396941540800536443196821348715int, n);
    assert(pow(2, e) % n == 4408589662121143083014270688363597379805574397123236282916738212314483535587int);
    let e = lemma_step(e, 12, 4408589662121143083014270688363597379805574397123236282916738212314483535587int, n);
    assert(pow(2, e) % n == 21485382514906249856682075829044113118234414171236136451495686563375545422622int);
    let e = lemma_step(e, 12, 21485382514906249856682075829044113118234414171236136451495686563375545422622int, n);
    assert(pow(2, e) % n == 8099847822644819428331568401965059136709557433188886071230264275188090799478int);
    let e = lemma_step(e, 2, 8099847822644819428331568401965059136709557433188886071230264275188090799478int, n);
    assert(pow(2, e) % n == 11341876189277652232527671624415718879558922385557487610789093997033734623237int);
    let e = lemma_step(e, 5, 11341876189277652232527671624415718879558922385557487610789093997033734623237int, n);
    assert(pow(2, e) % n == 6265357918171522455907405409593081239520989974666777685137081111293818176707int);
    let e = lemma_step(e, 1, 6265357918171522455907405409593081239520989974666777685137081111293818176707int, n);
    assert(pow(2, e) % n == 21051800614506612577109039668331076258250520880262849759713487124780230834652int);
    let e = lemma_step(e, 15, 21051800614506612577109039668331076258250520880262849759713487124780230834652int, n);
    assert(pow(2, e) % n == 9918704070747988917442975036742873457402159341897457934902353949550170113396int);
    let e = lemma_step(e, 0, 9918704070747988917442975036742873457402159341897457934902353949550170113396int, n);
    assert(pow(2, e) % n == 7132908753524815942838912639039991293365590015003266247406424798999130865628int);
    let e = lemma_step(e, 0, 7132908753524815942838912639039991293365590015003266247406424798999130865628int, n);
    assert(pow(2, e) % n == 11013209214379710635465746521902096559054643026794591868735231074835160565201int);
    let e = lemma_step(e, 0, 11013209214379710635465746521902096559054643026794591868735231074835160565201int, n);
    assert(pow(2, e) % n == 8814481515798314812640312341155783271160568250284241796070653837522729737361int);
    let e = lemma_step(e, 0, 8814481515798314812640312341155783271160568250284241796070653837522729737361int, n);
    assert(pow(2, e) % n == 15160523154123897548507560485179224146461184845876367905975811251455908957072int);
    let e = lemma_step(e, 0, 15160523154123897548507560485179224146461184845876367905975811251455908957072int, n);
    assert(pow(2, e) % n == 12920972340289573574090480776158007850456857798892813667650455153109837060398int);
    let e = lemma_step(e, 0, 12920972340289573574090480776158007850456857798892813667650455153109837060398int, n);
    assert(pow(2, e) % n == 20699493331613150794421215179564170469997831439703546156133623905568497258057int);
    let e = lemma_step(e, 0, 20699493331613150794421215179564170469997831439703546156133623905568497258057int, n);
    assert(pow(2, e) % n == 18810536960267738281623319138564098156538132287104634306360290224932305588168int);
}

#[verifier::rlimit(50)]
proof fn lemma_power_fr_modulus_b()
    ensures
        pow(2, 13100171177446423556613374118717413492986637444144570673659904nat) % 21888242871839275222246405745257275088548364400416034343698204186575808495617int == 15379204794002667769298530452756604474647348591674452342013272253614090326003int,
{
    lemma_small_powers();
    let n = 21888242871839275222246405745257275088548364400416034343698204186575808495617int;
    let e = 8nat;
    let e = lemma_step(e, 2, 256, n);
    assert(pow(2, e) % n == 1361129467683753853853498429727072845824int);
    let e = lemma_step(e, 6, 1361129467683753853853498429727072845824int, n);
    assert(pow(2, e) % n == 5366546374175185244641636066900046048921634917905060523111866955005549545706int);
    let e = lemma_step(e, 15, 5366546374175185244641636066900046048921634917905060523111866955005549545706int, n);
    assert(pow(2, e) % n == 18015163782144131529439816032835019959905587973676877629754673335591499433292int);
    let e = lemma_step(e, 10, 18015163782144131529439816032835019959905587973676877629754673335591499433292int, n);
    assert(pow(2, e) % n == 12352014046696110334319054516683011595559666622775757520488453427964713569597int);
    let e = lemma_step(e, 4, 12352014046696110334319054516683011595559666622775757520488453427964713569597int, n);
    assert(pow(2, e) % n == 1598641687562460966880807775052975444923093765435258404532849311693177420540int);
    let e = lemma_step(e, 8, 1598641687562460966880807775052975444923093765435258404532849311693177420540int, n);
    assert(pow(2, e) % n == 13082924593713623961005982753059628425541923429731846922807263622352041845107int);
    let e = lemma_step(e, 13, 13082924593713623961005982753059628425541923429731846922807263622352041845107int, n);
    assert(pow(2, e) % n == 12924652620174799813573468294235316400458640856460898793191269388297047962929int);
    let e = lemma_step(e, 3, 12924652620174799813573468294235316400458640856460898793191269388297047962929int, n);
    assert(pow(2, e) % n == 17147435326052099480881999666988140891133541815664465943414741102174075772946int);
    let e = lemma_step(e, 3, 17147435326052099480881999666988140891133541815664465943414741102174075772946int, n);
    assert(pow(2, e) % n == 4760698390643255329188591356675645739675838390880463229457147204521727572241int);
    let e = lemma_step(e, 14, 4760698390643255329188591356675645739675838390880463229457147204521727572241int, n);
    assert(pow(2, e) % n == 824988816474800800672846862589587179501932030196169020241579614785213165383int);
    let e = lemma_step(e, 14, 824988816474800800672846862589587179501932030196169020241579614785213165383int, n);
    assert(pow(2, e) % n == 12155113041417452963487915999904819303064406315251691420605585987235171502536int);
    let e = lemma_step(e, 8, 12155113041417452963487915999904819303064406315251691420605585987235171502536int, n);
    assert(pow(2, e) % n == 7309288595680998762694002351241031452114310686930338038539588632309405316228int);
    let e = lemma_step(e, 0, 7309288595680998762694002351241031452114310686930338038539588632309405316228int, n);
    assert(pow(2, e) % n == 4882558930995886899163184127704960018697209195741937023411872999845039944134int);
    let e = lemma_step(e, 0, 4882558930995886899163184127704960018697209195741937023411872999845039944134int, n);
    assert(pow(2, e) % n == 1957069767162239894219545239863319714916156642965127254953112200542581471924int);
    let e = lemma_step(e, 1, 1957069767162239894219545239863319714916156642965127254953112200542581471924int, n);
    assert(pow(2, e) % n == 2231337951565997679099184026090003590271807650155657384369521587494640313385int);
    let e = lemma_step(e, 5, 2231337951565997679099184026090003590271807650155657384369521587494640313385int, n);
    assert(pow(2, e) % n == 8038660799657240966370247031545217555731319947174696091114208768916200638769int);
    let e = lemma_step(e, 9, 8038660799657240966370247031545217555731319947174696091114208768916200638769int, n);
    assert(pow(2, e) % n == 1260213170437826978718817643997792163069239464769810175336021723220848382673int);
    let e = lemma_step(e, 2, 1260213170437826978718817643997792163069239464769810175336021723220848382673int, n);
    assert(pow(2, e) % n == 14242509972953587448672115823747891314711639407707696730970527060961511735570int);
    let e = lemma_step(e, 8, 14242509972953587448672115823747891314711639407707696730970527060961511735570int, n);
    assert(pow(2, e) % n == 3614559429264648277805348097954856067315517871696690789704962859760124641330int);
    let e = lemma_step(e, 9, 3614559429264648277805348097954856067315517871696690789704962859760124641330int, n);
    assert(pow(2, e) % n == 21706331481072337858566722515463188242882312721358119369262306224127758013865int);
    let e = lemma_step(e, 10, 21706331481072337858566722515463188242882312721358119369262306224127758013865int, n);
    assert(pow(2, e) % n == 11052159103049287875588988888085669953775173008750911095734933686285588603705int);
    let e = lemma_step(e, 14, 11052159103049287875588988888085669953775173008750911095734933686285588603705int, n);
    assert(pow(2, e) % n == 2656063025880560188509333656368518205699888570910842366876527322664698886647int);
    let e = lemma_step(e, 6, 2656063025880560188509333656368518205699888570910842366876527322664698886647int, n);
    assert(pow(2, e) % n == 13490653233215338110522290637997286752727191449377131171999613001457551716140int);
    let e = lemma_step(e, 3, 13490653233215338110522290637997286752727191449377131171999613001457551716140int, n);
    assert(pow(2, e) % n == 17076483388368218787728402368469987354538855872712072803959058777657923484861int);
    let e = lemma_step(e, 5, 17076483388368218787728402368469987354538855872712072803959058777657923484861int, n);
    assert(pow(2, e) % n == 12522048328643367961429441092063593573947721701899317604454380544212112583812int);
    let e = lemma_step(e, 8, 12522048328643367961429441092063593573947721701899317604454380544212112583812int, n);
    assert(pow(2, e) % n == 20415343007683217696288873755266264508095799581029990741107974479007626446974int);
    let e = lemma_step(e, 15, 20415343007683217696288873755266264508095799581029990741107974479007626446974int, n);
    assert(pow(2, e) % n == 19042237085024066861492577235154347402425993281130266459556231195272170070189int);
    let e = lemma_step(e, 14, 19042237085024066861492577235154347402425993281130266459556231195272170070189int, n);
    assert(pow(2, e) % n == 8694446273085316977781036170289354366500676362014238857792320779883158717077int);
    let e = lemma_step(e, 5, 8694446273085316977781036170289354366500676362014238857792320779883158717077int, n);
    assert(pow(2, e) % n == 16413922031324389493271781658940637282218588285288643025457188093020145232842int);
    let e = lemma_step(e, 11, 16413922031324389493271781658940637282218588285288643025457188093020145232842int, n);
    assert(pow(2, e) % n == 7380874984968801957815679595428091258866344954338475385876557718433907538223int);
    let e = lemma_step(e, 10, 7380874984968801957815679595428091258866344954338475385876557718433907538223int, n);
    assert(pow(2, e) % n == 19477785534672784294883941548633008213112851911030187909539251089367451835443int);
    let e = lemma_step(e, 12, 19477785534672784294883941548633008213112851911030187909539251089367451835443int, n);
    assert(pow(2, e) % n == 255523923119097555701399801601013297935717713041797981489530931026587588392int);
    let e = lemma_step(e, 4, 255523923119097555701399801601013297935717713041797981489530931026587588392int, n);
    assert(pow(2, e) % n == 640466768741442039335893341165609172496224811987449062547866596883843160023int);
    let e = lemma_step(e, 12, 640466768741442039335893341165609172496224811987449062547866596883843160023int, n);
    assert(pow(2, e) % n == 3048320191011778239110395802638356617708022414531178112622184463830855912835int);
    let e = lemma_step(e, 5, 3048320191011778239110395802638356617708022414531178112622184463830855912835int, n);
    assert(pow(2, e) % n == 20284893860538483563259037143314688324790304607403473116163500868907991553284int);
    let e = lemma_step(e, 15, 20284893860538483563259037143314688324790304607403473116163500868907991553284int, n);
    assert(pow(2, e) % n == 4981785738834707946699951418973715564856285848401838260717120673017077170919int);
    let e = lemma_step(e, 8, 4981785738834707946699951418973715564856285848401838260717120673017077170919int, n);
    assert(pow(2, e) % n == 1275235225387837669243419840841087040727602594113164594942823825218822932600int);
    let e = lemma_step(e, 0, 1275235225387837669243419840841087040727602594113164594942823825218822932600int, n);
    assert(pow(2, e) % n == 6336910755443255157387357377284712559015725873014758604005426813278756077780int);
    let e = lemma_step(e, 15, 6336910755443255157387357377284712559015725873014758604005426813278756077780int, n);
    assert(pow(2, e) % n == 10060685096855440919971310693375631701617350357917075683179000325491435449144int);
    let e = lemma_step(e, 0, 10060685096855440919971310693375631701617350357917075683179000325491435449144int, n);
    assert(pow(2, e) % n == 11938995457038997420882364739106248092963475600294098784059001122546039691645int);
    let e = lemma_step(e, 12, 11938995457038997420882364739106248092963475600294098784059001122546039691645int, n);
    assert(pow(2, e) % n == 13718302492666260539172126730916363547481306384011931856263651452557311456216int);
    let e = lemma_step(e, 10, 13718302492666260539172126730916363547481306384011931856263651452557311456216int, n);
    assert(pow(2, e) % n == 20324285529828767801885450768033730956172412238751079649813258008831546471932int);
    let e = lemma_step(e, 3, 20324285529828767801885450768033730956172412238751079649813258008831546471932int, n);
    assert(pow(2, e) % n == 2024539804345645663677263309228087733875700031669354037645342426578129658061int);
    let e = lemma_step(e, 0, 2024539804345645663677263309228087733875700031669354037645342426578129658061int, n);
    assert(pow(2, e) % n == 20689209616309215818422121938204155965271559077519591240313625106413247435461int);
    let e = lemma_step(e, 0, 20689209616309215818422121938204155965271559077519591240313625106413247435461int, n);
    assert(pow(2, e) % n == 14525966415836281663423004061868747219298742139703121609140246184258023277191int);
    let e = lemma_step(e, 0, 14525966415836281663423004061868747219298742139703121609140246184258023277191int, n);
    assert(pow(2, e) % n == 21611632700703046783049635185665686076590242598282637541130309416547287982139int);
    let e = lemma_step(e, 0, 21611632700703046783049635185665686076590242598282637541130309416547287982139int, n);
    assert(pow(2, e) % n == 18561755742817566280287259544898955210683013557421024580098138843369515383106int);
    let e = lemma_step(e, 0, 18561755742817566280287259544898955210683013557421024580098138843369515383106int, n);
    assert(pow(2, e) % n == 9537349810653207095091060462768913840069974962005201755436733570137180771695int);
    let e = lemma_step(e, 0, 9537349810653207095091060462768913840069974962005201755436733570137180771695int, n);
    assert(pow(2, e) % n == 7996118323490697805976996694565013068977237761891849422682678936456858970566int);
    let e = lemma_step(e, 0, 7996118323490697805976996694565013068977237761891849422682678936456858970566int, n);
    assert(pow(2, e) % n == 15379204794002667769298530452756604474647348591674452342013272253614090326003int);
}

#[verifier::rlimit(50)]
proof fn lemma_power_fr_modulus_n()
    ensures
        pow(2, 21888242871839275222246405745257275088548364400416034343698204186575808495616nat) % 21888242871839275222246405745257275088548364400416034343698204186575808495617int == 1,
{
    lemma_small_powers();
    let n = 21888242871839275222246405745257275088548364400416034343698204186575808495617int;
    let e = 3nat;
    let e = lemma_step(e, 0, 8, n);
    assert(pow(2, e) % n == 281474976710656int);
    let e = lemma_step(e, 6, 281474976710656int, n);
    assert(pow(2, e) % n == 3358978119138415781164374141201985600525363949969598895158693736819143479279int);
    let e = lemma_step(e, 4, 3358978119138415781164374141201985600525363949969598895158693736819143479279int, n);
    assert(pow(2, e) % n == 8955988781158394026615670694253343486774986614005316490808620110167549028267int);
    let e = lemma_step(e, 4, 8955988781158394026615670694253343486774986614005316490808620110167549028267int, n);
    assert(pow(2, e) % n == 14202828228511963578547472068187713495514514151691649925114265752104930057704int);
    let e = lemma_step(e, 14, 14202828228511963578547472068187713495514514151691649925114265752104930057704int, n);
    assert(pow(2, e) % n == 21414730082813131366401031764378650386058912856603730963703185920747716638438int);
    let e = lemma_step(e, 7, 21414730082813131366401031764378650386058912856603730963703185920747716638438int, n);
    assert(pow(2, e) % n == 15462835353969768989290948277282973364999105582496582237364644348325237122044int);
    let e = lemma_step(e, 2, 15462835353969768989290948277282973364999105582496582237364644348325237122044int, n);
    assert(pow(2, e) % n == 5357483371885799994652339058023731938732621507996838723950665953114759448284int);
    let e = lemma_step(e, 14, 5357483371885799994652339058023731938732621507996838723950665953114759448284int, n);
    assert(pow(2, e) % n == 17300133813764282683175693180054617398780825396446267913249842843171518803987int);
    let e = lemma_step(e, 1, 17300133813764282683175693180054617398780825396446267913249842843171518803987int, n);
    assert(pow(2, e) % n == 12102411061057815138602022003822273416298442320595846447354638897009401927254int);
    let e = lemma_step(e, 3, 12102411061057815138602022003822273416298442320595846447354638897009401927254int, n);
    assert(pow(2, e) % n == 8973840906095197026539539659964817963263268179098794321433390714230822220715int);
    let e = lemma_step(e, 1, 8973840906095197026539539659964817963263268179098794321433390714230822220715int, n);
    assert(pow(2, e) % n == 9940834951476906450874779777928951404069898062388430160990359908380745072664int);
    let e = lemma_step(e, 10, 9940834951476906450874779777928951404069898062388430160990359908380745072664int, n);
    assert(pow(2, e) % n == 4221771393310364185637771803685611482319774197624303809432482600648858489725int);
    let e = lemma_step(e, 0, 4221771393310364185637771803685611482319774197624303809432482600648858489725int, n);
    assert(pow(2, e) % n == 14900336362888059270146832203975384786758191178150320111884464572987280860750int);
    let e = lemma_step(e, 2, 14900336362888059270146832203975384786758191178150320111884464572987280860750int, n);
    assert(pow(2, e) % n == 21629016673907331143834900546850177665317522409486717315011725284511375469775int);
    let e = lemma_step(e, 9, 21629016673907331143834900546850177665317522409486717315011725284511375469775int, n);
    assert(pow(2, e) % n == 16294593645525683847994982546677972961652385890136534787309365129844293097702int);
    let e = lemma_step(e, 11, 16294593645525683847994982546677972961652385890136534787309365129844293097702int, n);
    assert(pow(2, e) % n == 5974345975883273520918970906853344563783771853769918498127526225547174437884int);
    let e = lemma_step(e, 8, 5974345975883273520918970906853344563783771853769918498127526225547174437884int, n);
    assert(pow(2, e) % n == 5351993962484547749450371382632273529600395932232041629107895020410606104747int);
    let e = lemma_step(e, 5, 5351993962484547749450371382632273529600395932232041629107895020410606104747int, n);
    assert(pow(2, e) % n == 14985141051290187458800863623973343204213669719310119892577087596570717648999int);
    let e = lemma_step(e, 0, 14985141051290187458800863623973343204213669719310119892577087596570717648999int, n);
    assert(pow(2, e) % n == 426442063239882875382041075483398527811703906082474396915708080233994383008int);
    let e = lemma_step(e, 4, 426442063239882875382041075483398527811703906082474396915708080233994383008int, n);
    assert(pow(2, e) % n == 13379171140304282329350107161650005186090048128239397260181020191686225736980int);
    let e = lemma_step(e, 5, 13379171140304282329350107161650005186090048128239397260181020191686225736980int, n);
    assert(pow(2, e) % n == 8155061686340887072054132710407296741249642371366177698009244715980383022632int);
    let e = lemma_step(e, 11, 8155061686340887072054132710407296741249642371366177698009244715980383022632int, n);
    assert(pow(2, e) % n == 2762754846514146721793672455824112721195664623313563978335261507792299575229int);
    let e = lemma_step(e, 6, 2762754846514146721793672455824112721195664623313563978335261507792299575229int, n);
    assert(pow(2, e) % n == 4779329561627786480899468565069677216412167671131548022947552510328599537687int);
    let e = lemma_step(e, 8, 4779329561627786480899468565069677216412167671131548022947552510328599537687int, n);
    assert(pow(2, e) % n == 4839184730084372195382271586809878396422234172868351155937565106108155169744int);
    let e = lemma_step(e, 1, 4839184730084372195382271586809878396422234172868351155937565106108155169744int, n);
    assert(pow(2, e) % n == 7450826853305729476711800583092209979925142270376930110483728340141559097747int);
    let e = lemma_step(e, 8, 7450826853305729476711800583092209979925142270376930110483728340141559097747int, n);
    assert(pow(2, e) % n == 17495088024300463179882554427237069834326496793336063918578467358234842806800int);
    let e = lemma_step(e, 1, 17495088024300463179882554427237069834326496793336063918578467358234842806800int, n);
    assert(pow(2, e) % n == 14547369039727964759510954731231468729000344698769559853215719124195057849457int);
    let e = lemma_step(e, 5, 14547369039727964759510954731231468729000344698769559853215719124195057849457int, n);
    assert(pow(2, e) % n == 18074694259187439066906904710804466746411257940301062812907613019752738180597int);
    let e = lemma_step(e, 8, 18074694259187439066906904710804466746411257940301062812907613019752738180597int, n);
    assert(pow(2, e) % n == 16888941602329286532244487939343165402096149899623360779480207108256172927777int);
    let e = lemma_step(e, 5, 16888941602329286532244487939343165402096149899623360779480207108256172927777int, n);
    assert(pow(2, e) % n == 15714207610064021344491302039615359711952315126223832864141435157041713444928int);
    let e = lemma_step(e, 13, 15714207610064021344491302039615359711952315126223832864141435157041713444928int, n);
    assert(pow(2, e) % n == 10743360754487676677699255509727998032993543073770110136381406474725251743150int);
    let e = lemma_step(e, 2, 10743360754487676677699255509727998032993543073770110136381406474725251743150int, n);
    assert(pow(2, e) % n == 20647571596646865362221948595515569566738411571266605725847230370271077572734int);
    let e = lemma_step(e, 8, 20647571596646865362221948595515569566738411571266605725847230370271077572734int, n);
    assert(pow(2, e) % n == 14775453787228252366273605382859325171165104875314402178888522270294476173932int);
    let e = lemma_step(e, 3, 14775453787228252366273605382859325171165104875314402178888522270294476173932int, n);
    assert(pow(2, e) % n == 15033114866506533258225311161055859366034843468870281771352636892767679853283int);
    let e = lemma_step(e, 3, 15033114866506533258225311161055859366034843468870281771352636892767679853283int, n);
    assert(pow(2, e) % n == 2174240117501294518502009484401603205077193267907184033953149714638791724816int);
    let e = lemma_step(e, 14, 2174240117501294518502009484401603205077193267907184033953149714638791724816int, n);
    assert(pow(2, e) % n == 1044041078493345875546080091575843507477080777047493119677250444805709481749int);
    let e = lemma_step(e, 8, 1044041078493345875546080091575843507477080777047493119677250444805709481749int, n);
    assert(pow(2, e) % n == 15343912146920724211838647367976901299280177915185528624773218215925811973645int);
    let e = lemma_step(e, 4, 15343912146920724211838647367976901299280177915185528624773218215925811973645int, n);
    assert(pow(2, e) % n == 992831685754311636848853567024584989997457619662941197067055436068828641033int);
    let e = lemma_step(e, 8, 992831685754311636848853567024584989997457619662941197067055436068828641033int, n);
    assert(pow(2, e) % n == 784648367556210619117423452981616039725530765589892219965957523325309260919int);
    let e = lemma_step(e, 7, 784648367556210619117423452981616039725530765589892219965957523325309260919int, n);
    assert(pow(2, e) % n == 13231901646257011418727298515041581308325576770408634576442298251959717538386int);
    let e = lemma_step(e, 9, 13231901646257011418727298515041581308325576770408634576442298251959717538386int, n);
    assert(pow(2, e) % n == 15005156247399768174084973034801411607521784239700780255990047161160848397564int);
    let e = lemma_step(e, 11, 15005156247399768174084973034801411607521784239700780255990047161160848397564int, n);
    assert(pow(2, e) % n == 14883296772442968663527040057560625810691456378506730509629699265722016136877int);
    let e = lemma_step(e, 9, 14883296772442968663527040057560625810691456378506730509629699265722016136877int, n);
    assert(pow(2, e) % n == 6651881316409103679178966633274213439868523131820345543488260632480148302440int);
    let e = lemma_step(e, 7, 6651881316409103679178966633274213439868523131820345543488260632480148302440int, n);
    assert(pow(2, e) % n == 18745909738814302707504112239981887591476195177232929977626368180811758979877int);
    let e = lemma_step(e, 0, 18745909738814302707504112239981887591476195177232929977626368180811758979877int, n);
    assert(pow(2, e) % n == 4663002827856585242724819153291133164827471015027199268687008873624890658899int);
    let e = lemma_step(e, 9, 4663002827856585242724819153291133164827471015027199268687008873624890658899int, n);
    assert(pow(2, e) % n == 21588410173975353596008580523071041803785180373268285770820650315232922033014int);
    let e = lemma_step(e, 1, 21588410173975353596008580523071041803785180373268285770820650315232922033014int, n);
    assert(pow(2, e) % n == 10048445572839729007296561515630437496282615019965471434653336637708278596710int);
    let e = lemma_step(e, 4, 10048445572839729007296561515630437496282615019965471434653336637708278596710int, n);
    assert(pow(2, e) % n == 8129861850952048692284622109129628295616919536637244226186648789695403566652int);
    let e = lemma_step(e, 3, 8129861850952048692284622109129628295616919536637244226186648789695403566652int, n);
    assert(pow(2, e) % n == 13501543097561443416312444697240848828607238571423532036949185287595460291175int);
    let e = lemma_step(e, 14, 13501543097561443416312444697240848828607238571423532036949185287595460291175int, n);
    assert(pow(2, e) % n == 5829164618501254092868821044678702342176398311571728400564011112276254620787int);
    let e = lemma_step(e, 1, 5829164618501254092868821044678702342176398311571728400564011112276254620787int, n);
    assert(pow(2, e) % n == 13615412615084427776141309912659378210799661250433721606292451385010808727900int);
    let e = lemma_step(e, 15, 13615412615084427776141309912659378210799661250433721606292451385010808727900int, n);
    assert(pow(2, e) % n == 18858335196356773620073302493186955379724844454159452969090984210879387962646int);
    let e = lemma_step(e, 5, 18858335196356773620073302493186955379724844454159452969090984210879387962646int, n);
    assert(pow(2, e) % n == 19715765079721848901456898089099924144972104551528317448926688465230123462410int);
    let e = lemma_step(e, 9, 19715765079721848901456898089099924144972104551528317448926688465230123462410int, n);
    assert(pow(2, e) % n == 4542135754351385523021871478808103740895886618352799818000603799390210600912int);
    let e = lemma_step(e, 3, 4542135754351385523021871478808103740895886618352799818000603799390210600912int, n);
    assert(pow(2, e) % n == 1815622771043097448752453592981521284799420018886553510349950437858199482584int);
    let e = lemma_step(e, 15, 1815622771043097448752453592981521284799420018886553510349950437858199482584int, n);
    assert(pow(2, e) % n == 3091944783686433864868683113657936682576121239650942555197128345665300467552int);
    let e = lemma_step(e, 0, 3091944783686433864868683113657936682576121239650942555197128345665300467552int, n);
    assert(pow(2, e) % n == 9159286869657520653749402495457206340389815581178787085518047526883659256664int);
    let e = lemma_step(e, 0, 9159286869657520653749402495457206340389815581178787085518047526883659256664int, n);
    assert(pow(2, e) % n == 18333846338735918086119770370996793657148423066986792040814806535363776410818int);
    let e = lemma_step(e, 0, 18333846338735918086119770370996793657148423066986792040814806535363776410818int, n);
    assert(pow(2, e) % n == 12998202762462019689343049325499432606636388046515302535916683419177694988541int);
    let e = lemma_step(e, 0, 12998202762462019689343049325499432606636388046515302535916683419177694988541int, n);
    assert(pow(2, e) % n == 20933937181252490806107013321290492602439802319057366872226345399266116858855int);
    let e = lemma_step(e, 0, 20933937181252490806107013321290492602439802319057366872226345399266116858855int, n);
    assert(pow(2, e) % n == 7414961253265816595321015936562322731060442399429391669368164504607710492273int);
    let e = lemma_step(e, 0, 7414961253265816595321015936562322731060442399429391669368164504607710492273int, n);
    assert(pow(2, e) % n == 19540430494807482326159819597004422086093766032135589407132600596362845576832int);
    let e = lemma_step(e, 0, 19540430494807482326159819597004422086093766032135589407132600596362845576832int, n);
    assert(pow(2, e) % n == 1);
}

/// The modulus of the BN254 scalar field is prime.
pub proof fn lemma_prime_fr_modulus()
    ensures
        modular::is_prime(21888242871839275222246405745257275088548364400416034343698204186575808495617int),
{
    let n = 21888242871839275222246405745257275088548364400416034343698204186575808495617int;
    lemma_power_fr_modulus_a();
    lemma_inverse_of_shift(1583996642733683218748855262055434666238317428736nat, 18810536960267738281623319138564098156538132287104634306360290224932305588168int, 18830771696733986827343121108258373716716634563029220880262390084180817631389int, n);
    lemma_power_fr_modulus_b();
    lemma_inverse_of_shift(13100171177446423556613374118717413492986637444144570673659904nat, 15379204794002667769298530452756604474647348591674452342013272253614090326003int, 86052601511993865195709936845511121156384965108811623497653747272590813794int, n);
    lemma_power_fr_modulus_n();
    lemma_prime_13818364434197438864469338081();
    lemma_prime_1670836401704629();
    modular::lemma_pocklington_two(
        n,
        13818364434197438864469338081int,
        1583996642733683218748855262055434666238317428736nat,
        18830771696733986827343121108258373716716634563029220880262390084180817631389int,
        1670836401704629int,
        13100171177446423556613374118717413492986637444144570673659904nat,
        86052601511993865195709936845511121156384965108811623497653747272590813794int,
        23088226308677670388631582763742451703676949int,
        46176452617355340777263165527484903407353899int,
        2,
    );
}

proof fn lemma_prime_7()
    ensures
        modular::is_prime(7int),
{
    assert forall|d: int| 1 < d < 7 implies #[trigger] (7int % d) != 0 by {
        assert(7int % 2int != 0);
        assert(7int % 3int != 0);
        assert(7int % 4int != 0);
        assert(7int % 5int != 0);
        assert(7int % 6int != 0);
    }
}

proof fn lemma_power_127_a()
    ensures
        pow(2, 18nat) % 127int == 16,
{
    lemma_small_powers();
    let n = 127int;
    let e = 1nat;
    let e = lemma_step(e, 2, 2, n);
    assert(pow(2, e) % n == 16);
}

proof fn lemma_power_127_n()
    ensures
        pow(2, 126nat) % 127int == 1,
{
    lemma_small_powers();
    let n = 127int;
    let e = 7nat;
    let e = lemma_step(e, 14, 1, n);
    assert(pow(2, e) % n == 1);
}

proof fn lemma_prime_127()
    ensures
        modular::is_prime(127int),
{
    let n = 127int;
    lemma_power_127_a();
    lemma_inverse_of_shift(18nat, 16, 17, n);
    lemma_power_127_n();
    lemma_prime_7();
    modular::lemma_pocklington_one(n, 7, 15, 18nat, 2, 17);
}

proof fn lemma_power_3557_a()
    ensures
        pow(2, 28nat) % 3557int == 2894,
{
    lemma_small_powers();
    let n = 3557int;
    let e = 1nat;
    let e = lemma_step(e, 12, 2, n);
    assert(pow(2, e) % n == 2894);
}

proof fn lemma_power_3557_n()
    ensures
        pow(2, 3556nat) % 3557int == 1,
{
    lemma_small_powers();
    let n = 3557int;
    let e = 13nat;
    let e = lemma_step(e, 14, 1078, n);
    assert(pow(2, e) % n == 1082);
    let e = lemma_step(e, 4, 1082, n);
    assert(pow(2, e) % n == 1);
}

proof fn lemma_prime_3557()
    ensures
        modular::is_prime(3557int),
{
    let n = 3557int;
    lemma_power_3557_a();
    lemma_inverse_of_shift(28nat, 2894, 1741, n);
    lemma_power_3557_n();
    lemma_prime_127();
    modular::lemma_pocklington_one(n, 127, 255, 28nat, 2, 1741);
}

proof fn lemma_prime_13()
    ensures
        modular::is_prime(13int),
{
    assert forall|d: int| 1 < d < 13 implies #[trigger] (13int % d) != 0 by {
        assert(13int % 2int != 0);
        assert(13int % 3int != 0);
        assert(13int % 4int != 0);
        assert(13int % 5int != 0);
        assert(13int % 6int != 0);
        assert(13int % 7int != 0);
        assert(13int % 8int != 0);
        assert(13int % 9int != 0);
        assert(13int % 10int != 0);
        assert(13int % 11int != 0);
        assert(13int % 12int != 0);
    }
}

proof fn lemma_power_1263766531_a()
    ensures
        pow(2, 355290nat) % 1263766531int == 142661317,
{
    lemma_small_powers();
    let n = 1263766531int;
    let e = 5nat;
    let e = lemma_step(e, 6, 32, n);
    assert(pow(2, e) % n == 100919564);
    let e = lemma_step(e, 11, 100919564, n);
    assert(pow(2, e) % n == 601863299);
    let e = lemma_step(e, 13, 601863299, n);
    assert(pow(2, e) % n == 519361863);
    let e = lemma_step(e, 10, 519361863, n);
    assert(pow(2, e) % n == 142661317);
}

proof fn lemma_power_1263766531_b()
    ensures
        pow(2, 97212810nat) % 1263766531int == 733610513,
{
    lemma_small_powers();
    let n = 1263766531int;
    let e = 5nat;
    let e = lemma_step(e, 12, 32, n);
    assert(pow(2, e) % n == 140019441);
    let e = lemma_step(e, 11, 140019441, n);
    assert(pow(2, e) % n == 304639274);
    let e = lemma_step(e, 5, 304639274, n);
    assert(pow(2, e) % n == 61338650);
    let e = lemma_step(e, 9, 61338650, n);
    assert(pow(2, e) % n == 536849700);
    let e = lemma_step(e, 8, 536849700, n);
    assert(pow(2, e) % n == 1021646781);
    let e = lemma_step(e, 10, 1021646781, n);
    assert(pow(2, e) % n == 733610513);
}

proof fn lemma_power_1263766531_n()
    ensures
        pow(2, 1263766530nat) % 1263766531int == 1,
{
    lemma_small_powers();
    let n = 1263766531int;
    let e = 4nat;
    let e = lemma_step(e, 11, 16, n);
    assert(pow(2, e) % n == 787435065);
    let e = lemma_step(e, 5, 787435065, n);
    assert(pow(2, e) % n == 1030478679);
    let e = lemma_step(e, 3, 1030478679, n);
    assert(pow(2, e) % n == 29568663);
    let e = lemma_step(e, 8, 29568663, n);
    assert(pow(2, e) % n == 1168068177);
    let e = lemma_step(e, 12, 1168068177, n);
    assert(pow(2, e) % n == 273445509);
    let e = lemma_step(e, 0, 273445509, n);
    assert(pow(2, e) % n == 905345482);
    let e = lemma_step(e, 2, 905345482, n);
    assert(pow(2, e) % n == 1);
}

proof fn lemma_prime_1263766531()
    ensures
        modular::is_prime(1263766531int),
{
    let n = 1263766531int;
    lemma_power_1263766531_a();
    lemma_inverse_of_shift(355290nat, 142661317, 1084735757, n);
    lemma_power_1263766531_b();
    lemma_inverse_of_shift(97212810nat, 733610513, 645555144, n);
    lemma_power_1263766531_n();
    lemma_prime_3557();
    lemma_prime_13();
    modular::lemma_pocklington_two(
        n,
        3557,
        355290nat,
        1084735757,
        13,
        97212810nat,
        645555144,
        46241,
        92483,
        2,
    );
}

proof fn lemma_power_35385462869_a()
    ensures
        pow(2, 28nat) % 35385462869int == 268435456,
{
    lemma_small_powers();
    let n = 35385462869int;
    let e = 1nat;
    let e = lemma_step(e, 12, 2, n);
    assert(pow(2, e) % n == 268435456);
}

proof fn lemma_power_35385462869_n()
    ensures
        pow(2, 35385462868nat) % 35385462869int == 1,
{
    lemma_small_powers();
    let n = 35385462869int;
    let e = 8nat;
    let e = lemma_step(e, 3, 256, n);
    assert(pow(2, e) % n == 5854993364int);
    let e = lemma_step(e, 13, 5854993364int, n);
    assert(pow(2, e) % n == 19050692451int);
    let e = lemma_step(e, 2, 19050692451int, n);
    assert(pow(2, e) % n == 14042448495int);
    let e = lemma_step(e, 3, 14042448495int, n);
    assert(pow(2, e) % n == 3449281157int);
    let e = lemma_step(e, 5, 3449281157int, n);
    assert(pow(2, e) % n == 17929357116int);
    let e = lemma_step(e, 0, 17929357116int, n);
    assert(pow(2, e) % n == 15661835382int);
    let e = lemma_step(e, 5, 15661835382int, n);
    assert(pow(2, e) % n == 31753004590int);
    let e = lemma_step(e, 4, 31753004590int, n);
    assert(pow(2, e) % n == 1);
}

proof fn lemma_prime_35385462869()
    ensures
        modular::is_prime(35385462869int),
{
    let n = 35385462869int;
    lemma_power_35385462869_a();
    lemma_inverse_of_shift(28nat, 268435456, 30792025501int, n);
    lemma_power_35385462869_n();
    lemma_prime_1263766531();
    modular::lemma_pocklington_one(n, 1263766531, 2527533063int, 28nat, 2, 30792025501int);
}

proof fn lemma_power_2480874801745591_a()
    ensures
        pow(2, 70110nat) % 2480874801745591int == 1241451147209469int,
{
    lemma_small_powers();
    let n = 2480874801745591int;
    let e = 1nat;
    let e = lemma_step(e, 1, 2, n);
    assert(pow(2, e) % n == 131072);
    let e = lemma_step(e, 1, 131072, n);
    assert(pow(2, e) % n == 983599968363448int);
    let e = lemma_step(e, 13, 983599968363448int, n);
    assert(pow(2, e) % n == 343355939563700int);
    let e = lemma_step(e, 14, 343355939563700int, n);
    assert(pow(2, e) % n == 1241451147209469int);
}

proof fn lemma_power_2480874801745591_n()
    ensures
        pow(2, 2480874801745590nat) % 2480874801745591int == 1,
{
    lemma_small_powers();
    let n = 2480874801745591int;
    let e = 8nat;
    let e = lemma_step(e, 13, 256, n);
    assert(pow(2, e) % n == 2005088522671504int);
    let e = lemma_step(e, 0, 2005088522671504int, n);
    assert(pow(2, e) % n == 2001121152191866int);
    let e = lemma_step(e, 5, 2001121152191866int, n);
    assert(pow(2, e) % n == 1726358251924802int);
    let e = lemma_step(e, 7, 1726358251924802int, n);
    assert(pow(2, e) % n == 871500393230781int);
    let e = lemma_step(e, 10, 871500393230781int, n);
    assert(pow(2, e) % n == 1651085890098036int);
    let e = lemma_step(e, 13, 1651085890098036int, n);
    assert(pow(2, e) % n == 17511692129976int);
    let e = lemma_step(e, 4, 17511692129976int, n);
    assert(pow(2, e) % n == 1454113814166636int);
    let e = lemma_step(e, 10, 1454113814166636int, n);
    assert(pow(2, e) % n == 1984478015218028int);
    let e = lemma_step(e, 4, 1984478015218028int, n);
    assert(pow(2, e) % n == 474524985088893int);
    let e = lemma_step(e, 14, 474524985088893int, n);
    assert(pow(2, e) % n == 1998205100587560int);
    let e = lemma_step(e, 11, 1998205100587560int, n);
    assert(pow(2, e) % n == 1778809570843027int);
    let e = lemma_step(e, 6, 1778809570843027int, n);
    assert(pow(2, e) % n == 1);
}

proof fn lemma_prime_2480874801745591()
    ensures
        modular::is_prime(2480874801745591int),
{
    let n = 2480874801745591int;
    lemma_power_2480874801745591_a();
    lemma_inverse_of_shift(70110nat, 1241451147209469int, 60395260069513int, n);
    lemma_power_2480874801745591_n();
    lemma_prime_35385462869();
    modular::lemma_pocklington_one(n, 35385462869int, 70770925739int, 70110nat, 2, 60395260069513int);
}

proof fn lemma_prime_37()
    ensures
        modular::is_prime(37int),
{
    assert forall|d: int| 1 < d < 37 implies #[trigger] (37int % d) != 0 by {
        assert(37int % 2int != 0);
        assert(37int % 3int != 0);
        assert(37int % 4int != 0);
        assert(37int % 5int != 0);
        assert(37int % 6int != 0);
        assert(37int % 7int != 0);
        assert(37int % 8int != 0);
        assert(37int % 9int != 0);
        assert(37int % 10int != 0);
        assert(37int % 11int != 0);
        assert(37int % 12int != 0);
        assert(37int % 13int != 0);
        assert(37int % 14int != 0);
        assert(37int % 15int != 0);
        assert(37int % 16int != 0);
        assert(37int % 17int != 0);
        assert(37int % 18int != 0);
        assert(37int % 19int != 0);
        assert(37int % 20int != 0);
        assert(37int % 21int != 0);
        assert(37int % 22int != 0);
        assert(37int % 23int != 0);
        assert(37int % 24int != 0);
        assert(37int % 25int != 0);
        assert(37int % 26int != 0);
        assert(37int % 27int != 0);
        assert(37int % 28int != 0);
        assert(37int % 29int != 0);
        assert(37int % 30int != 0);
        assert(37int % 31int != 0);
        assert(37int % 32int != 0);
        assert(37int % 33int != 0);
        assert(37int % 34int != 0);
        assert(37int % 35int != 0);
        assert(37int % 36int != 0);
    }
}

proof fn lemma_power_2221_a()
    ensures
        pow(2, 60nat) % 2221int == 980,
{
    lemma_small_powers();
    let n = 2221int;
    let e = 3nat;
    let e = lemma_step(e, 12, 8, n);
    assert(pow(2, e) % n == 980);
}

proof fn lemma_power_2221_n()
    ensures
        pow(2, 2220nat) % 2221int == 1,
{
    lemma_small_powers();
    let n = 2221int;
    let e = 8nat;
    let e = lemma_step(e, 10, 256, n);
    assert(pow(2, e) % n == 1281);
    let e = lemma_step(e, 12, 1281, n);
    assert(pow(2, e) % n == 1);
}

proof fn lemma_prime_2221()
    ensures
        modular::is_prime(2221int),
{
    let n = 2221int;
    lemma_power_2221_a();
    lemma_inverse_of_shift(60nat, 980, 152, n);
    lemma_power_2221_n();
    lemma_prime_37();
    modular::lemma_pocklington_one(n, 37, 75, 60nat, 2, 152);
}

proof fn lemma_power_13327_a()
    ensures
        pow(2, 6nat) % 13327int == 64,
{
    lemma_small_powers();
    let n = 13327int;
    let e = 6nat;
}

proof fn lemma_power_13327_n()
    ensures
        pow(2, 13326nat) % 13327int == 1,
{
    lemma_small_powers();
    let n = 13327int;
    let e = 3nat;
    let e = lemma_step(e, 4, 8, n);
    assert(pow(2, e) % n == 1051);
    let e = lemma_step(e, 0, 1051, n);
    assert(pow(2, e) % n == 9717);
    let e = lemma_step(e, 14, 9717, n);
    assert(pow(2, e) % n == 1);
}

proof fn lemma_prime_13327()
    ensures
        modular::is_prime(13327int),
{
    let n = 13327int;
    lemma_power_13327_a();
    lemma_inverse_of_shift(6nat, 64, 10577, n);
    lemma_power_13327_n();
    lemma_prime_2221();
    modular::lemma_pocklington_one(n, 2221, 4443, 6nat, 2, 10577);
}

proof fn lemma_power_173171039_a()
    ensures
        pow(2, 12994nat) % 173171039int == 16359965,
{
    lemma_small_powers();
    let n = 173171039int;
    let e = 3nat;
    let e = lemma_step(e, 2, 8, n);
    assert(pow(2, e) % n == 169904767);
    let e = lemma_step(e, 12, 169904767, n);
    assert(pow(2, e) % n == 143401682);
    let e = lemma_step(e, 2, 143401682, n);
    assert(pow(2, e) % n == 16359965);
}

proof fn lemma_power_173171039_n()
    ensures
        pow(2, 173171038nat) % 173171039int == 1,
{
    lemma_small_powers();
    let n = 173171039int;
    let e = 10nat;
    let e = lemma_step(e, 5, 1024, n);
    assert(pow(2, e) % n == 160171537);
    let e = lemma_step(e, 2, 160171537, n);
    assert(pow(2, e) % n == 125131967);
    let e = lemma_step(e, 6, 125131967, n);
    assert(pow(2, e) % n == 140452793);
    let e = lemma_step(e, 1, 140452793, n);
    assert(pow(2, e) % n == 116838388);
    let e = lemma_step(e, 5, 116838388, n);
    assert(pow(2, e) % n == 98078698);
    let e = lemma_step(e, 14, 98078698, n);
    assert(pow(2, e) % n == 1);
}

proof fn lemma_prime_173171039()
    ensures
        modular::is_prime(173171039int),
{
    let n = 173171039int;
    lemma_power_173171039_a();
    lemma_inverse_of_shift(12994nat, 16359965, 35859620, n);
    lemma_power_173171039_n();
    lemma_prime_13327();
    modular::lemma_pocklington_one(n, 13327, 26655, 12994nat, 2, 35859620);
}

proof fn lemma_power_13427688667394608761327070753331941386769_a()
    ensures
        pow(2, 5412481378724403979982448nat) % 13427688667394608761327070753331941386769int == 11079643483354044030555362120445414701546int,
{
    lemma_small_powers();
    let n = 13427688667394608761327070753331941386769int;
    let e = 4nat;
    let e = lemma_step(e, 7, 16, n);
    assert(pow(2, e) % n == 2361183241434822606848int);
    let e = lemma_step(e, 10, 2361183241434822606848int, n);
    assert(pow(2, e) % n == 353901195184881686326148374577999706658int);
    let e = lemma_step(e, 2, 353901195184881686326148374577999706658int, n);
    assert(pow(2, e) % n == 3691902590975781721386240172285445867751int);
    let e = lemma_step(e, 3, 3691902590975781721386240172285445867751int, n);
    assert(pow(2, e) % n == 4985729709393343986370243261508296663788int);
    let e = lemma_step(e, 3, 4985729709393343986370243261508296663788int, n);
    assert(pow(2, e) % n == 9848944959331314769470857056662898267650int);
    let e = lemma_step(e, 4, 9848944959331314769470857056662898267650int, n);
    assert(pow(2, e) % n == 601990470809466712342775506585543912490int);
    let e = lemma_step(e, 1, 601990470809466712342775506585543912490int, n);
    assert(pow(2, e) % n == 5990572656441201520336963008014785218560int);
    let e = lemma_step(e, 6, 5990572656441201520336963008014785218560int, n);
    assert(pow(2, e) % n == 8854191122195875883281492628291747799687int);
    let e = lemma_step(e, 7, 8854191122195875883281492628291747799687int, n);
    assert(pow(2, e) % n == 6367791579751367616117532254775815177416int);
    let e = lemma_step(e, 2, 6367791579751367616117532254775815177416int, n);
    assert(pow(2, e) % n == 12842432074645146465647346590928096322143int);
    let e = lemma_step(e, 7, 12842432074645146465647346590928096322143int, n);
    assert(pow(2, e) % n == 7552406560659412598150229648760363379831int);
    let e = lemma_step(e, 10, 7552406560659412598150229648760363379831int, n);
    assert(pow(2, e) % n == 7065193948828087789884278715579267627384int);
    let e = lemma_step(e, 11, 7065193948828087789884278715579267627384int, n);
    assert(pow(2, e) % n == 677476129385802649490339579067732050683int);
    let e = lemma_step(e, 0, 677476129385802649490339579067732050683int, n);
    assert(pow(2, e) % n == 5217140562400963376380632066621189930385int);
    let e = lemma_step(e, 6, 5217140562400963376380632066621189930385int, n);
    assert(pow(2, e) % n == 4499128093217451521020543618057007571248int);
    let e = lemma_step(e, 3, 4499128093217451521020543618057007571248int, n);
    assert(pow(2, e) % n == 6287580203061091561117448462137769873080int);
    let e = lemma_step(e, 9, 6287580203061091561117448462137769873080int, n);
    assert(pow(2, e) % n == 2607059505382299637626501815562301864842int);
    let e = lemma_step(e, 6, 2607059505382299637626501815562301864842int, n);
    assert(pow(2, e) % n == 10639489576314606744671022266985859433949int);
    let e = lemma_step(e, 7, 10639489576314606744671022266985859433949int, n);
    assert(pow(2, e) % n == 5311396365342642528371662332745109656659int);
    let e = lemma_step(e, 0, 5311396365342642528371662332745109656659int, n);
    assert(pow(2, e) % n == 11079643483354044030555362120445414701546int);
}

proof fn lemma_power_13427688667394608761327070753331941386769_b()
    ensures
        pow(2, 77540036399473290457806115913712nat) % 13427688667394608761327070753331941386769int == 9785822746442342713677375315050249518427int,
{
    lemma_small_powers();
    let n = 13427688667394608761327070753331941386769int;
    let e = 3nat;
    let e = lemma_step(e, 13, 8, n);
    assert(pow(2, e) % n == 2305843009213693952int);
    let e = lemma_step(e, 2, 2305843009213693952int, n);
    assert(pow(2, e) % n == 828854880807578757881277739847830299974int);
    let e = lemma_step(e, 11, 828854880807578757881277739847830299974int, n);
    assert(pow(2, e) % n == 12128437545428205102911231776339591428513int);
    let e = lemma_step(e, 1, 12128437545428205102911231776339591428513int, n);
    assert(pow(2, e) % n == 12960370509486937538132829661948866124530int);
    let e = lemma_step(e, 5, 12960370509486937538132829661948866124530int, n);
    assert(pow(2, e) % n == 5437188174450206604432705132127057425321int);
    let e = lemma_step(e, 14, 5437188174450206604432705132127057425321int, n);
    assert(pow(2, e) % n == 580459722688186982147695886422862115972int);
    let e = lemma_step(e, 12, 580459722688186982147695886422862115972int, n);
    assert(pow(2, e) % n == 2802340792054439729647372515173891213645int);
    let e = lemma_step(e, 14, 2802340792054439729647372515173891213645int, n);
    assert(pow(2, e) % n == 11468170494121634246987580258154092943835int);
    let e = lemma_step(e, 6, 11468170494121634246987580258154092943835int, n);
    assert(pow(2, e) % n == 4113036617273800251460825155339011111778int);
    let e = lemma_step(e, 9, 4113036617273800251460825155339011111778int, n);
    assert(pow(2, e) % n == 13178899242433443462674334469571210830764int);
    let e = lemma_step(e, 11, 13178899242433443462674334469571210830764int, n);
    assert(pow(2, e) % n == 11971087050880715279105639526321052975697int);
    let e = lemma_step(e, 3, 11971087050880715279105639526321052975697int, n);
    assert(pow(2, e) % n == 12104708307091732740638156049481535611323int);
    let e = lemma_step(e, 9, 12104708307091732740638156049481535611323int, n);
    assert(pow(2, e) % n == 3992886310288992592639858521547315213923int);
    let e = lemma_step(e, 14, 3992886310288992592639858521547315213923int, n);
    assert(pow(2, e) % n == 12262779530428683383145261092237710401326int);
    let e = lemma_step(e, 3, 12262779530428683383145261092237710401326int, n);
    assert(pow(2, e) % n == 7655334375539107764106808007982173279756int);
    let e = lemma_step(e, 4, 7655334375539107764106808007982173279756int, n);
    assert(pow(2, e) % n == 4598173087580026655474653233363137256682int);
    let e = lemma_step(e, 8, 4598173087580026655474653233363137256682int, n);
    assert(pow(2, e) % n == 5390962676088009301802214285138196873732int);
    let e = lemma_step(e, 5, 5390962676088009301802214285138196873732int, n);
    assert(pow(2, e) % n == 5779687688398243776944887284392354322645int);
    let e = lemma_step(e, 7, 5779687688398243776944887284392354322645int, n);
    assert(pow(2, e) % n == 1228243955299946822058508521333478302063int);
    let e = lemma_step(e, 10, 1228243955299946822058508521333478302063int, n);
    assert(pow(2, e) % n == 922998942217525587206922082586879587658int);
    let e = lemma_step(e, 14, 922998942217525587206922082586879587658int, n);
    assert(pow(2, e) % n == 11497844392320370843965834235368419812518int);
    let e = lemma_step(e, 11, 11497844392320370843965834235368419812518int, n);
    assert(pow(2, e) % n == 3817554772342085194232263673415405863770int);
    let e = lemma_step(e, 3, 3817554772342085194232263673415405863770int, n);
    assert(pow(2, e) % n == 4037088709918118249295856594068007419726int);
    let e = lemma_step(e, 15, 4037088709918118249295856594068007419726int, n);
    assert(pow(2, e) % n == 9292615774611788893714125370734075792160int);
    let e = lemma_step(e, 15, 9292615774611788893714125370734075792160int, n);
    assert(pow(2, e) % n == 3684319688649523938386563242827899808151int);
    let e = lemma_step(e, 0, 3684319688649523938386563242827899808151int, n);
    assert(pow(2, e) % n == 9785822746442342713677375315050249518427int);
}

#[verifier::rlimit(50)]
proof fn lemma_power_13427688667394608761327070753331941386769_n()
    ensures
        pow(2, 13427688667394608761327070753331941386768nat) % 13427688667394608761327070753331941386769int == 1,
{
    lemma_small_powers();
    let n = 13427688667394608761327070753331941386769int;
    let e = 2nat;
    let e = lemma_step(e, 7, 4, n);
    assert(pow(2, e) % n == 549755813888int);
    let e = lemma_step(e, 7, 549755813888int, n);
    assert(pow(2, e) % n == 5392069238931370036342959976369775758898int);
    let e = lemma_step(e, 5, 5392069238931370036342959976369775758898int, n);
    assert(pow(2, e) % n == 4136823763766463131637974209418313725434int);
    let e = lemma_step(e, 13, 4136823763766463131637974209418313725434int, n);
    assert(pow(2, e) % n == 11741453544685473806383013041994286950830int);
    let e = lemma_step(e, 14, 11741453544685473806383013041994286950830int, n);
    assert(pow(2, e) % n == 4814029400884576069150059746390086387008int);
    let e = lemma_step(e, 12, 4814029400884576069150059746390086387008int, n);
    assert(pow(2, e) % n == 8231951694671378333397356850236565433111int);
    let e = lemma_step(e, 4, 8231951694671378333397356850236565433111int, n);
    assert(pow(2, e) % n == 630152141656890882057619808384402530020int);
    let e = lemma_step(e, 13, 630152141656890882057619808384402530020int, n);
    assert(pow(2, e) % n == 6239829584797374287208966249651111243105int);
    let e = lemma_step(e, 2, 6239829584797374287208966249651111243105int, n);
    assert(pow(2, e) % n == 3681083726357862847662511960803271485224int);
    let e = lemma_step(e, 15, 3681083726357862847662511960803271485224int, n);
    assert(pow(2, e) % n == 2354803603090550413111162150399120818909int);
    let e = lemma_step(e, 13, 2354803603090550413111162150399120818909int, n);
    assert(pow(2, e) % n == 12387997943558543586477168630307166994675int);
    let e = lemma_step(e, 4, 12387997943558543586477168630307166994675int, n);
    assert(pow(2, e) % n == 2204893614099961301146200652160948217673int);
    let e = lemma_step(e, 4, 2204893614099961301146200652160948217673int, n);
    assert(pow(2, e) % n == 1875070912874095693626036688447283722966int);
    let e = lemma_step(e, 5, 1875070912874095693626036688447283722966int, n);
    assert(pow(2, e) % n == 5378791208400152394492429573603877336444int);
    let e = lemma_step(e, 13, 5378791208400152394492429573603877336444int, n);
    assert(pow(2, e) % n == 2915599106984259414126778931992241493393int);
    let e = lemma_step(e, 0, 2915599106984259414126778931992241493393int, n);
    assert(pow(2, e) % n == 7741381066928001181043808761896485736698int);
    let e = lemma_step(e, 2, 7741381066928001181043808761896485736698int, n);
    assert(pow(2, e) % n == 9623577939071287570628030519283281789731int);
    let e = lemma_step(e, 10, 9623577939071287570628030519283281789731int, n);
    assert(pow(2, e) % n == 12433053466868930042323366813868659369523int);
    let e = lemma_step(e, 3, 12433053466868930042323366813868659369523int, n);
    assert(pow(2, e) % n == 9318247357128055139072454831939992700750int);
    let e = lemma_step(e, 2, 9318247357128055139072454831939992700750int, n);
    assert(pow(2, e) % n == 12885942698001627267287419839271493361004int);
    let e = lemma_step(e, 10, 12885942698001627267287419839271493361004int, n);
    assert(pow(2, e) % n == 12569894091215229793494913112556138909400int);
    let e = lemma_step(e, 10, 12569894091215229793494913112556138909400int, n);
    assert(pow(2, e) % n == 11430522156570536574594263958035758516358int);
    let e = lemma_step(e, 0, 11430522156570536574594263958035758516358int, n);
    assert(pow(2, e) % n == 9648873176415038704274988467843984402347int);
    let e = lemma_step(e, 15, 9648873176415038704274988467843984402347int, n);
    assert(pow(2, e) % n == 12989423704804258294736432357254691612602int);
    let e = lemma_step(e, 5, 12989423704804258294736432357254691612602int, n);
    assert(pow(2, e) % n == 10117924630602568830829650386338238462796int);
    let e = lemma_step(e, 9, 10117924630602568830829650386338238462796int, n);
    assert(pow(2, e) % n == 10446590909499244817338504130715638000043int);
    let e = lemma_step(e, 11, 10446590909499244817338504130715638000043int, n);
    assert(pow(2, e) % n == 3562061103311759978585096690412091923542int);
    let e = lemma_step(e, 6, 3562061103311759978585096690412091923542int, n);
    assert(pow(2, e) % n == 11962301554334636164090936617412969892637int);
    let e = lemma_step(e, 6, 11962301554334636164090936617412969892637int, n);
    assert(pow(2, e) % n == 11276381447988474584310953068358241500468int);
    let e = lemma_step(e, 10, 11276381447988474584310953068358241500468int, n);
    assert(pow(2, e) % n == 13350254656681589920199605137552005727586int);
    let e = lemma_step(e, 10, 13350254656681589920199605137552005727586int, n);
    assert(pow(2, e) % n == 7317683335400945002613748577253530027889int);
    let e = lemma_step(e, 1, 7317683335400945002613748577253530027889int, n);
    assert(pow(2, e) % n == 12295136344518793607090128093208427563968int);
    let e = lemma_step(e, 0, 12295136344518793607090128093208427563968int, n);
    assert(pow(2, e) % n == 1);
}

proof fn lemma_prime_13427688667394608761327070753331941386769()
    ensures
        modular::is_prime(13427688667394608761327070753331941386769int),
{
    let n = 13427688667394608761327070753331941386769int;
    lemma_power_13427688667394608761327070753331941386769_a();
    lemma_inverse_of_shift(5412481378724403979982448nat, 11079643483354044030555362120445414701546int, 6785926852418085198570490017495330175623int, n);
    lemma_power_13427688667394608761327070753331941386769_b();
    lemma_inverse_of_shift(77540036399473290457806115913712nat, 9785822746442342713677375315050249518427int, 8400704698881656509131354358865537047819int, n);
    lemma_power_13427688667394608761327070753331941386769_n();
    lemma_prime_2480874801745591();
    lemma_prime_173171039();
    modular::lemma_pocklington_two(
        n,
        2480874801745591int,
        5412481378724403979982448nat,
        6785926852418085198570490017495330175623int,
        173171039,
        77540036399473290457806115913712nat,
        8400704698881656509131354358865537047819int,
        429615667047203007139049int,
        859231334094406014278099int,
        2,
    );
}

#[verifier::rlimit(50)]
proof fn lemma_power_fq_modulus_a()
    ensures
        pow(2, 1630082690626329392154177744477557478nat) % 21888242871839275222246405745257275088696311157297823662689037894645226208583int == 20520420087326380218354900027015874311863624918437260220194913954166250002289int,
{
    lemma_small_powers();
    let n = 21888242871839275222246405745257275088696311157297823662689037894645226208583int;
    let e = 1nat;
    let e = lemma_step(e, 3, 2, n);
    assert(pow(2, e) % n == 524288);
    let e = lemma_step(e, 9, 524288, n);
    assert(pow(2, e) % n == 20980099655526400996090484787584705594302074454540060470597179338470752703220int);
    let e = lemma_step(e, 15, 20980099655526400996090484787584705594302074454540060470597179338470752703220int, n);
    assert(pow(2, e) % n == 402053651373280015707088287397216153190441702065428866794942158075795048556int);
    let e = lemma_step(e, 1, 402053651373280015707088287397216153190441702065428866794942158075795048556int, n);
    assert(pow(2, e) % n == 8654884238719726051282408766428766945010791969564575854941415880166478723619int);
    let e = lemma_step(e, 4, 8654884238719726051282408766428766945010791969564575854941415880166478723619int, n);
    assert(pow(2, e) % n == 17826010311944877035438308097276843277032405375498571300078481148955440715819int);
    let e = lemma_step(e, 8, 17826010311944877035438308097276843277032405375498571300078481148955440715819int, n);
    assert(pow(2, e) % n == 14623022495975680261004891053341651994081311635946905149418910794280056264616int);
    let e = lemma_step(e, 1, 14623022495975680261004891053341651994081311635946905149418910794280056264616int, n);
    assert(pow(2, e) % n == 13907175137006683093518265044955701090747682861770564511703613452269051549051int);
    let e = lemma_step(e, 12, 13907175137006683093518265044955701090747682861770564511703613452269051549051int, n);
    assert(pow(2, e) % n == 10731261467849103496815293792479003119361635248363012782411772157199021370899int);
    let e = lemma_step(e, 5, 10731261467849103496815293792479003119361635248363012782411772157199021370899int, n);
    assert(pow(2, e) % n == 17162059311458353863521152947869302717794770664180200015130700360963658645990int);
    let e = lemma_step(e, 0, 17162059311458353863521152947869302717794770664180200015130700360963658645990int, n);
    assert(pow(2, e) % n == 14689382415351078467204433852764605638573632819859491535674907491872353630393int);
    let e = lemma_step(e, 5, 14689382415351078467204433852764605638573632819859491535674907491872353630393int, n);
    assert(pow(2, e) % n == 6826912420176453778776016548882798916853143333237343607420297368954422018195int);
    let e = lemma_step(e, 15, 6826912420176453778776016548882798916853143333237343607420297368954422018195int, n);
    assert(pow(2, e) % n == 9825364212729865738222851658420376605108184003737234183691183878103740108719int);
    let e = lemma_step(e, 14, 9825364212729865738222851658420376605108184003737234183691183878103740108719int, n);
    assert(pow(2, e) % n == 12462730035930766570697123281152215067970697840433436886200934121770441991340int);
    let e = lemma_step(e, 9, 12462730035930766570697123281152215067970697840433436886200934121770441991340int, n);
    assert(pow(2, e) % n == 11811330433949710209770496755934245318110173429302568885337160446783576929612int);
    let e = lemma_step(e, 1, 11811330433949710209770496755934245318110173429302568885337160446783576929612int, n);
    assert(pow(2, e) % n == 10386341577253024094655809833771061330021738997280002648996715250406374088370int);
    let e = lemma_step(e, 2, 10386341577253024094655809833771061330021738997280002648996715250406374088370int, n);
    assert(pow(2, e) % n == 13298831674533775731578054887065890204285370197678466031387337725637608692176int);
    let e = lemma_step(e, 10, 13298831674533775731578054887065890204285370197678466031387337725637608692176int, n);
    assert(pow(2, e) % n == 21626755726519073548210783245315281229537814758898859717946347459303559777104int);
    let e = lemma_step(e, 12, 21626755726519073548210783245315281229537814758898859717946347459303559777104int, n);
    assert(pow(2, e) % n == 4399230693906773038478099724959931585173641902422855670257437200590471525571int);
    let e = lemma_step(e, 7, 4399230693906773038478099724959931585173641902422855670257437200590471525571int, n);
    assert(pow(2, e) % n == 11789587051081419670521259475909579894827359118829792943888522706532335943616int);
    let e = lemma_step(e, 6, 11789587051081419670521259475909579894827359118829792943888522706532335943616int, n);
    assert(pow(2, e) % n == 984840764266444579338770526749713040552896077166801971486580933134182837274int);
    let e = lemma_step(e, 2, 984840764266444579338770526749713040552896077166801971486580933134182837274int, n);
    assert(pow(2, e) % n == 13186597876145848998622301173031814258957619333954208664214656973443573689159int);
    let e = lemma_step(e, 12, 13186597876145848998622301173031814258957619333954208664214656973443573689159int, n);
    assert(pow(2, e) % n == 20542362356686016516296188936107465390405300187019496796337230561104879682301int);
    let e = lemma_step(e, 6, 20542362356686016516296188936107465390405300187019496796337230561104879682301int, n);
    assert(pow(2, e) % n == 8103553937648048198939363538571909605661028497783024462084154592873490087404int);
    let e = lemma_step(e, 10, 8103553937648048198939363538571909605661028497783024462084154592873490087404int, n);
    assert(pow(2, e) % n == 11457424433580574761765364263266294917049770640856947835345980750193190425558int);
    let e = lemma_step(e, 9, 11457424433580574761765364263266294917049770640856947835345980750193190425558int, n);
    assert(pow(2, e) % n == 11604168946424542483212540665687395386409438741097398342035866681308009814208int);
    let e = lemma_step(e, 11, 11604168946424542483212540665687395386409438741097398342035866681308009814208int, n);
    assert(pow(2, e) % n == 13394661316482218070624869228242106813760643422756433490388477288059046777647int);
    let e = lemma_step(e, 1, 13394661316482218070624869228242106813760643422756433490388477288059046777647int, n);
    assert(pow(2, e) % n == 17371634887658396511199595686319630940022383580065270769551140848545767078864int);
    let e = lemma_step(e, 2, 17371634887658396511199595686319630940022383580065270769551140848545767078864int, n);
    assert(pow(2, e) % n == 1785842690979081495980957860518394124808887018933140739258078024247491451477int);
    let e = lemma_step(e, 14, 1785842690979081495980957860518394124808887018933140739258078024247491451477int, n);
    assert(pow(2, e) % n == 12699748207210451456179889935269588260689099601141363228715994559737350002380int);
    let e = lemma_step(e, 6, 12699748207210451456179889935269588260689099601141363228715994559737350002380int, n);
    assert(pow(2, e) % n == 20520420087326380218354900027015874311863624918437260220194913954166250002289int);
}

#[verifier::rlimit(50)]
proof fn lemma_power_fq_modulus_n()
    ensures
        pow(2, 21888242871839275222246405745257275088696311157297823662689037894645226208582nat) % 21888242871839275222246405745257275088696311157297823662689037894645226208583int == 1,
{
    lemma_small_powers();
    let n = 21888242871839275222246405745257275088696311157297823662689037894645226208583int;
    let e = 3nat;
    let e = lemma_step(e, 0, 8, n);
    assert(pow(2, e) % n == 281474976710656int);
    let e = lemma_step(e, 6, 281474976710656int, n);
    assert(pow(2, e) % n == 13799895145128649344086328221974352568050289900849273877871738508618008210643int);
    let e = lemma_step(e, 4, 13799895145128649344086328221974352568050289900849273877871738508618008210643int, n);
    assert(pow(2, e) % n == 10625820468344905038336166141364672950482578538490710962222451056881526836359int);
    let e = lemma_step(e, 4, 10625820468344905038336166141364672950482578538490710962222451056881526836359int, n);
    assert(pow(2, e) % n == 10873621021369290991296108929704508997531099076851697843170376632603564909816int);
    let e = lemma_step(e, 14, 10873621021369290991296108929704508997531099076851697843170376632603564909816int, n);
    assert(pow(2, e) % n == 10009586304438794443847653724752533372502488579172363016867350225296151134107int);
    let e = lemma_step(e, 7, 10009586304438794443847653724752533372502488579172363016867350225296151134107int, n);
    assert(pow(2, e) % n == 15249628910596073334143418108728668304061932643774434909942619291933621634667int);
    let e = lemma_step(e, 2, 15249628910596073334143418108728668304061932643774434909942619291933621634667int, n);
    assert(pow(2, e) % n == 11968373654208499845326349449306356669230122655169204023389868298098272264147int);
    let e = lemma_step(e, 14, 11968373654208499845326349449306356669230122655169204023389868298098272264147int, n);
    assert(pow(2, e) % n == 14009927992467550237520592094418435745064840799274047520463172734798093502089int);
    let e = lemma_step(e, 1, 14009927992467550237520592094418435745064840799274047520463172734798093502089int, n);
    assert(pow(2, e) % n == 6780417473908113462516234086110318969917194508964863393182613721256861558558int);
    let e = lemma_step(e, 3, 6780417473908113462516234086110318969917194508964863393182613721256861558558int, n);
    assert(pow(2, e) % n == 9783616000120656160272229902295094640593271732725098990971601949932851798640int);
    let e = lemma_step(e, 1, 9783616000120656160272229902295094640593271732725098990971601949932851798640int, n);
    assert(pow(2, e) % n == 4402752084451624168929324633293288998457722697621936612351554690757193822530int);
    let e = lemma_step(e, 10, 4402752084451624168929324633293288998457722697621936612351554690757193822530int, n);
    assert(pow(2, e) % n == 16507481481802763881154458453677128698426273288507985989246830919646493147613int);
    let e = lemma_step(e, 0, 16507481481802763881154458453677128698426273288507985989246830919646493147613int, n);
    assert(pow(2, e) % n == 15864824143059867194170899367311789806047000904830441571767948192286116125040int);
    let e = lemma_step(e, 2, 15864824143059867194170899367311789806047000904830441571767948192286116125040int, n);
    assert(pow(2, e) % n == 10566490663777820323744443948755797886009913686380633793309866525104264351644int);
    let e = lemma_step(e, 9, 10566490663777820323744443948755797886009913686380633793309866525104264351644int, n);
    assert(pow(2, e) % n == 12568291814211206627240246926068294315054256574326528746841472522820751305438int);
    let e = lemma_step(e, 11, 12568291814211206627240246926068294315054256574326528746841472522820751305438int, n);
    assert(pow(2, e) % n == 10020167760291411966799597376977505623876135775440014132267669181818937034344int);
    let e = lemma_step(e, 8, 10020167760291411966799597376977505623876135775440014132267669181818937034344int, n);
    assert(pow(2, e) % n == 8293980344027773051447984222012890373733194189632498792210062220087060738731int);
    let e = lemma_step(e, 5, 8293980344027773051447984222012890373733194189632498792210062220087060738731int, n);
    assert(pow(2, e) % n == 19344636777706048543569526062075715177534766539829107618625253479483021102683int);
    let e = lemma_step(e, 0, 19344636777706048543569526062075715177534766539829107618625253479483021102683int, n);
    assert(pow(2, e) % n == 18906656330078781086006133012476865269856927505678473913094702399455004011041int);
    let e = lemma_step(e, 4, 18906656330078781086006133012476865269856927505678473913094702399455004011041int, n);
    assert(pow(2, e) % n == 144579239063311114004665228332271648736531711987055699229440431757055513202int);
    let e = lemma_step(e, 5, 144579239063311114004665228332271648736531711987055699229440431757055513202int, n);
    assert(pow(2, e) % n == 3232636410185397775645080822961830619266062994680922596351306874896557987453int);
    let e = lemma_step(e, 11, 3232636410185397775645080822961830619266062994680922596351306874896557987453int, n);
    assert(pow(2, e) % n == 17084043949916440667018622572875506425047607796184058109513732408725787490119int);
    let e = lemma_step(e, 6, 17084043949916440667018622572875506425047607796184058109513732408725787490119int, n);
    assert(pow(2, e) % n == 12760019038451921167973867062077367775451091979178602867609634345339660685324int);
    let e = lemma_step(e, 8, 12760019038451921167973867062077367775451091979178602867609634345339660685324int, n);
    assert(pow(2, e) % n == 201993958098197515912046475168926273238054094523157192133544702482917662711int);
    let e = lemma_step(e, 1, 201993958098197515912046475168926273238054094523157192133544702482917662711int, n);
    assert(pow(2, e) % n == 15902568584039698844021669631055088334057450506582785076861267905303690356016int);
    let e = lemma_step(e, 8, 15902568584039698844021669631055088334057450506582785076861267905303690356016int, n);
    assert(pow(2, e) % n == 1788924074751899051141542438430393475686344012901927749360950253724675779020int);
    let e = lemma_step(e, 1, 1788924074751899051141542438430393475686344012901927749360950253724675779020int, n);
    assert(pow(2, e) % n == 495550608081772620157406608954995028929128855139733831319146619485895522549int);
    let e = lemma_step(e, 5, 495550608081772620157406608954995028929128855139733831319146619485895522549int, n);
    assert(pow(2, e) % n == 5688273573401470487466380435215397607744134858858729480675316625387846847388int);
    let e = lemma_step(e, 8, 5688273573401470487466380435215397607744134858858729480675316625387846847388int, n);
    assert(pow(2, e) % n == 16341698911148018352676717659057898410514466751722618855654282113997841707842int);
    let e = lemma_step(e, 5, 16341698911148018352676717659057898410514466751722618855654282113997841707842int, n);
    assert(pow(2, e) % n == 21553580500142294929450943050419259261113660265532765940698911371598370495046int);
    let e = lemma_step(e, 13, 21553580500142294929450943050419259261113660265532765940698911371598370495046int, n);
    assert(pow(2, e) % n == 2331407297821053169527244772495120071617593487298902843848368005067279107072int);
    let e = lemma_step(e, 9, 2331407297821053169527244772495120071617593487298902843848368005067279107072int, n);
    assert(pow(2, e) % n == 257802881609455509485931930572023647568235010008909892950430042044433285172int);
    let e = lemma_step(e, 7, 257802881609455509485931930572023647568235010008909892950430042044433285172int, n);
    assert(pow(2, e) % n == 12391545693514459490870872699557340279906678781953904337754723560200005070919int);
    let e = lemma_step(e, 8, 12391545693514459490870872699557340279906678781953904337754723560200005070919int, n);
    assert(pow(2, e) % n == 10141453420454824396495642919778388216279191263108131242301986295258950287466int);
    let e = lemma_step(e, 1, 10141453420454824396495642919778388216279191263108131242301986295258950287466int, n);
    assert(pow(2, e) % n == 17208988435235143732423272958216781311675737114680379289799447794739563514000int);
    let e = lemma_step(e, 6, 17208988435235143732423272958216781311675737114680379289799447794739563514000int, n);
    assert(pow(2, e) % n == 9886592787572552077299238911758930399334424918439194171552341722224033926334int);
    let e = lemma_step(e, 10, 9886592787572552077299238911758930399334424918439194171552341722224033926334int, n);
    assert(pow(2, e) % n == 7955973621820860449607104529482699020610510601832971846585200680805671338805int);
    let e = lemma_step(e, 9, 7955973621820860449607104529482699020610510601832971846585200680805671338805int, n);
    assert(pow(2, e) % n == 12747313611845965533555059661561236021631433272887975718565184051969201567011int);
    let e = lemma_step(e, 1, 12747313611845965533555059661561236021631433272887975718565184051969201567011int, n);
    assert(pow(2, e) % n == 3169484272296997596918145593287241501201368882099644341918335748427481677051int);
    let e = lemma_step(e, 6, 3169484272296997596918145593287241501201368882099644341918335748427481677051int, n);
    assert(pow(2, e) % n == 15970987646137876255930441337598608836086834014234432400196723936308382956902int);
    let e = lemma_step(e, 8, 15970987646137876255930441337598608836086834014234432400196723936308382956902int, n);
    assert(pow(2, e) % n == 4585176664959423320893333430384069498778020935518986890425625108867534332750int);
    let e = lemma_step(e, 7, 4585176664959423320893333430384069498778020935518986890425625108867534332750int, n);
    assert(pow(2, e) % n == 2966476845632865901571063588583651946181000462075111060339641727083908377319int);
    let e = lemma_step(e, 1, 2966476845632865901571063588583651946181000462075111060339641727083908377319int, n);
    assert(pow(2, e) % n == 8166822092560653658754955260942676443559436236633336391613380662076621533779int);
    let e = lemma_step(e, 12, 8166822092560653658754955260942676443559436236633336391613380662076621533779int, n);
    assert(pow(2, e) % n == 8710887138586960495373686416713473521718721530392037388276357953284782511559int);
    let e = lemma_step(e, 10, 8710887138586960495373686416713473521718721530392037388276357953284782511559int, n);
    assert(pow(2, e) % n == 14193595283603935022984649227621646765235266225902544954636144535938498536835int);
    let e = lemma_step(e, 8, 14193595283603935022984649227621646765235266225902544954636144535938498536835int, n);
    assert(pow(2, e) % n == 19399642875197211797530239550815706860124359371381391883556686688617209612063int);
    let e = lemma_step(e, 13, 19399642875197211797530239550815706860124359371381391883556686688617209612063int, n);
    assert(pow(2, e) % n == 7156585572203855042922453444609075596825946753971798178395611313182001804440int);
    let e = lemma_step(e, 3, 7156585572203855042922453444609075596825946753971798178395611313182001804440int, n);
    assert(pow(2, e) % n == 9526409575073117965487465653107069611307938588352040574806376755208539975436int);
    let e = lemma_step(e, 12, 9526409575073117965487465653107069611307938588352040574806376755208539975436int, n);
    assert(pow(2, e) % n == 3420102006478747155988225018326502910305174741537400814445906472325994400947int);
    let e = lemma_step(e, 2, 3420102006478747155988225018326502910305174741537400814445906472325994400947int, n);
    assert(pow(2, e) % n == 10922391932876997725056353453541652767388085323547604358562388313304481606968int);
    let e = lemma_step(e, 0, 10922391932876997725056353453541652767388085323547604358562388313304481606968int, n);
    assert(pow(2, e) % n == 14973609589402028351319996884842283827504834553675245784481835635673410682249int);
    let e = lemma_step(e, 8, 14973609589402028351319996884842283827504834553675245784481835635673410682249int, n);
    assert(pow(2, e) % n == 19610574169923401467922864963817299548577695195642297774826905674336710927951int);
    let e = lemma_step(e, 12, 19610574169923401467922864963817299548577695195642297774826905674336710927951int, n);
    assert(pow(2, e) % n == 1602246774960360082453244611933444295934671919648983553198344928348738330030int);
    let e = lemma_step(e, 1, 1602246774960360082453244611933444295934671919648983553198344928348738330030int, n);
    assert(pow(2, e) % n == 18281799712948148878542185705532505531577605539516070829988443818112127835990int);
    let e = lemma_step(e, 6, 18281799712948148878542185705532505531577605539516070829988443818112127835990int, n);
    assert(pow(2, e) % n == 7810917573524253288917930370286924883758089487119959483596470857761526325129int);
    let e = lemma_step(e, 13, 7810917573524253288917930370286924883758089487119959483596470857761526325129int, n);
    assert(pow(2, e) % n == 2461877988584894625634118478526870108060176115119350815987323655637702995183int);
    let e = lemma_step(e, 8, 2461877988584894625634118478526870108060176115119350815987323655637702995183int, n);
    assert(pow(2, e) % n == 5063713273585170341325617043021014683582628191593764491846180849585420909347int);
    let e = lemma_step(e, 7, 5063713273585170341325617043021014683582628191593764491846180849585420909347int, n);
    assert(pow(2, e) % n == 10915477320147133717466866506712236586353553809056943812639810123163783117380int);
    let e = lemma_step(e, 12, 10915477320147133717466866506712236586353553809056943812639810123163783117380int, n);
    assert(pow(2, e) % n == 241421758258588778373003065736167958605871638551939549076831941172386450548int);
    let e = lemma_step(e, 15, 241421758258588778373003065736167958605871638551939549076831941172386450548int, n);
    assert(pow(2, e) % n == 12785766090891236505653163790365997896374383479588839893110813666676325228663int);
    let e = lemma_step(e, 13, 12785766090891236505653163790365997896374383479588839893110813666676325228663int, n);
    assert(pow(2, e) % n == 17191863474790836567863431474574253002587971466336750938498937506265065897935int);
    let e = lemma_step(e, 4, 17191863474790836567863431474574253002587971466336750938498937506265065897935int, n);
    assert(pow(2, e) % n == 20227089230968644799564036739120689643446356955795239690135609902768513201544int);
    let e = lemma_step(e, 6, 20227089230968644799564036739120689643446356955795239690135609902768513201544int, n);
    assert(pow(2, e) % n == 1);
}

/// The modulus of the BN254 base field is prime.
pub proof fn lemma_prime_fq_modulus()
    ensures
        modular::is_prime(21888242871839275222246405745257275088696311157297823662689037894645226208583int),
{
    let n = 21888242871839275222246405745257275088696311157297823662689037894645226208583int;
    lemma_power_fq_modulus_a();
    lemma_inverse_of_shift(1630082690626329392154177744477557478nat, 20520420087326380218354900027015874311863624918437260220194913954166250002289int, 7760040696430108728351579495285625070970037227808537281002514205477518194167int, n);
    lemma_power_fq_modulus_n();
    lemma_prime_13427688667394608761327070753331941386769();
    modular::lemma_pocklington_one(n, 13427688667394608761327070753331941386769int, 26855377334789217522654141506663882773539int, 1630082690626329392154177744477557478nat, 2, 7760040696430108728351579495285625070970037227808537281002514205477518194167int);
}


/// The first sixteen powers of five.
proof fn lemma_small_powers_of_five()
    ensures
        pow(5, 0) == 1,
        pow(5, 1) == 5,
        pow(5, 2) == 25,
        pow(5, 3) == 125,
        pow(5, 4) == 625,
        pow(5, 5) == 3125,
        pow(5, 6) == 15625,
        pow(5, 7) == 78125,
        pow(5, 8) == 390625,
        pow(5, 9) == 1953125,
        pow(5, 10) == 9765625,
        pow(5, 11) == 48828125,
        pow(5, 12) == 244140625,
        pow(5, 13) == 1220703125,
        pow(5, 14) == 6103515625,
        pow(5, 15) == 30517578125,
{
    reveal(pow);
    reveal_with_fuel(pow, 16);
}

/// Appends the digit `w` to the exponent `e` of five.
proof fn lemma_step_five(e: nat, w: nat, x: int, n: int) -> (f: nat)
    requires
        n > 1,
        pow(5, e) % n == x,
    ensures
        f == 16 * e + w,
        pow(5, f) % n == (pow16(x) * pow(5, w)) % n,
{
    let f = 16 * e + w;
    lemma_pow_adds(5, 16 * e, w);
    lemma_mul_is_commutative(16, e as int);
    lemma_pow_multiplies(5, e, 16);
    lemma_pow16(x);
    lemma_mod_twice(pow(5, e), n);
    modular::lemma_pow_cong(pow(5, e), x, 16, n);
    modular::lemma_mul_cong(pow(5, 16 * e), pow(5, w), pow16(x), pow(5, w), n);
    f
}

/// Five is no square in the scalar field: raised to half the order of the
/// multiplicative group it is minus one.
#[verifier::rlimit(50)]
pub proof fn lemma_five_is_no_square()
    ensures
        pow(5, 10944121435919637611123202872628637544274182200208017171849102093287904247808nat) % 21888242871839275222246405745257275088548364400416034343698204186575808495617int == 21888242871839275222246405745257275088548364400416034343698204186575808495616int,
{
    lemma_small_powers_of_five();
    let n = 21888242871839275222246405745257275088548364400416034343698204186575808495617int;
    let e = 1nat;
    let e = lemma_step_five(e, 8, 5, n);
    assert(pow(5, e) % n == 59604644775390625int);
    let e = lemma_step_five(e, 3, 59604644775390625int, n);
    assert(pow(5, e) % n == 9086614246629678409901891358980307970763007317620017294639366207294686486377int);
    let e = lemma_step_five(e, 2, 9086614246629678409901891358980307970763007317620017294639366207294686486377int, n);
    assert(pow(5, e) % n == 7122149797049657406560069179679128750064069009214282033263205883947167685589int);
    let e = lemma_step_five(e, 2, 7122149797049657406560069179679128750064069009214282033263205883947167685589int, n);
    assert(pow(5, e) % n == 3116273844467330801829001622792568843079926253117073339408483697909462424626int);
    let e = lemma_step_five(e, 7, 3116273844467330801829001622792568843079926253117073339408483697909462424626int, n);
    assert(pow(5, e) % n == 9584622151981067344174680760542456094210385546162912082661108929439870980748int);
    let e = lemma_step_five(e, 3, 9584622151981067344174680760542456094210385546162912082661108929439870980748int, n);
    assert(pow(5, e) % n == 517373029847386283780060741626053464129344970908342161092808690292186612163int);
    let e = lemma_step_five(e, 9, 517373029847386283780060741626053464129344970908342161092808690292186612163int, n);
    assert(pow(5, e) % n == 14569735884458382856254784209912830376236225605784403836765118408925324734017int);
    let e = lemma_step_five(e, 7, 14569735884458382856254784209912830376236225605784403836765118408925324734017int, n);
    assert(pow(5, e) % n == 10515933692801596054137274619403467303992730962120133861438972633219469456172int);
    let e = lemma_step_five(e, 0, 10515933692801596054137274619403467303992730962120133861438972633219469456172int, n);
    assert(pow(5, e) % n == 15364255734425713002718835933644000406291089247791499507392333308306132147049int);
    let e = lemma_step_five(e, 9, 15364255734425713002718835933644000406291089247791499507392333308306132147049int, n);
    assert(pow(5, e) % n == 9915302353866463282044221001597139702102547599566625451143944039358989129856int);
    let e = lemma_step_five(e, 8, 9915302353866463282044221001597139702102547599566625451143944039358989129856int, n);
    assert(pow(5, e) % n == 10013671365415589539201407492754203210643547010114855874351378195379236706658int);
    let e = lemma_step_five(e, 13, 10013671365415589539201407492754203210643547010114855874351378195379236706658int, n);
    assert(pow(5, e) % n == 10783696055532049719109712848731009853889929231726391350409941317125095091687int);
    let e = lemma_step_five(e, 0, 10783696055532049719109712848731009853889929231726391350409941317125095091687int, n);
    assert(pow(5, e) % n == 2402354128223672328358869780121422578622443142442801963686561454147809696357int);
    let e = lemma_step_five(e, 1, 2402354128223672328358869780121422578622443142442801963686561454147809696357int, n);
    assert(pow(5, e) % n == 3886134410982702694554336166722418704666193174880187586743526178045498209802int);
    let e = lemma_step_five(e, 4, 3886134410982702694554336166722418704666193174880187586743526178045498209802int, n);
    assert(pow(5, e) % n == 11272276662310496532619612006108119513586372798821762845622598892375354286427int);
    let e = lemma_step_five(e, 13, 11272276662310496532619612006108119513586372798821762845622598892375354286427int, n);
    assert(pow(5, e) % n == 2603510155155449425351324680136310789914599518979895666700542175361390231641int);
    let e = lemma_step_five(e, 12, 2603510155155449425351324680136310789914599518979895666700542175361390231641int, n);
    assert(pow(5, e) % n == 21874273728822463733401318157604561819725490105559641109087200596869146930838int);
    let e = lemma_step_five(e, 2, 21874273728822463733401318157604561819725490105559641109087200596869146930838int, n);
    assert(pow(5, e) % n == 16502609259198323201554641579931238458835997809478122212338335242405916677844int);
    let e = lemma_step_five(e, 8, 16502609259198323201554641579931238458835997809478122212338335242405916677844int, n);
    assert(pow(5, e) % n == 8343872891997277668601868321862574652818926223018918269209044664331295966149int);
    let e = lemma_step_five(e, 2, 8343872891997277668601868321862574652818926223018918269209044664331295966149int, n);
    assert(pow(5, e) % n == 4134476305357831057785045960074432485207368274479980272884084381762189469934int);
    let e = lemma_step_five(e, 2, 4134476305357831057785045960074432485207368274479980272884084381762189469934int, n);
    assert(pow(5, e) % n == 18902839417881785115916266533065687752930047717524368274171973011827260007115int);
    let e = lemma_step_five(e, 13, 18902839417881785115916266533065687752930047717524368274171973011827260007115int, n);
    assert(pow(5, e) % n == 2084194416648000928528537406468776091667240941797815725032282949259973261067int);
    let e = lemma_step_five(e, 11, 2084194416648000928528537406468776091667240941797815725032282949259973261067int, n);
    assert(pow(5, e) % n == 14813525971648781834912506123465838311053330219062308586587401120808795393795int);
    let e = lemma_step_five(e, 4, 14813525971648781834912506123465838311053330219062308586587401120808795393795int, n);
    assert(pow(5, e) % n == 9376517347857831937009618928236940371959486735826044671830336997827458174850int);
    let e = lemma_step_five(e, 0, 9376517347857831937009618928236940371959486735826044671830336997827458174850int, n);
    assert(pow(5, e) % n == 1294007377075685471616421760603917760062792716786573274240018593023678294688int);
    let e = lemma_step_five(e, 12, 1294007377075685471616421760603917760062792716786573274240018593023678294688int, n);
    assert(pow(5, e) % n == 14366811465435179739912877045164387184657053008517704811432583758608568101504int);
    let e = lemma_step_five(e, 0, 14366811465435179739912877045164387184657053008517704811432583758608568101504int, n);
    assert(pow(5, e) % n == 754566290014599858376334434046059585607389134598520802583940160157671647970int);
    let e = lemma_step_five(e, 10, 754566290014599858376334434046059585607389134598520802583940160157671647970int, n);
    assert(pow(5, e) % n == 6425611171681505176001267956657120053224756614331989312868608837284957809021int);
    let e = lemma_step_five(e, 12, 6425611171681505176001267956657120053224756614331989312868608837284957809021int, n);
    assert(pow(5, e) % n == 17772940573227735660822313500887420407164849853616000784655108386543888319091int);
    let e = lemma_step_five(e, 2, 17772940573227735660822313500887420407164849853616000784655108386543888319091int, n);
    assert(pow(5, e) % n == 18768133358106523373411654634717646896106986213984818118701124029201321608197int);
    let e = lemma_step_five(e, 14, 18768133358106523373411654634717646896106986213984818118701124029201321608197int, n);
    assert(pow(5, e) % n == 19129979934757928616124920877211488417292764770213222532297807244005181690048int);
    let e = lemma_step_five(e, 9, 19129979934757928616124920877211488417292764770213222532297807244005181690048int, n);
    assert(pow(5, e) % n == 12494802654227597455145297345515982409439655412167168111096214354004181857020int);
    let e = lemma_step_five(e, 4, 12494802654227597455145297345515982409439655412167168111096214354004181857020int, n);
    assert(pow(5, e) % n == 16747659364652639747531990691648657637388461381937856284151428599921887086782int);
    let e = lemma_step_five(e, 1, 16747659364652639747531990691648657637388461381937856284151428599921887086782int, n);
    assert(pow(5, e) % n == 10722679947205603560644882634460531018055450310674846622429009641286694866438int);
    let e = lemma_step_five(e, 9, 10722679947205603560644882634460531018055450310674846622429009641286694866438int, n);
    assert(pow(5, e) % n == 751405754761996497287697911178205239224845749818669177867786597867590859340int);
    let e = lemma_step_five(e, 15, 751405754761996497287697911178205239224845749818669177867786597867590859340int, n);
    assert(pow(5, e) % n == 8720381750765444020246716808803326384476524582097196911534699655030093900312int);
    let e = lemma_step_five(e, 4, 8720381750765444020246716808803326384476524582097196911534699655030093900312int, n);
    assert(pow(5, e) % n == 20710938132140626513949373190327770326956328697392362811499687227769032515796int);
    let e = lemma_step_five(e, 2, 20710938132140626513949373190327770326956328697392362811499687227769032515796int, n);
    assert(pow(5, e) % n == 8688527548647302701724961424360795545182064770166054250650577990793349036634int);
    let e = lemma_step_five(e, 4, 8688527548647302701724961424360795545182064770166054250650577990793349036634int, n);
    assert(pow(5, e) % n == 13163660610909834569616811784312169321574940972830683575230863032866261626959int);
    let e = lemma_step_five(e, 3, 13163660610909834569616811784312169321574940972830683575230863032866261626959int, n);
    assert(pow(5, e) % n == 4240087459284698771200184234856471714831664842049934765271594327660777472651int);
    let e = lemma_step_five(e, 12, 4240087459284698771200184234856471714831664842049934765271594327660777472651int, n);
    assert(pow(5, e) % n == 11307908243200590983912226516199098538677525625234053459875352388865085208733int);
    let e = lemma_step_five(e, 13, 11307908243200590983912226516199098538677525625234053459875352388865085208733int, n);
    assert(pow(5, e) % n == 13305767183019947994369697708435408097155047623286467549698266195193572556896int);
    let e = lemma_step_five(e, 12, 13305767183019947994369697708435408097155047623286467549698266195193572556896int, n);
    assert(pow(5, e) % n == 4031598524059352681220240458485118380885926112118639552555483931584623568936int);
    let e = lemma_step_five(e, 11, 4031598524059352681220240458485118380885926112118639552555483931584623568936int, n);
    assert(pow(5, e) % n == 5193161134101987841005332192047631706719996804743058780668119996728484547841int);
    let e = lemma_step_five(e, 8, 5193161134101987841005332192047631706719996804743058780668119996728484547841int, n);
    assert(pow(5, e) % n == 12884993852127825220611561092387825975427124727324898546348906356907352426900int);
    let e = lemma_step_five(e, 4, 12884993852127825220611561092387825975427124727324898546348906356907352426900int, n);
    assert(pow(5, e) % n == 16278962444712543222161982882950573234696921839554216072953517402982671314135int);
    let e = lemma_step_five(e, 8, 16278962444712543222161982882950573234696921839554216072953517402982671314135int, n);
    assert(pow(5, e) % n == 17898123499280837878048763555213381316685887531033950867536307914915923762881int);
    let e = lemma_step_five(e, 10, 17898123499280837878048763555213381316685887531033950867536307914915923762881int, n);
    assert(pow(5, e) % n == 4593135266042967422011463256484233142601212075001244522796606496438689911128int);
    let e = lemma_step_five(e, 1, 4593135266042967422011463256484233142601212075001244522796606496438689911128int, n);
    assert(pow(5, e) % n == 2369857495604672075885586745501376665292538597775222601363517338362885229667int);
    let e = lemma_step_five(e, 15, 2369857495604672075885586745501376665292538597775222601363517338362885229667int, n);
    assert(pow(5, e) % n == 12055348549749370040492776391518332730517270762405466490330518457489883398286int);
    let e = lemma_step_five(e, 0, 12055348549749370040492776391518332730517270762405466490330518457489883398286int, n);
    assert(pow(5, e) % n == 12118804860518670145098489159991402417888461380160045337181206144932510518417int);
    let e = lemma_step_five(e, 15, 12118804860518670145098489159991402417888461380160045337181206144932510518417int, n);
    assert(pow(5, e) % n == 3018937801257910216515047324755150230061739800647458677846584795504153630758int);
    let e = lemma_step_five(e, 10, 3018937801257910216515047324755150230061739800647458677846584795504153630758int, n);
    assert(pow(5, e) % n == 12432341267527756745256562101780752298590697240126755332407548816141571972251int);
    let e = lemma_step_five(e, 12, 12432341267527756745256562101780752298590697240126755332407548816141571972251int, n);
    assert(pow(5, e) % n == 789170716349317388151285254225649761838141032716085490053900106686664126803int);
    let e = lemma_step_five(e, 9, 789170716349317388151285254225649761838141032716085490053900106686664126803int, n);
    assert(pow(5, e) % n == 610310806950017018757722104526767371315807778323775703978940537639595320464int);
    let e = lemma_step_five(e, 15, 610310806950017018757722104526767371315807778323775703978940537639595320464int, n);
    assert(pow(5, e) % n == 8555721953629461299286736829542406442931665950900867472601658309925438163304int);
    let e = lemma_step_five(e, 8, 8555721953629461299286736829542406442931665950900867472601658309925438163304int, n);
    assert(pow(5, e) % n == 19200870435978225707111062059747084165650991997241425080699860725083300967194int);
    let e = lemma_step_five(e, 0, 19200870435978225707111062059747084165650991997241425080699860725083300967194int, n);
    assert(pow(5, e) % n == 13536764371732269273912573961853310557438878140379554347802702086337840854307int);
    let e = lemma_step_five(e, 0, 13536764371732269273912573961853310557438878140379554347802702086337840854307int, n);
    assert(pow(5, e) % n == 12650941915662020058015862023665998998969191525479888727406889100124684769509int);
    let e = lemma_step_five(e, 0, 12650941915662020058015862023665998998969191525479888727406889100124684769509int, n);
    assert(pow(5, e) % n == 197302210312744933010843010704445784068657690384188106020011018676818793232int);
    let e = lemma_step_five(e, 0, 197302210312744933010843010704445784068657690384188106020011018676818793232int, n);
    assert(pow(5, e) % n == 6837567842312086091520287814181175430087169027974246751610506942214842701774int);
    let e = lemma_step_five(e, 0, 6837567842312086091520287814181175430087169027974246751610506942214842701774int, n);
    assert(pow(5, e) % n == 4419234939496763621076330863786513495701855246241724391626358375488475697872int);
    let e = lemma_step_five(e, 0, 4419234939496763621076330863786513495701855246241724391626358375488475697872int, n);
    assert(pow(5, e) % n == 21888242871839275222246405745257275088548364400416034343698204186575808495616int);
}

} // verus!
