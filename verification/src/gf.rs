//! Arithmetic in GF(256) modulo the polynomial 0x11d, the one that Reed-Solomon
//! codes conventionally use.

use vstd::prelude::*;

verus! {

/// `x` times the generator, modulo the polynomial.
pub open spec fn double(x: u8) -> u8 {
    if x & 0x80 != 0 {
        (x << 1) ^ 0x1d
    } else {
        x << 1
    }
}

/// `term` where bit `n` of `b` is set, zero elsewhere.
pub open spec fn at_bit(term: u8, b: u8, n: u8) -> u8 {
    if b & (1u8 << n) != 0 {
        term
    } else {
        0
    }
}

/// The field's product: the sum of `a` times the `n`th power of the generator
/// over the bits `n` of `b`.
pub open spec fn times(a: u8, b: u8) -> u8 {
    let a1 = double(a);
    let a2 = double(a1);
    let a3 = double(a2);
    let a4 = double(a3);
    let a5 = double(a4);
    let a6 = double(a5);
    let a7 = double(a6);
    at_bit(a, b, 0) ^ at_bit(a1, b, 1) ^ at_bit(a2, b, 2) ^ at_bit(a3, b, 3) ^ at_bit(a4, b, 4)
        ^ at_bit(a5, b, 5) ^ at_bit(a6, b, 6) ^ at_bit(a7, b, 7)
}

/// The `n`th power of the generator.
pub open spec fn power(n: nat) -> u8
    decreases n,
{
    if n == 0 {
        1
    } else {
        double(power((n - 1) as nat))
    }
}

/// The number whose product with `b` is `a`.
pub open spec fn over(a: u8, b: u8) -> u8 {
    choose|q: u8| times(q, b) == a
}

proof fn lemma_double_linear(a: u8, b: u8)
    by (bit_vector)
    ensures
        double(a ^ b) == double(a) ^ double(b),
{
}

/// Multiplication distributes over addition on the left.
pub proof fn lemma_times_left(a: u8, c: u8, b: u8)
    ensures
        times(a ^ c, b) == times(a, b) ^ times(c, b),
{
    let (a1, c1) = (double(a), double(c));
    let (a2, c2) = (double(a1), double(c1));
    let (a3, c3) = (double(a2), double(c2));
    let (a4, c4) = (double(a3), double(c3));
    let (a5, c5) = (double(a4), double(c4));
    let (a6, c6) = (double(a5), double(c5));
    let (a7, c7) = (double(a6), double(c6));
    lemma_double_linear(a, c);
    lemma_double_linear(a1, c1);
    lemma_double_linear(a2, c2);
    lemma_double_linear(a3, c3);
    lemma_double_linear(a4, c4);
    lemma_double_linear(a5, c5);
    lemma_double_linear(a6, c6);
    assert(at_bit(a ^ c, b, 0) ^ at_bit(a1 ^ c1, b, 1) ^ at_bit(a2 ^ c2, b, 2) ^ at_bit(
        a3 ^ c3,
        b,
        3,
    ) ^ at_bit(a4 ^ c4, b, 4) ^ at_bit(a5 ^ c5, b, 5) ^ at_bit(a6 ^ c6, b, 6) ^ at_bit(
        a7 ^ c7,
        b,
        7,
    ) == (at_bit(a, b, 0) ^ at_bit(a1, b, 1) ^ at_bit(a2, b, 2) ^ at_bit(a3, b, 3) ^ at_bit(
        a4,
        b,
        4,
    ) ^ at_bit(a5, b, 5) ^ at_bit(a6, b, 6) ^ at_bit(a7, b, 7)) ^ (at_bit(c, b, 0) ^ at_bit(
        c1,
        b,
        1,
    ) ^ at_bit(c2, b, 2) ^ at_bit(c3, b, 3) ^ at_bit(c4, b, 4) ^ at_bit(c5, b, 5) ^ at_bit(c6, b, 6)
        ^ at_bit(c7, b, 7))) by (bit_vector);
}

/// Multiplication distributes over addition on the right.
#[verifier::rlimit(30)]
pub proof fn lemma_times_right(a: u8, b: u8, c: u8)
    by (bit_vector)
    ensures
        times(a, b ^ c) == times(a, b) ^ times(a, c),
{
}

#[verifier::rlimit(30)]
proof fn lemma_times_double(a: u8, b: u8)
    by (bit_vector)
    ensures
        times(double(a), b) == double(times(a, b)),
{
}

/// One is neutral, and zero absorbs.
pub proof fn lemma_times_units(a: u8)
    ensures
        times(a, 1) == a,
        times(1, a) == a,
        times(a, 0) == 0,
        times(0, a) == 0,
{
    assert(times(a, 1) == a) by (bit_vector);
    assert(times(1, a) == a) by (bit_vector);
    assert(times(a, 0) == 0) by (bit_vector);
    assert(times(0, a) == 0) by (bit_vector);
}

proof fn lemma_double_nonzero(a: u8)
    by (bit_vector)
    ensures
        a != 0 ==> double(a) != 0,
{
}

/// No power of the generator vanishes.
pub proof fn lemma_power_nonzero(n: nat)
    ensures
        power(n) != 0,
    decreases n,
{
    if n > 0 {
        lemma_power_nonzero((n - 1) as nat);
        lemma_double_nonzero(power((n - 1) as nat));
    }
}

/// Exponents add up.
pub proof fn lemma_power_sum(i: nat, j: nat)
    ensures
        times(power(i), power(j)) == power(i + j),
    decreases i,
{
    if i == 0 {
        lemma_times_units(power(j));
    } else {
        lemma_power_sum((i - 1) as nat, j);
        lemma_times_double(power((i - 1) as nat), power(j));
    }
}

/// The powers repeat after 255.
pub proof fn lemma_power_period(n: nat, rounds: nat)
    ensures
        power(255) == 1,
        power(n + 255 * rounds) == power(n),
    decreases rounds,
{
    assert(power(255) == 1) by (bit_vector);
    if rounds > 0 {
        let before = n + 255 * (rounds - 1) as nat;
        lemma_power_period(n, (rounds - 1) as nat);
        lemma_power_sum(255, before);
        lemma_times_units(power(before));
    }
}

proof fn lemma_power_of_one(k: nat, m: nat)
    requires
        power(k) == 1,
    ensures
        power(k * m) == 1,
    decreases m,
{
    if m == 0 {
        assert(k * m == 0) by (nonlinear_arith)
            requires
                m == 0,
        ;
    } else {
        lemma_power_of_one(k, (m - 1) as nat);
        lemma_power_sum(k, k * (m - 1) as nat);
        lemma_times_units(1);
        assert(k * m == k + k * (m - 1) as nat) by (nonlinear_arith)
            requires
                m > 0,
        ;
    }
}

/// No shorter run of the powers comes back to one: 255 is 3 times 5 times 17,
/// and one of the three does not divide `k`.
proof fn lemma_power_order(k: nat)
    requires
        0 < k < 255,
    ensures
        power(k) != 1,
{
    if power(k) == 1 {
        lemma_power_of_one(k, 85);
        lemma_power_of_one(k, 51);
        lemma_power_of_one(k, 15);
        if k % 3 != 0 {
            lemma_power_period(85 * (k % 3), k / 3);
            assert(k * 85 == 85 * (k % 3) + 255 * (k / 3));
            assert(power(85) != 1 && power(170) != 1) by (bit_vector);
            assert(k % 3 == 1 || k % 3 == 2);
        } else if k % 5 != 0 {
            lemma_power_period(51 * (k % 5), k / 5);
            assert(k * 51 == 51 * (k % 5) + 255 * (k / 5));
            assert(power(51) != 1 && power(102) != 1 && power(153) != 1 && power(204) != 1)
                by (bit_vector);
            assert(k % 5 == 1 || k % 5 == 2 || k % 5 == 3 || k % 5 == 4);
        } else {
            assert(k % 17 != 0);
            let r = k % 17;
            lemma_power_period(15 * r, k / 17);
            assert(k * 15 == 15 * r + 255 * (k / 17));
            assert(power(15) != 1 && power(30) != 1 && power(45) != 1 && power(60) != 1 && power(75)
                != 1 && power(90) != 1 && power(105) != 1 && power(120) != 1) by (bit_vector);
            assert(power(135) != 1 && power(150) != 1 && power(165) != 1 && power(180) != 1
                && power(195) != 1 && power(210) != 1 && power(225) != 1 && power(240) != 1)
                by (bit_vector);
            assert(0 < r < 17);
            assert(r == 1 || r == 2 || r == 3 || r == 4 || r == 5 || r == 6 || r == 7 || r == 8 || r
                == 9 || r == 10 || r == 11 || r == 12 || r == 13 || r == 14 || r == 15 || r == 16);
        }
    }
}

/// The first 255 powers are all different.
pub proof fn law_powers_are_distinct(i: nat, j: nat)
    requires
        i < j < 255,
    ensures
        power(i) != power(j),
{
    if power(i) == power(j) {
        let rest = (255 - i) as nat;
        lemma_power_sum(i, rest);
        lemma_power_sum(j, rest);
        lemma_power_period((j - i) as nat, 1);
        lemma_power_order((j - i) as nat);
        assert(j + rest == (j - i) as nat + 255);
    }
}

/// Every number but zero is one of the first 255 powers.
pub proof fn law_powers_cover_the_field(a: u8)
    requires
        a != 0,
    ensures
        exists|k: nat| k < 255 && #[trigger] power(k) == a,
{
    let exponents = vstd::set_lib::set_int_range(0, 255);
    let values = vstd::set_lib::set_int_range(1, 256);
    let f = |k: int| power(k as nat) as int;
    let image = exponents.map(f);
    vstd::set_lib::lemma_int_range(0, 255);
    vstd::set_lib::lemma_int_range(1, 256);
    assert forall|x: int, y: int|
        exponents.contains(x) && exponents.contains(y) && #[trigger] f(x) == #[trigger] f(
            y,
        ) implies x == y by {
        if x < y {
            law_powers_are_distinct(x as nat, y as nat);
        } else if y < x {
            law_powers_are_distinct(y as nat, x as nat);
        }
    }
    vstd::set_lib::lemma_map_size(exponents, image, f);
    assert(image.subset_of(values)) by {
        assert forall|v: int| image.contains(v) implies values.contains(v) by {
            let k = choose|k: int| exponents.contains(k) && v == f(k);
            lemma_power_nonzero(k as nat);
        }
    }
    vstd::set_lib::lemma_subset_equality(image, values);
    assert(values.contains(a as int));
    let k = choose|k: int| exponents.contains(k) && a as int == f(k);
    assert(power(k as nat) == a);
}

/// The exponent below 255 that gives `a`.
pub open spec fn exponent(a: u8) -> nat {
    choose|k: nat| k < 255 && #[trigger] power(k) == a
}

pub proof fn lemma_exponent(a: u8)
    requires
        a != 0,
    ensures
        exponent(a) < 255,
        power(exponent(a)) == a,
{
    law_powers_cover_the_field(a);
}

/// Multiplication commutes.
pub proof fn law_times_commutes(a: u8, b: u8)
    ensures
        times(a, b) == times(b, a),
{
    if a == 0 || b == 0 {
        lemma_times_units(a);
        lemma_times_units(b);
    } else {
        lemma_exponent(a);
        lemma_exponent(b);
        lemma_power_sum(exponent(a), exponent(b));
        lemma_power_sum(exponent(b), exponent(a));
    }
}

/// No two numbers other than zero have the product zero.
pub proof fn law_products_do_not_vanish(a: u8, b: u8)
    requires
        a != 0,
        b != 0,
    ensures
        times(a, b) != 0,
{
    lemma_exponent(a);
    lemma_exponent(b);
    lemma_power_sum(exponent(a), exponent(b));
    lemma_power_nonzero(exponent(a) + exponent(b));
}

/// A quotient is determined by its product with the divisor.
pub proof fn lemma_quotient_unique(q: u8, a: u8, b: u8)
    requires
        b != 0,
        times(q, b) == a,
    ensures
        over(a, b) == q,
{
    let other = over(a, b);
    assert(times(other, b) == a);
    lemma_times_left(q, other, b);
    assert(a ^ a == 0) by (bit_vector);
    if q ^ other != 0 {
        law_products_do_not_vanish(q ^ other, b);
    }
    assert(q ^ other == 0 ==> q == other) by (bit_vector);
}

/// Dividing a product by one factor gives the other.
pub proof fn law_division_undoes_multiplication(a: u8, b: u8)
    requires
        b != 0,
    ensures
        over(times(a, b), b) == a,
{
    lemma_quotient_unique(a, times(a, b), b);
}

/// Exponent and logarithm tables of the field.
///
/// The exponent table runs past one period, which lets a multiplication skip a
/// modulo.
pub struct Tables {
    pub exp: [u8; 512],
    pub log: [u8; 256],
}

impl Tables {
    pub open spec fn valid(self) -> bool {
        &&& forall|i: int| 0 <= i < 512 ==> #[trigger] self.exp@[i] == power(i as nat)
        &&& forall|a: int|
            1 <= a < 256 ==> {
                &&& (#[trigger] self.log@[a]) < 255
                &&& power(self.log@[a] as nat) == a
            }
    }
}

proof fn lemma_next_power(x: u16)
    requires
        x < 256,
    ensures
        x & 0x7f == x ==> ((x << 1) & 0x100 == 0 && (x << 1) == double(x as u8) as u16),
        x & 0x7f != x ==> ((x << 1) & 0x100 != 0 && (x << 1) ^ 0x11d == double(x as u8) as u16),
{
    assert(x & 0x7f == x ==> ((x << 1) & 0x100 == 0 && (x << 1) == double(x as u8) as u16))
        by (bit_vector)
        requires
            x < 256,
    ;
    assert(x & 0x7f != x ==> ((x << 1) & 0x100 != 0 && (x << 1) ^ 0x11d == double(x as u8) as u16))
        by (bit_vector)
        requires
            x < 256,
    ;
}

pub fn build_tables() -> (tables: Tables)
    ensures
        tables.valid(),
{
    let mut exp: [u8; 512] = [0u8;512];
    let mut log: [u8; 256] = [0u8;256];
    let mut x: u16 = 1;
    let mut i: usize = 0;
    while i < 255
        invariant
            i <= 255,
            x == power(i as nat),
            forall|k: int| 0 <= k < i ==> #[trigger] exp@[k] == power(k as nat),
            forall|k: nat| k < i ==> log@[#[trigger] power(k) as int] == k,
        decreases 255 - i,
    {
        exp[i] = x as u8;
        log[x as usize] = i as u8;
        proof {
            assert forall|k: nat| k < i + 1 implies log@[#[trigger] power(k) as int] == k by {
                if k < i {
                    law_powers_are_distinct(k, i as nat);
                }
            }
            lemma_next_power(x);
        }
        x = x << 1;
        if x & 0x100 != 0 {
            x = x ^ 0x11d;
        }
        i = i + 1;
    }
    while i < 512
        invariant
            255 <= i <= 512,
            forall|k: int| 0 <= k < i ==> #[trigger] exp@[k] == power(k as nat),
        decreases 512 - i,
    {
        proof {
            lemma_power_period((i - 255) as nat, 1);
        }
        exp[i] = exp[i - 255];
        i = i + 1;
    }
    proof {
        assert forall|a: int| 1 <= a < 256 implies {
            &&& (#[trigger] log@[a]) < 255
            &&& power(log@[a] as nat) == a
        } by {
            lemma_exponent(a as u8);
        }
    }
    Tables { exp, log }
}

pub fn gf_mul(tables: &Tables, a: u8, b: u8) -> (product: u8)
    requires
        tables.valid(),
    ensures
        product == times(a, b),
{
    if a == 0 || b == 0 {
        proof {
            lemma_times_units(a);
            lemma_times_units(b);
        }
        return 0;
    }
    let i: usize = tables.log[a as usize] as usize;
    let j: usize = tables.log[b as usize] as usize;
    proof {
        lemma_power_sum(i as nat, j as nat);
    }
    tables.exp[i + j]
}

/// Divides `a` by `b`.
pub fn gf_div(tables: &Tables, a: u8, b: u8) -> (quotient: u8)
    requires
        tables.valid(),
        a == 0 || b != 0,
    ensures
        a == 0 ==> quotient == 0,
        b != 0 ==> quotient == over(a, b) && times(quotient, b) == a,
{
    if a == 0 {
        proof {
            lemma_times_units(b);
            if b != 0 {
                lemma_quotient_unique(0, 0, b);
            }
        }
        return 0;
    }
    let i: usize = tables.log[a as usize] as usize;
    let j: usize = tables.log[b as usize] as usize;
    proof {
        let q = power((i + 255 - j) as nat);
        lemma_power_sum((i + 255 - j) as nat, j as nat);
        lemma_power_period(i as nat, 1);
        lemma_quotient_unique(q, a, b);
    }
    tables.exp[i + 255 - j]
}

/// The weight of the fragment at `index` in the second parity block.
///
/// Distinct non-zero coefficients are what make the two parity equations
/// independent, and so solvable for two unknowns.
pub fn coefficient(tables: &Tables, index: usize) -> (weight: u8)
    requires
        tables.valid(),
    ensures
        weight == power((index % 255) as nat),
{
    tables.exp[index % 255]
}

/// The product of the field: two times a number is that number shifted, less the
/// polynomial 0x11d where it outgrows a byte; one leaves a number as it is; and
/// products distribute over sums. This fixes every product.
pub proof fn law_the_field_is_that_of_its_polynomial(a: u8, b: u8, c: u8)
    ensures
        times(2, b) == if b < 128 {
            (2 * b) as u8
        } else {
            ((2 * b - 256) as u8) ^ 0x1d
        },
        times(1, b) == b,
        times(a, b) == times(b, a),
        times(a ^ c, b) == times(a, b) ^ times(c, b),
{
    lemma_times_units(b);
    law_times_commutes(a, b);
    lemma_times_left(a, c, b);
    law_times_commutes(2, b);
    assert(times(b, 2) == double(b)) by (bit_vector);
    assert(double(b) == if b < 128 {
        (2 * b) as u8
    } else {
        ((2 * b - 256) as u8) ^ 0x1d
    }) by (bit_vector);
}

/// The powers of the generator, which is two.
pub proof fn law_powers_are_products_of_two(n: nat)
    ensures
        power(0) == 1,
        power(n + 1) == times(2, power(n)),
{
    let p = power(n);
    law_times_commutes(2, p);
    assert(times(p, 2) == double(p)) by (bit_vector);
}

} // verus!
