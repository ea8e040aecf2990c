//! Arithmetic in the finite field GF(256).
//!
//! Field elements are octets. Addition is bitwise exclusive or. Multiplication
//! is defined through the powers of the generator `alpha`, the residue of the
//! polynomial `x` modulo `x^8 + x^4 + x^3 + x^2 + 1`: every nonzero octet is
//! `alpha^i` for exactly one `i` below 255, and the product of `alpha^i` and
//! `alpha^j` is `alpha^(i + j)`. The executable operations use the two
//! precomputed tables `OCT_EXP` and `OCT_LOG`; this module proves that the
//! tables hold the powers and the discrete logarithms, and derives the field
//! laws that the linear algebra of the codec rests on.
use vstd::prelude::*;

verus! {

/// `OCT_EXP[i]` is `alpha^i`, for `i` from 0 to 509.
pub const OCT_EXP: [u8; 510] = [
    1, 2, 4, 8, 16, 32, 64, 128, 29, 58, 116, 232, 205, 135, 19, 38,
    76, 152, 45, 90, 180, 117, 234, 201, 143, 3, 6, 12, 24, 48, 96, 192,
    157, 39, 78, 156, 37, 74, 148, 53, 106, 212, 181, 119, 238, 193, 159, 35,
    70, 140, 5, 10, 20, 40, 80, 160, 93, 186, 105, 210, 185, 111, 222, 161,
    95, 190, 97, 194, 153, 47, 94, 188, 101, 202, 137, 15, 30, 60, 120, 240,
    253, 231, 211, 187, 107, 214, 177, 127, 254, 225, 223, 163, 91, 182, 113, 226,
    217, 175, 67, 134, 17, 34, 68, 136, 13, 26, 52, 104, 208, 189, 103, 206,
    129, 31, 62, 124, 248, 237, 199, 147, 59, 118, 236, 197, 151, 51, 102, 204,
    133, 23, 46, 92, 184, 109, 218, 169, 79, 158, 33, 66, 132, 21, 42, 84,
    168, 77, 154, 41, 82, 164, 85, 170, 73, 146, 57, 114, 228, 213, 183, 115,
    230, 209, 191, 99, 198, 145, 63, 126, 252, 229, 215, 179, 123, 246, 241, 255,
    227, 219, 171, 75, 150, 49, 98, 196, 149, 55, 110, 220, 165, 87, 174, 65,
    130, 25, 50, 100, 200, 141, 7, 14, 28, 56, 112, 224, 221, 167, 83, 166,
    81, 162, 89, 178, 121, 242, 249, 239, 195, 155, 43, 86, 172, 69, 138, 9,
    18, 36, 72, 144, 61, 122, 244, 245, 247, 243, 251, 235, 203, 139, 11, 22,
    44, 88, 176, 125, 250, 233, 207, 131, 27, 54, 108, 216, 173, 71, 142, 1,
    2, 4, 8, 16, 32, 64, 128, 29, 58, 116, 232, 205, 135, 19, 38, 76,
    152, 45, 90, 180, 117, 234, 201, 143, 3, 6, 12, 24, 48, 96, 192, 157,
    39, 78, 156, 37, 74, 148, 53, 106, 212, 181, 119, 238, 193, 159, 35, 70,
    140, 5, 10, 20, 40, 80, 160, 93, 186, 105, 210, 185, 111, 222, 161, 95,
    190, 97, 194, 153, 47, 94, 188, 101, 202, 137, 15, 30, 60, 120, 240, 253,
    231, 211, 187, 107, 214, 177, 127, 254, 225, 223, 163, 91, 182, 113, 226, 217,
    175, 67, 134, 17, 34, 68, 136, 13, 26, 52, 104, 208, 189, 103, 206, 129,
    31, 62, 124, 248, 237, 199, 147, 59, 118, 236, 197, 151, 51, 102, 204, 133,
    23, 46, 92, 184, 109, 218, 169, 79, 158, 33, 66, 132, 21, 42, 84, 168,
    77, 154, 41, 82, 164, 85, 170, 73, 146, 57, 114, 228, 213, 183, 115, 230,
    209, 191, 99, 198, 145, 63, 126, 252, 229, 215, 179, 123, 246, 241, 255, 227,
    219, 171, 75, 150, 49, 98, 196, 149, 55, 110, 220, 165, 87, 174, 65, 130,
    25, 50, 100, 200, 141, 7, 14, 28, 56, 112, 224, 221, 167, 83, 166, 81,
    162, 89, 178, 121, 242, 249, 239, 195, 155, 43, 86, 172, 69, 138, 9, 18,
    36, 72, 144, 61, 122, 244, 245, 247, 243, 251, 235, 203, 139, 11, 22, 44,
    88, 176, 125, 250, 233, 207, 131, 27, 54, 108, 216, 173, 71, 142,
];

/// `OCT_LOG[x]` is the discrete logarithm of `x`, for `x` from 1 to 255; the entry at 0 is unused.
pub const OCT_LOG: [u8; 256] = [
    0, 0, 1, 25, 2, 50, 26, 198, 3, 223, 51, 238, 27, 104, 199, 75,
    4, 100, 224, 14, 52, 141, 239, 129, 28, 193, 105, 248, 200, 8, 76, 113,
    5, 138, 101, 47, 225, 36, 15, 33, 53, 147, 142, 218, 240, 18, 130, 69,
    29, 181, 194, 125, 106, 39, 249, 185, 201, 154, 9, 120, 77, 228, 114, 166,
    6, 191, 139, 98, 102, 221, 48, 253, 226, 152, 37, 179, 16, 145, 34, 136,
    54, 208, 148, 206, 143, 150, 219, 189, 241, 210, 19, 92, 131, 56, 70, 64,
    30, 66, 182, 163, 195, 72, 126, 110, 107, 58, 40, 84, 250, 133, 186, 61,
    202, 94, 155, 159, 10, 21, 121, 43, 78, 212, 229, 172, 115, 243, 167, 87,
    7, 112, 192, 247, 140, 128, 99, 13, 103, 74, 222, 237, 49, 197, 254, 24,
    227, 165, 153, 119, 38, 184, 180, 124, 17, 68, 146, 217, 35, 32, 137, 46,
    55, 63, 209, 91, 149, 188, 207, 205, 144, 135, 151, 178, 220, 252, 190, 97,
    242, 86, 211, 171, 20, 42, 93, 158, 132, 60, 57, 83, 71, 109, 65, 162,
    31, 45, 67, 216, 183, 123, 164, 118, 196, 23, 73, 236, 127, 12, 111, 246,
    108, 161, 59, 82, 41, 157, 85, 170, 251, 96, 134, 177, 187, 204, 62, 90,
    203, 89, 95, 176, 156, 169, 160, 81, 11, 245, 22, 235, 122, 117, 44, 215,
    79, 174, 213, 233, 230, 231, 173, 232, 116, 214, 244, 234, 168, 80, 88, 175,
];

/// Multiplication by `alpha`: a shift, reduced by the field polynomial.
pub open spec fn xtime(x: u8) -> u8 {
    if x < 128 {
        x << 1
    } else {
        (x << 1) ^ 0x1d
    }
}

/// `alpha^i`.
pub open spec fn alpha_pow(i: nat) -> u8
    decreases i,
{
    if i == 0 {
        1
    } else {
        xtime(alpha_pow((i - 1) as nat))
    }
}

/// The discrete logarithm of a nonzero octet: the `i` below 255 with `alpha^i == x`.
pub open spec fn dlog(x: u8) -> nat {
    choose|i: nat| i < 255 && alpha_pow(i) == x
}

/// The sum of two field elements.
pub open spec fn gf_add(a: u8, b: u8) -> u8 {
    a ^ b
}

/// The product of two field elements.
pub open spec fn gf_mul(a: u8, b: u8) -> u8 {
    if a == 0 || b == 0 {
        0
    } else {
        alpha_pow(dlog(a) + dlog(b))
    }
}

/// The multiplicative inverse of a nonzero field element.
pub open spec fn gf_inv(a: u8) -> u8 {
    alpha_pow((255 - dlog(a)) as nat)
}

/// `x` multiplied `n` times by `alpha`.
pub open spec fn shift_by(n: nat, x: u8) -> u8
    decreases n,
{
    if n == 0 {
        x
    } else {
        xtime(shift_by((n - 1) as nat, x))
    }
}

/// `xtime` in terms of arithmetic alone.
spec fn xtime_arith(x: u8) -> int {
    if x < 128 {
        2 * x
    } else {
        2 * x - 256 + 29 - 8 * (((2 * x - 256) / 4) % 8)
    }
}

/// `xtime` is what its arithmetic form says.
proof fn lemma_xtime_arith(x: u8)
    by (bit_vector)
    ensures
        xtime(x) == xtime_arith(x),
{
}

/// `xtime` is linear over exclusive or.
proof fn lemma_xtime_linear(x: u8, y: u8)
    by (bit_vector)
    ensures
        xtime(x ^ y) == xtime(x) ^ xtime(y),
        xtime(0) == 0,
{
}

/// Exclusive or is associative and commutative, and every octet is its own negative.
pub proof fn lemma_xor_laws(a: u8, b: u8, c: u8)
    by (bit_vector)
    ensures
        a ^ b == b ^ a,
        (a ^ b) ^ c == a ^ (b ^ c),
        a ^ a == 0,
        a ^ 0 == a,
        0 ^ a == a,
        (a ^ b) ^ b == a,
{
}

/// Each entry of `OCT_EXP` up to 255 is `xtime` of the entry before it.
#[verifier::rlimit(100)]
proof fn lemma_exp_table_step(i: int)
    requires
        0 < i < 256,
    ensures
        OCT_EXP[i] == xtime_arith(OCT_EXP[i - 1]),
{
}

/// The entries of `OCT_EXP` repeat after 255 places, and none of them is zero.
proof fn lemma_exp_table_period(i: int)
    requires
        0 <= i < 255,
    ensures
        OCT_EXP[i + 255] == OCT_EXP[i],
        OCT_EXP[i] != 0,
{
}

/// `OCT_LOG` undoes `OCT_EXP`.
proof fn lemma_log_of_exp(i: int)
    requires
        0 <= i < 255,
    ensures
        OCT_LOG[OCT_EXP[i] as int] == i,
{
}

/// `OCT_EXP` undoes `OCT_LOG`.
proof fn lemma_exp_of_log(x: u8)
    requires
        x != 0,
    ensures
        OCT_LOG[x as int] < 255,
        OCT_EXP[OCT_LOG[x as int] as int] == x,
{
}

/// The first 256 entries of `OCT_EXP` are the powers of `alpha`.
proof fn lemma_exp_table_low(i: nat)
    requires
        i < 256,
    ensures
        OCT_EXP[i as int] == alpha_pow(i),
    decreases i,
{
    if i > 0 {
        lemma_exp_table_low((i - 1) as nat);
        lemma_exp_table_step(i as int);
        lemma_xtime_arith(OCT_EXP[i - 1]);
    }
}

/// The powers of `alpha` repeat with period 255.
pub proof fn lemma_alpha_pow_period(n: nat)
    ensures
        alpha_pow(n + 255) == alpha_pow(n),
    decreases n,
{
    if n == 0 {
        lemma_exp_table_low(255);
    } else {
        lemma_alpha_pow_period((n - 1) as nat);
    }
}

/// The table `OCT_EXP` holds the powers of `alpha`.
pub proof fn lemma_exp_table(i: nat)
    requires
        i < 510,
    ensures
        OCT_EXP[i as int] == alpha_pow(i),
        OCT_EXP[i as int] != 0,
{
    if i < 255 {
        lemma_exp_table_low(i);
        lemma_exp_table_period(i as int);
    } else {
        lemma_exp_table_low((i - 255) as nat);
        lemma_exp_table_period(i - 255);
        lemma_alpha_pow_period((i - 255) as nat);
    }
}

/// No power of `alpha` is zero.
pub proof fn lemma_alpha_pow_nonzero(n: nat)
    ensures
        alpha_pow(n) != 0,
    decreases n,
{
    if n < 255 {
        lemma_exp_table(n);
    } else {
        lemma_alpha_pow_nonzero((n - 255) as nat);
        lemma_alpha_pow_period((n - 255) as nat);
    }
}

/// The table `OCT_LOG` holds the discrete logarithms: every nonzero octet is
/// `alpha^i` for exactly one `i` below 255, and the table gives that `i`.
pub proof fn lemma_log_table(x: u8)
    requires
        x != 0,
    ensures
        dlog(x) < 255,
        alpha_pow(dlog(x)) == x,
        OCT_LOG[x as int] == dlog(x),
{
    lemma_exp_of_log(x);
    let w: nat = OCT_LOG[x as int] as nat;
    lemma_exp_table(w);
    assert(w < 255 && alpha_pow(w) == x);
    let d = dlog(x);
    lemma_exp_table(d);
    lemma_log_of_exp(d as int);
}

/// The discrete logarithm of `alpha^n` is `n` reduced modulo 255.
pub proof fn lemma_dlog_of_pow(n: nat)
    ensures
        dlog(alpha_pow(n)) == n % 255,
    decreases n,
{
    if n < 255 {
        lemma_alpha_pow_nonzero(n);
        lemma_log_table(alpha_pow(n));
        lemma_exp_table(n);
        lemma_log_of_exp(n as int);
    } else {
        lemma_dlog_of_pow((n - 255) as nat);
        lemma_alpha_pow_period((n - 255) as nat);
    }
}

/// Multiplying `alpha^m` by `alpha` `n` times gives `alpha^(n + m)`.
proof fn lemma_shift_by_pow(n: nat, m: nat)
    ensures
        shift_by(n, alpha_pow(m)) == alpha_pow(n + m),
    decreases n,
{
    if n > 0 {
        lemma_shift_by_pow((n - 1) as nat, m);
    }
}

/// Multiplying by `alpha` `n` times is linear over exclusive or.
proof fn lemma_shift_by_linear(n: nat, x: u8, y: u8)
    ensures
        shift_by(n, x ^ y) == shift_by(n, x) ^ shift_by(n, y),
        shift_by(n, 0) == 0,
    decreases n,
{
    if n > 0 {
        lemma_shift_by_linear((n - 1) as nat, x, y);
        lemma_xtime_linear(shift_by((n - 1) as nat, x), shift_by((n - 1) as nat, y));
    } else {
        lemma_xtime_linear(x, y);
    }
}

/// Multiplying by `alpha` `m` times and then `n` times is multiplying `n + m` times.
proof fn lemma_shift_by_compose(n: nat, m: nat, x: u8)
    ensures
        shift_by(n, shift_by(m, x)) == shift_by(n + m, x),
    decreases n,
{
    if n > 0 {
        lemma_shift_by_compose((n - 1) as nat, m, x);
    }
}

/// Multiplying by `alpha` 255 times changes nothing.
proof fn lemma_shift_by_period(n: nat, x: u8)
    ensures
        shift_by(n + 255, x) == shift_by(n, x),
{
    lemma_shift_by_compose(n, 255, x);
    if x == 0 {
        lemma_shift_by_linear(255, 0, 0);
    } else {
        lemma_log_table(x);
        lemma_shift_by_pow(255, dlog(x));
        lemma_alpha_pow_period(dlog(x));
    }
}

/// Only the number of multiplications by `alpha` modulo 255 counts.
proof fn lemma_shift_by_mod(n: nat, x: u8)
    ensures
        shift_by(n % 255, x) == shift_by(n, x),
    decreases n,
{
    if n >= 255 {
        let m: nat = (n - 255) as nat;
        lemma_shift_by_mod(m, x);
        lemma_shift_by_period(m, x);
        assert(m % 255 == n % 255) by {
            assert(n == m + 255);
        }
    } else {
        assert(n % 255 == n);
    }
}

/// Multiplying by a nonzero `a` is multiplying `dlog(a)` times by `alpha`.
proof fn lemma_mul_as_shift(a: u8, x: u8)
    requires
        a != 0,
    ensures
        gf_mul(a, x) == shift_by(dlog(a), x),
{
    if x == 0 {
        lemma_shift_by_linear(dlog(a), 0, 0);
    } else {
        lemma_log_table(x);
        lemma_shift_by_pow(dlog(a), dlog(x));
    }
}

/// Multiplying by the octet 2, which is `alpha`, is `xtime`.
pub proof fn lemma_mul_alpha(x: u8)
    ensures
        gf_mul(2, x) == xtime(x),
        gf_mul(2, alpha_pow(0)) == 2,
{
    lemma_xtime_arith(1);
    assert(alpha_pow(1) == xtime(alpha_pow(0)));
    assert(alpha_pow(1) == 2);
    lemma_dlog_of_pow(1);
    lemma_mul_as_shift(2, x);
    assert(shift_by(1, x) == xtime(shift_by(0, x)));
    lemma_mul_as_shift(2, 1);
    assert(shift_by(1, 1) == xtime(shift_by(0, 1)));
}

/// Zero annihilates, and one is the unit.
pub proof fn lemma_mul_zero_one(a: u8)
    ensures
        gf_mul(a, 0) == 0,
        gf_mul(0, a) == 0,
        gf_mul(a, 1) == a,
        gf_mul(1, a) == a,
{
    if a != 0 {
        lemma_log_table(a);
        lemma_log_table(1);
        lemma_dlog_of_pow(0);
    }
}

/// Multiplication is commutative.
pub proof fn lemma_mul_commutative(a: u8, b: u8)
    ensures
        gf_mul(a, b) == gf_mul(b, a),
{
}

/// Multiplication distributes over addition.
pub proof fn lemma_mul_distributive(a: u8, b: u8, c: u8)
    ensures
        gf_mul(a, gf_add(b, c)) == gf_add(gf_mul(a, b), gf_mul(a, c)),
        gf_mul(gf_add(b, c), a) == gf_add(gf_mul(b, a), gf_mul(c, a)),
{
    if a == 0 {
        lemma_xor_laws(0, 0, 0);
    } else {
        lemma_mul_as_shift(a, b ^ c);
        lemma_mul_as_shift(a, b);
        lemma_mul_as_shift(a, c);
        lemma_shift_by_linear(dlog(a), b, c);
    }
}

/// Multiplication is associative.
pub proof fn lemma_mul_associative(a: u8, b: u8, c: u8)
    ensures
        gf_mul(gf_mul(a, b), c) == gf_mul(a, gf_mul(b, c)),
{
    if a != 0 && b != 0 {
        let n = dlog(a) + dlog(b);
        lemma_alpha_pow_nonzero(n);
        lemma_mul_as_shift(gf_mul(a, b), c);
        lemma_dlog_of_pow(n);
        lemma_shift_by_mod(n, c);
        lemma_mul_as_shift(a, gf_mul(b, c));
        lemma_mul_as_shift(b, c);
        lemma_shift_by_compose(dlog(a), dlog(b), c);
    }
}

/// Every nonzero element times its inverse is one.
pub proof fn lemma_mul_inverse(a: u8)
    requires
        a != 0,
    ensures
        gf_inv(a) != 0,
        gf_mul(a, gf_inv(a)) == 1,
        gf_mul(gf_inv(a), a) == 1,
{
    lemma_log_table(a);
    let m: nat = (255 - dlog(a)) as nat;
    lemma_alpha_pow_nonzero(m);
    lemma_dlog_of_pow(m);
    lemma_alpha_pow_period(0);
    if dlog(a) == 0 {
        lemma_log_table(1);
    }
}

/// The sum of two field elements.
pub fn add(a: u8, b: u8) -> (r: u8)
    ensures
        r == gf_add(a, b),
{
    a ^ b
}

/// The product of two field elements, by the logarithm and power tables.
pub fn multiply(a: u8, b: u8) -> (r: u8)
    ensures
        r == gf_mul(a, b),
{
    if a == 0 || b == 0 {
        0
    } else {
        proof {
            lemma_log_table(a);
            lemma_log_table(b);
            lemma_exp_table(dlog(a) + dlog(b));
        }
        OCT_EXP[OCT_LOG[a as usize] as usize + OCT_LOG[b as usize] as usize]
    }
}

/// `alpha^i`, for `i` below 510.
pub fn alpha_power(i: usize) -> (r: u8)
    requires
        i < 510,
    ensures
        r == alpha_pow(i as nat),
{
    proof {
        lemma_exp_table(i as nat);
    }
    OCT_EXP[i]
}

/// The discrete logarithm of a nonzero field element.
pub fn logarithm(a: u8) -> (l: u8)
    requires
        a != 0,
    ensures
        l == dlog(a),
        l < 255,
        alpha_pow(l as nat) == a,
{
    proof {
        lemma_log_table(a);
    }
    OCT_LOG[a as usize]
}

/// The product of `alpha^l` and `b`, for `l` below 255.
pub fn times_power(l: u8, b: u8) -> (r: u8)
    requires
        l < 255,
    ensures
        r == gf_mul(alpha_pow(l as nat), b),
{
    proof {
        lemma_alpha_pow_nonzero(l as nat);
        lemma_dlog_of_pow(l as nat);
    }
    if b == 0 {
        0
    } else {
        proof {
            lemma_log_table(b);
            lemma_exp_table(l as nat + dlog(b));
        }
        OCT_EXP[l as usize + OCT_LOG[b as usize] as usize]
    }
}

/// The multiplicative inverse of a nonzero field element.
pub fn inverse(a: u8) -> (r: u8)
    requires
        a != 0,
    ensures
        r == gf_inv(a),
{
    proof {
        lemma_log_table(a);
        lemma_exp_table((255 - dlog(a)) as nat);
    }
    OCT_EXP[255 - OCT_LOG[a as usize] as usize]
}

} // verus!
