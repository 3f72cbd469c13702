use vstd::arithmetic::div_mod::{lemma_fundamental_div_mod, lemma_fundamental_div_mod_converse};
use vstd::prelude::*;

verus! {

/// Bit `i` (0 = least significant) of `v`.
pub open spec fn bit(v: u8, i: u8) -> bool {
    (v >> i) & 1 == 1
}

/// `v` rotated left by `s` places within its eight bits (`s < 8`).
pub open spec fn rotl(v: u8, s: u8) -> u8 {
    if s == 0 {
        v
    } else {
        (v << s) | (v >> ((8 - s) as u8))
    }
}

/// `v` rotated right by `s` places within its eight bits (`s < 8`).
pub open spec fn rotr(v: u8, s: u8) -> u8 {
    if s == 0 {
        v
    } else {
        (v >> s) | (v << ((8 - s) as u8))
    }
}

/// `v` with its bit order reversed: bit `i` moves to bit `7 - i`.
pub open spec fn rev(v: u8) -> u8 {
    ((v & 0x01) << 7) | ((v & 0x02) << 5) | ((v & 0x04) << 3) | ((v & 0x08) << 1)
        | ((v & 0x10) >> 1) | ((v & 0x20) >> 3) | ((v & 0x40) >> 5) | ((v & 0x80) >> 7)
}

/// Rotating left moves bit `i` to bit `(i + s) mod 8`.
pub proof fn lemma_rotl_moves_bits(v: u8, s: u8)
    by (bit_vector)
    requires
        s < 8,
    ensures
        forall|i: u8| i < 8 ==> #[trigger] bit(v, i) == bit(rotl(v, s), ((i + s) % 8) as u8),
{
}

/// Reversing moves bit `i` to bit `7 - i`.
pub proof fn lemma_rev_moves_bits(v: u8)
    by (bit_vector)
    ensures
        forall|i: u8| i < 8 ==> #[trigger] bit(v, i) == bit(rev(v), (7 - i) as u8),
{
}

/// Rotating right by `s` undoes rotating left by `s`.
pub proof fn lemma_rotr_undoes_rotl(v: u8, s: u8)
    by (bit_vector)
    requires
        s < 8,
    ensures
        rotr(rotl(v, s), s) == v,
{
}

/// Reversing the bit order twice gives the byte back.
pub proof fn lemma_rev_involutive(v: u8)
    by (bit_vector)
    ensures
        rev(rev(v)) == v,
{
}

/// `n mod m` normalised into `[0, m)`.
pub fn modulo_positive(n: i32, m: i32) -> (r: i32)
    requires
        m > 0,
    ensures
        r as int == n as int % m as int,
        0 <= r < m,
{
    let k = n % m;
    proof {
        if n < 0 {
            let a = -(n as int);
            let q = a / (m as int);
            lemma_fundamental_div_mod(a, m as int);
            assert(k as int == -(a % (m as int)));
            if k < 0 {
                assert(n as int == (-q - 1) * (m as int) + (k + m) as int) by (nonlinear_arith)
                    requires
                        a == -(n as int),
                        a == (m as int) * q + a % (m as int),
                        k as int == -(a % (m as int)),
                ;
                lemma_fundamental_div_mod_converse(n as int, m as int, -q - 1, (k + m) as int);
            } else {
                assert(n as int == (-q) * (m as int) + 0) by (nonlinear_arith)
                    requires
                        a == -(n as int),
                        a == (m as int) * q + a % (m as int),
                        a % (m as int) == 0,
                ;
                lemma_fundamental_div_mod_converse(n as int, m as int, -q, 0);
            }
        }
    }
    if k < 0 {
        k + m
    } else {
        k
    }
}

/// Bit `i` of `v`, for `i < 8`.
pub fn get_nth_bit(value: u8, n: u8) -> (r: bool)
    requires
        n < 8,
    ensures
        r == bit(value, n),
{
    ((value >> n) & 1) == 1
}

/// Rotates the eight bits of `value` left by `shift` places.
pub fn circular_left_shift(value: u8, shift: usize) -> (r: u8)
    requires
        shift < 8,
    ensures
        r == rotl(value, shift as u8),
{
    if shift % 8 == 0 {
        return value;
    }
    let s = shift as u8;
    let r = (value << s) | (value >> (8 - s));
    assert(r == rotl(value, s));
    r
}

/// Rotates the eight bits of `value` right by `shift` places.
pub fn circular_right_shift(value: u8, shift: usize) -> (r: u8)
    requires
        shift < 8,
    ensures
        r == rotr(value, shift as u8),
{
    if shift % 8 == 0 {
        return value;
    }
    let s = shift as u8;
    let r = (value >> s) | (value << (8 - s));
    assert(r == rotr(value, s));
    r
}

/// One step of reading the low bits of `n` into the high end of the result.
proof fn lemma_reverse_step(n: u8, i: u8, temp: u8, result: u8)
    by (bit_vector)
    requires
        i < 8,
        temp == n >> i,
        i == 0 ==> result == 0,
        i > 0 ==> result == rev(n) >> ((8 - i) as u8),
    ensures
        ((result << 1) | (temp & 1)) == rev(n) >> ((8 - (i + 1)) as u8),
        temp >> 1 == n >> ((i + 1) as u8),
{
}

/// The bits of `n` in reverse order.
pub fn reverse_bits(n: u8) -> (r: u8)
    ensures
        r == rev(n),
{
    let mut temp = n;
    let mut result: u8 = 0;
    let mut i: u8 = 0;
    assert(n >> 0u8 == n) by (bit_vector);
    while i < 8
        invariant
            i <= 8,
            temp == n >> i,
            i == 0 ==> result == 0,
            i > 0 ==> result == rev(n) >> ((8 - i) as u8),
        decreases 8 - i,
    {
        proof {
            lemma_reverse_step(n, i, temp, result);
        }
        result = (result << 1) | (temp & 1);
        temp = temp >> 1;
        i = i + 1;
    }
    assert(rev(n) >> 0u8 == rev(n)) by (bit_vector);
    result
}

} // verus!
