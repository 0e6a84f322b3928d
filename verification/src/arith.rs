//! Rounding, wrapping and byte-order arithmetic on 64-bit addresses.

use vstd::prelude::*;

verus! {

/// The number of addresses in a 64-bit address space.
pub open spec fn address_space_size() -> int {
    0x1_0000_0000_0000_0000
}

/// The largest multiple of `alignment` that is not above `value`.
pub open spec fn floor_to(value: int, alignment: int) -> int {
    value - value % alignment
}

/// The smallest multiple of `alignment` that is not below `value`.
pub open spec fn ceil_to(value: int, alignment: int) -> int {
    if value % alignment == 0 {
        value
    } else {
        floor_to(value, alignment) + alignment
    }
}

/// `addr` moved by `offset`, modulo the size of the address space.
pub open spec fn rebased(addr: u64, offset: i64) -> u64 {
    ((addr + offset) % address_space_size()) as u64
}

/// `addr` moved up by `offset`, modulo the size of the address space.
pub open spec fn wrapped_sum(addr: u64, offset: int) -> u64 {
    ((addr + offset) % address_space_size()) as u64
}

/// A 64-bit word read as a two's complement number.
pub open spec fn signed(value: u64) -> int {
    if value < 0x8000_0000_0000_0000 {
        value as int
    } else {
        value - address_space_size()
    }
}

/// Align `value` up to the next multiple of `alignment`.
///
/// `alignment` must be non-zero.
pub fn align_up(value: u64, alignment: u64) -> (r: u64)
    requires
        alignment > 0,
        value + alignment - 1 <= u64::MAX,
    ensures
        r == ceil_to(value as int, alignment as int),
{
    let sum: u64 = value + (alignment - 1);
    proof {
        lemma_ceil_by_division(value as int, alignment as int);
        lemma_floor_by_division(sum as int, alignment as int);
    }
    sum / alignment * alignment
}

/// Align `value` down to the previous multiple of `alignment`.
pub fn align_down(value: u64, alignment: u64) -> (r: u64)
    requires
        alignment > 0,
    ensures
        r == floor_to(value as int, alignment as int),
        r <= value,
        value - r < alignment,
        r as int % alignment as int == 0,
{
    proof {
        lemma_floor_by_division(value as int, alignment as int);
        lemma_floor_facts(value as int, alignment as int);
    }
    value / alignment * alignment
}

/// Whether `value` is a power of two.
pub fn is_power_of_two(value: u64) -> (r: bool)
    ensures
        r == vstd::arithmetic::power2::is_pow2(value as int),
{
    reveal(vstd::arithmetic::power2::is_pow2);
    if value == 0 {
        return false;
    }
    let mut rest: u64 = value;
    while rest % 2 == 0
        invariant
            rest > 0,
            vstd::arithmetic::power2::is_pow2(rest as int) == vstd::arithmetic::power2::is_pow2(
                value as int,
            ),
        decreases rest,
    {
        reveal(vstd::arithmetic::power2::is_pow2);
        rest = rest / 2;
    }
    rest == 1
}

/// Moves `addr` by `offset`, modulo the size of the address space.
pub fn rebase(addr: u64, offset: i64) -> (r: u64)
    ensures
        r == rebased(addr, offset),
{
    let r: u64 = addr.wrapping_add_signed(offset);
    proof {
        let sum = addr + offset;
        let n = address_space_size();
        if sum < 0 {
            vstd::arithmetic::div_mod::lemma_fundamental_div_mod_converse(sum, n, -1, sum + n);
        } else if sum >= n {
            vstd::arithmetic::div_mod::lemma_fundamental_div_mod_converse(sum, n, 1, sum - n);
        } else {
            vstd::arithmetic::div_mod::lemma_fundamental_div_mod_converse(sum, n, 0, sum);
        }
    }
    r
}

/// Moves `addr` up by `offset`, modulo the size of the address space.
pub fn wrapping_sum(addr: u64, offset: u64) -> (r: u64)
    ensures
        r == wrapped_sum(addr, offset as int),
{
    let r: u64 = addr.wrapping_add(offset);
    proof {
        let sum = addr + offset;
        let n = address_space_size();
        if sum >= n {
            vstd::arithmetic::div_mod::lemma_fundamental_div_mod_converse(sum, n, 1, sum - n);
        } else {
            vstd::arithmetic::div_mod::lemma_fundamental_div_mod_converse(sum, n, 0, sum);
        }
    }
    r
}

/// Reads a 64-bit word as a two's complement number.
pub fn to_signed(value: u64) -> (r: i64)
    ensures
        r == signed(value),
{
    if value < 0x8000_0000_0000_0000 {
        value as i64
    } else {
        -((u64::MAX - value) as i64) - 1
    }
}

/// The little-endian value of eight bytes.
pub open spec fn le_value(bytes: Seq<u8>) -> u64 {
    (bytes[0] + 0x100 * bytes[1] + 0x1_0000 * bytes[2] + 0x100_0000 * bytes[3] + 0x1_0000_0000
        * bytes[4] + 0x100_0000_0000 * bytes[5] + 0x1_0000_0000_0000 * bytes[6]
        + 0x100_0000_0000_0000 * bytes[7]) as u64
}

/// The eight bytes of `value`, least significant first.
pub open spec fn le_bytes(value: u64) -> Seq<u8> {
    seq![
        (value % 0x100) as u8,
        (value / 0x100 % 0x100) as u8,
        (value / 0x1_0000 % 0x100) as u8,
        (value / 0x100_0000 % 0x100) as u8,
        (value / 0x1_0000_0000 % 0x100) as u8,
        (value / 0x100_0000_0000 % 0x100) as u8,
        (value / 0x1_0000_0000_0000 % 0x100) as u8,
        (value / 0x100_0000_0000_0000) as u8,
    ]
}

/// Reads eight bytes, least significant first.
pub fn u64_from_le(bytes: &[u8; 8]) -> (r: u64)
    ensures
        r == le_value(bytes@),
{
    let low: u64 = bytes[0] as u64 + 0x100 * (bytes[1] as u64) + 0x1_0000 * (bytes[2] as u64)
        + 0x100_0000 * (bytes[3] as u64);
    let high: u64 = bytes[4] as u64 + 0x100 * (bytes[5] as u64) + 0x1_0000 * (bytes[6] as u64)
        + 0x100_0000 * (bytes[7] as u64);
    low + 0x1_0000_0000 * high
}

/// Writes out the eight bytes of `value`, least significant first.
pub fn u64_to_le(value: u64) -> (r: [u8; 8])
    ensures
        r@ == le_bytes(value),
{
    let r: [u8; 8] = [
        (value % 0x100) as u8,
        (value / 0x100 % 0x100) as u8,
        (value / 0x1_0000 % 0x100) as u8,
        (value / 0x100_0000 % 0x100) as u8,
        (value / 0x1_0000_0000 % 0x100) as u8,
        (value / 0x100_0000_0000 % 0x100) as u8,
        (value / 0x1_0000_0000_0000 % 0x100) as u8,
        (value / 0x100_0000_0000_0000) as u8,
    ];
    assert(r@ =~= le_bytes(value));
    r
}

/// What is written as eight bytes is read back as the same word.
pub proof fn lemma_le_round_trip(value: u64)
    ensures
        le_value(le_bytes(value)) == value,
        le_bytes(value).len() == 8,
{
    let b0 = value % 0x100;
    let b1 = value / 0x100 % 0x100;
    let b2 = value / 0x1_0000 % 0x100;
    let b3 = value / 0x100_0000 % 0x100;
    let b4 = value / 0x1_0000_0000 % 0x100;
    let b5 = value / 0x100_0000_0000 % 0x100;
    let b6 = value / 0x1_0000_0000_0000 % 0x100;
    let b7 = value / 0x100_0000_0000_0000;
    let low = value % 0x1_0000_0000;
    let high = value / 0x1_0000_0000;
    assert(value == low + 0x1_0000_0000 * high);
    assert(low == b0 + 0x100 * b1 + 0x1_0000 * b2 + 0x100_0000 * b3) by (bit_vector)
        requires
            low == value % 0x1_0000_0000,
            b0 == value % 0x100,
            b1 == value / 0x100 % 0x100,
            b2 == value / 0x1_0000 % 0x100,
            b3 == value / 0x100_0000 % 0x100,
    ;
    assert(high == b4 + 0x100 * b5 + 0x1_0000 * b6 + 0x100_0000 * b7) by (bit_vector)
        requires
            high == value / 0x1_0000_0000,
            b4 == value / 0x1_0000_0000 % 0x100,
            b5 == value / 0x100_0000_0000 % 0x100,
            b6 == value / 0x1_0000_0000_0000 % 0x100,
            b7 == value / 0x100_0000_0000_0000,
    ;
    assert(b7 < 0x100);
    let bytes = le_bytes(value);
    assert(bytes[0] == b0 && bytes[1] == b1 && bytes[2] == b2 && bytes[3] == b3);
    assert(bytes[4] == b4 && bytes[5] == b5 && bytes[6] == b6 && bytes[7] == b7);
}

/// Rounding down gives a multiple less than one step below the value.
pub proof fn lemma_floor_facts(value: int, alignment: int)
    requires
        alignment > 0,
    ensures
        floor_to(value, alignment) <= value < floor_to(value, alignment) + alignment,
        floor_to(value, alignment) % alignment == 0,
        value >= 0 ==> floor_to(value, alignment) >= 0,
        value % alignment == 0 ==> floor_to(value, alignment) == value,
{
    let q = value / alignment;
    vstd::arithmetic::div_mod::lemma_fundamental_div_mod(value, alignment);
    assert(floor_to(value, alignment) == alignment * q);
    vstd::arithmetic::mul::lemma_mul_is_commutative(alignment, q);
    vstd::arithmetic::div_mod::lemma_mod_multiples_basic(q, alignment);
    if value >= 0 {
        assert(q >= 0) by {
            vstd::arithmetic::div_mod::lemma_div_pos_is_pos(value, alignment);
        }
        assert(alignment * q >= 0) by (nonlinear_arith)
            requires
                alignment > 0,
                q >= 0,
        ;
    }
}

/// Rounding up gives a multiple less than one step above the value.
pub proof fn lemma_ceil_facts(value: int, alignment: int)
    requires
        alignment > 0,
    ensures
        value <= ceil_to(value, alignment) < value + alignment,
        ceil_to(value, alignment) % alignment == 0,
        value % alignment == 0 ==> ceil_to(value, alignment) == value,
{
    lemma_floor_facts(value, alignment);
    if value % alignment != 0 {
        vstd::arithmetic::div_mod::lemma_mod_add_multiples_vanish(
            floor_to(value, alignment),
            alignment,
        );
    }
}

/// Rounding down is dividing and multiplying.
proof fn lemma_floor_by_division(value: int, alignment: int)
    requires
        alignment > 0,
        value >= 0,
    ensures
        value / alignment * alignment == floor_to(value, alignment),
        value / alignment >= 0,
{
    vstd::arithmetic::div_mod::lemma_fundamental_div_mod(value, alignment);
    vstd::arithmetic::mul::lemma_mul_is_commutative(alignment, value / alignment);
    vstd::arithmetic::div_mod::lemma_div_pos_is_pos(value, alignment);
}

/// Rounding up is rounding down one step less one higher.
proof fn lemma_ceil_by_division(value: int, alignment: int)
    requires
        alignment > 0,
        value >= 0,
    ensures
        floor_to(value + alignment - 1, alignment) == ceil_to(value, alignment),
{
    lemma_ceil_facts(value, alignment);
    lemma_floor_facts(value + alignment - 1, alignment);
    lemma_multiples_apart(
        floor_to(value + alignment - 1, alignment),
        ceil_to(value, alignment),
        alignment,
    );
}

/// Two multiples of `alignment` that are less than `alignment` apart are equal.
pub proof fn lemma_multiples_apart(a: int, b: int, alignment: int)
    requires
        alignment > 0,
        a % alignment == 0,
        b % alignment == 0,
        a - b < alignment,
        b - a < alignment,
    ensures
        a == b,
{
    vstd::arithmetic::div_mod::lemma_fundamental_div_mod(a, alignment);
    vstd::arithmetic::div_mod::lemma_fundamental_div_mod(b, alignment);
    let p = a / alignment;
    let q = b / alignment;
    assert(p == q) by (nonlinear_arith)
        requires
            alignment > 0,
            alignment * p - alignment * q < alignment,
            alignment * q - alignment * p < alignment,
    ;
}

/// The sum and the difference of two multiples are multiples.
pub proof fn lemma_multiples_add(a: int, b: int, alignment: int)
    requires
        alignment > 0,
        a % alignment == 0,
        b % alignment == 0,
    ensures
        (a + b) % alignment == 0,
        (a - b) % alignment == 0,
{
    vstd::arithmetic::div_mod::lemma_fundamental_div_mod(a, alignment);
    vstd::arithmetic::div_mod::lemma_fundamental_div_mod(b, alignment);
    let p = a / alignment;
    let q = b / alignment;
    assert(a + b == (p + q) * alignment && a - b == (p - q) * alignment) by (nonlinear_arith)
        requires
            a == alignment * p,
            b == alignment * q,
    ;
    vstd::arithmetic::div_mod::lemma_mod_multiples_basic(p + q, alignment);
    vstd::arithmetic::div_mod::lemma_mod_multiples_basic(p - q, alignment);
}

/// A multiple of a multiple is a multiple.
pub proof fn lemma_multiples_chain(a: int, b: int, c: int)
    requires
        b > 0,
        c > 0,
        a % b == 0,
        b % c == 0,
    ensures
        a % c == 0,
{
    vstd::arithmetic::div_mod::lemma_fundamental_div_mod(a, b);
    vstd::arithmetic::div_mod::lemma_fundamental_div_mod(b, c);
    let p = a / b;
    let q = b / c;
    assert(a == (p * q) * c) by (nonlinear_arith)
        requires
            a == b * p,
            b == c * q,
    ;
    vstd::arithmetic::div_mod::lemma_mod_multiples_basic(p * q, c);
}

/// The smaller of two powers of two divides the larger.
pub proof fn lemma_powers_divide(a: int, b: int)
    requires
        vstd::arithmetic::power2::is_pow2(a),
        vstd::arithmetic::power2::is_pow2(b),
        a <= b,
    ensures
        a > 0,
        b % a == 0,
{
    vstd::arithmetic::power2::is_pow2_equiv(a);
    vstd::arithmetic::power2::is_pow2_equiv(b);
    let i = choose|i: nat| vstd::arithmetic::power::pow(2, i) == a;
    let j = choose|j: nat| vstd::arithmetic::power::pow(2, j) == b;
    vstd::arithmetic::power2::lemma_pow2(i);
    vstd::arithmetic::power2::lemma_pow2(j);
    vstd::arithmetic::power2::lemma_pow2_pos(i);
    if j < i {
        vstd::arithmetic::power2::lemma_pow2_strictly_increases(j, i);
    }
    vstd::arithmetic::power2::lemma_pow2_adds(i, (j - i) as nat);
    let factor = vstd::arithmetic::power2::pow2((j - i) as nat) as int;
    vstd::arithmetic::mul::lemma_mul_is_commutative(a, factor);
    vstd::arithmetic::div_mod::lemma_mod_multiples_basic(factor, a);
}

/// A block of a power of two bytes that starts at a multiple of its size ends inside the
/// address space.
pub proof fn lemma_aligned_block_fits(start: u64, size: u64)
    requires
        vstd::arithmetic::power2::is_pow2(size as int),
        start as int % size as int == 0,
    ensures
        start + size <= address_space_size(),
{
    let n = address_space_size();
    vstd::arithmetic::power2::lemma2_to64_rest();
    vstd::arithmetic::power2::lemma_pow2_adds(32, 32);
    assert(vstd::arithmetic::power2::is_pow2(n)) by {
        vstd::arithmetic::power2::is_pow2_equiv(n);
        vstd::arithmetic::power2::lemma_pow2(64);
        vstd::arithmetic::power2::lemma2_to64();
        assert(vstd::arithmetic::power::pow(2, 64) == n);
    }
    lemma_powers_divide(size as int, n);
    vstd::arithmetic::div_mod::lemma_fundamental_div_mod(start as int, size as int);
    vstd::arithmetic::div_mod::lemma_fundamental_div_mod(n, size as int);
    let p = start as int / size as int;
    let q = n / size as int;
    assert(size * p + size <= size * q) by (nonlinear_arith)
        requires
            size > 0,
            size * p < size * q,
    ;
}

} // verus!
