use vstd::prelude::*;

verus! {

/// Number of binary digits needed to write `v`, at least one.
pub open spec fn bits_needed(v: nat) -> nat
    decreases v,
{
    if v < 2 {
        1
    } else {
        1 + bits_needed(v / 2)
    }
}

/// Position of the highest set bit of `value` (1-based), or 1 for zero.
pub fn calc_minimum_binary_code(value: u8) -> (r: u32)
    ensures
        r as nat == bits_needed(value as nat),
{
    reveal_with_fuel(bits_needed, 9);
    if value & 0b1000_0000 != 0 {
        assert(value >= 128) by (bit_vector)
            requires value & 0b1000_0000 != 0;
        return 8;
    }
    assert(value < 128) by (bit_vector)
        requires value & 0b1000_0000 == 0;
    if value & 0b0100_0000 != 0 {
        assert(value >= 64) by (bit_vector)
            requires value & 0b0100_0000 != 0, value < 128;
        return 7;
    }
    assert(value < 64) by (bit_vector)
        requires value & 0b0100_0000 == 0, value < 128;
    if value & 0b0010_0000 != 0 {
        assert(value >= 32) by (bit_vector)
            requires value & 0b0010_0000 != 0, value < 64;
        return 6;
    }
    assert(value < 32) by (bit_vector)
        requires value & 0b0010_0000 == 0, value < 64;
    if value & 0b0001_0000 != 0 {
        assert(value >= 16) by (bit_vector)
            requires value & 0b0001_0000 != 0, value < 32;
        return 5;
    }
    assert(value < 16) by (bit_vector)
        requires value & 0b0001_0000 == 0, value < 32;
    if value & 0b0000_1000 != 0 {
        assert(value >= 8) by (bit_vector)
            requires value & 0b0000_1000 != 0, value < 16;
        return 4;
    }
    assert(value < 8) by (bit_vector)
        requires value & 0b0000_1000 == 0, value < 16;
    if value & 0b0000_0100 != 0 {
        assert(value >= 4) by (bit_vector)
            requires value & 0b0000_0100 != 0, value < 8;
        return 3;
    }
    assert(value < 4) by (bit_vector)
        requires value & 0b0000_0100 == 0, value < 8;
    if value & 0b0000_0010 != 0 {
        assert(value >= 2) by (bit_vector)
            requires value & 0b0000_0010 != 0, value < 4;
        return 2;
    }
    assert(value < 2) by (bit_vector)
        requires value & 0b0000_0010 == 0, value < 4;
    1
}


/// Sum of `bits_needed(i as u8)` over the indices `i` below `n`.
pub open spec fn min_code_total(n: nat) -> nat
    decreases n,
{
    if n == 0 {
        0
    } else {
        min_code_total((n - 1) as nat) + bits_needed((n - 1) as nat % 256)
    }
}

proof fn lemma_min_code_total_monotone(i: nat, n: nat)
    requires
        i <= n,
    ensures
        min_code_total(i) <= min_code_total(n),
    decreases n - i,
{
    if i < n {
        lemma_min_code_total_monotone(i, (n - 1) as nat);
    }
}

/// The sum, over the alphabet indices `i`, of the bits needed for `i as u8`:
/// the numerator of the average fixed code length.
pub fn min_binary_code_total(alphabet: &[(u8, u8)]) -> (r: u32)
    requires
        min_code_total(alphabet@.len()) <= u32::MAX,
    ensures
        r as nat == min_code_total(alphabet@.len()),
{
    let mut sum: u32 = 0;
    let mut i: usize = 0;
    while i < alphabet.len()
        invariant
            i <= alphabet@.len(),
            min_code_total(alphabet@.len()) <= u32::MAX,
            sum as nat == min_code_total(i as nat),
        decreases alphabet@.len() - i,
    {
        proof {
            lemma_min_code_total_monotone((i + 1) as nat, alphabet@.len());
        }
        let byte = (i % 256) as u8;
        sum = sum + calc_minimum_binary_code(byte);
        i = i + 1;
    }
    sum
}

} // verus!
