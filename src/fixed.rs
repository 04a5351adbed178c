use vstd::prelude::*;

use crate::codebook::codewords;
use crate::stats::{bits_needed, calc_minimum_binary_code};

verus! {

/// The binary digit for `b`.
pub open spec fn digit(b: nat) -> char {
    if b == 0 {
        '0'
    } else {
        '1'
    }
}

/// The binary numeral of `v`, most significant digit first, without leading zeros.
pub open spec fn binary_of(v: nat) -> Seq<char>
    decreases v,
{
    if v < 2 {
        seq![digit(v)]
    } else {
        binary_of(v / 2).push(digit(v % 2))
    }
}

/// The binary numeral of `v`, left-padded with zeros to `width` digits.
pub open spec fn padded_binary(v: nat, width: nat) -> Seq<char> {
    let b = binary_of(v);
    let pad = if width > b.len() { (width - b.len()) as nat } else { 0 };
    Seq::new(pad, |_i: int| '0') + b
}

/// The fixed-length codebook of an alphabet of length `n`: index `i` gets
/// its numeral padded to the width needed for `n as u8`.
pub open spec fn fixed_codebook(n: nat) -> Seq<Seq<char>> {
    Seq::new(n, |i: int| padded_binary(i as nat, bits_needed(n % 256)))
}

proof fn lemma_binary_len(v: nat)
    ensures
        binary_of(v).len() == bits_needed(v),
    decreases v,
{
    if v >= 2 {
        lemma_binary_len(v / 2);
    }
}

fn digit_count(value: usize) -> (r: usize)
    ensures
        r as nat == bits_needed(value as nat),
{
    let mut n: usize = 1;
    let mut t: usize = value;
    while t >= 2
        invariant
            1 <= n,
            n + t <= value + 1,
            n as nat - 1 + bits_needed(t as nat) == bits_needed(value as nat),
        decreases t,
    {
        t = t / 2;
        n = n + 1;
    }
    n
}

fn append_binary(s: &mut String, value: usize)
    ensures
        final(s)@ == old(s)@ + binary_of(value as nat),
    decreases value,
{
    proof {
        reveal_strlit("0");
        reveal_strlit("1");
    }
    if value >= 2 {
        append_binary(s, value / 2);
        if value % 2 == 0 {
            s.append("0");
        } else {
            s.append("1");
        }
        assert(final(s)@ =~= old(s)@ + binary_of(value as nat));
    } else if value == 0 {
        s.append("0");
        assert(final(s)@ =~= old(s)@ + binary_of(value as nat));
    } else {
        s.append("1");
        assert(final(s)@ =~= old(s)@ + binary_of(value as nat));
    }
}

fn padded_code(value: usize, width: u32) -> (r: String)
    ensures
        r@ == padded_binary(value as nat, width as nat),
{
    proof {
        reveal_strlit("0");
        lemma_binary_len(value as nat);
    }
    let digits = digit_count(value);
    let w = width as usize;
    let mut s = String::new();
    let mut k: usize = digits;
    while k < w
        invariant
            digits <= k,
            k <= w || k == digits,
            s@ =~= Seq::new((k - digits) as nat, |_i: int| '0'),
        decreases w - k,
    {
        proof {
            reveal_strlit("0");
        }
        s.append("0");
        k = k + 1;
    }
    append_binary(&mut s, value);
    s
}

/// Gives each alphabet index its binary numeral, zero-padded to the number of
/// bits needed for the alphabet length taken as a byte.
pub fn make_simple_dict(alphabet: &[(u8, u8)]) -> (r: Vec<String>)
    ensures
        codewords(r@) == fixed_codebook(alphabet@.len()),
{
    let len = calc_minimum_binary_code((alphabet.len() % 256) as u8);
    let mut result: Vec<String> = Vec::new();
    let mut i: usize = 0;
    while i < alphabet.len()
        invariant
            i <= alphabet@.len(),
            len as nat == bits_needed(alphabet@.len() % 256),
            result@.len() == i,
            codewords(result@) =~= fixed_codebook(alphabet@.len()).take(i as int),
        decreases alphabet@.len() - i,
    {
        let code = padded_code(i, len);
        let ghost before = result@;
        result.push(code);
        proof {
            let n = alphabet@.len();
            assert forall|j: int| 0 <= j <= i implies #[trigger] codewords(result@)[j] == fixed_codebook(n)[j] by {
                if j < i {
                    assert(result@[j] == before[j]);
                    assert(codewords(before)[j] == fixed_codebook(n).take(i as int)[j]);
                }
            }
        }
        i = i + 1;
        assert(codewords(result@) =~= fixed_codebook(alphabet@.len()).take(i as int));
    }
    assert(fixed_codebook(alphabet@.len()).take(i as int) =~= fixed_codebook(alphabet@.len()));
    result
}

} // verus!
