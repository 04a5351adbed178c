use vstd::prelude::*;

use vstd::string::{is_ascii, StringSliceAdditionalSpecFns};

use crate::codebook::codewords;

verus! {

/// `v` is the symbol of some alphabet entry.
pub open spec fn occurs(a: Seq<(u8, u8)>, v: u8) -> bool {
    exists|i: int| 0 <= i < a.len() && a[i].0 == v
}

/// The index of the first alphabet entry whose symbol is `v`.
pub open spec fn first_index(a: Seq<(u8, u8)>, v: u8) -> int {
    choose|i: int| 0 <= i < a.len() && a[i].0 == v && forall|j: int| 0 <= j < i ==> a[j].0 != v
}

/// Every character is a binary digit.
pub open spec fn is_bit_string(s: Seq<char>) -> bool {
    forall|k: int| 0 <= k < s.len() ==> #[trigger] s[k] == '0' || s[k] == '1'
}

/// Each symbol of `s` is in the alphabet, at an index that has a codeword.
pub open spec fn encodable(s: Seq<u8>, d: Seq<Seq<char>>, a: Seq<(u8, u8)>) -> bool {
    forall|k: int| 0 <= k < s.len() ==> occurs(a, #[trigger] s[k]) && first_index(a, s[k]) < d.len()
}

/// The codewords of the symbols of `s`, concatenated in order.
pub open spec fn encoding(s: Seq<u8>, d: Seq<Seq<char>>, a: Seq<(u8, u8)>) -> Seq<char>
    decreases s.len(),
{
    if s.len() == 0 {
        Seq::empty()
    } else {
        encoding(s.drop_last(), d, a) + d[first_index(a, s.last())]
    }
}

proof fn lemma_encoding_prefix(s: Seq<u8>, d: Seq<Seq<char>>, a: Seq<(u8, u8)>, i: int)
    requires
        0 <= i <= s.len(),
    ensures
        encoding(s.take(i), d, a).len() <= encoding(s, d, a).len(),
    decreases s.len() - i,
{
    if i < s.len() {
        lemma_encoding_prefix(s, d, a, i + 1);
        assert(s.take(i + 1).drop_last() =~= s.take(i));
    } else {
        assert(s.take(i) =~= s);
    }
}

proof fn lemma_encoding_step(s: Seq<u8>, d: Seq<Seq<char>>, a: Seq<(u8, u8)>, i: int)
    requires
        0 <= i < s.len(),
    ensures
        encoding(s.take(i + 1), d, a) == encoding(s.take(i), d, a) + d[first_index(a, s[i])],
        encoding(s.take(i + 1), d, a).len() <= encoding(s, d, a).len(),
{
    lemma_encoding_prefix(s, d, a, i + 1);
    assert(s.take(i + 1).drop_last() =~= s.take(i));
}

proof fn lemma_bit_string_bytes(code: &str)
    requires
        is_bit_string(code@),
    ensures
        code.spec_bytes().len() == code@.len(),
{
    assert(is_ascii(code));
}

/// The index of the first alphabet entry whose symbol is `value`.
pub fn lookup_index(alphabet: &[(u8, u8)], value: u8) -> (r: usize)
    requires
        occurs(alphabet@, value),
    ensures
        r as int == first_index(alphabet@, value),
        r < alphabet@.len(),
        alphabet@[r as int].0 == value,
{
    let mut i: usize = 0;
    while i < alphabet.len()
        invariant
            i <= alphabet@.len(),
            occurs(alphabet@, value),
            forall|j: int| 0 <= j < i ==> alphabet@[j].0 != value,
        decreases alphabet@.len() - i,
    {
        let e = alphabet[i].0;
        if e == value {
            let ghost c = first_index(alphabet@, value);
            assert(0 <= i < alphabet@.len() && alphabet@[i as int].0 == value && forall|j: int|
                0 <= j < i ==> alphabet@[j].0 != value);
            assert(c == i as int) by {
                if c < i {
                } else if c > i {
                    assert(alphabet@[i as int].0 != value);
                }
            }
            return i;
        }
        i = i + 1;
    }
    proof {
        let w = choose|w: int| 0 <= w < alphabet@.len() && alphabet@[w].0 == value;
        assert(alphabet@[w].0 != value);
    }
    0
}

/// Concatenates the codewords of the symbols of `sequence`; returns the
/// stream and its length in bits.
pub fn encode_sequence(sequence: &[u8], dictionary: &[String], alphabet: &[(u8, u8)]) -> (r: (String, u32))
    requires
        encodable(sequence@, codewords(dictionary@), alphabet@),
        forall|i: int| 0 <= i < dictionary@.len() ==> is_bit_string(#[trigger] dictionary@[i]@),
        encoding(sequence@, codewords(dictionary@), alphabet@).len() <= u32::MAX,
    ensures
        r.0@ == encoding(sequence@, codewords(dictionary@), alphabet@),
        r.1 as nat == r.0@.len(),
{
    let ghost d = codewords(dictionary@);
    let mut stream = String::new();
    let mut counter: u32 = 0;
    let mut i: usize = 0;
    while i < sequence.len()
        invariant
            i <= sequence@.len(),
            encodable(sequence@, d, alphabet@),
            d == codewords(dictionary@),
            forall|k: int| 0 <= k < dictionary@.len() ==> is_bit_string(#[trigger] dictionary@[k]@),
            encoding(sequence@, d, alphabet@).len() <= u32::MAX,
            stream@ == encoding(sequence@.take(i as int), d, alphabet@),
            counter as nat == stream@.len(),
        decreases sequence@.len() - i,
    {
        let x = sequence[i];
        assert(occurs(alphabet@, sequence@[i as int]));
        assert(first_index(alphabet@, x) < d.len());
        let index = lookup_index(alphabet, x);
        let code = dictionary[index].as_str();
        proof {
            lemma_bit_string_bytes(code);
            lemma_encoding_step(sequence@, d, alphabet@, i as int);
        }
        stream.append(code);
        counter = counter + code.len() as u32;
        i = i + 1;
    }
    assert(sequence@.take(i as int) =~= sequence@);
    (stream, counter)
}

} // verus!
