//! Static prefix-code construction over byte sequences: the alphabet of a
//! sequence, fixed-length, Shannon-split and Huffman codebooks, and the
//! encoding of a sequence under a codebook.
use vstd::prelude::*;

pub mod alphabet;
pub mod codebook;
pub mod encoder;
pub mod fixed;
pub mod huffman;
pub mod shannon;
pub mod stats;

use crate::fixed::fixed_codebook;
use crate::huffman::huffman_codebook;
use crate::shannon::shannon_codebook;

verus! {

/// For a one-symbol alphabet the Shannon and Huffman codebooks give the sole
/// symbol the empty codeword, and the fixed-length codebook gives it `"0"`.
pub proof fn lemma_single_symbol(a: Seq<(u8, u8)>)
    requires
        a.len() == 1,
    ensures
        huffman_codebook(a) == seq![Seq::<char>::empty()],
        shannon_codebook(1) == seq![Seq::<char>::empty()],
        fixed_codebook(1) == seq![seq!['0']],
{
    reveal_with_fuel(crate::stats::bits_needed, 2);
    assert(huffman_codebook(a) =~= seq![Seq::<char>::empty()]);
    assert(shannon_codebook(1) =~= seq![Seq::<char>::empty()]);
    assert(crate::fixed::padded_binary(0, 1) =~= seq!['0']);
    assert(fixed_codebook(1) =~= seq![seq!['0']]);
}

} // verus!
