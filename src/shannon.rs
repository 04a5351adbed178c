use vstd::prelude::*;

use crate::codebook::{codewords, is_prefix, lemma_prefix_split, prefix_free};

verus! {

/// The codeword of index `k` within the range `[l, r]`: the range splits at
/// `m = (l + r) / 2`; the left half `[l, m]` appends `'0'`, the right half
/// `[m + 1, r]` appends `'1'`, down to a single index.
pub open spec fn shannon_code(l: nat, r: nat, k: nat) -> Seq<char>
    decreases r - l,
{
    if l >= r {
        Seq::empty()
    } else {
        let m = (l + r) / 2;
        if k <= m {
            seq!['0'] + shannon_code(l, m, k)
        } else {
            seq!['1'] + shannon_code((m + 1) as nat, r, k)
        }
    }
}

/// The Shannon codebook of an alphabet of length `n`.
pub open spec fn shannon_codebook(n: nat) -> Seq<Seq<char>> {
    Seq::new(n, |k: int| shannon_code(0, (n - 1) as nat, k as nat))
}

/// Codewords of two different indices of one range are never prefixes of one another.
pub proof fn lemma_shannon_code_prefix_free(l: nat, r: nat, i: nat, j: nat)
    requires
        l <= i <= r,
        l <= j <= r,
        i != j,
    ensures
        !is_prefix(shannon_code(l, r, i), shannon_code(l, r, j)),
    decreases r - l,
{
    let m = (l + r) / 2;
    let m1 = (m + 1) as nat;
    if i <= m && j <= m {
        lemma_shannon_code_prefix_free(l, m, i, j);
        lemma_prefix_split('0', '0', shannon_code(l, m, i), shannon_code(l, m, j));
    } else if i <= m {
        lemma_prefix_split('0', '1', shannon_code(l, m, i), shannon_code(m1, r, j));
    } else if j <= m {
        lemma_prefix_split('1', '0', shannon_code(m1, r, i), shannon_code(l, m, j));
    } else {
        lemma_shannon_code_prefix_free(m1, r, i, j);
        lemma_prefix_split('1', '1', shannon_code(m1, r, i), shannon_code(m1, r, j));
    }
}

/// Every Shannon codebook is prefix-free.
pub proof fn lemma_shannon_prefix_free(n: nat)
    ensures
        prefix_free(shannon_codebook(n)),
{
    let c = shannon_codebook(n);
    assert forall|i: int, j: int|
        0 <= i < c.len() && 0 <= j < c.len() && i != j implies !is_prefix(#[trigger] c[i], #[trigger] c[j]) by {
        lemma_shannon_code_prefix_free(0, (n - 1) as nat, i as nat, j as nat);
    }
}

/// Assigns to each index `k` of `[l, r]` the codeword `current_prefix`
/// followed by its path below this range; an empty range (`l > r`) writes nothing.
pub fn build_shennon_tree(l: usize, r: usize, current_prefix: &str, result: &mut Vec<String>)
    requires
        l <= r ==> r < old(result).len(),
    ensures
        final(result).len() == old(result).len(),
        forall|k: usize|
            k < old(result).len() ==> (#[trigger] final(result)@[k as int])@ == if l <= k <= r {
                current_prefix@ + shannon_code(l as nat, r as nat, k as nat)
            } else {
                old(result)@[k as int]@
            },
    decreases r - l,
{
    if l == r {
        result.set(l, current_prefix.to_owned());
        assert(current_prefix@ + Seq::<char>::empty() =~= current_prefix@);
        return;
    }
    if l > r {
        return;
    }
    let m = l + (r - l) / 2;
    assert(m == (l + r) / 2);
    proof {
        reveal_strlit("0");
        reveal_strlit("1");
    }
    let left_prefix = current_prefix.to_owned().concat("0");
    build_shennon_tree(l, m, left_prefix.as_str(), result);
    let right_prefix = current_prefix.to_owned().concat("1");
    build_shennon_tree(m + 1, r, right_prefix.as_str(), result);
    assert forall|k: usize| k < old(result).len() implies (#[trigger] result@[k as int])@ == if l <= k <= r {
        current_prefix@ + shannon_code(l as nat, r as nat, k as nat)
    } else {
        old(result)@[k as int]@
    } by {
        if l <= k <= m {
            assert(left_prefix@ + shannon_code(l as nat, m as nat, k as nat) =~= current_prefix@ + (seq!['0']
                + shannon_code(l as nat, m as nat, k as nat)));
        } else if m < k <= r {
            assert(right_prefix@ + shannon_code((m + 1) as nat, r as nat, k as nat) =~= current_prefix@ + (
            seq!['1'] + shannon_code((m + 1) as nat, r as nat, k as nat)));
        }
    }
}

/// Splits the index range of the alphabet recursively and returns one codeword per index.
pub fn make_shennon_dict(alphabet: &[(u8, u8)]) -> (r: Vec<String>)
    requires
        alphabet@.len() >= 1,
    ensures
        codewords(r@) == shannon_codebook(alphabet@.len()),
        prefix_free(codewords(r@)),
{
    proof {
        lemma_shannon_prefix_free(alphabet@.len());
    }
    let mut result: Vec<String> = Vec::new();
    let mut j: usize = 0;
    while j < alphabet.len()
        invariant
            j <= alphabet@.len(),
            result@.len() == j,
        decreases alphabet@.len() - j,
    {
        result.push(String::new());
        j = j + 1;
    }
    let root = String::new();
    build_shennon_tree(0, alphabet.len() - 1, root.as_str(), &mut result);
    assert(codewords(result@) =~= shannon_codebook(alphabet@.len())) by {
        assert forall|k: int| 0 <= k < alphabet@.len() implies #[trigger] codewords(result@)[k]
            == shannon_codebook(alphabet@.len())[k] by {
            assert(result@[(k as usize) as int] == result@[k]);
            assert(Seq::<char>::empty() + shannon_code(0, (alphabet@.len() - 1) as nat, k as nat)
                =~= shannon_code(0, (alphabet@.len() - 1) as nat, k as nat));
        }
    }
    result
}

} // verus!
