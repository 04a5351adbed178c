use vstd::prelude::*;

verus! {

/// Number of occurrences of `v` in `s`.
pub open spec fn count(s: Seq<u8>, v: int) -> nat
    decreases s.len(),
{
    if s.len() == 0 {
        0
    } else {
        count(s.drop_last(), v) + if s.last() as int == v { 1nat } else { 0nat }
    }
}

/// Alphabet entries for the symbol values below `k`, ascending by value.
pub open spec fn alphabet_below(s: Seq<u8>, k: nat) -> Seq<(u8, u8)>
    decreases k,
{
    if k == 0 {
        Seq::empty()
    } else {
        let v = (k - 1) as nat;
        let c = count(s, v as int);
        if c > 0 {
            alphabet_below(s, v).push((v as u8, c as u8))
        } else {
            alphabet_below(s, v)
        }
    }
}

/// The alphabet of a source sequence: each byte value that occurs, with its
/// number of occurrences, ascending by value.
pub open spec fn alphabet_of(s: Seq<u8>) -> Seq<(u8, u8)> {
    alphabet_below(s, 256)
}

/// No symbol occurs more often than a byte counter can hold.
pub open spec fn counts_fit(s: Seq<u8>) -> bool {
    forall|v: int| 0 <= v < 256 ==> #[trigger] count(s, v) <= 255
}

/// Sum of the frequencies of an alphabet.
pub open spec fn total_frequency(a: Seq<(u8, u8)>) -> nat
    decreases a.len(),
{
    if a.len() == 0 {
        0
    } else {
        total_frequency(a.drop_last()) + a.last().1 as nat
    }
}

/// Sum of the counts of the values below `k`.
spec fn count_below(s: Seq<u8>, k: nat) -> nat
    decreases k,
{
    if k == 0 {
        0
    } else {
        count_below(s, (k - 1) as nat) + count(s, k - 1)
    }
}

proof fn lemma_count_prefix(s: Seq<u8>, i: int, v: int)
    requires
        0 <= i <= s.len(),
    ensures
        count(s.take(i), v) <= count(s, v),
    decreases s.len() - i,
{
    if i < s.len() {
        lemma_count_prefix(s, i + 1, v);
        assert(s.take(i + 1).drop_last() =~= s.take(i));
    } else {
        assert(s.take(i) =~= s);
    }
}

proof fn lemma_count_below_push(s: Seq<u8>, x: u8, k: nat)
    ensures
        count_below(s.push(x), k) == count_below(s, k) + if (x as nat) < k { 1nat } else { 0nat },
    decreases k,
{
    if k > 0 {
        lemma_count_below_push(s, x, (k - 1) as nat);
        assert(s.push(x).drop_last() =~= s);
    }
}

proof fn lemma_count_below_all(s: Seq<u8>)
    ensures
        count_below(s, 256) == s.len(),
    decreases s.len(),
{
    reveal_with_fuel(count_below, 1);
    if s.len() > 0 {
        lemma_count_below_all(s.drop_last());
        lemma_count_below_push(s.drop_last(), s.last(), 256);
        assert(s.drop_last().push(s.last()) =~= s);
    } else {
        lemma_count_below_empty(s, 256);
    }
}

proof fn lemma_count_below_empty(s: Seq<u8>, k: nat)
    requires
        s.len() == 0,
    ensures
        count_below(s, k) == 0,
    decreases k,
{
    if k > 0 {
        lemma_count_below_empty(s, (k - 1) as nat);
    }
}

proof fn lemma_total_below(s: Seq<u8>, k: nat)
    requires
        k <= 256,
        counts_fit(s),
    ensures
        total_frequency(alphabet_below(s, k)) == count_below(s, k),
    decreases k,
{
    if k > 0 {
        lemma_total_below(s, (k - 1) as nat);
        let v = k - 1;
        assert(count(s, v) <= 255);
        if count(s, v) > 0 {
            let a = alphabet_below(s, (k - 1) as nat);
            assert(a.push((v as u8, count(s, v) as u8)).drop_last() =~= a);
        }
    }
}

proof fn lemma_count_le_len(s: Seq<u8>, v: int)
    ensures
        count(s, v) <= s.len(),
    decreases s.len(),
{
    if s.len() > 0 {
        lemma_count_le_len(s.drop_last(), v);
    }
}

/// A sequence of at most 255 bytes never overflows a byte counter.
pub proof fn lemma_short_counts_fit(s: Seq<u8>)
    requires
        s.len() <= 255,
    ensures
        counts_fit(s),
{
    assert forall|v: int| 0 <= v < 256 implies #[trigger] count(s, v) <= 255 by {
        lemma_count_le_len(s, v);
    }
}

/// The frequencies of the alphabet of a sequence add up to its length.
pub proof fn lemma_alphabet_total(s: Seq<u8>)
    requires
        counts_fit(s),
    ensures
        total_frequency(alphabet_of(s)) == s.len(),
{
    lemma_total_below(s, 256);
    lemma_count_below_all(s);
}

/// Tallies each byte value of `src` and lists those that occur, with their
/// counts, in ascending order of value.
pub fn make_alphabet(src: &[u8]) -> (r: Vec<(u8, u8)>)
    requires
        counts_fit(src@),
    ensures
        r@ == alphabet_of(src@),
        total_frequency(r@) == src@.len(),
{
    proof {
        lemma_alphabet_total(src@);
    }
    let mut counter: Vec<u8> = Vec::new();
    let mut k: usize = 0;
    while k < 256
        invariant
            k <= 256,
            counter@.len() == k,
            forall|j: int| 0 <= j < k ==> counter@[j] == 0,
        decreases 256 - k,
    {
        counter.push(0);
        k = k + 1;
    }
    let mut i: usize = 0;
    while i < src.len()
        invariant
            i <= src@.len(),
            counter@.len() == 256,
            counts_fit(src@),
            forall|v: int| 0 <= v < 256 ==> counter@[v] as nat == count(#[trigger] src@.take(i as int), v),
        decreases src@.len() - i,
    {
        let x = src[i] as usize;
        proof {
            assert(src@.take(i + 1).drop_last() =~= src@.take(i as int));
            lemma_count_prefix(src@, i + 1, x as int);
            assert(count(src@, x as int) <= 255);
        }
        let c = counter[x];
        counter.set(x, c + 1);
        i = i + 1;
    }
    assert(src@.take(src@.len() as int) =~= src@);
    let mut result: Vec<(u8, u8)> = Vec::new();
    let mut e: usize = 0;
    while e < 256
        invariant
            e <= 256,
            counter@.len() == 256,
            forall|v: int| 0 <= v < 256 ==> counter@[v] as nat == count(src@, v),
            result@ == alphabet_below(src@, e as nat),
        decreases 256 - e,
    {
        if counter[e] > 0 {
            result.push((e as u8, counter[e]));
        }
        e = e + 1;
    }
    result
}

} // verus!
