use vstd::prelude::*;

verus! {

/// `p` is a prefix of `s` (equal sequences included).
pub open spec fn is_prefix(p: Seq<char>, s: Seq<char>) -> bool {
    p.len() <= s.len() && s.subrange(0, p.len() as int) == p
}

/// No codeword of the codebook is a prefix of another one.
pub open spec fn prefix_free(c: Seq<Seq<char>>) -> bool {
    forall|i: int, j: int|
        0 <= i < c.len() && 0 <= j < c.len() && i != j ==> !is_prefix(#[trigger] c[i], #[trigger] c[j])
}

/// The codewords of a codebook as character sequences.
pub open spec fn codewords(d: Seq<String>) -> Seq<Seq<char>> {
    Seq::new(d.len(), |i: int| d[i]@)
}

/// Prefixes that start with different characters are never prefixes of one another.
pub proof fn lemma_prefix_split(x: char, y: char, p: Seq<char>, s: Seq<char>)
    ensures
        x != y ==> !is_prefix(seq![x] + p, seq![y] + s),
        is_prefix(seq![x] + p, seq![x] + s) == is_prefix(p, s),
{
    let a = seq![x] + p;
    let b = seq![y] + s;
    if is_prefix(a, b) {
        assert(b.subrange(0, a.len() as int)[0] == b[0]);
        assert(a[0] == x);
        assert(b[0] == y);
    }
    let c = seq![x] + s;
    if is_prefix(p, s) {
        assert(c.subrange(0, a.len() as int) =~= a);
    }
    if is_prefix(a, c) {
        assert(s.subrange(0, p.len() as int) =~= c.subrange(0, a.len() as int).drop_first());
        assert(a.drop_first() =~= p);
    }
}

} // verus!
