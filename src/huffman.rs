use vstd::prelude::*;
use vstd::multiset::Multiset;

use crate::alphabet::total_frequency;
use crate::codebook::{codewords, is_prefix, lemma_prefix_split, prefix_free};

verus! {

/// A node of a Huffman code tree: an internal node with its weight and two
/// children, or a leaf with its weight and the alphabet index it stands for.
pub enum HaffmanNode {
    Node(u32, Box<HaffmanNode>, Box<HaffmanNode>),
    Leaf(u32, usize),
}

impl HaffmanNode {
    /// The weight stored at this node.
    pub open spec fn spec_weight(&self) -> u32 {
        match self {
            HaffmanNode::Node(w, _, _) => *w,
            HaffmanNode::Leaf(w, _) => *w,
        }
    }

    /// The weight stored at this node.
    pub fn weight(&self) -> (r: u32)
        ensures
            r == self.spec_weight(),
    {
        match self {
            HaffmanNode::Node(w, _, _) => *w,
            HaffmanNode::Leaf(w, _) => *w,
        }
    }
}

/// The alphabet indices at the leaves of a tree, with multiplicity.
pub open spec fn leaf_indices(t: HaffmanNode) -> Multiset<usize>
    decreases t,
{
    match t {
        HaffmanNode::Node(_, l, r) => leaf_indices(*l).add(leaf_indices(*r)),
        HaffmanNode::Leaf(_, i) => Multiset::singleton(i),
    }
}

/// The path from the root to the leaf for index `k`: `'0'` for each step left,
/// `'1'` for each step right. Where `k` stands in both subtrees the right one
/// is taken, as the traversal writes the right subtree last.
pub open spec fn code_of(t: HaffmanNode, k: usize) -> Seq<char>
    decreases t,
{
    match t {
        HaffmanNode::Node(_, l, r) => if leaf_indices(*r).count(k) > 0 {
            seq!['1'] + code_of(*r, k)
        } else {
            seq!['0'] + code_of(*l, k)
        },
        HaffmanNode::Leaf(_, _) => Seq::empty(),
    }
}

/// The leaf indices of every tree of a collection, with multiplicity.
pub open spec fn forest_indices(s: Seq<HaffmanNode>) -> Multiset<usize>
    decreases s.len(),
{
    if s.len() == 0 {
        Multiset::empty()
    } else {
        forest_indices(s.drop_last()).add(leaf_indices(s.last()))
    }
}

/// The sum of the weights of the trees of a collection.
pub open spec fn forest_weight(s: Seq<HaffmanNode>) -> nat
    decreases s.len(),
{
    if s.len() == 0 {
        0
    } else {
        forest_weight(s.drop_last()) + s.last().spec_weight() as nat
    }
}

/// The two nodes picked by one scan of the first `k` weights: the first two
/// start as first and second; a later weight below the second moves the second
/// to first and takes its place; else one below the first replaces the first.
pub open spec fn select_upto(s: Seq<HaffmanNode>, k: nat) -> (int, int)
    decreases k,
{
    if k <= 2 {
        (0, 1)
    } else {
        let (a, b) = select_upto(s, (k - 1) as nat);
        let w = s[k - 1].spec_weight();
        if w < s[b].spec_weight() {
            (b, k - 1)
        } else if w < s[a].spec_weight() {
            (k - 1, b)
        } else {
            (a, b)
        }
    }
}

/// One merge: the two selected nodes leave the collection, and a node owning
/// them (first on the left) with the sum of their weights is appended.
pub open spec fn merge_step(s: Seq<HaffmanNode>) -> Seq<HaffmanNode> {
    let (a, b) = select_upto(s, s.len());
    let rest = s.remove(a).remove(if b > a { b - 1 } else { b });
    rest.push(
        HaffmanNode::Node(
            (s[a].spec_weight() + s[b].spec_weight()) as u32,
            Box::new(s[a]),
            Box::new(s[b]),
        ),
    )
}

/// The tree left once merges have reduced the collection to one node.
pub open spec fn huffman_tree(s: Seq<HaffmanNode>) -> HaffmanNode
    decreases s.len(),
    via huffman_tree_decreases
{
    if s.len() <= 1 {
        s[0]
    } else {
        huffman_tree(merge_step(s))
    }
}

#[via_fn]
proof fn huffman_tree_decreases(s: Seq<HaffmanNode>) {
    if s.len() > 1 {
        lemma_merge_step(s);
    }
}

proof fn lemma_select(s: Seq<HaffmanNode>, k: nat)
    requires
        2 <= k,
    ensures
        0 <= select_upto(s, k).0 < k,
        0 <= select_upto(s, k).1 < k,
        select_upto(s, k).0 != select_upto(s, k).1,
    decreases k,
{
    if k > 2 {
        lemma_select(s, (k - 1) as nat);
    }
}

proof fn lemma_remove(s: Seq<HaffmanNode>, i: int)
    requires
        0 <= i < s.len(),
    ensures
        forest_indices(s) == forest_indices(s.remove(i)).add(leaf_indices(s[i])),
        forest_weight(s) == forest_weight(s.remove(i)) + s[i].spec_weight(),
    decreases s.len(),
{
    if i == s.len() - 1 {
        assert(s.remove(i) =~= s.drop_last());
    } else {
        lemma_remove(s.drop_last(), i);
        assert(s.remove(i).drop_last() =~= s.drop_last().remove(i));
        assert(s.remove(i).last() == s.last());
        assert(forest_indices(s) =~= forest_indices(s.remove(i)).add(leaf_indices(s[i])));
    }
}

proof fn lemma_merge_step(s: Seq<HaffmanNode>)
    requires
        s.len() >= 2,
    ensures
        merge_step(s).len() == s.len() - 1,
        forest_indices(merge_step(s)) == forest_indices(s),
        forest_weight(s) <= u32::MAX ==> forest_weight(merge_step(s)) == forest_weight(s),
{
    let (a, b) = select_upto(s, s.len());
    lemma_select(s, s.len());
    let b2 = if b > a { b - 1 } else { b };
    let r1 = s.remove(a);
    assert(r1[b2] == s[b]);
    lemma_remove(s, a);
    lemma_remove(r1, b2);
    let rest = r1.remove(b2);
    let n = merge_step(s).last();
    assert(merge_step(s).drop_last() =~= rest);
    assert(leaf_indices(n) == leaf_indices(s[a]).add(leaf_indices(s[b])));
    assert(forest_indices(merge_step(s)) =~= forest_indices(s));
}

/// The collection shrinks by one per merge and keeps its leaves, so the final
/// tree holds exactly the leaves of the trees it started from.
pub proof fn lemma_huffman_tree(s: Seq<HaffmanNode>)
    requires
        s.len() >= 1,
    ensures
        leaf_indices(huffman_tree(s)) == forest_indices(s),
        forest_weight(s) <= u32::MAX ==> huffman_tree(s).spec_weight() == forest_weight(s),
    decreases s.len(),
{
    if s.len() == 1 {
        assert(s.drop_last().len() == 0);
        assert(forest_indices(s.drop_last()) == Multiset::<usize>::empty());
        assert(forest_weight(s.drop_last()) == 0);
        assert(s.last() == s[0]);
        assert(forest_indices(s) =~= leaf_indices(s[0]));
    } else {
        lemma_merge_step(s);
        lemma_huffman_tree(merge_step(s));
    }
}

/// Merges the two nodes picked by `select_upto` until one node is left, and
/// returns it; the collection is left empty.
pub fn make_haffman_tree(nodes: &mut Vec<HaffmanNode>) -> (r: HaffmanNode)
    requires
        old(nodes)@.len() >= 1,
        forest_weight(old(nodes)@) <= u32::MAX,
    ensures
        r == huffman_tree(old(nodes)@),
        leaf_indices(r) == forest_indices(old(nodes)@),
        r.spec_weight() == forest_weight(old(nodes)@),
        final(nodes)@.len() == 0,
    decreases old(nodes)@.len(),
{
    proof {
        lemma_huffman_tree(nodes@);
    }
    if nodes.len() == 1 {
        let r = nodes.pop().unwrap();
        return r;
    }
    let ghost s = nodes@;
    let mut min1: u32 = nodes[0].weight();
    let mut min2: u32 = nodes[1].weight();
    let mut min1i: usize = 0;
    let mut min2i: usize = 1;
    let mut i: usize = 2;
    while i < nodes.len()
        invariant
            nodes@ == s,
            2 <= i <= s.len(),
            select_upto(s, i as nat) == (min1i as int, min2i as int),
            min1i < s.len(),
            min2i < s.len(),
            min1 == s[min1i as int].spec_weight(),
            min2 == s[min2i as int].spec_weight(),
        decreases s.len() - i,
    {
        proof {
            lemma_select(s, i as nat);
        }
        let weight = nodes[i].weight();
        if weight < min2 {
            min1 = min2;
            min1i = min2i;
            min2 = weight;
            min2i = i;
        } else if weight < min1 {
            min1 = weight;
            min1i = i;
        }
        i = i + 1;
    }
    proof {
        lemma_select(s, s.len());
        lemma_merge_step(s);
        lemma_remove(s, min1i as int);
        lemma_remove(s.remove(min1i as int), if min2i > min1i { min2i - 1 } else { min2i as int });
    }
    let first = nodes.remove(min1i);
    let second = if min2i > min1i {
        nodes.remove(min2i - 1)
    } else {
        nodes.remove(min2i)
    };
    let w1 = first.weight();
    let w2 = second.weight();
    nodes.push(HaffmanNode::Node(w1 + w2, Box::new(first), Box::new(second)));
    proof {
        assert(nodes@ =~= merge_step(s));
    }
    make_haffman_tree(nodes)
}


/// One leaf per alphabet entry, weighted by its frequency and labelled by its index.
pub open spec fn initial_forest(a: Seq<(u8, u8)>) -> Seq<HaffmanNode> {
    Seq::new(a.len(), |i: int| HaffmanNode::Leaf(a[i].1 as u32, i as usize))
}

/// The Huffman codebook of an alphabet: for each index, its path in the tree.
pub open spec fn huffman_codebook(a: Seq<(u8, u8)>) -> Seq<Seq<char>> {
    Seq::new(a.len(), |i: int| code_of(huffman_tree(initial_forest(a)), i as usize))
}

/// Each index below `n` once.
pub open spec fn index_range(n: nat) -> Multiset<usize>
    decreases n,
{
    if n == 0 {
        Multiset::empty()
    } else {
        index_range((n - 1) as nat).insert((n - 1) as usize)
    }
}

proof fn lemma_index_range(n: nat)
    requires
        n <= usize::MAX + 1,
    ensures
        index_range(n).len() == n,
        forall|k: usize| #[trigger] index_range(n).count(k) == if (k as nat) < n { 1nat } else { 0nat },
    decreases n,
{
    if n > 0 {
        lemma_index_range((n - 1) as nat);
    }
}

proof fn lemma_initial_forest(a: Seq<(u8, u8)>)
    ensures
        forest_indices(initial_forest(a)) == index_range(a.len()),
        forest_weight(initial_forest(a)) == total_frequency(a),
    decreases a.len(),
{
    if a.len() > 0 {
        lemma_initial_forest(a.drop_last());
        assert(initial_forest(a).drop_last() =~= initial_forest(a.drop_last()));
        assert(forest_indices(initial_forest(a)) =~= index_range(a.len()));
    } else {
        assert(initial_forest(a).len() == 0);
    }
}

/// The Huffman tree of an alphabet of length `L` has `L` leaves, one for each
/// index in `0..L`.
pub proof fn lemma_huffman_leaves(a: Seq<(u8, u8)>)
    requires
        1 <= a.len() <= usize::MAX,
    ensures
        leaf_indices(huffman_tree(initial_forest(a))).len() == a.len(),
        forall|k: usize|
            #[trigger] leaf_indices(huffman_tree(initial_forest(a))).count(k) == if (k as nat) < a.len() {
                1nat
            } else {
                0nat
            },
{
    lemma_initial_forest(a);
    lemma_huffman_tree(initial_forest(a));
    lemma_index_range(a.len());
}

/// Paths to two different leaf indices of a tree are never prefixes of one another.
pub proof fn lemma_code_prefix_free(t: HaffmanNode, i: usize, j: usize)
    requires
        i != j,
        leaf_indices(t).count(i) > 0,
        leaf_indices(t).count(j) > 0,
    ensures
        !is_prefix(code_of(t, i), code_of(t, j)),
    decreases t,
{
    match t {
        HaffmanNode::Node(_, l, r) => {
            let ri = leaf_indices(*r).count(i) > 0;
            let rj = leaf_indices(*r).count(j) > 0;
            if ri && rj {
                lemma_code_prefix_free(*r, i, j);
                lemma_prefix_split('1', '1', code_of(*r, i), code_of(*r, j));
            } else if ri {
                lemma_prefix_split('1', '0', code_of(*r, i), code_of(*l, j));
            } else if rj {
                lemma_prefix_split('0', '1', code_of(*l, i), code_of(*r, j));
            } else {
                lemma_code_prefix_free(*l, i, j);
                lemma_prefix_split('0', '0', code_of(*l, i), code_of(*l, j));
            }
        },
        HaffmanNode::Leaf(_, _) => {},
    }
}

/// Every Huffman codebook is prefix-free.
pub proof fn lemma_huffman_prefix_free(a: Seq<(u8, u8)>)
    requires
        1 <= a.len() <= usize::MAX,
    ensures
        prefix_free(huffman_codebook(a)),
{
    let c = huffman_codebook(a);
    let t = huffman_tree(initial_forest(a));
    lemma_huffman_leaves(a);
    assert forall|i: int, j: int|
        0 <= i < c.len() && 0 <= j < c.len() && i != j implies !is_prefix(#[trigger] c[i], #[trigger] c[j]) by {
        assert(leaf_indices(t).count(i as usize) == 1);
        assert(leaf_indices(t).count(j as usize) == 1);
        lemma_code_prefix_free(t, i as usize, j as usize);
    }
}

/// Writes into `result` the codeword of each leaf of `node`: `current_prefix`
/// followed by the leaf's path below `node`.
pub fn do_haffman_dict(node: &HaffmanNode, current_prefix: &str, result: &mut Vec<String>)
    requires
        forall|k: usize| #[trigger] leaf_indices(*node).count(k) > 0 ==> k < old(result).len(),
    ensures
        final(result).len() == old(result).len(),
        forall|k: usize|
            k < old(result).len() ==> (#[trigger] final(result)@[k as int])@ == if leaf_indices(*node).count(k) > 0 {
                current_prefix@ + code_of(*node, k)
            } else {
                old(result)@[k as int]@
            },
    decreases node,
{
    match node {
        HaffmanNode::Leaf(_, index) => {
            assert(leaf_indices(*node) == Multiset::singleton(*index));
            result.set(*index, current_prefix.to_owned());
            assert(current_prefix@ + Seq::<char>::empty() =~= current_prefix@);
        },
        HaffmanNode::Node(_, left, right) => {
            proof {
                reveal_strlit("0");
                reveal_strlit("1");
            }
            assert(leaf_indices(*node) == leaf_indices(**left).add(leaf_indices(**right)));
            assert forall|k: usize| #[trigger] leaf_indices(**left).count(k) > 0 implies k < result.len() by {
                assert(leaf_indices(*node).count(k) > 0);
            }
            assert forall|k: usize| #[trigger] leaf_indices(**right).count(k) > 0 implies k < result.len() by {
                assert(leaf_indices(*node).count(k) > 0);
            }
            let left_prefix = current_prefix.to_owned().concat("0");
            do_haffman_dict(left, left_prefix.as_str(), result);
            let right_prefix = current_prefix.to_owned().concat("1");
            do_haffman_dict(right, right_prefix.as_str(), result);
            assert forall|k: usize| k < old(result).len() implies (#[trigger] result@[k as int])@ == if leaf_indices(
                *node,
            ).count(k) > 0 {
                current_prefix@ + code_of(*node, k)
            } else {
                old(result)@[k as int]@
            } by {
                if leaf_indices(**right).count(k) > 0 {
                    assert(right_prefix@ + code_of(**right, k) =~= current_prefix@ + (seq!['1'] + code_of(**right, k)));
                } else if leaf_indices(**left).count(k) > 0 {
                    assert(left_prefix@ + code_of(**left, k) =~= current_prefix@ + (seq!['0'] + code_of(**left, k)));
                }
            }
        },
    }
}

/// Builds the Huffman tree of the alphabet and reads off one codeword per index.
pub fn make_haffman_dict(alphabet: &[(u8, u8)]) -> (r: Vec<String>)
    requires
        alphabet@.len() >= 1,
        total_frequency(alphabet@) <= u32::MAX,
    ensures
        codewords(r@) == huffman_codebook(alphabet@),
        prefix_free(codewords(r@)),
{
    let mut nodes: Vec<HaffmanNode> = Vec::new();
    let mut i: usize = 0;
    while i < alphabet.len()
        invariant
            i <= alphabet@.len(),
            nodes@ == initial_forest(alphabet@).take(i as int),
        decreases alphabet@.len() - i,
    {
        let (_, e) = alphabet[i];
        nodes.push(HaffmanNode::Leaf(e as u32, i));
        i = i + 1;
        assert(nodes@ =~= initial_forest(alphabet@).take(i as int));
    }
    assert(nodes@ =~= initial_forest(alphabet@));
    proof {
        lemma_initial_forest(alphabet@);
        lemma_huffman_leaves(alphabet@);
        lemma_huffman_prefix_free(alphabet@);
    }
    let node = make_haffman_tree(&mut nodes);
    let mut result: Vec<String> = Vec::new();
    let mut j: usize = 0;
    while j < alphabet.len()
        invariant
            j <= alphabet@.len(),
            result@.len() == j,
            forall|k: int| 0 <= k < j ==> (#[trigger] result@[k])@ == Seq::<char>::empty(),
        decreases alphabet@.len() - j,
    {
        result.push(String::new());
        j = j + 1;
    }
    let root = String::new();
    do_haffman_dict(&node, root.as_str(), &mut result);
    assert(codewords(result@) =~= huffman_codebook(alphabet@)) by {
        assert forall|k: int| 0 <= k < alphabet@.len() implies #[trigger] codewords(result@)[k] == huffman_codebook(alphabet@)[k] by {
            assert(leaf_indices(node).count(k as usize) == 1);
            assert(result@[(k as usize) as int] == result@[k]);
            assert(Seq::<char>::empty() + code_of(node, k as usize) =~= code_of(node, k as usize));
        }
    }
    result
}

} // verus!
