//! Tree construction: repeatedly merge the two candidate nodes of smallest
//! weight until a single root remains. Ties are broken deterministically by
//! taking the earliest minimal node each time; the first node removed
//! becomes the left child of the merged node.

use vstd::prelude::*;
use crate::node::HNode;
use crate::freq::{spec_freqs, sum_counts, freq_map, lemma_count_contains, lemma_find_key, find_key};

verus! {

/// The leaf standing for one frequency entry.
pub open spec fn leaf_of(e: (char, u64)) -> HNode {
    HNode { freq: e.1, ch: Some(e.0), left: None, right: None }
}

pub open spec fn leaves_of(es: Seq<(char, u64)>) -> Seq<HNode> {
    es.map_values(|e: (char, u64)| leaf_of(e))
}

/// The index of the first node of minimal weight.
pub open spec fn min_idx(ns: Seq<HNode>) -> int
    decreases ns.len(),
{
    if ns.len() <= 1 {
        0
    } else {
        let m = min_idx(ns.drop_last());
        if ns[m].freq <= ns.last().freq { m } else { ns.len() - 1 }
    }
}

pub proof fn lemma_min_idx(ns: Seq<HNode>)
    requires
        ns.len() >= 1,
    ensures
        0 <= min_idx(ns) < ns.len(),
        forall|k: int| 0 <= k < ns.len() ==> ns[min_idx(ns)].freq <= (#[trigger] ns[k]).freq,
    decreases ns.len(),
{
    if ns.len() == 1 {
    } else {
        let pre = ns.drop_last();
        lemma_min_idx(pre);
        let m = min_idx(ns);
        assert forall|k: int| 0 <= k < ns.len() implies ns[m].freq <= (#[trigger] ns[k]).freq by {
            if k < pre.len() {
                assert(pre[min_idx(pre)].freq <= pre[k].freq);
            } else {
                assert(pre[min_idx(pre)].freq <= pre[min_idx(pre)].freq);
            }
        }
    }
}

/// The internal node merging `a` and `b`, `a` on the left.
pub open spec fn merge_two(a: HNode, b: HNode) -> HNode {
    HNode {
        freq: (a.freq + b.freq) as u64,
        ch: None,
        left: Some(Box::new(a)),
        right: Some(Box::new(b)),
    }
}

/// One round of the construction: remove the two lightest nodes and append
/// their merge.
pub open spec fn merge_step(ns: Seq<HNode>) -> Seq<HNode> {
    let i = min_idx(ns);
    let a = ns[i];
    let ns1 = ns.remove(i);
    let j = min_idx(ns1);
    let b = ns1[j];
    ns1.remove(j).push(merge_two(a, b))
}

/// The tree obtained by merging until one node remains.
pub open spec fn spec_build(ns: Seq<HNode>) -> HNode
    decreases ns.len(),
{
    if ns.len() <= 1 {
        ns[0]
    } else {
        proof {
            lemma_min_idx(ns);
            lemma_min_idx(ns.remove(min_idx(ns)));
        }
        spec_build(merge_step(ns))
    }
}

/// The Huffman tree of a non-empty input.
pub open spec fn spec_tree(s: Seq<char>) -> HNode {
    spec_build(leaves_of(spec_freqs(s)))
}

/// The total weight of a candidate collection.
pub open spec fn weights_sum(ns: Seq<HNode>) -> int
    decreases ns.len(),
{
    if ns.len() == 0 {
        0
    } else {
        weights_sum(ns.drop_last()) + ns.last().freq
    }
}

/// The symbols of all candidates together.
pub open spec fn syms_union(ns: Seq<HNode>) -> Set<char>
    decreases ns.len(),
{
    if ns.len() == 0 {
        Set::empty()
    } else {
        syms_union(ns.drop_last()).union(ns.last().syms())
    }
}

/// Every candidate is a well-formed tree with internally distinct symbols,
/// and no symbol occurs in two candidates.
pub open spec fn forest_ok(ns: Seq<HNode>) -> bool {
    &&& forall|i: int| 0 <= i < ns.len() ==> (#[trigger] ns[i]).wf() && ns[i].distinct_syms()
    &&& forall|i: int, j: int| 0 <= i < ns.len() && 0 <= j < ns.len() && i != j ==>
        (#[trigger] ns[i]).syms().disjoint((#[trigger] ns[j]).syms())
}

/// The characters that key some entry.
pub open spec fn key_set(es: Seq<(char, u64)>) -> Set<char> {
    Set::new(|c: char| exists|k: int| 0 <= k < es.len() && (#[trigger] es[k]).0 == c)
}

pub proof fn lemma_weights_nonneg(ns: Seq<HNode>)
    ensures
        weights_sum(ns) >= 0,
    decreases ns.len(),
{
    if ns.len() > 0 {
        lemma_weights_nonneg(ns.drop_last());
    }
}

/// Removing a node takes exactly its weight out of the total.
pub proof fn lemma_weights_remove(ns: Seq<HNode>, i: int)
    requires
        0 <= i < ns.len(),
    ensures
        weights_sum(ns.remove(i)) == weights_sum(ns) - ns[i].freq,
    decreases ns.len(),
{
    if i == ns.len() - 1 {
        assert(ns.remove(i) =~= ns.drop_last());
    } else {
        assert(ns.remove(i).drop_last() =~= ns.drop_last().remove(i));
        assert(ns.remove(i).last() == ns.last());
        lemma_weights_remove(ns.drop_last(), i);
    }
}

/// Removing a node takes exactly its symbols out of the union.
pub proof fn lemma_syms_remove(ns: Seq<HNode>, i: int)
    requires
        0 <= i < ns.len(),
    ensures
        syms_union(ns) == syms_union(ns.remove(i)).union(ns[i].syms()),
    decreases ns.len(),
{
    if i == ns.len() - 1 {
        assert(ns.remove(i) =~= ns.drop_last());
    } else {
        assert(ns.remove(i).drop_last() =~= ns.drop_last().remove(i));
        assert(ns.remove(i).last() == ns.last());
        lemma_syms_remove(ns.drop_last(), i);
        assert(syms_union(ns) =~= syms_union(ns.remove(i)).union(ns[i].syms()));
    }
}

/// How removal shifts the indices.
pub proof fn lemma_remove_index(ns: Seq<HNode>, i: int)
    requires
        0 <= i < ns.len(),
    ensures
        ns.remove(i).len() == ns.len() - 1,
        forall|k: int| 0 <= k < ns.len() - 1 ==>
            #[trigger] ns.remove(i)[k] == (if k < i { ns[k] } else { ns[k + 1] }),
{
}

/// One merging round keeps the collection a forest: every node stays a
/// well-formed tree over distinct symbols, and neither the symbols taken
/// together nor the total weight change.
pub proof fn lemma_merge_step(ns: Seq<HNode>)
    requires
        ns.len() >= 2,
        forest_ok(ns),
        weights_sum(ns) <= u64::MAX,
    ensures
        merge_step(ns).len() == ns.len() - 1,
        forest_ok(merge_step(ns)),
        syms_union(merge_step(ns)) == syms_union(ns),
        weights_sum(merge_step(ns)) == weights_sum(ns),
{
    lemma_min_idx(ns);
    let i = min_idx(ns);
    let a = ns[i];
    let ns1 = ns.remove(i);
    lemma_remove_index(ns, i);
    lemma_min_idx(ns1);
    let j = min_idx(ns1);
    let b = ns1[j];
    let ns2 = ns1.remove(j);
    lemma_remove_index(ns1, j);
    let m = merge_two(a, b);
    let out = ns2.push(m);
    assert(out =~= merge_step(ns));
    assert(out.drop_last() =~= ns2);
    // weights: no truncation in the merged node, so removal and push cancel
    lemma_weights_remove(ns, i);
    lemma_weights_remove(ns1, j);
    lemma_weights_nonneg(ns2);
    assert(a.freq + b.freq <= weights_sum(ns));
    assert(m.freq == a.freq + b.freq);
    // where a and b sat in the original collection
    let jo: int = if j < i { j } else { j + 1 };
    assert(b == ns[jo]);
    assert(jo != i);
    // the merged node
    assert(m.syms() =~= a.syms().union(b.syms()));
    assert(m.wf());
    assert(m.distinct_syms());
    // every survivor sits at some original index other than i and jo
    assert forall|p: int| 0 <= p < ns2.len() implies
        exists|o: int| 0 <= o < ns.len() && o != i && o != jo && ns[o] == #[trigger] ns2[p] by {
        let o1: int = if p < j { p } else { p + 1 };
        let o: int = if o1 < i { o1 } else { o1 + 1 };
        assert(ns2[p] == ns1[o1]);
        assert(ns1[o1] == ns[o]);
    }
    assert forall|p: int| 0 <= p < out.len() implies
        (#[trigger] out[p]).wf() && out[p].distinct_syms() by {
        if p < ns2.len() {
            let o = choose|o: int| 0 <= o < ns.len() && o != i && o != jo && ns[o] == ns2[p];
            assert(ns[o].wf());
        }
    }
    assert forall|p: int, q: int| 0 <= p < out.len() && 0 <= q < out.len() && p != q implies
        (#[trigger] out[p]).syms().disjoint((#[trigger] out[q]).syms()) by {
        if p < ns2.len() && q < ns2.len() {
            let op = choose|o: int| 0 <= o < ns.len() && o != i && o != jo && ns[o] == ns2[p];
            let oq = choose|o: int| 0 <= o < ns.len() && o != i && o != jo && ns[o] == ns2[q];
            let o1p: int = if p < j { p } else { p + 1 };
            let o1q: int = if q < j { q } else { q + 1 };
            assert(ns2[p] == ns1[o1p] && ns2[q] == ns1[o1q]);
            if ns2[p].syms().disjoint(ns2[q].syms()) {
            } else {
                // two distinct survivors are two distinct originals
                assert(op != oq || ns1[o1p] == ns1[o1q]);
                if op == oq {
                    let c = choose|c: char| ns2[p].syms().contains(c) && ns2[q].syms().contains(c);
                    assert(false) by {
                        // distinct positions in ns1 with a shared symbol
                        let i1p: int = if o1p < i { o1p } else { o1p + 1 };
                        let i1q: int = if o1q < i { o1q } else { o1q + 1 };
                        assert(ns1[o1p] == ns[i1p] && ns1[o1q] == ns[i1q]);
                        assert(i1p != i1q);
                        assert(ns[i1p].syms().disjoint(ns[i1q].syms()));
                    }
                } else {
                    assert(ns[op].syms().disjoint(ns[oq].syms()));
                }
            }
        } else {
            // one of the two is the merged node
            let r: int = if p < ns2.len() { p } else { q };
            assert(out[r] == ns2[r]);
            let o = choose|o: int| 0 <= o < ns.len() && o != i && o != jo && ns[o] == ns2[r];
            assert(ns[o].syms().disjoint(ns[i].syms()));
            assert(ns[o].syms().disjoint(ns[jo].syms()));
            assert forall|c: char| ns2[r].syms().contains(c) implies !m.syms().contains(c) by {}
            assert forall|c: char| m.syms().contains(c) implies !ns2[r].syms().contains(c) by {
                assert(a.syms().contains(c) || b.syms().contains(c));
            }
        }
    }
    // symbols together are unchanged
    lemma_syms_remove(ns, i);
    lemma_syms_remove(ns1, j);
    assert(syms_union(out) =~= syms_union(ns2).union(m.syms()));
    assert(syms_union(merge_step(ns)) =~= syms_union(ns));
    // total weight unchanged
    assert(weights_sum(out) == weights_sum(ns2) + m.freq);
}

/// Merging a forest down to one node yields a well-formed tree over
/// pairwise-distinct symbols, carrying exactly the forest's symbols.
pub proof fn lemma_build_props(ns: Seq<HNode>)
    requires
        ns.len() >= 1,
        forest_ok(ns),
        weights_sum(ns) <= u64::MAX,
    ensures
        spec_build(ns).wf(),
        spec_build(ns).distinct_syms(),
        spec_build(ns).syms() == syms_union(ns),
    decreases ns.len(),
{
    if ns.len() == 1 {
        assert(ns.drop_last() =~= Seq::<HNode>::empty());
        assert(syms_union(Seq::<HNode>::empty()) == Set::<char>::empty());
        assert(ns.last() == ns[0]);
        assert(Set::<char>::empty().union(ns[0].syms()) =~= ns[0].syms());
        assert(syms_union(ns) == ns[0].syms());
    } else {
        lemma_merge_step(ns);
        lemma_build_props(merge_step(ns));
    }
}

/// The initial leaves: one per entry, a forest over exactly the keys, with
/// the counts as total weight.
pub proof fn lemma_leaves_props(es: Seq<(char, u64)>)
    requires
        forall|k1: int, k2: int| 0 <= k1 < k2 < es.len() ==>
            (#[trigger] es[k1]).0 != (#[trigger] es[k2]).0,
    ensures
        leaves_of(es).len() == es.len(),
        forest_ok(leaves_of(es)),
        weights_sum(leaves_of(es)) == sum_counts(es),
        syms_union(leaves_of(es)) == key_set(es),
    decreases es.len(),
{
    let lv = leaves_of(es);
    assert forall|k: int| 0 <= k < es.len() implies (#[trigger] lv[k]) == leaf_of(es[k]) by {}
    assert forall|k: int| 0 <= k < es.len() implies (#[trigger] lv[k]).syms() =~= set![es[k].0] by {}
    if es.len() == 0 {
        assert(syms_union(lv) =~= key_set(es));
    } else {
        let pre = es.drop_last();
        lemma_leaves_props(pre);
        assert(lv.drop_last() =~= leaves_of(pre));
        assert(lv.last() == leaf_of(es.last()));
        assert(weights_sum(lv) == sum_counts(pre) + es.last().1);
        assert forall|c: char| syms_union(lv).contains(c) implies key_set(es).contains(c) by {
            if key_set(pre).contains(c) {
                let k = choose|k: int| 0 <= k < pre.len() && (#[trigger] pre[k]).0 == c;
                assert(es[k].0 == c);
            } else {
                assert(es[es.len() - 1].0 == c);
            }
        }
        assert forall|c: char| key_set(es).contains(c) implies syms_union(lv).contains(c) by {
            let k = choose|k: int| 0 <= k < es.len() && (#[trigger] es[k]).0 == c;
            if k < pre.len() {
                assert(pre[k].0 == c);
                assert(key_set(pre).contains(c));
            } else {
                assert(lv.last().syms().contains(c));
            }
        }
        assert(syms_union(lv) =~= key_set(es));
    }
}

/// A character keys a frequency entry exactly when it occurs in the input.
pub proof fn lemma_freq_keys_chars(s: Seq<char>)
    requires
        s.len() <= u64::MAX,
    ensures
        key_set(spec_freqs(s)) == crate::freq::chars_of(s),
{
    let es = spec_freqs(s);
    crate::freq::lemma_freqs_props(s);
    assert forall|c: char| key_set(es).contains(c) implies crate::freq::chars_of(s).contains(c) by {
        let k = choose|k: int| 0 <= k < es.len() && (#[trigger] es[k]).0 == c;
        assert(es[k].1 == crate::freq::count_of(s, c));
        lemma_count_contains(s, c);
    }
    assert forall|c: char| crate::freq::chars_of(s).contains(c) implies key_set(es).contains(c) by {
        lemma_count_contains(s, c);
        assert(find_key(es, c) != -1);
        lemma_find_key(es, c);
        assert(es[find_key(es, c)].0 == c);
    }
    assert(key_set(es) =~= crate::freq::chars_of(s));
}

/// The position of the first node of smallest weight.
fn find_min(nodes: &Vec<HNode>) -> (r: usize)
    requires
        nodes@.len() >= 1,
    ensures
        r == min_idx(nodes@),
        r < nodes@.len(),
{
    let n = nodes.len();
    let mut best: usize = 0;
    let mut k: usize = 1;
    while k < n
        invariant
            1 <= k <= n,
            n == nodes@.len(),
            best < k,
            best == min_idx(nodes@.subrange(0, k as int)),
        decreases n - k,
    {
        let ghost prev = nodes@.subrange(0, k as int);
        if nodes[k].freq < nodes[best].freq {
            best = k;
        }
        k = k + 1;
        proof {
            let cur = nodes@.subrange(0, k as int);
            assert(cur.drop_last() =~= prev);
            lemma_min_idx(prev);
            assert(cur[min_idx(prev)] == nodes@[min_idx(prev)]);
            assert(cur.last() == nodes@[k - 1]);
        }
    }
    proof {
        assert(nodes@.subrange(0, n as int) =~= nodes@);
        lemma_min_idx(nodes@);
    }
    best
}

/// Build the Huffman tree of a non-empty input: one leaf per distinct
/// character, then repeated merging of the two lightest candidates.
pub fn generate_tree(s: &str) -> (root: Box<HNode>)
    requires
        s@.len() > 0,
    ensures
        *root == spec_tree(s@),
        root.wf(),
        root.distinct_syms(),
        root.syms() == crate::freq::chars_of(s@),
{
    let fm = freq_map(s);
    let n = fm.len();
    let mut nodes: Vec<HNode> = Vec::new();
    let mut i: usize = 0;
    while i < n
        invariant
            i <= n,
            n == fm@.len(),
            nodes@ == leaves_of(fm@).subrange(0, i as int),
        decreases n - i,
    {
        let e = fm[i];
        nodes.push(HNode::new(e.1, Some(e.0)));
        i = i + 1;
        proof {
            assert(nodes@ =~= leaves_of(fm@).subrange(0, i as int));
        }
    }
    proof {
        assert(nodes@ =~= leaves_of(fm@));
    }
    let ghost leaves0 = nodes@;
    let ghost total = s@.len() as int;
    proof {
        lemma_leaves_props(fm@);
        lemma_freq_keys_chars(s@);
        lemma_build_props(leaves0);
        assert(nodes@.len() >= 1) by {
            assert(fm@.len() > 0) by {
                if fm@.len() == 0 {
                    assert(crate::freq::sum_counts(fm@) == 0);
                }
            }
        }
    }
    while nodes.len() > 1
        invariant
            nodes@.len() >= 1,
            weights_sum(nodes@) == total,
            0 < total <= usize::MAX,
            spec_build(nodes@) == spec_build(leaves0),
        decreases nodes@.len(),
    {
        let ghost ns = nodes@;
        let i1 = find_min(&nodes);
        let a = nodes.remove(i1);
        let ghost ns1 = nodes@;
        let i2 = find_min(&nodes);
        let b = nodes.remove(i2);
        let ghost ns2 = nodes@;
        let ghost ga = a;
        let ghost gb = b;
        proof {
            lemma_weights_remove(ns, i1 as int);
            lemma_weights_remove(ns1, i2 as int);
            lemma_weights_nonneg(ns2);
            assert(ga.freq + gb.freq <= total);
        }
        let mut merged = HNode::new(a.freq + b.freq, None);
        merged.left = Some(Box::new(a));
        merged.right = Some(Box::new(b));
        nodes.push(merged);
        proof {
            assert(merged == merge_two(ga, gb));
            assert(nodes@ =~= merge_step(ns));
            assert(nodes@.drop_last() =~= ns2);
            assert(weights_sum(nodes@) == weights_sum(ns2) + merged.freq);
            assert(spec_build(ns) == spec_build(merge_step(ns)));
        }
    }
    let root = match nodes.pop() {
        Some(r) => r,
        None => HNode::new(0, None),
    };
    proof {
        assert(root == spec_build(leaves0));
    }
    Box::new(root)
}

} // verus!
