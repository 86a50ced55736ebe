//! The Huffman tree: a strict binary tree whose leaves carry symbols and
//! whose internal nodes carry the merged weight of their two children.

use vstd::prelude::*;

verus! {

/// A node of the Huffman tree. A leaf carries a symbol in `ch` and has no
/// children; an internal node has no symbol and exactly two children.
pub struct HNode {
    pub freq: u64,
    pub ch: Option<char>,
    pub left: Option<Box<HNode>>,
    pub right: Option<Box<HNode>>,
}

impl HNode {
    /// A childless node with the given weight and (for leaves) symbol.
    pub fn new(freq: u64, ch: Option<char>) -> (n: HNode)
        ensures
            n.freq == freq,
            n.ch == ch,
            n.left is None,
            n.right is None,
    {
        HNode { freq, ch, left: None, right: None }
    }

    pub open spec fn is_leaf(self) -> bool {
        self.ch is Some
    }

    /// Structural well-formedness: a node is either a leaf (symbol, no
    /// children) or internal (no symbol, two well-formed children).
    pub open spec fn wf(self) -> bool
        decreases self,
    {
        match self.ch {
            Some(_) => self.left is None && self.right is None,
            None => match self.left {
                Some(l) => match self.right {
                    Some(r) => l.wf() && r.wf(),
                    None => false,
                },
                None => false,
            },
        }
    }

    /// The set of symbols carried by the leaves of this tree.
    pub open spec fn syms(self) -> Set<char>
        decreases self,
    {
        match self.ch {
            Some(c) => set![c],
            None => {
                let ls = match self.left {
                    Some(l) => l.syms(),
                    None => Set::<char>::empty(),
                };
                let rs = match self.right {
                    Some(r) => r.syms(),
                    None => Set::<char>::empty(),
                };
                ls.union(rs)
            }
        }
    }

    /// No symbol occurs at two different leaves: the two subtrees of every
    /// internal node carry disjoint symbol sets.
    pub open spec fn distinct_syms(self) -> bool
        decreases self,
    {
        match self.ch {
            Some(_) => true,
            None => match self.left {
                Some(l) => match self.right {
                    Some(r) => l.distinct_syms() && r.distinct_syms()
                        && l.syms().disjoint(r.syms()),
                    None => true,
                },
                None => true,
            },
        }
    }
    /// The path from the root to the leaf carrying `c`: one bit per edge,
    /// '0' for a left descent and '1' for a right one.
    pub open spec fn code_of(self, c: char) -> Seq<char>
        decreases self,
    {
        match self.ch {
            Some(_) => Seq::empty(),
            None => match self.left {
                Some(l) => match self.right {
                    Some(r) => if l.syms().contains(c) {
                        seq!['0'] + l.code_of(c)
                    } else {
                        seq!['1'] + r.code_of(c)
                    },
                    None => Seq::empty(),
                },
                None => Seq::empty(),
            },
        }
    }

    /// The (symbol, codeword) pairs recorded by a depth-first traversal,
    /// left child first, with `prefix` accumulated along the way down.
    pub open spec fn entries(self, prefix: Seq<char>) -> Seq<(char, Seq<char>)>
        decreases self,
    {
        match self.ch {
            Some(c) => seq![(c, prefix)],
            None => match self.left {
                Some(l) => match self.right {
                    Some(r) => l.entries(prefix + seq!['0'])
                        + r.entries(prefix + seq!['1']),
                    None => Seq::empty(),
                },
                None => Seq::empty(),
            },
        }
    }

    /// One decoding step: descend from this node, consuming one bit per
    /// edge, until a leaf is reached. Returns the leaf's symbol and the
    /// number of bits consumed; `None` on a non-bit character or when the
    /// bits run out mid-descent.
    pub open spec fn walk(self, bits: Seq<char>) -> Option<(char, nat)>
        decreases self,
    {
        match self.ch {
            Some(c) => Some((c, 0nat)),
            None => if bits.len() == 0 {
                None
            } else {
                match self.left {
                    Some(l) => match self.right {
                        Some(r) => {
                            let sub = if bits[0] == '0' {
                                l.walk(bits.skip(1))
                            } else if bits[0] == '1' {
                                r.walk(bits.skip(1))
                            } else {
                                None
                            };
                            match sub {
                                Some((c, n)) => Some((c, (n + 1) as nat)),
                                None => None,
                            }
                        },
                        None => None,
                    },
                    None => None,
                }
            },
        }
    }
}

/// `a` is a (not necessarily proper) prefix of `b`.
pub open spec fn is_prefix(a: Seq<char>, b: Seq<char>) -> bool {
    a.len() <= b.len() && a == b.subrange(0, a.len() as int)
}

/// Whatever a successful descent returns: the symbol is one of the tree's,
/// no more bits are consumed than were given, and an internal node consumes
/// at least one.
pub proof fn lemma_walk_props(t: HNode, bits: Seq<char>)
    requires
        t.wf(),
        t.walk(bits) is Some,
    ensures
        ({
            let (c, n) = t.walk(bits).unwrap();
            &&& t.syms().contains(c)
            &&& n <= bits.len()
            &&& (!t.is_leaf() ==> n >= 1)
        }),
    decreases t,
{
    match t.ch {
        Some(_) => {}
        None => match t.left {
            Some(l) => match t.right {
                Some(r) => {
                    if bits[0] == '0' {
                        lemma_walk_props(*l, bits.skip(1));
                    } else {
                        lemma_walk_props(*r, bits.skip(1));
                    }
                },
                None => {}
            },
            None => {}
        },
    }
}

/// Descending along a leaf's own codeword, with anything after it, reaches
/// exactly that leaf and consumes exactly the codeword.
pub proof fn lemma_walk_code(t: HNode, c: char, rest: Seq<char>)
    requires
        t.wf(),
        t.distinct_syms(),
        t.syms().contains(c),
    ensures
        t.walk(t.code_of(c) + rest) == Some((c, t.code_of(c).len())),
    decreases t,
{
    match t.ch {
        Some(c0) => {
            assert(c == c0);
            assert(t.code_of(c) + rest =~= rest);
        },
        None => match t.left {
            Some(l) => match t.right {
                Some(r) => {
                    if l.syms().contains(c) {
                        let lc = l.code_of(c);
                        assert((seq!['0'] + lc + rest).skip(1) =~= lc + rest);
                        assert(t.code_of(c) + rest =~= seq!['0'] + lc + rest);
                        lemma_walk_code(*l, c, rest);
                    } else {
                        assert(r.syms().contains(c));
                        let rc = r.code_of(c);
                        assert((seq!['1'] + rc + rest).skip(1) =~= rc + rest);
                        assert(t.code_of(c) + rest =~= seq!['1'] + rc + rest);
                        lemma_walk_code(*r, c, rest);
                    }
                },
                None => {}
            },
            None => {}
        },
    }
}

/// The paths to two different leaves form a prefix-free pair: neither
/// codeword is a prefix of the other.
pub proof fn lemma_code_prefix_free(t: HNode, c1: char, c2: char)
    requires
        t.wf(),
        t.distinct_syms(),
        t.syms().contains(c1),
        t.syms().contains(c2),
        c1 != c2,
    ensures
        !is_prefix(t.code_of(c1), t.code_of(c2)),
    decreases t,
{
    match t.ch {
        Some(c0) => {
            assert(c1 == c0 && c2 == c0);
        },
        None => match t.left {
            Some(l) => match t.right {
                Some(r) => {
                    let a = t.code_of(c1);
                    let b = t.code_of(c2);
                    if l.syms().contains(c1) && l.syms().contains(c2) {
                        lemma_code_prefix_free(*l, c1, c2);
                        if is_prefix(a, b) {
                            let la = l.code_of(c1);
                            let lb = l.code_of(c2);
                            assert forall|i: int| 0 <= i < la.len() implies la[i] == lb[i] by {
                                assert(a[i + 1] == b.subrange(0, a.len() as int)[i + 1]);
                            }
                            assert(la =~= lb.subrange(0, la.len() as int));
                            assert(is_prefix(la, lb));
                        }
                    } else if !l.syms().contains(c1) && !l.syms().contains(c2) {
                        assert(r.syms().contains(c1) && r.syms().contains(c2));
                        lemma_code_prefix_free(*r, c1, c2);
                        if is_prefix(a, b) {
                            let ra = r.code_of(c1);
                            let rb = r.code_of(c2);
                            assert forall|i: int| 0 <= i < ra.len() implies ra[i] == rb[i] by {
                                assert(a[i + 1] == b.subrange(0, a.len() as int)[i + 1]);
                            }
                            assert(ra =~= rb.subrange(0, ra.len() as int));
                            assert(is_prefix(ra, rb));
                        }
                    } else {
                        // The two leaves sit in different subtrees, so the
                        // codewords differ already in their first bit.
                        if is_prefix(a, b) {
                            assert(a[0] == b.subrange(0, a.len() as int)[0]);
                        }
                    }
                },
                None => {}
            },
            None => {}
        },
    }
}

/// What a depth-first code assignment records: one entry per leaf, keyed by
/// pairwise-distinct symbols, each carrying `prefix` followed by the leaf's
/// path; every symbol of the tree appears.
pub proof fn lemma_entries(t: HNode, prefix: Seq<char>)
    requires
        t.wf(),
        t.distinct_syms(),
    ensures
        t.entries(prefix).len() >= 1,
        forall|k: int| 0 <= k < t.entries(prefix).len() ==>
            t.syms().contains((#[trigger] t.entries(prefix)[k]).0)
            && t.entries(prefix)[k].1 == prefix + t.code_of(t.entries(prefix)[k].0),
        forall|c: char| #[trigger] t.syms().contains(c) ==>
            exists|k: int| 0 <= k < t.entries(prefix).len()
                && (#[trigger] t.entries(prefix)[k]).0 == c,
        forall|k1: int, k2: int| 0 <= k1 < k2 < t.entries(prefix).len() ==>
            (#[trigger] t.entries(prefix)[k1]).0 != (#[trigger] t.entries(prefix)[k2]).0,
    decreases t,
{
    match t.ch {
        Some(c0) => {
            assert(t.entries(prefix)[0].1 =~= prefix + t.code_of(c0));
            assert forall|c: char| #[trigger] t.syms().contains(c) implies
                exists|k: int| 0 <= k < t.entries(prefix).len()
                    && (#[trigger] t.entries(prefix)[k]).0 == c by {
                assert(t.entries(prefix)[0].0 == c);
            }
        },
        None => match t.left {
            Some(l) => match t.right {
                Some(r) => {
                    let le = l.entries(prefix + seq!['0']);
                    let re = r.entries(prefix + seq!['1']);
                    let te = t.entries(prefix);
                    lemma_entries(*l, prefix + seq!['0']);
                    lemma_entries(*r, prefix + seq!['1']);
                    assert forall|k: int| 0 <= k < te.len() implies
                        t.syms().contains((#[trigger] te[k]).0)
                        && te[k].1 == prefix + t.code_of(te[k].0) by {
                        if k < le.len() {
                            assert(te[k] == le[k]);
                            let c = le[k].0;
                            assert(l.syms().contains(c));
                            assert(t.code_of(c) == seq!['0'] + l.code_of(c));
                            assert((prefix + seq!['0']) + l.code_of(c)
                                =~= prefix + (seq!['0'] + l.code_of(c)));
                        } else {
                            assert(te[k] == re[k - le.len()]);
                            let c = re[k - le.len()].0;
                            assert(r.syms().contains(c));
                            assert(!l.syms().contains(c));
                            assert(t.code_of(c) == seq!['1'] + r.code_of(c));
                            assert((prefix + seq!['1']) + r.code_of(c)
                                =~= prefix + (seq!['1'] + r.code_of(c)));
                        }
                    }
                    assert forall|c: char| #[trigger] t.syms().contains(c) implies
                        exists|k: int| 0 <= k < te.len()
                            && (#[trigger] te[k]).0 == c by {
                        if l.syms().contains(c) {
                            let k0 = choose|k0: int| 0 <= k0 < le.len() && (#[trigger] le[k0]).0 == c;
                            assert(te[k0].0 == c);
                        } else {
                            assert(r.syms().contains(c));
                            let k0 = choose|k0: int| 0 <= k0 < re.len() && (#[trigger] re[k0]).0 == c;
                            assert(te[k0 + le.len()].0 == c);
                        }
                    }
                    assert forall|k1: int, k2: int| 0 <= k1 < k2 < te.len() implies
                        (#[trigger] te[k1]).0 != (#[trigger] te[k2]).0 by {
                        if k1 < le.len() && k2 >= le.len() {
                            assert(l.syms().contains(le[k1].0));
                            assert(r.syms().contains(re[k2 - le.len()].0));
                        } else if k1 >= le.len() {
                            assert(te[k1] == re[k1 - le.len()]);
                            assert(te[k2] == re[k2 - le.len()]);
                        }
                    }
                },
                None => {}
            },
            None => {}
        },
    }
}

} // verus!
