//! The codec: holds the Huffman tree and the code table built from a
//! training string, and encodes and decodes against them.
//!
//! Bitstrings are strings of the characters '0' and '1'. A training string
//! with a single distinct symbol gets the reserved one-bit codeword "0"; an
//! empty training string yields a codec with no tree and an empty table,
//! on which only the empty string can be encoded or decoded.

use vstd::prelude::*;
use vstd::string::StrSliceExecFns;
use vstd::string::StringExecFns;
use crate::node::HNode;
use crate::node::is_prefix;
use crate::node::lemma_entries;
use crate::node::lemma_walk_props;
use crate::node::lemma_walk_code;
use crate::node::lemma_code_prefix_free;
use crate::builder::{spec_tree, generate_tree};
use crate::freq::chars_of;
use crate::text::{str_chars, push_char};

verus! {

/// Why an encode or decode call failed.
#[derive(Clone, Copy, PartialEq, Eq, Structural, Debug)]
pub enum HuffmanError {
    /// The string to encode holds a symbol the codec was not trained on.
    UnknownSymbol,
    /// The bitstring does not end exactly on a symbol boundary, or holds a
    /// character other than '0' and '1'.
    MalformedBitstring,
}

/// The views of stored (symbol, codeword) pairs.
pub open spec fn view_entries(es: Seq<(char, String)>) -> Seq<(char, Seq<char>)> {
    es.map_values(|p: (char, String)| (p.0, p.1@))
}

/// The codeword of `c` in the tree rooted at `t`: the leaf path, except
/// that the sole symbol of a single-leaf tree gets the reserved "0".
pub open spec fn tree_code(t: HNode, c: char) -> Seq<char> {
    if t.is_leaf() {
        seq!['0']
    } else {
        t.code_of(c)
    }
}

/// The code table of the tree rooted at `t`.
pub open spec fn tree_table(t: HNode) -> Map<char, Seq<char>> {
    Map::new(|c: char| t.syms().contains(c), |c: char| tree_code(t, c))
}

/// The (symbol, codeword) pairs a code assignment over `t` records.
pub open spec fn top_entries(t: HNode) -> Seq<(char, Seq<char>)> {
    match t.ch {
        Some(c) => seq![(c, seq!['0'])],
        None => t.entries(Seq::empty()),
    }
}

/// Encoding against a table: the codewords of the symbols, concatenated in
/// order; `None` as soon as a symbol has no codeword.
pub open spec fn spec_encode(m: Map<char, Seq<char>>, s: Seq<char>) -> Option<Seq<char>>
    decreases s.len(),
{
    if s.len() == 0 {
        Some(Seq::empty())
    } else if m.dom().contains(s[0]) {
        match spec_encode(m, s.skip(1)) {
            Some(rest) => Some(m[s[0]] + rest),
            None => None,
        }
    } else {
        None
    }
}

/// Decoding against the tree rooted at `t`: repeated descents from the
/// root, one symbol each; `None` unless the bits end exactly on a leaf.
/// Against a single leaf, each '0' is one occurrence of its symbol.
pub open spec fn decode_tree(t: HNode, bits: Seq<char>) -> Option<Seq<char>>
    decreases bits.len(),
{
    if bits.len() == 0 {
        Some(Seq::empty())
    } else {
        match t.ch {
            Some(c0) => if bits[0] == '0' {
                match decode_tree(t, bits.skip(1)) {
                    Some(rest) => Some(seq![c0] + rest),
                    None => None,
                }
            } else {
                None
            },
            None => match t.walk(bits) {
                Some((c, n)) => if 1 <= n <= bits.len() {
                    match decode_tree(t, bits.skip(n as int)) {
                        Some(rest) => Some(seq![c] + rest),
                        None => None,
                    }
                } else {
                    None
                },
                None => None,
            },
        }
    }
}

/// The table of the whole pipeline run on `s`: what construction from `s`
/// must produce.
pub open spec fn spec_table_of(s: Seq<char>) -> Map<char, Seq<char>> {
    if s.len() == 0 {
        Map::empty()
    } else {
        tree_table(spec_tree(s))
    }
}

/// What a code assignment records, read as a table: one entry per symbol of
/// the tree, keyed by pairwise-distinct symbols, valued by `tree_code`.
pub proof fn lemma_top_entries(t: HNode)
    requires
        t.wf(),
        t.distinct_syms(),
    ensures
        top_entries(t).len() >= 1,
        forall|k: int| 0 <= k < top_entries(t).len() ==> {
            &&& t.syms().contains((#[trigger] top_entries(t)[k]).0)
            &&& top_entries(t)[k].1 == tree_code(t, top_entries(t)[k].0)
        },
        forall|c: char| #[trigger] t.syms().contains(c) ==>
            exists|k: int| 0 <= k < top_entries(t).len()
                && (#[trigger] top_entries(t)[k]).0 == c,
        forall|k1: int, k2: int| 0 <= k1 < k2 < top_entries(t).len() ==>
            (#[trigger] top_entries(t)[k1]).0 != (#[trigger] top_entries(t)[k2]).0,
{
    match t.ch {
        Some(c0) => {
            assert(top_entries(t)[0] == (c0, seq!['0']));
            assert forall|c: char| #[trigger] t.syms().contains(c) implies
                exists|k: int| 0 <= k < top_entries(t).len()
                    && (#[trigger] top_entries(t)[k]).0 == c by {
                assert(top_entries(t)[0].0 == c);
            }
        },
        None => {
            lemma_entries(t, Seq::empty());
            assert forall|k: int| 0 <= k < top_entries(t).len() implies {
                &&& t.syms().contains((#[trigger] top_entries(t)[k]).0)
                &&& top_entries(t)[k].1 == tree_code(t, top_entries(t)[k].0)
            } by {
                assert(Seq::empty() + t.code_of(top_entries(t)[k].0)
                    =~= t.code_of(top_entries(t)[k].0));
            }
        },
    }
}

/// Walk the tree and record, for each leaf, the accumulated bit path:
/// '0' appended on a left descent, '1' on a right one.
pub fn assign_codes(node: &HNode, codes: &mut Vec<(char, String)>, code: String)
    requires
        node.wf(),
    ensures
        view_entries(final(codes)@) == view_entries(old(codes)@) + node.entries(code@),
    decreases node,
{
    proof {
        reveal_strlit("0");
        reveal_strlit("1");
    }
    match node.ch {
        Some(c) => {
            codes.push((c, code));
            proof {
                assert(view_entries(codes@) =~= view_entries(old(codes)@)
                    + node.entries(code@));
            }
        },
        None => {
            let ghost mid: Seq<(char, Seq<char>)>;
            match &node.left {
                Some(l) => {
                    let mut c0 = code.clone();
                    c0.append("0");
                    proof {
                        assert(c0@ =~= code@ + seq!['0']);
                    }
                    assign_codes(&**l, codes, c0);
                    proof {
                        mid = l.entries(code@ + seq!['0']);
                    }
                },
                None => {
                    // a well-formed internal node has a left child
                    proof {
                        assert(false);
                        mid = Seq::empty();
                    }
                },
            }
            match &node.right {
                Some(r) => {
                    let mut c1 = code.clone();
                    c1.append("1");
                    proof {
                        assert(c1@ =~= code@ + seq!['1']);
                    }
                    assign_codes(&**r, codes, c1);
                    proof {
                        assert(view_entries(codes@) =~= view_entries(old(codes)@)
                            + (mid + r.entries(code@ + seq!['1'])));
                    }
                },
                None => {
                    // a well-formed internal node has a right child
                    proof {
                        assert(false);
                    }
                },
            }
        },
    }
}

/// A static Huffman code trained on one string: the tree, the code table,
/// and the training string it was derived from.
pub struct HuffmanCode {
    data: String,
    root: Option<Box<HNode>>,
    code: Vec<(char, String)>,
}

impl HuffmanCode {
    /// The code table: each trained symbol's codeword.
    pub closed spec fn table(self) -> Map<char, Seq<char>> {
        match self.root {
            None => Map::empty(),
            Some(t) => tree_table(*t),
        }
    }

    /// The symbols the codec can encode.
    pub open spec fn alphabet(self) -> Set<char> {
        self.table().dom()
    }

    /// The training string.
    pub closed spec fn basis(self) -> Seq<char> {
        self.data@
    }

    /// The stored (symbol, codeword) pairs, in assignment order.
    pub closed spec fn entry_views(self) -> Seq<(char, Seq<char>)> {
        view_entries(self.code@)
    }

    /// What decoding `bits` must yield.
    pub closed spec fn decode_of(self, bits: Seq<char>) -> Option<Seq<char>> {
        match self.root {
            None => if bits.len() == 0 {
                Some(Seq::empty())
            } else {
                None
            },
            Some(t) => decode_tree(*t, bits),
        }
    }

    /// Internal consistency: the tree is well formed over exactly the
    /// training string's characters, each at one leaf, and the stored pairs
    /// are the tree's code assignment. An empty basis has no tree.
    pub closed spec fn wf(self) -> bool {
        match self.root {
            None => self.data@.len() == 0 && self.code@.len() == 0,
            Some(t) => {
                &&& self.data@.len() > 0
                &&& t.wf()
                &&& t.distinct_syms()
                &&& t.syms() == chars_of(self.data@)
                &&& view_entries(self.code@) == top_entries(*t)
            },
        }
    }

    /// Train a codec on `s`: count frequencies, build the tree, assign the
    /// codewords. The result is pinned: the same string always yields the
    /// same table.
    pub fn new(s: &str) -> (hc: HuffmanCode)
        ensures
            hc.wf(),
            hc.basis() == s@,
            hc.table() == spec_table_of(s@),
            hc.alphabet() == chars_of(s@),
    {
        let n = s.unicode_len();
        if n == 0 {
            let hc = HuffmanCode {
                data: String::from_str(s),
                root: None,
                code: Vec::new(),
            };
            proof {
                assert(hc.table() =~= spec_table_of(s@));
                assert(hc.alphabet() =~= chars_of(s@));
            }
            hc
        } else {
            let root = generate_tree(s);
            let mut code: Vec<(char, String)> = Vec::new();
            let mut single: Option<char> = None;
            match root.ch {
                Some(c) => {
                    single = Some(c);
                },
                None => {
                    assign_codes(&*root, &mut code, String::new());
                },
            }
            match single {
                Some(c) => {
                    code.push((c, String::from_str("0")));
                    proof {
                        reveal_strlit("0");
                        assert(("0")@ =~= seq!['0']);
                        assert(view_entries(code@)[0] == (c, seq!['0']));
                        assert(view_entries(code@) =~= top_entries(*root));
                    }
                },
                None => {
                    proof {
                        assert(view_entries(code@) =~= top_entries(*root));
                    }
                },
            }
            let hc = HuffmanCode {
                data: String::from_str(s),
                root: Some(root),
                code,
            };
            proof {
                assert(hc.alphabet() =~= chars_of(s@));
            }
            hc
        }
    }

    /// The codeword stored for `c`, if the codec was trained on it.
    fn lookup(&self, c: char) -> (r: Option<&String>)
        requires
            self.wf(),
        ensures
            match r {
                Some(w) => self.table().dom().contains(c) && w@ == self.table()[c],
                None => !self.table().dom().contains(c),
            },
    {
        proof {
            match &self.root {
                Some(t) => lemma_top_entries(**t),
                None => {}
            }
        }
        let n = self.code.len();
        let mut j: usize = 0;
        while j < n
            invariant
                j <= n,
                n == self.code@.len(),
                self.wf(),
                forall|k: int| 0 <= k < j ==> (#[trigger] self.code@[k]).0 != c,
            decreases n - j,
        {
            if self.code[j].0 == c {
                proof {
                    match &self.root {
                        Some(t) => {
                            lemma_top_entries(**t);
                            assert(view_entries(self.code@)[j as int]
                                == (c, self.code@[j as int].1@));
                        },
                        None => {}
                    }
                }
                return Some(&self.code[j].1);
            }
            j = j + 1;
        }
        proof {
            match &self.root {
                Some(t) => {
                    lemma_top_entries(**t);
                    if t.syms().contains(c) {
                        let k = choose|k: int| 0 <= k < top_entries(**t).len()
                            && (#[trigger] top_entries(**t)[k]).0 == c;
                        assert(view_entries(self.code@)[k].0 == c);
                        assert(self.code@[k].0 == c);
                    }
                },
                None => {}
            }
        }
        None
    }

    /// Encode `s`: the codewords of its symbols, concatenated in order.
    /// Succeeds exactly when every symbol of `s` was in the training string.
    pub fn encode_string(&self, s: &str) -> (r: Result<String, HuffmanError>)
        requires
            self.wf(),
        ensures
            match r {
                Ok(bits) => spec_encode(self.table(), s@) == Some(bits@),
                Err(e) => e == HuffmanError::UnknownSymbol
                    && spec_encode(self.table(), s@) is None,
            },
            (r is Ok) <==> (forall|i: int| 0 <= i < s@.len() ==>
                self.alphabet().contains(#[trigger] s@[i])),
    {
        proof {
            lemma_encode_some_iff(self.table(), s@);
        }
        let chars = str_chars(s);
        let n = chars.len();
        let mut out = String::new();
        let mut i: usize = 0;
        proof {
            assert(s@.skip(0) =~= s@);
            match spec_encode(self.table(), s@) {
                Some(rest) => {
                    assert(Seq::<char>::empty() + rest =~= rest);
                },
                None => {},
            }
        }
        while i < n
            invariant
                i <= n,
                n == s@.len(),
                chars@ == s@,
                self.wf(),
                match spec_encode(self.table(), s@.skip(i as int)) {
                    Some(rest) => spec_encode(self.table(), s@) == Some(out@ + rest),
                    None => spec_encode(self.table(), s@) is None,
                },
            decreases n - i,
        {
            let c = chars[i];
            let ghost pre = s@.skip(i as int);
            proof {
                assert(pre[0] == s@[i as int]);
                assert(pre.skip(1) =~= s@.skip(i + 1));
            }
            let ghost out0 = out@;
            match self.lookup(c) {
                Some(w) => {
                    out.append(w.as_str());
                },
                None => {
                    proof {
                        lemma_encode_some_iff(self.table(), s@);
                    }
                    return Err(HuffmanError::UnknownSymbol);
                },
            }
            i = i + 1;
            proof {
                let m = self.table();
                match spec_encode(m, s@.skip(i as int)) {
                    Some(rest) => {
                        assert(spec_encode(m, pre) == Some(m[c] + rest));
                        assert(out0 + (m[c] + rest) =~= out@ + rest);
                    },
                    None => {},
                }
            }
        }
        proof {
            assert(s@.skip(n as int) =~= Seq::<char>::empty());
            assert(out@ + Seq::<char>::empty() =~= out@);
        }
        Ok(out)
    }
}

/// One exec descent from `node`, reading bits from position `i` on:
/// returns the leaf's symbol and the position just past the bits consumed.
fn walk_step(node: &HNode, bits: &Vec<char>, i: usize) -> (r: Option<(char, usize)>)
    requires
        node.wf(),
        i <= bits@.len(),
    ensures
        match r {
            Some(p) => i <= p.1 <= bits@.len()
                && node.walk(bits@.skip(i as int)) == Some((p.0, (p.1 - i) as nat)),
            None => node.walk(bits@.skip(i as int)) is None,
        },
    decreases node,
{
    let ghost suf = bits@.skip(i as int);
    match node.ch {
        Some(c) => Some((c, i)),
        None => {
            if i == bits.len() {
                None
            } else {
                let b = bits[i];
                proof {
                    assert(suf[0] == bits@[i as int]);
                    assert(suf.skip(1) =~= bits@.skip(i + 1));
                }
                if b == '0' {
                    match &node.left {
                        Some(l) => walk_step(&**l, bits, i + 1),
                        None => {
                            // a well-formed internal node has a left child
                            proof {
                                assert(false);
                            }
                            None
                        },
                    }
                } else if b == '1' {
                    match &node.right {
                        Some(r) => walk_step(&**r, bits, i + 1),
                        None => {
                            // a well-formed internal node has a right child
                            proof {
                                assert(false);
                            }
                            None
                        },
                    }
                } else {
                    None
                }
            }
        },
    }
}

impl HuffmanCode {
    /// Decode a bitstring: repeated descents from the root, emitting one
    /// symbol per completed descent. Succeeds exactly when the bits are all
    /// '0' or '1' and end exactly on a leaf boundary.
    pub fn decode_string(&self, s: &str) -> (r: Result<String, HuffmanError>)
        requires
            self.wf(),
        ensures
            match r {
                Ok(out) => self.decode_of(s@) == Some(out@),
                Err(e) => e == HuffmanError::MalformedBitstring
                    && self.decode_of(s@) is None,
            },
    {
        let bits = str_chars(s);
        let n = bits.len();
        match &self.root {
            None => {
                if n == 0 {
                    let out = String::new();
                    proof {
                        assert(self.decode_of(s@) == Some(out@));
                    }
                    Ok(out)
                } else {
                    Err(HuffmanError::MalformedBitstring)
                }
            },
            Some(root) => {
                let ghost t = **root;
                proof {
                    assert(self.root == Some(*root));
                }
                let mut out = String::new();
                let mut i: usize = 0;
                proof {
                    assert(s@.skip(0) =~= s@);
                    match decode_tree(t, s@) {
                        Some(rest) => {
                            assert(Seq::<char>::empty() + rest =~= rest);
                        },
                        None => {},
                    }
                }
                while i < n
                    invariant
                        i <= n,
                        n == s@.len(),
                        bits@ == s@,
                        t.wf(),
                        t == **root,
                        self.root == Some(*root),
                        match decode_tree(t, s@.skip(i as int)) {
                            Some(rest) => decode_tree(t, s@) == Some(out@ + rest),
                            None => decode_tree(t, s@) is None,
                        },
                    decreases n - i,
                {
                    let ghost suf = s@.skip(i as int);
                    let ghost out0 = out@;
                    match walk_step(&**root, &bits, i) {
                        Some(p) => {
                            proof {
                                lemma_walk_props(t, suf);
                                assert(suf.skip(p.1 - i) =~= s@.skip(p.1 as int));
                            }
                            push_char(&mut out, p.0);
                            if p.1 == i {
                                // a single-leaf tree consumes a '0' instead
                                proof {
                                    assert(t.is_leaf());
                                }
                                if bits[i] == '0' {
                                    proof {
                                        assert(suf[0] == '0');
                                        assert(suf.skip(1) =~= s@.skip(i + 1));
                                        match decode_tree(t, s@.skip(i + 1)) {
                                            Some(rest) => {
                                                assert(decode_tree(t, suf)
                                                    == Some(seq![p.0] + rest));
                                                assert(out0 + (seq![p.0] + rest)
                                                    =~= out@ + rest);
                                            },
                                            None => {},
                                        }
                                    }
                                    i = i + 1;
                                } else {
                                    proof {
                                        assert(suf[0] == s@[i as int]);
                                        assert(decode_tree(t, suf) is None);
                                        assert(self.decode_of(s@) == decode_tree(t, s@));
                                    }
                                    return Err(HuffmanError::MalformedBitstring);
                                }
                            } else {
                                proof {
                                    let m = (p.1 - i) as nat;
                                    assert(!t.is_leaf());
                                    assert(1 <= m <= suf.len());
                                    match decode_tree(t, s@.skip(p.1 as int)) {
                                        Some(rest) => {
                                            assert(decode_tree(t, suf)
                                                == Some(seq![p.0] + rest));
                                            assert(out0 + (seq![p.0] + rest)
                                                =~= out@ + rest);
                                        },
                                        None => {},
                                    }
                                }
                                i = p.1;
                            }
                        },
                        None => {
                            proof {
                                assert(decode_tree(t, suf) is None);
                                assert(self.decode_of(s@) == decode_tree(t, s@));
                            }
                            return Err(HuffmanError::MalformedBitstring);
                        },
                    }
                }
                proof {
                    assert(s@.skip(n as int) =~= Seq::<char>::empty());
                    assert(out@ + Seq::<char>::empty() =~= out@);
                }
                Ok(out)
            },
        }
    }
}

impl HuffmanCode {
    /// The stored codewords, in assignment order.
    pub fn codewords(&self) -> (ws: Vec<String>)
        ensures
            ws@.len() == self.entry_views().len(),
            forall|k: int| 0 <= k < ws@.len() ==>
                (#[trigger] ws@[k])@ == self.entry_views()[k].1,
    {
        let mut ws: Vec<String> = Vec::new();
        let n = self.code.len();
        let mut j: usize = 0;
        while j < n
            invariant
                j <= n,
                n == self.code@.len(),
                ws@.len() == j,
                forall|k: int| 0 <= k < j ==>
                    (#[trigger] ws@[k])@ == view_entries(self.code@)[k].1,
            decreases n - j,
        {
            ws.push(self.code[j].1.clone());
            j = j + 1;
        }
        ws
    }
}

/// Round trip through a single-leaf tree: the encoding is a run of '0's,
/// and decoding it yields the run of the symbol back.
proof fn lemma_rt_leaf(t: HNode, c0: char, s: Seq<char>)
    requires
        t.wf(),
        t.ch == Some(c0),
        forall|i: int| 0 <= i < s.len() ==> s[i] == c0,
    ensures
        spec_encode(tree_table(t), s) is Some,
        match spec_encode(tree_table(t), s) {
            Some(bits) => decode_tree(t, bits) == Some(s),
            None => false,
        },
    decreases s.len(),
{
    let m = tree_table(t);
    if s.len() == 0 {
        assert(s =~= Seq::<char>::empty());
    } else {
        assert(s[0] == c0);
        assert(t.syms().contains(c0));
        lemma_rt_leaf(t, c0, s.skip(1));
        match spec_encode(m, s.skip(1)) {
            Some(rest) => {
                assert(m[c0] == seq!['0']);
                let bits = seq!['0'] + rest;
                assert(spec_encode(m, s) == Some(bits));
                assert(bits[0] == '0');
                assert(bits.skip(1) =~= rest);
                assert(seq![c0] + s.skip(1) =~= s);
            },
            None => {},
        }
    }
}

/// Round trip through an internal tree: decoding an encoding, with each
/// codeword the leaf path, yields the source back.
proof fn lemma_rt_internal(t: HNode, s: Seq<char>)
    requires
        t.wf(),
        t.distinct_syms(),
        t.ch is None,
        forall|i: int| 0 <= i < s.len() ==> t.syms().contains(#[trigger] s[i]),
    ensures
        spec_encode(tree_table(t), s) is Some,
        match spec_encode(tree_table(t), s) {
            Some(bits) => decode_tree(t, bits) == Some(s),
            None => false,
        },
    decreases s.len(),
{
    let m = tree_table(t);
    if s.len() == 0 {
        assert(s =~= Seq::<char>::empty());
    } else {
        let c = s[0];
        assert(t.syms().contains(c));
        lemma_rt_internal(t, s.skip(1));
        match spec_encode(m, s.skip(1)) {
            Some(rest) => {
                let code = t.code_of(c);
                assert(m[c] == code);
                let bits = code + rest;
                assert(spec_encode(m, s) == Some(bits));
                lemma_walk_code(t, c, rest);
                assert(t.walk(bits) == Some((c, code.len())));
                assert(code.len() >= 1);
                assert(bits.skip(code.len() as int) =~= rest);
                assert(seq![c] + s.skip(1) =~= s);
            },
            None => {},
        }
    }
}

/// Round trip: encoding any string of trained symbols succeeds, and
/// decoding the resulting bitstring yields the string back.
pub proof fn lemma_round_trip(hc: HuffmanCode, s: Seq<char>)
    requires
        hc.wf(),
        forall|i: int| 0 <= i < s.len() ==> hc.alphabet().contains(#[trigger] s[i]),
    ensures
        spec_encode(hc.table(), s) is Some,
        match spec_encode(hc.table(), s) {
            Some(bits) => hc.decode_of(bits) == Some(s),
            None => false,
        },
{
    match hc.root {
        None => {
            if s.len() > 0 {
                assert(hc.alphabet().contains(s[0]));
                assert(false);
            }
            assert(s =~= Seq::<char>::empty());
        },
        Some(t) => {
            assert(hc.table().dom() =~= t.syms());
            match t.ch {
                Some(c0) => {
                    assert forall|i: int| 0 <= i < s.len() implies s[i] == c0 by {
                        assert(t.syms().contains(s[i]));
                    }
                    lemma_rt_leaf(*t, c0, s);
                },
                None => {
                    lemma_rt_internal(*t, s);
                },
            }
        },
    }
}

/// Prefix-code invariant: the codeword of one trained symbol is never a
/// prefix of a different symbol's codeword, and no codeword is empty.
pub proof fn lemma_prefix_code(hc: HuffmanCode, c1: char, c2: char)
    requires
        hc.wf(),
        hc.alphabet().contains(c1),
        hc.alphabet().contains(c2),
        c1 != c2,
    ensures
        !is_prefix(hc.table()[c1], hc.table()[c2]),
        hc.table()[c1].len() >= 1,
{
    match hc.root {
        None => {
            assert(false);
        },
        Some(t) => {
            assert(hc.table().dom() =~= t.syms());
            match t.ch {
                Some(c0) => {
                    assert(c1 == c0 && c2 == c0);
                },
                None => {
                    lemma_code_prefix_free(*t, c1, c2);
                },
            }
        },
    }
}

/// Uniqueness: different trained symbols have different codewords.
pub proof fn lemma_codewords_distinct(hc: HuffmanCode, c1: char, c2: char)
    requires
        hc.wf(),
        hc.alphabet().contains(c1),
        hc.alphabet().contains(c2),
        c1 != c2,
    ensures
        hc.table()[c1] != hc.table()[c2],
{
    lemma_prefix_code(hc, c1, c2);
    let a = hc.table()[c1];
    if a == hc.table()[c2] {
        assert(a.subrange(0, a.len() as int) =~= a);
        assert(is_prefix(a, hc.table()[c2]));
    }
}

/// Determinism: construction pins the table to the training string alone,
/// so two codecs trained on the same string carry the same table.
pub proof fn lemma_deterministic(a: HuffmanCode, b: HuffmanCode, s: Seq<char>)
    requires
        a.table() == spec_table_of(s),
        b.table() == spec_table_of(s),
    ensures
        a.table() == b.table(),
{
}

/// Empty input: encoding and decoding the empty string both yield the
/// empty string, on every codec.
pub proof fn lemma_empty_io(hc: HuffmanCode)
    requires
        hc.wf(),
    ensures
        spec_encode(hc.table(), Seq::empty()) == Some(Seq::<char>::empty()),
        hc.decode_of(Seq::empty()) == Some(Seq::<char>::empty()),
{
}

/// Encoding succeeds exactly when every symbol has a codeword.
pub proof fn lemma_encode_some_iff(m: Map<char, Seq<char>>, s: Seq<char>)
    ensures
        (spec_encode(m, s) is Some) <==> (forall|i: int| 0 <= i < s.len() ==>
            m.dom().contains(#[trigger] s[i])),
    decreases s.len(),
{
    if s.len() == 0 {
    } else {
        lemma_encode_some_iff(m, s.skip(1));
        if spec_encode(m, s) is Some {
            assert forall|i: int| 0 <= i < s.len() implies
                m.dom().contains(#[trigger] s[i]) by {
                if i > 0 {
                    assert(m.dom().contains(s.skip(1)[i - 1]));
                }
            }
        } else {
            if forall|i: int| 0 <= i < s.len() ==> m.dom().contains(#[trigger] s[i]) {
                assert forall|i: int| 0 <= i < s.skip(1).len() implies
                    m.dom().contains(#[trigger] s.skip(1)[i]) by {
                    assert(s.skip(1)[i] == s[i + 1]);
                }
            }
        }
    }
}

} // verus!

