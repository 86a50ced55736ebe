//! Frequency analysis: the map from each symbol of the input to the number
//! of times it occurs, keyed in order of first occurrence.

use vstd::prelude::*;
use crate::text::str_chars;

verus! {

/// How many times `c` occurs in `s`.
pub open spec fn count_of(s: Seq<char>, c: char) -> nat
    decreases s.len(),
{
    if s.len() == 0 {
        0
    } else {
        count_of(s.drop_last(), c) + if s.last() == c { 1nat } else { 0nat }
    }
}

/// The index of the first entry keyed by `c`, or -1 when there is none.
pub open spec fn find_key(es: Seq<(char, u64)>, c: char) -> int
    decreases es.len(),
{
    if es.len() == 0 {
        -1
    } else if es[0].0 == c {
        0
    } else {
        let r = find_key(es.skip(1), c);
        if r == -1 { -1 } else { r + 1 }
    }
}

/// Record one more occurrence of `c`: bump its entry, or append a fresh one.
pub open spec fn freq_step(es: Seq<(char, u64)>, c: char) -> Seq<(char, u64)> {
    let k = find_key(es, c);
    if k == -1 {
        es.push((c, 1u64))
    } else {
        es.update(k, (c, (es[k].1 + 1) as u64))
    }
}

/// The frequency entries of `s`, one character at a time.
pub open spec fn spec_freqs(s: Seq<char>) -> Seq<(char, u64)>
    decreases s.len(),
{
    if s.len() == 0 {
        Seq::empty()
    } else {
        freq_step(spec_freqs(s.drop_last()), s.last())
    }
}

/// The total of all counts.
pub open spec fn sum_counts(es: Seq<(char, u64)>) -> int
    decreases es.len(),
{
    if es.len() == 0 {
        0
    } else {
        sum_counts(es.drop_last()) + es.last().1
    }
}

/// `find_key` names the first index whose key is `c`, and -1 exactly when
/// no entry has that key.
pub proof fn lemma_find_key(es: Seq<(char, u64)>, c: char)
    ensures
        find_key(es, c) == -1 ==> forall|k: int| 0 <= k < es.len() ==> (#[trigger] es[k]).0 != c,
        find_key(es, c) != -1 ==> {
            &&& 0 <= find_key(es, c) < es.len()
            &&& es[find_key(es, c)].0 == c
            &&& forall|k: int| 0 <= k < find_key(es, c) ==> (#[trigger] es[k]).0 != c
        },
    decreases es.len(),
{
    if es.len() == 0 {
    } else if es[0].0 == c {
    } else {
        lemma_find_key(es.skip(1), c);
        let r = find_key(es.skip(1), c);
        if r == -1 {
            assert forall|k: int| 0 <= k < es.len() implies (#[trigger] es[k]).0 != c by {
                if k > 0 {
                    assert(es.skip(1)[k - 1].0 != c);
                }
            }
        } else {
            assert forall|k: int| 0 <= k < r + 1 implies (#[trigger] es[k]).0 != c by {
                if k > 0 {
                    assert(es.skip(1)[k - 1].0 != c);
                }
            }
        }
    }
}

/// A positive count is the same thing as an occurrence.
pub proof fn lemma_count_contains(s: Seq<char>, c: char)
    ensures
        (count_of(s, c) > 0) <==> s.contains(c),
    decreases s.len(),
{
    if s.len() == 0 {
    } else {
        lemma_count_contains(s.drop_last(), c);
        if s.drop_last().contains(c) {
            let i = choose|i: int| 0 <= i < s.drop_last().len() && s.drop_last()[i] == c;
            assert(s[i] == c);
        }
        if s.last() == c {
            assert(s[s.len() - 1] == c);
        }
        if s.contains(c) && s.last() != c {
            let i = choose|i: int| 0 <= i < s.len() && s[i] == c;
            assert(s.drop_last()[i] == c);
        }
    }
}

/// Every count is at most the total.
pub proof fn lemma_count_le_sum(es: Seq<(char, u64)>, k: int)
    requires
        0 <= k < es.len(),
    ensures
        es[k].1 <= sum_counts(es),
    decreases es.len(),
{
    if k == es.len() - 1 {
        lemma_sum_nonneg(es.drop_last());
    } else {
        lemma_count_le_sum(es.drop_last(), k);
    }
}

pub proof fn lemma_sum_nonneg(es: Seq<(char, u64)>)
    ensures
        sum_counts(es) >= 0,
    decreases es.len(),
{
    if es.len() > 0 {
        lemma_sum_nonneg(es.drop_last());
    }
}

pub proof fn lemma_sum_update(es: Seq<(char, u64)>, k: int, e: (char, u64))
    requires
        0 <= k < es.len(),
    ensures
        sum_counts(es.update(k, e)) == sum_counts(es) - es[k].1 + e.1,
    decreases es.len(),
{
    if k == es.len() - 1 {
        assert(es.update(k, e).drop_last() =~= es.drop_last());
        assert(es.update(k, e).last() == e);
    } else {
        assert(es.update(k, e).drop_last() =~= es.drop_last().update(k, e));
        assert(es.update(k, e).last() == es.last());
        lemma_sum_update(es.drop_last(), k, e);
    }
}

/// The frequency entries of `s` carry the exact occurrence counts, total to
/// the length of `s`, have pairwise-distinct keys, and have an entry for a
/// character exactly when it occurs in `s`.
pub proof fn lemma_freqs_props(s: Seq<char>)
    requires
        s.len() <= u64::MAX,
    ensures
        sum_counts(spec_freqs(s)) == s.len(),
        forall|k: int| 0 <= k < spec_freqs(s).len() ==> {
            &&& (#[trigger] spec_freqs(s)[k]).1 == count_of(s, spec_freqs(s)[k].0)
            &&& spec_freqs(s)[k].1 >= 1
        },
        forall|c: char| #[trigger] find_key(spec_freqs(s), c) == -1 ==> count_of(s, c) == 0,
        forall|k1: int, k2: int| 0 <= k1 < k2 < spec_freqs(s).len() ==>
            (#[trigger] spec_freqs(s)[k1]).0 != (#[trigger] spec_freqs(s)[k2]).0,
    decreases s.len(),
{
    if s.len() == 0 {
    } else {
        let s0 = s.drop_last();
        let c = s.last();
        let es = spec_freqs(s0);
        let fs = spec_freqs(s);
        lemma_freqs_props(s0);
        lemma_find_key(es, c);
        let k = find_key(es, c);
        // counts in `s` versus counts in `s0`
        assert forall|d: char| true implies count_of(s, d)
            == count_of(s0, d) + (if d == c { 1int } else { 0int }) by {}
        if k == -1 {
            assert(fs == es.push((c, 1u64)));
            assert(fs.drop_last() =~= es);
            assert(fs[fs.len() - 1] == (c, 1u64));
            assert forall|kk: int| 0 <= kk < fs.len() implies
                (#[trigger] fs[kk]).1 == count_of(s, fs[kk].0) && fs[kk].1 >= 1 by {
                if kk < es.len() {
                    assert(fs[kk] == es[kk]);
                    assert(es[kk].0 != c);
                } else {
                    assert(count_of(s0, c) == 0);
                }
            }
            assert forall|d: char| #[trigger] find_key(fs, d) == -1 implies
                count_of(s, d) == 0 by {
                lemma_find_key(fs, d);
                assert(fs[fs.len() - 1].0 == c);
                assert(d != c);
                lemma_find_key(es, d);
                if find_key(es, d) != -1 {
                    assert(fs[find_key(es, d)].0 == d);
                }
            }
            assert forall|k1: int, k2: int| 0 <= k1 < k2 < fs.len() implies
                (#[trigger] fs[k1]).0 != (#[trigger] fs[k2]).0 by {
                if k2 == fs.len() - 1 {
                    assert(es[k1].0 != c);
                }
            }
        } else {
            assert(fs == es.update(k, (c, (es[k].1 + 1) as u64)));
            lemma_sum_update(es, k, (c, (es[k].1 + 1) as u64));
            lemma_count_le_sum(es, k);
            assert(es[k].1 <= s0.len());
            assert forall|kk: int| 0 <= kk < fs.len() implies
                (#[trigger] fs[kk]).1 == count_of(s, fs[kk].0) && fs[kk].1 >= 1 by {
                if kk != k {
                    assert(fs[kk] == es[kk]);
                    if kk < k {
                        assert(es[kk].0 != c);
                    } else {
                        assert(es[kk].0 != es[k].0);
                    }
                }
            }
            assert forall|d: char| #[trigger] find_key(fs, d) == -1 implies
                count_of(s, d) == 0 by {
                lemma_find_key(fs, d);
                assert(fs[k].0 == c);
                assert(d != c);
                lemma_find_key(es, d);
                if find_key(es, d) != -1 {
                    assert(fs[find_key(es, d)].0 == d);
                }
            }
            assert forall|k1: int, k2: int| 0 <= k1 < k2 < fs.len() implies
                (#[trigger] fs[k1]).0 != (#[trigger] fs[k2]).0 by {
                assert(es[k1].0 != es[k2].0);
            }
        }
    }
}

/// Find the entry keyed by `c`, scanning from the front.
fn find_entry(fm: &Vec<(char, u64)>, c: char) -> (r: Option<usize>)
    ensures
        match r {
            Some(j) => j < fm@.len() && find_key(fm@, c) == j,
            None => find_key(fm@, c) == -1,
        },
{
    let n = fm.len();
    let mut j: usize = 0;
    while j < n
        invariant
            j <= n,
            n == fm@.len(),
            forall|k: int| 0 <= k < j ==> (#[trigger] fm@[k]).0 != c,
        decreases n - j,
    {
        if fm[j].0 == c {
            proof {
                lemma_find_key(fm@, c);
                let fk = find_key(fm@, c);
                if fk == -1 {
                    assert(fm@[j as int].0 != c);
                }
                if fk < j {
                    assert(fm@[fk].0 != c);
                }
                if fk > j {
                    assert(fm@[j as int].0 != c);
                }
            }
            return Some(j);
        }
        j = j + 1;
    }
    proof {
        lemma_find_key(fm@, c);
        if find_key(fm@, c) != -1 {
            assert(fm@[find_key(fm@, c)].0 != c);
        }
    }
    None
}

/// The set of characters occurring in `s`.
pub open spec fn chars_of(s: Seq<char>) -> Set<char> {
    Set::new(|c: char| s.contains(c))
}

/// Scan `s` and produce, in order of first occurrence, each distinct
/// character paired with the number of times it occurs.
pub fn freq_map(s: &str) -> (fm: Vec<(char, u64)>)
    ensures
        fm@ == spec_freqs(s@),
        s@.len() <= usize::MAX,
        sum_counts(fm@) == s@.len(),
        forall|k: int| 0 <= k < fm@.len() ==>
            (#[trigger] fm@[k]).1 == count_of(s@, fm@[k].0) && fm@[k].1 >= 1,
        forall|k1: int, k2: int| 0 <= k1 < k2 < fm@.len() ==>
            (#[trigger] fm@[k1]).0 != (#[trigger] fm@[k2]).0,
{
    let chars = str_chars(s);
    let n = chars.len();
    let mut fm: Vec<(char, u64)> = Vec::new();
    let mut i: usize = 0;
    while i < n
        invariant
            i <= n,
            n == s@.len(),
            chars@ == s@,
            fm@ == spec_freqs(s@.subrange(0, i as int)),
            sum_counts(fm@) == i,
        decreases n - i,
    {
        let c = chars[i];
        let ghost pre = s@.subrange(0, i as int);
        match find_entry(&fm, c) {
            Some(j) => {
                let cnt = fm[j].1;
                proof {
                    lemma_count_le_sum(fm@, j as int);
                    lemma_sum_update(fm@, j as int, (c, (cnt + 1) as u64));
                }
                fm.set(j, (c, cnt + 1));
            },
            None => {
                fm.push((c, 1));
                proof {
                    assert(fm@.drop_last() =~= spec_freqs(pre));
                }
            },
        }
        i = i + 1;
        proof {
            let cur = s@.subrange(0, i as int);
            assert(cur.drop_last() =~= pre);
            assert(cur.last() == c);
            assert(fm@ == freq_step(spec_freqs(pre), c));
        }
    }
    proof {
        assert(s@.subrange(0, n as int) =~= s@);
        lemma_freqs_props(s@);
    }
    fm
}

} // verus!
