//! The brute-force matcher: every window of the text is compared with the pattern.
use crate::offsets::{
    is_match, lemma_empty_input_no_offsets, lemma_match_offsets_increasing,
    lemma_offsets_below_settled, match_offsets, offsets_below, strictly_increasing,
};
use vstd::prelude::*;
use vstd::string::StringSliceAdditionalSpecFns;

verus! {

/// Whether `t[i .. i + p.len()]` equals `p` byte for byte.
fn window_equals(t: &[u8], p: &[u8], i: usize) -> (r: bool)
    requires
        i + p@.len() <= t@.len(),
    ensures
        r == (t@.subrange(i as int, i + p@.len()) == p@),
{
    let n = t.len();
    let mut k: usize = 0;
    while k < p.len()
        invariant
            n == t@.len(),
            i + p@.len() <= t@.len(),
            k <= p@.len(),
            forall|q: int| 0 <= q < k ==> t@[i + q] == p@[q],
        decreases p@.len() - k,
    {
        if t[i + k] != p[k] {
            assert(t@.subrange(i as int, i + p@.len())[k as int] != p@[k as int]);
            return false;
        }
        k += 1;
    }
    assert(t@.subrange(i as int, i + p@.len()) =~= p@);
    true
}

/// Matches `pattern` against `text` by comparing the pattern with the window at every
/// offset that starts a character.
pub fn naive_pattern_match(text: &str, pattern: &str) -> (r: Vec<usize>)
    ensures
        r@ == match_offsets(text.spec_bytes(), pattern.spec_bytes()),
        strictly_increasing(r@),
        pattern.len() == 0 || text.len() == 0 ==> r@.len() == 0,
{
    let t = text.as_bytes();
    let p = pattern.as_bytes();
    let patlen = p.len();
    let txtlen = t.len();
    proof {
        lemma_match_offsets_increasing(t@, p@);
    }
    let mut r: Vec<usize> = Vec::new();
    if patlen == 0 || txtlen < patlen {
        proof {
            if patlen == 0 {
                lemma_empty_input_no_offsets(t@, p@);
            } else {
                lemma_offsets_below_settled(t@, p@, 0, t@.len() as int);
            }
        }
        return r;
    }
    let last = txtlen - patlen;
    let mut i: usize = 0;
    while i <= last
        invariant
            t@ == text.spec_bytes(),
            p@ == pattern.spec_bytes(),
            p@.len() == patlen > 0,
            t@.len() == txtlen,
            last == txtlen - patlen,
            i <= last + 1,
            r@ == offsets_below(t@, p@, i as int),
        decreases last + 1 - i,
    {
        if text.is_char_boundary(i) && window_equals(t, p, i) {
            r.push(i);
        }
        i += 1;
    }
    proof {
        lemma_offsets_below_settled(t@, p@, last + 1, t@.len() as int);
    }
    r
}

} // verus!
