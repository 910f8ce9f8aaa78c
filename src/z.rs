//! The Z-array and the matcher built on it.
use crate::offsets::{
    is_match, lemma_empty_input_no_offsets, lemma_match_offsets_increasing,
    lemma_occurrence_starts_char, lemma_str_bytes_valid, match_offsets, occurs_at, offsets_below,
    strictly_increasing,
};
use vstd::prelude::*;
use vstd::string::StringSliceAdditionalSpecFns;
use vstd::utf8::valid_utf8;

verus! {

/// Length of the longest common prefix of `s[a..]` and `s[b..]`, by direct comparison.
pub open spec fn lcp_len(s: Seq<u8>, a: int, b: int) -> int
    decreases s.len() - a,
{
    if 0 <= a < s.len() && 0 <= b < s.len() && s[a] == s[b] {
        1 + lcp_len(s, a + 1, b + 1)
    } else {
        0
    }
}

/// `z` is the Z-array of `s`: entry `i` is the length of the longest common prefix of
/// `s` and `s[i..]` (so entry 0 is the length of `s`).
pub open spec fn is_z_array(s: Seq<u8>, z: Seq<usize>) -> bool {
    &&& z.len() == s.len()
    &&& forall|i: int| 0 <= i < s.len() ==> z[i] == lcp_len(s, 0, i)
}

/// A common prefix never runs past the end of either suffix.
pub proof fn lemma_lcp_bounds(s: Seq<u8>, a: int, b: int)
    requires
        0 <= a,
        0 <= b,
    ensures
        0 <= lcp_len(s, a, b),
        a + lcp_len(s, a, b) <= s.len() || lcp_len(s, a, b) == 0,
        b + lcp_len(s, a, b) <= s.len() || lcp_len(s, a, b) == 0,
    decreases s.len() - a,
{
    if 0 <= a < s.len() && 0 <= b < s.len() && s[a] == s[b] {
        lemma_lcp_bounds(s, a + 1, b + 1);
    }
}

/// Where the first `k` bytes of the two suffixes agree, the common prefix is those `k`
/// bytes followed by the common prefix of what comes after them.
pub proof fn lemma_lcp_skip(s: Seq<u8>, a: int, b: int, k: int)
    requires
        0 <= a,
        0 <= b,
        0 <= k,
        a + k <= s.len(),
        b + k <= s.len(),
        forall|q: int| 0 <= q < k ==> #[trigger] s[a + q] == s[b + q],
    ensures
        lcp_len(s, a, b) == k + lcp_len(s, a + k, b + k),
    decreases k,
{
    if k > 0 {
        assert(s[a + 0] == s[b + 0]);
        assert forall|q: int| 0 <= q < k - 1 implies #[trigger] s[a + 1 + q] == s[b + 1 + q] by {
            assert(s[a + (q + 1)] == s[b + (q + 1)]);
        }
        lemma_lcp_skip(s, a + 1, b + 1, k - 1);
    }
}

/// The first `k` bytes of the two suffixes agree whenever `k` is at most their common
/// prefix length.
pub proof fn lemma_lcp_prefix(s: Seq<u8>, a: int, b: int, k: int)
    requires
        0 <= a,
        0 <= b,
        0 <= k <= lcp_len(s, a, b),
    ensures
        k == 0 || a + k <= s.len(),
        k == 0 || b + k <= s.len(),
        forall|q: int| 0 <= q < k ==> #[trigger] s[a + q] == s[b + q],
    decreases k,
{
    if k > 0 {
        lemma_lcp_prefix(s, a + 1, b + 1, k - 1);
        assert forall|q: int| 0 <= q < k implies #[trigger] s[a + q] == s[b + q] by {
            if q > 0 {
                assert(s[a + 1 + (q - 1)] == s[b + 1 + (q - 1)]);
            }
        }
    }
}

/// Length of the longest common prefix of `s[a..]` and `s[b..]`, for `a <= b`.
fn common_prefix_len(s: &[u8], a: usize, b: usize) -> (r: usize)
    requires
        a <= b <= s@.len(),
    ensures
        r == lcp_len(s@, a as int, b as int),
        b + r <= s@.len(),
{
    let n = s.len();
    let mut k: usize = 0;
    proof {
        lemma_lcp_skip(s@, a as int, b as int, 0);
    }
    while b + k < n && s[a + k] == s[b + k]
        invariant
            n == s@.len(),
            a <= b,
            b + k <= n,
            lcp_len(s@, a as int, b as int) == k + lcp_len(s@, a + k, b + k),
        decreases n - (b + k),
    {
        k += 1;
    }
    k
}

/// `[l, r)` is a prefix box of `s`: the bytes `s[l..r]` repeat the prefix `s[..r - l]`.
pub open spec fn is_prefix_box(s: Seq<u8>, l: int, r: int) -> bool {
    &&& 0 <= l <= r <= s.len()
    &&& forall|q: int| l <= q < r ==> #[trigger] s[q] == s[q - l]
}

/// The common prefix found at `i` makes `[i, i + lcp)` a prefix box.
proof fn lemma_new_box(s: Seq<u8>, i: int)
    requires
        0 <= i <= s.len(),
    ensures
        is_prefix_box(s, i, i + lcp_len(s, 0, i)),
{
    let len = lcp_len(s, 0, i);
    lemma_lcp_bounds(s, 0, i);
    lemma_lcp_prefix(s, 0, i, len);
    assert forall|q: int| i <= q < i + len implies #[trigger] s[q] == s[q - i] by {
        assert(s[0 + (q - i)] == s[i + (q - i)]);
    }
}

/// Inside a box, where the mirrored entry reaches the box's end, the common prefix at `i`
/// covers the rest of the box and continues with a direct comparison from `r`.
proof fn lemma_box_extends(s: Seq<u8>, l: int, r: int, i: int)
    requires
        is_prefix_box(s, l, r),
        l < i < r,
        lcp_len(s, 0, i - l) >= r - i,
    ensures
        lcp_len(s, 0, i) == (r - i) + lcp_len(s, r - i, r),
{
    lemma_lcp_prefix(s, 0, i - l, r - i);
    assert forall|q: int| 0 <= q < r - i implies #[trigger] s[0 + q] == s[i + q] by {
        assert(s[i + q] == s[(i + q) - l]);
        assert(s[0 + q] == s[(i - l) + q]);
    }
    lemma_lcp_skip(s, 0, i, r - i);
}

/// Inside a box, where the mirrored entry stops short of the box's end, the common prefix
/// at `i` equals the mirrored one.
proof fn lemma_box_mirrors(s: Seq<u8>, l: int, r: int, i: int)
    requires
        is_prefix_box(s, l, r),
        l < i < r,
        lcp_len(s, 0, i - l) < r - i,
    ensures
        lcp_len(s, 0, i) == lcp_len(s, 0, i - l),
{
    let len = lcp_len(s, 0, i - l);
    lemma_lcp_bounds(s, 0, i - l);
    lemma_lcp_prefix(s, 0, i - l, len);
    assert forall|q: int| 0 <= q < len implies #[trigger] s[0 + q] == s[i + q] by {
        assert(s[i + q] == s[(i + q) - l]);
        assert(s[0 + q] == s[(i - l) + q]);
    }
    lemma_lcp_skip(s, 0, i, len);
    lemma_lcp_skip(s, 0, i - l, len);
    assert(lcp_len(s, len, i - l + len) == 0);
    lemma_lcp_bounds(s, len + 1, i - l + len + 1);
    assert(0 <= len < s.len() && 0 <= i - l + len < s.len());
    assert(s[len] != s[i - l + len]);
    assert(s[(i + len) - l] == s[i + len]);
    assert(s[len] != s[i + len]);
    assert(lcp_len(s, len, i + len) == 0);
}

/// The Z-array of `s`, computed in linear time by reusing the rightmost known copy of a
/// prefix of `s` (the prefix box `[l, r)`).
pub fn z_array(s: &[u8]) -> (z: Vec<usize>)
    ensures
        is_z_array(s@, z@),
{
    let n = s.len();
    let mut z: Vec<usize> = Vec::with_capacity(n);
    if n == 0 {
        return z;
    }
    z.push(n);
    proof {
        lemma_lcp_skip(s@, 0, 0, n as int);
    }
    let mut l: usize = 0;
    let mut r: usize = 0;
    let mut i: usize = 1;
    while i < n
        invariant
            n == s@.len(),
            1 <= i <= n,
            z@.len() == i,
            forall|k: int| 0 <= k < i ==> #[trigger] z@[k] == lcp_len(s@, 0, k),
            l < i,
            l > 0 || r == 0,
            is_prefix_box(s@, l as int, r as int),
        decreases n - i,
    {
        let len;
        if i >= r {
            len = common_prefix_len(s, 0, i);
            proof {
                lemma_new_box(s@, i as int);
            }
            l = i;
            r = i + len;
        } else if z[i - l] >= r - i {
            proof {
                lemma_box_extends(s@, l as int, r as int, i as int);
            }
            len = r - i + common_prefix_len(s, r - i, r);
            proof {
                lemma_new_box(s@, i as int);
            }
            l = i;
            r = i + len;
        } else {
            len = z[i - l];
            proof {
                lemma_box_mirrors(s@, l as int, r as int, i as int);
            }
        }
        z.push(len);
        i += 1;
    }
    z
}

/// Returns the Z-array of the bytes of `text`: entry `i` is the length of the longest
/// common prefix of `text` and `text[i..]`, counted in bytes.
pub fn compute_z_array(text: &str) -> (z: Vec<usize>)
    ensures
        is_z_array(text.spec_bytes(), z@),
{
    z_array(text.as_bytes())
}

/// No byte of `b` is NUL, the separator that the Z-based matcher puts between pattern
/// and text.
pub open spec fn free_of_nul(b: Seq<u8>) -> bool {
    forall|k: int| 0 <= k < b.len() ==> b[k] != 0
}

/// The pattern, a NUL separator, then the text.
pub open spec fn joined(p: Seq<u8>, t: Seq<u8>) -> Seq<u8> {
    p + seq![0u8] + t
}

/// In the Z-array of `joined(p, t)`, the entry of text offset `j` equals the pattern's
/// length exactly when `j` is a match offset: the separator stops every common prefix
/// at the pattern's length, since the text holds no NUL.
pub proof fn lemma_separator_finds_matches(t: Seq<u8>, p: Seq<u8>, j: int)
    requires
        valid_utf8(t),
        valid_utf8(p),
        free_of_nul(t),
        p.len() > 0,
        0 <= j < t.len(),
    ensures
        lcp_len(joined(p, t), 0, p.len() + 1 + j) == p.len() <==> is_match(t, p, j),
{
    let c = joined(p, t);
    let m = p.len() as int;
    let o = m + 1 + j;
    assert(forall|q: int| 0 <= q < m ==> #[trigger] c[q] == p[q]);
    assert(c[m] == 0);
    assert(forall|q: int| 0 <= q < t.len() ==> #[trigger] c[m + 1 + q] == t[q]);
    if occurs_at(t, p, j) {
        assert forall|q: int| 0 <= q < m implies #[trigger] c[0 + q] == c[o + q] by {
            assert(t.subrange(j, j + m)[q] == t[j + q]);
            assert(c[m + 1 + (j + q)] == t[j + q]);
        }
        lemma_lcp_skip(c, 0, o, m);
        if j + m < t.len() {
            assert(c[m + 1 + (j + m)] == t[j + m]);
        }
        assert(lcp_len(c, m, o + m) == 0);
        lemma_occurrence_starts_char(t, p, j);
    }
    if lcp_len(c, 0, o) == m {
        lemma_lcp_prefix(c, 0, o, m);
        assert forall|q: int| 0 <= q < m implies #[trigger] t.subrange(j, j + m)[q] == p[q] by {
            assert(c[0 + q] == c[o + q]);
            assert(c[m + 1 + (j + q)] == t[j + q]);
        }
        assert(t.subrange(j, j + m) =~= p);
    }
}

/// Matches `pattern` against `text` with one Z-array over the pattern, a NUL separator
/// and the text: an offset matches where its entry equals the pattern's length. The
/// separator must not occur in the text.
pub fn z_pattern_match(text: &str, pattern: &str) -> (r: Vec<usize>)
    requires
        free_of_nul(text.spec_bytes()),
    ensures
        r@ == match_offsets(text.spec_bytes(), pattern.spec_bytes()),
        strictly_increasing(r@),
        pattern.len() == 0 || text.len() == 0 ==> r@.len() == 0,
{
    let t = text.as_bytes();
    let p = pattern.as_bytes();
    let m = p.len();
    let n = t.len();
    proof {
        lemma_match_offsets_increasing(t@, p@);
        lemma_str_bytes_valid(text);
        lemma_str_bytes_valid(pattern);
    }
    if m == 0 || n == 0 {
        proof {
            lemma_empty_input_no_offsets(t@, p@);
        }
        return Vec::new();
    }
    let mut c: Vec<u8> = Vec::new();
    let mut k: usize = 0;
    while k < m
        invariant
            m == p@.len(),
            k <= m,
            c@ == p@.subrange(0, k as int),
        decreases m - k,
    {
        c.push(p[k]);
        k += 1;
    }
    c.push(0u8);
    let mut k: usize = 0;
    while k < n
        invariant
            n == t@.len(),
            k <= n,
            c@ == p@ + seq![0u8] + t@.subrange(0, k as int),
        decreases n - k,
    {
        c.push(t[k]);
        k += 1;
    }
    assert(c@ =~= joined(p@, t@));
    let total = c.len();
    let z = z_array(c.as_slice());
    let mut r: Vec<usize> = Vec::new();
    let mut j: usize = 0;
    while j < n
        invariant
            t@ == text.spec_bytes(),
            p@ == pattern.spec_bytes(),
            valid_utf8(t@),
            valid_utf8(p@),
            free_of_nul(t@),
            m == p@.len() > 0,
            n == t@.len(),
            total == m + 1 + n,
            is_z_array(joined(p@, t@), z@),
            j <= n,
            r@ == offsets_below(t@, p@, j as int),
        decreases n - j,
    {
        proof {
            lemma_separator_finds_matches(t@, p@, j as int);
        }
        if z[m + 1 + j] == m {
            r.push(j);
        }
        j += 1;
    }
    r
}

} // verus!
