//! What a match is, and the ordered list of match offsets that both matchers return.
use vstd::prelude::*;
use vstd::string::StringSliceAdditionalSpecFns;
use vstd::utf8::*;

verus! {

/// The bytes `t[i .. i + p.len()]` exist and equal `p`.
pub open spec fn occurs_at(t: Seq<u8>, p: Seq<u8>, i: int) -> bool {
    &&& 0 <= i
    &&& i + p.len() <= t.len()
    &&& t.subrange(i, i + p.len()) == p
}

/// Offset `i` is reported for pattern `p` in text `t`: the pattern is not empty,
/// it occurs at `i`, and `i` is the first byte of a character of `t`.
pub open spec fn is_match(t: Seq<u8>, p: Seq<u8>, i: int) -> bool {
    &&& p.len() > 0
    &&& occurs_at(t, p, i)
    &&& is_char_boundary(t, i)
}

/// The match offsets below `n`, in increasing order.
pub open spec fn offsets_below(t: Seq<u8>, p: Seq<u8>, n: int) -> Seq<usize>
    decreases n,
{
    if n <= 0 {
        Seq::empty()
    } else if is_match(t, p, n - 1) {
        offsets_below(t, p, n - 1).push((n - 1) as usize)
    } else {
        offsets_below(t, p, n - 1)
    }
}

/// Every match offset of `p` in `t`, in increasing order.
pub open spec fn match_offsets(t: Seq<u8>, p: Seq<u8>) -> Seq<usize> {
    offsets_below(t, p, t.len() as int)
}

/// Each element of `s` is smaller than the next.
pub open spec fn strictly_increasing(s: Seq<usize>) -> bool {
    forall|a: int, b: int| 0 <= a < b < s.len() ==> s[a] < s[b]
}

/// No offset at or above `m` is a match, so scanning up to `n >= m` adds nothing.
pub proof fn lemma_offsets_below_settled(t: Seq<u8>, p: Seq<u8>, m: int, n: int)
    requires
        0 <= m <= n,
        forall|i: int| m <= i < n ==> !is_match(t, p, i),
    ensures
        offsets_below(t, p, n) == offsets_below(t, p, m),
    decreases n - m,
{
    if n > m {
        lemma_offsets_below_settled(t, p, m, n - 1);
    }
}

/// The offsets below `n` are matches below `n`, in increasing order, and every match
/// below `n` is among them.
pub proof fn lemma_offsets_below_exact(t: Seq<u8>, p: Seq<u8>, n: int)
    requires
        n <= t.len() <= usize::MAX,
    ensures
        strictly_increasing(offsets_below(t, p, n)),
        forall|k: int|
            0 <= k < offsets_below(t, p, n).len() ==> {
                &&& offsets_below(t, p, n)[k] < n
                &&& is_match(t, p, offsets_below(t, p, n)[k] as int)
            },
        forall|i: int|
            0 <= i < n && is_match(t, p, i) ==> offsets_below(t, p, n).contains(i as usize),
    decreases n,
{
    if n > 0 {
        lemma_offsets_below_exact(t, p, n - 1);
        let prev = offsets_below(t, p, n - 1);
        if is_match(t, p, n - 1) {
            let cur = prev.push((n - 1) as usize);
            assert forall|i: int| 0 <= i < n && is_match(t, p, i) implies cur.contains(
                i as usize,
            ) by {
                if i == n - 1 {
                    assert(cur[prev.len() as int] == i as usize);
                } else {
                    let k = choose|k: int| 0 <= k < prev.len() && prev[k] == i as usize;
                    assert(cur[k] == i as usize);
                }
            }
        }
    }
}

/// With an empty pattern or an empty text no offset is reported, not every position.
pub proof fn lemma_empty_input_no_offsets(t: Seq<u8>, p: Seq<u8>)
    requires
        p.len() == 0 || t.len() == 0,
    ensures
        match_offsets(t, p) == Seq::<usize>::empty(),
{
    lemma_offsets_below_settled(t, p, 0, t.len() as int);
}

/// The reported offsets are strictly increasing, and each is a match.
pub proof fn lemma_match_offsets_increasing(t: Seq<u8>, p: Seq<u8>)
    requires
        t.len() <= usize::MAX,
    ensures
        strictly_increasing(match_offsets(t, p)),
        forall|k: int|
            0 <= k < match_offsets(t, p).len() ==> is_match(t, p, match_offsets(t, p)[k] as int),
{
    lemma_offsets_below_exact(t, p, t.len() as int);
}

/// The bytes of a string are valid UTF-8.
pub proof fn lemma_str_bytes_valid(s: &str)
    ensures
        valid_utf8(s.spec_bytes()),
{
    encode_utf8_valid_utf8(s@);
}

/// A non-empty valid pattern that occurs in a valid text starts on a character boundary
/// there: its first byte is no continuation byte.
pub proof fn lemma_occurrence_starts_char(t: Seq<u8>, p: Seq<u8>, i: int)
    requires
        valid_utf8(t),
        valid_utf8(p),
        p.len() > 0,
        occurs_at(t, p, i),
    ensures
        is_char_boundary(t, i),
{
    is_char_boundary_iff_not_is_continuation_byte(p, 0);
    assert(t.subrange(i, i + p.len())[0] == t[i]);
    is_char_boundary_iff_not_is_continuation_byte(t, i);
}

/// After a valid prefix `a`, a valid sequence `a + b` is at a character boundary.
proof fn lemma_boundary_after_prefix(a: Seq<u8>, b: Seq<u8>)
    requires
        valid_utf8(a),
        valid_utf8(a + b),
    ensures
        is_char_boundary(a + b, a.len() as int),
    decreases a.len(),
{
    let ab = a + b;
    if a.len() > 0 {
        let len = length_of_first_scalar(a);
        assert(ab[0] == a[0]);
        if len >= 2 {
            assert(ab[1] == a[1]);
        }
        if len >= 3 {
            assert(ab[2] == a[2]);
        }
        if len >= 4 {
            assert(ab[3] == a[3]);
        }
        assert(length_of_first_scalar(ab) == len);
        let rest = pop_first_scalar(a);
        assert(pop_first_scalar(ab) =~= rest + b);
        lemma_boundary_after_prefix(rest, b);
    }
}

/// Every reported offset starts a character of the text, and the occurrence ends where
/// a character starts or at the end of the text: no match starts or ends inside a
/// multi-byte character.
pub proof fn lemma_matches_on_char_boundaries(text: &str, pattern: &str)
    requires
        text.spec_bytes().len() <= usize::MAX,
    ensures
        forall|k: int|
            0 <= k < match_offsets(text.spec_bytes(), pattern.spec_bytes()).len() ==> {
                &&& is_char_boundary(
                    text.spec_bytes(),
                    #[trigger] match_offsets(text.spec_bytes(), pattern.spec_bytes())[k] as int,
                )
                &&& is_char_boundary(
                    text.spec_bytes(),
                    match_offsets(text.spec_bytes(), pattern.spec_bytes())[k] as int
                        + pattern.spec_bytes().len(),
                )
            },
{
    let t = text.spec_bytes();
    let p = pattern.spec_bytes();
    lemma_str_bytes_valid(text);
    lemma_str_bytes_valid(pattern);
    lemma_match_offsets_increasing(t, p);
    assert forall|k: int| 0 <= k < match_offsets(t, p).len() implies is_char_boundary(
        t,
        match_offsets(t, p)[k] as int + p.len(),
    ) by {
        let i = match_offsets(t, p)[k] as int;
        let e = i + p.len();
        if e == t.len() {
            is_char_boundary_start_end_of_seq(t);
        } else {
            let u = t.subrange(i, t.len() as int);
            valid_utf8_split(t, i);
            assert(u =~= p + t.subrange(e, t.len() as int));
            lemma_boundary_after_prefix(p, t.subrange(e, t.len() as int));
            is_char_boundary_iff_not_is_continuation_byte(u, p.len() as int);
            assert(u[p.len() as int] == t[e]);
            is_char_boundary_iff_not_is_continuation_byte(t, e);
        }
    }
}

} // verus!
