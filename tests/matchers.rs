use pattern_matching::naive::naive_pattern_match;
use pattern_matching::z::z_pattern_match;

type Matcher = fn(&str, &str) -> Vec<usize>;

const MATCHERS: [Matcher; 2] = [naive_pattern_match, z_pattern_match];

#[test]
fn naive_basic_match() {
    let text = "homeowner";
    let pattern = "meow";
    let expected: Vec<usize> = vec![2];
    assert_eq!(naive_pattern_match(text, pattern), expected);
}

#[test]
fn z_basic_match() {
    let text = "homeowner";
    let pattern = "meow";
    let expected: Vec<usize> = vec![2];
    assert_eq!(z_pattern_match(text, pattern), expected);
}

#[test]
fn naive_no_match_smaller_pattern() {
    let text = "longer text";
    let pattern = "pa";
    let expected: Vec<usize> = vec![];
    assert_eq!(naive_pattern_match(text, pattern), expected);
}

#[test]
fn z_no_match_smaller_pattern() {
    let text = "longer text";
    let pattern = "pa";
    let expected: Vec<usize> = vec![];
    assert_eq!(z_pattern_match(text, pattern), expected);
}

#[test]
fn naive_no_match_exact_len() {
    let text = "piernik";
    let pattern = "wiatrak";
    let expected: Vec<usize> = vec![];
    assert_eq!(naive_pattern_match(text, pattern), expected);
}

#[test]
fn z_no_match_exact_len() {
    let text = "piernik";
    let pattern = "wiatrak";
    let expected: Vec<usize> = vec![];
    assert_eq!(z_pattern_match(text, pattern), expected);
}

#[test]
fn naive_no_match_existing_letters() {
    let text = "the quick brown fox jumps over the lazy dog";
    let pattern = "wizard";
    let expected: Vec<usize> = vec![];
    assert_eq!(naive_pattern_match(text, pattern), expected);
}

#[test]
fn z_no_match_existing_letters() {
    let text = "the quick brown fox jumps over the lazy dog";
    let pattern = "wizard";
    let expected: Vec<usize> = vec![];
    assert_eq!(z_pattern_match(text, pattern), expected);
}

#[test]
fn naive_no_match_with_prefix() {
    let text = "the quick brown fox jumps over the lazy dog";
    let pattern = "fops";
    let expected: Vec<usize> = vec![];
    assert_eq!(naive_pattern_match(text, pattern), expected);
}

#[test]
fn z_no_match_with_prefix() {
    let text = "the quick brown fox jumps over the lazy dog";
    let pattern = "fops";
    let expected: Vec<usize> = vec![];
    assert_eq!(z_pattern_match(text, pattern), expected);
}

#[test]
fn naive_prefix_match() {
    let text = "pattern";
    let pattern = "pat";
    let expected: Vec<usize> = vec![0];
    assert_eq!(naive_pattern_match(text, pattern), expected);
}

#[test]
fn z_prefix_match() {
    let text = "pattern";
    let pattern = "pat";
    let expected: Vec<usize> = vec![0];
    assert_eq!(z_pattern_match(text, pattern), expected);
}

#[test]
fn naive_suffix_match() {
    let text = "text";
    let pattern = "ext";
    let expected: Vec<usize> = vec![1];
    assert_eq!(naive_pattern_match(text, pattern), expected);
}

#[test]
fn z_suffix_match() {
    let text = "text";
    let pattern = "ext";
    let expected: Vec<usize> = vec![1];
    assert_eq!(z_pattern_match(text, pattern), expected);
}

#[test]
fn naive_exact_match() {
    let text = "hello";
    let pattern = "hello";
    let expected: Vec<usize> = vec![0];
    assert_eq!(naive_pattern_match(text, pattern), expected);
}

#[test]
fn z_exact_match() {
    let text = "hello";
    let pattern = "hello";
    let expected: Vec<usize> = vec![0];
    assert_eq!(z_pattern_match(text, pattern), expected);
}

#[test]
fn naive_multiple_matches() {
    let text = "barbarian";
    let pattern = "ba";
    let expected: Vec<usize> = vec![0, 3];
    assert_eq!(naive_pattern_match(text, pattern), expected);
}

#[test]
fn z_multiple_matches() {
    let text = "barbarian";
    let pattern = "ba";
    let expected: Vec<usize> = vec![0, 3];
    assert_eq!(z_pattern_match(text, pattern), expected);
}

#[test]
fn naive_empty_text() {
    let text = "";
    let pattern = "is anyone there?";
    let expected: Vec<usize> = vec![];
    assert_eq!(naive_pattern_match(text, pattern), expected);
}

#[test]
fn z_empty_text() {
    let text = "";
    let pattern = "is anyone there?";
    let expected: Vec<usize> = vec![];
    assert_eq!(z_pattern_match(text, pattern), expected);
}

#[test]
fn naive_empty_pattern() {
    let text = "I'm scared";
    let pattern = "";
    let expected: Vec<usize> = vec![];
    assert_eq!(naive_pattern_match(text, pattern), expected);
}

#[test]
fn z_empty_pattern() {
    let text = "I'm scared";
    let pattern = "";
    let expected: Vec<usize> = vec![];
    assert_eq!(z_pattern_match(text, pattern), expected);
}

#[test]
fn naive_overlapping() {
    let text = "AAAAAA";
    let pattern = "AA";
    let expected: Vec<usize> = vec![0, 1, 2, 3, 4];
    assert_eq!(naive_pattern_match(text, pattern), expected);
}

#[test]
fn z_overlapping() {
    let text = "AAAAAA";
    let pattern = "AA";
    let expected: Vec<usize> = vec![0, 1, 2, 3, 4];
    assert_eq!(z_pattern_match(text, pattern), expected);
}

#[test]
fn naive_multibyte_unicode() {
    let text = "żółć";
    let pattern = "ół";
    assert!(pattern.chars().all(|c| c.len_utf8() > 1));
    assert_eq!(naive_pattern_match(text, pattern), vec![2]);
}

#[test]
fn z_multibyte_unicode() {
    let text = "żółć";
    let pattern = "ół";
    assert!(pattern.chars().all(|c| c.len_utf8() > 1));
    assert_eq!(z_pattern_match(text, pattern), vec![2]);
}

#[test]
fn matchers_agree_on_many_inputs() {
    let texts = [
        "", "a", "aaaa", "abab abab", "żółć żółć", "mississippi", "ababcabcabababd", "日本語の日本",
    ];
    let patterns = ["", "a", "aa", "ab", "ół", "issi", "ababd", "日本", "ż", "zz"];
    for text in texts.iter() {
        for pattern in patterns.iter() {
            assert_eq!(
                naive_pattern_match(text, pattern),
                z_pattern_match(text, pattern),
                "text {:?} pattern {:?}",
                text,
                pattern
            );
        }
    }
}

#[test]
fn results_are_strictly_increasing() {
    for m in MATCHERS.iter() {
        let r = m("abaabaabaaba", "aba");
        assert_eq!(r, vec![0, 3, 6, 9]);
        for w in r.windows(2) {
            assert!(w[0] < w[1]);
        }
    }
}

#[test]
fn empty_text_and_empty_pattern_report_nothing() {
    for m in MATCHERS.iter() {
        assert_eq!(m("", ""), Vec::<usize>::new());
        assert_eq!(m("abc", ""), Vec::<usize>::new());
        assert_eq!(m("", "abc"), Vec::<usize>::new());
    }
}

#[test]
fn pattern_longer_than_text_reports_nothing() {
    for m in MATCHERS.iter() {
        assert_eq!(m("ab", "abc"), Vec::<usize>::new());
    }
}

#[test]
fn offsets_count_bytes_not_characters() {
    for m in MATCHERS.iter() {
        // "ść" is four bytes; "a" follows at byte 4, not at character 2.
        assert_eq!(m("śćaść", "a"), vec![4]);
        assert_eq!(m("śćaść", "ść"), vec![0, 5]);
    }
}

#[test]
fn matches_stay_on_character_boundaries() {
    for m in MATCHERS.iter() {
        let text = "żółć ół";
        for &i in m(text, "ół").iter() {
            assert!(text.is_char_boundary(i));
            assert!(text.is_char_boundary(i + "ół".len()));
        }
        assert_eq!(m(text, "ół"), vec![2, 9]);
    }
}

#[test]
fn whole_text_match_and_last_position() {
    for m in MATCHERS.iter() {
        assert_eq!(m("abc", "abc"), vec![0]);
        assert_eq!(m("abcab", "ab"), vec![0, 3]);
        assert_eq!(m("xyz", "z"), vec![2]);
    }
}
