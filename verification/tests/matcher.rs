use patmatch::Matcher;
use patmatch::MatcherToken;

#[test]
fn simple_test() {
    let match_string = "abc(d|e|f).".to_string();
    let mut matcher = Matcher::new(&match_string).unwrap();

    assert_eq!(matcher.most_tokens_matched, 0);

    {
        let candidate1 = "abcge".to_string();
        let result = matcher.match_string(&candidate1);
        assert_eq!(result, vec![(&MatcherToken::RawText("abc"), "abc"),]);
        assert_eq!(matcher.most_tokens_matched, 1);
    }

    {
        let candidate1 = "abcde".to_string();
        let result = matcher.match_string(&candidate1);
        assert_eq!(
            result,
            vec![
                (&MatcherToken::RawText("abc"), "abc"),
                (&MatcherToken::OneOfText(vec!["d", "e", "f"]), "d"),
                (&MatcherToken::WildCard, "e")
            ]
        );
        assert_eq!(matcher.most_tokens_matched, 3);
    }
}

#[test]
fn broken_matcher() {
    let match_string = "abc(d|e|f.".to_string();
    let matcher = Matcher::new(&match_string);
    assert_eq!(matcher, None);
}

#[test]
fn empty_pattern_parses_to_no_tokens() {
    let matcher = Matcher::new("").unwrap();
    assert_eq!(matcher.tokens.len(), 0);
    assert_eq!(matcher.most_tokens_matched, 0);
}

#[test]
fn unclosed_group_fails_to_parse() {
    assert_eq!(Matcher::new("abc(def"), None);
    assert_eq!(Matcher::new("("), None);
    assert_eq!(Matcher::new("x(y|z"), None);
}

#[test]
fn stray_close_fails_to_parse() {
    assert_eq!(Matcher::new(")"), None);
    assert_eq!(Matcher::new("ab)c"), None);
    assert_eq!(Matcher::new("(a)b)"), None);
}

#[test]
fn reparse_gives_identical_tokens() {
    let text = "abc(d|e|f).".to_string();
    let first = Matcher::new(&text).unwrap();
    let again = Matcher::new(first.text).unwrap();
    assert_eq!(first.tokens, again.tokens);
}

#[test]
fn most_tokens_matched_is_monotonic() {
    let text = "abc".to_string();
    let mut matcher = Matcher::new(&text).unwrap();

    let full = "abc".to_string();
    let result = matcher.match_string(&full);
    assert_eq!(result.len(), 1);
    assert_eq!(matcher.most_tokens_matched, 1);

    let miss = "x".to_string();
    let result = matcher.match_string(&miss);
    assert_eq!(result.len(), 0);
    assert_eq!(matcher.most_tokens_matched, 1);

    let result = matcher.match_string(&full);
    assert_eq!(result.len(), 1);
    assert_eq!(matcher.most_tokens_matched, 1);
}

#[test]
fn matched_bytes_never_exceed_candidate_bytes() {
    let text = "a(\u{1F4AA}|b).".to_string();
    let mut matcher = Matcher::new(&text).unwrap();
    let candidate = "a\u{1F4AA}xtail".to_string();
    let result = matcher.match_string(&candidate);
    assert_eq!(result.len(), 3);
    let total: usize = result.iter().map(|pair| pair.1.len()).sum();
    assert!(total <= candidate.len());
    assert_eq!(total, 6);
}

#[test]
fn empty_alternative_matches_empty_candidate() {
    let text = "(a|)".to_string();
    let mut matcher = Matcher::new(&text).unwrap();
    let candidate = "".to_string();
    let result = matcher.match_string(&candidate);
    assert_eq!(
        result,
        vec![(&MatcherToken::OneOfText(vec!["a", ""]), "")]
    );
    assert_eq!(matcher.most_tokens_matched, 1);
}

#[test]
fn wildcard_consumes_one_multibyte_character() {
    let text = ".".to_string();
    let mut matcher = Matcher::new(&text).unwrap();
    let candidate = "\u{1F4AA}e".to_string();
    let result = matcher.match_string(&candidate);
    assert_eq!(result.len(), 1);
    assert_eq!(result[0].0, &MatcherToken::WildCard);
    assert_eq!(result[0].1, "\u{1F4AA}");
}

#[test]
fn first_declared_alternative_wins() {
    let text = "(a|ab)".to_string();
    let mut matcher = Matcher::new(&text).unwrap();
    let candidate = "ab".to_string();
    let result = matcher.match_string(&candidate);
    assert_eq!(result.len(), 1);
    assert_eq!(result[0].1, "a");

    let text2 = "(ab|a)".to_string();
    let mut matcher2 = Matcher::new(&text2).unwrap();
    let result2 = matcher2.match_string(&candidate);
    assert_eq!(result2.len(), 1);
    assert_eq!(result2[0].1, "ab");
}

#[test]
fn literal_runs_stop_at_special_markers() {
    let text = "ab.cd".to_string();
    let matcher = Matcher::new(&text).unwrap();
    assert_eq!(
        matcher.tokens,
        vec![
            MatcherToken::RawText("ab"),
            MatcherToken::WildCard,
            MatcherToken::RawText("cd")
        ]
    );
}

#[test]
fn consecutive_groups_match_in_order() {
    let text = "(a|b)(c|d)".to_string();
    let mut matcher = Matcher::new(&text).unwrap();
    let candidate = "bd".to_string();
    let result = matcher.match_string(&candidate);
    assert_eq!(result.len(), 2);
    assert_eq!(result[0].1, "b");
    assert_eq!(result[1].1, "d");
}

#[test]
fn wildcard_on_empty_candidate_stops_the_match() {
    let text = ".".to_string();
    let mut matcher = Matcher::new(&text).unwrap();
    let candidate = "".to_string();
    let result = matcher.match_string(&candidate);
    assert_eq!(result.len(), 0);
    assert_eq!(matcher.most_tokens_matched, 0);
}

#[test]
fn group_contents_split_keeps_empty_segments() {
    let text = "(|x|)".to_string();
    let matcher = Matcher::new(&text).unwrap();
    assert_eq!(
        matcher.tokens,
        vec![MatcherToken::OneOfText(vec!["", "x", ""])]
    );
}

#[test]
fn candidate_need_not_be_consumed_fully() {
    let text = "ab".to_string();
    let mut matcher = Matcher::new(&text).unwrap();
    let candidate = "abcdef".to_string();
    let result = matcher.match_string(&candidate);
    assert_eq!(result, vec![(&MatcherToken::RawText("ab"), "ab")]);
}
