use regex_engine::regex::Regex;

#[test]
fn regex_regex_works() {
    let regex = Regex::new("a(b|c)*").unwrap();

    assert!(regex.matches("a"));
    assert!(regex.matches("ab"));
    assert!(regex.matches("ac"));
    assert!(!regex.matches("b"));
    assert!(!regex.matches("bcb"));
    assert!(regex.matches("acbbc"));
}

#[test]
fn regex_works2() {
    let regex = Regex::new("a*b*").unwrap();

    assert!(regex.matches(""));
    assert!(regex.matches("a"));
    assert!(regex.matches("aa"));
    assert!(regex.matches("b"));
    assert!(regex.matches("bb"));
    assert!(regex.matches("aaabbb"));
    assert!(regex.matches("aaa"));
    assert!(regex.matches("bbb"));
    assert!(!regex.matches("abba"));
    assert!(!regex.matches("ba"));
}

#[test]
fn regex_works3() {
    let regex = Regex::new("(ab)*|c").unwrap();

    assert!(regex.matches(""));
    assert!(regex.matches("ab"));
    assert!(regex.matches("abab"));
    assert!(regex.matches("ababab"));
    assert!(regex.matches("c"));
    assert!(!regex.matches("a"));
    assert!(!regex.matches("b"));
    assert!(!regex.matches("abc"));
    assert!(!regex.matches("cab"));
    assert!(!regex.matches("cc"));
}

#[test]
fn regex_works4() {
    let regex = Regex::new("a(bc)*d").unwrap();

    assert!(regex.matches("ad"));
    assert!(regex.matches("abcd"));
    assert!(regex.matches("abcbcd"));
    assert!(regex.matches("abcbcbcd"));
    assert!(!regex.matches("a"));
    assert!(!regex.matches("d"));
    assert!(!regex.matches("abc"));
    assert!(!regex.matches("abcbd"));
    assert!(!regex.matches("aabcbcd"));
    assert!(!regex.matches("abcbcccd"));
}

use regex_engine::regex::RegexParseError;
use regex_engine::parser::ParseError;
use regex_engine::lexer::TokenKind;

#[test]
fn a_pattern_that_ends_early_is_refused() {
    assert_eq!(Regex::new("").err(), Some(RegexParseError::UnexpectedEOF));
    assert_eq!(Regex::new("a|").err(), Some(RegexParseError::UnexpectedEOF));
    assert_eq!(Regex::new("(ab").err(), Some(RegexParseError::UnexpectedEOF));
}

#[test]
fn a_pattern_with_a_misplaced_character_is_refused() {
    assert_eq!(Regex::new("*").err(), Some(RegexParseError::UnexpectedToken));
    assert_eq!(Regex::new("a)").err(), Some(RegexParseError::UnexpectedToken));
    assert_eq!(Regex::new("a**").err(), Some(RegexParseError::UnexpectedToken));
    assert_eq!(Regex::new("(a|b|c)").err(), Some(RegexParseError::UnexpectedToken));
}

#[test]
fn parser_failures_map_to_two_errors() {
    assert_eq!(RegexParseError::from(ParseError::UnexpectedEOF), RegexParseError::UnexpectedEOF);
    assert_eq!(
        RegexParseError::from(ParseError::UnexpectedToken(TokenKind::Bar, vec![TokenKind::RPare])),
        RegexParseError::UnexpectedToken
    );
    assert_eq!(
        RegexParseError::from(ParseError::ExpectedEOF(TokenKind::Star)),
        RegexParseError::UnexpectedToken
    );
}

#[test]
fn a_concatenation_matches_what_splits_between_its_parts() {
    let p = Regex::new("a*").unwrap();
    let q = Regex::new("(ab)*").unwrap();
    let both = Regex::new("(a*)((ab)*)").unwrap();

    for input in ["", "a", "ab", "aab", "aaab", "aabab", "abab", "ba", "abb", "b", "aba"] {
        let chars: Vec<char> = input.chars().collect();
        let splits = (0..=chars.len()).any(|k| {
            let head: String = chars[..k].iter().collect();
            let tail: String = chars[k..].iter().collect();
            p.matches(&head) && q.matches(&tail)
        });
        assert_eq!(both.matches(input), splits, "{input}");
    }
    assert!(both.matches("aaab"));
    assert!(!both.matches("aba"));
}

#[test]
fn an_alternation_matches_what_either_side_matches() {
    let p = Regex::new("ab*").unwrap();
    let q = Regex::new("(ba)*").unwrap();
    let either = Regex::new("(ab*)|((ba)*)").unwrap();

    for input in ["", "a", "b", "ab", "abb", "ba", "baba", "bab", "aba", "abba"] {
        assert_eq!(either.matches(input), p.matches(input) || q.matches(input), "{input}");
    }
    assert!(either.matches("abb"));
    assert!(either.matches("baba"));
    assert!(!either.matches("abba"));
}

#[test]
fn a_repetition_matches_the_empty_input_and_joined_pieces() {
    let p = Regex::new("(ab)|c").unwrap();
    let star = Regex::new("((ab)|c)*").unwrap();

    assert!(star.matches(""));
    for pieces in [vec!["ab"], vec!["c"], vec!["ab", "c"], vec!["c", "c", "ab"], vec!["ab", "ab", "c", "ab"]] {
        assert!(pieces.iter().all(|piece| p.matches(piece)));
        assert!(star.matches(&pieces.concat()));
    }
    assert!(!star.matches("a"));
    assert!(!star.matches("abb"));
    assert!(!star.matches("cab a"));
}

#[test]
fn a_repetition_of_what_matches_the_empty_input() {
    let regex = Regex::new("(a*)*").unwrap();

    assert!(regex.matches(""));
    assert!(regex.matches("aaa"));
    assert!(!regex.matches("b"));
}

#[test]
fn a_character_outside_the_pattern_does_not_match() {
    let regex = Regex::new("a*").unwrap();

    assert!(!regex.matches("x"));
    assert!(!regex.matches("aax"));
    assert!(!regex.matches("xaa"));
    assert!(!regex.matches("aé"));
}

#[test]
fn unparenthesized_operators_bind_as_the_grammar_says() {
    // ab|c reads as a(b|c).
    let regex = Regex::new("ab|c").unwrap();

    assert!(regex.matches("ab"));
    assert!(regex.matches("ac"));
    assert!(!regex.matches("c"));
}

#[test]
fn the_crate_root_names_the_compiled_pattern() {
    let regex = regex_engine::Regex::new("a").unwrap();
    assert!(regex.matches("a"));
}
