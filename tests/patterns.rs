use gorilla::patterns::{token_iterator, tokenize_format_string, Token};

fn words(pattern: &str) -> Vec<String> {
    token_iterator(&tokenize_format_string(pattern)).collect()
}

#[test]
fn tokenize_string_repeat() {
    let tokens = tokenize_format_string("hello{0-9}world");
    assert_eq!(tokens[1], Token::Repeat(48, 57, 48))
}

#[test]
fn tokenize_string_string() {
    let tokens = tokenize_format_string("hello{0-9}world");
    assert_eq!(tokens[2], Token::String(String::from("world")))
}

#[test]
fn tokenize_execute_letters() {
    let ac_toks = token_iterator(&tokenize_format_string("{a-z}{a-z}"));
    let result: Vec<String> = ac_toks.collect();

    assert_eq!(result.len(), 26 * 26)
}

#[test]
fn tokenize_execute_ascii() {
    let ac_toks = token_iterator(&tokenize_format_string("{ -~}"));
    let result: Vec<String> = ac_toks.collect();

    assert_eq!(result.len(), 95)
}

#[test]
fn literal_pattern_yields_itself_once() {
    let it = token_iterator(&tokenize_format_string("plain text}"));
    assert_eq!(it.calculate_total(), 1);
    assert_eq!(it.collect(), vec!["plain text}"]);
}

#[test]
fn empty_pattern_yields_one_empty_word() {
    let tokens = tokenize_format_string("");
    assert!(tokens.is_empty());
    let it = token_iterator(&tokens);
    assert_eq!(it.calculate_total(), 1);
    assert_eq!(it.collect(), vec![""]);
}

#[test]
fn lower_and_upper_ranges_give_all_pairs() {
    let result = words("{a-z}{A-Z}");
    assert_eq!(result.len(), 26 * 26);
    assert_eq!(result[0], "aA");
    assert_eq!(result[1], "bA");
    assert_eq!(result[26], "aB");
    assert_eq!(result[26 * 26 - 1], "zZ");
}

#[test]
fn leftmost_placeholder_turns_fastest() {
    assert_eq!(words("{0-1}x{a-b}"), vec!["0xa", "1xa", "0xb", "1xb"]);
}

#[test]
fn next_stops_after_the_last_word() {
    let mut it = token_iterator(&tokenize_format_string("{0-1}!"));
    assert_eq!(it.next(), Some(String::from("0!")));
    assert_eq!(it.next(), Some(String::from("1!")));
    assert_eq!(it.next(), None);
    assert_eq!(it.next(), None);
}

#[test]
fn numeric_range_renders_decimal() {
    let tokens = tokenize_format_string("{8-11}");
    assert_eq!(tokens, vec![Token::Numbers(8, 11, 0)]);
    assert_eq!(words("{8-11}"), vec!["8", "9", "10", "11"]);
}

#[test]
fn shorthand_classes_are_unioned() {
    let tokens = tokenize_format_string("{lud}");
    match &tokens[0] {
        Token::CharSet(set, 0) => assert_eq!(set.chars().count(), 62),
        other => panic!("unexpected token {:?}", other),
    }
    assert_eq!(words("{d}").concat(), "0123456789");
    assert_eq!(words("{s}").len(), 32);
    assert_eq!(words("{ll}").len(), 26);
}

#[test]
fn malformed_placeholder_is_dropped() {
    assert_eq!(tokenize_format_string("a{xyz}b"), vec![
        Token::String(String::from("a")),
        Token::String(String::from("b")),
    ]);
    assert_eq!(words("a{z-a}b"), vec!["ab"]);
}

#[test]
fn unterminated_placeholder_is_literal() {
    assert_eq!(words("ab{0-9"), vec!["ab{0-9"]);
}

#[test]
fn total_matches_full_iteration() {
    for pattern in ["{a-c}-{0-12}-{d}", "x{lu}y", "{ -~}{8-11}"] {
        let it = token_iterator(&tokenize_format_string(pattern));
        let total = it.calculate_total();
        assert_eq!(total, it.collect().len() as u128);
    }
    let it = token_iterator(&tokenize_format_string("{a-c}-{0-12}-{d}"));
    assert_eq!(it.calculate_total(), 3 * 13 * 10);
}

#[test]
fn size_is_count_times_line_length() {
    let it = token_iterator(&tokenize_format_string("hello{0-9}world"));
    assert_eq!(it.calculate_size(), 10 * (11 + 1));
    let it = token_iterator(&tokenize_format_string("{a-c}-{10-99}"));
    assert_eq!(it.calculate_size(), 3 * 90 * ("a-10".len() as u128 + 1));
}

#[test]
fn total_saturates_when_too_large() {
    let pattern = "{0-4294967295}".repeat(5);
    let it = token_iterator(&tokenize_format_string(&pattern));
    assert_eq!(it.calculate_total(), u128::MAX);
    assert_eq!(it.calculate_size(), u128::MAX);
}

#[test]
fn non_ascii_code_points() {
    assert_eq!(words("{α-γ}"), vec!["α", "β", "γ"]);
    let it = token_iterator(&tokenize_format_string("{α-γ}"));
    assert_eq!(it.calculate_size(), 3 * 3);
}

#[test]
fn token_descriptions() {
    assert_eq!(Token::Repeat(97, 122, 97).to_string(), "repeat: 97 -> 122");
    assert_eq!(Token::Numbers(0, 255, 3).to_string(), "numbers: 0 -> 255");
    assert_eq!(Token::String(String::from("ab")).to_string(), "string: ab");
    assert_eq!(Token::CharSet(String::from("xy"), 0).to_string(), "char_set: xy");
}
