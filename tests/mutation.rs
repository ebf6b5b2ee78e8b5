use gorilla::mutation::{
    mutate_word, parse_mutation, parse_mutation_string, Action, Mutation, MutationBuildError,
    MutationResult, MutationSet,
};
use std::cmp::Ordering;

fn run(mutations: Vec<Mutation>, word: &str) -> Vec<String> {
    let mut mutation_result = MutationResult {
        original_word: String::from(word),
        mutated_words: vec![],
    };
    MutationSet { mutations }.perform(&mut mutation_result, word);
    mutation_result.mutated_words
}

fn one(action: Action) -> Mutation {
    Mutation { action, times: 1, keep_original: false }
}

fn lines(items: &[&str]) -> Vec<String> {
    items.iter().map(|s| s.to_string()).collect()
}

#[test]
fn basic_mutations() {
    let mut mutation_result = MutationResult {
        original_word: String::from("word"),
        mutated_words: vec![],
    };

    let mutation_set = MutationSet {
        mutations: vec![
            Mutation {
                action: Action::Reverse,
                times: 1,
                keep_original: false,
            },
            Mutation {
                action: Action::Append(String::from("abc")),
                times: 1,
                keep_original: false,
            },
            Mutation {
                action: Action::Prepend(String::from("abc")),
                times: 1,
                keep_original: false,
            },
        ],
    };

    mutation_set.perform(&mut mutation_result, "word");

    assert_eq!(mutation_result.mutated_words, vec!["abcdrowabc"])
}

#[test]
fn advanced_mutation() {
    let mut mutation_result = MutationResult {
        original_word: String::from("word"),
        mutated_words: vec![],
    };

    let mutation_set = MutationSet {
        mutations: vec![Mutation {
            action: Action::Append(String::from("{0-9}")),
            times: 1,
            keep_original: false,
        }],
    };

    mutation_set.perform(&mut mutation_result, "word");

    assert_eq!(
        mutation_result.mutated_words,
        vec![
            "word0", "word1", "word2", "word3", "word4", "word5", "word6", "word7", "word8",
            "word9"
        ]
    )
}

#[test]
fn wipe_then_letters_for_any_input() {
    let set = MutationSet { mutations: parse_mutation_string(&lines(&["wipe", "append:{a-z}"])) };
    for word in ["word", "", "Zebra 42"] {
        let mut result = MutationResult { original_word: String::from(word), mutated_words: vec![] };
        set.perform(&mut result, word);
        let expected: Vec<String> = ('a'..='z').map(|c| c.to_string()).collect();
        assert_eq!(result.mutated_words, expected);
    }
}

#[test]
fn conditions_only_filter() {
    let long = Action::IfCharacterLength(false, Ordering::Greater, 3);
    assert_eq!(run(vec![one(long)], "word"), vec!["word"]);
    let long = Action::IfCharacterLength(false, Ordering::Greater, 3);
    assert!(run(vec![one(long)], "abc").is_empty());
    let not_equal = Action::IfCharacterLength(true, Ordering::Equal, 3);
    assert_eq!(run(vec![one(not_equal)], "abcd"), vec!["abcd"]);
    let short = Action::IfCharacterLength(false, Ordering::Less, 2);
    assert!(run(vec![one(short)], "é").is_empty());
    assert_eq!(run(vec![one(Action::IfContains(false, String::from("or")))], "word"), vec!["word"]);
    assert!(run(vec![one(Action::IfContains(true, String::from("or")))], "word").is_empty());
    let kept = Mutation { action: Action::IfContains(false, String::from("x")), times: 1, keep_original: true };
    assert_eq!(run(vec![kept], "word"), vec!["word"]);
}

#[test]
fn remove_empties_the_list() {
    let set = vec![one(Action::Clone), one(Action::Clone), one(Action::Remove)];
    assert!(run(set, "word").is_empty());
    let kept = Mutation { action: Action::Remove, times: 1, keep_original: true };
    assert_eq!(run(vec![one(Action::Clone), kept], "word"), vec!["word", "word"]);
}

#[test]
fn each_action() {
    assert_eq!(run(vec![one(Action::UppercaseAll)], "Straße"), vec!["STRASSE"]);
    assert_eq!(run(vec![one(Action::LowercaseAll)], "WoRD"), vec!["word"]);
    assert_eq!(run(vec![one(Action::Reverse)], "héllo"), vec!["olléh"]);
    assert_eq!(run(vec![one(Action::Clone)], "w"), vec!["w", "w"]);
    assert_eq!(run(vec![one(Action::Wipe)], "w"), vec![""]);
    assert_eq!(run(vec![one(Action::Nothing)], "w"), vec!["w"]);
    let replace = Action::Replace(String::from("o"), String::from("0"));
    assert_eq!(run(vec![one(replace)], "foo bo"), vec!["f00 b0"]);
    let around = Action::Replace(String::new(), String::from("-"));
    assert_eq!(run(vec![one(around)], "ab"), vec!["-a-b-"]);
}

#[test]
fn replace_with_keep_original() {
    let m = || Mutation {
        action: Action::Replace(String::from("a"), String::from("4")),
        times: 1,
        keep_original: true,
    };
    assert_eq!(run(vec![m()], "cat"), vec!["cat", "c4t"]);
    assert_eq!(run(vec![m()], "dog"), vec!["dog"]);
}

#[test]
fn repeat_counts() {
    let first = Mutation { action: Action::RemoveFirstLetter, times: 2, keep_original: false };
    assert_eq!(run(vec![first], "word"), vec!["rd"]);
    let last = Mutation { action: Action::RemoveLastLetter, times: 9, keep_original: false };
    assert_eq!(run(vec![last], "word"), vec![""]);
    let app = Mutation { action: Action::Append(String::from("{0-1}")), times: 3, keep_original: true };
    assert_eq!(run(vec![app], "w"), vec!["w", "w000", "w111"]);
    let pre = Mutation { action: Action::Prepend(String::from("ab")), times: 2, keep_original: false };
    assert_eq!(run(vec![pre], "w"), vec!["ababw"]);
}

#[test]
fn per_mutation_perform_appends() {
    let mut out = vec![String::from("x")];
    one(Action::Clone).perform(&mut out, "y");
    assert_eq!(out, vec!["x", "y", "y"]);
}

#[test]
fn empty_set_passes_words_through() {
    let mut result = MutationResult { original_word: String::from("w"), mutated_words: vec![] };
    MutationSet::empty_set().perform(&mut result, "w");
    assert_eq!(result.mutated_words, vec!["w"]);
    assert_eq!(result.original_word, "w");
}

#[test]
fn sets_run_independently() {
    let sets = vec![
        MutationSet { mutations: vec![one(Action::Reverse)] },
        MutationSet { mutations: vec![one(Action::Clone)] },
    ];
    let results = mutate_word(&sets, "ab");
    assert_eq!(results.len(), 2);
    assert_eq!(results[0].mutated_words, vec!["ba"]);
    assert_eq!(results[1].mutated_words, vec!["ab", "ab"]);
    assert_eq!(results[1].original_word, "ab");
}

#[test]
fn parse_counts_and_options() {
    let m = parse_mutation("2 k append:{0-9}").unwrap();
    assert!(matches!(&m.action, Action::Append(s) if s == "{0-9}"));
    assert_eq!(m.times, 2);
    assert!(m.keep_original);
    let m = parse_mutation("k 3 prepend : x ").unwrap();
    assert!(matches!(&m.action, Action::Prepend(s) if s == "x"));
    assert_eq!(m.times, 3);
    assert!(m.keep_original);
    let m = parse_mutation("  reverse ").unwrap();
    assert!(matches!(m.action, Action::Reverse));
    assert_eq!(m.times, 1);
    assert!(!m.keep_original);
    let m = parse_mutation("! if_contains:abc").unwrap();
    assert!(matches!(&m.action, Action::IfContains(true, s) if s == "abc"));
    let m = parse_mutation("if_length:<7").unwrap();
    assert!(matches!(m.action, Action::IfCharacterLength(false, Ordering::Less, 7)));
    let m = parse_mutation("replace:a:4").unwrap();
    assert!(matches!(&m.action, Action::Replace(a, b) if a == "a" && b == "4"));
}

#[test]
fn build_errors() {
    assert!(matches!(parse_mutation("explode"), Err(MutationBuildError::ActionDoesNotExist)));
    assert!(matches!(parse_mutation("append"), Err(MutationBuildError::MissingArguments)));
    assert!(matches!(parse_mutation("replace:a"), Err(MutationBuildError::MissingArguments)));
    assert!(matches!(
        parse_mutation("if_length:7"),
        Err(MutationBuildError::InvalidArgument(s)) if s == "missing operator"
    ));
    assert!(matches!(
        parse_mutation("if_length:>seven"),
        Err(MutationBuildError::InvalidArgument(s)) if s == "invalid number"
    ));
    assert!(matches!(
        Action::from_string("if_length", vec![""], ""),
        Err(MutationBuildError::InvalidArgument(s)) if s == "missing operator"
    ));
    assert!(matches!(Action::from_string("wipe", vec!["ignored"], ""), Ok(Action::Wipe)));
}

#[test]
fn failed_lines_are_skipped() {
    let ms = parse_mutation_string(&lines(&["reverse", "explode", "append"]));
    assert_eq!(ms.len(), 1);
    assert!(matches!(ms[0].action, Action::Reverse));
}

#[test]
fn mutation_descriptions() {
    let m = Mutation { action: Action::Append(String::from("{0-9}")), times: 3, keep_original: true };
    assert_eq!(m.to_string(), "3x append: {0-9} (keeping original)");
    let m = one(Action::IfCharacterLength(false, Ordering::Greater, 5));
    assert_eq!(m.to_string(), "if length Greater 5 = true");
    let m = one(Action::Replace(String::from("a"), String::from("4")));
    assert_eq!(m.to_string(), "replace: a -> 4");
    assert_eq!(one(Action::RemoveFirstLetter).to_string(), "remove 1st letter");
    let m = one(Action::IfContains(true, String::from("x")));
    assert_eq!(m.to_string(), "if contains x = false");
}

#[test]
fn description_is_stable_across_parses() {
    for line in ["2 k append:{0-9}", "reverse", "! if_length:=4"] {
        let a = parse_mutation(line).unwrap().to_string();
        let b = parse_mutation(line).unwrap().to_string();
        assert_eq!(a, b);
    }
}

#[test]
fn global_keep_original_appends_the_seed() {
    let set = MutationSet { mutations: vec![one(Action::Remove)] };
    let mut result = MutationResult { original_word: String::from("w"), mutated_words: vec![] };
    set.perform_keep_original(&mut result, "w");
    assert_eq!(result.mutated_words, vec!["w"]);
    let set = MutationSet { mutations: vec![one(Action::Reverse)] };
    set.perform_keep_original(&mut result, "ab");
    assert_eq!(result.mutated_words, vec!["ba", "ab"]);
}

#[test]
fn plain_names_round_trip() {
    for name in ["reverse", "clone", "wipe", "nothing", "remove"] {
        let m = &parse_mutation_string(&lines(&[name]))[0];
        assert_eq!(m.to_string(), name);
        let again = &parse_mutation_string(&vec![m.to_string()])[0];
        assert_eq!(again.to_string(), name);
        assert_eq!(again.times, 1);
        assert!(!again.keep_original);
    }
}

#[test]
fn counts_may_carry_a_plus() {
    let m = parse_mutation("+2 append:x").unwrap();
    assert_eq!(m.times, 2);
    let m = parse_mutation("if_length:>+3").unwrap();
    assert!(matches!(m.action, Action::IfCharacterLength(false, Ordering::Greater, 3)));
    let m = parse_mutation("+ reverse").unwrap();
    assert_eq!(m.times, 1);
}
