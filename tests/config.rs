use gorilla::config::{get_mutation_sets, parse_formatting_yaml, ConfigError};
use gorilla::formatting::{answers_from_row, FormatFieldAnswer, FormatPart, FormatSet, FormattingSets};
use gorilla::mutation::{MutationResult, MutationSet};

#[test]
fn yaml_parse_test() {
    let mut mutation_result = MutationResult {
        original_word: String::from("word"),
        mutated_words: vec![],
    };

    let mutation_sets = get_mutation_sets(
        "name: alphabet
mutation_sets:
  - [ wipe, \"append:{a-z}\" ] # => a, b, c, ..., z",
    )
    .unwrap();

    mutation_sets[0].perform(&mut mutation_result, "word");

    assert_eq!(mutation_result.mutated_words.len(), 26);
}

#[test]
fn yaml_errors() {
    assert!(matches!(get_mutation_sets("name: [unclosed"), Err(ConfigError::Syntax)));
    assert!(matches!(get_mutation_sets("mutation_sets: []"), Err(ConfigError::Malformed)));
    assert!(matches!(get_mutation_sets("name: x\nmutation_sets: [ 3 ]"), Err(ConfigError::Malformed)));
}

#[test]
fn formatting_yaml_generates_words() {
    let f = parse_formatting_yaml(
        "name: people
fields:
  - [ first, \"First name?\" ]
  - [ year ]
formatting_sets:
  - [ \"{first}\", [ \"{year}\", [ reverse ] ] ]
  - [ [ \"{first}\", uppercase_all ], \"!\" ]",
    )
    .unwrap();
    assert_eq!(f.name, "people");
    assert_eq!(f.fields.len(), 2);
    assert_eq!(f.fields[0].question.as_deref(), Some("First name?"));
    assert_eq!(f.fields[1].question, None);
    let answers = answers_from_row(
        &vec![String::from("first"), String::from("year")],
        &vec![String::from("ana"), String::from("1987")],
    );
    assert_eq!(f.generate_words(answers), vec!["ana7891", "ANA!"]);
}

#[test]
fn placeholder_and_generate_words() {
    let a = FormatFieldAnswer { name: String::from("n"), answer: String::from("x") };
    assert_eq!(a.placeholder(), "{n}");
    let mut set = FormatSet::new();
    assert!(set.parts.is_empty());
    set.parts.push(FormatPart { text: String::from("<{n}{n}>"), mutations: MutationSet::empty_set() });
    set.parts.push(FormatPart { text: String::from("{m}"), mutations: MutationSet { mutations: vec![] } });
    let sets = FormattingSets { name: String::from("t"), fields: vec![], sets: vec![set] };
    assert_eq!(sets.generate_words(vec![a]), vec!["<xx>{m}"]);
    let mut result = MutationResult { original_word: String::new(), mutated_words: vec![] };
    MutationSet { mutations: vec![] }.perform(&mut result, "w");
    assert_eq!(result.mutated_words, vec!["w"]);
}

#[test]
fn wide_lines_are_refused() {
    let deep = format!("name: x\nmutation_sets: [ [ \"{}\" ] ]", "a".repeat(300));
    assert!(matches!(get_mutation_sets(&deep), Err(ConfigError::Malformed)));
    let nested = "- ".repeat(200) + "x";
    assert!(matches!(get_mutation_sets(&nested), Err(ConfigError::Malformed)));
}

#[test]
fn deepest_narrow_nesting_loads() {
    let mut text = String::new();
    for k in 0..236 {
        text.push_str(&" ".repeat(k));
        text.push_str("a:\n");
    }
    for _ in 0..250 {
        text.push_str(&" ".repeat(237));
        text.push_str("[\n");
    }
    for _ in 0..250 {
        text.push_str(&" ".repeat(237));
        text.push_str("]\n");
    }
    let r = get_mutation_sets(&text);
    assert!(r.is_err());
    let compact = "- ".repeat(119) + "x";
    assert!(matches!(get_mutation_sets(&compact), Err(ConfigError::Malformed)));
}

#[test]
fn mutation_lists_for_reporting() {
    let lists = gorilla::config::mutation_lists("name: n\nmutation_sets:\n  - [ reverse, explode ]\n  - [ wipe ]").unwrap();
    assert_eq!(lists, vec![vec!["reverse", "explode"], vec!["wipe"]]);
}

#[test]
fn demo_formatting_document() {
    let f = parse_formatting_yaml(
        "name: demo\nfields: [[name, Your name]]\nformatting_sets: [['{name}', ['123', reverse]]]",
    )
    .unwrap();
    assert_eq!(f.name, "demo");
    assert_eq!(f.fields.len(), 1);
    assert_eq!(f.fields[0].name, "name");
    assert_eq!(f.fields[0].question.as_deref(), Some("Your name"));
    assert_eq!(f.sets.len(), 1);
    let parts = &f.sets[0].parts;
    assert_eq!(parts.len(), 2);
    assert_eq!(parts[0].text, "{name}");
    assert_eq!(parts[0].mutations.mutations.len(), 1);
    assert!(matches!(parts[0].mutations.mutations[0].action, gorilla::mutation::Action::Nothing));
    assert_eq!(parts[1].text, "123");
    assert_eq!(parts[1].mutations.mutations.len(), 1);
    let m = &parts[1].mutations.mutations[0];
    assert!(matches!(m.action, gorilla::mutation::Action::Reverse));
    assert_eq!(m.times, 1);
    assert!(!m.keep_original);
}

#[test]
fn one_item_part_is_plain() {
    let f = parse_formatting_yaml("name: d\nfields: []\nformatting_sets: [[['abc'], 7, x]]").unwrap();
    let parts = &f.sets[0].parts;
    assert_eq!(parts.len(), 2);
    assert_eq!(parts[0].text, "abc");
    assert_eq!(parts[1].text, "x");
    assert_eq!(f.generate_words(vec![]), vec!["abcx"]);
    assert!(matches!(
        parse_formatting_yaml("name: d\nfields: []\nformatting_sets: [[[]]]"),
        Err(ConfigError::Malformed)
    ));
}

#[test]
fn mutation_sets_follow_their_lists() {
    let sets = get_mutation_sets("name: alphabet\nmutation_sets:\n  - [ wipe, \"append:{a-z}\" ]\n  - [ reverse ]").unwrap();
    assert_eq!(sets.len(), 2);
    assert_eq!(sets[0].mutations.len(), 2);
    assert!(matches!(sets[0].mutations[0].action, gorilla::mutation::Action::Wipe));
    assert!(matches!(&sets[0].mutations[1].action, gorilla::mutation::Action::Append(s) if s == "{a-z}"));
    assert!(matches!(sets[1].mutations[0].action, gorilla::mutation::Action::Reverse));
    assert!(matches!(get_mutation_sets(""), Err(ConfigError::Syntax)));
}

#[test]
fn config_name_reads_the_name() {
    assert_eq!(gorilla::config::config_name("name: alphabet\nx: 1").as_deref(), Some("alphabet"));
    assert_eq!(gorilla::config::config_name("x: 1"), None);
}
