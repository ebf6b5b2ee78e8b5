//! The mutation engine: actions that turn one word into zero or more
//! words, mutations that configure them, and sets that chain mutations
//! into a pipeline.
use vstd::prelude::*;
use std::cmp::Ordering;
use crate::text::{
    views, split, split_on, trim, trimmed, str_eq, parse_number, is_number, number_value,
    run_until, lemma_run_until, lemma_run_until_bound, byte_len, utf8_len, chars_of, contains,
    has_sub, replace, replace_all, repeat, push_repeated, push_str, reversed, lowercase,
    uppercase, lower_of, upper_of, string_of, decimal, push_decimal, is_space, trim_start,
    trim_end,
};
use crate::patterns::{
    tokenize_format_string, token_iterator, tokens_of, token_views, pattern_words, word_at,
    lemma_rank_zero, total, TokenView, placeholder, at_rank, with_digit, low_digit, high_digits,
    code_range_ok, lemma_single,
};

verus! {

/// What a mutation does to one word.
#[derive(Debug)]
pub enum Action {
    Prepend(String),
    Append(String),
    Replace(String, String),
    LowercaseAll,
    UppercaseAll,
    RemoveFirstLetter,
    RemoveLastLetter,
    Reverse,
    Clone,
    Wipe,
    Remove,
    Nothing,
    /// Keeps words whose byte length compares to the threshold as given;
    /// the flag negates the test.
    IfCharacterLength(bool, Ordering, usize),
    /// Keeps words that hold the text; the flag negates the test.
    IfContains(bool, String),
}

/// An action with its text as sequences of characters.
pub enum ActionView {
    Prepend(Seq<char>),
    Append(Seq<char>),
    Replace(Seq<char>, Seq<char>),
    LowercaseAll,
    UppercaseAll,
    RemoveFirstLetter,
    RemoveLastLetter,
    Reverse,
    Clone,
    Wipe,
    Remove,
    Nothing,
    IfCharacterLength(bool, Ordering, usize),
    IfContains(bool, Seq<char>),
}

impl View for Action {
    type V = ActionView;

    open spec fn view(&self) -> ActionView {
        match self {
            Action::Prepend(s) => ActionView::Prepend(s@),
            Action::Append(s) => ActionView::Append(s@),
            Action::Replace(a, b) => ActionView::Replace(a@, b@),
            Action::LowercaseAll => ActionView::LowercaseAll,
            Action::UppercaseAll => ActionView::UppercaseAll,
            Action::RemoveFirstLetter => ActionView::RemoveFirstLetter,
            Action::RemoveLastLetter => ActionView::RemoveLastLetter,
            Action::Reverse => ActionView::Reverse,
            Action::Clone => ActionView::Clone,
            Action::Wipe => ActionView::Wipe,
            Action::Remove => ActionView::Remove,
            Action::Nothing => ActionView::Nothing,
            Action::IfCharacterLength(n, o, k) => ActionView::IfCharacterLength(*n, *o, *k),
            Action::IfContains(n, s) => ActionView::IfContains(*n, s@),
        }
    }
}

/// Why a textual mutation could not be built.
#[derive(Debug)]
pub enum MutationBuildError {
    ActionDoesNotExist,
    MissingArguments,
    InvalidArgument(String),
}

pub enum BuildErrorView {
    ActionDoesNotExist,
    MissingArguments,
    InvalidArgument(Seq<char>),
}

impl View for MutationBuildError {
    type V = BuildErrorView;

    open spec fn view(&self) -> BuildErrorView {
        match self {
            MutationBuildError::ActionDoesNotExist => BuildErrorView::ActionDoesNotExist,
            MutationBuildError::MissingArguments => BuildErrorView::MissingArguments,
            MutationBuildError::InvalidArgument(s) => BuildErrorView::InvalidArgument(s@),
        }
    }
}

/// An action with its repeat count and whether the input word is kept.
pub struct Mutation {
    pub action: Action,
    pub times: usize,
    pub keep_original: bool,
}

pub struct MutationView {
    pub action: ActionView,
    pub times: usize,
    pub keep_original: bool,
}

impl View for Mutation {
    type V = MutationView;

    open spec fn view(&self) -> MutationView {
        MutationView { action: self.action@, times: self.times, keep_original: self.keep_original }
    }
}

/// Mutations applied one after the other.
pub struct MutationSet {
    pub mutations: Vec<Mutation>,
}

/// A word and what a mutation set made of it.
pub struct MutationResult {
    pub original_word: String,
    pub mutated_words: Vec<String>,
}

pub open spec fn mutation_views(v: Seq<Mutation>) -> Seq<MutationView> {
    v.map_values(|m: Mutation| m@)
}

/// How `a` compares to `b`.
pub open spec fn compare(a: nat, b: nat) -> Ordering {
    if a < b {
        Ordering::Less
    } else if a == b {
        Ordering::Equal
    } else {
        Ordering::Greater
    }
}

/// The words a pattern denotes, each written `times` times, before `w`.
pub open spec fn prepended(p: Seq<char>, times: nat, w: Seq<char>) -> Seq<Seq<char>> {
    pattern_words(tokens_of(p)).map_values(|x: Seq<char>| repeat(x, times) + w)
}

/// The words a pattern denotes, each written `times` times, after `w`.
pub open spec fn appended(p: Seq<char>, times: nat, w: Seq<char>) -> Seq<Seq<char>> {
    pattern_words(tokens_of(p)).map_values(|x: Seq<char>| w + repeat(x, times))
}

/// What the action makes of `w`, without the kept original.
pub open spec fn action_outputs(m: MutationView, w: Seq<char>) -> Seq<Seq<char>> {
    let cut = if m.times as nat > w.len() {
        w.len()
    } else {
        m.times as nat
    };
    match m.action {
        ActionView::Prepend(p) => prepended(p, m.times as nat, w),
        ActionView::Append(p) => appended(p, m.times as nat, w),
        ActionView::Replace(n, b) => if has_sub(w, n) || !m.keep_original {
            seq![replace_all(w, n, b)]
        } else {
            Seq::empty()
        },
        ActionView::LowercaseAll => seq![lower_of(w)],
        ActionView::UppercaseAll => seq![upper_of(w)],
        ActionView::RemoveFirstLetter => seq![w.subrange(cut as int, w.len() as int)],
        ActionView::RemoveLastLetter => seq![w.subrange(0, w.len() - cut)],
        ActionView::Reverse => seq![w.reverse()],
        ActionView::Clone => seq![w, w],
        ActionView::Wipe => seq![Seq::empty()],
        ActionView::Remove => Seq::empty(),
        ActionView::Nothing => seq![w],
        ActionView::IfCharacterLength(negate, ord, k) => if (compare(byte_len(w), k as nat) == ord)
            != negate {
            seq![w]
        } else {
            Seq::empty()
        },
        ActionView::IfContains(negate, t) => if has_sub(w, t) != negate {
            seq![w]
        } else {
            Seq::empty()
        },
    }
}

/// Everything a mutation emits for `w`: the kept original first, if asked
/// for, then what the action makes of it.
pub open spec fn outputs(m: MutationView, w: Seq<char>) -> Seq<Seq<char>> {
    if m.keep_original {
        seq![w] + action_outputs(m, w)
    } else {
        action_outputs(m, w)
    }
}

/// `x` written `times` times, before or after `w`.
pub open spec fn affix(x: Seq<char>, times: nat, w: Seq<char>, before: bool) -> Seq<char> {
    if before {
        repeat(x, times) + w
    } else {
        w + repeat(x, times)
    }
}

/// Appends `words[k]` written `times` times, with `w` before or after it,
/// for every `k`.
fn push_affixed(
    result: &mut Vec<String>,
    words: &Vec<String>,
    times: usize,
    w: &str,
    before: bool,
)
    ensures
        views(final(result)@) == views(old(result)@) + views(words@).map_values(
            |x: Seq<char>| affix(x, times as nat, w@, before),
        ),
{
    let ghost f = |x: Seq<char>| affix(x, times as nat, w@, before);
    let mut k: usize = 0;
    assert(views(result@) =~= views(old(result)@) + views(words@).subrange(0, 0).map_values(f));
    while k < words.len()
        invariant
            k <= words@.len(),
            f == (|x: Seq<char>| affix(x, times as nat, w@, before)),
            views(result@) == views(old(result)@) + views(words@).subrange(0, k as int).map_values(
                f,
            ),
        decreases words@.len() - k,
    {
        let mut out = String::new();
        let x = words[k].as_str();
        assert(x@ == words@[k as int]@);
        if before {
            push_repeated(&mut out, x, times);
            push_str(&mut out, w);
            assert(out@ =~= repeat(x@, times as nat) + w@);
        } else {
            push_str(&mut out, w);
            push_repeated(&mut out, x, times);
            assert(out@ =~= w@ + repeat(x@, times as nat));
        }
        assert(out@ =~= f(words@[k as int]@));
        let ghost prev = views(result@);
        let ghost o = out@;
        result.push(out);
        k = k + 1;
        proof {
            assert(views(result@) =~= prev.push(o));
            assert(views(words@).subrange(0, k as int).map_values(f) =~= views(words@).subrange(
                0,
                k - 1,
            ).map_values(f).push(f(words@[k - 1]@)));
        }
    }
    assert(views(words@).subrange(0, k as int) =~= views(words@));
}

/// The words a pattern denotes.
fn words_of_pattern(p: &str) -> (r: Vec<String>)
    ensures
        views(r@) == pattern_words(tokens_of(p@)),
{
    let toks = tokenize_format_string(p);
    proof {
        lemma_rank_zero(token_views(toks@));
    }
    let it = token_iterator(toks.as_slice());
    let r = it.collect();
    proof {
        let ts = tokens_of(p@);
        assert(views(r@) =~= pattern_words(ts));
    }
    r
}

impl Mutation {
    /// Appends to `result` what the mutation emits for `input`.
    pub fn perform(&self, result: &mut Vec<String>, input: &str)
        ensures
            views(final(result)@) == views(old(result)@) + outputs(self@, input@),
    {
        if self.keep_original {
            result.push(input.to_owned());
        }
        let ghost start = views(result@);
        proof {
            assert(start =~= views(old(result)@) + if self.keep_original {
                seq![input@]
            } else {
                Seq::<Seq<char>>::empty()
            });
        }
        match &self.action {
            Action::Prepend(s) => {
                let words = words_of_pattern(s.as_str());
                push_affixed(result, &words, self.times, input, true);
                assert(views(result@) =~= start + prepended(s@, self.times as nat, input@));
            },
            Action::Append(s) => {
                let words = words_of_pattern(s.as_str());
                push_affixed(result, &words, self.times, input, false);
                assert(views(result@) =~= start + appended(s@, self.times as nat, input@));
            },
            Action::Replace(s, b) => {
                if contains(input, s.as_str()) || !self.keep_original {
                    result.push(replace(input, s.as_str(), b.as_str()));
                }
            },
            Action::RemoveFirstLetter => {
                let v = chars_of(input);
                let cut = if self.times > v.len() {
                    v.len()
                } else {
                    self.times
                };
                result.push(string_of(&v, cut, v.len()));
            },
            Action::RemoveLastLetter => {
                let v = chars_of(input);
                let cut = if self.times > v.len() {
                    v.len()
                } else {
                    self.times
                };
                result.push(string_of(&v, 0, v.len() - cut));
            },
            Action::IfCharacterLength(negate, ord, number) => {
                let len = utf8_len(input);
                let n = *number as u128;
                let holds = match ord {
                    Ordering::Less => len < n,
                    Ordering::Equal => len == n,
                    Ordering::Greater => len > n,
                };
                if holds != *negate {
                    result.push(input.to_owned());
                }
            },
            Action::IfContains(negate, t) => {
                if contains(input, t.as_str()) != *negate {
                    result.push(input.to_owned());
                }
            },
            Action::Reverse => result.push(reversed(input)),
            Action::UppercaseAll => result.push(uppercase(input)),
            Action::LowercaseAll => result.push(lowercase(input)),
            Action::Clone => {
                result.push(input.to_owned());
                result.push(input.to_owned());
            },
            Action::Wipe => result.push(String::new()),
            Action::Nothing => result.push(input.to_owned()),
            Action::Remove => {},
        }
        assert(views(result@) =~= views(old(result)@) + outputs(self@, input@));
    }
}

/// What a mutation emits for every word of `ws`, in order.
pub open spec fn apply_all(m: MutationView, ws: Seq<Seq<char>>) -> Seq<Seq<char>>
    decreases ws.len(),
{
    if ws.len() == 0 {
        Seq::empty()
    } else {
        apply_all(m, ws.drop_last()) + outputs(m, ws.last())
    }
}

/// The words that the mutations, applied in order, make of `ws`.
pub open spec fn pipeline(ms: Seq<MutationView>, ws: Seq<Seq<char>>) -> Seq<Seq<char>>
    decreases ms.len(),
{
    if ms.len() == 0 {
        ws
    } else {
        pipeline(ms.drop_first(), apply_all(ms[0], ws))
    }
}

impl MutationSet {
    pub open spec fn view_mutations(&self) -> Seq<MutationView> {
        mutation_views(self.mutations@)
    }

    /// Runs `word` through every mutation in turn and stores what comes
    /// out in `mutation_result.mutated_words`.
    pub fn perform(&self, mutation_result: &mut MutationResult, word: &str)
        ensures
            final(mutation_result).original_word == old(mutation_result).original_word,
            views(final(mutation_result).mutated_words@) == pipeline(
                self.view_mutations(),
                seq![word@],
            ),
    {
        let mut result: Vec<String> = vec![word.to_owned()];
        let n = self.mutations.len();
        let mut i: usize = 0;
        let ghost ms = self.view_mutations();
        assert(ms.subrange(0, n as int) =~= ms);
        assert(views(result@) =~= seq![word@]);
        while i < n
            invariant
                n == self.mutations@.len(),
                ms == self.view_mutations(),
                i <= n,
                pipeline(ms.subrange(i as int, n as int), views(result@)) == pipeline(
                    ms,
                    seq![word@],
                ),
            decreases n - i,
        {
            let mut next: Vec<String> = Vec::new();
            let m = &self.mutations[i];
            assert(m@ == ms[i as int]);
            let mut j: usize = 0;
            assert(views(result@).subrange(0, 0) =~= Seq::<Seq<char>>::empty());
            assert(views(next@) =~= apply_all(m@, views(result@).subrange(0, 0)));
            while j < result.len()
                invariant
                    j <= result@.len(),
                    views(next@) == apply_all(m@, views(result@).subrange(0, j as int)),
                decreases result@.len() - j,
            {
                m.perform(&mut next, result[j].as_str());
                j = j + 1;
                proof {
                    let ws = views(result@).subrange(0, j as int);
                    assert(ws.drop_last() =~= views(result@).subrange(0, j - 1));
                    assert(ws.last() == result@[j - 1]@);
                }
            }
            assert(views(result@).subrange(0, j as int) =~= views(result@));
            proof {
                let rest = ms.subrange(i as int, n as int);
                assert(rest[0] == m@);
                assert(rest.drop_first() =~= ms.subrange(i + 1, n as int));
            }
            result = next;
            i = i + 1;
        }
        assert(ms.subrange(n as int, n as int) =~= Seq::<MutationView>::empty());
        mutation_result.mutated_words = result;
    }

    /// As `perform`, and then the untouched word once more at the end.
    pub fn perform_keep_original(&self, mutation_result: &mut MutationResult, word: &str)
        ensures
            final(mutation_result).original_word == old(mutation_result).original_word,
            views(final(mutation_result).mutated_words@) == pipeline(
                self.view_mutations(),
                seq![word@],
            ).push(word@),
    {
        self.perform(mutation_result, word);
        let ghost before = views(mutation_result.mutated_words@);
        mutation_result.mutated_words.push(word.to_owned());
        assert(views(mutation_result.mutated_words@) =~= before.push(word@));
    }

    /// A set with one mutation that passes every word through unchanged.
    pub fn empty_set() -> (r: MutationSet)
        ensures
            r.view_mutations() == seq![
                MutationView { action: ActionView::Nothing, times: 1, keep_original: false },
            ],
    {
        let mutation = Mutation { action: Action::Nothing, times: 1, keep_original: false };
        let r = MutationSet { mutations: vec![mutation] };
        assert(r.view_mutations() =~= seq![
            MutationView { action: ActionView::Nothing, times: 1, keep_original: false },
        ]);
        r
    }
}

pub open spec fn str_views(v: Seq<&str>) -> Seq<Seq<char>> {
    v.map_values(|s: &str| s@)
}

/// The comparison an operator character names.
pub open spec fn ordering_of(c: char) -> Ordering {
    if c == '>' {
        Ordering::Greater
    } else if c == '<' {
        Ordering::Less
    } else {
        Ordering::Equal
    }
}

/// The length test an `if_length` argument such as `>5` describes.
pub open spec fn length_test(arg: Seq<char>, negate: bool) -> Result<ActionView, BuildErrorView> {
    if arg.len() == 0 || !(arg[0] == '>' || arg[0] == '<' || arg[0] == '=') {
        Err(BuildErrorView::InvalidArgument("missing operator"@))
    } else if !is_count(arg.drop_first()) {
        Err(BuildErrorView::InvalidArgument("invalid number"@))
    } else {
        Ok(
            ActionView::IfCharacterLength(
                negate,
                ordering_of(arg[0]),
                count_value(arg.drop_first()) as usize,
            ),
        )
    }
}

/// The action an action name, its arguments and its options describe.
/// Arguments beyond those the action takes are ignored.
pub open spec fn action_of(name: Seq<char>, args: Seq<Seq<char>>, opts: Seq<char>) -> Result<
    ActionView,
    BuildErrorView,
> {
    let negate = opts.contains('!');
    if name == "prepend"@ {
        if args.len() >= 1 {
            Ok(ActionView::Prepend(args[0]))
        } else {
            Err(BuildErrorView::MissingArguments)
        }
    } else if name == "append"@ {
        if args.len() >= 1 {
            Ok(ActionView::Append(args[0]))
        } else {
            Err(BuildErrorView::MissingArguments)
        }
    } else if name == "replace"@ {
        if args.len() >= 2 {
            Ok(ActionView::Replace(args[0], args[1]))
        } else {
            Err(BuildErrorView::MissingArguments)
        }
    } else if name == "if_length"@ {
        if args.len() >= 1 {
            length_test(args[0], negate)
        } else {
            Err(BuildErrorView::MissingArguments)
        }
    } else if name == "if_contains"@ {
        if args.len() >= 1 {
            Ok(ActionView::IfContains(negate, args[0]))
        } else {
            Err(BuildErrorView::MissingArguments)
        }
    } else if name == "reverse"@ {
        Ok(ActionView::Reverse)
    } else if name == "clone"@ {
        Ok(ActionView::Clone)
    } else if name == "wipe"@ {
        Ok(ActionView::Wipe)
    } else if name == "nothing"@ {
        Ok(ActionView::Nothing)
    } else if name == "uppercase_all"@ {
        Ok(ActionView::UppercaseAll)
    } else if name == "lowercase_all"@ {
        Ok(ActionView::LowercaseAll)
    } else if name == "remove_last_letter"@ {
        Ok(ActionView::RemoveLastLetter)
    } else if name == "remove_first_letter"@ {
        Ok(ActionView::RemoveFirstLetter)
    } else if name == "remove"@ {
        Ok(ActionView::Remove)
    } else {
        Err(BuildErrorView::ActionDoesNotExist)
    }
}

/// Whether `s` holds the character `c`.
pub fn has_char(s: &str, c: char) -> (r: bool)
    ensures
        r == s@.contains(c),
{
    let v = chars_of(s);
    let mut i: usize = 0;
    while i < v.len()
        invariant
            v@ == s@,
            i <= v@.len(),
            forall|k: int| 0 <= k < i ==> v@[k] != c,
        decreases v@.len() - i,
    {
        if v[i] == c {
            return true;
        }
        i = i + 1;
    }
    false
}

fn length_test_exec(arg: &str, negate: bool) -> (r: Result<Action, MutationBuildError>)
    ensures
        match r {
            Ok(a) => length_test(arg@, negate) == Ok::<ActionView, BuildErrorView>(a@),
            Err(e) => length_test(arg@, negate) == Err::<ActionView, BuildErrorView>(e@),
        },
{
    let v = chars_of(arg);
    if v.len() == 0 {
        return Err(MutationBuildError::InvalidArgument("missing operator".to_owned()));
    }
    let op = v[0];
    let ord = if op == '>' {
        Ordering::Greater
    } else if op == '<' {
        Ordering::Less
    } else if op == '=' {
        Ordering::Equal
    } else {
        return Err(MutationBuildError::InvalidArgument("missing operator".to_owned()));
    };
    assert(v@.subrange(1, v@.len() as int) =~= arg@.drop_first());
    match count_in(&v, 1) {
        Some(k) => Ok(Action::IfCharacterLength(negate, ord, k)),
        None => Err(MutationBuildError::InvalidArgument("invalid number".to_owned())),
    }
}

impl Action {
    /// Builds the action that `action` names from its arguments and its
    /// options (`!` negates a condition).
    pub fn from_string(action: &str, arguments: Vec<&str>, options: &str) -> (r: Result<
        Action,
        MutationBuildError,
    >)
        ensures
            match r {
                Ok(a) => action_of(action@, str_views(arguments@), options@) == Ok::<
                    ActionView,
                    BuildErrorView,
                >(a@),
                Err(e) => action_of(action@, str_views(arguments@), options@) == Err::<
                    ActionView,
                    BuildErrorView,
                >(e@),
            },
    {
        let argc = arguments.len();
        let negate = has_char(options, '!');
        proof {
            assert(str_views(arguments@).len() == argc);
            if argc >= 1 {
                assert(str_views(arguments@)[0] == arguments@[0]@);
            }
            if argc >= 2 {
                assert(str_views(arguments@)[1] == arguments@[1]@);
            }
        }
        if str_eq(action, "prepend") {
            if argc >= 1 {
                Ok(Action::Prepend(arguments[0].to_owned()))
            } else {
                Err(MutationBuildError::MissingArguments)
            }
        } else if str_eq(action, "append") {
            if argc >= 1 {
                Ok(Action::Append(arguments[0].to_owned()))
            } else {
                Err(MutationBuildError::MissingArguments)
            }
        } else if str_eq(action, "replace") {
            if argc >= 2 {
                Ok(Action::Replace(arguments[0].to_owned(), arguments[1].to_owned()))
            } else {
                Err(MutationBuildError::MissingArguments)
            }
        } else if str_eq(action, "if_length") {
            if argc >= 1 {
                length_test_exec(arguments[0], negate)
            } else {
                Err(MutationBuildError::MissingArguments)
            }
        } else if str_eq(action, "if_contains") {
            if argc >= 1 {
                Ok(Action::IfContains(negate, arguments[0].to_owned()))
            } else {
                Err(MutationBuildError::MissingArguments)
            }
        } else if str_eq(action, "reverse") {
            Ok(Action::Reverse)
        } else if str_eq(action, "clone") {
            Ok(Action::Clone)
        } else if str_eq(action, "wipe") {
            Ok(Action::Wipe)
        } else if str_eq(action, "nothing") {
            Ok(Action::Nothing)
        } else if str_eq(action, "uppercase_all") {
            Ok(Action::UppercaseAll)
        } else if str_eq(action, "lowercase_all") {
            Ok(Action::LowercaseAll)
        } else if str_eq(action, "remove_last_letter") {
            Ok(Action::RemoveLastLetter)
        } else if str_eq(action, "remove_first_letter") {
            Ok(Action::RemoveFirstLetter)
        } else if str_eq(action, "remove") {
            Ok(Action::Remove)
        } else {
            Err(MutationBuildError::ActionDoesNotExist)
        }
    }
}

/// The digits of a count, after an optional leading `+`.
pub open spec fn count_digits(s: Seq<char>) -> Seq<char> {
    if s.len() > 0 && s[0] == '+' {
        s.drop_first()
    } else {
        s
    }
}

/// A run of digits that fits a `usize`, with an optional leading `+`, as
/// `usize`'s `FromStr` reads it.
pub open spec fn is_count(s: Seq<char>) -> bool {
    is_number(count_digits(s)) && number_value(count_digits(s)) <= usize::MAX
}

pub open spec fn count_value(s: Seq<char>) -> nat {
    number_value(count_digits(s))
}

/// The action name, repeat count and options of the text before the first
/// colon. Space-separated words before the name are a repeat count and then
/// options; a first word that is no count is the options, and a count may
/// then follow as the second word.
pub open spec fn head_fields(head: Seq<char>) -> (Seq<char>, usize, Seq<char>) {
    if !head.contains(' ') {
        (head, 1, Seq::empty())
    } else {
        let ws = split_on(head, ' ');
        let name = ws.last();
        if is_count(ws[0]) {
            (
                name,
                count_value(ws[0]) as usize,
                if ws.len() > 2 {
                    ws[1]
                } else {
                    Seq::empty()
                },
            )
        } else if ws.len() > 2 && is_count(ws[1]) {
            (name, count_value(ws[1]) as usize, ws[0])
        } else {
            (name, 1, ws[0])
        }
    }
}

/// The pieces of a textual mutation between colons, trimmed.
pub open spec fn fields_of(line: Seq<char>) -> Seq<Seq<char>> {
    split_on(line, ':').map_values(|p: Seq<char>| trimmed(p))
}

/// The mutation a line such as `2 k append:{0-9}` describes.
pub open spec fn mutation_of(line: Seq<char>) -> Result<MutationView, BuildErrorView> {
    let parts = fields_of(line);
    let (name, times, opts) = head_fields(parts[0]);
    match action_of(name, parts.drop_first(), opts) {
        Ok(a) => Ok(MutationView { action: a, times, keep_original: opts.contains('k') }),
        Err(e) => Err(e),
    }
}

/// The mutations of the lines that describe one, in order; the others are
/// left out.
pub open spec fn mutations_of(lines: Seq<Seq<char>>) -> Seq<MutationView>
    decreases lines.len(),
{
    if lines.len() == 0 {
        Seq::empty()
    } else {
        mutations_of(lines.drop_last()) + match mutation_of(lines.last()) {
            Ok(m) => seq![m],
            Err(_) => Seq::empty(),
        }
    }
}

pub proof fn lemma_split_len(s: Seq<char>, c: char)
    ensures
        split_on(s, c).len() >= 1,
        s.contains(c) ==> split_on(s, c).len() >= 2,
    decreases s.len(),
{
    lemma_run_until_bound(s, c);
    let k = run_until(s, c);
    if k >= s.len() {
        if s.contains(c) {
            let j = choose|j: int| 0 <= j < s.len() && s[j] == c;
            assert(s[j] != c);
        }
    } else {
        lemma_split_len(s.subrange(k + 1 as int, s.len() as int), c);
    }
}

/// The repeat count a word gives, if it is one.
fn parse_count(s: &str) -> (r: Option<usize>)
    ensures
        r is Some <==> is_count(s@),
        r matches Some(k) ==> k == count_value(s@),
{
    let v = chars_of(s);
    assert(v@.subrange(0, v@.len() as int) =~= s@);
    count_in(&v, 0)
}

/// The count that `v[lo..]` holds, if it is one.
fn count_in(v: &Vec<char>, lo: usize) -> (r: Option<usize>)
    requires
        lo <= v@.len(),
    ensures
        r is Some <==> is_count(v@.subrange(lo as int, v@.len() as int)),
        r matches Some(k) ==> k == count_value(v@.subrange(lo as int, v@.len() as int)),
{
    let ghost s = v@.subrange(lo as int, v@.len() as int);
    let start = if lo < v.len() && v[lo] == '+' {
        lo + 1
    } else {
        lo
    };
    assert(v@.subrange(start as int, v@.len() as int) =~= count_digits(s));
    parse_number(v, start, v.len(), usize::MAX)
}

fn head_fields_exec(head: &String) -> (r: (String, usize, String))
    ensures
        (r.0@, r.1, r.2@) == head_fields(head@),
{
    if !has_char(head.as_str(), ' ') {
        return (head.clone(), 1, String::new());
    }
    let ws = split(head.as_str(), ' ');
    proof {
        lemma_split_len(head@, ' ');
    }
    let last = ws.len() - 1;
    let name = ws[last].clone();
    assert(views(ws@)[0] == ws@[0]@);
    assert(views(ws@).last() == ws@[last as int]@);
    match parse_count(ws[0].as_str()) {
        Some(c) => {
            if ws.len() > 2 {
                assert(views(ws@)[1] == ws@[1]@);
                (name, c, ws[1].clone())
            } else {
                (name, c, String::new())
            }
        },
        None => {
            if ws.len() > 2 {
                assert(views(ws@)[1] == ws@[1]@);
                if let Some(c) = parse_count(ws[1].as_str()) {
                    return (name, c, ws[0].clone());
                }
            }
            (name, 1, ws[0].clone())
        },
    }
}

/// Builds the mutation a line such as `2 k append:{0-9}` describes.
pub fn parse_mutation(line: &str) -> (r: Result<Mutation, MutationBuildError>)
    ensures
        match r {
            Ok(m) => mutation_of(line@) == Ok::<MutationView, BuildErrorView>(m@),
            Err(e) => mutation_of(line@) == Err::<MutationView, BuildErrorView>(e@),
        },
{
    let raw = split(line, ':');
    let ghost fs = fields_of(line@);
    let mut parts: Vec<String> = Vec::new();
    let mut k: usize = 0;
    while k < raw.len()
        invariant
            k <= raw@.len(),
            views(raw@) == split_on(line@, ':'),
            fs == fields_of(line@),
            fs.len() == raw@.len(),
            parts@.len() == k,
            views(parts@) == fs.subrange(0, k as int),
        decreases raw@.len() - k,
    {
        assert(views(raw@)[k as int] == raw@[k as int]@);
        assert(fs[k as int] == trimmed(raw@[k as int]@));
        let p = trim(raw[k].as_str());
        parts.push(p);
        k = k + 1;
        assert(views(parts@) =~= fs.subrange(0, k as int));
    }
    proof {
        lemma_split_len(line@, ':');
        assert(fs.subrange(0, k as int) =~= fs);
        assert(views(parts@)[0] == parts@[0]@);
    }
    let (name, times, opts) = head_fields_exec(&parts[0]);
    let mut args: Vec<&str> = Vec::new();
    let mut j: usize = 1;
    while j < parts.len()
        invariant
            1 <= j <= parts@.len(),
            views(parts@) == fs,
            args@.len() == j - 1,
            str_views(args@) == fs.subrange(1, j as int),
        decreases parts@.len() - j,
    {
        assert(views(parts@)[j as int] == parts@[j as int]@);
        let a = parts[j].as_str();
        assert(a@ == fs[j as int]);
        args.push(a);
        assert(str_views(args@)[j - 1] == a@);
        j = j + 1;
        assert(str_views(args@) =~= fs.subrange(1, j as int));
    }
    assert(fs.subrange(1, j as int) =~= fs.drop_first());
    match Action::from_string(name.as_str(), args, opts.as_str()) {
        Ok(a) => Ok(Mutation { action: a, times, keep_original: has_char(opts.as_str(), 'k') }),
        Err(e) => Err(e),
    }
}

/// Builds the mutations the lines describe, leaving out each line that
/// describes none.
pub fn parse_mutation_string(mutation_strings: &Vec<String>) -> (r: Vec<Mutation>)
    ensures
        mutation_views(r@) == mutations_of(views(mutation_strings@)),
{
    let mut mutations: Vec<Mutation> = Vec::new();
    let mut i: usize = 0;
    assert(views(mutation_strings@).subrange(0, 0) =~= Seq::<Seq<char>>::empty());
    assert(mutation_views(mutations@) =~= Seq::<MutationView>::empty());
    while i < mutation_strings.len()
        invariant
            i <= mutation_strings@.len(),
            mutation_views(mutations@) == mutations_of(
                views(mutation_strings@).subrange(0, i as int),
            ),
        decreases mutation_strings@.len() - i,
    {
        let ghost before = mutation_views(mutations@);
        let ghost lines = views(mutation_strings@).subrange(0, i + 1);
        match parse_mutation(mutation_strings[i].as_str()) {
            Ok(m) => {
                mutations.push(m);
                assert(mutation_views(mutations@) =~= before.push(m@));
            },
            Err(_) => {
                assert(before + Seq::<MutationView>::empty() =~= before);
            },
        }
        proof {
            assert(lines.drop_last() =~= views(mutation_strings@).subrange(0, i as int));
            assert(lines.last() == mutation_strings@[i as int]@);
        }
        i = i + 1;
    }
    assert(views(mutation_strings@).subrange(0, i as int) =~= views(mutation_strings@));
    mutations
}

/// The conditions only filter: whatever they emit is the input word
/// itself, and the action adds at most one copy of it.
pub proof fn lemma_conditions_only_filter(m: MutationView, w: Seq<char>)
    requires
        m.action is IfCharacterLength || m.action is IfContains,
    ensures
        action_outputs(m, w).len() <= 1,
        forall|k: int| 0 <= k < outputs(m, w).len() ==> #[trigger] outputs(m, w)[k] == w,
{
}

/// `remove` emits nothing: the working list it is given is emptied, or,
/// where originals are kept, left as it was.
pub proof fn lemma_remove_empties(m: MutationView, ws: Seq<Seq<char>>)
    requires
        m.action is Remove,
    ensures
        !m.keep_original ==> apply_all(m, ws).len() == 0,
        m.keep_original ==> apply_all(m, ws) == ws,
    decreases ws.len(),
{
    if ws.len() > 0 {
        lemma_remove_empties(m, ws.drop_last());
        if m.keep_original {
            assert(outputs(m, ws.last()) =~= seq![ws.last()]);
            assert(ws.drop_last().push(ws.last()) =~= ws);
            assert(apply_all(m, ws) =~= ws);
        }
    }
}

/// A piece without colons or white space is a field of its own and names
/// an action with no count and no options.
proof fn lemma_bare_field(s: Seq<char>)
    requires
        s.len() > 0,
        forall|i: int| 0 <= i < s.len() ==> s[i] != ':' && !is_space(#[trigger] s[i]),
    ensures
        trimmed(s) == s,
        split_on(s, ':') == seq![s],
        head_fields(s) == (s, 1usize, Seq::<char>::empty()),
{
    lemma_run_until(s, ':', s.len() as int);
    assert(s.subrange(0, s.len() as int) =~= s);
    assert(trim_start(s) == s);
    assert(trim_end(s) == s);
    assert(!s.contains(' ')) by {
        if s.contains(' ') {
            let i = choose|i: int| 0 <= i < s.len() && s[i] == ' ';
            assert(is_space(s[i]));
        }
    }
}

/// The lines `wipe` and `append:{a-z}` describe a wipe and the appending
/// of the lowercase letters.
proof fn lemma_parse_wipe_then_letters()
    ensures
        mutations_of(seq!["wipe"@, "append:{a-z}"@]) == seq![
            MutationView { action: ActionView::Wipe, times: 1, keep_original: false },
            MutationView { action: ActionView::Append("{a-z}"@), times: 1, keep_original: false },
        ],
{
    reveal_strlit("wipe");
    reveal_strlit("append:{a-z}");
    reveal_strlit("append");
    reveal_strlit("{a-z}");
    reveal_strlit("prepend");
    reveal_strlit("replace");
    reveal_strlit("if_length");
    reveal_strlit("if_contains");
    reveal_strlit("reverse");
    reveal_strlit("clone");
    let w = "wipe"@;
    let line = "append:{a-z}"@;
    let a = "append"@;
    let p = "{a-z}"@;
    let none = Seq::<char>::empty();
    // wipe
    lemma_bare_field(w);
    assert(fields_of(w) =~= seq![w]);
    assert(fields_of(w).drop_first() =~= Seq::<Seq<char>>::empty());
    assert(!none.contains('!'));
    assert(!none.contains('k'));
    assert(action_of(w, Seq::empty(), none) == Ok::<ActionView, BuildErrorView>(ActionView::Wipe));
    let wipe = MutationView { action: ActionView::Wipe, times: 1, keep_original: false };
    assert(mutation_of(w) == Ok::<MutationView, BuildErrorView>(wipe));
    // append:{a-z}
    lemma_run_until(line, ':', 6);
    assert(line.subrange(0, 6) =~= a);
    assert(line.subrange(7, 12) =~= p);
    lemma_bare_field(a);
    lemma_bare_field(p);
    assert(split_on(line, ':') =~= seq![a, p]);
    assert(fields_of(line) =~= seq![a, p]);
    assert(fields_of(line).drop_first() =~= seq![p]);
    assert(action_of(a, seq![p], none) == Ok::<ActionView, BuildErrorView>(ActionView::Append(p)));
    let app = MutationView { action: ActionView::Append(p), times: 1, keep_original: false };
    assert(mutation_of(line) == Ok::<MutationView, BuildErrorView>(app));
    // both lines
    let lines = seq![w, line];
    assert(lines.drop_last() =~= seq![w]);
    assert(seq![w].drop_last() =~= Seq::<Seq<char>>::empty());
    assert(seq![w].last() == w);
    assert(lines.last() == line);
    assert(mutations_of(Seq::<Seq<char>>::empty()) == Seq::<MutationView>::empty());
    assert(mutations_of(seq![w]) =~= seq![wipe]);
    assert(mutations_of(lines) =~= seq![wipe, app]);
}

/// The set built from the lines `wipe` and `append:{a-z}` turns any word
/// into the lowercase letters, one word each.
pub proof fn lemma_wipe_then_letters(w: Seq<char>)
    ensures
        pipeline(mutations_of(seq!["wipe"@, "append:{a-z}"@]), seq![w]) == Seq::new(
            26,
            |i: int| seq![((97 + i) as u32) as char],
        ),
{
    lemma_parse_wipe_then_letters();
    reveal_strlit("{a-z}");
    let wipe = MutationView { action: ActionView::Wipe, times: 1, keep_original: false };
    let app = MutationView { action: ActionView::Append("{a-z}"@), times: 1, keep_original: false };
    let ms = seq![wipe, app];
    let p = "{a-z}"@;
    // the pattern compiles to one range of code points
    let q = p.drop_first();
    lemma_run_until(q, '}', 3);
    let c = p.subrange(1, 4);
    assert(c =~= seq!['a', '-', 'z']);
    lemma_run_until(c, '-', 1);
    let t = TokenView::Repeat(97, 122, 97);
    assert(code_range_ok(97, 122));
    assert(placeholder(c) =~= seq![t]);
    assert(tokens_of(p.subrange(5, 5)) =~= Seq::<TokenView>::empty());
    let ts = tokens_of(p);
    assert(ts =~= seq![t]);
    assert(ts.drop_first() =~= Seq::<TokenView>::empty());
    lemma_single(t);
    assert(total(ts) == 26);
    assert forall|n: int| 0 <= n < 26 implies #[trigger] word_at(ts, n as nat) == seq![
        ((97 + n) as u32) as char,
    ] by {
        assert(low_digit(n as nat, 26) == n);
        let a = at_rank(ts, n as nat);
        assert(a =~= seq![with_digit(t, n as nat)]) by {
            assert(at_rank(ts.drop_first(), high_digits(n as nat, 26)) =~= Seq::<TokenView>::empty());
        }
        lemma_single(with_digit(t, n as nat));
    }
    // the pipeline
    let empty = Seq::<char>::empty();
    assert(seq![w].drop_last() =~= Seq::<Seq<char>>::empty());
    assert(seq![w].last() == w);
    assert(apply_all(wipe, Seq::<Seq<char>>::empty()) == Seq::<Seq<char>>::empty());
    assert(outputs(wipe, w) =~= seq![empty]);
    assert(apply_all(wipe, seq![w]) =~= seq![empty]);
    assert(ms.drop_first() =~= seq![app]);
    assert(seq![empty].drop_last() =~= Seq::<Seq<char>>::empty());
    assert(seq![empty].last() == empty);
    assert(apply_all(app, Seq::<Seq<char>>::empty()) == Seq::<Seq<char>>::empty());
    assert(outputs(app, empty) =~= appended(p, 1, empty));
    assert(apply_all(app, seq![empty]) =~= appended(p, 1, empty));
    assert(seq![app].drop_first() =~= Seq::<MutationView>::empty());
    assert forall|x: Seq<char>| empty + repeat(x, 1) == x by {
        assert(repeat(x, 0) =~= Seq::<char>::empty());
        assert(empty + repeat(x, 1) =~= x);
    }
    assert(appended(p, 1, empty) =~= Seq::new(26, |i: int| seq![((97 + i) as u32) as char]));
    assert(ms[0] == wipe);
    assert(pipeline(ms, seq![w]) == pipeline(seq![app], seq![empty]));
    assert(seq![app][0] == app);
    assert(pipeline(seq![app], seq![empty]) == pipeline(
        Seq::<MutationView>::empty(),
        apply_all(app, seq![empty]),
    ));
}

/// How `{:?}` writes an ordering.
pub open spec fn ordering_text(o: Ordering) -> Seq<char> {
    match o {
        Ordering::Less => "Less"@,
        Ordering::Equal => "Equal"@,
        Ordering::Greater => "Greater"@,
    }
}

pub open spec fn bool_text(b: bool) -> Seq<char> {
    if b {
        "true"@
    } else {
        "false"@
    }
}

/// The text that describes an action.
pub open spec fn action_text(a: ActionView) -> Seq<char> {
    match a {
        ActionView::Prepend(s) => "prepend: "@ + s,
        ActionView::Append(s) => "append: "@ + s,
        ActionView::Replace(s, b) => "replace: "@ + s + " -> "@ + b,
        ActionView::Reverse => "reverse"@,
        ActionView::RemoveFirstLetter => "remove 1st letter"@,
        ActionView::RemoveLastLetter => "remove last letter"@,
        ActionView::Clone => "clone"@,
        ActionView::Wipe => "wipe"@,
        ActionView::Nothing => "nothing"@,
        ActionView::UppercaseAll => "uppercase all"@,
        ActionView::LowercaseAll => "lowercase all"@,
        ActionView::Remove => "remove"@,
        ActionView::IfCharacterLength(negate, o, k) => "if length "@ + ordering_text(o) + " "@
            + decimal(k as nat) + " = "@ + bool_text(!negate),
        ActionView::IfContains(negate, s) => "if contains "@ + s + " = "@ + bool_text(!negate),
    }
}

/// The text that describes a mutation, such as `3x append: {0-9}`.
pub open spec fn mutation_text(m: MutationView) -> Seq<char> {
    (if m.times > 1 {
        decimal(m.times as nat) + "x "@
    } else {
        Seq::empty()
    }) + action_text(m.action) + if m.keep_original {
        " (keeping original)"@
    } else {
        Seq::empty()
    }
}

fn push_bool(out: &mut String, b: bool)
    ensures
        final(out)@ == old(out)@ + bool_text(b),
{
    if b {
        push_str(out, "true");
    } else {
        push_str(out, "false");
    }
}

impl Mutation {
    /// A description of the mutation; it depends on the mutation's view
    /// alone.
    pub fn to_string(&self) -> (r: String)
        ensures
            r@ == mutation_text(self@),
    {
        let mut out = String::new();
        if self.times > 1 {
            push_decimal(&mut out, self.times as u64);
            push_str(&mut out, "x ");
        }
        let ghost prefix = out@;
        match &self.action {
            Action::Prepend(s) => {
                push_str(&mut out, "prepend: ");
                push_str(&mut out, s.as_str());
            },
            Action::Append(s) => {
                push_str(&mut out, "append: ");
                push_str(&mut out, s.as_str());
            },
            Action::Replace(s, b) => {
                push_str(&mut out, "replace: ");
                push_str(&mut out, s.as_str());
                push_str(&mut out, " -> ");
                push_str(&mut out, b.as_str());
            },
            Action::Reverse => push_str(&mut out, "reverse"),
            Action::RemoveFirstLetter => push_str(&mut out, "remove 1st letter"),
            Action::RemoveLastLetter => push_str(&mut out, "remove last letter"),
            Action::Clone => push_str(&mut out, "clone"),
            Action::Wipe => push_str(&mut out, "wipe"),
            Action::Nothing => push_str(&mut out, "nothing"),
            Action::UppercaseAll => push_str(&mut out, "uppercase all"),
            Action::LowercaseAll => push_str(&mut out, "lowercase all"),
            Action::Remove => push_str(&mut out, "remove"),
            Action::IfCharacterLength(negate, o, k) => {
                push_str(&mut out, "if length ");
                match o {
                    Ordering::Less => push_str(&mut out, "Less"),
                    Ordering::Equal => push_str(&mut out, "Equal"),
                    Ordering::Greater => push_str(&mut out, "Greater"),
                }
                push_str(&mut out, " ");
                push_decimal(&mut out, *k as u64);
                push_str(&mut out, " = ");
                push_bool(&mut out, !*negate);
            },
            Action::IfContains(negate, s) => {
                push_str(&mut out, "if contains ");
                push_str(&mut out, s.as_str());
                push_str(&mut out, " = ");
                push_bool(&mut out, !*negate);
            },
        }
        assert(out@ =~= prefix + action_text(self.action@));
        if self.keep_original {
            push_str(&mut out, " (keeping original)");
        }
        assert(out@ =~= mutation_text(self@));
        out
    }
}

/// What each set makes of `word`: one result per set, each set run on the
/// word itself, independently of the others.
pub fn mutate_word(sets: &Vec<MutationSet>, word: &str) -> (r: Vec<MutationResult>)
    ensures
        r@.len() == sets@.len(),
        forall|k: int|
            0 <= k < sets@.len() ==> (#[trigger] r@[k]).original_word@ == word@ && views(
                r@[k].mutated_words@,
            ) == pipeline(sets@[k].view_mutations(), seq![word@]),
{
    let mut results: Vec<MutationResult> = Vec::new();
    let mut i: usize = 0;
    while i < sets.len()
        invariant
            i <= sets@.len(),
            results@.len() == i,
            forall|k: int|
                0 <= k < i ==> (#[trigger] results@[k]).original_word@ == word@ && views(
                    results@[k].mutated_words@,
                ) == pipeline(sets@[k].view_mutations(), seq![word@]),
        decreases sets@.len() - i,
    {
        let mut mutation_result = MutationResult {
            original_word: word.to_owned(),
            mutated_words: Vec::new(),
        };
        sets[i].perform(&mut mutation_result, word);
        results.push(mutation_result);
        i = i + 1;
    }
    results
}

/// A line that is a bare name describing action `a` parses to that action,
/// once, with the original not kept.
proof fn lemma_bare_line(name: Seq<char>, a: ActionView)
    requires
        name.len() > 0,
        forall|i: int| 0 <= i < name.len() ==> name[i] != ':' && !is_space(#[trigger] name[i]),
        action_of(name, Seq::empty(), Seq::empty()) == Ok::<ActionView, BuildErrorView>(a),
    ensures
        mutations_of(seq![name]) == seq![MutationView { action: a, times: 1, keep_original: false }],
{
    lemma_bare_field(name);
    assert(fields_of(name) =~= seq![name]);
    assert(fields_of(name).drop_first() =~= Seq::<Seq<char>>::empty());
    let none = Seq::<char>::empty();
    assert(!none.contains('k'));
    let m = MutationView { action: a, times: 1, keep_original: false };
    assert(mutation_of(name) == Ok::<MutationView, BuildErrorView>(m));
    assert(seq![name].drop_last() =~= Seq::<Seq<char>>::empty());
    assert(seq![name].last() == name);
    assert(mutations_of(Seq::<Seq<char>>::empty()) == Seq::<MutationView>::empty());
    assert(mutations_of(seq![name]) =~= seq![m]);
}

/// The actions without arguments are described by their own names, and
/// reading such a description back gives the same mutation: the display
/// form of `reverse`, `clone`, `wipe`, `nothing` and `remove` survives a
/// round trip through the parser.
pub proof fn lemma_plain_names_round_trip()
    ensures
        forall|a: ActionView|
            #![trigger action_text(a)]
            (a is Reverse || a is Clone || a is Wipe || a is Nothing || a is Remove) ==> {
                let m = MutationView { action: a, times: 1, keep_original: false };
                &&& mutation_text(m) == action_text(a)
                &&& mutations_of(seq![mutation_text(m)]) == seq![m]
            },
{
    reveal_strlit("prepend");
    reveal_strlit("append");
    reveal_strlit("replace");
    reveal_strlit("if_length");
    reveal_strlit("if_contains");
    reveal_strlit("reverse");
    reveal_strlit("clone");
    reveal_strlit("wipe");
    reveal_strlit("nothing");
    reveal_strlit("uppercase_all");
    reveal_strlit("lowercase_all");
    reveal_strlit("remove_last_letter");
    reveal_strlit("remove_first_letter");
    reveal_strlit("remove");
    let none = Seq::<char>::empty();
    let e = Seq::<Seq<char>>::empty();
    assert("reverse"@[0] != "prepend"@[0] && "reverse"@[0] != "replace"@[2]);
    assert("reverse"@ != "prepend"@ && "reverse"@ != "replace"@);
    lemma_bare_line("reverse"@, ActionView::Reverse);
    assert("clone"@.len() == 5 && "wipe"@.len() == 4 && "prepend"@.len() == 7 && "append"@.len()
        == 6 && "replace"@.len() == 7 && "if_length"@.len() == 9 && "if_contains"@.len() == 11
        && "reverse"@.len() == 7);
    assert(action_of("clone"@, e, none) == Ok::<ActionView, BuildErrorView>(ActionView::Clone));
    lemma_bare_line("clone"@, ActionView::Clone);
    assert("clone"@.len() != "wipe"@.len());
    assert(action_of("wipe"@, e, none) == Ok::<ActionView, BuildErrorView>(ActionView::Wipe));
    lemma_bare_line("wipe"@, ActionView::Wipe);
    assert("nothing"@[0] != "prepend"@[0] && "nothing"@[0] != "replace"@[0] && "nothing"@[0]
        != "reverse"@[0]);
    assert("nothing"@ != "prepend"@ && "nothing"@ != "replace"@ && "nothing"@ != "reverse"@);
    lemma_bare_line("nothing"@, ActionView::Nothing);
    assert("remove"@[0] != "append"@[0]);
    assert("remove"@ != "append"@);
    assert("remove"@.len() == 6 && "nothing"@.len() == 7 && "uppercase_all"@.len() == 13
        && "lowercase_all"@.len() == 13 && "remove_last_letter"@.len() == 18
        && "remove_first_letter"@.len() == 19);
    assert(action_of("remove"@, e, none) == Ok::<ActionView, BuildErrorView>(ActionView::Remove));
    lemma_bare_line("remove"@, ActionView::Remove);
    assert forall|a: ActionView|
        #![trigger action_text(a)]
        (a is Reverse || a is Clone || a is Wipe || a is Nothing || a is Remove) implies {
        let m = MutationView { action: a, times: 1, keep_original: false };
        &&& mutation_text(m) == action_text(a)
        &&& mutations_of(seq![mutation_text(m)]) == seq![m]
    } by {
        let m = MutationView { action: a, times: 1, keep_original: false };
        assert(mutation_text(m) =~= action_text(a));
    }
}

} // verus!
