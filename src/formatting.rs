//! Formatting templates: literal parts, each with its own mutation set,
//! whose `{name}` placeholders are filled from named answers.
use vstd::prelude::*;
use crate::text::{views, replace, replace_all, push_char, push_str};
use crate::mutation::{MutationSet, MutationResult, MutationView, pipeline};

verus! {

/// A piece of a template and the mutations applied to it once filled.
pub struct FormatPart {
    pub text: String,
    pub mutations: MutationSet,
}

/// A template: its parts, joined in order.
pub struct FormatSet {
    pub parts: Vec<FormatPart>,
}

/// A named field to fill, with the question to ask for it.
pub struct FormatField {
    pub name: String,
    pub question: Option<String>,
}

/// Named templates and the fields they use.
pub struct FormattingSets {
    pub name: String,
    pub fields: Vec<FormatField>,
    pub sets: Vec<FormatSet>,
}

/// The value given for a field.
pub struct FormatFieldAnswer {
    pub name: String,
    pub answer: String,
}

impl View for FormatPart {
    type V = (Seq<char>, Seq<MutationView>);

    open spec fn view(&self) -> (Seq<char>, Seq<MutationView>) {
        (self.text@, self.mutations.view_mutations())
    }
}

impl View for FormatFieldAnswer {
    type V = (Seq<char>, Seq<char>);

    open spec fn view(&self) -> (Seq<char>, Seq<char>) {
        (self.name@, self.answer@)
    }
}

pub open spec fn part_views(v: Seq<FormatPart>) -> Seq<(Seq<char>, Seq<MutationView>)> {
    v.map_values(|p: FormatPart| p@)
}

pub open spec fn answer_views(v: Seq<FormatFieldAnswer>) -> Seq<(Seq<char>, Seq<char>)> {
    v.map_values(|a: FormatFieldAnswer| a@)
}

/// The placeholder that stands for a field: its name in braces.
pub open spec fn braced(name: Seq<char>) -> Seq<char> {
    seq!['{'] + name + seq!['}']
}

/// `text` with the placeholder of each answer replaced by the answer, the
/// answers taken in order.
pub open spec fn filled(text: Seq<char>, answers: Seq<(Seq<char>, Seq<char>)>) -> Seq<char>
    decreases answers.len(),
{
    if answers.len() == 0 {
        text
    } else {
        replace_all(
            filled(text, answers.drop_last()),
            braced(answers.last().0),
            answers.last().1,
        )
    }
}

/// The first word the mutations make of `text`, or nothing.
pub open spec fn first_output(ms: Seq<MutationView>, text: Seq<char>) -> Seq<char> {
    let out = pipeline(ms, seq![text]);
    if out.len() > 0 {
        out[0]
    } else {
        Seq::empty()
    }
}

/// The word a template gives for the answers.
pub open spec fn template_word(
    parts: Seq<(Seq<char>, Seq<MutationView>)>,
    answers: Seq<(Seq<char>, Seq<char>)>,
) -> Seq<char>
    decreases parts.len(),
{
    if parts.len() == 0 {
        Seq::empty()
    } else {
        template_word(parts.drop_last(), answers) + first_output(
            parts.last().1,
            filled(parts.last().0, answers),
        )
    }
}

impl FormatFieldAnswer {
    /// The placeholder that this answer fills.
    pub fn placeholder(&self) -> (r: String)
        ensures
            r@ == braced(self.name@),
    {
        let mut result = String::new();
        push_char(&mut result, '{');
        push_str(&mut result, self.name.as_str());
        push_char(&mut result, '}');
        assert(result@ =~= braced(self.name@));
        result
    }
}

/// `text` with the placeholders of the answers filled.
fn fill(text: &String, answers: &Vec<FormatFieldAnswer>) -> (r: String)
    ensures
        r@ == filled(text@, answer_views(answers@)),
{
    let mut p_text = text.clone();
    let mut k: usize = 0;
    assert(answer_views(answers@).subrange(0, 0) =~= Seq::<(Seq<char>, Seq<char>)>::empty());
    while k < answers.len()
        invariant
            k <= answers@.len(),
            p_text@ == filled(text@, answer_views(answers@).subrange(0, k as int)),
        decreases answers@.len() - k,
    {
        let a = &answers[k];
        let ph = a.placeholder();
        p_text = replace(p_text.as_str(), ph.as_str(), a.answer.as_str());
        k = k + 1;
        proof {
            let s = answer_views(answers@).subrange(0, k as int);
            assert(s.drop_last() =~= answer_views(answers@).subrange(0, k - 1));
            assert(s.last() == a@);
        }
    }
    assert(answer_views(answers@).subrange(0, k as int) =~= answer_views(answers@));
    p_text
}

impl FormattingSets {
    /// One word per template: its parts filled from the answers, each run
    /// through its mutations, and the first word of each joined in order.
    pub fn generate_words(&self, answers: Vec<FormatFieldAnswer>) -> (r: Vec<String>)
        ensures
            views(r@) == Seq::new(
                self.sets@.len(),
                |i: int| template_word(part_views(self.sets@[i].parts@), answer_views(answers@)),
            ),
    {
        let mut result: Vec<String> = Vec::new();
        let mut i: usize = 0;
        while i < self.sets.len()
            invariant
                i <= self.sets@.len(),
                views(result@) == Seq::new(
                    i as nat,
                    |k: int| template_word(part_views(self.sets@[k].parts@), answer_views(answers@)),
                ),
            decreases self.sets@.len() - i,
        {
            let fmt_set = &self.sets[i];
            let ghost ps = part_views(fmt_set.parts@);
            let mut final_string = String::new();
            let mut j: usize = 0;
            assert(ps.subrange(0, 0) =~= Seq::<(Seq<char>, Seq<MutationView>)>::empty());
            while j < fmt_set.parts.len()
                invariant
                    j <= fmt_set.parts@.len(),
                    ps == part_views(fmt_set.parts@),
                    final_string@ == template_word(ps.subrange(0, j as int), answer_views(answers@)),
                decreases fmt_set.parts@.len() - j,
            {
                let part = &fmt_set.parts[j];
                let p_text = fill(&part.text, &answers);
                let mut mutation_result = MutationResult {
                    original_word: p_text.clone(),
                    mutated_words: Vec::new(),
                };
                part.mutations.perform(&mut mutation_result, p_text.as_str());
                let ghost outs = views(mutation_result.mutated_words@);
                if mutation_result.mutated_words.len() > 0 {
                    assert(outs[0] == mutation_result.mutated_words@[0]@);
                    push_str(&mut final_string, mutation_result.mutated_words[0].as_str());
                } else {
                    assert(final_string@ =~= final_string@ + Seq::<char>::empty());
                }
                j = j + 1;
                proof {
                    let s = ps.subrange(0, j as int);
                    assert(s.drop_last() =~= ps.subrange(0, j - 1));
                    assert(s.last() == part@);
                }
            }
            assert(ps.subrange(0, j as int) =~= ps);
            let ghost before = views(result@);
            result.push(final_string);
            i = i + 1;
            assert(views(result@) =~= Seq::new(
                i as nat,
                |k: int| template_word(part_views(self.sets@[k].parts@), answer_views(answers@)),
            )) by {
                assert(views(result@) =~= before.push(final_string@));
            }
        }
        result
    }
}

impl FormatSet {
    /// A template with no parts.
    pub fn new() -> (r: FormatSet)
        ensures
            r.parts@.len() == 0,
    {
        FormatSet { parts: Vec::new() }
    }
}

/// The answers one row of a table gives: each cell under its column's
/// header.
pub fn answers_from_row(headers: &Vec<String>, row: &Vec<String>) -> (r: Vec<FormatFieldAnswer>)
    requires
        row@.len() <= headers@.len(),
    ensures
        r@.len() == row@.len(),
        forall|k: int| 0 <= k < row@.len() ==> #[trigger] r@[k]@ == (headers@[k]@, row@[k]@),
{
    let mut answers: Vec<FormatFieldAnswer> = Vec::new();
    let mut column: usize = 0;
    while column < row.len()
        invariant
            row@.len() <= headers@.len(),
            column <= row@.len(),
            answers@.len() == column,
            forall|k: int| 0 <= k < column ==> #[trigger] answers@[k]@ == (headers@[k]@, row@[k]@),
        decreases row@.len() - column,
    {
        answers.push(
            FormatFieldAnswer { name: headers[column].clone(), answer: row[column].clone() },
        );
        column = column + 1;
    }
    answers
}

} // verus!
