//! Mutation sets and formatting templates read from YAML documents.
//!
//! The YAML parser is yaml-rust's. A node of a document is addressed by its
//! path from the document's root; what yaml-rust finds there is named
//! `yaml_node_at`, and every reader here is stated exactly over that name.
use vstd::prelude::*;
use yaml_rust::{Yaml, YamlLoader};
use crate::text::views;
use crate::mutation::{MutationSet, MutationView, parse_mutation_string, mutations_of, ActionView};
use crate::formatting::{FormatPart, FormatSet, FormatField, FormattingSets, part_views};

verus! {

/// Lines of YAML text are kept narrower than this. Block nesting goes one
/// column deeper a level and flow nesting stops at a fixed depth, so the
/// width bounds how deeply the loader recurses.
pub const MAX_COLUMN: usize = 240;

/// How many characters precede position `i` of `s` on its line.
pub open spec fn column(s: Seq<char>, i: int) -> nat
    decreases i,
{
    if i <= 0 {
        0
    } else if s[i - 1] == '\n' {
        0
    } else {
        column(s, i - 1) + 1
    }
}

/// Every character of `s` stands before column `MAX_COLUMN`.
pub open spec fn narrow(s: Seq<char>) -> bool {
    forall|i: int| 0 <= i < s.len() ==> #[trigger] column(s, i) < MAX_COLUMN
}

/// Whether every line of `text` is narrower than `MAX_COLUMN`.
pub fn is_narrow(text: &str) -> (r: bool)
    ensures
        r == narrow(text@),
{
    let v = crate::text::chars_of(text);
    let mut col: usize = 0;
    let mut i: usize = 0;
    while i < v.len()
        invariant
            v@ == text@,
            i <= v@.len(),
            col == column(v@, i as int),
            forall|k: int| 0 <= k < i ==> #[trigger] column(v@, k) < MAX_COLUMN,
        decreases v@.len() - i,
    {
        if col >= MAX_COLUMN {
            return false;
        }
        col = if v[i] == '\n' {
            0
        } else {
            col + 1
        };
        i = i + 1;
    }
    true
}

/// One step of a path into a document: a key of a mapping or a position
/// in a sequence.
pub enum PathStep {
    Key(String),
    Index(usize),
}

pub enum StepView {
    Key(Seq<char>),
    Index(usize),
}

impl View for PathStep {
    type V = StepView;

    open spec fn view(&self) -> StepView {
        match self {
            PathStep::Key(k) => StepView::Key(k@),
            PathStep::Index(i) => StepView::Index(*i),
        }
    }
}

pub open spec fn steps(p: Seq<PathStep>) -> Seq<StepView> {
    p.map_values(|s: PathStep| s@)
}

/// What the configuration sees of a node: its text, the length of a
/// sequence, or another kind of value (a missing one included).
pub enum YamlNode {
    Text(String),
    List(usize),
    Other,
}

pub enum NodeView {
    Text(Seq<char>),
    List(nat),
    Other,
}

impl View for YamlNode {
    type V = NodeView;

    open spec fn view(&self) -> NodeView {
        match self {
            YamlNode::Text(s) => NodeView::Text(s@),
            YamlNode::List(n) => NodeView::List(*n as nat),
            YamlNode::Other => NodeView::Other,
        }
    }
}

/// What yaml-rust finds at a path of the first document of a text; `None`
/// where the text does not load or holds no document.
pub uninterp spec fn yaml_node_at(text: Seq<char>, path: Seq<StepView>) -> Option<NodeView>;

/// Relies on yaml_rust::YamlLoader::load_from_str and the `Index<&str>` and
/// `Index<usize>` impls of yaml_rust::Yaml (a missing key or position gives
/// a bad value): the node at `path` in the text's first document. The result
/// depends on the text and the path alone; it is `None` exactly where the
/// text loads to no document. The loader recurses once per level of
/// nesting, so only narrow text is handed to it.
#[verifier::external_body]
fn yaml_node(text: &str, path: &Vec<PathStep>) -> (r: Option<YamlNode>)
    requires
        narrow(text@),
    ensures
        yaml_node_at(text@, steps(path@)) == match r {
            Some(n) => Some(n@),
            None => None::<NodeView>,
        },
        r is None <==> yaml_node_at(text@, Seq::empty()) is None,
{
    let docs = YamlLoader::load_from_str(text).ok()?;
    let mut node: &Yaml = docs.first()?;
    for step in path {
        node = match step {
            PathStep::Key(k) => &node[k.as_str()],
            PathStep::Index(i) => &node[*i],
        };
    }
    Some(match node {
        Yaml::String(s) => YamlNode::Text(s.clone()),
        Yaml::Array(items) => YamlNode::List(items.len()),
        _ => YamlNode::Other,
    })
}

/// Why a configuration could not be read.
#[derive(Debug)]
pub enum ConfigError {
    /// The text does not load as a YAML document.
    Syntax,
    /// A line is too wide, or an entry is missing or has the wrong kind of
    /// value.
    Malformed,
}

/// The path to a key of the document's root mapping.
pub open spec fn key_path(k: Seq<char>) -> Seq<StepView> {
    seq![StepView::Key(k)]
}

/// The path to position `k` of the sequence at `p`.
pub open spec fn item(p: Seq<StepView>, k: int) -> Seq<StepView> {
    p.push(StepView::Index(k as usize))
}

pub open spec fn text_at(t: Seq<char>, p: Seq<StepView>) -> Option<Seq<char>> {
    match yaml_node_at(t, p) {
        Some(NodeView::Text(s)) => Some(s),
        _ => None,
    }
}

pub open spec fn len_at(t: Seq<char>, p: Seq<StepView>) -> Option<nat> {
    match yaml_node_at(t, p) {
        Some(NodeView::List(n)) => Some(n),
        _ => None,
    }
}

/// The texts of a sequence whose items are all text.
pub open spec fn string_list_at(t: Seq<char>, p: Seq<StepView>) -> Option<Seq<Seq<char>>> {
    match len_at(t, p) {
        Some(n) => if forall|k: int| 0 <= k < n ==> #[trigger] text_at(t, item(p, k)) is Some {
            Some(Seq::new(n, |k: int| text_at(t, item(p, k))->0))
        } else {
            None
        },
        None => None,
    }
}

/// The lists of a sequence whose items are all `string_list_at`s.
pub open spec fn string_lists_at(t: Seq<char>, p: Seq<StepView>) -> Option<Seq<Seq<Seq<char>>>> {
    match len_at(t, p) {
        Some(n) => if forall|k: int|
            0 <= k < n ==> #[trigger] string_list_at(t, item(p, k)) is Some {
            Some(Seq::new(n, |k: int| string_list_at(t, item(p, k))->0))
        } else {
            None
        },
        None => None,
    }
}

/// The lists of textual mutations of a document with a textual `name` and
/// a `mutation_sets` entry, a sequence of sequences of text.
pub open spec fn mutation_lists_of(t: Seq<char>) -> Option<Seq<Seq<Seq<char>>>> {
    if narrow(t) && text_at(t, key_path("name"@)) is Some {
        string_lists_at(t, key_path("mutation_sets"@))
    } else {
        None
    }
}

/// Whether the root of the text's first document can be read.
pub open spec fn loads(t: Seq<char>) -> bool {
    narrow(t) && yaml_node_at(t, Seq::empty()) is Some
}

/// `p` followed by `s`.
fn extend(p: &Vec<PathStep>, s: PathStep) -> (r: Vec<PathStep>)
    ensures
        steps(r@) == steps(p@).push(s@),
{
    let mut r: Vec<PathStep> = Vec::new();
    let mut k: usize = 0;
    while k < p.len()
        invariant
            k <= p@.len(),
            r@.len() == k,
            steps(r@) == steps(p@).subrange(0, k as int),
        decreases p@.len() - k,
    {
        let c = match &p[k] {
            PathStep::Key(x) => PathStep::Key(x.clone()),
            PathStep::Index(i) => PathStep::Index(*i),
        };
        r.push(c);
        k = k + 1;
        assert(steps(r@) =~= steps(p@).subrange(0, k as int));
    }
    assert(steps(p@).subrange(0, k as int) =~= steps(p@));
    let ghost sv = s@;
    r.push(s);
    assert(steps(r@) =~= steps(p@).push(sv));
    r
}

fn key(k: &str) -> (r: Vec<PathStep>)
    ensures
        steps(r@) == key_path(k@),
{
    let r = vec![PathStep::Key(k.to_owned())];
    assert(steps(r@) =~= key_path(k@));
    r
}

fn text_node(text: &str, p: &Vec<PathStep>) -> (r: Option<String>)
    requires
        narrow(text@),
    ensures
        match r {
            Some(s) => text_at(text@, steps(p@)) == Some(s@),
            None => text_at(text@, steps(p@)) is None,
        },
{
    match yaml_node(text, p) {
        Some(YamlNode::Text(s)) => Some(s),
        _ => None,
    }
}

fn list_len(text: &str, p: &Vec<PathStep>) -> (r: Option<usize>)
    requires
        narrow(text@),
    ensures
        match r {
            Some(n) => len_at(text@, steps(p@)) == Some(n as nat),
            None => len_at(text@, steps(p@)) is None,
        },
{
    match yaml_node(text, p) {
        Some(YamlNode::List(n)) => Some(n),
        _ => None,
    }
}

/// The texts of the sequence at `p`, where all its items are text.
fn strings_at(text: &str, p: &Vec<PathStep>) -> (r: Option<Vec<String>>)
    requires
        narrow(text@),
    ensures
        match r {
            Some(s) => string_list_at(text@, steps(p@)) == Some(views(s@)),
            None => string_list_at(text@, steps(p@)) is None,
        },
{
    let ghost t = text@;
    let ghost ps = steps(p@);
    let n = match list_len(text, p) {
        Some(n) => n,
        None => return None,
    };
    let mut strings: Vec<String> = Vec::new();
    let mut j: usize = 0;
    while j < n
        invariant
            narrow(t),
            t == text@,
            ps == steps(p@),
            len_at(t, ps) == Some(n as nat),
            j <= n,
            strings@.len() == j,
            forall|k: int| 0 <= k < j ==> #[trigger] text_at(t, item(ps, k)) is Some,
            forall|k: int| 0 <= k < j ==> text_at(t, item(ps, k)) == Some(#[trigger] strings@[k]@),
        decreases n - j,
    {
        let q = extend(p, PathStep::Index(j));
        assert(steps(q@) == item(ps, j as int));
        match text_node(text, &q) {
            Some(s) => strings.push(s),
            None => {
                assert(!(forall|k: int| 0 <= k < n ==> #[trigger] text_at(t, item(ps, k)) is Some));
                return None;
            },
        }
        j = j + 1;
    }
    assert(views(strings@) =~= Seq::new(n as nat, |k: int| text_at(t, item(ps, k))->0));
    Some(strings)
}

/// Whether the error is the one `loads` decides.
pub open spec fn error_kind(t: Seq<char>, e: ConfigError) -> bool {
    (e is Syntax) == (narrow(t) && !loads(t))
}

/// The document's `name`, read first: `Syntax` where the text loads to no
/// document, `Malformed` where the name is no text or the text is too wide.
fn read_name(text: &str) -> (r: Result<String, ConfigError>)
    ensures
        match r {
            Ok(n) => loads(text@) && text_at(text@, key_path("name"@)) == Some(n@),
            Err(e) => (!narrow(text@) || text_at(text@, key_path("name"@)) is None) && error_kind(
                text@,
                e,
            ),
        },
{
    if !is_narrow(text) {
        return Err(ConfigError::Malformed);
    }
    match yaml_node(text, &key("name")) {
        Some(YamlNode::Text(s)) => Ok(s),
        Some(_) => Err(ConfigError::Malformed),
        None => Err(ConfigError::Syntax),
    }
}

/// The lists of textual mutations of a YAML document with a `name` and a
/// `mutation_sets` entry, a sequence of sequences of text.
pub fn mutation_lists(yaml_input: &str) -> (r: Result<Vec<Vec<String>>, ConfigError>)
    ensures
        match r {
            Ok(lists) => mutation_lists_of(yaml_input@) == Some(
                Seq::new(lists@.len(), |k: int| views(lists@[k]@)),
            ),
            Err(e) => mutation_lists_of(yaml_input@) is None && error_kind(yaml_input@, e),
        },
{
    let ghost t = yaml_input@;
    match read_name(yaml_input) {
        Ok(_) => {},
        Err(e) => return Err(e),
    }
    let sets = key("mutation_sets");
    let ghost ps = steps(sets@);
    let n = match list_len(yaml_input, &sets) {
        Some(n) => n,
        None => return Err(ConfigError::Malformed),
    };
    let mut lists: Vec<Vec<String>> = Vec::new();
    let mut i: usize = 0;
    while i < n
        invariant
            loads(t),
            t == yaml_input@,
            ps == steps(sets@),
            ps == key_path("mutation_sets"@),
            text_at(t, key_path("name"@)) is Some,
            len_at(t, ps) == Some(n as nat),
            i <= n,
            lists@.len() == i,
            forall|k: int| 0 <= k < i ==> #[trigger] string_list_at(t, item(ps, k)) is Some,
            forall|k: int|
                0 <= k < i ==> string_list_at(t, item(ps, k)) == Some(views(#[trigger] lists@[k]@)),
        decreases n - i,
    {
        let q = extend(&sets, PathStep::Index(i));
        assert(steps(q@) == item(ps, i as int));
        match strings_at(yaml_input, &q) {
            Some(s) => lists.push(s),
            None => {
                assert(!(forall|k: int|
                    0 <= k < n ==> #[trigger] string_list_at(t, item(ps, k)) is Some));
                return Err(ConfigError::Malformed);
            },
        }
        i = i + 1;
    }
    assert(Seq::new(lists@.len(), |k: int| views(lists@[k]@)) =~= Seq::new(
        n as nat,
        |k: int| string_list_at(t, item(ps, k))->0,
    ));
    Ok(lists)
}

/// The document's `name`, where it is text.
pub fn config_name(yaml_input: &str) -> (r: Option<String>)
    ensures
        match r {
            Some(s) => narrow(yaml_input@) && text_at(yaml_input@, key_path("name"@)) == Some(s@),
            None => !narrow(yaml_input@) || text_at(yaml_input@, key_path("name"@)) is None,
        },
{
    if !is_narrow(yaml_input) {
        return None;
    }
    text_node(yaml_input, &key("name"))
}

/// One mutation set per list of textual mutations.
pub fn mutation_sets_from_lists(lists: &Vec<Vec<String>>) -> (r: Vec<MutationSet>)
    ensures
        r@.len() == lists@.len(),
        forall|k: int|
            0 <= k < lists@.len() ==> #[trigger] r@[k].view_mutations() == mutations_of(
                views(lists@[k]@),
            ),
{
    let mut result: Vec<MutationSet> = Vec::new();
    let mut i: usize = 0;
    while i < lists.len()
        invariant
            i <= lists@.len(),
            result@.len() == i,
            forall|k: int|
                0 <= k < i ==> #[trigger] result@[k].view_mutations() == mutations_of(
                    views(lists@[k]@),
                ),
        decreases lists@.len() - i,
    {
        result.push(MutationSet { mutations: parse_mutation_string(&lists[i]) });
        i = i + 1;
    }
    result
}

/// The mutation sets of a YAML document with a `name` and a
/// `mutation_sets` entry: one per list, built as `parse_mutation_string`
/// builds it.
pub fn get_mutation_sets(yaml_input: &str) -> (r: Result<Vec<MutationSet>, ConfigError>)
    ensures
        match r {
            Ok(sets) => match mutation_lists_of(yaml_input@) {
                Some(ls) => sets@.len() == ls.len() && forall|k: int|
                    0 <= k < ls.len() ==> #[trigger] sets@[k].view_mutations() == mutations_of(
                        ls[k],
                    ),
                None => false,
            },
            Err(e) => mutation_lists_of(yaml_input@) is None && error_kind(yaml_input@, e),
        },
{
    let lists = match mutation_lists(yaml_input) {
        Ok(l) => l,
        Err(e) => return Err(e),
    };
    Ok(mutation_sets_from_lists(&lists))
}

/// A template part whose mutations are built from textual mutations.
pub fn format_part(text: String, mutation_strings: &Vec<String>) -> (r: FormatPart)
    ensures
        r.text@ == text@,
        r.mutations.view_mutations() == mutations_of(views(mutation_strings@)),
{
    FormatPart { text, mutations: MutationSet { mutations: parse_mutation_string(mutation_strings) } }
}

/// A template part left as it is.
pub fn plain_part(text: String) -> (r: FormatPart)
    ensures
        r.text@ == text@,
        r.mutations.view_mutations() == seq![
            MutationView { action: ActionView::Nothing, times: 1, keep_original: false },
        ],
{
    FormatPart { text, mutations: MutationSet::empty_set() }
}

/// The texts among the first `n` items of the sequence at `p`, in order;
/// other items are skipped.
pub open spec fn texts_at(t: Seq<char>, p: Seq<StepView>, n: nat) -> Seq<Seq<char>>
    decreases n,
{
    if n == 0 {
        Seq::empty()
    } else {
        texts_at(t, p, (n - 1) as nat) + match text_at(t, item(p, n - 1)) {
            Some(s) => seq![s],
            None => Seq::empty(),
        }
    }
}

/// The textual mutations of a part: a sequence (its texts) or a single text.
pub open spec fn mutation_texts_at(t: Seq<char>, p: Seq<StepView>) -> Seq<Seq<char>> {
    match yaml_node_at(t, p) {
        Some(NodeView::List(n)) => texts_at(t, p, n),
        Some(NodeView::Text(s)) => seq![s],
        _ => Seq::empty(),
    }
}

pub open spec fn unchanged() -> Seq<MutationView> {
    seq![MutationView { action: ActionView::Nothing, times: 1, keep_original: false }]
}

/// What a template item describes: a text, or a sequence holding only a
/// text, is a plain part; a longer sequence whose first item is text is
/// that text with the mutations of the second item; any other sequence is
/// malformed (`None`); any other value is skipped (`Some(None)`).
pub open spec fn part_at(t: Seq<char>, p: Seq<StepView>) -> Option<
    Option<(Seq<char>, Seq<MutationView>)>,
> {
    match yaml_node_at(t, p) {
        Some(NodeView::Text(s)) => Some(Some((s, unchanged()))),
        Some(NodeView::List(n)) => if n >= 1 && text_at(t, item(p, 0)) is Some {
            if n == 1 {
                Some(Some((text_at(t, item(p, 0))->0, unchanged())))
            } else {
                Some(
                    Some(
                        (text_at(t, item(p, 0))->0, mutations_of(mutation_texts_at(t, item(p, 1)))),
                    ),
                )
            }
        } else {
            None
        },
        _ => Some(None),
    }
}

/// The parts the first `n` items of the template at `p` describe, or `None`
/// where one is malformed.
pub open spec fn parts_at(t: Seq<char>, p: Seq<StepView>, n: nat) -> Option<
    Seq<(Seq<char>, Seq<MutationView>)>,
>
    decreases n,
{
    if n == 0 {
        Some(Seq::empty())
    } else {
        match (parts_at(t, p, (n - 1) as nat), part_at(t, item(p, n - 1))) {
            (Some(ps), Some(Some(x))) => Some(ps.push(x)),
            (Some(ps), Some(None)) => Some(ps),
            _ => None,
        }
    }
}

proof fn lemma_parts_prefix(t: Seq<char>, p: Seq<StepView>, j: nat, n: nat)
    requires
        j <= n,
        parts_at(t, p, j) is None,
    ensures
        parts_at(t, p, n) is None,
    decreases n - j,
{
    if j < n {
        lemma_parts_prefix(t, p, j, (n - 1) as nat);
    }
}

/// The parts of the template at `p`, a sequence.
pub open spec fn template_at(t: Seq<char>, p: Seq<StepView>) -> Option<
    Seq<(Seq<char>, Seq<MutationView>)>,
> {
    match len_at(t, p) {
        Some(n) => parts_at(t, p, n),
        None => None,
    }
}

pub open spec fn templates_at(t: Seq<char>, p: Seq<StepView>) -> Option<
    Seq<Seq<(Seq<char>, Seq<MutationView>)>>,
> {
    match len_at(t, p) {
        Some(n) => if forall|k: int| 0 <= k < n ==> #[trigger] template_at(t, item(p, k)) is Some {
            Some(Seq::new(n, |k: int| template_at(t, item(p, k))->0))
        } else {
            None
        },
        None => None,
    }
}

/// A field: a sequence whose first item, text, is its name and whose
/// second, if it is text, is its question.
pub open spec fn field_at(t: Seq<char>, p: Seq<StepView>) -> Option<(Seq<char>, Option<Seq<char>>)> {
    match len_at(t, p) {
        Some(n) => if n > 0 && text_at(t, item(p, 0)) is Some {
            Some(
                (
                    text_at(t, item(p, 0))->0,
                    if n > 1 {
                        text_at(t, item(p, 1))
                    } else {
                        None
                    },
                ),
            )
        } else {
            None
        },
        None => None,
    }
}

pub open spec fn fields_at(t: Seq<char>, p: Seq<StepView>) -> Option<
    Seq<(Seq<char>, Option<Seq<char>>)>,
> {
    match len_at(t, p) {
        Some(n) => if forall|k: int| 0 <= k < n ==> #[trigger] field_at(t, item(p, k)) is Some {
            Some(Seq::new(n, |k: int| field_at(t, item(p, k))->0))
        } else {
            None
        },
        None => None,
    }
}

pub open spec fn field_pair(f: FormatField) -> (Seq<char>, Option<Seq<char>>) {
    (
        f.name@,
        match f.question {
            Some(q) => Some(q@),
            None => None,
        },
    )
}

/// Name, fields and templates of formatting sets.
pub open spec fn formatting_view(f: FormattingSets) -> (
    Seq<char>,
    Seq<(Seq<char>, Option<Seq<char>>)>,
    Seq<Seq<(Seq<char>, Seq<MutationView>)>>,
) {
    (
        f.name@,
        Seq::new(f.fields@.len(), |k: int| field_pair(f.fields@[k])),
        Seq::new(f.sets@.len(), |k: int| part_views(f.sets@[k].parts@)),
    )
}

/// What a narrow document's entries `name`, `fields` and
/// `formatting_sets` describe, if each is well formed.
pub open spec fn formatting_of(t: Seq<char>) -> Option<
    (Seq<char>, Seq<(Seq<char>, Option<Seq<char>>)>, Seq<Seq<(Seq<char>, Seq<MutationView>)>>),
> {
    if !narrow(t) {
        None
    } else {
        match (
            text_at(t, key_path("name"@)),
            fields_at(t, key_path("fields"@)),
            templates_at(t, key_path("formatting_sets"@)),
        ) {
            (Some(n), Some(fs), Some(ts)) => Some((n, fs, ts)),
            _ => None,
        }
    }
}

fn field_from(text: &str, p: &Vec<PathStep>) -> (r: Option<FormatField>)
    requires
        narrow(text@),
    ensures
        match r {
            Some(f) => field_at(text@, steps(p@)) == Some(field_pair(f)),
            None => field_at(text@, steps(p@)) is None,
        },
{
    let ghost ps = steps(p@);
    let n = match list_len(text, p) {
        Some(n) => n,
        None => return None,
    };
    if n == 0 {
        return None;
    }
    let q0 = extend(p, PathStep::Index(0));
    assert(steps(q0@) == item(ps, 0));
    let name = match text_node(text, &q0) {
        Some(s) => s,
        None => return None,
    };
    let question = if n > 1 {
        let q1 = extend(p, PathStep::Index(1));
        assert(steps(q1@) == item(ps, 1));
        text_node(text, &q1)
    } else {
        None
    };
    Some(FormatField { name, question })
}

/// The texts among the items of the sequence at `p`, which has `n` items.
fn texts_in(text: &str, p: &Vec<PathStep>, n: usize) -> (r: Vec<String>)
    requires
        narrow(text@),
    ensures
        views(r@) == texts_at(text@, steps(p@), n as nat),
{
    let ghost ps = steps(p@);
    let mut strings: Vec<String> = Vec::new();
    let mut j: usize = 0;
    assert(views(strings@) =~= Seq::<Seq<char>>::empty());
    while j < n
        invariant
            narrow(text@),
            ps == steps(p@),
            j <= n,
            views(strings@) == texts_at(text@, ps, j as nat),
        decreases n - j,
    {
        let q = extend(p, PathStep::Index(j));
        assert(steps(q@) == item(ps, j as int));
        let ghost before = views(strings@);
        match text_node(text, &q) {
            Some(s) => {
                let ghost sv = s@;
                strings.push(s);
                assert(views(strings@) =~= before + seq![sv]);
            },
            None => {
                assert(before + Seq::<Seq<char>>::empty() =~= before);
            },
        }
        j = j + 1;
    }
    strings
}

fn part_from(text: &str, p: &Vec<PathStep>) -> (r: Option<Option<FormatPart>>)
    requires
        narrow(text@),
    ensures
        match r {
            Some(Some(x)) => part_at(text@, steps(p@)) == Some(Some(x@)),
            Some(None) => part_at(text@, steps(p@)) == Some(
                None::<(Seq<char>, Seq<MutationView>)>,
            ),
            None => part_at(text@, steps(p@)) is None,
        },
{
    let ghost ps = steps(p@);
    match yaml_node(text, p) {
        Some(YamlNode::Text(s)) => Some(Some(plain_part(s))),
        Some(YamlNode::List(n)) => {
            if n == 0 {
                return None;
            }
            let q0 = extend(p, PathStep::Index(0));
            assert(steps(q0@) == item(ps, 0));
            let txt = match text_node(text, &q0) {
                Some(s) => s,
                None => return None,
            };
            if n == 1 {
                return Some(Some(plain_part(txt)));
            }
            let q1 = extend(p, PathStep::Index(1));
            assert(steps(q1@) == item(ps, 1));
            let strings = match yaml_node(text, &q1) {
                Some(YamlNode::List(m)) => texts_in(text, &q1, m),
                Some(YamlNode::Text(s)) => {
                    let v = vec![s];
                    assert(views(v@) =~= seq![v@[0]@]);
                    v
                },
                _ => {
                    let v: Vec<String> = Vec::new();
                    assert(views(v@) =~= Seq::<Seq<char>>::empty());
                    v
                },
            };
            Some(Some(format_part(txt, &strings)))
        },
        _ => Some(None),
    }
}

fn template_from(text: &str, p: &Vec<PathStep>) -> (r: Option<FormatSet>)
    requires
        narrow(text@),
    ensures
        match r {
            Some(s) => template_at(text@, steps(p@)) == Some(part_views(s.parts@)),
            None => template_at(text@, steps(p@)) is None,
        },
{
    let ghost t = text@;
    let ghost ps = steps(p@);
    let n = match list_len(text, p) {
        Some(n) => n,
        None => return None,
    };
    let mut set = FormatSet::new();
    let mut j: usize = 0;
    assert(part_views(set.parts@) =~= Seq::<(Seq<char>, Seq<MutationView>)>::empty());
    while j < n
        invariant
            narrow(t),
            t == text@,
            ps == steps(p@),
            len_at(t, ps) == Some(n as nat),
            j <= n,
            parts_at(t, ps, j as nat) == Some(part_views(set.parts@)),
        decreases n - j,
    {
        let q = extend(p, PathStep::Index(j));
        assert(steps(q@) == item(ps, j as int));
        let ghost before = part_views(set.parts@);
        match part_from(text, &q) {
            Some(Some(x)) => {
                let ghost xv = x@;
                set.parts.push(x);
                assert(part_views(set.parts@) =~= before.push(xv));
            },
            Some(None) => {},
            None => {
                proof {
                    lemma_parts_prefix(t, ps, (j + 1) as nat, n as nat);
                }
                return None;
            },
        }
        j = j + 1;
    }
    Some(set)
}

/// The formatting sets of a YAML document with a `name`, `fields` (each a
/// sequence of a name and, optionally, a question) and `formatting_sets`
/// (each a sequence of parts).
pub fn parse_formatting_yaml(yaml_input: &str) -> (r: Result<FormattingSets, ConfigError>)
    ensures
        match r {
            Ok(f) => formatting_of(yaml_input@) == Some(formatting_view(f)),
            Err(e) => formatting_of(yaml_input@) is None && error_kind(yaml_input@, e),
        },
{
    let ghost t = yaml_input@;
    let name = match read_name(yaml_input) {
        Ok(s) => s,
        Err(e) => return Err(e),
    };
    let fields = key("fields");
    let ghost fp = steps(fields@);
    let nf = match list_len(yaml_input, &fields) {
        Some(n) => n,
        None => return Err(ConfigError::Malformed),
    };
    let mut format_fields: Vec<FormatField> = Vec::new();
    let mut i: usize = 0;
    while i < nf
        invariant
            loads(t),
            t == yaml_input@,
            fp == steps(fields@),
            fp == key_path("fields"@),
            text_at(t, key_path("name"@)) == Some(name@),
            len_at(t, fp) == Some(nf as nat),
            i <= nf,
            format_fields@.len() == i,
            forall|k: int| 0 <= k < i ==> #[trigger] field_at(t, item(fp, k)) is Some,
            forall|k: int|
                0 <= k < i ==> field_at(t, item(fp, k)) == Some(field_pair(#[trigger] format_fields@[k])),
        decreases nf - i,
    {
        let q = extend(&fields, PathStep::Index(i));
        assert(steps(q@) == item(fp, i as int));
        match field_from(yaml_input, &q) {
            Some(f) => format_fields.push(f),
            None => {
                assert(!(forall|k: int| 0 <= k < nf ==> #[trigger] field_at(t, item(fp, k)) is Some));
                return Err(ConfigError::Malformed);
            },
        }
        i = i + 1;
    }
    let sets = key("formatting_sets");
    let ghost sp = steps(sets@);
    let ns = match list_len(yaml_input, &sets) {
        Some(n) => n,
        None => return Err(ConfigError::Malformed),
    };
    let mut format_sets: Vec<FormatSet> = Vec::new();
    let mut k: usize = 0;
    while k < ns
        invariant
            loads(t),
            t == yaml_input@,
            sp == steps(sets@),
            sp == key_path("formatting_sets"@),
            text_at(t, key_path("name"@)) == Some(name@),
            fp == key_path("fields"@),
            len_at(t, fp) == Some(nf as nat),
            format_fields@.len() == nf,
            forall|a: int| 0 <= a < nf ==> #[trigger] field_at(t, item(fp, a)) is Some,
            forall|a: int|
                0 <= a < nf ==> field_at(t, item(fp, a)) == Some(field_pair(#[trigger] format_fields@[a])),
            len_at(t, sp) == Some(ns as nat),
            k <= ns,
            format_sets@.len() == k,
            forall|a: int| 0 <= a < k ==> #[trigger] template_at(t, item(sp, a)) is Some,
            forall|a: int|
                0 <= a < k ==> template_at(t, item(sp, a)) == Some(
                    part_views(#[trigger] format_sets@[a].parts@),
                ),
        decreases ns - k,
    {
        let q = extend(&sets, PathStep::Index(k));
        assert(steps(q@) == item(sp, k as int));
        match template_from(yaml_input, &q) {
            Some(s) => format_sets.push(s),
            None => {
                assert(!(forall|a: int|
                    0 <= a < ns ==> #[trigger] template_at(t, item(sp, a)) is Some));
                return Err(ConfigError::Malformed);
            },
        }
        k = k + 1;
    }
    let f = FormattingSets { name, fields: format_fields, sets: format_sets };
    assert(formatting_view(f).1 =~= Seq::new(nf as nat, |a: int| field_at(t, item(fp, a))->0));
    assert(formatting_view(f).2 =~= Seq::new(ns as nat, |a: int| template_at(t, item(sp, a))->0));
    Ok(f)
}

} // verus!
