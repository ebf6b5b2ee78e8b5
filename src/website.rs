//! Words taken from the text of a web page.
//!
//! HTML is parsed by scraper; what it yields is named here and the rest
//! (cutting out scripts, splitting the text into words, keeping the long
//! alphabetic ones once each, in order) is verified.
use vstd::prelude::*;
use scraper::{Html, Selector};
use crate::text::{
    views, chars_of, byte_len, utf8_len, is_space, space, replace, replace_all, lowercase,
    lower_of, push_char,
};

verus! {

/// Lexicographic order on sequences of characters: the order of `String`.
pub open spec fn lex_lt(a: Seq<char>, b: Seq<char>) -> bool
    decreases a.len(),
{
    if a.len() == 0 {
        b.len() > 0
    } else if b.len() == 0 {
        false
    } else if a[0] != b[0] {
        a[0] < b[0]
    } else {
        lex_lt(a.drop_first(), b.drop_first())
    }
}

pub proof fn lemma_lex_order(a: Seq<char>, b: Seq<char>, c: Seq<char>)
    ensures
        !lex_lt(a, a),
        lex_lt(a, b) ==> !lex_lt(b, a),
        lex_lt(a, b) && lex_lt(b, c) ==> lex_lt(a, c),
        a != b ==> lex_lt(a, b) || lex_lt(b, a),
    decreases a.len(),
{
    if a.len() > 0 && b.len() > 0 {
        if c.len() > 0 {
            lemma_lex_order(a.drop_first(), b.drop_first(), c.drop_first());
        } else {
            lemma_lex_order(a.drop_first(), b.drop_first(), c);
        }
        if a != b && a[0] == b[0] {
            assert(a.drop_first() != b.drop_first()) by {
                if a.drop_first() == b.drop_first() {
                    assert(a =~= b) by {
                        assert forall|i: int| 0 <= i < a.len() implies a[i] == b[i] by {
                            if i > 0 {
                                assert(a[i] == a.drop_first()[i - 1]);
                                assert(b[i] == b.drop_first()[i - 1]);
                            }
                        }
                    }
                }
            }
        }
    } else if a.len() > 0 {
        lemma_lex_order(a.drop_first(), b, c);
    } else if a.len() == 0 && b.len() == 0 {
        assert(a =~= b);
    }
}

/// Strictly increasing: sorted and without repeats.
pub open spec fn increasing(s: Seq<Seq<char>>) -> bool {
    forall|i: int, j: int| 0 <= i < j < s.len() ==> lex_lt(#[trigger] s[i], #[trigger] s[j])
}

/// Whether `a` comes before `b`.
fn less(a: &str, b: &str) -> (r: bool)
    ensures
        r == lex_lt(a@, b@),
{
    let x = chars_of(a);
    let y = chars_of(b);
    let mut i: usize = 0;
    assert(x@.subrange(0, x@.len() as int) =~= a@);
    assert(y@.subrange(0, y@.len() as int) =~= b@);
    while i < x.len() && i < y.len() && x[i] == y[i]
        invariant
            x@ == a@,
            y@ == b@,
            i <= x@.len(),
            i <= y@.len(),
            x@.subrange(0, i as int) == y@.subrange(0, i as int),
            lex_lt(a@, b@) == lex_lt(x@.subrange(i as int, x@.len() as int), y@.subrange(
                i as int,
                y@.len() as int,
            )),
        decreases x@.len() - i,
    {
        proof {
            let s = x@.subrange(i as int, x@.len() as int);
            let t = y@.subrange(i as int, y@.len() as int);
            assert(s.drop_first() =~= x@.subrange(i + 1, x@.len() as int));
            assert(t.drop_first() =~= y@.subrange(i + 1, y@.len() as int));
            assert(x@.subrange(0, i + 1) =~= x@.subrange(0, i as int).push(x@[i as int]));
            assert(y@.subrange(0, i + 1) =~= y@.subrange(0, i as int).push(y@[i as int]));
        }
        i = i + 1;
    }
    proof {
        assert(x@ =~= x@.subrange(0, x@.len() as int));
        assert(y@ =~= y@.subrange(0, y@.len() as int));
    }
    if i == x.len() {
        i < y.len()
    } else if i == y.len() {
        false
    } else {
        x[i] < y[i]
    }
}

/// Adds `w` to an increasing list unless it is already there. A sorted
/// `Vec` serves as the ordered set of words: vstd specifies `BTreeSet` only
/// for keys whose order it knows, and it gives `String` none.
fn insert_sorted(v: &mut Vec<String>, w: String)
    requires
        increasing(views(old(v)@)),
    ensures
        increasing(views(final(v)@)),
        views(final(v)@).to_set() == views(old(v)@).to_set().insert(w@),
{
    let ghost s = views(v@);
    let mut i: usize = 0;
    while i < v.len() && less(v[i].as_str(), w.as_str())
        invariant
            s == views(v@),
            increasing(s),
            i <= v@.len(),
            forall|k: int| 0 <= k < i ==> lex_lt(#[trigger] s[k], w@),
        decreases v@.len() - i,
    {
        assert(s[i as int] == v@[i as int]@);
        i = i + 1;
    }
    if i < v.len() && v[i] == w {
        assert(s[i as int] == w@);
        assert(s.to_set().insert(w@) =~= s.to_set());
        return;
    }
    proof {
        if i < s.len() {
            assert(s[i as int] == v@[i as int]@);
            lemma_lex_order(s[i as int], w@, w@);
            lemma_lex_order(w@, s[i as int], w@);
        }
    }
    let ghost wv = w@;
    v.insert(i, w);
    proof {
        let t = views(v@);
        assert(t =~= s.insert(i as int, wv));
        assert forall|a: int, b: int| 0 <= a < b < t.len() implies lex_lt(
            #[trigger] t[a],
            #[trigger] t[b],
        ) by {
            if a < i && b == i {
            } else if a < i && b > i {
                assert(t[b] == s[b - 1]);
                lemma_lex_order(s[a], wv, s[b - 1]);
                if b - 1 > i {
                    lemma_lex_order(wv, s[i as int], s[b - 1]);
                }
            } else if a == i {
                assert(t[b] == s[b - 1]);
                if b - 1 > i {
                    lemma_lex_order(wv, s[i as int], s[b - 1]);
                }
            } else if a > i {
                assert(t[a] == s[a - 1] && t[b] == s[b - 1]);
            }
        }
        assert(t.to_set() =~= s.to_set().insert(wv)) by {
            assert forall|x: Seq<char>| t.to_set().contains(x) <==> s.to_set().insert(
                wv,
            ).contains(x) by {
                if t.contains(x) {
                    let k = choose|k: int| 0 <= k < t.len() && t[k] == x;
                    if k > i {
                        assert(s[k - 1] == x);
                    } else if k < i {
                        assert(s[k] == x);
                    }
                }
                if s.contains(x) {
                    let k = choose|k: int| 0 <= k < s.len() && s[k] == x;
                    if k >= i {
                        assert(t[k + 1] == x);
                    } else {
                        assert(t[k] == x);
                    }
                }
                if x == wv {
                    assert(t[i as int] == x);
                }
            }
        }
    }
}

/// Length of the leading run of characters of `s` that are no white space.
pub open spec fn word_len(s: Seq<char>) -> nat
    decreases s.len(),
{
    if s.len() == 0 || is_space(s[0]) {
        0
    } else {
        1 + word_len(s.drop_first())
    }
}

proof fn lemma_word_len(s: Seq<char>, m: int)
    requires
        0 <= m <= s.len(),
        forall|k: int| 0 <= k < m ==> !is_space(s[k]),
        m == s.len() || is_space(s[m]),
    ensures
        word_len(s) == m,
    decreases m,
{
    if m > 0 {
        lemma_word_len(s.drop_first(), m - 1);
    }
}

/// The words of `s`, as `str::split_whitespace` gives them: its maximal
/// runs of characters that are no white space.
pub open spec fn words_of(s: Seq<char>) -> Seq<Seq<char>>
    decreases s.len(),
{
    if s.len() == 0 {
        Seq::empty()
    } else if is_space(s[0]) {
        words_of(s.drop_first())
    } else {
        let k = word_len(s);
        if k == 0 || k > s.len() {
            seq![s]
        } else {
            seq![s.subrange(0, k as int)] + words_of(s.subrange(k as int, s.len() as int))
        }
    }
}

/// What `char::is_alphabetic` says of a character.
pub uninterp spec fn is_alpha(c: char) -> bool;

/// The alphabetic characters of `w`, in order.
pub open spec fn letters_of(w: Seq<char>) -> Seq<char>
    decreases w.len(),
{
    if w.len() == 0 {
        Seq::empty()
    } else if is_alpha(w.last()) {
        letters_of(w.drop_last()).push(w.last())
    } else {
        letters_of(w.drop_last())
    }
}

/// What a word contributes: its letters, lowercased, where they take more
/// than four bytes.
pub open spec fn kept(w: Seq<char>) -> Seq<Seq<char>> {
    if byte_len(letters_of(w)) > 4 {
        seq![lower_of(letters_of(w))]
    } else {
        Seq::empty()
    }
}

/// What the words contribute, in order.
pub open spec fn candidates(ws: Seq<Seq<char>>) -> Seq<Seq<char>>
    decreases ws.len(),
{
    if ws.len() == 0 {
        Seq::empty()
    } else {
        kept(ws[0]) + candidates(ws.drop_first())
    }
}

/// Relies on char::is_alphabetic: whether the character is alphabetic.
#[verifier::external_body]
fn alphabetic(c: char) -> (r: bool)
    ensures
        r == is_alpha(c),
{
    c.is_alphabetic()
}

/// The distinct words of `text` whose letters take more than four bytes:
/// letters only, lowercased, in increasing order.
pub fn words_from_text(text: &str) -> (r: Vec<String>)
    ensures
        increasing(views(r@)),
        views(r@).to_set() == candidates(words_of(text@)).to_set(),
{
    let v = chars_of(text);
    let n = v.len();
    let mut out: Vec<String> = Vec::new();
    let mut i: usize = 0;
    let ghost mut done: Seq<Seq<char>> = Seq::empty();
    assert(v@.subrange(0, n as int) =~= v@);
    assert(views(out@) =~= Seq::<Seq<char>>::empty());
    assert(views(out@).to_set() =~= done.to_set());
    while i < n
        invariant
            v@ == text@,
            n == v@.len(),
            i <= n,
            candidates(words_of(v@)) == done + candidates(words_of(v@.subrange(i as int, n as int))),
            views(out@).to_set() == done.to_set(),
            increasing(views(out@)),
        decreases n - i,
    {
        let ghost rest = v@.subrange(i as int, n as int);
        if space(v[i]) {
            assert(rest.drop_first() =~= v@.subrange(i + 1, n as int));
            i = i + 1;
        } else {
            let mut letters = String::new();
            let mut j = i;
            assert(v@.subrange(i as int, i as int) =~= Seq::<char>::empty());
            while j < n && !space(v[j])
                invariant
                    i <= j <= n == v@.len(),
                    letters@ == letters_of(v@.subrange(i as int, j as int)),
                    forall|k: int| i <= k < j ==> !is_space(v@[k]),
                decreases n - j,
            {
                let c = v[j];
                if alphabetic(c) {
                    push_char(&mut letters, c);
                }
                j = j + 1;
                proof {
                    let w = v@.subrange(i as int, j as int);
                    assert(w.drop_last() =~= v@.subrange(i as int, j - 1));
                    assert(w.last() == c);
                }
            }
            let ghost word = v@.subrange(i as int, j as int);
            proof {
                lemma_word_len(rest, j - i);
                assert(rest.subrange(0, j - i) =~= word);
                assert(rest.subrange(j - i, rest.len() as int) =~= v@.subrange(j as int, n as int));
                let ws = words_of(rest);
                assert(ws == seq![word] + words_of(v@.subrange(j as int, n as int)));
                assert(ws[0] == word);
                assert(ws.drop_first() =~= words_of(v@.subrange(j as int, n as int)));
            }
            if utf8_len(letters.as_str()) > 4 {
                let low = lowercase(letters.as_str());
                let ghost lv = low@;
                insert_sorted(&mut out, low);
                proof {
                    assert(kept(word) == seq![lv]);
                    Seq::lemma_to_set_insert_commutes(done, lv);
                    assert(done + seq![lv] =~= done.push(lv));
                    done = done.push(lv);
                }
            } else {
                assert(kept(word) =~= Seq::<Seq<char>>::empty());
                assert(done + kept(word) =~= done);
            }
            assert(done + candidates(words_of(v@.subrange(j as int, n as int))) =~= candidates(
                words_of(v@),
            ));
            i = j;
        }
    }
    proof {
        assert(v@.subrange(n as int, n as int) =~= Seq::<char>::empty());
        assert(done + Seq::<Seq<char>>::empty() =~= done);
    }
    out
}

/// What scraper gives as the inner HTML of a page's first `body` element.
pub uninterp spec fn body_html_of(page: Seq<char>) -> Option<Seq<char>>;

/// What scraper gives as the HTML of each `script` element inside a page's
/// first `body` element, in document order.
pub uninterp spec fn scripts_of(page: Seq<char>) -> Seq<Seq<char>>;

/// What scraper gives as the text of an HTML fragment.
pub uninterp spec fn fragment_text_of(html: Seq<char>) -> Seq<char>;

/// Relies on scraper's Html::parse_document, Selector::parse and the
/// selected elements' inner_html and html: for the page's first `body`
/// element, its inner HTML and the HTML of each `script` element inside it,
/// in document order.
#[verifier::external_body]
fn body_parts(page: &str) -> (r: Option<(String, Vec<String>)>)
    ensures
        match r {
            Some((b, scripts)) => body_html_of(page@) == Some(b@) && views(scripts@) == scripts_of(
                page@,
            ),
            None => body_html_of(page@) is None,
        },
{
    let document = Html::parse_document(page);
    let body = Selector::parse("body").unwrap();
    let script = Selector::parse("script").unwrap();
    match document.select(&body).next() {
        Some(element) => Some(
            (element.inner_html(), element.select(&script).map(|s| s.html()).collect()),
        ),
        None => None,
    }
}

/// Relies on scraper's Html::parse_fragment: the text of the fragment's
/// nodes, joined in document order.
#[verifier::external_body]
fn fragment_text(html: &str) -> (r: String)
    ensures
        r@ == fragment_text_of(html@),
{
    Html::parse_fragment(html).root_element().text().collect()
}

/// `html` with each of the `scripts`, in turn, cut out wherever it occurs.
pub open spec fn without_scripts(html: Seq<char>, scripts: Seq<Seq<char>>) -> Seq<char>
    decreases scripts.len(),
{
    if scripts.len() == 0 {
        html
    } else {
        replace_all(without_scripts(html, scripts.drop_last()), scripts.last(), Seq::empty())
    }
}

/// The HTML inside a page's body without its scripts; the page itself where
/// it has no body.
pub open spec fn body_content(page: Seq<char>) -> Seq<char> {
    match body_html_of(page) {
        Some(b) => without_scripts(b, scripts_of(page)),
        None => page,
    }
}

/// `html` with each of the `scripts`, in turn, cut out wherever it occurs.
pub fn strip_scripts(html: String, scripts: &Vec<String>) -> (r: String)
    ensures
        r@ == without_scripts(html@, views(scripts@)),
{
    let mut out = html;
    let mut k: usize = 0;
    let ghost h0 = out@;
    assert(views(scripts@).subrange(0, 0) =~= Seq::<Seq<char>>::empty());
    while k < scripts.len()
        invariant
            k <= scripts@.len(),
            out@ == without_scripts(h0, views(scripts@).subrange(0, k as int)),
        decreases scripts@.len() - k,
    {
        out = replace(out.as_str(), scripts[k].as_str(), "");
        k = k + 1;
        proof {
            let s = views(scripts@).subrange(0, k as int);
            assert(s.drop_last() =~= views(scripts@).subrange(0, k - 1));
            assert(s.last() == scripts@[k - 1]@);
            reveal_strlit("");
            assert(""@ =~= Seq::<char>::empty());
        }
    }
    assert(views(scripts@).subrange(0, k as int) =~= views(scripts@));
    out
}

/// The HTML within the page's `<body>` tags, with the content of every
/// `<script>` element left out; the whole page where it has no body.
pub fn just_body_html_content(all_html: &str) -> (r: String)
    ensures
        r@ == body_content(all_html@),
{
    match body_parts(all_html) {
        Some((body, scripts)) => strip_scripts(body, &scripts),
        None => all_html.to_owned(),
    }
}

/// The distinct long words of a page's text, as `words_from_text` gives
/// them, from the text of its body without scripts.
pub fn extract_words(page_body: &str) -> (r: Vec<String>)
    ensures
        increasing(views(r@)),
        views(r@).to_set() == candidates(
            words_of(fragment_text_of(body_content(page_body@))),
        ).to_set(),
{
    let body = just_body_html_content(page_body);
    let text = fragment_text(body.as_str());
    words_from_text(text.as_str())
}

} // verus!
