//! The pattern compiler and the lazy odometer over its placeholders.
//!
//! A pattern is literal text with brace-delimited placeholders. Each
//! placeholder compiles to an advancing token (a range of code points, a
//! character set, or a range of numbers); the sequence a pattern denotes is
//! every combination of the advancing tokens' values, counted like a
//! mixed-radix odometer whose leftmost advancing token turns fastest.
use vstd::prelude::*;
use vstd::arithmetic::div_mod::{lemma_fundamental_div_mod_converse};
use crate::text::{
    views, byte_len, utf8_len, chars_of, decimal, find_char, is_number, number_value, parse_number, push_char,
    push_decimal, push_str, run_until, lemma_run_until, lemma_run_until_bound, string_of,
};

verus! {

/// A compiled piece of a pattern. The last field of the three advancing
/// kinds is the cursor: a code point, an index into the characters, or an
/// offset from the start of the range.
#[derive(Clone, Debug, PartialEq)]
pub enum Token {
    String(String),
    Repeat(u32, u32, u32),
    CharSet(String, usize),
    Numbers(u32, u32, u32),
}

/// A token with its text as a sequence of characters.
pub enum TokenView {
    String(Seq<char>),
    Repeat(u32, u32, u32),
    CharSet(Seq<char>, usize),
    Numbers(u32, u32, u32),
}

impl View for Token {
    type V = TokenView;

    open spec fn view(&self) -> TokenView {
        match self {
            Token::String(s) => TokenView::String(s@),
            Token::Repeat(a, b, c) => TokenView::Repeat(*a, *b, *c),
            Token::CharSet(s, i) => TokenView::CharSet(s@, *i),
            Token::Numbers(a, b, c) => TokenView::Numbers(*a, *b, *c),
        }
    }
}

pub open spec fn token_views(v: Seq<Token>) -> Seq<TokenView> {
    v.map_values(|t: Token| t@)
}

/// A code-point range that holds only characters.
pub open spec fn code_range_ok(s: u32, e: u32) -> bool {
    s <= e && e <= 0x10FFFF && (e < 0xD800 || s > 0xDFFF)
}

/// Cursors lie inside their ranges and every range is non-empty.
pub open spec fn token_wf(t: TokenView) -> bool {
    match t {
        TokenView::String(_) => true,
        TokenView::Repeat(s, e, c) => code_range_ok(s, e) && s <= c <= e,
        TokenView::CharSet(cs, i) => i < cs.len(),
        TokenView::Numbers(s, e, o) => s <= e && o <= e - s,
    }
}

pub open spec fn all_wf(ts: Seq<TokenView>) -> bool {
    forall|k: int| 0 <= k < ts.len() ==> token_wf(#[trigger] ts[k])
}

/// Whether the token takes part in the odometer.
pub open spec fn advances(t: TokenView) -> bool {
    !(t is String)
}

/// How many values the token takes.
pub open spec fn radix(t: TokenView) -> nat {
    match t {
        TokenView::String(_) => 1,
        TokenView::Repeat(s, e, _) => (e - s + 1) as nat,
        TokenView::CharSet(cs, _) => cs.len(),
        TokenView::Numbers(s, e, _) => (e - s + 1) as nat,
    }
}

/// The cursor as a distance from the token's first value.
pub open spec fn digit(t: TokenView) -> nat {
    match t {
        TokenView::String(_) => 0,
        TokenView::Repeat(s, _, c) => (c - s) as nat,
        TokenView::CharSet(_, i) => i as nat,
        TokenView::Numbers(_, _, o) => o as nat,
    }
}

/// The token with its cursor moved to distance `d` from its first value.
pub open spec fn with_digit(t: TokenView, d: nat) -> TokenView {
    match t {
        TokenView::String(x) => TokenView::String(x),
        TokenView::Repeat(s, e, _) => TokenView::Repeat(s, e, (s + d) as u32),
        TokenView::CharSet(cs, _) => TokenView::CharSet(cs, d as usize),
        TokenView::Numbers(s, e, _) => TokenView::Numbers(s, e, d as u32),
    }
}

/// What the token contributes to the current word.
pub open spec fn rendering(t: TokenView) -> Seq<char> {
    match t {
        TokenView::String(x) => x,
        TokenView::Repeat(_, _, c) => seq![c as char],
        TokenView::CharSet(cs, i) => seq![cs[i as int]],
        TokenView::Numbers(s, _, o) => decimal((s + o) as nat),
    }
}

/// Every cursor is at its token's first value.
pub open spec fn at_start(ts: Seq<TokenView>) -> bool {
    forall|k: int| 0 <= k < ts.len() ==> digit(#[trigger] ts[k]) == 0
}

/// Two token lists that differ at most in their cursors.
pub open spec fn same_shape(a: Seq<TokenView>, b: Seq<TokenView>) -> bool {
    a.len() == b.len() && forall|k: int|
        0 <= k < a.len() ==> with_digit(#[trigger] a[k], 0) == with_digit(b[k], 0)
}

/// The number of words a token list denotes.
pub open spec fn total(ts: Seq<TokenView>) -> nat
    decreases ts.len(),
{
    if ts.len() == 0 {
        1
    } else {
        radix(ts[0]) * total(ts.drop_first())
    }
}

/// The position of the cursors in the odometer's count.
pub open spec fn rank(ts: Seq<TokenView>) -> nat
    decreases ts.len(),
{
    if ts.len() == 0 {
        0
    } else {
        digit(ts[0]) + radix(ts[0]) * rank(ts.drop_first())
    }
}

/// The word the cursors currently select.
pub open spec fn rendered(ts: Seq<TokenView>) -> Seq<char>
    decreases ts.len(),
{
    if ts.len() == 0 {
        Seq::empty()
    } else {
        rendering(ts[0]) + rendered(ts.drop_first())
    }
}

/// The last digit of `n` in base `r`.
pub open spec fn low_digit(n: nat, r: nat) -> nat {
    if r == 0 {
        0
    } else {
        n % r
    }
}

/// `n` in base `r` without its last digit.
pub open spec fn high_digits(n: nat, r: nat) -> nat {
    if r == 0 {
        0
    } else {
        n / r
    }
}

/// The token list with its cursors set to position `n` of the count.
pub open spec fn at_rank(ts: Seq<TokenView>, n: nat) -> Seq<TokenView>
    decreases ts.len(),
{
    if ts.len() == 0 {
        Seq::empty()
    } else {
        seq![with_digit(ts[0], low_digit(n, radix(ts[0])))] + at_rank(
            ts.drop_first(),
            high_digits(n, radix(ts[0])),
        )
    }
}

/// The word at position `n` of the sequence the tokens denote.
pub open spec fn word_at(ts: Seq<TokenView>, n: nat) -> Seq<char> {
    rendered(at_rank(ts, n))
}

/// A count cut off at the largest `u128`.
pub open spec fn saturated(x: nat) -> u128 {
    if x > u128::MAX {
        u128::MAX
    } else {
        x as u128
    }
}

/// The first word of the sequence: every cursor at its first value.
pub open spec fn sample(ts: Seq<TokenView>) -> Seq<char> {
    word_at(ts, 0)
}

/// Every word the tokens denote, in the order the odometer produces them.
pub open spec fn pattern_words(ts: Seq<TokenView>) -> Seq<Seq<char>> {
    Seq::new(total(ts), |n: int| word_at(ts, n as nat))
}

pub proof fn lemma_rank_zero(ts: Seq<TokenView>)
    requires
        at_start(ts),
    ensures
        rank(ts) == 0,
    decreases ts.len(),
{
    if ts.len() > 0 {
        assert(digit(ts[0]) == 0);
        assert(at_start(ts.drop_first())) by {
            assert forall|k: int| 0 <= k < ts.drop_first().len() implies digit(
                #[trigger] ts.drop_first()[k],
            ) == 0 by {
                assert(ts.drop_first()[k] == ts[k + 1]);
            }
        }
        lemma_rank_zero(ts.drop_first());
        let r = radix(ts[0]);
        assert(r * 0 == 0) by (nonlinear_arith);
    }
}

proof fn lemma_radix_pos(t: TokenView)
    requires
        token_wf(t),
    ensures
        radix(t) >= 1,
        digit(t) < radix(t),
        radix(with_digit(t, 0)) == radix(t),
{
}

pub proof fn lemma_total_pos(ts: Seq<TokenView>)
    requires
        all_wf(ts),
    ensures
        total(ts) >= 1,
        rank(ts) < total(ts),
    decreases ts.len(),
{
    if ts.len() > 0 {
        let r = radix(ts[0]);
        let d = digit(ts[0]);
        lemma_radix_pos(ts[0]);
        assert(all_wf(ts.drop_first())) by {
            assert forall|k: int| 0 <= k < ts.drop_first().len() implies token_wf(
                #[trigger] ts.drop_first()[k],
            ) by {
                assert(ts.drop_first()[k] == ts[k + 1]);
            }
        }
        lemma_total_pos(ts.drop_first());
        let t = total(ts.drop_first());
        let q = rank(ts.drop_first());
        assert(d + r * q < r * t) by (nonlinear_arith)
            requires
                d < r,
                q < t,
        ;
        assert(r * t >= 1) by (nonlinear_arith)
            requires
                r >= 1,
                t >= 1,
        ;
    }
}

/// Splitting a token list splits its count, position and word.
pub proof fn lemma_split(a: Seq<TokenView>, b: Seq<TokenView>)
    ensures
        total(a + b) == total(a) * total(b),
        rank(a + b) == rank(a) + total(a) * rank(b),
        rendered(a + b) == rendered(a) + rendered(b),
    decreases a.len(),
{
    if a.len() == 0 {
        assert(a + b =~= b);
        assert(rendered(a) + rendered(b) =~= rendered(b));
        assert(total(a) == 1);
        assert(rank(a) == 0);
        assert(total(a + b) == total(b));
        assert(rank(a + b) == rank(b));
    } else {
        assert((a + b).drop_first() =~= a.drop_first() + b);
        assert((a + b)[0] == a[0]);
        lemma_split(a.drop_first(), b);
        let r = radix(a[0]);
        let d = digit(a[0]);
        let ta = total(a.drop_first());
        let tb = total(b);
        let ra = rank(a.drop_first());
        let rb = rank(b);
        assert(total(a + b) == r * total(a.drop_first() + b));
        assert(rank(a + b) == d + r * rank(a.drop_first() + b));
        assert(total(a) == r * ta);
        assert(rank(a) == d + r * ra);
        assert(r * (ta * tb) == (r * ta) * tb) by (nonlinear_arith);
        assert(d + r * (ra + ta * rb) == (d + r * ra) + (r * ta) * rb) by (nonlinear_arith);
        assert(total(a + b) == total(a) * total(b));
        assert(rank(a + b) == rank(a) + total(a) * rank(b));
        assert(rendered(a + b) =~= rendered(a) + rendered(b));
    }
}

/// Lists of one shape count alike and select alike.
pub proof fn lemma_same_shape(a: Seq<TokenView>, b: Seq<TokenView>, n: nat)
    requires
        same_shape(a, b),
    ensures
        total(a) == total(b),
        at_rank(a, n) == at_rank(b, n),
    decreases a.len(),
{
    if a.len() > 0 {
        assert(with_digit(a[0], 0) == with_digit(b[0], 0));
        lemma_shape_token(a[0], b[0], low_digit(n, radix(a[0])));
        assert(same_shape(a.drop_first(), b.drop_first())) by {
            assert forall|k: int| 0 <= k < a.drop_first().len() implies with_digit(
                #[trigger] a.drop_first()[k],
                0,
            ) == with_digit(b.drop_first()[k], 0) by {
                assert(a.drop_first()[k] == a[k + 1]);
                assert(b.drop_first()[k] == b[k + 1]);
            }
        }
        lemma_same_shape(a.drop_first(), b.drop_first(), high_digits(n, radix(a[0])));
        lemma_same_shape(a.drop_first(), b.drop_first(), 0);
        assert(at_rank(a, n) =~= at_rank(b, n));
    }
}

pub proof fn lemma_single(t: TokenView)
    ensures
        rendered(seq![t]) == rendering(t),
        total(seq![t]) == radix(t),
        rank(seq![t]) == digit(t),
{
    let s = seq![t];
    assert(s[0] == t);
    assert(s.drop_first() =~= Seq::<TokenView>::empty());
    assert(rendered(s.drop_first()) == Seq::<char>::empty());
    assert(total(s.drop_first()) == 1);
    assert(rank(s.drop_first()) == 0);
    assert(radix(t) * 1 == radix(t));
    assert(radix(t) * 0 == 0);
    assert(rendering(t) + Seq::<char>::empty() =~= rendering(t));
}

proof fn lemma_shape_token(x: TokenView, y: TokenView, d: nat)
    requires
        with_digit(x, 0) == with_digit(y, 0),
    ensures
        with_digit(x, d) == with_digit(y, d),
        radix(x) == radix(y),
        advances(x) == advances(y),
{
    match x {
        TokenView::String(_) => {},
        TokenView::Repeat(_, _, _) => {},
        TokenView::CharSet(_, _) => {},
        TokenView::Numbers(_, _, _) => {},
    }
}

/// Setting the cursors to their own position changes nothing.
pub proof fn lemma_decode(ts: Seq<TokenView>)
    requires
        all_wf(ts),
    ensures
        at_rank(ts, rank(ts)) == ts,
    decreases ts.len(),
{
    if ts.len() > 0 {
        let t = ts[0];
        let rest = ts.drop_first();
        lemma_radix_pos(t);
        assert(all_wf(rest)) by {
            assert forall|k: int| 0 <= k < rest.len() implies token_wf(#[trigger] rest[k]) by {
                assert(rest[k] == ts[k + 1]);
            }
        }
        lemma_decode(rest);
        let r = radix(t);
        let d = digit(t);
        let q = rank(rest);
        lemma_fundamental_div_mod_converse((d + r * q) as int, r as int, q as int, d as int);
        assert(with_digit(t, d) == t);
        assert(at_rank(ts, rank(ts)) =~= ts);
    }
}

/// `len` consecutive ASCII characters from code `start` on.
pub open spec fn code_run(start: nat, len: nat) -> Seq<char> {
    Seq::new(len, |i: int| ((start + i) as u8) as char)
}

/// The punctuation of ASCII, in code order.
pub open spec fn symbols() -> Seq<char> {
    code_run(33, 15) + code_run(58, 7) + code_run(91, 6) + code_run(123, 4)
}

/// The characters a shorthand letter stands for: `l` lowercase letters,
/// `u` uppercase letters, `d` digits, `s` punctuation.
pub open spec fn class_chars(c: char) -> Seq<char> {
    if c == 'l' {
        code_run(97, 26)
    } else if c == 'u' {
        code_run(65, 26)
    } else if c == 'd' {
        code_run(48, 10)
    } else if c == 's' {
        symbols()
    } else {
        Seq::empty()
    }
}

/// The union of the classes the shorthand letters of `c` name, each class
/// once, in the order of the letters' first occurrence; other characters
/// are ignored.
pub open spec fn charset_of(c: Seq<char>) -> Seq<char>
    decreases c.len(),
{
    if c.len() == 0 {
        Seq::empty()
    } else if c.drop_last().contains(c.last()) {
        charset_of(c.drop_last())
    } else {
        charset_of(c.drop_last()) + class_chars(c.last())
    }
}

/// The token a placeholder's content compiles to, if any: a range of
/// numbers (`0-255`), a range of code points (`a-z`), or a union of
/// character classes (`lud`). Anything else compiles to nothing.
pub open spec fn placeholder(c: Seq<char>) -> Seq<TokenView> {
    let h = run_until(c, '-');
    let left = c.subrange(0, h as int);
    let right = c.subrange(h + 1 as int, c.len() as int);
    if c.len() >= 4 && h < c.len() && is_number(left) && is_number(right) && number_value(right)
        <= u32::MAX && number_value(left) <= number_value(right) {
        seq![TokenView::Numbers(number_value(left) as u32, number_value(right) as u32, 0)]
    } else if c.len() == 3 && c[1] == '-' && code_range_ok(c[0] as u32, c[2] as u32) {
        seq![TokenView::Repeat(c[0] as u32, c[2] as u32, c[0] as u32)]
    } else if charset_of(c).len() > 0 {
        seq![TokenView::CharSet(charset_of(c), 0)]
    } else {
        Seq::empty()
    }
}

/// The tokens a pattern compiles to. Text outside braces is literal; a
/// brace opens a placeholder that the next closing brace ends; an opening
/// brace that is never closed is literal text up to the end.
pub open spec fn tokens_of(p: Seq<char>) -> Seq<TokenView>
    decreases p.len(),
{
    if p.len() == 0 {
        Seq::empty()
    } else if p[0] == '{' {
        let k = run_until(p.drop_first(), '}');
        if k + 1 >= p.len() {
            seq![TokenView::String(p)]
        } else {
            placeholder(p.subrange(1, k + 1 as int)) + tokens_of(p.subrange(k + 2 as int, p.len() as int))
        }
    } else {
        let k = run_until(p, '{');
        if k == 0 || k > p.len() {
            seq![TokenView::String(p)]
        } else {
            seq![TokenView::String(p.subrange(0, k as int))] + tokens_of(
                p.subrange(k as int, p.len() as int),
            )
        }
    }
}

/// Relies on char::from_u32: the character with code point `n`, where
/// there is one.
#[verifier::external_body]
fn char_from_code(n: u32) -> (r: Option<char>)
    ensures
        r is Some <==> (n <= 0xD7FF || (0xE000 <= n && n <= 0x10FFFF)),
        r matches Some(c) ==> c as u32 == n,
{
    char::from_u32(n)
}

impl Token {
    /// Appends the token's first value to `out`.
    pub fn render_first_into(&self, out: &mut String)
        requires
            token_wf(self@),
        ensures
            final(out)@ == old(out)@ + rendering(with_digit(self@, 0)),
    {
        match self {
            Token::String(s) => push_str(out, s.as_str()),
            Token::Repeat(a, _, _) => {
                if let Some(ch) = char_from_code(*a) {
                    proof {
                        vstd::utf8::char_u32_cast(ch, *a);
                    }
                    push_char(out, ch);
                    assert(out@ =~= old(out)@ + rendering(with_digit(self@, 0)));
                }
            },
            Token::CharSet(cs, _) => {
                let ch = cs.as_str().get_char(0);
                push_char(out, ch);
                assert(out@ =~= old(out)@ + rendering(with_digit(self@, 0)));
            },
            Token::Numbers(a, _, _) => {
                push_decimal(out, *a as u64);
                assert(out@ =~= old(out)@ + rendering(with_digit(self@, 0)));
            },
        }
    }

    /// How many values the token takes.
    pub fn width(&self) -> (r: u128)
        requires
            token_wf(self@),
        ensures
            r == radix(self@),
    {
        match self {
            Token::String(_) => 1,
            Token::Repeat(a, b, _) => (*b - *a) as u128 + 1,
            Token::CharSet(cs, _) => cs.as_str().unicode_len() as u128,
            Token::Numbers(a, b, _) => (*b - *a) as u128 + 1,
        }
    }

    /// Appends the token's current value to `out`.
    pub fn render_into(&self, out: &mut String)
        requires
            token_wf(self@),
        ensures
            final(out)@ == old(out)@ + rendering(self@),
    {
        match self {
            Token::String(s) => push_str(out, s.as_str()),
            Token::Repeat(_, _, c) => {
                if let Some(ch) = char_from_code(*c) {
                    proof {
                        vstd::utf8::char_u32_cast(ch, *c);
                    }
                    push_char(out, ch);
                    assert(out@ =~= old(out)@ + rendering(self@));
                }
            },
            Token::CharSet(cs, i) => {
                let ch = cs.as_str().get_char(*i);
                push_char(out, ch);
                assert(out@ =~= old(out)@ + rendering(self@));
            },
            Token::Numbers(s, _, o) => push_decimal(out, (*s + *o) as u64),
        }
    }

    /// A copy of the token.
    pub fn duplicate(&self) -> (r: Token)
        ensures
            r@ == self@,
    {
        match self {
            Token::String(s) => Token::String(s.clone()),
            Token::Repeat(a, b, c) => Token::Repeat(*a, *b, *c),
            Token::CharSet(s, i) => Token::CharSet(s.clone(), *i),
            Token::Numbers(a, b, c) => Token::Numbers(*a, *b, *c),
        }
    }

    /// Whether the token takes part in the odometer.
    pub fn is_advancing(&self) -> (r: bool)
        ensures
            r == advances(self@),
    {
        !matches!(self, Token::String(_))
    }

    /// The token with its cursor moved one value on, wrapping to the first
    /// value after the last; the flag tells whether it wrapped.
    pub fn step(&self) -> (r: (Token, bool))
        requires
            token_wf(self@),
            advances(self@),
        ensures
            token_wf(r.0@),
            with_digit(r.0@, 0) == with_digit(self@, 0),
            r.1 == (digit(self@) + 1 == radix(self@)),
            digit(r.0@) == if r.1 {
                0
            } else {
                digit(self@) + 1
            },
    {
        match self {
            Token::String(s) => (Token::String(s.clone()), true),
            Token::Repeat(a, b, c) => {
                if *c != *b {
                    (Token::Repeat(*a, *b, *c + 1), false)
                } else {
                    (Token::Repeat(*a, *b, *a), true)
                }
            },
            Token::CharSet(s, i) => {
                let len = s.as_str().unicode_len();
                if *i < len - 1 {
                    (Token::CharSet(s.clone(), *i + 1), false)
                } else {
                    (Token::CharSet(s.clone(), 0), true)
                }
            },
            Token::Numbers(a, b, o) => {
                if *a + *o != *b {
                    (Token::Numbers(*a, *b, *o + 1), false)
                } else {
                    (Token::Numbers(*a, *b, 0), true)
                }
            },
        }
    }
}

proof fn lemma_saturated_mul(x: nat, m: nat)
    requires
        m >= 1,
    ensures
        x > u128::MAX ==> x * m > u128::MAX,
        x <= x * m,
{
    assert(x <= x * m) by (nonlinear_arith)
        requires
            m >= 1,
    ;
}

/// `saturated(x * (m as nat))`, given `saturated(x)`.
fn saturating_mul(a: u128, m: u128, Ghost(x): Ghost<nat>) -> (r: u128)
    requires
        m >= 1,
        a == saturated(x),
    ensures
        r == saturated(x * (m as nat)),
{
    let r = match a.checked_mul(m) {
        Some(v) => v,
        None => u128::MAX,
    };
    proof {
        lemma_saturated_mul(x, m as nat);
        if x > u128::MAX {
            assert(a == u128::MAX);
            if m > 1 {
                assert(a * m > u128::MAX) by (nonlinear_arith)
                    requires
                        a == u128::MAX,
                        m > 1,
                ;
            }
        }
    }
    r
}

/// The sequence of words a token list denotes, produced one at a time.
/// Once the last word has been produced it stays exhausted.
pub struct TokenIter {
    /// The tokens, whose cursors select the next word.
    pub toks: Vec<Token>,
    /// Whether the last word has been produced.
    pub done: bool,
}

/// An iterator over every word the tokens denote, starting at the position
/// their cursors hold.
pub fn token_iterator(tokens: &[Token]) -> (r: TokenIter)
    requires
        all_wf(token_views(tokens@)),
    ensures
        token_views(r.toks@) == token_views(tokens@),
        !r.done,
{
    let mut toks: Vec<Token> = Vec::new();
    let mut i: usize = 0;
    while i < tokens.len()
        invariant
            i <= tokens@.len(),
            toks@.len() == i,
            token_views(toks@) == token_views(tokens@).subrange(0, i as int),
        decreases tokens@.len() - i,
    {
        let t = tokens[i].duplicate();
        toks.push(t);
        assert(toks@[i as int]@ == tokens@[i as int]@);
        assert(token_views(toks@)[i as int] == token_views(tokens@)[i as int]);
        i = i + 1;
        assert(token_views(toks@) =~= token_views(tokens@).subrange(0, i as int));
    }
    assert(token_views(tokens@) =~= token_views(tokens@).subrange(0, i as int));
    TokenIter { toks, done: false }
}

impl TokenIter {
    pub open spec fn tokens(&self) -> Seq<TokenView> {
        token_views(self.toks@)
    }

    pub open spec fn wf(&self) -> bool {
        all_wf(self.tokens())
    }

    /// The word the cursors select, after which the cursors move one
    /// position on; `None` once the sequence is exhausted.
    pub fn next(&mut self) -> (r: Option<String>)
        requires
            old(self).wf(),
        ensures
            final(self).wf(),
            same_shape(final(self).tokens(), old(self).tokens()),
            old(self).done ==> r is None && *final(self) == *old(self),
            !old(self).done ==> {
                &&& r matches Some(w) && w@ == rendered(old(self).tokens())
                &&& if rank(old(self).tokens()) + 1 < total(old(self).tokens()) {
                    !final(self).done && rank(final(self).tokens()) == rank(old(self).tokens())
                        + 1
                } else {
                    final(self).done && rank(final(self).tokens()) == 0
                }
            },
    {
        if self.done {
            return None;
        }
        let ghost old_ts = self.tokens();
        let mut out = String::new();
        let mut carry = true;
        let n = self.toks.len();
        let mut i: usize = 0;
        proof {
            assert(old_ts.subrange(0, 0) =~= Seq::<TokenView>::empty());
            assert(out@ =~= rendered(old_ts.subrange(0, 0)));
        }
        while i < n
            invariant
                n == self.toks@.len() == old_ts.len(),
                i <= n,
                !self.done,
                all_wf(old_ts),
                all_wf(self.tokens()),
                forall|k: int| i <= k < n ==> #[trigger] self.tokens()[k] == old_ts[k],
                same_shape(self.tokens(), old_ts),
                out@ == rendered(old_ts.subrange(0, i as int)),
                total(self.tokens().subrange(0, i as int)) == total(old_ts.subrange(0, i as int)),
                carry ==> rank(old_ts.subrange(0, i as int)) + 1 == total(
                    old_ts.subrange(0, i as int),
                ) && rank(self.tokens().subrange(0, i as int)) == 0,
                !carry ==> rank(self.tokens().subrange(0, i as int)) == rank(
                    old_ts.subrange(0, i as int),
                ) + 1,
            decreases n - i,
        {
            let ghost before = self.tokens();
            let ghost t = old_ts[i as int];
            assert(self.tokens()[i as int] == t);
            assert(token_wf(t));
            self.toks[i].render_into(&mut out);
            let ghost pa = old_ts.subrange(0, i as int);
            let ghost ca = before.subrange(0, i as int);
            proof {
                assert(old_ts.subrange(0, i + 1) =~= pa + seq![t]);
                lemma_split(pa, seq![t]);
                lemma_single(t);
                lemma_radix_pos(t);
            }
            if carry && self.toks[i].is_advancing() {
                let (nt, wrapped) = self.toks[i].step();
                self.toks.set(i, nt);
                carry = wrapped;
                proof {
                    let u = nt@;
                    assert(self.tokens() =~= before.update(i as int, u));
                    assert(self.tokens().subrange(0, i + 1) =~= ca + seq![u]);
                    lemma_split(ca, seq![u]);
                    lemma_single(u);
                    lemma_shape_token(u, t, 0);
                    let ta = total(pa);
                    let d = digit(t);
                    let r = radix(t);
                    let tc = total(ca);
                    assert(tc * 0 == 0);
                    if wrapped {
                        assert(ta * (d + 1) == ta * r);
                        assert(ta + ta * d == ta * (d + 1)) by (nonlinear_arith);
                    } else {
                        assert(ta * (d + 1) == ta + ta * d) by (nonlinear_arith);
                    }
                    assert forall|k: int| 0 <= k < n implies with_digit(
                        #[trigger] self.tokens()[k],
                        0,
                    ) == with_digit(old_ts[k], 0) by {
                        if k != i {
                            assert(self.tokens()[k] == before[k]);
                        }
                    }
                    assert forall|k: int| 0 <= k < n implies token_wf(
                        #[trigger] self.tokens()[k],
                    ) by {
                        if k != i {
                            assert(self.tokens()[k] == before[k]);
                        }
                    }
                }
            } else {
                proof {
                    assert(self.tokens().subrange(0, i + 1) =~= ca + seq![t]);
                    lemma_split(ca, seq![t]);
                    let ta = total(pa);
                    let tc = total(ca);
                    if carry {
                        assert(!advances(t));
                        assert(digit(t) == 0 && radix(t) == 1);
                        assert(ta * 0 == 0 && ta * 1 == ta && tc * 0 == 0) by (nonlinear_arith);
                    }
                }
            }
            i = i + 1;
        }
        proof {
            assert(old_ts.subrange(0, n as int) =~= old_ts);
            assert(self.tokens().subrange(0, n as int) =~= self.tokens());
            lemma_total_pos(self.tokens());
            lemma_same_shape(self.tokens(), old_ts, 0);
        }
        if carry {
            self.done = true;
        }
        Some(out)
    }

    /// Every word that is left, in order.
    pub fn collect(self) -> (r: Vec<String>)
        requires
            self.wf(),
        ensures
            self.done ==> r@.len() == 0,
            !self.done ==> views(r@) == Seq::new(
                (total(self.tokens()) - rank(self.tokens())) as nat,
                |k: int| word_at(self.tokens(), (rank(self.tokens()) + k) as nat),
            ),
    {
        let mut out: Vec<String> = Vec::new();
        if self.done {
            return out;
        }
        let ghost start = self.tokens();
        let mut it = self;
        let ghost r0 = rank(start);
        proof {
            lemma_total_pos(start);
        }
        loop
            invariant
                it.wf(),
                start == self.tokens(),
                !self.done,
                same_shape(it.tokens(), start),
                total(it.tokens()) == total(start),
                r0 == rank(start) < total(start),
                it.done ==> views(out@) == Seq::new(
                    (total(start) - r0) as nat,
                    |k: int| word_at(start, (r0 + k) as nat),
                ),
                !it.done ==> r0 <= rank(it.tokens()) && views(out@) == Seq::new(
                    (rank(it.tokens()) - r0) as nat,
                    |k: int| word_at(start, (r0 + k) as nat),
                ),
            decreases
                if it.done {
                    0
                } else {
                    total(start) - rank(it.tokens()) + 1
                },
        {
            let ghost cur = it.tokens();
            proof {
                lemma_total_pos(cur);
                lemma_decode(cur);
                lemma_same_shape(cur, start, rank(cur));
            }
            match it.next() {
                None => {
                    assert(views(out@) =~= Seq::new(
                        (total(self.tokens()) - rank(self.tokens())) as nat,
                        |k: int| word_at(self.tokens(), (rank(self.tokens()) + k) as nat),
                    ));
                    return out;
                },
                Some(w) => {
                    let ghost before = views(out@);
                    out.push(w);
                    proof {
                        lemma_same_shape(it.tokens(), start, 0);
                        assert(views(out@) =~= before.push(w@));
                        assert(w@ == word_at(start, rank(cur)));
                        assert(views(out@) =~= Seq::new(
                            (rank(cur) + 1 - r0) as nat,
                            |k: int| word_at(start, (r0 + k) as nat),
                        ));
                    }
                },
            }
        }
    }

    /// How many words the tokens denote, or the largest `u128` where the
    /// count does not fit.
    pub fn calculate_total(&self) -> (r: u128)
        requires
            self.wf(),
        ensures
            r == saturated(total(self.tokens())),
    {
        let n = self.toks.len();
        let ghost ts = self.tokens();
        let mut acc: u128 = 1;
        let mut i: usize = 0;
        assert(total(ts.subrange(0, 0)) == 1) by {
            assert(ts.subrange(0, 0) =~= Seq::<TokenView>::empty());
        }
        while i < n
            invariant
                n == ts.len(),
                ts == self.tokens(),
                all_wf(ts),
                i <= n,
                acc == saturated(total(ts.subrange(0, i as int))),
            decreases n - i,
        {
            let ghost t = ts[i as int];
            assert(self.toks@[i as int]@ == t);
            let m = self.toks[i].width();
            proof {
                lemma_radix_pos(t);
                assert(ts.subrange(0, i + 1) =~= ts.subrange(0, i as int) + seq![t]);
                lemma_split(ts.subrange(0, i as int), seq![t]);
                lemma_single(t);
            }
            acc = saturating_mul(acc, m, Ghost(total(ts.subrange(0, i as int))));
            i = i + 1;
        }
        assert(ts.subrange(0, n as int) =~= ts);
        acc
    }

    /// How many bytes the words take written one per line: the count times
    /// the length of the first word plus its line break, cut off at the
    /// largest `u128`.
    pub fn calculate_size(&self) -> (r: u128)
        requires
            self.wf(),
        ensures
            r == saturated(total(self.tokens()) * (byte_len(sample(self.tokens())) + 1)),
    {
        let n = self.toks.len();
        let ghost ts = self.tokens();
        let mut line = String::new();
        let mut i: usize = 0;
        assert(ts.subrange(0, 0) =~= Seq::<TokenView>::empty());
        assert(line@ + rendered(at_rank(ts, 0)) =~= rendered(at_rank(ts.subrange(0, n as int), 0)))
            by {
            assert(ts.subrange(0, n as int) =~= ts);
        }
        while i < n
            invariant
                n == ts.len(),
                ts == self.tokens(),
                all_wf(ts),
                i <= n,
                line@ + rendered(at_rank(ts.subrange(i as int, n as int), 0)) == rendered(
                    at_rank(ts, 0),
                ),
            decreases n - i,
        {
            let ghost rest = ts.subrange(i as int, n as int);
            let ghost t = ts[i as int];
            assert(self.toks@[i as int]@ == t);
            self.toks[i].render_first_into(&mut line);
            proof {
                lemma_radix_pos(t);
                assert(rest[0] == t);
                assert(rest.drop_first() =~= ts.subrange(i + 1, n as int));
                assert(low_digit(0, radix(t)) == 0);
                assert(high_digits(0, radix(t)) == 0);
                assert(rendered(at_rank(rest, 0)) == rendering(with_digit(t, 0)) + rendered(
                    at_rank(ts.subrange(i + 1, n as int), 0),
                )) by {
                    let a = at_rank(rest, 0);
                    assert(a[0] == with_digit(t, 0));
                    assert(a.drop_first() =~= at_rank(ts.subrange(i + 1, n as int), 0));
                }
            }
            i = i + 1;
        }
        proof {
            assert(ts.subrange(n as int, n as int) =~= Seq::<TokenView>::empty());
            assert(line@ =~= sample(ts));
        }
        let len = utf8_len(line.as_str()) + 1;
        let count = self.calculate_total();
        saturating_mul(count, len as u128, Ghost(total(ts)))
    }
}

/// Appends `code_run(start, len)` to `out`.
fn push_code_run(out: &mut String, start: u8, len: u8)
    requires
        start + len <= 255,
    ensures
        final(out)@ == old(out)@ + code_run(start as nat, len as nat),
{
    let mut k: u8 = 0;
    while k < len
        invariant
            start + len <= 255,
            k <= len,
            out@ == old(out)@ + code_run(start as nat, k as nat),
        decreases len - k,
    {
        push_char(out, (start + k) as char);
        k = k + 1;
        assert(out@ =~= old(out)@ + code_run(start as nat, k as nat));
    }
}

/// Appends the characters of the class that `c` names, if any.
fn push_class(out: &mut String, c: char)
    ensures
        final(out)@ == old(out)@ + class_chars(c),
{
    if c == 'l' {
        push_code_run(out, 97, 26);
    } else if c == 'u' {
        push_code_run(out, 65, 26);
    } else if c == 'd' {
        push_code_run(out, 48, 10);
    } else if c == 's' {
        push_code_run(out, 33, 15);
        push_code_run(out, 58, 7);
        push_code_run(out, 91, 6);
        push_code_run(out, 123, 4);
        assert(out@ =~= old(out)@ + class_chars(c));
    } else {
        assert(out@ =~= old(out)@ + class_chars(c));
    }
}

/// The character set that the shorthand letters of `v[lo..hi]` name.
fn build_charset(v: &Vec<char>, lo: usize, hi: usize) -> (r: String)
    requires
        lo <= hi <= v@.len(),
    ensures
        r@ == charset_of(v@.subrange(lo as int, hi as int)),
{
    let mut out = String::new();
    let mut seen_l = false;
    let mut seen_u = false;
    let mut seen_d = false;
    let mut seen_s = false;
    let mut i = lo;
    assert(v@.subrange(lo as int, lo as int) =~= Seq::<char>::empty());
    while i < hi
        invariant
            lo <= i <= hi <= v@.len(),
            out@ == charset_of(v@.subrange(lo as int, i as int)),
            seen_l == v@.subrange(lo as int, i as int).contains('l'),
            seen_u == v@.subrange(lo as int, i as int).contains('u'),
            seen_d == v@.subrange(lo as int, i as int).contains('d'),
            seen_s == v@.subrange(lo as int, i as int).contains('s'),
        decreases hi - i,
    {
        let ghost sub = v@.subrange(lo as int, i as int);
        let x = v[i];
        let ghost next = v@.subrange(lo as int, i + 1);
        proof {
            assert(next =~= sub.push(x));
            assert(next.drop_last() =~= sub);
            vstd::seq_lib::lemma_seq_contains_after_push(sub, x, 'l');
            vstd::seq_lib::lemma_seq_contains_after_push(sub, x, 'u');
            vstd::seq_lib::lemma_seq_contains_after_push(sub, x, 'd');
            vstd::seq_lib::lemma_seq_contains_after_push(sub, x, 's');
        }
        let seen = if x == 'l' {
            seen_l
        } else if x == 'u' {
            seen_u
        } else if x == 'd' {
            seen_d
        } else if x == 's' {
            seen_s
        } else {
            true
        };
        if !seen {
            push_class(&mut out, x);
        } else {
            assert(charset_of(next) =~= charset_of(sub)) by {
                if !sub.contains(x) {
                    assert(class_chars(x) =~= Seq::<char>::empty());
                }
            }
        }
        seen_l = seen_l || x == 'l';
        seen_u = seen_u || x == 'u';
        seen_d = seen_d || x == 'd';
        seen_s = seen_s || x == 's';
        i = i + 1;
    }
    out
}

/// The token the placeholder content `v[lo..hi]` compiles to, if any.
fn classify(v: &Vec<char>, lo: usize, hi: usize) -> (r: Option<Token>)
    requires
        lo <= hi <= v@.len(),
    ensures
        r is None ==> placeholder(v@.subrange(lo as int, hi as int)) == Seq::<TokenView>::empty(),
        r matches Some(t) ==> placeholder(v@.subrange(lo as int, hi as int)) == seq![t@]
            && token_wf(t@) && digit(t@) == 0,
{
    let ghost c = v@.subrange(lo as int, hi as int);
    let len = hi - lo;
    let h = find_char(v, lo, hi, '-');
    proof {
        lemma_run_until_bound(c, '-');
        assert(c.subrange(0, h - lo) =~= v@.subrange(lo as int, h as int));
        if h < hi {
            assert(c.subrange(h - lo + 1, c.len() as int) =~= v@.subrange(h + 1, hi as int));
        }
    }
    if len >= 4 && h < hi {
        let a = parse_number(v, lo, h, u32::MAX as usize);
        let b = parse_number(v, h + 1, hi, u32::MAX as usize);
        if let (Some(x), Some(y)) = (a, b) {
            if x <= y {
                return Some(Token::Numbers(x as u32, y as u32, 0));
            }
        }
    }
    if len == 3 && v[lo + 1] == '-' {
        let s = v[lo] as u32;
        let e = v[lo + 2] as u32;
        assert(c[0] == v@[lo as int] && c[1] == v@[lo + 1] && c[2] == v@[lo + 2]);
        if s <= e && (e < 0xD800 || s > 0xDFFF) {
            proof {
                vstd::utf8::char_is_scalar(v@[lo + 2]);
            }
            return Some(Token::Repeat(s, e, s));
        }
    }
    let cs = build_charset(v, lo, hi);
    if cs.as_str().unicode_len() > 0 {
        Some(Token::CharSet(cs, 0))
    } else {
        None
    }
}

/// Compiles a pattern into its tokens.
pub fn tokenize_format_string(input: &str) -> (r: Vec<Token>)
    ensures
        token_views(r@) == tokens_of(input@),
        all_wf(token_views(r@)),
        at_start(token_views(r@)),
{
    let v = chars_of(input);
    let n = v.len();
    let mut toks: Vec<Token> = Vec::new();
    let mut i: usize = 0;
    assert(v@.subrange(0, n as int) =~= v@);
    assert(token_views(toks@) + tokens_of(v@) =~= tokens_of(v@));
    while i < n
        invariant
            v@ == input@,
            n == v@.len(),
            i <= n,
            token_views(toks@) + tokens_of(v@.subrange(i as int, n as int)) == tokens_of(v@),
            all_wf(token_views(toks@)),
            at_start(token_views(toks@)),
        decreases n - i,
    {
        let ghost rest = v@.subrange(i as int, n as int);
        let ghost before = token_views(toks@);
        if v[i] == '{' {
            let j = find_char(&v, i + 1, n, '}');
            proof {
                assert(rest.drop_first() =~= v@.subrange(i + 1, n as int));
                lemma_run_until_bound(rest.drop_first(), '}');
            }
            if j == n {
                let t = Token::String(string_of(&v, i, n));
                toks.push(t);
                proof {
                    assert(tokens_of(rest) == seq![t@]);
                    assert(token_views(toks@) =~= before + seq![t@]);
                    assert(v@.subrange(n as int, n as int) =~= Seq::<char>::empty());
                    assert(token_views(toks@) + tokens_of(v@.subrange(n as int, n as int))
                        =~= token_views(toks@));
                }
                i = n;
            } else {
                let tok = classify(&v, i + 1, j);
                proof {
                    assert(rest.subrange(1, j - i) =~= v@.subrange(i + 1, j as int));
                    assert(rest.subrange(j - i + 1, rest.len() as int) =~= v@.subrange(
                        j + 1,
                        n as int,
                    ));
                    assert(tokens_of(rest) == placeholder(v@.subrange(i + 1, j as int)) + tokens_of(
                        v@.subrange(j + 1, n as int),
                    ));
                }
                match tok {
                    Some(t) => {
                        toks.push(t);
                        assert(token_views(toks@) =~= before + seq![t@]);
                    },
                    None => {
                        assert(before + Seq::<TokenView>::empty() =~= before);
                    },
                }
                i = j + 1;
            }
        } else {
            let j = find_char(&v, i, n, '{');
            proof {
                lemma_run_until_bound(rest, '{');
                assert(run_until(rest, '{') >= 1) by {
                    assert(rest[0] != '{');
                }
                assert(rest.subrange(0, j - i) =~= v@.subrange(i as int, j as int));
                assert(rest.subrange(j - i, rest.len() as int) =~= v@.subrange(j as int, n as int));
            }
            let t = Token::String(string_of(&v, i, j));
            toks.push(t);
            assert(token_views(toks@) =~= before + seq![t@]);
            i = j;
        }
        proof {
            assert forall|k: int| 0 <= k < token_views(toks@).len() implies token_wf(
                #[trigger] token_views(toks@)[k],
            ) && digit(token_views(toks@)[k]) == 0 by {
                if k < before.len() {
                    assert(token_views(toks@)[k] == before[k]);
                }
            }
        }
    }
    assert(v@.subrange(n as int, n as int) =~= Seq::<char>::empty());
    assert(token_views(toks@) =~= tokens_of(v@));
    toks
}

/// A pattern without an opening brace compiles to its own text: it denotes
/// exactly one word, the pattern itself.
pub proof fn lemma_literal_pattern(p: Seq<char>)
    requires
        !p.contains('{'),
    ensures
        total(tokens_of(p)) == 1,
        pattern_words(tokens_of(p)) == seq![p],
{
    let ts = tokens_of(p);
    if p.len() == 0 {
        assert(ts =~= Seq::<TokenView>::empty());
        assert(at_rank(ts, 0) =~= Seq::<TokenView>::empty());
        assert(total(ts) == 1);
        assert(word_at(ts, 0) =~= p);
        assert(pattern_words(ts)[0] == word_at(ts, 0));
    } else {
        assert forall|j: int| 0 <= j < p.len() implies p[j] != '{' by {
            if p[j] == '{' {
                assert(p.contains('{'));
            }
        }
        lemma_run_until(p, '{', p.len() as int);
        assert(p.subrange(0, p.len() as int) =~= p);
        assert(p.subrange(p.len() as int, p.len() as int) =~= Seq::<char>::empty());
        assert(p[0] != '{');
        assert(tokens_of(p.subrange(p.len() as int, p.len() as int)) =~= Seq::<TokenView>::empty());
        assert(ts == seq![TokenView::String(p.subrange(0, p.len() as int))] + tokens_of(
            p.subrange(p.len() as int, p.len() as int),
        ));
        assert(ts =~= seq![TokenView::String(p)]);
        lemma_single(TokenView::String(p));
        let a = at_rank(ts, 0);
        assert(a =~= seq![TokenView::String(p)]) by {
            assert(at_rank(ts.drop_first(), 0) =~= Seq::<TokenView>::empty());
        }
        assert(with_digit(TokenView::String(p), low_digit(0, 1)) == TokenView::String(p));
        assert(total(ts) == 1);
        assert(word_at(ts, 0) == p);
        assert(pattern_words(ts)[0] == word_at(ts, 0));
    }
    assert(pattern_words(ts) =~= seq![p]);
}

/// The tokens of a placeholder are well formed and at their first values.
proof fn lemma_placeholder_wf(c: Seq<char>)
    ensures
        all_wf(placeholder(c)),
        at_start(placeholder(c)),
{
    vstd::utf8::char_is_scalar(c[0]);
}

/// Every pattern compiles to well-formed tokens at their first values, so
/// a fresh iterator yields every word of `pattern_words`: exactly `total`
/// of them.
pub proof fn lemma_compiled_tokens(p: Seq<char>)
    ensures
        all_wf(tokens_of(p)),
        at_start(tokens_of(p)),
        rank(tokens_of(p)) == 0,
        total(tokens_of(p)) >= 1,
        Seq::new(
            (total(tokens_of(p)) - rank(tokens_of(p))) as nat,
            |k: int| word_at(tokens_of(p), (rank(tokens_of(p)) + k) as nat),
        ) == pattern_words(tokens_of(p)),
        pattern_words(tokens_of(p)).len() == total(tokens_of(p)),
    decreases p.len(),
{
    let ts = tokens_of(p);
    if p.len() > 0 {
        let (head, tail) = if p[0] == '{' {
            let k = run_until(p.drop_first(), '}');
            if k + 1 >= p.len() {
                (seq![TokenView::String(p)], Seq::<char>::empty())
            } else {
                lemma_placeholder_wf(p.subrange(1, k + 1 as int));
                (placeholder(p.subrange(1, k + 1 as int)), p.subrange(k + 2 as int, p.len() as int))
            }
        } else {
            let k = run_until(p, '{');
            if k == 0 || k > p.len() {
                (seq![TokenView::String(p)], Seq::<char>::empty())
            } else {
                (seq![TokenView::String(p.subrange(0, k as int))], p.subrange(k as int, p.len() as int))
            }
        };
        if tail.len() > 0 {
            lemma_compiled_tokens(tail);
        }
        assert(tokens_of(Seq::<char>::empty()) =~= Seq::<TokenView>::empty());
        assert(ts =~= head + tokens_of(tail));
        let rest = tokens_of(tail);
        assert forall|k: int| 0 <= k < ts.len() implies token_wf(#[trigger] ts[k]) && digit(ts[k])
            == 0 by {
            if k < head.len() {
                assert(ts[k] == head[k]);
            } else {
                assert(ts[k] == rest[k - head.len()]);
            }
        }
    }
    lemma_rank_zero(ts);
    lemma_total_pos(ts);
    assert(Seq::new(
        (total(ts) - rank(ts)) as nat,
        |k: int| word_at(ts, (rank(ts) + k) as nat),
    ) =~= pattern_words(ts));
}

/// The size estimate is the count times the length of one line, wherever
/// that product fits a `u128`.
pub proof fn lemma_size_is_count_times_line(ts: Seq<TokenView>)
    requires
        all_wf(ts),
        total(ts) * (byte_len(sample(ts)) + 1) <= u128::MAX,
    ensures
        saturated(total(ts) * (byte_len(sample(ts)) + 1)) == saturated(total(ts)) * (byte_len(
            sample(ts),
        ) + 1),
{
    let t = total(ts);
    let l = byte_len(sample(ts)) + 1;
    assert(t <= t * l) by (nonlinear_arith)
        requires
            l >= 1,
    ;
}

/// The text that describes a token.
pub open spec fn token_text(t: TokenView) -> Seq<char> {
    match t {
        TokenView::String(s) => "string: "@ + s,
        TokenView::Repeat(a, b, _) => "repeat: "@ + decimal(a as nat) + " -> "@ + decimal(
            b as nat,
        ),
        TokenView::CharSet(s, _) => "char_set: "@ + s,
        TokenView::Numbers(a, b, _) => "numbers: "@ + decimal(a as nat) + " -> "@ + decimal(
            b as nat,
        ),
    }
}

impl Token {
    /// A description of the token, such as `repeat: 97 -> 122`.
    pub fn to_string(&self) -> (r: String)
        ensures
            r@ == token_text(self@),
    {
        let mut out = String::new();
        match self {
            Token::String(s) => {
                push_str(&mut out, "string: ");
                push_str(&mut out, s.as_str());
            },
            Token::Repeat(a, b, _) => {
                push_str(&mut out, "repeat: ");
                push_decimal(&mut out, *a as u64);
                push_str(&mut out, " -> ");
                push_decimal(&mut out, *b as u64);
            },
            Token::CharSet(s, _) => {
                push_str(&mut out, "char_set: ");
                push_str(&mut out, s.as_str());
            },
            Token::Numbers(a, b, _) => {
                push_str(&mut out, "numbers: ");
                push_decimal(&mut out, *a as u64);
                push_str(&mut out, " -> ");
                push_decimal(&mut out, *b as u64);
            },
        }
        assert(out@ =~= token_text(self@));
        out
    }
}

} // verus!
