//! Character-sequence helpers shared by the pattern compiler and the
//! mutation engine, each stated over `Seq<char>`.
use vstd::prelude::*;
use vstd::string::StringExecFns;

verus! {

/// Number of leading characters of `s` that differ from `c`.
pub open spec fn run_until(s: Seq<char>, c: char) -> nat
    decreases s.len(),
{
    if s.len() == 0 || s[0] == c {
        0
    } else {
        1 + run_until(s.drop_first(), c)
    }
}

pub proof fn lemma_run_until(s: Seq<char>, c: char, k: int)
    requires
        0 <= k <= s.len(),
        forall|j: int| 0 <= j < k ==> s[j] != c,
        k == s.len() || s[k] == c,
    ensures
        run_until(s, c) == k,
    decreases k,
{
    if k > 0 {
        lemma_run_until(s.drop_first(), c, k - 1);
    }
}

/// The characters of a string slice, in order.
pub fn chars_of(s: &str) -> (r: Vec<char>)
    ensures
        r@ == s@,
{
    let mut r: Vec<char> = Vec::new();
    let n = s.unicode_len();
    let mut i: usize = 0;
    while i < n
        invariant
            n == s@.len(),
            i <= n,
            r@ == s@.subrange(0, i as int),
        decreases n - i,
    {
        r.push(s.get_char(i));
        i = i + 1;
    }
    r
}

/// Relies on String::push: appends one character at the end.
#[verifier::external_body]
pub(crate) fn push_char(s: &mut String, c: char)
    ensures
        final(s)@ == old(s)@.push(c),
{
    s.push(c)
}

/// Appends a string slice at the end.
pub fn push_str(s: &mut String, t: &str)
    ensures
        final(s)@ == old(s)@ + t@,
{
    s.append(t)
}

/// A new string holding the characters `v[lo..hi]`.
pub fn string_of(v: &Vec<char>, lo: usize, hi: usize) -> (r: String)
    requires
        lo <= hi <= v@.len(),
    ensures
        r@ == v@.subrange(lo as int, hi as int),
{
    let mut r = String::new();
    let mut i = lo;
    while i < hi
        invariant
            lo <= i <= hi <= v@.len(),
            r@ == v@.subrange(lo as int, i as int),
        decreases hi - i,
    {
        push_char(&mut r, v[i]);
        i = i + 1;
        assert(r@ =~= v@.subrange(lo as int, i as int));
    }
    r
}

/// Whether two string slices hold the same characters.
pub fn str_eq(a: &str, b: &str) -> (r: bool)
    ensures
        r == (a@ == b@),
{
    let n = a.unicode_len();
    if n != b.unicode_len() {
        return false;
    }
    let mut i: usize = 0;
    while i < n
        invariant
            n == a@.len() == b@.len(),
            i <= n,
            a@.subrange(0, i as int) == b@.subrange(0, i as int),
        decreases n - i,
    {
        if a.get_char(i) != b.get_char(i) {
            return false;
        }
        i = i + 1;
        assert(a@.subrange(0, i as int) =~= a@.subrange(0, i - 1).push(a@[i - 1]));
        assert(b@.subrange(0, i as int) =~= b@.subrange(0, i - 1).push(b@[i - 1]));
    }
    assert(a@ =~= a@.subrange(0, n as int));
    assert(b@ =~= b@.subrange(0, n as int));
    true
}

/// The first index in `from..to` at which `v` holds `c`, or `to`.
pub fn find_char(v: &Vec<char>, from: usize, to: usize, c: char) -> (r: usize)
    requires
        from <= to <= v@.len(),
    ensures
        r == from + run_until(v@.subrange(from as int, to as int), c),
        from <= r <= to,
{
    let mut i = from;
    while i < to && v[i] != c
        invariant
            from <= i <= to <= v@.len(),
            forall|j: int| from <= j < i ==> v@[j] != c,
        decreases to - i,
    {
        i = i + 1;
    }
    proof {
        lemma_run_until(v@.subrange(from as int, to as int), c, i - from);
    }
    i
}

pub open spec fn is_digit(c: char) -> bool {
    '0' <= c && c <= '9'
}

/// A non-empty run of decimal digits.
pub open spec fn is_number(s: Seq<char>) -> bool {
    s.len() > 0 && forall|i: int| 0 <= i < s.len() ==> is_digit(#[trigger] s[i])
}

/// The value of a run of decimal digits.
pub open spec fn number_value(s: Seq<char>) -> nat
    decreases s.len(),
{
    if s.len() == 0 {
        0
    } else {
        number_value(s.drop_last()) * 10 + (s.last() as nat - '0' as nat) as nat
    }
}

/// The character of a decimal digit.
pub open spec fn digit_char(d: nat) -> char {
    (d + 48) as u8 as char
}

/// The decimal rendering of `n`, without leading zeros.
pub open spec fn decimal(n: nat) -> Seq<char>
    decreases n,
{
    if n < 10 {
        seq![digit_char(n)]
    } else {
        decimal(n / 10).push(digit_char(n % 10))
    }
}

/// The value of the digits `v[lo..hi]` when it is a number no greater than
/// `max`, else `None`.
pub fn parse_number(v: &Vec<char>, lo: usize, hi: usize, max: usize) -> (r: Option<usize>)
    requires
        lo <= hi <= v@.len(),
    ensures
        r is Some <==> is_number(v@.subrange(lo as int, hi as int)) && number_value(
            v@.subrange(lo as int, hi as int),
        ) <= max,
        r matches Some(x) ==> x == number_value(v@.subrange(lo as int, hi as int)),
{
    if lo == hi {
        return None;
    }
    let mut acc: usize = 0;
    let mut i = lo;
    while i < hi
        invariant
            lo <= i <= hi <= v@.len(),
            is_number(v@.subrange(lo as int, i as int)) || i == lo,
            acc == number_value(v@.subrange(lo as int, i as int)),
            acc <= max,
        decreases hi - i,
    {
        let c = v[i];
        assert(v@.subrange(lo as int, i + 1).drop_last() =~= v@.subrange(lo as int, i as int));
        if !('0' <= c && c <= '9') {
            assert(!is_number(v@.subrange(lo as int, hi as int))) by {
                assert(v@.subrange(lo as int, hi as int)[i - lo] == c);
            }
            return None;
        }
        let d = (c as u32 - '0' as u32) as usize;
        if d > max || acc > (max - d) / 10 {
            proof {
                if is_number(v@.subrange(lo as int, hi as int)) {
                    lemma_number_prefix_grows(v@.subrange(lo as int, hi as int), i + 1 - lo);
                }
                assert(v@.subrange(lo as int, hi as int).subrange(0, i + 1 - lo) =~= v@.subrange(
                    lo as int,
                    i + 1,
                ));
                if d <= max {
                    assert(acc * 10 + d > max) by (nonlinear_arith)
                        requires
                            acc > (max - d) / 10,
                            d <= max,
                    ;
                }
            }
            return None;
        }
        proof {
            assert(acc * 10 + d <= max) by (nonlinear_arith)
                requires
                    acc <= (max - d) / 10,
                    d <= max,
            ;
        }
        acc = acc * 10 + d;
        i = i + 1;
        assert(is_number(v@.subrange(lo as int, i as int)));
    }
    Some(acc)
}

/// A longer run of digits is worth at least as much as its prefix.
proof fn lemma_number_prefix_grows(s: Seq<char>, k: int)
    requires
        is_number(s),
        0 <= k <= s.len(),
    ensures
        number_value(s.subrange(0, k)) <= number_value(s),
    decreases s.len(),
{
    if k == s.len() {
        assert(s.subrange(0, k) =~= s);
    } else {
        let p = s.drop_last();
        assert(p.subrange(0, k) =~= s.subrange(0, k));
        if p.len() > 0 {
            assert(is_number(p)) by {
                assert forall|i: int| 0 <= i < p.len() implies is_digit(#[trigger] p[i]) by {
                    assert(p[i] == s[i]);
                }
            }
            lemma_number_prefix_grows(p, k);
        } else {
            assert(s.subrange(0, k) =~= Seq::<char>::empty());
        }
        let x = number_value(p);
        let d = (s.last() as nat - '0' as nat) as nat;
        assert(x <= x * 10 + d) by (nonlinear_arith);
    }
}

/// Appends the decimal rendering of `n` to `s`.
pub fn push_decimal(s: &mut String, n: u64)
    ensures
        final(s)@ == old(s)@ + decimal(n as nat),
    decreases n,
{
    if n >= 10 {
        push_decimal(s, n / 10);
    }
    let d = (n % 10) as u8;
    push_char(s, (d + 48) as char);
    proof {
        assert(old(s)@ + decimal(n as nat) =~= s@);
    }
}

/// The views of a sequence of strings.
pub open spec fn views(v: Seq<String>) -> Seq<Seq<char>> {
    v.map_values(|s: String| s@)
}

/// Unicode white space, as `char::is_whitespace` classifies it.
pub open spec fn is_space(c: char) -> bool {
    let u = c as u32;
    (9 <= u && u <= 13) || u == 32 || u == 0x85 || u == 0xA0 || u == 0x1680 || (0x2000 <= u
        && u <= 0x200A) || u == 0x2028 || u == 0x2029 || u == 0x202F || u == 0x205F || u
        == 0x3000
}

pub fn space(c: char) -> (r: bool)
    ensures
        r == is_space(c),
{
    let u = c as u32;
    (9 <= u && u <= 13) || u == 32 || u == 0x85 || u == 0xA0 || u == 0x1680 || (0x2000 <= u
        && u <= 0x200A) || u == 0x2028 || u == 0x2029 || u == 0x202F || u == 0x205F || u
        == 0x3000
}

pub open spec fn trim_start(s: Seq<char>) -> Seq<char>
    decreases s.len(),
{
    if s.len() > 0 && is_space(s[0]) {
        trim_start(s.drop_first())
    } else {
        s
    }
}

pub open spec fn trim_end(s: Seq<char>) -> Seq<char>
    decreases s.len(),
{
    if s.len() > 0 && is_space(s.last()) {
        trim_end(s.drop_last())
    } else {
        s
    }
}

/// `s` without its leading and trailing white space.
pub open spec fn trimmed(s: Seq<char>) -> Seq<char> {
    trim_end(trim_start(s))
}

/// A copy of `s` without its leading and trailing white space.
pub fn trim(s: &str) -> (r: String)
    ensures
        r@ == trimmed(s@),
{
    let v = chars_of(s);
    let n = v.len();
    let mut a: usize = 0;
    assert(v@ =~= v@.subrange(0, n as int));
    while a < n && space(v[a])
        invariant
            a <= n == v@.len(),
            trim_start(v@) == trim_start(v@.subrange(a as int, n as int)),
        decreases n - a,
    {
        assert(v@.subrange(a as int, n as int).drop_first() =~= v@.subrange(a + 1, n as int));
        a = a + 1;
    }
    assert(v@ =~= v@.subrange(0, n as int));
    let mut b: usize = n;
    while b > a && space(v[b - 1])
        invariant
            a <= b <= n == v@.len(),
            trimmed(v@) == trim_end(v@.subrange(a as int, b as int)),
        decreases b,
    {
        assert(v@.subrange(a as int, b as int).drop_last() =~= v@.subrange(a as int, b - 1));
        b = b - 1;
    }
    string_of(&v, a, b)
}

/// The pieces of `s` between occurrences of `c`, as `str::split` gives them.
pub open spec fn split_on(s: Seq<char>, c: char) -> Seq<Seq<char>>
    decreases s.len(),
{
    let k = run_until(s, c);
    if k >= s.len() {
        seq![s]
    } else {
        seq![s.subrange(0, k as int)] + split_on(s.subrange(k + 1 as int, s.len() as int), c)
    }
}

pub proof fn lemma_run_until_bound(s: Seq<char>, c: char)
    ensures
        run_until(s, c) <= s.len(),
        run_until(s, c) < s.len() ==> s[run_until(s, c) as int] == c,
        forall|j: int| 0 <= j < run_until(s, c) ==> s[j] != c,
    decreases s.len(),
{
    if s.len() > 0 && s[0] != c {
        lemma_run_until_bound(s.drop_first(), c);
        assert forall|j: int| 0 <= j < run_until(s, c) implies s[j] != c by {
            if j > 0 {
                assert(s[j] == s.drop_first()[j - 1]);
            }
        }
    }
}

/// The pieces of `s` between occurrences of `c`.
pub fn split(s: &str, c: char) -> (r: Vec<String>)
    ensures
        views(r@) == split_on(s@, c),
{
    let v = chars_of(s);
    let n = v.len();
    let mut out: Vec<String> = Vec::new();
    let mut i: usize = 0;
    assert(v@ =~= v@.subrange(0, n as int));
    assert(views(out@) + split_on(v@, c) =~= split_on(v@, c));
    loop
        invariant
            i <= n == v@.len(),
            v@ == s@,
            views(out@) + split_on(v@.subrange(i as int, n as int), c) == split_on(v@, c),
        decreases n - i,
    {
        let ghost rest = v@.subrange(i as int, n as int);
        let ghost before = views(out@);
        let k = find_char(&v, i, n, c);
        let piece = string_of(&v, i, k);
        proof {
            lemma_run_until_bound(rest, c);
            assert(rest.subrange(0, k - i) =~= v@.subrange(i as int, k as int));
            assert(views(out@.push(piece)) =~= views(out@).push(piece@));
        }
        out.push(piece);
        if k == n {
            assert(rest =~= v@.subrange(i as int, k as int));
            assert(split_on(rest, c) == seq![rest]);
            assert(views(out@) =~= before + split_on(rest, c));
            return out;
        }
        assert(rest.subrange(k - i + 1, rest.len() as int) =~= v@.subrange(k + 1, n as int));
        assert(views(out@) + split_on(v@.subrange(k + 1, n as int), c) =~= before + split_on(
            rest,
            c,
        ));
        i = k + 1;
    }
}

/// `t` occurs in `s` starting at index `i`.
pub open spec fn occurs_at(s: Seq<char>, t: Seq<char>, i: int) -> bool {
    0 <= i && i + t.len() <= s.len() && s.subrange(i, i + t.len()) == t
}

/// `t` occurs somewhere in `s`.
pub open spec fn has_sub(s: Seq<char>, t: Seq<char>) -> bool {
    exists|i: int| occurs_at(s, t, i)
}

/// Whether `t` occurs in `s` at index `i`.
fn occurs_at_exec(s: &Vec<char>, t: &Vec<char>, i: usize) -> (r: bool)
    ensures
        r == occurs_at(s@, t@, i as int),
{
    if t.len() > s.len() || i > s.len() - t.len() {
        return false;
    }
    let sl = s.len();
    let mut j: usize = 0;
    while j < t.len()
        invariant
            sl == s@.len(),
            i + t@.len() <= s@.len(),
            j <= t@.len(),
            forall|k: int| 0 <= k < j ==> s@[i + k] == t@[k],
        decreases t@.len() - j,
    {
        if s[i + j] != t[j] {
            assert(s@.subrange(i as int, i + t@.len())[j as int] != t@[j as int]);
            return false;
        }
        j = j + 1;
    }
    assert(s@.subrange(i as int, i + t@.len()) =~= t@);
    true
}

/// Whether `t` occurs in `s`.
pub fn contains(s: &str, t: &str) -> (r: bool)
    ensures
        r == has_sub(s@, t@),
{
    let sv = chars_of(s);
    let tv = chars_of(t);
    if tv.len() > sv.len() {
        return false;
    }
    let last = sv.len() - tv.len();
    let mut i: usize = 0;
    loop
        invariant
            sv@ == s@,
            tv@ == t@,
            last == sv@.len() - tv@.len(),
            i <= last,
            forall|k: int| 0 <= k < i ==> !occurs_at(s@, t@, k),
        decreases last - i,
    {
        if occurs_at_exec(&sv, &tv, i) {
            return true;
        }
        if i == last {
            return false;
        }
        i = i + 1;
    }
}

/// `s` with every occurrence of `n` replaced by `b`, scanning from the left
/// as `str::replace` does; an empty `n` matches around every character.
pub open spec fn replace_all(s: Seq<char>, n: Seq<char>, b: Seq<char>) -> Seq<char>
    decreases s.len(),
{
    if n.len() == 0 {
        if s.len() == 0 {
            b
        } else {
            b + seq![s[0]] + replace_all(s.drop_first(), n, b)
        }
    } else if s.len() == 0 {
        s
    } else if occurs_at(s, n, 0) {
        b + replace_all(s.subrange(n.len() as int, s.len() as int), n, b)
    } else {
        seq![s[0]] + replace_all(s.drop_first(), n, b)
    }
}

/// A copy of `s` with every occurrence of `n` replaced by `b`.
pub fn replace(s: &str, n: &str, b: &str) -> (r: String)
    ensures
        r@ == replace_all(s@, n@, b@),
{
    let sv = chars_of(s);
    let nv = chars_of(n);
    let len = sv.len();
    let mut out = String::new();
    let mut i: usize = 0;
    assert(sv@ =~= sv@.subrange(0, len as int));
    while i < len
        invariant
            i <= len == sv@.len(),
            sv@ == s@,
            nv@ == n@,
            replace_all(s@, n@, b@) == out@ + replace_all(
                sv@.subrange(i as int, len as int),
                n@,
                b@,
            ),
        decreases len - i,
    {
        let ghost rest = sv@.subrange(i as int, len as int);
        if nv.len() == 0 {
            push_str(&mut out, b);
            push_char(&mut out, sv[i]);
            assert(rest.drop_first() =~= sv@.subrange(i + 1, len as int));
            i = i + 1;
        } else if occurs_at_exec(&sv, &nv, i) {
            assert(occurs_at(rest, n@, 0)) by {
                assert(rest.subrange(0, n@.len() as int) =~= sv@.subrange(
                    i as int,
                    i + n@.len(),
                ));
            }
            push_str(&mut out, b);
            assert(rest.subrange(n@.len() as int, rest.len() as int) =~= sv@.subrange(
                i + nv@.len(),
                len as int,
            ));
            i = i + nv.len();
        } else {
            assert(!occurs_at(rest, n@, 0)) by {
                if rest.len() >= n@.len() {
                    assert(rest.subrange(0, n@.len() as int) =~= sv@.subrange(
                        i as int,
                        i + n@.len(),
                    ));
                }
            }
            push_char(&mut out, sv[i]);
            assert(rest.drop_first() =~= sv@.subrange(i + 1, len as int));
            i = i + 1;
        }
        assert(replace_all(s@, n@, b@) =~= out@ + replace_all(
            sv@.subrange(i as int, len as int),
            n@,
            b@,
        ));
    }
    if nv.len() == 0 {
        push_str(&mut out, b);
    }
    assert(out@ =~= replace_all(s@, n@, b@));
    out
}

/// `s` written `n` times in a row.
pub open spec fn repeat(s: Seq<char>, n: nat) -> Seq<char>
    decreases n,
{
    if n == 0 {
        Seq::empty()
    } else {
        repeat(s, (n - 1) as nat) + s
    }
}

/// Appends `w` to `out` `n` times.
pub fn push_repeated(out: &mut String, w: &str, n: usize)
    ensures
        final(out)@ == old(out)@ + repeat(w@, n as nat),
{
    let mut i: usize = 0;
    assert(old(out)@ =~= old(out)@ + repeat(w@, 0));
    while i < n
        invariant
            i <= n,
            out@ == old(out)@ + repeat(w@, i as nat),
        decreases n - i,
    {
        push_str(out, w);
        i = i + 1;
        assert(out@ =~= old(out)@ + repeat(w@, i as nat));
    }
}

/// The characters of `s` in reverse order.
pub fn reversed(s: &str) -> (r: String)
    ensures
        r@ == s@.reverse(),
{
    let v = chars_of(s);
    let n = v.len();
    let mut out = String::new();
    let mut i: usize = n;
    while i > 0
        invariant
            i <= n == v@.len(),
            out@ =~= v@.subrange(i as int, n as int).reverse(),
        decreases i,
    {
        push_char(&mut out, v[i - 1]);
        i = i - 1;
        assert(out@ =~= v@.subrange(i as int, n as int).reverse());
    }
    assert(v@ =~= v@.subrange(0, n as int));
    out
}

/// What `str::to_uppercase` gives for a sequence of characters.
pub uninterp spec fn upper_of(s: Seq<char>) -> Seq<char>;

/// What `str::to_lowercase` gives for a sequence of characters.
pub uninterp spec fn lower_of(s: Seq<char>) -> Seq<char>;

/// Relies on str::to_uppercase: the result depends on the characters alone,
/// and an empty string stays empty.
#[verifier::external_body]
pub(crate) fn uppercase(s: &str) -> (r: String)
    ensures
        r@ == upper_of(s@),
        s@.len() == 0 ==> r@.len() == 0,
{
    s.to_uppercase()
}

/// Relies on str::to_lowercase: the result depends on the characters alone,
/// and an empty string stays empty.
#[verifier::external_body]
pub(crate) fn lowercase(s: &str) -> (r: String)
    ensures
        r@ == lower_of(s@),
        s@.len() == 0 ==> r@.len() == 0,
{
    s.to_lowercase()
}

/// The length of the UTF-8 encoding of `s`.
pub open spec fn byte_len(s: Seq<char>) -> nat {
    vstd::utf8::encode_utf8(s).len()
}

pub proof fn lemma_encode_concat(a: Seq<char>, b: Seq<char>)
    ensures
        vstd::utf8::encode_utf8(a + b) == vstd::utf8::encode_utf8(a) + vstd::utf8::encode_utf8(b),
    decreases a.len(),
{
    if a.len() == 0 {
        assert(a + b =~= b);
        assert(vstd::utf8::encode_utf8(a) + vstd::utf8::encode_utf8(b) =~= vstd::utf8::encode_utf8(b));
    } else {
        assert((a + b).drop_first() =~= a.drop_first() + b);
        assert((a + b)[0] == a[0]);
        lemma_encode_concat(a.drop_first(), b);
        assert(vstd::utf8::encode_utf8(a + b) =~= vstd::utf8::encode_utf8(a) + vstd::utf8::encode_utf8(b));
    }
}

/// The length of the UTF-8 encoding of `s`.
pub fn utf8_len(s: &str) -> (r: u128)
    ensures
        r == byte_len(s@),
        r <= 4 * usize::MAX,
{
    let v = chars_of(s);
    let n = v.len();
    let mut acc: u128 = 0;
    let mut i: usize = 0;
    assert(v@.subrange(0, 0) =~= Seq::<char>::empty());
    assert(vstd::utf8::encode_utf8(Seq::<char>::empty()) =~= Seq::<u8>::empty());
    while i < n
        invariant
            n == v@.len(),
            v@ == s@,
            i <= n,
            acc == byte_len(v@.subrange(0, i as int)),
            acc <= 4 * i,
        decreases n - i,
    {
        let c = v[i];
        let u = c as u32;
        let w: u128 = if u <= 0x7F {
            1
        } else if u <= 0x7FF {
            2
        } else if u <= 0xFFFF {
            3
        } else {
            4
        };
        proof {
            let one = seq![c];
            assert(v@.subrange(0, i + 1) =~= v@.subrange(0, i as int) + one);
            lemma_encode_concat(v@.subrange(0, i as int), one);
            assert(one.drop_first() =~= Seq::<char>::empty());
            assert(vstd::utf8::encode_utf8(one.drop_first()) =~= Seq::<u8>::empty());
            assert(vstd::utf8::encode_utf8(one) =~= vstd::utf8::encode_scalar(u));
            vstd::utf8::char_is_scalar(c);
            assert(vstd::utf8::encode_scalar(u).len() == w);
        }
        acc = acc + w;
        i = i + 1;
    }
    assert(v@.subrange(0, n as int) =~= v@);
    acc
}

} // verus!
