//! The atomic pieces of Clojure source: whitespace and comments, words,
//! numbers, characters, strings and regular expressions.
//!
//! For each piece a spec function tells where it ends when it starts at a
//! given position, and a scanner computes that end together with the token.

use vstd::prelude::*;

use super::scanner::{
    at, at_class, char_at, class_at, ends_name, in_class, is_dec_digit, is_hex_digit,
    is_name_char, is_oct_digit, is_ws, lemma_name_run_window, name_ends, run_end, scan_run, lemma_run_end_bounds, Class,
};
use super::types::{CharSyntax, NumberClass, NumericValue, StringFragment, Token};
use crate::text::string_of;

verus! {

/// Whether the characters of `w` stand in `s` from `i` on.
pub open spec fn lit_at(s: Seq<char>, i: int, w: Seq<char>) -> bool {
    0 <= i && i + w.len() <= s.len() && s.subrange(i, i + w.len()) == w
}

pub fn literal_at(s: &[char], i: usize, w: &[char]) -> (r: bool)
    ensures
        r == lit_at(s@, i as int, w@),
{
    if i > s.len() || w.len() > s.len() - i {
        return false;
    }
    let mut k: usize = 0;
    while k < w.len()
        invariant
            k <= w.len(),
            i + w.len() <= s.len(),
            s@.subrange(i as int, i + k) == w@.take(k as int),
        decreases w.len() - k,
    {
        if s[i + k] != w[k] {
            assert(s@.subrange(i as int, i + w.len())[k as int] != w@[k as int]);
            return false;
        }
        k = k + 1;
        assert(s@.subrange(i as int, i + k) == w@.take(k as int));
    }
    assert(w@.take(w.len() as int) == w@);
    true
}

/// The characters from `a` to `b` as a string.
pub fn text(s: &[char], a: usize, b: usize) -> (r: String)
    requires
        a <= b <= s.len(),
    ensures
        r@ == s@.subrange(a as int, b as int),
{
    let mut v: Vec<char> = Vec::new();
    let mut k = a;
    while k < b
        invariant
            a <= k <= b <= s.len(),
            v@ == s@.subrange(a as int, k as int),
        decreases b - k,
    {
        v.push(s[k]);
        k = k + 1;
    }
    string_of(v.as_slice())
}

// ---------------------------------------------------------------- whitespace

/// Where a comment starting at `i` ends: `;` or `#!` and the rest of the
/// line, the newline excluded.
pub open spec fn comment_end(s: Seq<char>, i: int) -> Option<int> {
    if at(s, i, ';') {
        Some(run_end(s, i + 1, Class::Line))
    } else if at(s, i, '#') && at(s, i + 1, '!') {
        Some(run_end(s, i + 2, Class::Line))
    } else {
        None
    }
}

pub proof fn lemma_comment_bounds(s: Seq<char>, i: int)
    requires
        0 <= i <= s.len(),
        comment_end(s, i) is Some,
    ensures
        i < comment_end(s, i)->0 <= s.len(),
{
    if at(s, i, ';') {
        lemma_run_end_bounds(s, i + 1, Class::Line);
    } else {
        lemma_run_end_bounds(s, i + 2, Class::Line);
    }
}

pub fn scan_comment(s: &[char], i: usize) -> (r: Option<usize>)
    requires
        i <= s.len(),
    ensures
        match r {
            Some(e) => comment_end(s@, i as int) == Some(e as int) && i < e <= s.len(),
            None => comment_end(s@, i as int) is None,
        },
{
    if char_at(s, i, ';') {
        Some(scan_run(s, i + 1, Class::Line))
    } else if char_at(s, i, '#') && char_at(s, i + 1, '!') {
        Some(scan_run(s, i + 2, Class::Line))
    } else {
        None
    }
}

/// Where the whitespace and comments that start at `i` end.
pub open spec fn skip_end(s: Seq<char>, i: int) -> int
    decreases s.len() - i,
{
    if 0 <= i && at_class(s, i, Class::Ws) {
        let j = run_end(s, i, Class::Ws);
        if i < j <= s.len() {
            skip_end(s, j)
        } else {
            i
        }
    } else if 0 <= i && comment_end(s, i) is Some {
        let j = comment_end(s, i)->0;
        if i < j <= s.len() {
            skip_end(s, j)
        } else {
            i
        }
    } else {
        i
    }
}

pub proof fn lemma_skip_bounds(s: Seq<char>, i: int)
    requires
        0 <= i <= s.len(),
    ensures
        i <= skip_end(s, i) <= s.len(),
    decreases s.len() - i,
{
    if at_class(s, i, Class::Ws) {
        lemma_run_end_bounds(s, i, Class::Ws);
        lemma_skip_bounds(s, run_end(s, i, Class::Ws));
    } else if comment_end(s, i) is Some {
        lemma_comment_bounds(s, i);
        lemma_skip_bounds(s, comment_end(s, i)->0);
    }
}

/// Where whitespace and comments end before more text, the last character
/// skipped is whitespace: a comment ends only at a newline or at the end.
pub proof fn lemma_skip_last(s: Seq<char>, i: int)
    requires
        0 <= i <= s.len(),
    ensures
        i < skip_end(s, i) < s.len() ==> is_ws(s[skip_end(s, i) - 1]),
    decreases s.len() - i,
{
    if at_class(s, i, Class::Ws) {
        let j = run_end(s, i, Class::Ws);
        lemma_run_end_bounds(s, i, Class::Ws);
        lemma_skip_bounds(s, j);
        lemma_skip_last(s, j);
        assert(in_class(Class::Ws, s[j - 1]));
    } else if comment_end(s, i) is Some {
        let j = comment_end(s, i)->0;
        lemma_comment_bounds(s, i);
        lemma_skip_bounds(s, j);
        lemma_skip_last(s, j);
        if at(s, i, ';') {
            lemma_run_end_bounds(s, i + 1, Class::Line);
        } else {
            lemma_run_end_bounds(s, i + 2, Class::Line);
        }
        if j < s.len() {
            assert(at_class(s, j, Class::Ws));
            lemma_run_end_bounds(s, j, Class::Ws);
            lemma_skip_bounds(s, run_end(s, j, Class::Ws));
        }
    }
}

// --------------------------------------------------------------------- words

/// Where the word `w` (`nil`, `true`, `false`) ends when it stands at `i`
/// as a whole name.
pub open spec fn word_end(s: Seq<char>, i: int, w: Seq<char>) -> Option<int> {
    if lit_at(s, i, w) && ends_name(s, i + w.len()) {
        Some(i + w.len())
    } else {
        None
    }
}

pub fn scan_word(s: &[char], i: usize, w: &[char]) -> (r: Option<usize>)
    requires
        i <= s.len(),
    ensures
        match r {
            Some(e) => word_end(s@, i as int, w@) == Some(e as int) && i + w.len() == e
                && e <= s.len(),
            None => word_end(s@, i as int, w@) is None,
        },
{
    if literal_at(s, i, w) && name_ends(s, i + w.len()) {
        Some(i + w.len())
    } else {
        None
    }
}

// ------------------------------------------------------------------- numbers

/// The end of the exponent that starts at `b`, or `b` where there is none.
pub open spec fn exponent_end(s: Seq<char>, b: int) -> int {
    if at(s, b, 'e') || at(s, b, 'E') {
        let q = if at(s, b + 1, '+') || at(s, b + 1, '-') {
            b + 2
        } else {
            b + 1
        };
        if at_class(s, q, Class::Dec) {
            run_end(s, q, Class::Dec)
        } else {
            b
        }
    } else {
        b
    }
}

/// The end of the floating-point body (digits, fraction, exponent) whose
/// digits end at `a`; the second item tells whether it has a fraction or an
/// exponent.
pub open spec fn float_body(s: Seq<char>, a: int) -> (int, bool) {
    let b = if at(s, a, '.') {
        run_end(s, a + 1, Class::Dec)
    } else {
        a
    };
    let c = exponent_end(s, b);
    (c, at(s, a, '.') || c > b)
}

pub open spec fn digit_value(c: char) -> int {
    c as int - '0' as int
}

/// The radix of a radix integer whose one or two radix digits run from `d`
/// to `e`.
pub open spec fn radix_value(s: Seq<char>, d: int, e: int) -> int {
    if e == d + 1 {
        digit_value(s[d])
    } else {
        10 * digit_value(s[d]) + digit_value(s[d + 1])
    }
}

/// Where an integer's digits (without the sign) starting at `d` end, and in
/// which radix they are: hexadecimal after `0x`, octal after a leading zero,
/// decimal otherwise.
pub open spec fn int_digits_end(s: Seq<char>, d: int) -> int {
    if at(s, d, '0') && (at(s, d + 1, 'x') || at(s, d + 1, 'X')) && at_class(s, d + 2, Class::Hex) {
        run_end(s, d + 2, Class::Hex)
    } else if at(s, d, '0') && at_class(s, d + 1, Class::Oct) {
        run_end(s, d + 1, Class::Oct)
    } else if at(s, d, '0') {
        d + 1
    } else {
        run_end(s, d, Class::Dec)
    }
}

/// Where a number that is no float, whose digits run from `d` to `a`, ends:
/// a ratio, a radix integer (`2r101`), or an integer with an optional `N`.
pub open spec fn integer_end(s: Seq<char>, d: int, a: int) -> Option<int> {
    if at(s, a, '/') && at_class(s, a + 1, Class::Dec) {
        Some(run_end(s, a + 1, Class::Dec))
    } else if a - d <= 2 && (at(s, a, 'r') || at(s, a, 'R')) && at_class(s, a + 1, Class::Alnum) {
        if 2 <= radix_value(s, d, a) <= 36 {
            Some(run_end(s, a + 1, Class::Alnum))
        } else {
            None
        }
    } else {
        let k = int_digits_end(s, d);
        if at(s, k, 'N') {
            Some(k + 1)
        } else {
            Some(k)
        }
    }
}

/// Where a number that starts at `i` ends.  After an optional sign come the
/// decimal digits and then the first of: a big decimal (`M`), a double
/// (with a fraction or an exponent), a ratio, a radix integer (`2r101`), or
/// an integer with an optional `N`.  Nothing that continues a name may
/// follow.
pub open spec fn number_end(s: Seq<char>, i: int) -> Option<int> {
    let d = if at(s, i, '+') || at(s, i, '-') {
        i + 1
    } else {
        i
    };
    if !(0 <= i && at_class(s, d, Class::Dec)) {
        None
    } else {
        let a = run_end(s, d, Class::Dec);
        let (c, is_float) = float_body(s, a);
        let e = if at(s, c, 'M') {
            Some(c + 1)
        } else if is_float {
            Some(c)
        } else {
            integer_end(s, d, a)
        };
        match e {
            Some(e) => if ends_name(s, e) {
                Some(e)
            } else {
                None
            },
            None => None,
        }
    }
}

proof fn lemma_float_body_bounds(s: Seq<char>, a: int)
    requires
        0 <= a <= s.len(),
    ensures
        a <= float_body(s, a).0 <= s.len(),
{
    let b = if at(s, a, '.') {
        lemma_run_end_bounds(s, a + 1, Class::Dec);
        run_end(s, a + 1, Class::Dec)
    } else {
        a
    };
    let q = if at(s, b + 1, '+') || at(s, b + 1, '-') {
        b + 2
    } else {
        b + 1
    };
    if (at(s, b, 'e') || at(s, b, 'E')) && at_class(s, q, Class::Dec) {
        lemma_run_end_bounds(s, q, Class::Dec);
    }
}

pub proof fn lemma_number_bounds(s: Seq<char>, i: int)
    requires
        0 <= i <= s.len(),
        number_end(s, i) is Some,
    ensures
        i < number_end(s, i)->0 <= s.len(),
{
    let d = if at(s, i, '+') || at(s, i, '-') {
        i + 1
    } else {
        i
    };
    lemma_run_end_bounds(s, d, Class::Dec);
    let a = run_end(s, d, Class::Dec);
    lemma_float_body_bounds(s, a);
    if at_class(s, a + 1, Class::Dec) {
        lemma_run_end_bounds(s, a + 1, Class::Dec);
    }
    if at_class(s, a + 1, Class::Alnum) {
        lemma_run_end_bounds(s, a + 1, Class::Alnum);
    }
    if at_class(s, d + 2, Class::Hex) {
        lemma_run_end_bounds(s, d + 2, Class::Hex);
    }
    if at_class(s, d + 1, Class::Oct) {
        lemma_run_end_bounds(s, d + 1, Class::Oct);
    }
}

fn exponent_scan(s: &[char], b: usize) -> (r: usize)
    requires
        b <= s.len(),
    ensures
        r == exponent_end(s@, b as int),
        b <= r <= s.len(),
{
    if char_at(s, b, 'e') || char_at(s, b, 'E') {
        let q = if char_at(s, b + 1, '+') || char_at(s, b + 1, '-') {
            b + 2
        } else {
            b + 1
        };
        if class_at(s, q, Class::Dec) {
            scan_run(s, q, Class::Dec)
        } else {
            b
        }
    } else {
        b
    }
}

/// Every character of `v` is of class `k`.
pub open spec fn all_in(v: Seq<char>, k: Class) -> bool {
    forall|j: int| 0 <= j < v.len() ==> in_class(k, #[trigger] v[j])
}

/// The length of the sign that `x` starts with: one for `+` or `-`.
pub open spec fn sign_len(x: Seq<char>) -> int {
    if x.len() > 0 && (x[0] == '+' || x[0] == '-') {
        1
    } else {
        0
    }
}

/// What stands between an integer's sign and its digits `v`, and the radix
/// that it gives them: nothing for decimal (no leading zero but in `0`), `0`
/// for octal, `0x` for hexadecimal, or one or two decimal digits and `r`.
pub open spec fn radix_prefix(p: Seq<char>, radix: u32, v: Seq<char>) -> bool {
    ||| p.len() == 0 && radix == 10 && all_in(v, Class::Dec) && (v == seq!['0'] || v[0] != '0')
    ||| p == seq!['0'] && radix == 8 && all_in(v, Class::Oct)
    ||| (p == seq!['0', 'x'] || p == seq!['0', 'X']) && radix == 16 && all_in(v, Class::Hex)
    ||| 2 <= p.len() <= 3 && (p.last() == 'r' || p.last() == 'R') && all_in(
        p.drop_last(),
        Class::Dec,
    ) && radix == radix_value(p, 0, p.len() - 1) && all_in(v, Class::Alnum)
}

/// The class of the number at `i`, as the scanner decides it: a big decimal
/// (`M`), a double (a fraction or an exponent), a ratio, a radix integer, or
/// an integer that is big with `N`.
pub open spec fn number_class_at(s: Seq<char>, i: int) -> NumberClass {
    let d = if at(s, i, '+') || at(s, i, '-') {
        i + 1
    } else {
        i
    };
    let a = run_end(s, d, Class::Dec);
    let (c, is_float) = float_body(s, a);
    if at(s, c, 'M') {
        NumberClass::BigDecimal
    } else if is_float {
        NumberClass::Double
    } else if at(s, a, '/') && at_class(s, a + 1, Class::Dec) {
        NumberClass::Ratio
    } else if a - d <= 2 && (at(s, a, 'r') || at(s, a, 'R')) && at_class(s, a + 1, Class::Alnum) {
        NumberClass::Long
    } else if at(s, int_digits_end(s, d), 'N') {
        NumberClass::BigInt
    } else {
        NumberClass::Long
    }
}

proof fn lemma_at_window(s: Seq<char>, i: int, e: int, p: int, ch: char)
    requires
        0 <= i <= p <= e <= s.len(),
        ends_name(s, e),
        is_name_char(ch),
    ensures
        at(s.subrange(i, e), p - i, ch) == at(s, p, ch),
{
    if p < e {
        assert(s.subrange(i, e)[p - i] == s[p]);
    }
}

proof fn lemma_class_window(s: Seq<char>, i: int, e: int, p: int, k: Class)
    requires
        0 <= i <= p <= e <= s.len(),
        ends_name(s, e),
        k == Class::Dec || k == Class::Oct || k == Class::Hex || k == Class::Alnum,
    ensures
        at_class(s.subrange(i, e), p - i, k) == at_class(s, p, k),
{
    if p < e {
        assert(s.subrange(i, e)[p - i] == s[p]);
    }
}

/// A number read alone, from its own text, has the class that it has in the
/// text.
pub proof fn lemma_number_class_window(s: Seq<char>, i: int)
    requires
        0 <= i <= s.len(),
        number_end(s, i) is Some,
    ensures
        number_class_at(s.subrange(i, number_end(s, i)->0), 0) == number_class_at(s, i),
{
    let e = number_end(s, i)->0;
    lemma_number_bounds(s, i);
    let x = s.subrange(i, e);
    let d = if at(s, i, '+') || at(s, i, '-') {
        i + 1
    } else {
        i
    };
    assert(ends_name(s, e));
    lemma_at_window(s, i, e, i, '+');
    lemma_at_window(s, i, e, i, '-');
    lemma_run_end_bounds(s, d, Class::Dec);
    lemma_name_run_window(s, i, e, d, Class::Dec);
    let a = run_end(s, d, Class::Dec);
    lemma_at_window(s, i, e, a, '.');
    lemma_at_window(s, i, e, a, '/');
    lemma_at_window(s, i, e, a, 'r');
    lemma_at_window(s, i, e, a, 'R');
    if a < e {
        lemma_class_window(s, i, e, a + 1, Class::Dec);
        lemma_class_window(s, i, e, a + 1, Class::Alnum);
    }
    assert(is_name_char('.') && is_name_char('0') && is_name_char('x') && is_name_char('X'));
    let b = if at(s, a, '.') {
        lemma_name_run_window(s, i, e, a + 1, Class::Dec);
        lemma_run_end_bounds(s, a + 1, Class::Dec);
        run_end(s, a + 1, Class::Dec)
    } else {
        a
    };
    lemma_at_window(s, i, e, b, 'e');
    lemma_at_window(s, i, e, b, 'E');
    if b < e {
        lemma_at_window(s, i, e, b + 1, '+');
        lemma_at_window(s, i, e, b + 1, '-');
        let q = if at(s, b + 1, '+') || at(s, b + 1, '-') {
            b + 2
        } else {
            b + 1
        };
        if q <= e {
            lemma_class_window(s, i, e, q, Class::Dec);
            if at_class(s, q, Class::Dec) {
                lemma_name_run_window(s, i, e, q, Class::Dec);
            }
        }
    }
    let c = float_body(s, a).0;
    lemma_float_body_bounds(s, a);
    if c <= e {
        lemma_at_window(s, i, e, c, 'M');
    }
    lemma_at_window(s, i, e, d, '0');
    if d < e {
        lemma_at_window(s, i, e, d + 1, 'x');
        lemma_at_window(s, i, e, d + 1, 'X');
        lemma_class_window(s, i, e, d + 1, Class::Oct);
        if at_class(s, d + 1, Class::Oct) {
            lemma_name_run_window(s, i, e, d + 1, Class::Oct);
        }
        if d + 1 < e {
            lemma_class_window(s, i, e, d + 2, Class::Hex);
            if at_class(s, d + 2, Class::Hex) {
                lemma_name_run_window(s, i, e, d + 2, Class::Hex);
            }
        }
    }
    let k = int_digits_end(s, d);
    if d < e {
        lemma_run_end_bounds(s, d + 1, Class::Oct);
    }
    if d + 1 < e {
        lemma_run_end_bounds(s, d + 2, Class::Hex);
    }
    if d < e {
        lemma_name_run_window(s, i, e, d + 1, Class::Oct);
        if d + 1 < e {
            lemma_name_run_window(s, i, e, d + 2, Class::Hex);
        }
    }
    assert(d <= k <= e);
    lemma_at_window(s, i, e, k, 'N');
}

/// What the text `x` of a number says of its class and value.  A double
/// keeps its text (with a fraction or an exponent), a big decimal its text
/// without the `M`; a ratio its sign and two runs of digits; an integer its
/// sign, radix and digits, and a big integer ends with `N`.
pub open spec fn number_reads(class: NumberClass, value: NumericValue, x: Seq<char>) -> bool {
    let d = sign_len(x);
    &&& x.len() > d && is_dec_digit(x[d])
    &&& match value {
        NumericValue::Float { value: v } => (class == NumberClass::Double && v@ == x && (x.contains(
            '.',
        ) || x.contains('e') || x.contains('E'))) || (class == NumberClass::BigDecimal
            && v@.push('M') == x),
        NumericValue::Fraction { positive, numerator, denominator } => class == NumberClass::Ratio
            && positive == (x[0] != '-') && numerator@.len() > 0 && denominator@.len() > 0 && all_in(
            numerator@,
            Class::Dec,
        ) && all_in(denominator@, Class::Dec) && x == x.take(d) + numerator@ + seq!['/']
            + denominator@,
        NumericValue::Int { positive, radix, value: v } => {
            let body = if class == NumberClass::BigInt {
                x.drop_last()
            } else {
                x
            };
            &&& class == NumberClass::Long || class == NumberClass::BigInt
            &&& class == NumberClass::BigInt ==> x.last() == 'N'
            &&& positive == (x[0] != '-')
            &&& v@.len() > 0 && body.len() >= d + v@.len()
            &&& body.skip(body.len() - v@.len()) == v@
            &&& radix_prefix(body.subrange(d, body.len() - v@.len()), radix, v@)
        },
    }
}

/// The token is a number that its text `x` reads as.
#[verifier::opaque]
pub open spec fn numeric_reads(t: Token, x: Seq<char>) -> bool {
    t matches Token::Numeric { class, value } && number_reads(class, value, x)
}

/// The start of a number's text: its sign, then a decimal digit.
proof fn lemma_number_head(s: Seq<char>, i: int, d: int, e: int)
    requires
        0 <= i <= d <= e <= s.len(),
        (d == i + 1) == (at(s, i, '+') || at(s, i, '-')),
        d <= i + 1,
        at_class(s, d, Class::Dec),
        d < e,
    ensures
        sign_len(s.subrange(i, e)) == d - i,
        s.subrange(i, e).len() > d - i,
        is_dec_digit(s.subrange(i, e)[d - i]),
        (s.subrange(i, e)[0] != '-') == !at(s, i, '-'),
        s.subrange(i, e).take(d - i) == s.subrange(i, d),
{
    let x = s.subrange(i, e);
    assert(x[0] == s[i]);
    assert(x[d - i] == s[d]);
    assert(x.take(d - i) =~= s.subrange(i, d));
}

/// The characters of a run of class `k` are all of class `k`.
proof fn lemma_run_all_in(s: Seq<char>, a: int, b: int, k: Class)
    requires
        0 <= a <= b <= run_end(s, a, k),
        a <= s.len(),
    ensures
        all_in(s.subrange(a, b), k),
{
    lemma_run_end_bounds(s, a, k);
    assert forall|j: int| 0 <= j < b - a implies in_class(k, #[trigger] s.subrange(a, b)[j]) by {
        assert(s.subrange(a, b)[j] == s[a + j]);
    }
}

/// A radix integer (`2r101`) reads as its sign, radix and digits.
proof fn lemma_radix_int_reads(
    s: Seq<char>,
    i: int,
    d: int,
    a: int,
    e: int,
    radix: u32,
    positive: bool,
    v: String,
    t: Token,
)
    requires
        0 <= i <= d <= i + 1,
        (d == i + 1) == (at(s, i, '+') || at(s, i, '-')),
        positive == !at(s, i, '-'),
        at_class(s, d, Class::Dec),
        a == run_end(s, d, Class::Dec),
        a - d <= 2,
        at(s, a, 'r') || at(s, a, 'R'),
        at_class(s, a + 1, Class::Alnum),
        e == run_end(s, a + 1, Class::Alnum),
        e <= s.len(),
        radix == radix_value(s, d, a),
        2 <= radix <= 36,
        v@ == s.subrange(a + 1, e),
        t == (Token::Numeric {
            class: NumberClass::Long,
            value: NumericValue::Int { positive, radix, value: v },
        }),
    ensures
        numeric_reads(t, s.subrange(i, e)),
{
    reveal(numeric_reads);
    lemma_run_end_bounds(s, d, Class::Dec);
    lemma_run_end_bounds(s, a + 1, Class::Alnum);
    lemma_run_all_in(s, d, a, Class::Dec);
    lemma_run_all_in(s, a + 1, e, Class::Alnum);
    lemma_number_head(s, i, d, e);
    let x = s.subrange(i, e);
    assert(x.skip(x.len() - v@.len()) =~= v@);
    let p = x.subrange(d - i, x.len() - v@.len());
    assert(p =~= s.subrange(d, a + 1));
    assert(p.drop_last() =~= s.subrange(d, a));
    assert(p[0] == s[d]);
    if a == d + 2 {
        assert(p[1] == s[d + 1]);
    }
    assert(radix_prefix(p, radix, v@));
}

/// An integer reads as its sign, radix prefix and digits, and a big integer
/// ends with `N`.
proof fn lemma_int_reads(
    s: Seq<char>,
    i: int,
    d: int,
    a: int,
    k: int,
    from: int,
    e: int,
    radix: u32,
    positive: bool,
    v: String,
    t: Token,
)
    requires
        0 <= i <= d <= i + 1,
        (d == i + 1) == (at(s, i, '+') || at(s, i, '-')),
        positive == !at(s, i, '-'),
        at_class(s, d, Class::Dec),
        a == run_end(s, d, Class::Dec),
        if at(s, d, '0') && (at(s, d + 1, 'x') || at(s, d + 1, 'X')) && at_class(
            s,
            d + 2,
            Class::Hex,
        ) {
            k == run_end(s, d + 2, Class::Hex) && radix == 16 && from == d + 2
        } else if at(s, d, '0') && at_class(s, d + 1, Class::Oct) {
            k == run_end(s, d + 1, Class::Oct) && radix == 8 && from == d + 1
        } else if at(s, d, '0') {
            k == d + 1 && radix == 10 && from == d
        } else {
            k == a && radix == 10 && from == d
        },
        e == (if at(s, k, 'N') {
            k + 1
        } else {
            k
        }),
        e <= s.len(),
        v@ == s.subrange(from, k),
        t == (Token::Numeric {
            class: if at(s, k, 'N') {
                NumberClass::BigInt
            } else {
                NumberClass::Long
            },
            value: NumericValue::Int { positive, radix, value: v },
        }),
    ensures
        numeric_reads(t, s.subrange(i, e)),
{
    reveal(numeric_reads);
    lemma_run_end_bounds(s, d, Class::Dec);
    if at(s, d, '0') && (at(s, d + 1, 'x') || at(s, d + 1, 'X')) && at_class(s, d + 2, Class::Hex) {
        lemma_run_end_bounds(s, d + 2, Class::Hex);
    } else if at(s, d, '0') && at_class(s, d + 1, Class::Oct) {
        lemma_run_end_bounds(s, d + 1, Class::Oct);
    }
    assert(d <= from < k <= s.len());
    lemma_number_head(s, i, d, e);
    let x = s.subrange(i, e);
    let body = s.subrange(i, k);
    if at(s, k, 'N') {
        assert(x.drop_last() =~= body);
        assert(x.last() == s[k]);
    }
    assert(body.skip(body.len() - v@.len()) =~= v@);
    let p = body.subrange(d - i, body.len() - v@.len());
    assert(p =~= s.subrange(d, from));
    if at(s, d, '0') && (at(s, d + 1, 'x') || at(s, d + 1, 'X')) && at_class(s, d + 2, Class::Hex) {
        lemma_run_end_bounds(s, d + 2, Class::Hex);
        lemma_run_all_in(s, d + 2, k, Class::Hex);
        assert(p[0] == s[d] && p[1] == s[d + 1]);
        assert(p =~= seq!['0', 'x'] || p =~= seq!['0', 'X']);
    } else if at(s, d, '0') && at_class(s, d + 1, Class::Oct) {
        lemma_run_end_bounds(s, d + 1, Class::Oct);
        lemma_run_all_in(s, d + 1, k, Class::Oct);
        assert(p[0] == s[d]);
        assert(p =~= seq!['0']);
    } else if at(s, d, '0') {
        assert(v@ =~= seq!['0']);
        assert(all_in(v@, Class::Dec));
        assert(p.len() == 0);
    } else {
        lemma_run_all_in(s, d, k, Class::Dec);
        assert(v@[0] == s[d]);
        assert(p.len() == 0);
    }
    assert(radix_prefix(p, radix, v@));
}

/// Scans the rest of a number that is no float, whose sign ends at `d` and
/// whose digits run from `d` to `a`; gives its end and token.
fn scan_integer(s: &[char], i: usize, d: usize, a: usize, positive: bool) -> (r: Option<(usize, Token)>)
    requires
        i <= d <= i + 1,
        (d == i + 1) == (at(s@, i as int, '+') || at(s@, i as int, '-')),
        positive == !at(s@, i as int, '-'),
        at_class(s@, d as int, Class::Dec),
        a == run_end(s@, d as int, Class::Dec),
        a <= s.len(),
    ensures
        match r {
            Some((e, _)) => integer_end(s@, d as int, a as int) == Some(e as int) && e <= s.len(),
            None => integer_end(s@, d as int, a as int) is None,
        },
        r matches Some((e, t)) ==> t is Numeric && numeric_reads(t, s@.subrange(i as int, e as int)),
        r matches Some((_, t)) ==> t->Numeric_class == (if at(s@, a as int, '/') && at_class(
            s@,
            a + 1,
            Class::Dec,
        ) {
            NumberClass::Ratio
        } else if a - d <= 2 && (at(s@, a as int, 'r') || at(s@, a as int, 'R')) && at_class(
            s@,
            a + 1,
            Class::Alnum,
        ) {
            NumberClass::Long
        } else if at(s@, int_digits_end(s@, d as int), 'N') {
            NumberClass::BigInt
        } else {
            NumberClass::Long
        }),
{
    proof {
        lemma_run_end_bounds(s@, d as int, Class::Dec);
    }
    let e: usize;
    let token: Token;
    if char_at(s, a, '/') && class_at(s, a + 1, Class::Dec) {
        e = scan_run(s, a + 1, Class::Dec);
        let num = text(s, d, a);
        let den = text(s, a + 1, e);
        token = Token::Numeric {
            class: NumberClass::Ratio,
            value: NumericValue::Fraction { positive, numerator: num, denominator: den },
        };
        assert(numeric_reads(token, s@.subrange(i as int, e as int))) by {
            reveal(numeric_reads);
            lemma_run_end_bounds(s@, a + 1, Class::Dec);
            lemma_run_all_in(s@, d as int, a as int, Class::Dec);
            lemma_run_all_in(s@, a + 1, e as int, Class::Dec);
            lemma_number_head(s@, i as int, d as int, e as int);
            let x = s@.subrange(i as int, e as int);
            assert(x =~= x.take(d - i) + num@ + seq!['/'] + den@);
        }
    } else if a - d <= 2 && (char_at(s, a, 'r') || char_at(s, a, 'R')) && class_at(
        s,
        a + 1,
        Class::Alnum,
    ) {
        proof {
            lemma_run_end_bounds(s@, d as int, Class::Dec);
            assert(in_class(Class::Dec, s@[d as int]));
            if a == d + 2 {
                assert(in_class(Class::Dec, s@[d + 1]));
            }
        }
        let d0 = (s[d] as u32) - ('0' as u32);
        let radix: u32 = if a == d + 1 {
            d0
        } else {
            10 * d0 + ((s[d + 1] as u32) - ('0' as u32))
        };
        if radix < 2 || radix > 36 {
            return None;
        }
        e = scan_run(s, a + 1, Class::Alnum);
        let v = text(s, a + 1, e);
        token = Token::Numeric {
            class: NumberClass::Long,
            value: NumericValue::Int { positive, radix, value: v },
        };
        proof {
            lemma_radix_int_reads(s@, i as int, d as int, a as int, e as int, radix, positive, v, token);
        }
    } else {
        let (k, radix, from): (usize, u32, usize) = if char_at(s, d, '0') && (char_at(s, d + 1, 'x')
            || char_at(s, d + 1, 'X')) && class_at(s, d + 2, Class::Hex) {
            (scan_run(s, d + 2, Class::Hex), 16, d + 2)
        } else if char_at(s, d, '0') && class_at(s, d + 1, Class::Oct) {
            (scan_run(s, d + 1, Class::Oct), 8, d + 1)
        } else if char_at(s, d, '0') {
            (d + 1, 10, d)
        } else {
            (a, 10, d)
        };
        let big = char_at(s, k, 'N');
        e = if big {
            k + 1
        } else {
            k
        };
        let v = text(s, from, k);
        token = Token::Numeric {
            class: if big {
                NumberClass::BigInt
            } else {
                NumberClass::Long
            },
            value: NumericValue::Int { positive, radix, value: v },
        };
        proof {
            lemma_int_reads(
                s@,
                i as int,
                d as int,
                a as int,
                k as int,
                from as int,
                e as int,
                radix,
                positive,
                v,
                token,
            );
        }
    }
    Some((e, token))
}

/// Scans a number starting at `i` and gives its end and token.  Floats keep
/// their text (with the sign, and without the `M` of a big decimal); integers
/// and ratios their digits, sign and radix.
pub fn scan_number(s: &[char], i: usize) -> (r: Option<(usize, Token)>)
    requires
        i <= s.len(),
    ensures
        match r {
            Some((e, _)) => number_end(s@, i as int) == Some(e as int),
            None => number_end(s@, i as int) is None,
        },
        r matches Some((e, t)) ==> t is Numeric && numeric_reads(t, s@.subrange(i as int, e as int)),
        r matches Some((e, t)) ==> t->Numeric_class == number_class_at(
            s@.subrange(i as int, e as int),
            0,
        ),
{
    let signed = char_at(s, i, '+') || char_at(s, i, '-');
    let positive = !char_at(s, i, '-');
    let d = if signed {
        i + 1
    } else {
        i
    };
    if !class_at(s, d, Class::Dec) {
        return None;
    }
    let a = scan_run(s, d, Class::Dec);
    let b = if char_at(s, a, '.') {
        scan_run(s, a + 1, Class::Dec)
    } else {
        a
    };
    let c = exponent_scan(s, b);
    let is_float = char_at(s, a, '.') || c > b;
    proof {
        lemma_run_end_bounds(s@, d as int, Class::Dec);
        assert(a > d);
        if at(s@, a as int, '.') {
            lemma_run_end_bounds(s@, a + 1, Class::Dec);
        }
    }
    let e: usize;
    let token: Token;
    if char_at(s, c, 'M') {
        e = c + 1;
        let v = text(s, i, c);
        token = Token::Numeric {
            class: NumberClass::BigDecimal,
            value: NumericValue::Float { value: v },
        };
        assert(numeric_reads(token, s@.subrange(i as int, e as int))) by {
            reveal(numeric_reads);
            lemma_number_head(s@, i as int, d as int, e as int);
            assert(v@.push('M') =~= s@.subrange(i as int, e as int));
        }
    } else if is_float {
        e = c;
        let v = text(s, i, c);
        token = Token::Numeric {
            class: NumberClass::Double,
            value: NumericValue::Float { value: v },
        };
        assert(numeric_reads(token, s@.subrange(i as int, e as int))) by {
            reveal(numeric_reads);
            let x = s@.subrange(i as int, e as int);
            if at(s@, a as int, '.') {
                assert(x[a - i] == '.');
            } else {
                assert(x[b - i] == s@[b as int]);
                if at(s@, b as int, 'e') {
                    assert(x[b - i] == 'e');
                } else {
                    assert(x[b - i] == 'E');
                }
            }
            lemma_number_head(s@, i as int, d as int, e as int);
        }
    } else {
        match scan_integer(s, i, d, a, positive) {
            Some((e2, t2)) => {
                e = e2;
                token = t2;
            },
            None => {
                return None;
            },
        }
    }
    if name_ends(s, e) {
        proof {
            lemma_number_class_window(s@, i as int);
        }
        Some((e, token))
    } else {
        None
    }
}

// ---------------------------------------------------------------- characters

pub open spec fn hex_value(c: char) -> int {
    if '0' <= c <= '9' {
        c as int - '0' as int
    } else if 'a' <= c <= 'f' {
        c as int - 'a' as int + 10
    } else {
        c as int - 'A' as int + 10
    }
}

/// Whether four hexadecimal digits stand from `j` on.
pub open spec fn hex4_at(s: Seq<char>, j: int) -> bool {
    at_class(s, j, Class::Hex) && at_class(s, j + 1, Class::Hex) && at_class(s, j + 2, Class::Hex)
        && at_class(s, j + 3, Class::Hex)
}

/// The value of the four hexadecimal digits from `j` on.
pub open spec fn hex4_value(s: Seq<char>, j: int) -> int {
    4096 * hex_value(s[j]) + 256 * hex_value(s[j + 1]) + 16 * hex_value(s[j + 2]) + hex_value(
        s[j + 3],
    )
}

/// The end of an octal escape's digits (one to three) that start at `j`.
pub open spec fn octal_digits_end(s: Seq<char>, j: int) -> int {
    let e = run_end(s, j, Class::Oct);
    if e > j + 3 {
        j + 3
    } else {
        e
    }
}

pub open spec fn char_names() -> Seq<Seq<char>> {
    seq![
        seq!['n', 'e', 'w', 'l', 'i', 'n', 'e'],
        seq!['s', 'p', 'a', 'c', 'e'],
        seq!['t', 'a', 'b'],
        seq!['f', 'o', 'r', 'm', 'f', 'e', 'e', 'd'],
        seq!['b', 'a', 'c', 'k', 's', 'p', 'a', 'c', 'e'],
    ]
}

/// The first character name that stands at `j`, from `k` on.
pub open spec fn char_name_from(s: Seq<char>, j: int, k: int) -> Option<int>
    decreases 5 - k,
{
    if k < 0 || k >= 5 {
        None
    } else if lit_at(s, j, char_names()[k]) {
        Some(k)
    } else {
        char_name_from(s, j, k + 1)
    }
}

/// Where a character literal that starts at `i` ends: `\` and then the first
/// of a name (`\newline`), an octal code (`\o101`), a code point (`\u00e9`,
/// which must not be a surrogate), or any single character; nothing that
/// continues a name may follow.
pub open spec fn char_end(s: Seq<char>, i: int) -> Option<int> {
    if !(0 <= i && at(s, i, '\\') && i + 1 < s.len()) {
        None
    } else {
        let e = if char_name_from(s, i + 1, 0) is Some {
            Some(i + 1 + char_names()[char_name_from(s, i + 1, 0)->0].len())
        } else if at(s, i + 1, 'o') && at_class(s, i + 2, Class::Oct) {
            Some(octal_digits_end(s, i + 2))
        } else if at(s, i + 1, 'u') && hex4_at(s, i + 2) {
            let v = hex4_value(s, i + 2);
            if 0xD800 <= v < 0xE000 {
                None
            } else {
                Some(i + 6)
            }
        } else {
            Some(i + 2)
        };
        match e {
            Some(e) => if ends_name(s, e) {
                Some(e)
            } else {
                None
            },
            None => None,
        }
    }
}

proof fn lemma_char_name_from(s: Seq<char>, j: int, k: int)
    requires
        0 <= j,
    ensures
        char_name_from(s, j, k) matches Some(n) ==> 0 <= n < 5 && lit_at(s, j, char_names()[n]),
    decreases 5 - k,
{
    if 0 <= k < 5 && !lit_at(s, j, char_names()[k]) {
        lemma_char_name_from(s, j, k + 1);
    }
}

pub proof fn lemma_char_bounds(s: Seq<char>, i: int)
    requires
        0 <= i <= s.len(),
        char_end(s, i) is Some,
    ensures
        i < char_end(s, i)->0 <= s.len(),
{
    lemma_char_name_from(s, i + 1, 0);
    lemma_run_end_bounds(s, i + 2, Class::Oct);
}

#[verifier::external_body]
fn char_from_code(v: u32) -> (r: Option<char>)
    ensures
        match r {
            Some(c) => c as u32 == v && !(0xD800 <= v && v < 0xE000) && v <= 0x10FFFF,
            None => (0xD800 <= v && v < 0xE000) || v > 0x10FFFF,
        },
{
    char::from_u32(v)
}

fn hex_digit_value(c: char) -> (r: u32)
    requires
        is_hex_digit(c),
    ensures
        r == hex_value(c),
        r < 16,
{
    if '0' <= c && c <= '9' {
        (c as u32) - ('0' as u32)
    } else if 'a' <= c && c <= 'f' {
        (c as u32) - ('a' as u32) + 10
    } else {
        (c as u32) - ('A' as u32) + 10
    }
}

fn hex4(s: &[char], j: usize) -> (r: Option<u32>)
    ensures
        match r {
            Some(v) => hex4_at(s@, j as int) && v == hex4_value(s@, j as int) && v < 0x10000,
            None => !hex4_at(s@, j as int),
        },
{
    if j < s.len() && s.len() - j >= 4 && class_at(s, j, Class::Hex) && class_at(s, j + 1, Class::Hex)
        && class_at(s, j + 2, Class::Hex) && class_at(s, j + 3, Class::Hex) {
        let v = 4096 * hex_digit_value(s[j]) + 256 * hex_digit_value(s[j + 1]) + 16
            * hex_digit_value(s[j + 2]) + hex_digit_value(s[j + 3]);
        Some(v)
    } else {
        None
    }
}

/// The number that a string of octal digits denotes.
pub open spec fn octal_number(d: Seq<char>) -> int
    decreases d.len(),
{
    if d.len() == 0 {
        0
    } else {
        8 * octal_number(d.drop_last()) + (d.last() as int - '0' as int)
    }
}

/// The value of the octal digits from `j` to `e` (at most three).
fn octal_value(s: &[char], j: usize, e: usize) -> (r: u32)
    requires
        j <= e <= s.len(),
        e <= j + 3,
        forall|k: int| j <= k < e ==> is_oct_digit(#[trigger] s@[k]),
    ensures
        r < 512,
        r == octal_number(s@.subrange(j as int, e as int)),
{
    let mut v: u32 = 0;
    assert(s@.subrange(j as int, j as int) =~= Seq::<char>::empty());
    if e > j {
        assert(is_oct_digit(s@[j as int]));
        v = (s[j] as u32) - ('0' as u32);
        assert(s@.subrange(j as int, j + 1).drop_last() =~= s@.subrange(j as int, j as int));
        assert(octal_number(s@.subrange(j as int, j as int)) == 0);
        assert(s@.subrange(j as int, j + 1).last() == s@[j as int]);
        assert(v == octal_number(s@.subrange(j as int, j + 1)));
    }
    if e - j > 1 {
        assert(is_oct_digit(s@[j + 1]));
        v = v * 8 + ((s[j + 1] as u32) - ('0' as u32));
        assert(s@.subrange(j as int, j + 2).drop_last() =~= s@.subrange(j as int, j + 1));
        assert(s@.subrange(j as int, j + 2).last() == s@[j + 1]);
        assert(v == octal_number(s@.subrange(j as int, j + 2)));
    }
    if e - j > 2 {
        assert(is_oct_digit(s@[j + 2]));
        v = v * 8 + ((s[j + 2] as u32) - ('0' as u32));
        assert(s@.subrange(j as int, j + 3).drop_last() =~= s@.subrange(j as int, j + 2));
        assert(s@.subrange(j as int, j + 3).last() == s@[j + 2]);
        assert(v == octal_number(s@.subrange(j as int, j + 3)));
    }
    v
}

fn char_name(k: usize) -> (r: Vec<char>)
    requires
        k < 5,
    ensures
        r@ == char_names()[k as int],
{
    match k {
        0 => vec!['n', 'e', 'w', 'l', 'i', 'n', 'e'],
        1 => vec!['s', 'p', 'a', 'c', 'e'],
        2 => vec!['t', 'a', 'b'],
        3 => vec!['f', 'o', 'r', 'm', 'f', 'e', 'e', 'd'],
        _ => vec!['b', 'a', 'c', 'k', 's', 'p', 'a', 'c', 'e'],
    }
}

/// The character that a character name stands for.
pub open spec fn named_char(name: Seq<char>) -> Option<char> {
    if name == char_names()[0] {
        Some('\n')
    } else if name == char_names()[1] {
        Some(' ')
    } else if name == char_names()[2] {
        Some('\t')
    } else if name == char_names()[3] {
        Some('\u{0C}')
    } else if name == char_names()[4] {
        Some('\u{08}')
    } else {
        None
    }
}

/// What the text `x` of a character literal says of its syntax and value:
/// `\` and the character itself, a name, `o` and one to three octal
/// digits, or `u` and four hexadecimal digits.
pub open spec fn char_reads(syntax: CharSyntax, value: char, x: Seq<char>) -> bool {
    &&& x.len() >= 2 && x[0] == '\\'
    &&& match syntax {
        CharSyntax::Simple => x.len() == 2 && value == x[1],
        CharSyntax::Name => named_char(x.subrange(1, x.len() as int)) == Some(value),
        CharSyntax::Octal => x[1] == 'o' && 3 <= x.len() <= 5 && (forall|k: int|
            2 <= k < x.len() ==> is_oct_digit(#[trigger] x[k])) && value as u32 == octal_number(
            x.subrange(2, x.len() as int),
        ),
        CharSyntax::CodePoint => x.len() == 6 && x[1] == 'u' && hex4_at(x, 2) && value as u32
            == hex4_value(x, 2),
    }
}

/// The character that the `k`th character name stands for.
fn char_name_value(k: usize) -> (c: char)
    requires
        k < 5,
    ensures
        named_char(char_names()[k as int]) == Some(c),
{
    match k {
        0 => '\n',
        1 => ' ',
        2 => '\t',
        3 => '\u{0C}',
        _ => '\u{08}',
    }
}

/// Scans a character literal starting at `i` and gives its end and token.
pub fn scan_char(s: &[char], i: usize) -> (r: Option<(usize, Token)>)
    requires
        i <= s.len(),
    ensures
        match r {
            Some((e, _)) => char_end(s@, i as int) == Some(e as int),
            None => char_end(s@, i as int) is None,
        },
        r matches Some((e, t)) ==> (t matches Token::Char { syntax, value } && char_reads(
            syntax,
            value,
            s@.subrange(i as int, e as int),
        )),
{
    if !(char_at(s, i, '\\') && i + 1 < s.len()) {
        return None;
    }
    let mut k: usize = 0;
    let mut named: Option<usize> = None;
    while k < 5 && named.is_none()
        invariant
            k <= 5,
            i + 1 < s.len(),
            named is None ==> char_name_from(s@, i + 1, 0) == char_name_from(s@, i + 1, k as int),
            named matches Some(n) ==> char_name_from(s@, i + 1, 0) == Some(n as int) && n < 5,
        decreases 5 - k,
    {
        let w = char_name(k);
        if literal_at(s, i + 1, w.as_slice()) {
            named = Some(k);
            k = 5;
        } else {
            k = k + 1;
        }
    }
    proof {
        lemma_char_name_from(s@, i + 1, 0);
    }
    let e: usize;
    let token: Token;
    match named {
        Some(n) => {
            let w = char_name(n);
            e = i + 1 + w.len();
            let c = char_name_value(n);
            token = Token::Char { syntax: CharSyntax::Name, value: c };
            proof {
                let x = s@.subrange(i as int, e as int);
                assert(x.subrange(1, x.len() as int) =~= s@.subrange(i + 1, e as int));
                assert(x[0] == s@[i as int]);
                assert(char_reads(CharSyntax::Name, c, x));
            }
        },
        None => {
            if char_at(s, i + 1, 'o') && class_at(s, i + 2, Class::Oct) {
                let run = scan_run(s, i + 2, Class::Oct);
                proof {
                    lemma_run_end_bounds(s@, i + 2, Class::Oct);
                }
                e = if run - (i + 2) > 3 {
                    i + 5
                } else {
                    run
                };
                let v = octal_value(s, i + 2, e);
                match char_from_code(v) {
                    Some(c) => {
                        token = Token::Char { syntax: CharSyntax::Octal, value: c };
                        proof {
                            let x = s@.subrange(i as int, e as int);
                            assert(x.subrange(2, x.len() as int) =~= s@.subrange(i + 2, e as int));
                            assert(x[0] == s@[i as int] && x[1] == s@[i + 1]);
                            assert forall|k: int| 2 <= k < x.len() implies is_oct_digit(
                                #[trigger] x[k],
                            ) by {
                                assert(x[k] == s@[i + k]);
                                assert(in_class(Class::Oct, s@[i + k]));
                            }
                            assert(x[1] == 'o');
                            assert(3 <= x.len() <= 5);
                            assert(char_reads(CharSyntax::Octal, c, x));
                        }
                    },
                    None => {
                        return None;
                    },
                }
            } else if char_at(s, i + 1, 'u') && hex4(s, i + 2).is_some() {
                let v = hex4(s, i + 2).unwrap();
                match char_from_code(v) {
                    Some(c) => {
                        e = i + 6;
                        token = Token::Char { syntax: CharSyntax::CodePoint, value: c };
                        proof {
                            let x = s@.subrange(i as int, e as int);
                            assert(x[0] == s@[i as int] && x[1] == s@[i + 1]);
                            assert(x[2] == s@[i + 2] && x[3] == s@[i + 3] && x[4] == s@[i + 4]
                                && x[5] == s@[i + 5]);
                            assert(hex4_at(x, 2));
                            assert(hex4_value(x, 2) == hex4_value(s@, i + 2));
                            assert(char_reads(CharSyntax::CodePoint, c, x));
                        }
                    },
                    None => {
                        return None;
                    },
                }
            } else {
                e = i + 2;
                token = Token::Char { syntax: CharSyntax::Simple, value: s[i + 1] };
                proof {
                    let x = s@.subrange(i as int, e as int);
                    assert(x[0] == s@[i as int] && x[1] == s@[i + 1]);
                    assert(char_reads(CharSyntax::Simple, s@[i + 1], x));
                }
            }
        },
    }
    proof {
        lemma_char_name_from(s@, i + 1, 0);
    }
    if e <= s.len() && name_ends(s, e) {
        Some((e, token))
    } else {
        None
    }
}

// ------------------------------------------------------------------- strings

/// The end of a string escape that starts at `j` (with `\`): a character
/// escape (`\n`, `\"`, …), one to three octal digits, or `u` and four
/// hexadecimal digits.
pub open spec fn escape_end(s: Seq<char>, j: int) -> Option<int> {
    if !(at(s, j, '\\') && j + 1 < s.len()) {
        None
    } else {
        let c = s[j + 1];
        if c == 'b' || c == 't' || c == 'n' || c == 'f' || c == 'r' || c == '"' || c == '\\' {
            Some(j + 2)
        } else if is_oct_digit(c) {
            Some(octal_digits_end(s, j + 1))
        } else if c == 'u' && hex4_at(s, j + 2) {
            Some(j + 6)
        } else {
            None
        }
    }
}

/// Where the rest of a string from `j` on ends: at the closing `"`.
pub open spec fn string_rest_end(s: Seq<char>, j: int) -> Option<int>
    decreases s.len() - j,
{
    if j < 0 || j >= s.len() {
        None
    } else if s[j] == '"' {
        Some(j + 1)
    } else if s[j] == '\\' {
        match escape_end(s, j) {
            Some(k) => if j < k <= s.len() {
                string_rest_end(s, k)
            } else {
                None
            },
            None => None,
        }
    } else {
        let k = run_end(s, j, Class::Plain);
        if j < k <= s.len() {
            string_rest_end(s, k)
        } else {
            None
        }
    }
}

/// A piece of a string literal as plain values.
pub enum FragmentView {
    Text(Seq<char>),
    Code(int),
}

pub open spec fn fragment_view(f: StringFragment) -> FragmentView {
    match f {
        StringFragment::Unescaped { value } => FragmentView::Text(value@),
        StringFragment::Escaped { code } => FragmentView::Code(code as int),
    }
}

pub open spec fn fragments_view(v: Seq<StringFragment>) -> Seq<FragmentView> {
    Seq::new(v.len(), |k: int| fragment_view(v[k]))
}

/// The code that the escape starting at `j` (with `\`) stands for.
pub open spec fn escape_code(s: Seq<char>, j: int) -> int {
    let c = s[j + 1];
    if c == 'b' {
        0x08
    } else if c == 't' {
        0x09
    } else if c == 'n' {
        0x0A
    } else if c == 'f' {
        0x0C
    } else if c == 'r' {
        0x0D
    } else if c == '"' {
        0x22
    } else if c == '\\' {
        0x5C
    } else if is_oct_digit(c) {
        octal_number(s.subrange(j + 1, octal_digits_end(s, j + 1)))
    } else {
        hex4_value(s, j + 2)
    }
}

/// The pieces of the rest of a string from `j` on, up to its closing `"`:
/// runs of plain text, and the codes of escapes.
pub open spec fn string_fragments(s: Seq<char>, j: int) -> Seq<FragmentView>
    decreases s.len() - j,
{
    if j < 0 || j >= s.len() || s[j] == '"' {
        Seq::empty()
    } else if s[j] == '\\' {
        match escape_end(s, j) {
            Some(k) => if j < k <= s.len() {
                seq![FragmentView::Code(escape_code(s, j))] + string_fragments(s, k)
            } else {
                Seq::empty()
            },
            None => Seq::empty(),
        }
    } else {
        let k = run_end(s, j, Class::Plain);
        if j < k <= s.len() {
            seq![FragmentView::Text(s.subrange(j, k))] + string_fragments(s, k)
        } else {
            Seq::empty()
        }
    }
}

/// A run read in a window of the text ends where it ends in the text, or at
/// the end of the window.
pub proof fn lemma_run_end_window(s: Seq<char>, lo: int, hi: int, j: int, k: Class)
    requires
        0 <= lo <= j <= hi <= s.len(),
    ensures
        run_end(s.subrange(lo, hi), j - lo, k) == (if run_end(s, j, k) < hi {
            run_end(s, j, k)
        } else {
            hi
        }) - lo,
    decreases hi - j,
{
    let w = s.subrange(lo, hi);
    if j < hi {
        assert(w[j - lo] == s[j]);
        if in_class(k, s[j]) {
            lemma_run_end_window(s, lo, hi, j + 1, k);
        }
    } else {
        lemma_run_end_bounds(s, j, k);
    }
}

/// An escape reads the same in a window of the text that holds it and the
/// character after it.
proof fn lemma_escape_window(s: Seq<char>, lo: int, hi: int, j: int)
    requires
        0 <= lo <= j,
        hi <= s.len(),
        escape_end(s, j) matches Some(k) && k < hi,
    ensures
        escape_end(s.subrange(lo, hi), j - lo) == Some(escape_end(s, j)->0 - lo),
        escape_code(s.subrange(lo, hi), j - lo) == escape_code(s, j),
{
    let w = s.subrange(lo, hi);
    let k = escape_end(s, j)->0;
    let c = s[j + 1];
    lemma_run_end_bounds(s, j + 1, Class::Oct);
    if is_oct_digit(c) {
        assert(run_end(s, j + 1, Class::Oct) == run_end(s, j + 2, Class::Oct));
        lemma_run_end_bounds(s, j + 2, Class::Oct);
    }
    assert(j + 2 <= k);
    assert(w[j - lo] == s[j]);
    assert(w[j + 1 - lo] == c);
    if c == 'b' || c == 't' || c == 'n' || c == 'f' || c == 'r' || c == '"' || c == '\\' {
    } else if is_oct_digit(c) {
        lemma_run_end_window(s, lo, hi, j + 1, Class::Oct);
        assert(w.subrange(j + 1 - lo, k - lo) =~= s.subrange(j + 1, k));
    } else {
        assert(w[j + 2 - lo] == s[j + 2] && w[j + 3 - lo] == s[j + 3]);
        assert(w[j + 4 - lo] == s[j + 4] && w[j + 5 - lo] == s[j + 5]);
    }
}

/// The pieces of a string read the same in a window from anywhere before
/// it to its closing `"`.
pub proof fn lemma_string_fragments_window(s: Seq<char>, lo: int, j: int)
    requires
        0 <= lo <= j <= s.len(),
        string_rest_end(s, j) is Some,
    ensures
        string_fragments(s.subrange(lo, string_rest_end(s, j)->0), j - lo) == string_fragments(
            s,
            j,
        ),
        string_rest_end(s.subrange(lo, string_rest_end(s, j)->0), j - lo) == Some(
            string_rest_end(s, j)->0 - lo,
        ),
    decreases s.len() - j,
{
    let hi = string_rest_end(s, j)->0;
    let w = s.subrange(lo, hi);
    lemma_string_rest_bounds(s, j);
    assert(w[j - lo] == s[j]);
    if s[j] == '"' {
    } else if s[j] == '\\' {
        let k = escape_end(s, j)->0;
        lemma_string_rest_bounds(s, k);
        lemma_escape_window(s, lo, hi, j);
        lemma_string_fragments_window(s, lo, k);
    } else {
        let k = run_end(s, j, Class::Plain);
        lemma_string_rest_bounds(s, k);
        lemma_run_end_window(s, lo, hi, j, Class::Plain);
        assert(w.subrange(j - lo, k - lo) =~= s.subrange(j, k));
        lemma_string_fragments_window(s, lo, k);
    }
}

/// Where a string literal that starts at `i` ends.
pub open spec fn string_end(s: Seq<char>, i: int) -> Option<int> {
    if 0 <= i && at(s, i, '"') {
        string_rest_end(s, i + 1)
    } else {
        None
    }
}

pub proof fn lemma_string_rest_bounds(s: Seq<char>, j: int)
    requires
        0 <= j <= s.len(),
        string_rest_end(s, j) is Some,
    ensures
        j < string_rest_end(s, j)->0 <= s.len(),
    decreases s.len() - j,
{
    if s[j] == '"' {
    } else if s[j] == '\\' {
        let k = escape_end(s, j)->0;
        lemma_string_rest_bounds(s, k);
    } else {
        let k = run_end(s, j, Class::Plain);
        lemma_string_rest_bounds(s, k);
    }
}

/// Scans a string literal starting at `i` and gives its end and token.
pub fn scan_string(s: &[char], i: usize) -> (r: Option<(usize, Token)>)
    requires
        i <= s.len(),
    ensures
        match r {
            Some((e, _)) => string_end(s@, i as int) == Some(e as int),
            None => string_end(s@, i as int) is None,
        },
        r matches Some((e, t)) ==> (t matches Token::String { raw_value, value } && i + 2 <= e
            && s@[e - 1] == '"' && raw_value@ == s@.subrange(i + 1, e - 1) && fragments_view(
            value@,
        ) == string_fragments(s@, i + 1)),
{
    if !char_at(s, i, '"') {
        return None;
    }
    let mut fragments: Vec<StringFragment> = Vec::new();
    let mut j = i + 1;
    assert(fragments_view(fragments@) =~= Seq::<FragmentView>::empty());
    while j < s.len()
        invariant
            i < j <= s.len(),
            string_end(s@, i as int) == string_rest_end(s@, j as int),
            fragments_view(fragments@) + string_fragments(s@, j as int) == string_fragments(
                s@,
                i + 1,
            ),
        decreases s.len() - j,
    {
        let ghost before = fragments_view(fragments@);
        let c = s[j];
        if c == '"' {
            let raw_value = text(s, i + 1, j);
            assert(fragments_view(fragments@) =~= fragments_view(fragments@) + string_fragments(
                s@,
                j as int,
            ));
            return Some((j + 1, Token::String { raw_value, value: fragments }));
        } else if c == '\\' {
            if j + 1 >= s.len() {
                return None;
            }
            let d = s[j + 1];
            if d == 'b' || d == 't' || d == 'n' || d == 'f' || d == 'r' || d == '"' || d == '\\' {
                let code: u32 = if d == 'b' {
                    0x08
                } else if d == 't' {
                    0x09
                } else if d == 'n' {
                    0x0A
                } else if d == 'f' {
                    0x0C
                } else if d == 'r' {
                    0x0D
                } else if d == '"' {
                    0x22
                } else {
                    0x5C
                };
                fragments.push(StringFragment::Escaped { code });
                assert(fragments_view(fragments@) =~= before.push(FragmentView::Code(code as int)));
                assert(string_fragments(s@, j as int) == seq![FragmentView::Code(code as int)]
                    + string_fragments(s@, j + 2));
                j = j + 2;
            } else if oct_digit_char(d) {
                let run = scan_run(s, j + 1, Class::Oct);
                proof {
                    lemma_run_end_bounds(s@, j + 1, Class::Oct);
                }
                let e = if run - (j + 1) > 3 {
                    j + 4
                } else {
                    run
                };
                let code = octal_value(s, j + 1, e);
                fragments.push(StringFragment::Escaped { code });
                assert(fragments_view(fragments@) =~= before.push(FragmentView::Code(code as int)));
                assert(string_fragments(s@, j as int) == seq![FragmentView::Code(code as int)]
                    + string_fragments(s@, e as int));
                j = e;
            } else if d == 'u' && hex4(s, j + 2).is_some() {
                let code = hex4(s, j + 2).unwrap();
                fragments.push(StringFragment::Escaped { code });
                assert(fragments_view(fragments@) =~= before.push(FragmentView::Code(code as int)));
                assert(string_fragments(s@, j as int) == seq![FragmentView::Code(code as int)]
                    + string_fragments(s@, j + 6));
                j = j + 6;
            } else {
                return None;
            }
        } else {
            let k = scan_run(s, j, Class::Plain);
            proof {
                lemma_run_end_bounds(s@, j as int, Class::Plain);
            }
            let piece = text(s, j, k);
            fragments.push(StringFragment::Unescaped { value: piece });
            assert(fragments_view(fragments@) =~= before.push(FragmentView::Text(piece@)));
            assert(string_fragments(s@, j as int) == seq![FragmentView::Text(piece@)]
                + string_fragments(s@, k as int));
            j = k;
        }
    }
    None
}

fn oct_digit_char(c: char) -> (r: bool)
    ensures
        r == is_oct_digit(c),
{
    '0' <= c && c <= '7'
}

// ------------------------------------------------------------------- regexes

/// Where the rest of a regular expression from `j` on ends: at the first `"`
/// that no `\` escapes.
pub open spec fn regex_rest_end(s: Seq<char>, j: int) -> Option<int>
    decreases s.len() - j,
{
    if j < 0 || j >= s.len() {
        None
    } else if s[j] == '"' {
        Some(j + 1)
    } else if s[j] == '\\' {
        if j + 1 < s.len() {
            regex_rest_end(s, j + 2)
        } else {
            None
        }
    } else {
        regex_rest_end(s, j + 1)
    }
}

/// Where a regular expression literal (`#"…"`) that starts at `i` ends.
pub open spec fn regex_end(s: Seq<char>, i: int) -> Option<int> {
    if 0 <= i && at(s, i, '#') && at(s, i + 1, '"') {
        regex_rest_end(s, i + 2)
    } else {
        None
    }
}

pub proof fn lemma_regex_rest_bounds(s: Seq<char>, j: int)
    requires
        0 <= j,
        regex_rest_end(s, j) is Some,
    ensures
        j < regex_rest_end(s, j)->0 <= s.len(),
    decreases s.len() - j,
{
    if s[j] == '"' {
    } else if s[j] == '\\' {
        if j + 1 < s.len() {
            lemma_regex_rest_bounds(s, j + 2);
        }
    } else {
        lemma_regex_rest_bounds(s, j + 1);
    }
}

/// Scans a regular expression literal starting at `i`; gives its end and
/// token.
pub fn scan_regex(s: &[char], i: usize) -> (r: Option<(usize, Token)>)
    requires
        i <= s.len(),
    ensures
        match r {
            Some((e, _)) => regex_end(s@, i as int) == Some(e as int),
            None => regex_end(s@, i as int) is None,
        },
        r matches Some((e, t)) ==> (t matches Token::Regex { raw_value } && i + 3 <= e && s@[e
            - 1] == '"' && raw_value@ == s@.subrange(i + 2, e - 1)),
{
    if !(char_at(s, i, '#') && char_at(s, i + 1, '"')) {
        return None;
    }
    let mut j = i + 2;
    while j < s.len()
        invariant
            i + 2 <= j,
            regex_end(s@, i as int) == regex_rest_end(s@, j as int),
        decreases s.len() - j,
    {
        if s[j] == '"' {
            return Some((j + 1, Token::Regex { raw_value: text(s, i + 2, j) }));
        } else if s[j] == '\\' {
            if j + 1 < s.len() {
                j = j + 2;
            } else {
                return None;
            }
        } else {
            j = j + 1;
        }
    }
    None
}

} // verus!
