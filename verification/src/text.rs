//! Characters, decimal numbers and splitting, shared by the parsers.

use vstd::prelude::*;

verus! {

pub assume_specification[ std::string::String::push ](s: &mut std::string::String, ch: char)
    ensures
        final(s)@ == old(s)@.push(ch),
;

/// The characters of `s`, in order.
pub fn chars_of(s: &str) -> (v: Vec<char>)
    ensures
        v@ == s@,
{
    let mut v: Vec<char> = Vec::new();
    for c in iter: s.chars()
        invariant
            v@ == iter.seq().take(iter.index() as int),
    {
        v.push(c);
    }
    v
}

/// A string holding the characters of `v`, in order.
pub fn string_of(v: &[char]) -> (s: String)
    ensures
        s@ == v@,
{
    let mut s = String::new();
    let mut i: usize = 0;
    while i < v.len()
        invariant
            i <= v.len(),
            s@ == v@.take(i as int),
        decreases v.len() - i,
    {
        s.push(v[i]);
        i = i + 1;
        assert(s@ == v@.take(i as int));
    }
    s
}

pub open spec fn is_digit_char(c: char) -> bool {
    '0' <= c <= '9'
}

pub open spec fn all_digits(s: Seq<char>) -> bool {
    forall|i: int| 0 <= i < s.len() ==> is_digit_char(#[trigger] s[i])
}

pub open spec fn digit_value(c: char) -> nat {
    (c as int - '0' as int) as nat
}

/// The number that a string of decimal digits denotes.
pub open spec fn decimal_value(s: Seq<char>) -> nat
    decreases s.len(),
{
    if s.len() == 0 {
        0
    } else {
        10 * decimal_value(s.drop_last()) + digit_value(s.last())
    }
}

/// What parsing `s` as a `u16` gives: an optional `+` and then one or more
/// decimal digits whose value fits in 16 bits.
pub open spec fn spec_parse_u16(s: Seq<char>) -> Option<u16> {
    let t = if s.len() > 0 && s[0] == '+' {
        s.drop_first()
    } else {
        s
    };
    if t.len() > 0 && all_digits(t) && decimal_value(t) <= 0xFFFF {
        Some(decimal_value(t) as u16)
    } else {
        None
    }
}

/// Parses a decimal `u16` with an optional leading `+`; no other characters,
/// whitespace included, are accepted.
pub fn parse_u16(s: &[char]) -> (r: Option<u16>)
    ensures
        r == spec_parse_u16(s@),
{
    let start: usize = if s.len() > 0 && s[0] == '+' {
        1
    } else {
        0
    };
    let ghost t = s@.skip(start as int);
    assert(t == (if s@.len() > 0 && s@[0] == '+' {
        s@.drop_first()
    } else {
        s@
    }));
    if start >= s.len() {
        return None;
    }
    let mut i = start;
    let mut v: u32 = 0;
    let mut big = false;
    while i < s.len()
        invariant
            start <= i <= s.len(),
            t == s@.skip(start as int),
            t == (if s@.len() > 0 && s@[0] == '+' {
                s@.drop_first()
            } else {
                s@
            }),
            all_digits(s@.subrange(start as int, i as int)),
            !big ==> v == decimal_value(s@.subrange(start as int, i as int)) && v <= 0xFFFF,
            big ==> decimal_value(s@.subrange(start as int, i as int)) > 0xFFFF,
        decreases s.len() - i,
    {
        let c = s[i];
        if !('0' <= c && c <= '9') {
            assert(t[i - start] == c);
            assert(!is_digit_char(t[i - start]));
            return None;
        }
        let d = (c as u32) - ('0' as u32);
        let ghost prev = s@.subrange(start as int, i as int);
        let ghost next = s@.subrange(start as int, i + 1);
        assert(next.drop_last() == prev);
        assert(next.last() == c);
        if !big {
            if v * 10 + d > 0xFFFF {
                big = true;
            } else {
                v = v * 10 + d;
            }
        }
        i = i + 1;
    }
    assert(s@.subrange(start as int, s.len() as int) == t);
    if big {
        None
    } else {
        Some(v as u16)
    }
}

pub open spec fn digit_char(d: nat) -> char {
    (d + '0' as nat) as char
}

/// The decimal digits of `n`, without leading zeros (`0` is `"0"`).
pub open spec fn decimal_string(n: nat) -> Seq<char>
    decreases n,
{
    if n < 10 {
        seq![digit_char(n)]
    } else {
        decimal_string(n / 10).push(digit_char(n % 10))
    }
}

/// Appends the decimal digits of `n` to `out`.
pub fn push_decimal(out: &mut Vec<char>, n: u16)
    ensures
        final(out)@ == old(out)@ + decimal_string(n as nat),
    decreases n,
{
    if n < 10 {
        out.push(((n as u8) + 48u8) as char);
        assert(((n as u8) + 48u8) as char == digit_char(n as nat));
    } else {
        push_decimal(out, n / 10);
        let d = n % 10;
        out.push(((d as u8) + 48u8) as char);
        assert(((d as u8) + 48u8) as char == digit_char(n as nat % 10));
    }
}

pub proof fn lemma_decimal_string_parses(n: nat)
    ensures
        decimal_string(n).len() > 0,
        all_digits(decimal_string(n)),
        decimal_value(decimal_string(n)) == n,
        decimal_string(n)[0] != '+',
    decreases n,
{
    if n < 10 {
        assert(digit_value(digit_char(n)) == n);
        assert(decimal_string(n).drop_last() =~= Seq::<char>::empty());
        assert(decimal_value(Seq::<char>::empty()) == 0);
    } else {
        lemma_decimal_string_parses(n / 10);
        assert(digit_value(digit_char(n % 10)) == n % 10);
        assert(decimal_string(n) == decimal_string(n / 10).push(digit_char(n % 10)));
        assert(decimal_string(n).last() == digit_char(n % 10));
        assert(n == 10 * (n / 10) + n % 10);
        let s = decimal_string(n);
        assert(s.drop_last() == decimal_string(n / 10));
        assert(s[0] == decimal_string(n / 10)[0]);
    }
}

/// Decimal strings read back as the number they were made from.
pub proof fn lemma_parse_u16_decimal(n: u16)
    ensures
        spec_parse_u16(decimal_string(n as nat)) == Some(n),
{
    lemma_decimal_string_parses(n as nat);
}

/// The position of the first `c` in `s` at or after `i`, if any.
pub open spec fn find_char_from(s: Seq<char>, c: char, i: int) -> Option<int>
    decreases s.len() - i,
{
    if i < 0 || i >= s.len() {
        None
    } else if s[i] == c {
        Some(i)
    } else {
        find_char_from(s, c, i + 1)
    }
}

/// The pieces of `s` between the occurrences of `sep`; there is always at
/// least one piece.
pub open spec fn split_char(s: Seq<char>, sep: char) -> Seq<Seq<char>>
    decreases s.len(),
{
    match find_char_from(s, sep, 0) {
        None => seq![s],
        Some(i) => if 0 <= i < s.len() {
            seq![s.take(i)] + split_char(s.skip(i + 1), sep)
        } else {
            seq![s]
        },
    }
}

/// There is always at least one piece.
pub proof fn lemma_split_nonempty(s: Seq<char>, sep: char)
    ensures
        split_char(s, sep).len() >= 1,
{
}

proof fn lemma_find_char_shift(s: Seq<char>, c: char, k: int, i: int)
    requires
        0 <= k <= i,
        k <= s.len(),
    ensures
        find_char_from(s.skip(k), c, i - k) == (match find_char_from(s, c, i) {
            Some(j) => Some(j - k),
            None => None::<int>,
        }),
    decreases s.len() - i,
{
    if i < s.len() {
        assert(s.skip(k)[i - k] == s[i]);
        assert((i + 1) - k == (i - k) + 1);
        lemma_find_char_shift(s, c, k, i + 1);
    }
}

pub proof fn lemma_find_char_bounds(s: Seq<char>, c: char, i: int)
    ensures
        find_char_from(s, c, i) matches Some(j) ==> i <= j < s.len() && s[j] == c && forall|
            m: int,
        | i <= m < j ==> s[m] != c,
    decreases s.len() - i,
{
    if 0 <= i < s.len() && s[i] != c {
        lemma_find_char_bounds(s, c, i + 1);
    }
}

/// With no `c` found at or after `i`, none is there.
pub proof fn lemma_find_char_none(s: Seq<char>, c: char, i: int)
    requires
        0 <= i,
    ensures
        find_char_from(s, c, i) is None ==> forall|m: int| i <= m < s.len() ==> s[m] != c,
    decreases s.len() - i,
{
    if i < s.len() && s[i] != c {
        lemma_find_char_none(s, c, i + 1);
    }
}

/// The first `c` at or after `i` is at `j` when none comes between.
pub proof fn lemma_find_char_first(s: Seq<char>, c: char, i: int, j: int)
    requires
        0 <= i <= j <= s.len(),
        j < s.len() ==> s[j] == c,
        forall|k: int| i <= k < j ==> s[k] != c,
    ensures
        find_char_from(s, c, i) == (if j < s.len() { Some(j) } else { None::<int> }),
    decreases j - i,
{
    if i < j {
        lemma_find_char_first(s, c, i + 1, j);
    }
}

/// A piece without the separator, then the separator, then the rest,
/// splits into that piece and the pieces of the rest.
pub proof fn lemma_split_piece(a: Seq<char>, rest: Seq<char>, sep: char)
    requires
        forall|k: int| 0 <= k < a.len() ==> a[k] != sep,
    ensures
        split_char(a + seq![sep] + rest, sep) == seq![a] + split_char(rest, sep),
{
    let s = a + seq![sep] + rest;
    assert forall|k: int| 0 <= k < a.len() implies s[k] != sep by {
        assert(s[k] == a[k]);
    }
    assert(s[a.len() as int] == sep);
    lemma_find_char_first(s, sep, 0, a.len() as int);
    assert(s.take(a.len() as int) =~= a);
    assert(s.skip(a.len() as int + 1) =~= rest);
}

/// A text without the separator is a single piece.
pub proof fn lemma_split_single(a: Seq<char>, sep: char)
    requires
        forall|k: int| 0 <= k < a.len() ==> a[k] != sep,
    ensures
        split_char(a, sep) == seq![a],
{
    lemma_find_char_first(a, sep, 0, a.len() as int);
}

/// Decimal digits hold no `.`.
pub proof fn lemma_decimal_no_dot(n: nat)
    ensures
        forall|k: int| 0 <= k < decimal_string(n).len() ==> decimal_string(n)[k] != '.',
{
    lemma_decimal_string_parses(n);
    assert forall|k: int| 0 <= k < decimal_string(n).len() implies decimal_string(n)[k] != '.' by {
        assert(is_digit_char(decimal_string(n)[k]));
    }
}

/// The position of the first `c` in `s` at or after `from`.
pub fn find_char(s: &[char], c: char, from: usize) -> (r: Option<usize>)
    ensures
        match r {
            Some(j) => find_char_from(s@, c, from as int) == Some(j as int),
            None => find_char_from(s@, c, from as int) is None,
        },
{
    let mut i = from;
    while i < s.len()
        invariant
            from <= i,
            find_char_from(s@, c, i as int) == find_char_from(s@, c, from as int),
        decreases s.len() - i,
    {
        if s[i] == c {
            return Some(i);
        }
        i = i + 1;
    }
    None
}

/// Copies `s[from..to]`.
pub fn copy_range(s: &[char], from: usize, to: usize) -> (r: Vec<char>)
    requires
        from <= to <= s.len(),
    ensures
        r@ == s@.subrange(from as int, to as int),
{
    let mut r: Vec<char> = Vec::new();
    let mut i = from;
    while i < to
        invariant
            from <= i <= to <= s.len(),
            r@ == s@.subrange(from as int, i as int),
        decreases to - i,
    {
        r.push(s[i]);
        i = i + 1;
    }
    r
}

/// The position of the first occurrence of `pat` in `s` at or after `i`.
pub open spec fn find_pattern_from(s: Seq<char>, pat: Seq<char>, i: int) -> Option<int>
    decreases s.len() - i,
{
    if i < 0 || i >= s.len() || i + pat.len() > s.len() {
        None
    } else if s.subrange(i, i + pat.len()) == pat {
        Some(i)
    } else {
        find_pattern_from(s, pat, i + 1)
    }
}

/// Whether `pat` occurs in `s` at position `i`.
pub fn matches_at(s: &[char], pat: &[char], i: usize) -> (r: bool)
    requires
        i + pat.len() <= s.len(),
    ensures
        r == (s@.subrange(i as int, i + pat.len()) == pat@),
{
    let mut k: usize = 0;
    while k < pat.len()
        invariant
            k <= pat.len(),
            i + pat.len() <= s.len(),
            s@.subrange(i as int, i + k) == pat@.take(k as int),
        decreases pat.len() - k,
    {
        if s[i + k] != pat[k] {
            assert(s@.subrange(i as int, i + pat.len())[k as int] != pat@[k as int]);
            return false;
        }
        k = k + 1;
        assert(s@.subrange(i as int, i + k) == pat@.take(k as int));
    }
    assert(pat@.take(pat.len() as int) == pat@);
    true
}

/// The position of the first occurrence of `pat` in `s`.
pub fn find_pattern(s: &[char], pat: &[char]) -> (r: Option<usize>)
    ensures
        match r {
            Some(j) => find_pattern_from(s@, pat@, 0) == Some(j as int),
            None => find_pattern_from(s@, pat@, 0) is None,
        },
{
    let mut i: usize = 0;
    while i < s.len() && pat.len() <= s.len() - i
        invariant
            find_pattern_from(s@, pat@, i as int) == find_pattern_from(s@, pat@, 0),
        decreases s.len() - i,
    {
        if matches_at(s, pat, i) {
            return Some(i);
        }
        i = i + 1;
    }
    None
}

pub proof fn lemma_find_pattern_bounds(s: Seq<char>, pat: Seq<char>, i: int)
    ensures
        find_pattern_from(s, pat, i) matches Some(j) ==> i <= j && j + pat.len() <= s.len()
            && s.subrange(j, j + pat.len()) == pat,
    decreases s.len() - i,
{
    if !(i < 0 || i >= s.len() || i + pat.len() > s.len()) && s.subrange(i, i + pat.len()) != pat {
        lemma_find_pattern_bounds(s, pat, i + 1);
    }
}

/// Whether two character slices are equal.
pub fn eq_chars(a: &[char], b: &[char]) -> (r: bool)
    ensures
        r == (a@ == b@),
{
    if a.len() != b.len() {
        return false;
    }
    let mut i: usize = 0;
    while i < a.len()
        invariant
            i <= a.len(),
            a.len() == b.len(),
            a@.take(i as int) == b@.take(i as int),
        decreases a.len() - i,
    {
        if a[i] != b[i] {
            return false;
        }
        i = i + 1;
        assert(a@.take(i as int) == a@.take(i - 1).push(a@[i - 1]));
        assert(b@.take(i as int) == b@.take(i - 1).push(b@[i - 1]));
    }
    assert(a@.take(a.len() as int) == a@);
    assert(b@.take(b.len() as int) == b@);
    true
}

/// The contents of each of a sequence of character vectors.
pub open spec fn views(v: Seq<Vec<char>>) -> Seq<Seq<char>> {
    Seq::new(v.len(), |i: int| v[i]@)
}

/// Splits `s` at every `sep`.
pub fn split_on(s: &[char], sep: char) -> (r: Vec<Vec<char>>)
    ensures
        views(r@) == split_char(s@, sep),
{
    let mut r: Vec<Vec<char>> = Vec::new();
    let mut pos: usize = 0;
    assert(s@.skip(0) == s@);
    assert(views(r@) =~= Seq::<Seq<char>>::empty());
    loop
        invariant
            pos <= s.len(),
            views(r@) + split_char(s@.skip(pos as int), sep) == split_char(s@, sep),
        decreases s.len() - pos,
    {
        let ghost rest = s@.skip(pos as int);
        proof {
            lemma_find_char_shift(s@, sep, pos as int, pos as int);
            lemma_find_char_bounds(s@, sep, pos as int);
        }
        match find_char(s, sep, pos) {
            None => {
                let piece = copy_range(s, pos, s.len());
                assert(piece@ == rest);
                let ghost old_r = r@;
                r.push(piece);
                assert(views(r@) =~= views(old_r).push(rest));
                assert(split_char(rest, sep) == seq![rest]);
                assert(views(r@) == split_char(s@, sep));
                return r;
            },
            Some(j) => {
                let piece = copy_range(s, pos, j);
                assert(piece@ == rest.take(j - pos));
                let ghost old_r = r@;
                r.push(piece);
                assert(views(r@) =~= views(old_r).push(rest.take(j - pos)));
                assert(rest.skip(j - pos + 1) == s@.skip(j + 1));
                assert(split_char(rest, sep) == seq![rest.take(j - pos)] + split_char(
                    s@.skip(j + 1),
                    sep,
                ));
                assert(views(r@) + split_char(s@.skip(j + 1), sep) =~= views(old_r) + split_char(
                    rest,
                    sep,
                ));
                pos = j + 1;
            },
        }
    }
}

/// Whitespace as Unicode defines it (the `White_Space` property).
pub open spec fn is_unicode_ws(c: char) -> bool {
    ('\u{09}' <= c <= '\u{0D}') || c == ' ' || c == '\u{85}' || c == '\u{A0}' || c == '\u{1680}'
        || ('\u{2000}' <= c <= '\u{200A}') || c == '\u{2028}' || c == '\u{2029}' || c == '\u{202F}'
        || c == '\u{205F}' || c == '\u{3000}'
}

pub fn unicode_ws(c: char) -> (r: bool)
    ensures
        r == is_unicode_ws(c),
{
    ('\u{09}' <= c && c <= '\u{0D}') || c == ' ' || c == '\u{85}' || c == '\u{A0}' || c
        == '\u{1680}' || ('\u{2000}' <= c && c <= '\u{200A}') || c == '\u{2028}' || c
        == '\u{2029}' || c == '\u{202F}' || c == '\u{205F}' || c == '\u{3000}'
}

/// The number of whitespace characters at the start of `s`.
pub open spec fn leading_ws(s: Seq<char>) -> int
    decreases s.len(),
{
    if s.len() > 0 && is_unicode_ws(s[0]) {
        1 + leading_ws(s.drop_first())
    } else {
        0
    }
}

/// The number of whitespace characters at the end of `s`.
pub open spec fn trailing_ws(s: Seq<char>) -> int
    decreases s.len(),
{
    if s.len() > 0 && is_unicode_ws(s.last()) {
        1 + trailing_ws(s.drop_last())
    } else {
        0
    }
}

/// `s` without whitespace at either end.
pub open spec fn trimmed(s: Seq<char>) -> Seq<char> {
    let a = leading_ws(s);
    if a == s.len() {
        Seq::empty()
    } else {
        s.subrange(a, s.len() - trailing_ws(s))
    }
}

proof fn lemma_leading(s: Seq<char>)
    ensures
        0 <= leading_ws(s) <= s.len(),
        forall|k: int| 0 <= k < leading_ws(s) ==> is_unicode_ws(#[trigger] s[k]),
        leading_ws(s) < s.len() ==> !is_unicode_ws(s[leading_ws(s)]),
    decreases s.len(),
{
    if s.len() > 0 && is_unicode_ws(s[0]) {
        lemma_leading(s.drop_first());
        assert forall|k: int| 0 <= k < leading_ws(s) implies is_unicode_ws(#[trigger] s[k]) by {
            if k > 0 {
                assert(s[k] == s.drop_first()[k - 1]);
            }
        }
    }
}

proof fn lemma_trailing(s: Seq<char>)
    ensures
        0 <= trailing_ws(s) <= s.len(),
        trailing_ws(s) < s.len() ==> !is_unicode_ws(s[s.len() - 1 - trailing_ws(s)]),
        forall|k: int| s.len() - trailing_ws(s) <= k < s.len() ==> is_unicode_ws(#[trigger] s[k]),
    decreases s.len(),
{
    if s.len() > 0 && is_unicode_ws(s.last()) {
        lemma_trailing(s.drop_last());
        assert forall|k: int| s.len() - trailing_ws(s) <= k < s.len() implies is_unicode_ws(#[trigger] s[k]) by {
            if k < s.len() - 1 {
                assert(s[k] == s.drop_last()[k]);
            }
        }
    }
}

/// Trimming takes away the whitespace at both ends and nothing else: what is
/// left is a stretch of the text with whitespace only before and after it,
/// and it neither starts nor ends with whitespace.
pub proof fn lemma_trimmed_strips_whitespace(s: Seq<char>)
    ensures
        exists|a: int, e: int|
            0 <= a <= e <= s.len() && trimmed(s) == s.subrange(a, e) && (forall|k: int|
                0 <= k < a ==> is_unicode_ws(#[trigger] s[k])) && (forall|k: int|
                e <= k < s.len() ==> is_unicode_ws(#[trigger] s[k])) && (a < e ==> !is_unicode_ws(
                s[a],
            ) && !is_unicode_ws(s[e - 1])),
{
    lemma_leading(s);
    lemma_trailing(s);
    let a = leading_ws(s);
    if a == s.len() {
        assert(trimmed(s) =~= s.subrange(a, a));
        assert(forall|k: int| a <= k < s.len() ==> is_unicode_ws(#[trigger] s[k]));
    } else {
        let e = s.len() - trailing_ws(s);
        if e <= a {
            assert(is_unicode_ws(s[a]));
        }
        assert(trimmed(s) == s.subrange(a, e));
    }
}

/// `s` without whitespace at either end.
pub fn trim(s: &[char]) -> (r: Vec<char>)
    ensures
        r@ == trimmed(s@),
{
    let mut a: usize = 0;
    assert(s@.skip(0) == s@);
    while a < s.len() && unicode_ws(s[a])
        invariant
            a <= s.len(),
            leading_ws(s@) == a + leading_ws(s@.skip(a as int)),
        decreases s.len() - a,
    {
        assert(s@.skip(a as int).drop_first() == s@.skip(a + 1));
        a = a + 1;
    }
    assert(leading_ws(s@.skip(a as int)) == 0) by {
        if a < s.len() {
            assert(s@.skip(a as int)[0] == s@[a as int]);
        }
    }
    if a == s.len() {
        return Vec::new();
    }
    let mut b: usize = s.len();
    assert(s@.take(s.len() as int) == s@);
    proof {
        lemma_leading(s@);
    }
    while b > a && unicode_ws(s[b - 1])
        invariant
            a < s.len(),
            a < b <= s.len(),
            !is_unicode_ws(s@[a as int]),
            trailing_ws(s@) == (s.len() - b) + trailing_ws(s@.take(b as int)),
        decreases b,
    {
        assert(s@.take(b as int).drop_last() == s@.take(b - 1));
        assert(s@.take(b as int).last() == s@[b - 1]);
        b = b - 1;
    }
    proof {
        assert(s@.take(b as int).last() == s@[b - 1]);
        assert(trailing_ws(s@.take(b as int)) == 0);
    }
    copy_range(s, a, b)
}


/// The decimal digits of `n`.
pub fn decimal_text(n: u128) -> (s: String)
    ensures
        s@ == decimal_string(n as nat),
{
    let mut v: Vec<char> = Vec::new();
    push_decimal_wide(&mut v, n);
    assert(v@ =~= decimal_string(n as nat));
    string_of(v.as_slice())
}

fn push_decimal_wide(out: &mut Vec<char>, n: u128)
    ensures
        final(out)@ == old(out)@ + decimal_string(n as nat),
    decreases n,
{
    if n < 10 {
        out.push(((n as u8) + 48u8) as char);
        assert(((n as u8) + 48u8) as char == digit_char(n as nat));
    } else {
        push_decimal_wide(out, n / 10);
        let d = n % 10;
        out.push(((d as u8) + 48u8) as char);
        assert(((d as u8) + 48u8) as char == digit_char(n as nat % 10));
    }
}


} // verus!
