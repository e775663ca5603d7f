//! Character classes of the Clojure lexer and the scanners of its atomic
//! pieces: runs of characters of one class, symbols and keywords.
//!
//! Each scanner takes a position in the input and tells where the piece that
//! starts there ends, or that no such piece starts there.

use vstd::prelude::*;

verus! {

/// Whitespace, which in Clojure includes the comma.
pub open spec fn is_ws(c: char) -> bool {
    c == '\t' || c == '\n' || c == '\u{0B}' || c == '\u{0C}' || c == '\r' || c == ' ' || c == ','
}

pub open spec fn is_control(c: char) -> bool {
    (c as u32) < 0x20 || c == '\u{7F}'
}

pub open spec fn is_dec_digit(c: char) -> bool {
    '0' <= c <= '9'
}

pub open spec fn is_oct_digit(c: char) -> bool {
    '0' <= c <= '7'
}

pub open spec fn is_hex_digit(c: char) -> bool {
    ('0' <= c <= '9') || ('a' <= c <= 'f') || ('A' <= c <= 'F')
}

pub open spec fn is_alnum(c: char) -> bool {
    ('0' <= c <= '9') || ('a' <= c <= 'z') || ('A' <= c <= 'Z')
}

/// The characters that end a symbol or a keyword.
pub open spec fn is_terminator(c: char) -> bool {
    c == ';' || c == '"' || c == '^' || c == '`' || c == '~' || c == '(' || c == ')' || c == '['
        || c == ']' || c == '{' || c == '}' || c == '\\'
}

/// A character that may appear in a symbol or keyword at all.
pub open spec fn is_name_char(c: char) -> bool {
    !is_ws(c) && !is_control(c) && !is_terminator(c)
}

/// A character that may continue a symbol's namespace or plain name.
pub open spec fn is_symbol_char(c: char) -> bool {
    is_name_char(c) && c != ':' && c != '/'
}

/// A character that may start a symbol.
pub open spec fn is_symbol_first(c: char) -> bool {
    is_symbol_char(c) && !is_dec_digit(c) && c != '#' && c != '\''
}

/// The classes of characters whose runs the lexer scans.
#[derive(Clone, Copy, Debug, PartialEq, Eq, Structural)]
pub enum Class {
    Ws,
    Symbol,
    Name,
    Dec,
    Oct,
    Hex,
    Alnum,
    /// Anything but a newline: the body of a comment.
    Line,
    /// Anything but `"` and `\`: the plain text of a string.
    Plain,
}

pub open spec fn in_class(k: Class, c: char) -> bool {
    match k {
        Class::Ws => is_ws(c),
        Class::Symbol => is_symbol_char(c),
        Class::Name => is_name_char(c),
        Class::Dec => is_dec_digit(c),
        Class::Oct => is_oct_digit(c),
        Class::Hex => is_hex_digit(c),
        Class::Alnum => is_alnum(c),
        Class::Line => c != '\n',
        Class::Plain => c != '"' && c != '\\',
    }
}

pub fn ws_char(c: char) -> (r: bool)
    ensures
        r == is_ws(c),
{
    c == '\t' || c == '\n' || c == '\u{0B}' || c == '\u{0C}' || c == '\r' || c == ' ' || c == ','
}

pub fn name_char(c: char) -> (r: bool)
    ensures
        r == is_name_char(c),
{
    let control = (c as u32) < 0x20 || c == '\u{7F}';
    let terminator = c == ';' || c == '"' || c == '^' || c == '`' || c == '~' || c == '(' || c
        == ')' || c == '[' || c == ']' || c == '{' || c == '}' || c == '\\';
    !ws_char(c) && !control && !terminator
}

pub fn symbol_first(c: char) -> (r: bool)
    ensures
        r == is_symbol_first(c),
{
    name_char(c) && c != ':' && c != '/' && !('0' <= c && c <= '9') && c != '#' && c != '\''
}

pub fn dec_digit(c: char) -> (r: bool)
    ensures
        r == is_dec_digit(c),
{
    '0' <= c && c <= '9'
}

pub fn oct_digit(c: char) -> (r: bool)
    ensures
        r == is_oct_digit(c),
{
    '0' <= c && c <= '7'
}

pub fn hex_digit(c: char) -> (r: bool)
    ensures
        r == is_hex_digit(c),
{
    ('0' <= c && c <= '9') || ('a' <= c && c <= 'f') || ('A' <= c && c <= 'F')
}

pub fn class_has(k: Class, c: char) -> (r: bool)
    ensures
        r == in_class(k, c),
{
    match k {
        Class::Ws => ws_char(c),
        Class::Symbol => name_char(c) && c != ':' && c != '/',
        Class::Name => name_char(c),
        Class::Dec => dec_digit(c),
        Class::Oct => oct_digit(c),
        Class::Hex => hex_digit(c),
        Class::Alnum => ('0' <= c && c <= '9') || ('a' <= c && c <= 'z') || ('A' <= c && c
            <= 'Z'),
        Class::Line => c != '\n',
        Class::Plain => c != '"' && c != '\\',
    }
}

/// An optional position, as an integer.
pub open spec fn opt_pos(o: Option<usize>) -> Option<int> {
    match o {
        Some(j) => Some(j as int),
        None => None,
    }
}

/// Whether `s[i]` exists and is `c`.
pub open spec fn at(s: Seq<char>, i: int, c: char) -> bool {
    0 <= i < s.len() && s[i] == c
}

pub fn char_at(s: &[char], i: usize, c: char) -> (r: bool)
    ensures
        r == at(s@, i as int, c),
{
    i < s.len() && s[i] == c
}

/// Whether `s[i]` exists and is of class `k`.
pub open spec fn at_class(s: Seq<char>, i: int, k: Class) -> bool {
    0 <= i < s.len() && in_class(k, s[i])
}

pub fn class_at(s: &[char], i: usize, k: Class) -> (r: bool)
    ensures
        r == at_class(s@, i as int, k),
{
    i < s.len() && class_has(k, s[i])
}

/// Whether a symbol, keyword or number may end at `i`: the input ends there
/// or the next character cannot continue a name.
pub open spec fn ends_name(s: Seq<char>, i: int) -> bool {
    i >= s.len() || !is_name_char(s[i])
}

pub fn name_ends(s: &[char], i: usize) -> (r: bool)
    requires
        i <= s.len(),
    ensures
        r == ends_name(s@, i as int),
{
    i >= s.len() || !name_char(s[i])
}

/// The end of the run of characters of class `k` that starts at `i`.
pub open spec fn run_end(s: Seq<char>, i: int, k: Class) -> int
    decreases s.len() - i,
{
    if i < 0 || i >= s.len() {
        i
    } else if in_class(k, s[i]) {
        run_end(s, i + 1, k)
    } else {
        i
    }
}

pub proof fn lemma_run_end_bounds(s: Seq<char>, i: int, k: Class)
    requires
        0 <= i <= s.len(),
    ensures
        i <= run_end(s, i, k) <= s.len(),
        run_end(s, i, k) == s.len() || !in_class(k, s[run_end(s, i, k)]),
        forall|j: int| i <= j < run_end(s, i, k) ==> in_class(k, #[trigger] s[j]),
    decreases s.len() - i,
{
    if i < s.len() && in_class(k, s[i]) {
        lemma_run_end_bounds(s, i + 1, k);
    }
}

/// Scans the run of characters of class `k` that starts at `i`.
pub fn scan_run(s: &[char], i: usize, k: Class) -> (j: usize)
    requires
        i <= s.len(),
    ensures
        j == run_end(s@, i as int, k),
        i <= j <= s.len(),
{
    let mut j = i;
    while j < s.len()
        invariant
            i <= j <= s.len(),
            run_end(s@, j as int, k) == run_end(s@, i as int, k),
        decreases s.len() - j,
    {
        if class_has(k, s[j]) {
            j = j + 1;
        } else {
            return j;
        }
    }
    j
}

/// The end of the `(':' symbol-char+)*` tail of a namespace from `i` on.
pub open spec fn colon_tail_end(s: Seq<char>, i: int) -> int
    decreases s.len() - i,
{
    if 0 <= i && at(s, i, ':') && at_class(s, i + 1, Class::Symbol) {
        let j = run_end(s, i + 1, Class::Symbol);
        if i < j <= s.len() {
            colon_tail_end(s, j)
        } else {
            i
        }
    } else {
        i
    }
}

pub proof fn lemma_colon_tail_bounds(s: Seq<char>, i: int)
    requires
        0 <= i <= s.len(),
    ensures
        i <= colon_tail_end(s, i) <= s.len(),
    decreases s.len() - i,
{
    if at(s, i, ':') && at_class(s, i + 1, Class::Symbol) {
        lemma_run_end_bounds(s, i + 1, Class::Symbol);
        lemma_colon_tail_bounds(s, run_end(s, i + 1, Class::Symbol));
    }
}

pub fn scan_colon_tail(s: &[char], i: usize) -> (j: usize)
    requires
        i <= s.len(),
    ensures
        j == colon_tail_end(s@, i as int),
        i <= j <= s.len(),
    decreases s.len() - i,
{
    if char_at(s, i, ':') && class_at(s, i + 1, Class::Symbol) {
        let j = scan_run(s, i + 1, Class::Symbol);
        scan_colon_tail(s, j)
    } else {
        i
    }
}

/// A namespace, which is also the form of an unqualified symbol: a symbol
/// character that may start a symbol, more symbol characters, and
/// `:`-separated runs of them.
pub open spec fn namespace_end(s: Seq<char>, i: int) -> Option<int> {
    if 0 <= i < s.len() && is_symbol_first(s[i]) {
        Some(colon_tail_end(s, run_end(s, i + 1, Class::Symbol)))
    } else {
        None
    }
}

pub proof fn lemma_namespace_bounds(s: Seq<char>, i: int)
    requires
        0 <= i <= s.len(),
        namespace_end(s, i) is Some,
    ensures
        i < namespace_end(s, i)->0 <= s.len(),
{
    lemma_run_end_bounds(s, i + 1, Class::Symbol);
    lemma_colon_tail_bounds(s, run_end(s, i + 1, Class::Symbol));
}

pub fn scan_namespace(s: &[char], i: usize) -> (r: Option<usize>)
    requires
        i <= s.len(),
    ensures
        opt_pos(r) == namespace_end(s@, i as int),
        r matches Some(j) ==> i < j <= s.len(),
{
    if i < s.len() && symbol_first(s[i]) {
        let j = scan_run(s, i + 1, Class::Symbol);
        let k = scan_colon_tail(s, j);
        Some(k)
    } else {
        None
    }
}

/// Where the name of a qualified symbol or keyword whose namespace ends at
/// `ns_end` ends: it needs a `/` and at least one more name character.
pub open spec fn qualified_name_end(s: Seq<char>, ns_end: int) -> Option<int> {
    if at(s, ns_end, '/') && at_class(s, ns_end + 1, Class::Name) {
        Some(run_end(s, ns_end + 1, Class::Name))
    } else {
        None
    }
}

/// A symbol (or tag) starting at `i`: the end of its namespace, if it has
/// one, and its own end.  An unqualified symbol is a namespace-like run or a
/// lone `/`.  Either must be followed by something that cannot continue a
/// name.
pub open spec fn symbol_parts(s: Seq<char>, i: int) -> Option<(Option<int>, int)> {
    let unqualified: Option<(Option<int>, int)> = if at(s, i, '/') {
        Some((None, i + 1))
    } else {
        match namespace_end(s, i) {
            Some(e) => Some((None, e)),
            None => None,
        }
    };
    let parts = match namespace_end(s, i) {
        Some(ns) => match qualified_name_end(s, ns) {
            Some(e) => Some((Some(ns), e)),
            None => unqualified,
        },
        None => unqualified,
    };
    match parts {
        Some((ns, e)) => if ends_name(s, e) {
            Some((ns, e))
        } else {
            None
        },
        None => None,
    }
}

pub proof fn lemma_symbol_bounds(s: Seq<char>, i: int)
    requires
        0 <= i <= s.len(),
        symbol_parts(s, i) is Some,
    ensures
        ({
            let (ns, e) = symbol_parts(s, i)->0;
            &&& i < e <= s.len()
            &&& ns matches Some(n) ==> i < n < e
        }),
{
    if namespace_end(s, i) is Some {
        lemma_namespace_bounds(s, i);
        let ns = namespace_end(s, i)->0;
        if qualified_name_end(s, ns) is Some {
            lemma_run_end_bounds(s, ns + 1, Class::Name);
        }
    }
}

pub fn scan_symbol(s: &[char], i: usize) -> (r: Option<(Option<usize>, usize)>)
    requires
        i <= s.len(),
    ensures
        match r {
            Some((ns, e)) => symbol_parts(s@, i as int) == Some(
                (opt_pos(ns), e as int),
            ),
            None => symbol_parts(s@, i as int) is None,
        },
{
    let unqualified: Option<(Option<usize>, usize)> = if char_at(s, i, '/') {
        Some((None, i + 1))
    } else {
        match scan_namespace(s, i) {
            Some(e) => Some((None, e)),
            None => None,
        }
    };
    let parts = match scan_namespace(s, i) {
        Some(ns) => {
            if char_at(s, ns, '/') && class_at(s, ns + 1, Class::Name) {
                Some((Some(ns), scan_run(s, ns + 1, Class::Name)))
            } else {
                unqualified
            }
        },
        None => unqualified,
    };
    match parts {
        Some((ns, e)) => {
            if name_ends(s, e) {
                Some((ns, e))
            } else {
                None
            }
        },
        None => None,
    }
}

/// A keyword starting at `i`: whether it is an alias (`::`), where its name
/// starts, the end of its namespace, if it has one, and its end.  Without a
/// namespace the name is any run of name characters.
pub open spec fn keyword_parts(s: Seq<char>, i: int) -> Option<(bool, int, Option<int>, int)> {
    if !at(s, i, ':') {
        None
    } else {
        let alias = at(s, i + 1, ':');
        let p = if alias {
            i + 2
        } else {
            i + 1
        };
        match namespace_end(s, p) {
            Some(ns) if qualified_name_end(s, ns) is Some => Some(
                (alias, p, Some(ns), qualified_name_end(s, ns)->0),
            ),
            _ => if at_class(s, p, Class::Name) {
                Some((alias, p, None, run_end(s, p, Class::Name)))
            } else {
                None
            },
        }
    }
}

pub proof fn lemma_keyword_bounds(s: Seq<char>, i: int)
    requires
        0 <= i <= s.len(),
        keyword_parts(s, i) is Some,
    ensures
        ({
            let (alias, p, ns, e) = keyword_parts(s, i)->0;
            &&& i < p < e <= s.len()
            &&& ns matches Some(n) ==> p < n < e
        }),
{
    let alias = at(s, i + 1, ':');
    let p = if alias {
        i + 2
    } else {
        i + 1
    };
    if namespace_end(s, p) is Some {
        lemma_namespace_bounds(s, p);
        let ns = namespace_end(s, p)->0;
        if qualified_name_end(s, ns) is Some {
            lemma_run_end_bounds(s, ns + 1, Class::Name);
        }
    }
    if at_class(s, p, Class::Name) {
        lemma_run_end_bounds(s, p, Class::Name);
    }
}

pub fn scan_keyword(s: &[char], i: usize) -> (r: Option<(bool, usize, Option<usize>, usize)>)
    requires
        i <= s.len(),
    ensures
        match r {
            Some((alias, p, ns, e)) => keyword_parts(s@, i as int) == Some(
                (alias, p as int, opt_pos(ns), e as int),
            ),
            None => keyword_parts(s@, i as int) is None,
        },
{
    if !char_at(s, i, ':') {
        return None;
    }
    let alias = char_at(s, i + 1, ':');
    let p = if alias {
        i + 2
    } else {
        i + 1
    };
    if p > s.len() {
        return None;
    }
    match scan_namespace(s, p) {
        Some(ns) if char_at(s, ns, '/') && class_at(s, ns + 1, Class::Name) => {
            let e = scan_run(s, ns + 1, Class::Name);
            return Some((alias, p, Some(ns), e));
        },
        _ => {},
    }
    if class_at(s, p, Class::Name) {
        Some((alias, p, None, scan_run(s, p, Class::Name)))
    } else {
        None
    }
}

/// A run of symbol or name characters read in a window that ends where no
/// name character follows ends where it ends in the text.
pub proof fn lemma_name_run_window(s: Seq<char>, i: int, e: int, j: int, k: Class)
    requires
        0 <= i <= j <= e <= s.len(),
        ends_name(s, e),
        k == Class::Symbol || k == Class::Name || k == Class::Dec || k == Class::Oct || k
            == Class::Hex || k == Class::Alnum,
    ensures
        run_end(s, j, k) <= e,
        run_end(s.subrange(i, e), j - i, k) == run_end(s, j, k) - i,
    decreases e - j,
{
    let x = s.subrange(i, e);
    if j < e {
        assert(x[j - i] == s[j]);
        if in_class(k, s[j]) {
            lemma_name_run_window(s, i, e, j + 1, k);
        }
    }
}

pub proof fn lemma_colon_tail_window(s: Seq<char>, i: int, e: int, j: int)
    requires
        0 <= i <= j <= e <= s.len(),
        ends_name(s, e),
    ensures
        colon_tail_end(s, j) <= e,
        colon_tail_end(s.subrange(i, e), j - i) == colon_tail_end(s, j) - i,
    decreases e - j,
{
    let x = s.subrange(i, e);
    if j < e {
        assert(x[j - i] == s[j]);
        if j + 1 < e {
            assert(x[j + 1 - i] == s[j + 1]);
        }
        if at(s, j, ':') && at_class(s, j + 1, Class::Symbol) {
            lemma_name_run_window(s, i, e, j + 1, Class::Symbol);
            lemma_run_end_bounds(s, j + 1, Class::Symbol);
            lemma_colon_tail_window(s, i, e, run_end(s, j + 1, Class::Symbol));
        }
    }
}

pub proof fn lemma_namespace_window(s: Seq<char>, i: int, e: int, j: int)
    requires
        0 <= i <= j <= e <= s.len(),
        ends_name(s, e),
    ensures
        namespace_end(s, j) matches Some(n) ==> n <= e,
        namespace_end(s.subrange(i, e), j - i) == (match namespace_end(s, j) {
            Some(n) => Some(n - i),
            None => None::<int>,
        }),
{
    let x = s.subrange(i, e);
    if j < e {
        assert(x[j - i] == s[j]);
        if is_symbol_first(s[j]) {
            lemma_name_run_window(s, i, e, j + 1, Class::Symbol);
            lemma_run_end_bounds(s, j + 1, Class::Symbol);
            lemma_colon_tail_window(s, i, e, run_end(s, j + 1, Class::Symbol));
        }
    }
}

pub proof fn lemma_qualified_window(s: Seq<char>, i: int, e: int, n: int)
    requires
        0 <= i <= n <= e <= s.len(),
        ends_name(s, e),
    ensures
        qualified_name_end(s, n) matches Some(m) ==> m <= e,
        qualified_name_end(s.subrange(i, e), n - i) == (match qualified_name_end(s, n) {
            Some(m) => Some(m - i),
            None => None::<int>,
        }),
{
    let x = s.subrange(i, e);
    if n < e {
        assert(x[n - i] == s[n]);
        if n + 1 < e {
            assert(x[n + 1 - i] == s[n + 1]);
        }
        if at(s, n, '/') && at_class(s, n + 1, Class::Name) {
            lemma_name_run_window(s, i, e, n + 1, Class::Name);
        }
    }
}

/// A symbol read alone, from its own text, splits as it does in the text.
pub proof fn lemma_symbol_window(s: Seq<char>, i: int)
    requires
        0 <= i <= s.len(),
        symbol_parts(s, i) is Some,
    ensures
        ({
            let (ns, e) = symbol_parts(s, i)->0;
            symbol_parts(s.subrange(i, e), 0) == Some(
                (
                    match ns {
                        Some(n) => Some(n - i),
                        None => None::<int>,
                    },
                    e - i,
                ),
            )
        }),
{
    let (ns, e) = symbol_parts(s, i)->0;
    lemma_symbol_bounds(s, i);
    let x = s.subrange(i, e);
    assert(x[0] == s[i]);
    lemma_namespace_window(s, i, e, i);
    if let Some(n0) = namespace_end(s, i) {
        lemma_namespace_bounds(s, i);
        lemma_qualified_window(s, i, e, n0);
    }
}

/// A keyword read alone, from its own text, splits as it does in the text.
pub proof fn lemma_keyword_window(s: Seq<char>, i: int)
    requires
        0 <= i <= s.len(),
        keyword_parts(s, i) is Some,
    ensures
        ({
            let (alias, p, ns, e) = keyword_parts(s, i)->0;
            keyword_parts(s.subrange(i, e), 0) == Some(
                (
                    alias,
                    p - i,
                    match ns {
                        Some(n) => Some(n - i),
                        None => None::<int>,
                    },
                    e - i,
                ),
            )
        }),
{
    let (alias, p, ns, e) = keyword_parts(s, i)->0;
    lemma_keyword_bounds(s, i);
    let x = s.subrange(i, e);
    assert(x[0] == s[i]);
    assert(x[1] == s[i + 1]);
    lemma_run_end_bounds(s, p, Class::Name);
    if let Some(n0) = namespace_end(s, p) {
        lemma_namespace_bounds(s, p);
        if let Some(m) = qualified_name_end(s, n0) {
            lemma_run_end_bounds(s, n0 + 1, Class::Name);
        }
    }
    assert(ends_name(s, e));
    if p < e {
        assert(x[p - i] == s[p]);
    }
    lemma_namespace_window(s, i, e, p);
    if let Some(n0) = namespace_end(s, p) {
        lemma_qualified_window(s, i, e, n0);
    }
    if at_class(s, p, Class::Name) {
        lemma_name_run_window(s, i, e, p, Class::Name);
    }
}

} // verus!
