//! The Clojure lexer: it walks the grammar of `grammar.rs` and emits a lexeme
//! for each token, whitespace run and comment it meets.
//!
//! Forms are numbered in the order their numbers are handed out: a form gets
//! its number when the lexer commits to reading it, and whitespace and
//! comments each get one of their own.  A lexeme records the number of its
//! form and of the form that contains it (0 for the top level).

use vstd::prelude::*;

use super::atoms::{
    char_end, char_reads, fragments_view, lit_at, number_class_at, numeric_reads,
    string_fragments, literal_at, number_end,
    regex_end, scan_char, scan_comment, scan_number, scan_regex, scan_string, scan_word, skip_end,
    string_end, text,
};
use super::grammar::{
    accepts, body_end, conditional_prefix_end, discarded_end, element_end, expr_end,
    false_word, form_end, map_qualifier_end, meta_end, meta_prefix_end, nil_word, opening,
    plain_atom_end, quote_end, quote_prefix_end, tagged_end, top_end, true_word,
};
use super::scanner::{
    at, at_class, char_at, class_at, is_dec_digit, is_name_char, is_ws, keyword_parts, opt_pos,
    scan_keyword, scan_namespace, scan_run, scan_symbol, symbol_parts, Class,
};
use super::lexing::{
    body_lx, conditional_lx, map_lx, discarded_lx, element_lx, expr_lx, form_lx, lexing, lv, meta_lx,
    open_kinds, plain_kind, quote_kind, quote_lx, skip_lx, tagged_lx, token_kind, top_lx,
    LexemeView, TokenKind,
};
use super::types::{Error, Lexeme, Source, SymbolicValue, Token};
use crate::text::chars_of;

verus! {

/// The line (from 1) of position `a`: one more than the newlines before it.
pub open spec fn line_at(s: Seq<char>, a: int) -> int
    decreases a,
{
    if a <= 0 {
        1
    } else if s[a - 1] == '\n' {
        line_at(s, a - 1) + 1
    } else {
        line_at(s, a - 1)
    }
}

/// The column (from 1) of position `a`: one more than the characters between
/// it and the last newline before it.
pub open spec fn column_at(s: Seq<char>, a: int) -> int
    decreases a,
{
    if a <= 0 {
        1
    } else if s[a - 1] == '\n' {
        1
    } else {
        column_at(s, a - 1) + 1
    }
}

/// Whether `src` is the text of `s` from `a` to `b`, with the line and column
/// of `a`.
pub open spec fn source_of(s: Seq<char>, src: Source, a: int, b: int) -> bool {
    &&& 0 <= a <= b <= s.len()
    &&& src.str@ == s.subrange(a, b)
    &&& src.line == line_at(s, a)
    &&& src.column == column_at(s, a)
}

/// The text of a name with its namespace, if it has one: `ns/name`.
pub open spec fn qualified_text(namespace: Option<String>, name: String) -> Seq<char> {
    match namespace {
        Some(ns) => ns@ + seq!['/'] + name@,
        None => name@,
    }
}

/// The text of an optional piece, empty where there is none.
pub open spec fn opt_text(o: Option<String>) -> Seq<char> {
    match o {
        Some(t) => t@,
        None => Seq::empty(),
    }
}

/// Where a namespace that starts at `start` ends, where there is one.
pub open spec fn namespace_end_at(start: int, namespace: Option<String>) -> Option<int> {
    match namespace {
        Some(t) => Some(start + t@.len()),
        None => None,
    }
}

/// The name of a symbolic value: `Inf`, `-Inf`, `NaN` or any other.
pub open spec fn symbolic_text(v: SymbolicValue) -> Seq<char> {
    match v {
        SymbolicValue::PosInf => seq!['I', 'n', 'f'],
        SymbolicValue::NegInf => seq!['-', 'I', 'n', 'f'],
        SymbolicValue::NaN => seq!['N', 'a', 'N'],
        SymbolicValue::Other(t) => t@,
    }
}

/// Whether `x` is a text that the token `t` reads: the text that the token
/// stands for, or, for a token with a value, a text that gives that value
/// (a number's digits and radix, a character's code, a string's raw text and
/// decoded pieces, a symbolic value's name).  The prefixes of metadata,
/// symbolic values and tagged literals say how their text starts.
pub open spec fn token_reads(t: Token, x: Seq<char>) -> bool {
    match t {
        Token::Whitespace => x.len() > 0 && forall|k: int| 0 <= k < x.len() ==> is_ws(#[trigger] x[k]),
        Token::Comment => x.len() > 0 && (x[0] == ';' || (x.len() >= 2 && x[0] == '#' && x[1]
            == '!')) && forall|k: int| 0 <= k < x.len() ==> #[trigger] x[k] != '\n',
        Token::Meta { .. } => x == seq!['^'] || x == seq!['#', '^'],
        Token::Discard => x == seq!['#', '_'],
        Token::Quote => x == seq!['\''],
        Token::VarQuote => x == seq!['#', '\''],
        Token::Synquote => x == seq!['`'],
        Token::Unquote => x == seq!['~'],
        Token::SplicingUnquote => x == seq!['~', '@'],
        Token::Nil => x == seq!['n', 'i', 'l'],
        Token::Boolean { value } => x == (if value {
            seq!['t', 'r', 'u', 'e']
        } else {
            seq!['f', 'a', 'l', 's', 'e']
        }),
        Token::Numeric { class, .. } => x.len() > 0 && (is_dec_digit(x[0]) || x[0] == '+' || x[0]
            == '-') && numeric_reads(t, x) && class == number_class_at(x, 0),
        Token::Char { syntax, value } => char_reads(syntax, value, x),
        Token::String { raw_value, value } => x.len() >= 2 && x[0] == '"' && x[x.len() - 1]
            == '"' && raw_value@ == x.subrange(1, x.len() - 1) && fragments_view(value@)
            == string_fragments(x, 1),
        Token::Regex { raw_value } => x.len() >= 3 && x[0] == '#' && x[1] == '"' && x[x.len() - 1]
            == '"' && raw_value@ == x.subrange(2, x.len() - 1),
        Token::SymbolicValuePrefix => x.len() >= 2 && x[0] == '#' && x[1] == '#',
        Token::SymbolicValue { value } => {
            let n = symbolic_text(value);
            let k = x.len() - n.len();
            &&& x.len() >= 3 && x[0] == '#' && x[1] == '#'
            &&& n.len() > 0 && k >= 2 && x.skip(k) == n
            &&& symbol_parts(n, 0) == Some((None::<int>, n.len() as int))
            &&& (k == 2 || !is_name_char(x[k - 1]))
            &&& value is Other ==> !(n == seq!['I', 'n', 'f'] || n == seq!['-', 'I', 'n', 'f'] || n
                == seq!['N', 'a', 'N'])
        },
        Token::Symbol { namespace, name } => x == qualified_text(namespace, name) && symbol_parts(
            x,
            0,
        ) == Some((namespace_end_at(0, namespace), x.len() as int)),
        Token::Tag { namespace, name } => x == qualified_text(namespace, name) && symbol_parts(x, 0)
            == Some((namespace_end_at(0, namespace), x.len() as int)),
        Token::Keyword { alias, namespace, name } => {
            let pre: int = if alias {
                2
            } else {
                1
            };
            &&& x == (if alias {
                seq![':', ':']
            } else {
                seq![':']
            }) + qualified_text(namespace, name)
            &&& keyword_parts(x, 0) == Some(
                (alias, pre, namespace_end_at(pre, namespace), x.len() as int),
            )
        },
        Token::StartList => x == seq!['('],
        Token::EndList => x == seq![')'],
        Token::StartVector => x == seq!['['],
        Token::EndVector => x == seq![']'],
        Token::StartSet => x == seq!['#', '{'],
        Token::EndSet => x == seq!['}'],
        Token::MapQualifier { alias, namespace } => x == (if alias {
            seq!['#', ':', ':']
        } else {
            seq!['#', ':']
        }) + opt_text(namespace) && (namespace matches Some(t) ==> t@.len() > 0),
        Token::StartMap => x == seq!['{'],
        Token::EndMap => x == seq!['}'],
        Token::StartAnonymousFn => x == seq!['#', '('],
        Token::EndAnonymousFn => x == seq![')'],
        Token::ReaderConditionalPrefix { splicing } => x == (if splicing {
            seq!['#', '?', '@']
        } else {
            seq!['#', '?']
        }),
        Token::StartReaderConditional => x == seq!['('],
        Token::EndReaderConditional => x == seq![')'],
        Token::TaggedLiteral { .. } => x.len() > 0 && x[0] == '#',
        Token::Residual { .. } => false,
    }
}

/// What every lexeme of `s` satisfies, where its text lies from `sp.0` to
/// `sp.1`: it belongs to a form that is nested in its parent form, which was
/// numbered before it, and its source is that piece of `s`, at its line and
/// column.
pub open spec fn lexeme_at(s: Seq<char>, l: Lexeme, sp: (int, int)) -> bool {
    &&& l.parent_ix < l.form_ix
    &&& l.source matches Some(src) && source_of(s, src, sp.0, sp.1)
    &&& token_reads(l.token, s.subrange(sp.0, sp.1))
}

/// Position `p` lies in one of the spans from the `n`th on.
pub open spec fn covered_at(sp: Seq<(int, int)>, n: int, p: int) -> bool {
    exists|k: int| n <= k < sp.len() && #[trigger] sp[k].0 <= p < sp[k].1
}

/// Every character from `a` to `b` lies in one of the spans from the `n`th
/// on.
pub open spec fn covers(sp: Seq<(int, int)>, n: int, a: int, b: int) -> bool {
    forall|p: int| a <= p < b ==> #[trigger] covered_at(sp, n, p)
}

/// The lexemes of `s`, read from the spans `sp`: each lexeme is read from
/// its span, and every character of `s` lies in a span.
pub open spec fn lexed_by(s: Seq<char>, ls: Seq<Lexeme>, sp: Seq<(int, int)>) -> bool {
    &&& sp.len() == ls.len()
    &&& forall|k: int| 0 <= k < ls.len() ==> lexeme_at(s, #[trigger] ls[k], sp[k])
    &&& covers(sp, 0, 0, s.len() as int)
}

/// The lexeme `l` is the lexeme `v` of the text `s`: it has `v`'s form
/// numbers and kind, and is read from `v`'s span.
pub open spec fn lexeme_is(s: Seq<char>, l: Lexeme, v: LexemeView) -> bool {
    &&& l.parent_ix == v.parent
    &&& l.form_ix == v.form
    &&& token_kind(l.token) == v.kind
    &&& lexeme_at(s, l, (v.start, v.end))
}

/// `ls` are the lexemes of `s`: one for each lexeme of its lexing, in order.
pub open spec fn lexemes_are(s: Seq<char>, ls: Seq<Lexeme>) -> bool {
    &&& ls.len() == lexing(s).len()
    &&& forall|k: int| 0 <= k < ls.len() ==> lexeme_is(s, #[trigger] ls[k], lexing(s)[k])
}

/// Whether `ls` are lexemes of `s` that, together, take in all of it.
pub open spec fn lexed(s: Seq<char>, ls: Seq<Lexeme>) -> bool {
    exists|sp: Seq<(int, int)>| #[trigger] lexed_by(s, ls, sp)
}

struct Input {
    chars: Vec<char>,
    lines: Vec<u32>,
    cols: Vec<u32>,
}

struct Out {
    lexemes: Vec<Lexeme>,
    count: u32,
    /// Where the text of each lexeme lies in the input.
    spans: Ghost<Seq<(int, int)>>,
}

/// A bound on the length of the lexer's input: form numbers are 32-bit and
/// the lexer hands out at most three per character, so below it no form
/// number can overflow.
pub open spec fn max_input() -> int {
    0x5555_5555
}

impl Input {
    spec fn wf(&self) -> bool {
        &&& self.chars.len() < max_input()
        &&& self.lines.len() == self.chars.len() + 1
        &&& self.cols.len() == self.chars.len() + 1
        &&& forall|a: int|
            0 <= a <= self.chars.len() ==> #[trigger] self.lines@[a] == line_at(self.chars@, a)
                && self.cols@[a] == column_at(self.chars@, a)
    }
}

proof fn lemma_line_column_bounds(s: Seq<char>, a: int)
    requires
        0 <= a,
    ensures
        1 <= line_at(s, a) <= a + 1,
        1 <= column_at(s, a) <= a + 1,
    decreases a,
{
    if a > 0 {
        lemma_line_column_bounds(s, a - 1);
    }
}

fn new_input(input: &str) -> (r: Input)
    requires
        input@.len() < max_input(),
    ensures
        r.wf(),
        r.chars@ == input@,
{
    let chars = chars_of(input);
    let mut lines: Vec<u32> = Vec::new();
    let mut cols: Vec<u32> = Vec::new();
    let mut line: u32 = 1;
    let mut col: u32 = 1;
    let mut a: usize = 0;
    while a <= chars.len()
        invariant
            chars@ == input@,
            chars.len() < max_input(),
            a <= chars.len() + 1,
            lines.len() == a,
            cols.len() == a,
            a <= chars.len() ==> line == line_at(chars@, a as int) && col == column_at(
                chars@,
                a as int,
            ),
            forall|q: int|
                0 <= q < a ==> #[trigger] lines@[q] == line_at(chars@, q) && cols@[q]
                    == column_at(chars@, q),
        decreases chars.len() + 1 - a,
    {
        lines.push(line);
        cols.push(col);
        if a < chars.len() {
            proof {
                lemma_line_column_bounds(chars@, a as int);
            }
            if chars[a] == '\n' {
                line = line + 1;
                col = 1;
            } else {
                col = col + 1;
            }
        }
        a = a + 1;
    }
    Input { chars, lines, cols }
}

/// A lexeme read from the span `sp`, as plain values.
pub open spec fn lv_of(l: Lexeme, sp: (int, int)) -> LexemeView {
    lv(l.parent_ix as int, l.form_ix as int, token_kind(l.token), sp.0, sp.1)
}

spec fn lvs(ls: Seq<Lexeme>, sp: Seq<(int, int)>) -> Seq<LexemeView> {
    Seq::new(ls.len(), |k: int| lv_of(ls[k], sp[k]))
}

/// `b` is `a` with the lexemes of `x.0` added, and `x.1` the last form number
/// handed out.
spec fn grew(a: Out, b: Out, x: (Seq<LexemeView>, int)) -> bool {
    &&& lvs(b.lexemes@, b.spans@) == lvs(a.lexemes@, a.spans@) + x.0
    &&& b.count == x.1
}

proof fn lemma_grew_trans(a: Out, b: Out, c: Out, x: (Seq<LexemeView>, int), y: (Seq<LexemeView>, int))
    requires
        grew(a, b, x),
        grew(b, c, y),
    ensures
        grew(a, c, (x.0 + y.0, y.1)),
{
    assert(lvs(a.lexemes@, a.spans@) + x.0 + y.0 =~= lvs(a.lexemes@, a.spans@) + (x.0 + y.0));
}

proof fn lemma_grew_fresh(a: Out, b: Out)
    requires
        a.lexemes@ == b.lexemes@,
        a.spans@ == b.spans@,
    ensures
        grew(a, b, (Seq::empty(), b.count as int)),
{
    assert(lvs(a.lexemes@, a.spans@) + Seq::<LexemeView>::empty() =~= lvs(b.lexemes@, b.spans@));
}

spec fn lexeme_wf(s: Seq<char>, l: Lexeme, sp: (int, int), count: int) -> bool {
    &&& l.parent_ix < l.form_ix
    &&& l.form_ix <= count
    &&& l.source matches Some(src) && source_of(s, src, sp.0, sp.1)
    &&& token_reads(l.token, s.subrange(sp.0, sp.1))
}

spec fn ok(s: Seq<char>, out: Out) -> bool {
    &&& out.spans@.len() == out.lexemes.len()
    &&& forall|k: int|
        0 <= k < out.lexemes.len() ==> lexeme_wf(
            s,
            #[trigger] out.lexemes@[k],
            out.spans@[k],
            out.count as int,
        )
}

/// `b` is `a` with spans added after it.
spec fn sp_extends(a: Seq<(int, int)>, b: Seq<(int, int)>) -> bool {
    &&& a.len() <= b.len()
    &&& forall|k: int| 0 <= k < a.len() ==> b[k] == a[k]
}

/// `b` is `a` with lexemes added after it.
spec fn extends(a: Seq<Lexeme>, b: Seq<Lexeme>) -> bool {
    &&& a.len() <= b.len()
    &&& forall|k: int| 0 <= k < a.len() ==> b[k] == a[k]
}

proof fn lemma_covers_join(sp1: Seq<(int, int)>, sp2: Seq<(int, int)>, n: int, a: int, b: int, c: int)
    requires
        covers(sp1, n, a, b),
        covers(sp2, sp1.len() as int, b, c),
        sp_extends(sp1, sp2),
        0 <= n <= sp1.len(),
    ensures
        covers(sp2, n, a, c),
{
    assert forall|p: int| a <= p < c implies covered_at(sp2, n, p) by {
        if p < b {
            assert(covered_at(sp1, n, p));
            let k = choose|k: int| n <= k < sp1.len() && #[trigger] sp1[k].0 <= p < sp1[k].1;
            assert(sp2[k] == sp1[k]);
            assert(n <= k < sp2.len() && sp2[k].0 <= p < sp2[k].1);
        } else {
            assert(covered_at(sp2, sp1.len() as int, p));
            let k = choose|k: int| sp1.len() <= k < sp2.len() && #[trigger] sp2[k].0 <= p < sp2[k].1;
            assert(n <= k < sp2.len() && sp2[k].0 <= p < sp2[k].1);
        }
    }
}

proof fn lemma_covers_widen(sp: Seq<(int, int)>, n: int, a: int, b: int, k: int, w: (int, int))
    requires
        covers(sp, n, a, b),
        0 <= n <= k < sp.len(),
        w.0 <= sp[k].0,
        sp[k].1 <= w.1,
    ensures
        covers(sp.update(k, w), n, a, b),
{
    let sp2 = sp.update(k, w);
    assert forall|p: int| a <= p < b implies covered_at(sp2, n, p) by {
        assert(covered_at(sp, n, p));
        let q = choose|q: int| n <= q < sp.len() && #[trigger] sp[q].0 <= p < sp[q].1;
        if q == k {
            assert(sp2[k] == w);
        } else {
            assert(sp2[q] == sp[q]);
        }
        assert(n <= q < sp2.len() && sp2[q].0 <= p < sp2[q].1);
    }
}

proof fn lemma_covers_last(sp: Seq<(int, int)>, a: int, b: int)
    ensures
        covers(sp.push((a, b)), sp.len() as int, a, b),
        sp_extends(sp, sp.push((a, b))),
{
    let sp2 = sp.push((a, b));
    assert forall|p: int| a <= p < b implies covered_at(sp2, sp.len() as int, p) by {
        let k = sp.len() as int;
        assert(sp2[k] == (a, b));
        assert(sp.len() <= k < sp2.len() && sp2[k].0 <= p < sp2[k].1);
    }
}

proof fn lemma_covers_from(sp: Seq<(int, int)>, n: int, m: int, a: int, b: int)
    requires
        covers(sp, m, a, b),
        n <= m,
    ensures
        covers(sp, n, a, b),
{
    assert forall|p: int| a <= p < b implies covered_at(sp, n, p) by {
        assert(covered_at(sp, m, p));
        let k = choose|k: int| m <= k < sp.len() && #[trigger] sp[k].0 <= p < sp[k].1;
        assert(n <= k < sp.len() && sp[k].0 <= p < sp[k].1);
    }
}

/// Whether the form numbers still to be handed out for the input from `i` on
/// fit in a `u32`, at three per character, with `k` to spare.
spec fn room(count: int, len: int, i: int, k: int) -> bool {
    count + 3 * (len - i) + k <= 0xFFFF_FFFF
}

/// Hands out the next form number.
fn fresh(out: &mut Out) -> (ix: u32)
    requires
        old(out).count < 0xFFFF_FFFF,
    ensures
        final(out).count == old(out).count + 1,
        ix == final(out).count,
        final(out).lexemes == old(out).lexemes,
        final(out).spans == old(out).spans,
{
    out.count = out.count + 1;
    out.count
}

proof fn lemma_ok_grows(s: Seq<char>, out: Out, count: u32)
    requires
        ok(s, out),
        out.count <= count,
    ensures
        ok(s, Out { lexemes: out.lexemes, count, spans: out.spans }),
{
}

fn source(inp: &Input, a: usize, b: usize) -> (src: Source)
    requires
        inp.wf(),
        a <= b <= inp.chars.len(),
    ensures
        source_of(inp.chars@, src, a as int, b as int),
{
    Source { line: inp.lines[a], column: inp.cols[a], str: text(inp.chars.as_slice(), a, b) }
}

/// Adds a lexeme for `token` with the text from `a` to `b`.
fn emit(inp: &Input, out: &mut Out, a: usize, b: usize, token: Token, parent: u32, ix: u32)
    requires
        inp.wf(),
        ok(inp.chars@, *old(out)),
        a <= b <= inp.chars.len(),
        parent < ix <= old(out).count,
        token_reads(token, inp.chars@.subrange(a as int, b as int)),
    ensures
        final(out).count == old(out).count,
        ok(inp.chars@, *final(out)),
        extends(old(out).lexemes@, final(out).lexemes@),
        final(out).lexemes.len() == old(out).lexemes.len() + 1,
        final(out).spans@ == old(out).spans@.push((a as int, b as int)),
        final(out).lexemes@.last().token == token,
        grew(*old(out), *final(out), (seq![lv(parent as int, ix as int, token_kind(token), a as int, b as int)], old(out).count as int)),
{
    let src = source(inp, a, b);
    let l = Lexeme { parent_ix: parent, form_ix: ix, token, source: Some(src) };
    assert(source_of(inp.chars@, l.source->0, a as int, b as int));
    out.lexemes.push(l);
    out.spans = Ghost(out.spans@.push((a as int, b as int)));
    assert(lexeme_wf(inp.chars@, out.lexemes@.last(), out.spans@.last(), out.count as int));
    assert(lvs(out.lexemes@, out.spans@) =~= lvs(old(out).lexemes@, old(out).spans@) + seq![lv(parent as int, ix as int, token_kind(token), a as int, b as int)]);
}

/// Replaces the source of the lexeme at `k` with the text from `a` to `b`,
/// which takes in its old text.
fn widen(inp: &Input, out: &mut Out, k: usize, a: usize, b: usize, token: Token)
    requires
        inp.wf(),
        ok(inp.chars@, *old(out)),
        k < old(out).lexemes.len(),
        a <= b <= inp.chars.len(),
        a <= old(out).spans@[k as int].0,
        old(out).spans@[k as int].1 <= b,
        token_reads(token, inp.chars@.subrange(a as int, b as int)),
    ensures
        final(out).count == old(out).count,
        ok(inp.chars@, *final(out)),
        final(out).lexemes.len() == old(out).lexemes.len(),
        forall|q: int| 0 <= q < final(out).lexemes.len() && q != k ==> final(out).lexemes@[q] == old(out).lexemes@[q],
        final(out).lexemes@[k as int].token == token,
        final(out).spans@ == old(out).spans@.update(k as int, (a as int, b as int)),
        lvs(final(out).lexemes@, final(out).spans@) == lvs(old(out).lexemes@, old(out).spans@).update(
            k as int,
            lv(old(out).lexemes@[k as int].parent_ix as int, old(out).lexemes@[k as int].form_ix as int, token_kind(token), a as int, b as int),
        ),
        final(out).count == old(out).count,
{
    let src = source(inp, a, b);
    let l = Lexeme {
        parent_ix: out.lexemes[k].parent_ix,
        form_ix: out.lexemes[k].form_ix,
        token,
        source: Some(src),
    };
    assert(lexeme_wf(inp.chars@, out.lexemes@[k as int], out.spans@[k as int], out.count as int));
    assert(source_of(inp.chars@, l.source->0, a as int, b as int));
    out.lexemes.set(k, l);
    out.spans = Ghost(out.spans@.update(k as int, (a as int, b as int)));
    assert(lexeme_wf(inp.chars@, out.lexemes@[k as int], out.spans@[k as int], out.count as int));
    assert(lvs(out.lexemes@, out.spans@) =~= lvs(old(out).lexemes@, old(out).spans@).update(
        k as int,
        lv(old(out).lexemes@[k as int].parent_ix as int, old(out).lexemes@[k as int].form_ix as int, token_kind(token), a as int, b as int),
    ));
}

/// Undoes what an attempt that failed added.
fn restore(
    out: &mut Out,
    len: usize,
    count: u32,
    Ghost(before): Ghost<Seq<Lexeme>>,
    Ghost(before_spans): Ghost<Seq<(int, int)>>,
)
    requires
        len == before.len(),
        extends(before, old(out).lexemes@),
    ensures
        final(out).lexemes@ == before,
        final(out).count == count,
        final(out).spans@ == before_spans,
{
    out.lexemes.truncate(len);
    out.count = count;
    out.spans = Ghost(before_spans);
    assert(out.lexemes@ =~= before);
}

/// Skips whitespace and comments from `i` on, emitting a lexeme, with a form
/// number of its own, for each run of whitespace and each comment.
fn skip(inp: &Input, out: &mut Out, i: usize, parent: u32) -> (j: usize)
    requires
        inp.wf(),
        ok(inp.chars@, *old(out)),
        i <= inp.chars.len(),
        parent <= old(out).count,
        room(old(out).count as int, inp.chars.len() as int, i as int, 3),
    ensures
        j == skip_end(inp.chars@, i as int),
        i <= j <= inp.chars.len(),
        ok(inp.chars@, *final(out)),
        extends(old(out).lexemes@, final(out).lexemes@),
        sp_extends(old(out).spans@, final(out).spans@),
        covers(final(out).spans@, old(out).lexemes.len() as int, i as int, j as int),
        old(out).count <= final(out).count <= old(out).count + (j - i),
        grew(*old(out), *final(out), skip_lx(inp.chars@, i as int, parent as int, old(out).count as int)),
{
    let s = inp.chars.as_slice();
    let mut j = i;
    while j < s.len()
        invariant
            inp.wf(),
            s@ == inp.chars@,
            i <= j <= s.len(),
            skip_end(s@, j as int) == skip_end(s@, i as int),
            ok(s@, *out),
            extends(old(out).lexemes@, out.lexemes@),
            sp_extends(old(out).spans@, out.spans@),
            old(out).spans@.len() == old(out).lexemes.len(),
            covers(out.spans@, old(out).lexemes.len() as int, i as int, j as int),
            parent <= old(out).count <= out.count <= old(out).count + (j - i),
            room(old(out).count as int, s.len() as int, i as int, 3),
            lvs(out.lexemes@, out.spans@) + skip_lx(s@, j as int, parent as int, out.count as int).0
                == lvs(old(out).lexemes@, old(out).spans@) + skip_lx(s@, i as int, parent as int, old(out).count as int).0,
            skip_lx(s@, j as int, parent as int, out.count as int).1 == skip_lx(s@, i as int, parent as int, old(out).count as int).1,
        decreases s.len() - j,
    {
        let ghost prev = out.spans@;
        let ghost lv0 = lvs(out.lexemes@, out.spans@);
        let ghost c0 = out.count as int;
        if class_at(s, j, Class::Ws) {
            let k = scan_run(s, j, Class::Ws);
            proof {
                super::scanner::lemma_run_end_bounds(s@, j as int, Class::Ws);
                let x = s@.subrange(j as int, k as int);
                assert forall|q: int| 0 <= q < x.len() implies is_ws(#[trigger] x[q]) by {
                    assert(x[q] == s@[j + q]);
                    assert(super::scanner::in_class(Class::Ws, s@[j + q]));
                }
            }
            let ix = fresh(out);
            proof {
                lemma_ok_grows(s@, Out { lexemes: out.lexemes, count: (out.count - 1) as u32, spans: out.spans }, out.count);
            }
            emit(inp, out, j, k, Token::Whitespace, parent, ix);
            proof {
                super::scanner::lemma_run_end_bounds(s@, j as int, Class::Ws);
                assert(lvs(out.lexemes@, out.spans@) + skip_lx(s@, k as int, parent as int, out.count as int).0
                    =~= lv0 + skip_lx(s@, j as int, parent as int, c0).0);
                lemma_covers_last(prev, j as int, k as int);
                lemma_covers_join(prev, out.spans@, old(out).lexemes.len() as int, i as int, j as int, k as int);
            }
            j = k;
        } else {
            match scan_comment(s, j) {
                Some(k) => {
                    let ix = fresh(out);
                    proof {
                        lemma_ok_grows(s@, Out { lexemes: out.lexemes, count: (out.count - 1) as u32, spans: out.spans }, out.count);
                        let x = s@.subrange(j as int, k as int);
                        assert(x[0] == s@[j as int]);
                        if !at(s@, j as int, ';') {
                            super::scanner::lemma_run_end_bounds(s@, j + 2, Class::Line);
                            assert(x[1] == s@[j + 1]);
                        } else {
                            super::scanner::lemma_run_end_bounds(s@, j + 1, Class::Line);
                        }
                        assert forall|q: int| 0 <= q < x.len() implies #[trigger] x[q] != '\n' by {
                            assert(x[q] == s@[j + q]);
                        }
                    }
                    emit(inp, out, j, k, Token::Comment, parent, ix);
                    proof {
                        super::atoms::lemma_comment_bounds(s@, j as int);
                        assert(!at_class(s@, j as int, Class::Ws));
                        assert(lvs(out.lexemes@, out.spans@) + skip_lx(s@, k as int, parent as int, out.count as int).0
                            =~= lv0 + skip_lx(s@, j as int, parent as int, c0).0);
                        lemma_covers_last(prev, j as int, k as int);
                        lemma_covers_join(prev, out.spans@, old(out).lexemes.len() as int, i as int, j as int, k as int);
                    }
                    j = k;
                },
                None => {
                    return j;
                },
            }
        }
    }
    j
}

/// Where the whitespace and comments from `i` on end, without emitting
/// anything.
fn skip_over(s: &[char], i: usize) -> (j: usize)
    requires
        i <= s.len(),
    ensures
        j == skip_end(s@, i as int),
        i <= j <= s.len(),
{
    let mut j = i;
    while j < s.len()
        invariant
            i <= j <= s.len(),
            skip_end(s@, j as int) == skip_end(s@, i as int),
        decreases s.len() - j,
    {
        if class_at(s, j, Class::Ws) {
            proof {
                super::scanner::lemma_run_end_bounds(s@, j as int, Class::Ws);
            }
            j = scan_run(s, j, Class::Ws);
        } else {
            match scan_comment(s, j) {
                Some(k) => {
                    j = k;
                },
                None => {
                    return j;
                },
            }
        }
    }
    j
}

/// Scans a plain atom starting at `i`; gives its end and token.
fn plain_atom(s: &[char], i: usize) -> (r: Option<(usize, Token)>)
    requires
        i <= s.len(),
    ensures
        match r {
            Some((e, _)) => plain_atom_end(s@, i as int) == Some(e as int),
            None => plain_atom_end(s@, i as int) is None,
        },
        r matches Some((e, t)) ==> i < e <= s.len() && token_reads(t, s@.subrange(i as int, e as int)),
        r matches Some((_, t)) ==> token_kind(t) == plain_kind(s@, i as int),
{
    let nil = vec!['n', 'i', 'l'];
    let tru = vec!['t', 'r', 'u', 'e'];
    let fal = vec!['f', 'a', 'l', 's', 'e'];
    assert(nil@ == nil_word());
    assert(tru@ == true_word());
    assert(fal@ == false_word());
    if let Some(e) = scan_word(s, i, nil.as_slice()) {
        assert(s@.subrange(i as int, e as int) == nil@);
        return Some((e, Token::Nil));
    }
    if let Some(e) = scan_word(s, i, tru.as_slice()) {
        assert(s@.subrange(i as int, e as int) == tru@);
        return Some((e, Token::Boolean { value: true }));
    }
    if let Some(e) = scan_word(s, i, fal.as_slice()) {
        assert(s@.subrange(i as int, e as int) == fal@);
        return Some((e, Token::Boolean { value: false }));
    }
    if let Some(r) = scan_number(s, i) {
        proof {
            super::atoms::lemma_number_bounds(s@, i as int);
            assert(s@.subrange(i as int, r.0 as int)[0] == s@[i as int]);
        }
        return Some(r);
    }
    if let Some(r) = scan_char(s, i) {
        proof {
            super::atoms::lemma_char_bounds(s@, i as int);
        }
        return Some(r);
    }
    if let Some(r) = scan_string(s, i) {
        proof {
            super::atoms::lemma_string_rest_bounds(s@, i + 1);
            super::atoms::lemma_string_fragments_window(s@, i as int, i + 1);
            let x = s@.subrange(i as int, r.0 as int);
            assert(x[0] == s@[i as int]);
            assert(x[x.len() - 1] == s@[r.0 - 1]);
            assert(x.subrange(1, x.len() - 1) =~= s@.subrange(i + 1, r.0 - 1));
        }
        return Some(r);
    }
    let r = scan_regex(s, i);
    proof {
        if let Some((e, _)) = r {
            super::atoms::lemma_regex_rest_bounds(s@, i + 2);
            let x = s@.subrange(i as int, e as int);
            assert(x[0] == s@[i as int]);
            assert(x[1] == s@[i + 1]);
            assert(x[x.len() - 1] == s@[e - 1]);
            assert(x.subrange(2, x.len() - 1) =~= s@.subrange(i + 2, e - 1));
        }
    }
    r
}

/// The value of a symbolic value whose name is the text from `a` to `b`.
fn symbolic_value(s: &[char], a: usize, b: usize) -> (v: SymbolicValue)
    requires
        a <= b <= s.len(),
    ensures
        symbolic_text(v) == s@.subrange(a as int, b as int),
        v is Other ==> !(symbolic_text(v) == seq!['I', 'n', 'f'] || symbolic_text(v) == seq![
            '-',
            'I',
            'n',
            'f',
        ] || symbolic_text(v) == seq!['N', 'a', 'N']),
{
    let inf = vec!['I', 'n', 'f'];
    let neg_inf = vec!['-', 'I', 'n', 'f'];
    let nan = vec!['N', 'a', 'N'];
    assert(inf@ == seq!['I', 'n', 'f']);
    assert(neg_inf@ == seq!['-', 'I', 'n', 'f']);
    assert(nan@ == seq!['N', 'a', 'N']);
    if b - a == 3 && literal_at(s, a, inf.as_slice()) {
        SymbolicValue::PosInf
    } else if b - a == 4 && literal_at(s, a, neg_inf.as_slice()) {
        SymbolicValue::NegInf
    } else if b - a == 3 && literal_at(s, a, nan.as_slice()) {
        SymbolicValue::NaN
    } else {
        let t = text(s, a, b);
        assert(t@ != seq!['I', 'n', 'f']) by {
            if t@.len() == 3 {
                assert(!lit_at(s@, a as int, inf@));
            }
        }
        assert(t@ != seq!['-', 'I', 'n', 'f']) by {
            if t@.len() == 4 {
                assert(!lit_at(s@, a as int, neg_inf@));
            }
        }
        assert(t@ != seq!['N', 'a', 'N']) by {
            if t@.len() == 3 {
                assert(!lit_at(s@, a as int, nan@));
            }
        }
        SymbolicValue::Other(t)
    }
}

/// The namespace and name of a symbol or keyword whose namespace, if any,
/// runs from `p` to `ns`, and whose name ends at `e`.
fn names(s: &[char], p: usize, ns: Option<usize>, e: usize) -> (r: (Option<String>, String))
    requires
        ns matches Some(n) ==> p < n < e,
        p <= e <= s.len(),
    ensures
        match ns {
            Some(n) => r.0 matches Some(t) && t@ == s@.subrange(p as int, n as int) && r.1@
                == s@.subrange(n + 1, e as int),
            None => r.0 is None && r.1@ == s@.subrange(p as int, e as int),
        },
{
    match ns {
        Some(n) => (Some(text(s, p, n)), text(s, n + 1, e)),
        None => (None, text(s, p, e)),
    }
}

/// The prefix of a quoted or unquoted form at `i`: its end and token.
fn quote_prefix(s: &[char], i: usize) -> (r: Option<(usize, Token)>)
    requires
        i <= s.len(),
    ensures
        match r {
            Some((p, _)) => quote_prefix_end(s@, i as int) == Some(p as int),
            None => quote_prefix_end(s@, i as int) is None,
        },
        r matches Some((p, t)) ==> i < p <= s.len() && token_reads(t, s@.subrange(i as int, p as int)),
        r matches Some((_, t)) ==> token_kind(t) == quote_kind(s@, i as int),
{
    if char_at(s, i, '\'') {
        assert(s@.subrange(i as int, i + 1) =~= seq!['\'']);
        Some((i + 1, Token::Quote))
    } else if char_at(s, i, '`') {
        assert(s@.subrange(i as int, i + 1) =~= seq!['`']);
        Some((i + 1, Token::Synquote))
    } else if char_at(s, i, '#') && char_at(s, i + 1, '\'') {
        assert(s@.subrange(i as int, i + 2) =~= seq!['#', '\'']);
        Some((i + 2, Token::VarQuote))
    } else if char_at(s, i, '~') && char_at(s, i + 1, '@') {
        assert(s@.subrange(i as int, i + 2) =~= seq!['~', '@']);
        Some((i + 2, Token::SplicingUnquote))
    } else if char_at(s, i, '~') {
        assert(s@.subrange(i as int, i + 1) =~= seq!['~']);
        Some((i + 1, Token::Unquote))
    } else {
        None
    }
}

fn meta_prefix(s: &[char], i: usize) -> (r: Option<usize>)
    requires
        i <= s.len(),
    ensures
        opt_pos(r) == meta_prefix_end(s@, i as int),
        r matches Some(p) ==> i < p <= s.len() && (s@.subrange(i as int, p as int) == seq!['^']
            || s@.subrange(i as int, p as int) == seq!['#', '^']),
{
    if char_at(s, i, '^') {
        Some(i + 1)
    } else if char_at(s, i, '#') && char_at(s, i + 1, '^') {
        Some(i + 2)
    } else {
        None
    }
}

/// The opening of a collection at `i`: its end, the closing character, and
/// the tokens of the opening and the closing.
fn open_collection(s: &[char], i: usize) -> (r: Option<(usize, char, Token, Token)>)
    requires
        i <= s.len(),
    ensures
        match r {
            Some((p, c, _, _)) => opening(s@, i as int) == Some((p as int, c)),
            None => opening(s@, i as int) is None,
        },
        r matches Some((p, c, start, end)) ==> i < p <= s.len() && token_reads(
            start,
            s@.subrange(i as int, p as int),
        ) && token_reads(end, seq![c]),
        r matches Some((_, _, start, end)) ==> token_kind(start) == open_kinds(s@, i as int).0
            && token_kind(end) == open_kinds(s@, i as int).1,
{
    if char_at(s, i, '(') {
        assert(s@.subrange(i as int, i + 1) =~= seq!['(']);
        Some((i + 1, ')', Token::StartList, Token::EndList))
    } else if char_at(s, i, '[') {
        assert(s@.subrange(i as int, i + 1) =~= seq!['[']);
        Some((i + 1, ']', Token::StartVector, Token::EndVector))
    } else if char_at(s, i, '#') && char_at(s, i + 1, '(') {
        assert(s@.subrange(i as int, i + 2) =~= seq!['#', '(']);
        Some((i + 2, ')', Token::StartAnonymousFn, Token::EndAnonymousFn))
    } else if char_at(s, i, '#') && char_at(s, i + 1, '{') {
        assert(s@.subrange(i as int, i + 2) =~= seq!['#', '{']);
        Some((i + 2, '}', Token::StartSet, Token::EndSet))
    } else if char_at(s, i, '{') {
        assert(s@.subrange(i as int, i + 1) =~= seq!['{']);
        Some((i + 1, '}', Token::StartMap, Token::EndMap))
    } else {
        None
    }
}

/// Lexes the form that starts at `i`, whose number is `ix` and whose parent
/// is `parent`.
fn form(inp: &Input, out: &mut Out, i: usize, parent: u32, ix: u32) -> (r: Option<usize>)
    requires
        inp.wf(),
        ok(inp.chars@, *old(out)),
        i <= inp.chars.len(),
        parent < ix <= old(out).count,
        room(old(out).count as int, inp.chars.len() as int, i as int, 2),
    ensures
        opt_pos(r) == form_end(inp.chars@, i as int),
        ok(inp.chars@, *final(out)),
        extends(old(out).lexemes@, final(out).lexemes@),
        sp_extends(old(out).spans@, final(out).spans@),
        old(out).count <= final(out).count,
        r matches Some(e) ==> i < e <= inp.chars.len() && final(out).count + 1 <= old(out).count
            + 3 * (e - i),
        r matches Some(e) ==> covers(final(out).spans@, old(out).lexemes.len() as int, i as int, e as int),
        r is Some ==> grew(*old(out), *final(out), form_lx(inp.chars@, i as int, parent as int, ix as int, old(out).count as int)),
    decreases inp.chars.len() - i, 2int,
{
    let s = inp.chars.as_slice();
    let ghost n = out.lexemes.len() as int;
    if char_at(s, i, '#') && char_at(s, i + 1, '_') {
        let ghost o0 = *out;
        let dix = fresh(out);
        let ghost o1 = *out;
        proof {
            lemma_ok_grows(s@, Out { lexemes: out.lexemes, count: (out.count - 1) as u32, spans: out.spans }, out.count);
            lemma_grew_fresh(o0, o1);
        }
        match discarded(inp, out, i, parent, dix) {
            Some(d) => {
                let ghost o2 = *out;
                let ghost sp1 = out.spans@;
                let j = skip(inp, out, d, parent);
                let ghost o3 = *out;
                let ghost sp2 = out.spans@;
                proof {
                    lemma_covers_join(sp1, sp2, n, i as int, d as int, j as int);
                }
                let r = form(inp, out, j, parent, ix);
                proof {
                    if let Some(e) = r {
                        lemma_covers_join(sp2, out.spans@, n, i as int, j as int, e as int);
                        let c = o0.count as int;
                        let a = discarded_lx(s@, i as int, parent as int, c + 1, c + 1);
                        let b = skip_lx(s@, d as int, parent as int, a.1);
                        let f = form_lx(s@, j as int, parent as int, ix as int, b.1);
                        lemma_grew_trans(o0, o1, o2, (Seq::empty(), c + 1), a);
                        lemma_grew_trans(o0, o2, o3, (Seq::<LexemeView>::empty() + a.0, a.1), b);
                        lemma_grew_trans(o0, o3, *out, (Seq::<LexemeView>::empty() + a.0 + b.0, b.1), f);
                        assert(Seq::<LexemeView>::empty() + a.0 + b.0 + f.0 =~= a.0 + b.0 + f.0);
                    }
                }
                r
            },
            None => None,
        }
    } else if quote_prefix(s, i).is_some() {
        quote(inp, out, i, parent, ix)
    } else if meta_prefix(s, i).is_some() {
        meta(inp, out, i, parent, ix)
    } else {
        expr(inp, out, i, parent, ix)
    }
}

/// Lexes the discarded form (`#_` and a form) at `i`, whose number is `ix`.
fn discarded(inp: &Input, out: &mut Out, i: usize, parent: u32, ix: u32) -> (r: Option<usize>)
    requires
        inp.wf(),
        ok(inp.chars@, *old(out)),
        i <= inp.chars.len(),
        parent < ix <= old(out).count,
        room(old(out).count as int, inp.chars.len() as int, i as int, 1),
    ensures
        opt_pos(r) == discarded_end(inp.chars@, i as int),
        ok(inp.chars@, *final(out)),
        extends(old(out).lexemes@, final(out).lexemes@),
        sp_extends(old(out).spans@, final(out).spans@),
        old(out).count <= final(out).count,
        r matches Some(e) ==> i < e <= inp.chars.len() && final(out).count + 2 <= old(out).count
            + 3 * (e - i),
        r matches Some(e) ==> covers(final(out).spans@, old(out).lexemes.len() as int, i as int, e as int),
        r is Some ==> grew(*old(out), *final(out), discarded_lx(inp.chars@, i as int, parent as int, ix as int, old(out).count as int)),
    decreases inp.chars.len() - i, 1int,
{
    let s = inp.chars.as_slice();
    if !(char_at(s, i, '#') && char_at(s, i + 1, '_')) {
        return None;
    }
    let ghost n = out.lexemes.len() as int;
    let ghost sp0 = out.spans@;
    let ghost o0 = *out;
    assert(s@.subrange(i as int, i + 2) =~= seq!['#', '_']);
    emit(inp, out, i, i + 2, Token::Discard, parent, ix);
    let ghost o1 = *out;
    let ghost sp1 = out.spans@;
    proof {
        lemma_covers_last(sp0, i as int, (i + 2) as int);
    }
    let j = skip(inp, out, i + 2, ix);
    let ghost o2 = *out;
    let ghost sp2 = out.spans@;
    proof {
        lemma_covers_join(sp1, sp2, n, i as int, (i + 2) as int, j as int);
    }
    let fix = fresh(out);
    let ghost o3 = *out;
    proof {
        lemma_ok_grows(s@, Out { lexemes: out.lexemes, count: (out.count - 1) as u32, spans: out.spans }, out.count);
        lemma_grew_fresh(o2, o3);
    }
    let r = form(inp, out, j, ix, fix);
    proof {
        if let Some(e) = r {
            lemma_covers_join(sp2, out.spans@, n, i as int, j as int, e as int);
            let x1 = (seq![lv(parent as int, ix as int, TokenKind::Discard, i as int, i + 2)], o0.count as int);
            let x2 = skip_lx(s@, i + 2, ix as int, o0.count as int);
            let x4 = form_lx(s@, j as int, ix as int, fix as int, o3.count as int);
            lemma_grew_trans(o0, o1, o2, x1, x2);
            lemma_grew_trans(o0, o2, o3, (x1.0 + x2.0, x2.1), (Seq::empty(), o3.count as int));
            lemma_grew_trans(o0, o3, *out, (x1.0 + x2.0 + Seq::<LexemeView>::empty(), o3.count as int), x4);
            assert(x1.0 + x2.0 + Seq::<LexemeView>::empty() + x4.0 =~= discarded_lx(s@, i as int, parent as int, ix as int, o0.count as int).0);
        }
    }
    r
}

/// Lexes the quoted or unquoted form at `i`.
fn quote(inp: &Input, out: &mut Out, i: usize, parent: u32, ix: u32) -> (r: Option<usize>)
    requires
        inp.wf(),
        ok(inp.chars@, *old(out)),
        i <= inp.chars.len(),
        parent < ix <= old(out).count,
        room(old(out).count as int, inp.chars.len() as int, i as int, 2),
    ensures
        opt_pos(r) == quote_end(inp.chars@, i as int),
        ok(inp.chars@, *final(out)),
        extends(old(out).lexemes@, final(out).lexemes@),
        sp_extends(old(out).spans@, final(out).spans@),
        old(out).count <= final(out).count,
        r matches Some(e) ==> i < e <= inp.chars.len() && final(out).count + 1 <= old(out).count
            + 3 * (e - i),
        r matches Some(e) ==> covers(final(out).spans@, old(out).lexemes.len() as int, i as int, e as int),
        r is Some ==> grew(*old(out), *final(out), quote_lx(inp.chars@, i as int, parent as int, ix as int, old(out).count as int)),
    decreases inp.chars.len() - i, 1int,
{
    let s = inp.chars.as_slice();
    let ghost n = out.lexemes.len() as int;
    match quote_prefix(s, i) {
        Some((p, token)) => {
            let ghost sp0 = out.spans@;
            let ghost o0 = *out;
            emit(inp, out, i, p, token, parent, ix);
            let ghost o1 = *out;
            let ghost sp1 = out.spans@;
            proof {
                lemma_covers_last(sp0, i as int, p as int);
            }
            let j = skip(inp, out, p, ix);
            let ghost o2 = *out;
            let ghost sp2 = out.spans@;
            proof {
                lemma_covers_join(sp1, sp2, n, i as int, p as int, j as int);
            }
            let fix = fresh(out);
            let ghost o3 = *out;
            proof {
                lemma_ok_grows(s@, Out { lexemes: out.lexemes, count: (out.count - 1) as u32, spans: out.spans }, out.count);
                lemma_grew_fresh(o2, o3);
            }
            let r = form(inp, out, j, ix, fix);
            proof {
                if let Some(e) = r {
                    lemma_covers_join(sp2, out.spans@, n, i as int, j as int, e as int);
                    let c = o0.count as int;
                    let x1 = (seq![lv(parent as int, ix as int, quote_kind(s@, i as int), i as int, p as int)], c);
                    let x2 = skip_lx(s@, p as int, ix as int, c);
                    let x4 = form_lx(s@, j as int, ix as int, fix as int, fix as int);
                    lemma_grew_trans(o0, o1, o2, x1, x2);
                    lemma_grew_trans(o0, o2, o3, (x1.0 + x2.0, x2.1), (Seq::empty(), fix as int));
                    lemma_grew_trans(o0, o3, *out, (x1.0 + x2.0 + Seq::<LexemeView>::empty(), fix as int), x4);
                    assert(x1.0 + x2.0 + Seq::<LexemeView>::empty() + x4.0 =~= x1.0 + x2.0 + x4.0);
                }
            }
            r
        },
        None => None,
    }
}

/// Lexes the form with metadata at `i`: the metadata form and the form get
/// their numbers before anything else.
fn meta(inp: &Input, out: &mut Out, i: usize, parent: u32, ix: u32) -> (r: Option<usize>)
    requires
        inp.wf(),
        ok(inp.chars@, *old(out)),
        i <= inp.chars.len(),
        parent < ix <= old(out).count,
        room(old(out).count as int, inp.chars.len() as int, i as int, 2),
    ensures
        opt_pos(r) == meta_end(inp.chars@, i as int),
        ok(inp.chars@, *final(out)),
        extends(old(out).lexemes@, final(out).lexemes@),
        sp_extends(old(out).spans@, final(out).spans@),
        old(out).count <= final(out).count,
        r matches Some(e) ==> i < e <= inp.chars.len() && final(out).count + 1 <= old(out).count
            + 3 * (e - i),
        r matches Some(e) ==> covers(final(out).spans@, old(out).lexemes.len() as int, i as int, e as int),
        r is Some ==> grew(*old(out), *final(out), meta_lx(inp.chars@, i as int, parent as int, ix as int, old(out).count as int)),
    decreases inp.chars.len() - i, 1int,
{
    let s = inp.chars.as_slice();
    let ghost n = out.lexemes.len() as int;
    match meta_prefix(s, i) {
        Some(p) => {
            let ghost o0 = *out;
            let metaform_ix = fresh(out);
            let subform_ix = fresh(out);
            let ghost o1 = *out;
            proof {
                lemma_ok_grows(s@, Out { lexemes: out.lexemes, count: (out.count - 2) as u32, spans: out.spans }, out.count);
                lemma_grew_fresh(o0, o1);
            }
            let ghost sp0 = out.spans@;
            emit(inp, out, i, p, Token::Meta { metaform_ix, subform_ix }, parent, ix);
            let ghost o2 = *out;
            let ghost sp1 = out.spans@;
            proof {
                lemma_covers_last(sp0, i as int, p as int);
            }
            let j = skip(inp, out, p, ix);
            let ghost o3 = *out;
            let ghost sp2 = out.spans@;
            proof {
                lemma_covers_join(sp1, sp2, n, i as int, p as int, j as int);
            }
            match form(inp, out, j, ix, metaform_ix) {
                Some(k) => {
                    let ghost o4 = *out;
                    let ghost sp3 = out.spans@;
                    proof {
                        lemma_covers_join(sp2, sp3, n, i as int, j as int, k as int);
                    }
                    let j2 = skip(inp, out, k, ix);
                    let ghost o5 = *out;
                    let ghost sp4 = out.spans@;
                    proof {
                        lemma_covers_join(sp3, sp4, n, i as int, k as int, j2 as int);
                    }
                    let r = form(inp, out, j2, ix, subform_ix);
                    proof {
                        if let Some(e) = r {
                            lemma_covers_join(sp4, out.spans@, n, i as int, j2 as int, e as int);
                            let c = o0.count as int;
                            let x1 = (seq![lv(parent as int, ix as int, TokenKind::Meta(c + 1, c + 2), i as int, p as int)], c + 2);
                            let b = skip_lx(s@, p as int, ix as int, c + 2);
                            let f = form_lx(s@, j as int, ix as int, c + 1, b.1);
                            let b2 = skip_lx(s@, k as int, ix as int, f.1);
                            let f2 = form_lx(s@, j2 as int, ix as int, c + 2, b2.1);
                            lemma_grew_trans(o0, o1, o2, (Seq::empty(), c + 2), x1);
                            let y1 = Seq::<LexemeView>::empty() + x1.0;
                            lemma_grew_trans(o0, o2, o3, (y1, c + 2), b);
                            lemma_grew_trans(o0, o3, o4, (y1 + b.0, b.1), f);
                            lemma_grew_trans(o0, o4, o5, (y1 + b.0 + f.0, f.1), b2);
                            lemma_grew_trans(o0, o5, *out, (y1 + b.0 + f.0 + b2.0, b2.1), f2);
                            assert(y1 + b.0 + f.0 + b2.0 + f2.0 =~= x1.0 + b.0 + f.0 + b2.0 + f2.0);
                        }
                    }
                    r
                },
                None => None,
            }
        },
        None => None,
    }
}

/// Lexes the expression at `i`.
#[verifier::rlimit(50)]
fn expr(inp: &Input, out: &mut Out, i: usize, parent: u32, ix: u32) -> (r: Option<usize>)
    requires
        inp.wf(),
        ok(inp.chars@, *old(out)),
        i <= inp.chars.len(),
        parent < ix <= old(out).count,
        room(old(out).count as int, inp.chars.len() as int, i as int, 2),
    ensures
        opt_pos(r) == expr_end(inp.chars@, i as int),
        ok(inp.chars@, *final(out)),
        extends(old(out).lexemes@, final(out).lexemes@),
        sp_extends(old(out).spans@, final(out).spans@),
        old(out).count <= final(out).count,
        r matches Some(e) ==> i < e <= inp.chars.len() && final(out).count + 1 <= old(out).count
            + 3 * (e - i),
        r matches Some(e) ==> covers(final(out).spans@, old(out).lexemes.len() as int, i as int, e as int),
        r is Some ==> grew(*old(out), *final(out), expr_lx(inp.chars@, i as int, parent as int, ix as int, old(out).count as int)),
    decreases inp.chars.len() - i, 1int,
{
    let s = inp.chars.as_slice();
    let ghost n = out.lexemes.len() as int;
    let ghost sp0 = out.spans@;
    let ghost o0 = *out;
    let ghost c = o0.count as int;
    if let Some((e, token)) = plain_atom(s, i) {
        proof {
            lemma_plain_atom_bounds(s@, i as int);
        }
        emit(inp, out, i, e, token, parent, ix);
        proof {
            lemma_covers_last(sp0, i as int, e as int);
        }
        return Some(e);
    }
    if char_at(s, i, '#') && char_at(s, i + 1, '#') {
        let j = skip_over(s, i + 2);
        if let Some((None, e)) = scan_symbol(s, j) {
            proof {
                super::scanner::lemma_symbol_bounds(s@, j as int);
            }
            let k = out.lexemes.len();
            let ghost before = out.lexemes@;
            assert(s@.subrange(i as int, i + 2) =~= seq!['#', '#']);
            emit(inp, out, i, i + 2, Token::SymbolicValuePrefix, parent, ix);
            let ghost o1 = *out;
            let j2 = skip(inp, out, i + 2, ix);
            let ghost o2 = *out;
            let value = symbolic_value(s, j, e);
            proof {
                super::atoms::lemma_skip_last(s@, i + 2);
                super::scanner::lemma_symbol_window(s@, j as int);
                let x = s@.subrange(i as int, e as int);
                assert(x.skip(j - i) =~= s@.subrange(j as int, e as int));
                if j > i + 2 {
                    assert(x[j - i - 1] == s@[j - 1]);
                }
                assert(x[0] == s@[i as int] && x[1] == s@[i + 1]);
            }
            let ghost sp2 = out.spans@;
            assert(s@.subrange(i as int, e as int)[0] == s@[i as int]);
            assert(s@.subrange(i as int, e as int)[1] == s@[i + 1]);
            emit(inp, out, i, e, Token::SymbolicValue { value }, parent, ix);
            let ghost sp3 = out.spans@;
            proof {
                lemma_covers_last(sp2, i as int, e as int);
                lemma_covers_from(sp3, n, sp2.len() as int, i as int, e as int);
                assert(sp3[n] == (i as int, (i + 2) as int));
            }
            assert(s@.subrange(i as int, e as int)[0] == s@[i as int]);
            assert(s@.subrange(i as int, e as int)[1] == s@[i + 1]);
            let ghost o3 = *out;
            widen(inp, out, k, i, e, Token::SymbolicValuePrefix);
            proof {
                lemma_covers_widen(sp3, n, i as int, e as int, n, (i as int, e as int));
                let b = skip_lx(s@, i + 2, ix as int, c);
                let pre = lv(parent as int, ix as int, TokenKind::SymbolicValuePrefix, i as int, i + 2);
                let sv = lv(parent as int, ix as int, TokenKind::SymbolicValue, i as int, e as int);
                lemma_grew_trans(o0, o1, o2, (seq![pre], c), b);
                lemma_grew_trans(o0, o2, o3, (seq![pre] + b.0, b.1), (seq![sv], b.1));
                assert(lvs(o3.lexemes@, o3.spans@)[n] == pre);
                assert(lvs(out.lexemes@, out.spans@) =~= lvs(o0.lexemes@, o0.spans@) + expr_lx(s@, i as int, parent as int, ix as int, c).0);
            }
            assert(extends(before, out.lexemes@));
            return Some(e);
        }
    }
    if let Some((ns, e)) = scan_symbol(s, i) {
        proof {
            super::scanner::lemma_symbol_bounds(s@, i as int);
        }
        let (namespace, name) = names(s, i, ns, e);
        proof {
            lemma_symbol_slash(s@, i as int);
            lemma_qualified_text(s@, i as int, opt_pos(ns), e as int, namespace, name);
            super::scanner::lemma_symbol_window(s@, i as int);
        }
        emit(inp, out, i, e, Token::Symbol { namespace, name }, parent, ix);
        proof {
            lemma_covers_last(sp0, i as int, e as int);
        }
        return Some(e);
    }
    if let Some((alias, p, ns, e)) = scan_keyword(s, i) {
        proof {
            super::scanner::lemma_keyword_bounds(s@, i as int);
        }
        let (namespace, name) = names(s, p, ns, e);
        proof {
            super::scanner::lemma_keyword_window(s@, i as int);
            lemma_keyword_shape(s@, i as int);
            lemma_qualified_text(s@, p as int, opt_pos(ns), e as int, namespace, name);
            let pre = if alias {
                seq![':', ':']
            } else {
                seq![':']
            };
            assert(s@.subrange(i as int, e as int) =~= pre + s@.subrange(p as int, e as int));
        }
        emit(inp, out, i, e, Token::Keyword { alias, namespace, name }, parent, ix);
        proof {
            lemma_covers_last(sp0, i as int, e as int);
        }
        return Some(e);
    }
    if let Some((p, close, start, end)) = open_collection(s, i) {
        emit(inp, out, i, p, start, parent, ix);
        let ghost o1 = *out;
        let ghost sp1 = out.spans@;
        proof {
            lemma_covers_last(sp0, i as int, p as int);
        }
        let r = body(inp, out, p, close, end, parent, ix);
        proof {
            if let Some(e) = r {
                lemma_covers_join(sp1, out.spans@, n, i as int, p as int, e as int);
                lemma_grew_trans(o0, o1, *out, (seq![lv(parent as int, ix as int, token_kind(start), i as int, p as int)], c), body_lx(s@, p as int, close, token_kind(end), parent as int, ix as int, c));
            }
        }
        return r;
    }
    if char_at(s, i, '#') && char_at(s, i + 1, ':') {
        return map_form(inp, out, i, parent, ix);
    }
    if char_at(s, i, '#') && char_at(s, i + 1, '?') {
        if let Some(e) = conditional(inp, out, i, parent, ix) {
            return Some(e);
        }
    }
    tagged(inp, out, i, parent, ix)
}

/// Lexes the namespaced map at `i`: its qualifier (`#:` or `#::` and an
/// optional namespace) and, after whitespace and comments, its body.
fn map_form(inp: &Input, out: &mut Out, i: usize, parent: u32, ix: u32) -> (r: Option<usize>)
    requires
        inp.wf(),
        ok(inp.chars@, *old(out)),
        i <= inp.chars.len(),
        parent < ix <= old(out).count,
        room(old(out).count as int, inp.chars.len() as int, i as int, 2),
        at(inp.chars@, i as int, '#') && at(inp.chars@, i + 1, ':'),
    ensures
        opt_pos(r) == ({
            let s = inp.chars@;
            let q = map_qualifier_end(s, i as int)->0;
            if i < q <= skip_end(s, q) <= s.len() && at(s, skip_end(s, q), '{') {
                body_end(s, skip_end(s, q) + 1, '}')
            } else {
                None
            }
        }),
        map_qualifier_end(inp.chars@, i as int) is Some,
        ok(inp.chars@, *final(out)),
        extends(old(out).lexemes@, final(out).lexemes@),
        sp_extends(old(out).spans@, final(out).spans@),
        old(out).count <= final(out).count,
        r matches Some(e) ==> i < e <= inp.chars.len() && final(out).count + 1 <= old(out).count
            + 3 * (e - i),
        r matches Some(e) ==> covers(final(out).spans@, old(out).lexemes.len() as int, i as int, e as int),
        r is Some ==> grew(*old(out), *final(out), map_lx(inp.chars@, i as int, parent as int, ix as int, old(out).count as int)),
    decreases inp.chars.len() - i, 0int,
{
    let s = inp.chars.as_slice();
    let ghost n = out.lexemes.len() as int;
    let ghost sp0 = out.spans@;
    let alias = char_at(s, i + 2, ':');
    let p = if alias {
        i + 3
    } else {
        i + 2
    };
    if p > s.len() {
        return None;
    }
    let q = match scan_namespace(s, p) {
        Some(n) => n,
        None => p,
    };
    let namespace = if q > p {
        Some(text(s, p, q))
    } else {
        None
    };
    proof {
        let pre = if alias {
            seq!['#', ':', ':']
        } else {
            seq!['#', ':']
        };
        assert(s@.subrange(i as int, q as int) =~= pre + opt_text(namespace));
    }
    let ghost o0 = *out;
    let ghost c = o0.count as int;
    emit(inp, out, i, q, Token::MapQualifier { alias, namespace }, parent, ix);
    let ghost o1 = *out;
    let ghost sp1 = out.spans@;
    proof {
        lemma_covers_last(sp0, i as int, q as int);
    }
    let body_ix = fresh(out);
    let ghost o2 = *out;
    proof {
        lemma_ok_grows(s@, Out { lexemes: out.lexemes, count: (out.count - 1) as u32, spans: out.spans }, out.count);
        lemma_grew_fresh(o1, o2);
    }
    let j = skip(inp, out, q, ix);
    let ghost o3 = *out;
    let ghost sp2 = out.spans@;
    proof {
        lemma_covers_join(sp1, sp2, n, i as int, q as int, j as int);
    }
    if char_at(s, j, '{') {
        assert(s@.subrange(j as int, j + 1) =~= seq!['{']);
        emit(inp, out, j, j + 1, Token::StartMap, ix, body_ix);
        let ghost o4 = *out;
        let ghost sp3 = out.spans@;
        proof {
            lemma_covers_last(sp2, j as int, (j + 1) as int);
            lemma_covers_join(sp2, sp3, n, i as int, j as int, (j + 1) as int);
        }
        let r = body(inp, out, j + 1, '}', Token::EndMap, ix, body_ix);
        proof {
            if let Some(e) = r {
                lemma_covers_join(sp3, out.spans@, n, i as int, (j + 1) as int, e as int);
                let x1 = seq![lv(parent as int, ix as int, TokenKind::MapQualifier, i as int, q as int)];
                let b = skip_lx(s@, q as int, ix as int, c + 1);
                let sm = seq![lv(ix as int, c + 1, TokenKind::StartMap, j as int, j + 1)];
                let bd = body_lx(s@, j + 1, '}', TokenKind::EndMap, ix as int, c + 1, b.1);
                lemma_grew_trans(o0, o1, o2, (x1, c), (Seq::empty(), c + 1));
                lemma_grew_trans(o0, o2, o3, (x1 + Seq::<LexemeView>::empty(), c + 1), b);
                lemma_grew_trans(o0, o3, o4, (x1 + Seq::<LexemeView>::empty() + b.0, b.1), (sm, b.1));
                lemma_grew_trans(o0, o4, *out, (x1 + Seq::<LexemeView>::empty() + b.0 + sm, b.1), bd);
                assert(x1 + Seq::<LexemeView>::empty() + b.0 + sm + bd.0 =~= x1 + b.0 + sm + bd.0);
            }
        }
        return r;
    } else {
        return None;
    }
}

/// Lexes the reader conditional at `i`: its prefix (`#?` or `#?@`) and,
/// after whitespace and comments, its body.  Where there is none, nothing
/// is added.
#[verifier::rlimit(40)]
fn conditional(inp: &Input, out: &mut Out, i: usize, parent: u32, ix: u32) -> (r: Option<usize>)
    requires
        inp.wf(),
        ok(inp.chars@, *old(out)),
        i <= inp.chars.len(),
        parent < ix <= old(out).count,
        room(old(out).count as int, inp.chars.len() as int, i as int, 2),
    ensures
        opt_pos(r) == (match conditional_prefix_end(inp.chars@, i as int) {
            Some(p) => {
                let s = inp.chars@;
                if i < p <= skip_end(s, p) <= s.len() && at(s, skip_end(s, p), '(') {
                    body_end(s, skip_end(s, p) + 1, ')')
                } else {
                    None
                }
            },
            None => None,
        }),
        ok(inp.chars@, *final(out)),
        extends(old(out).lexemes@, final(out).lexemes@),
        sp_extends(old(out).spans@, final(out).spans@),
        old(out).count <= final(out).count,
        r is None ==> final(out).lexemes@ == old(out).lexemes@ && final(out).spans@ == old(out).spans@
            && final(out).count == old(out).count,
        r matches Some(e) ==> i < e <= inp.chars.len() && final(out).count + 1 <= old(out).count
            + 3 * (e - i),
        r matches Some(e) ==> covers(final(out).spans@, old(out).lexemes.len() as int, i as int, e as int),
        r is Some ==> (conditional_lx(inp.chars@, i as int, parent as int, ix as int, old(out).count as int) matches Some(x) && grew(*old(out), *final(out), x)),
    decreases inp.chars.len() - i, 0int,
{
    let s = inp.chars.as_slice();
    let ghost n = out.lexemes.len() as int;
    let ghost sp0 = out.spans@;
    if !(char_at(s, i, '#') && char_at(s, i + 1, '?')) {
        return None;
    }
    let saved_len = out.lexemes.len();
    let saved_count = out.count;
    let ghost before = out.lexemes@;
    let ghost before_spans = out.spans@;
    let splicing = char_at(s, i + 2, '@');
    let p = if splicing {
        i + 3
    } else {
        i + 2
    };
    proof {
        if splicing {
            assert(s@.subrange(i as int, p as int) =~= seq!['#', '?', '@']);
        } else {
            assert(s@.subrange(i as int, p as int) =~= seq!['#', '?']);
        }
    }
    let ghost o0 = *out;
    let ghost c = o0.count as int;
    emit(inp, out, i, p, Token::ReaderConditionalPrefix { splicing }, parent, ix);
    let ghost o1 = *out;
    let ghost sp1 = out.spans@;
    proof {
        lemma_covers_last(sp0, i as int, p as int);
    }
    let j = skip(inp, out, p, ix);
    let ghost o2 = *out;
    let ghost sp2 = out.spans@;
    proof {
        lemma_covers_join(sp1, sp2, n, i as int, p as int, j as int);
    }
    if char_at(s, j, '(') {
        let body_ix = fresh(out);
        let ghost o3 = *out;
        proof {
            lemma_ok_grows(s@, Out { lexemes: out.lexemes, count: (out.count - 1) as u32, spans: out.spans }, out.count);
            lemma_grew_fresh(o2, o3);
        }
        assert(s@.subrange(j as int, j + 1) =~= seq!['(']);
        emit(inp, out, j, j + 1, Token::StartList, ix, body_ix);
        let ghost o4 = *out;
        let ghost sp3 = out.spans@;
        proof {
            lemma_covers_last(sp2, j as int, (j + 1) as int);
            lemma_covers_join(sp2, sp3, n, i as int, j as int, (j + 1) as int);
        }
        if let Some(e) = body(inp, out, j + 1, ')', Token::EndList, ix, body_ix) {
            proof {
                lemma_covers_join(sp3, out.spans@, n, i as int, (j + 1) as int, e as int);
                let x1 = seq![lv(parent as int, ix as int, TokenKind::ReaderConditionalPrefix, i as int, p as int)];
                let b = skip_lx(s@, p as int, ix as int, c);
                let sl = seq![lv(ix as int, b.1 + 1, TokenKind::StartList, j as int, j + 1)];
                let bd = body_lx(s@, j + 1, ')', TokenKind::EndList, ix as int, b.1 + 1, b.1 + 1);
                lemma_grew_trans(o0, o1, o2, (x1, c), b);
                lemma_grew_trans(o0, o2, o3, (x1 + b.0, b.1), (Seq::empty(), b.1 + 1));
                lemma_grew_trans(o0, o3, o4, (x1 + b.0 + Seq::<LexemeView>::empty(), b.1 + 1), (sl, b.1 + 1));
                lemma_grew_trans(o0, o4, *out, (x1 + b.0 + Seq::<LexemeView>::empty() + sl, b.1 + 1), bd);
                assert(x1 + b.0 + Seq::<LexemeView>::empty() + sl + bd.0 =~= x1 + b.0 + sl + bd.0);
            }
            return Some(e);
        }
    }
    restore(out, saved_len, saved_count, Ghost(before), Ghost(before_spans));
    None
}

/// Lexes the tagged literal at `i`: the literal, its tag and its form get
/// their numbers in that order.
fn tagged(inp: &Input, out: &mut Out, i: usize, parent: u32, ix: u32) -> (r: Option<usize>)
    requires
        inp.wf(),
        ok(inp.chars@, *old(out)),
        i <= inp.chars.len(),
        parent < ix <= old(out).count,
        room(old(out).count as int, inp.chars.len() as int, i as int, 2),
    ensures
        opt_pos(r) == tagged_end(inp.chars@, i as int),
        ok(inp.chars@, *final(out)),
        extends(old(out).lexemes@, final(out).lexemes@),
        sp_extends(old(out).spans@, final(out).spans@),
        old(out).count <= final(out).count,
        r matches Some(e) ==> i < e <= inp.chars.len() && final(out).count + 1 <= old(out).count
            + 3 * (e - i),
        r matches Some(e) ==> covers(final(out).spans@, old(out).lexemes.len() as int, i as int, e as int),
        r is Some ==> grew(*old(out), *final(out), tagged_lx(inp.chars@, i as int, parent as int, ix as int, old(out).count as int)),
    decreases inp.chars.len() - i, 0int,
{
    let s = inp.chars.as_slice();
    if !(char_at(s, i, '#') && !char_at(s, i + 1, '_')) {
        return None;
    }
    let ghost n = out.lexemes.len() as int;
    let ghost o0 = *out;
    let ghost c = o0.count as int;
    let tag_ix = fresh(out);
    let arg_ix = fresh(out);
    let ghost o1 = *out;
    proof {
        lemma_ok_grows(s@, Out { lexemes: out.lexemes, count: (out.count - 2) as u32, spans: out.spans }, out.count);
        lemma_grew_fresh(o0, o1);
    }
    let k = out.lexemes.len();
    let ghost before = out.lexemes@;
    let ghost sp0 = out.spans@;
    assert(s@.subrange(i as int, i + 1)[0] == s@[i as int]);
    emit(inp, out, i, i + 1, Token::TaggedLiteral { tag_ix, arg_ix }, parent, ix);
    let ghost o2 = *out;
    let ghost sp1 = out.spans@;
    proof {
        lemma_covers_last(sp0, i as int, (i + 1) as int);
    }
    let j = skip(inp, out, i + 1, ix);
    let ghost o3 = *out;
    let ghost sp2 = out.spans@;
    proof {
        lemma_covers_join(sp1, sp2, n, i as int, (i + 1) as int, j as int);
    }
    match scan_symbol(s, j) {
        Some((ns, e1)) => {
            proof {
                super::scanner::lemma_symbol_bounds(s@, j as int);
            }
            let (namespace, name) = names(s, j, ns, e1);
            proof {
                lemma_symbol_slash(s@, j as int);
                lemma_qualified_text(s@, j as int, opt_pos(ns), e1 as int, namespace, name);
                super::scanner::lemma_symbol_window(s@, j as int);
            }
            emit(inp, out, j, e1, Token::Tag { namespace, name }, ix, tag_ix);
            let ghost o4 = *out;
            let ghost sp3 = out.spans@;
            proof {
                lemma_covers_last(sp2, j as int, e1 as int);
                lemma_covers_join(sp2, sp3, n, i as int, j as int, e1 as int);
            }
            let k2 = skip(inp, out, e1, ix);
            let ghost o5 = *out;
            let ghost sp4 = out.spans@;
            proof {
                lemma_covers_join(sp3, sp4, n, i as int, e1 as int, k2 as int);
            }
            match form(inp, out, k2, ix, arg_ix) {
                Some(e) => {
                    let ghost o6 = *out;
                    let ghost sp5 = out.spans@;
                    proof {
                        lemma_covers_join(sp4, sp5, n, i as int, k2 as int, e as int);
                        assert(sp5[n] == (i as int, (i + 1) as int));
                        assert(s@.subrange(i as int, e as int)[0] == s@[i as int]);
                    }
                    widen(inp, out, k, i, e, Token::TaggedLiteral { tag_ix, arg_ix });
                    proof {
                        lemma_covers_widen(sp5, n, i as int, e as int, n, (i as int, e as int));
                        let kd = TokenKind::TaggedLiteral(c + 1, c + 2);
                        let x1 = seq![lv(parent as int, ix as int, kd, i as int, i + 1)];
                        let b = skip_lx(s@, i + 1, ix as int, c + 2);
                        let tg = seq![lv(ix as int, c + 1, TokenKind::Tag, j as int, e1 as int)];
                        let b2 = skip_lx(s@, e1 as int, ix as int, b.1);
                        let f = form_lx(s@, k2 as int, ix as int, c + 2, b2.1);
                        lemma_grew_trans(o0, o1, o2, (Seq::empty(), c + 2), (x1, c + 2));
                        let y = Seq::<LexemeView>::empty() + x1;
                        lemma_grew_trans(o0, o2, o3, (y, c + 2), b);
                        lemma_grew_trans(o0, o3, o4, (y + b.0, b.1), (tg, b.1));
                        lemma_grew_trans(o0, o4, o5, (y + b.0 + tg, b.1), b2);
                        lemma_grew_trans(o0, o5, o6, (y + b.0 + tg + b2.0, b2.1), f);
                        assert(lvs(o6.lexemes@, o6.spans@)[n] == lv(parent as int, ix as int, kd, i as int, i + 1));
                        assert(lvs(out.lexemes@, out.spans@) =~= lvs(o0.lexemes@, o0.spans@) + tagged_lx(s@, i as int, parent as int, ix as int, c).0);
                    }
                    assert(extends(before, out.lexemes@));
                    Some(e)
                },
                None => None,
            }
        },
        None => None,
    }
}

/// Lexes the body of a collection from `i` on, up to and including `close`,
/// whose lexeme gets the token `end`.  The elements are children of `ix`.
#[verifier::rlimit(50)]
fn body(
    inp: &Input,
    out: &mut Out,
    i: usize,
    close: char,
    end: Token,
    parent: u32,
    ix: u32,
) -> (r: Option<usize>)
    requires
        inp.wf(),
        ok(inp.chars@, *old(out)),
        i <= inp.chars.len(),
        parent < ix <= old(out).count,
        room(old(out).count as int, inp.chars.len() as int, i as int, 3),
        token_reads(end, seq![close]),
    ensures
        opt_pos(r) == body_end(inp.chars@, i as int, close),
        ok(inp.chars@, *final(out)),
        extends(old(out).lexemes@, final(out).lexemes@),
        sp_extends(old(out).spans@, final(out).spans@),
        old(out).count <= final(out).count,
        r matches Some(e) ==> i < e <= inp.chars.len() && final(out).count <= old(out).count + 3
            * (e - i),
        r matches Some(e) ==> covers(final(out).spans@, old(out).lexemes.len() as int, i as int, e as int),
        r is Some ==> grew(*old(out), *final(out), body_lx(inp.chars@, i as int, close, token_kind(end), parent as int, ix as int, old(out).count as int)),
    decreases inp.chars.len() - i, 4int,
{
    let s = inp.chars.as_slice();
    let ghost n = out.lexemes.len() as int;
    let mut k = i;
    loop
        invariant
            inp.wf(),
            s@ == inp.chars@,
            i <= k <= s.len(),
            body_end(s@, k as int, close) == body_end(s@, i as int, close),
            ok(s@, *out),
            extends(old(out).lexemes@, out.lexemes@),
            sp_extends(old(out).spans@, out.spans@),
            n == old(out).lexemes.len(),
            covers(out.spans@, n, i as int, k as int),
            token_reads(end, seq![close]),
            parent < ix <= old(out).count <= out.count <= old(out).count + 3 * (k - i),
            room(old(out).count as int, s.len() as int, i as int, 3),
            lvs(out.lexemes@, out.spans@) + body_lx(s@, k as int, close, token_kind(end), parent as int, ix as int, out.count as int).0
                == lvs(old(out).lexemes@, old(out).spans@) + body_lx(s@, i as int, close, token_kind(end), parent as int, ix as int, old(out).count as int).0,
            body_lx(s@, k as int, close, token_kind(end), parent as int, ix as int, out.count as int).1
                == body_lx(s@, i as int, close, token_kind(end), parent as int, ix as int, old(out).count as int).1,
        decreases s.len() - k,
    {
        let ghost sp0 = out.spans@;
        let ghost o0 = *out;
        let ghost lv0 = lvs(out.lexemes@, out.spans@);
        let j = skip(inp, out, k, ix);
        let ghost o1 = *out;
        let ghost sp1 = out.spans@;
        proof {
            super::atoms::lemma_skip_bounds(s@, k as int);
        }
        proof {
            lemma_covers_join(sp0, sp1, n, i as int, k as int, j as int);
        }
        if char_at(s, j, close) {
            assert(s@.subrange(j as int, j + 1) =~= seq![close]);
            emit(inp, out, j, j + 1, end, parent, ix);
            proof {
                lemma_covers_last(sp1, j as int, (j + 1) as int);
                lemma_covers_join(sp1, out.spans@, n, i as int, j as int, (j + 1) as int);
                let b = skip_lx(s@, k as int, ix as int, o0.count as int);
                lemma_grew_trans(o0, o1, *out, b, (seq![lv(parent as int, ix as int, token_kind(end), j as int, j + 1)], b.1));
                assert(lvs(out.lexemes@, out.spans@) =~= lv0 + body_lx(s@, k as int, close, token_kind(end), parent as int, ix as int, o0.count as int).0);
            }
            return Some(j + 1);
        }
        match element(inp, out, j, ix) {
            Some(k2) => {
                proof {
                    lemma_covers_join(sp1, out.spans@, n, i as int, j as int, k2 as int);
                    let b = skip_lx(s@, k as int, ix as int, o0.count as int);
                    let el = element_lx(s@, j as int, ix as int, b.1);
                    lemma_grew_trans(o0, o1, *out, b, el);
                    assert(lvs(out.lexemes@, out.spans@) + body_lx(s@, k2 as int, close, token_kind(end), parent as int, ix as int, out.count as int).0
                        =~= lv0 + body_lx(s@, k as int, close, token_kind(end), parent as int, ix as int, o0.count as int).0);
                }
                k = k2;
            },
            None => {
                return None;
            },
        }
    }
}

/// Lexes the element at `j`, a child of `parent`: a form, or, where none
/// starts there, a discarded form.
fn element(inp: &Input, out: &mut Out, j: usize, parent: u32) -> (r: Option<usize>)
    requires
        inp.wf(),
        ok(inp.chars@, *old(out)),
        j <= inp.chars.len(),
        parent <= old(out).count,
        room(old(out).count as int, inp.chars.len() as int, j as int, 3),
    ensures
        opt_pos(r) == element_end(inp.chars@, j as int),
        ok(inp.chars@, *final(out)),
        extends(old(out).lexemes@, final(out).lexemes@),
        sp_extends(old(out).spans@, final(out).spans@),
        old(out).count <= final(out).count,
        r matches Some(e) ==> j < e <= inp.chars.len() && final(out).count <= old(out).count + 3
            * (e - j),
        r matches Some(e) ==> covers(final(out).spans@, old(out).lexemes.len() as int, j as int, e as int),
        r is Some ==> grew(*old(out), *final(out), element_lx(inp.chars@, j as int, parent as int, old(out).count as int)),
    decreases inp.chars.len() - j, 3int,
{
    let s = inp.chars.as_slice();
    let saved_len = out.lexemes.len();
    let saved_count = out.count;
    let ghost before = out.lexemes@;
    let ghost before_spans = out.spans@;
    let fix = fresh(out);
    proof {
        lemma_ok_grows(s@, Out { lexemes: out.lexemes, count: (out.count - 1) as u32, spans: out.spans }, out.count);
    }
    match form(inp, out, j, parent, fix) {
        Some(e) => Some(e),
        None => {
            if char_at(s, j, '#') && char_at(s, j + 1, '_') {
                restore(out, saved_len, saved_count, Ghost(before), Ghost(before_spans));
                let dix = fresh(out);
                proof {
                    lemma_ok_grows(s@, Out { lexemes: out.lexemes, count: (out.count - 1) as u32, spans: out.spans }, out.count);
                }
                discarded(inp, out, j, parent, dix)
            } else {
                None
            }
        },
    }
}

/// Lexes Clojure source into its lexemes.
///
/// It succeeds exactly when the grammar accepts the input.  The lexemes are
/// then those of the input's lexing, in order: each with its form number,
/// its parent's, its kind and its span, carrying the text it was read from
/// with its line and column, and a token that reads that text; and every
/// character of the input lies in the text of a lexeme.
pub fn lex(input: &str) -> (r: Result<Vec<Lexeme>, Error>)
    requires
        input@.len() < max_input(),
    ensures
        match r {
            Ok(lexemes) => accepts(input@) && lexed(input@, lexemes@) && lexemes_are(input@, lexemes@),
            Err(e) => !accepts(input@) && e.pos <= input@.len(),
        },
{
    let inp = new_input(input);
    let mut out = Out { lexemes: Vec::new(), count: 0, spans: Ghost(Seq::empty()) };
    let s = inp.chars.as_slice();
    let mut k: usize = 0;
    assert(lvs(out.lexemes@, out.spans@) =~= Seq::<LexemeView>::empty());
    loop
        invariant
            inp.wf(),
            s@ == inp.chars@,
            inp.chars@ == input@,
            k <= s.len(),
            top_end(s@, k as int) == top_end(s@, 0),
            ok(s@, out),
            covers(out.spans@, 0, 0, k as int),
            out.count <= 3 * k,
            lvs(out.lexemes@, out.spans@) + top_lx(s@, k as int, out.count as int).0 == lexing(s@),
        decreases s.len() - k,
    {
        let ghost sp0 = out.spans@;
        let ghost o0 = out;
        let ghost lv0 = lvs(out.lexemes@, out.spans@);
        let j = skip(&inp, &mut out, k, 0);
        let ghost o1 = out;
        let ghost sp1 = out.spans@;
        proof {
            super::atoms::lemma_skip_bounds(s@, k as int);
        }
        proof {
            lemma_covers_join(sp0, sp1, 0, 0, k as int, j as int);
        }
        if j == s.len() {
            proof {
                assert forall|q: int| 0 <= q < out.lexemes.len() implies lexeme_at(
                    input@,
                    #[trigger] out.lexemes@[q],
                    out.spans@[q],
                ) by {
                    assert(lexeme_wf(s@, out.lexemes@[q], out.spans@[q], out.count as int));
                }
                assert(lexed_by(input@, out.lexemes@, out.spans@));
                assert(lvs(out.lexemes@, out.spans@) =~= lexing(s@));
                assert forall|q: int| 0 <= q < out.lexemes.len() implies lexeme_is(
                    input@,
                    #[trigger] out.lexemes@[q],
                    lexing(input@)[q],
                ) by {
                    assert(lvs(out.lexemes@, out.spans@)[q] == lv_of(out.lexemes@[q], out.spans@[q]));
                    assert(lexeme_wf(s@, out.lexemes@[q], out.spans@[q], out.count as int));
                }
            }
            return Ok(out.lexemes);
        }
        match element(&inp, &mut out, j, 0) {
            Some(k2) => {
                proof {
                    lemma_covers_join(sp1, out.spans@, 0, 0, j as int, k2 as int);
                    let b = skip_lx(s@, k as int, 0, o0.count as int);
                    let el = element_lx(s@, j as int, 0, b.1);
                    lemma_grew_trans(o0, o1, out, b, el);
                    assert(lvs(out.lexemes@, out.spans@) + top_lx(s@, k2 as int, out.count as int).0
                        =~= lv0 + top_lx(s@, k as int, o0.count as int).0);
                }
                k = k2;
            },
            None => {
                return Err(Error { pos: j });
            },
        }
    }
}

/// A name read from `a` to `e`, with its namespace ending at `n` where it
/// has one, has that text.
proof fn lemma_qualified_text(
    s: Seq<char>,
    a: int,
    n: Option<int>,
    e: int,
    namespace: Option<String>,
    name: String,
)
    requires
        0 <= a <= e <= s.len(),
        match n {
            Some(m) => a < m < e && s[m] == '/' && (namespace matches Some(t) && t@ == s.subrange(a, m))
                && name@ == s.subrange(m + 1, e),
            None => namespace is None && name@ == s.subrange(a, e),
        },
    ensures
        qualified_text(namespace, name) == s.subrange(a, e),
{
    if let Some(m) = n {
        assert(s.subrange(a, e) =~= s.subrange(a, m) + seq!['/'] + s.subrange(m + 1, e));
    }
}

proof fn lemma_symbol_slash(s: Seq<char>, i: int)
    ensures
        symbol_parts(s, i) matches Some((Some(n), _)) ==> at(s, n, '/'),
{
}

proof fn lemma_keyword_shape(s: Seq<char>, i: int)
    ensures
        keyword_parts(s, i) matches Some((alias, p, ns, _)) ==> at(s, i, ':') && alias == at(s, i + 1, ':')
            && p == (if alias { i + 2 } else { i + 1 }) && (ns matches Some(n) ==> at(s, n, '/')),
{
}

proof fn lemma_plain_atom_bounds(s: Seq<char>, i: int)
    requires
        0 <= i <= s.len(),
        plain_atom_end(s, i) is Some,
    ensures
        i < plain_atom_end(s, i)->0 <= s.len(),
{
    if super::atoms::number_end(s, i) is Some {
        super::atoms::lemma_number_bounds(s, i);
    }
    if super::atoms::char_end(s, i) is Some {
        super::atoms::lemma_char_bounds(s, i);
    }
    if super::atoms::string_end(s, i) is Some {
        super::atoms::lemma_string_rest_bounds(s, i + 1);
    }
    if super::atoms::regex_end(s, i) is Some {
        super::atoms::lemma_regex_rest_bounds(s, i + 2);
    }
}

} // verus!
