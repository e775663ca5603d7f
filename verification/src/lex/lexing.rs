//! The lexemes of a text, as plain values: which lexemes the lexer gives,
//! in which order, from which spans, and how their forms are numbered.
//!
//! The lexing follows the grammar: whitespace and comments each make a
//! lexeme of their own, every form gets the next free number when it is
//! met, and every lexeme names the form that it belongs to and that form's
//! parent.  A prefix that stands for a whole construct (a symbolic value's
//! `##`, a tagged literal's `#`) spans the whole construct.

use vstd::prelude::*;

use super::atoms::{char_end, comment_end, number_end, skip_end, string_end, word_end};
use super::grammar::{
    body_end, discarded_end, element_end, false_word, form_end, keyword_end, map_qualifier_end,
    meta_prefix_end, nil_word, opening, plain_atom_end, quote_prefix_end, symbol_end,
    symbolic_end, true_word,
};
use super::scanner::{at, at_class, run_end, Class};
use super::types::Token;

verus! {

/// What a lexeme's token is, apart from what its text gives: its variant,
/// and for metadata and tagged literals the numbers of their forms.
pub enum TokenKind {
    Whitespace,
    Comment,
    Meta(int, int),
    Discard,
    Quote,
    VarQuote,
    Synquote,
    Unquote,
    SplicingUnquote,
    Nil,
    Boolean,
    Numeric,
    Char,
    String,
    Regex,
    SymbolicValuePrefix,
    SymbolicValue,
    Symbol,
    Tag,
    Keyword,
    StartList,
    EndList,
    StartVector,
    EndVector,
    StartSet,
    EndSet,
    MapQualifier,
    StartMap,
    EndMap,
    StartAnonymousFn,
    EndAnonymousFn,
    ReaderConditionalPrefix,
    StartReaderConditional,
    EndReaderConditional,
    TaggedLiteral(int, int),
    Residual,
}

pub open spec fn token_kind(t: Token) -> TokenKind {
    match t {
        Token::Whitespace => TokenKind::Whitespace,
        Token::Comment => TokenKind::Comment,
        Token::Meta { metaform_ix, subform_ix } => TokenKind::Meta(
            metaform_ix as int,
            subform_ix as int,
        ),
        Token::Discard => TokenKind::Discard,
        Token::Quote => TokenKind::Quote,
        Token::VarQuote => TokenKind::VarQuote,
        Token::Synquote => TokenKind::Synquote,
        Token::Unquote => TokenKind::Unquote,
        Token::SplicingUnquote => TokenKind::SplicingUnquote,
        Token::Nil => TokenKind::Nil,
        Token::Boolean { .. } => TokenKind::Boolean,
        Token::Numeric { .. } => TokenKind::Numeric,
        Token::Char { .. } => TokenKind::Char,
        Token::String { .. } => TokenKind::String,
        Token::Regex { .. } => TokenKind::Regex,
        Token::SymbolicValuePrefix => TokenKind::SymbolicValuePrefix,
        Token::SymbolicValue { .. } => TokenKind::SymbolicValue,
        Token::Symbol { .. } => TokenKind::Symbol,
        Token::Tag { .. } => TokenKind::Tag,
        Token::Keyword { .. } => TokenKind::Keyword,
        Token::StartList => TokenKind::StartList,
        Token::EndList => TokenKind::EndList,
        Token::StartVector => TokenKind::StartVector,
        Token::EndVector => TokenKind::EndVector,
        Token::StartSet => TokenKind::StartSet,
        Token::EndSet => TokenKind::EndSet,
        Token::MapQualifier { .. } => TokenKind::MapQualifier,
        Token::StartMap => TokenKind::StartMap,
        Token::EndMap => TokenKind::EndMap,
        Token::StartAnonymousFn => TokenKind::StartAnonymousFn,
        Token::EndAnonymousFn => TokenKind::EndAnonymousFn,
        Token::ReaderConditionalPrefix { .. } => TokenKind::ReaderConditionalPrefix,
        Token::StartReaderConditional => TokenKind::StartReaderConditional,
        Token::EndReaderConditional => TokenKind::EndReaderConditional,
        Token::TaggedLiteral { tag_ix, arg_ix } => TokenKind::TaggedLiteral(
            tag_ix as int,
            arg_ix as int,
        ),
        Token::Residual { .. } => TokenKind::Residual,
    }
}

/// A lexeme as plain values: the number of the form it belongs to and of
/// that form's parent, its kind, and the span of the text it is read from.
pub struct LexemeView {
    pub parent: int,
    pub form: int,
    pub kind: TokenKind,
    pub start: int,
    pub end: int,
}

pub open spec fn lv(parent: int, form: int, kind: TokenKind, start: int, end: int) -> LexemeView {
    LexemeView { parent, form, kind, start, end }
}

/// The kind of the plain atom at `i`, tried in the grammar's order.
pub open spec fn plain_kind(s: Seq<char>, i: int) -> TokenKind {
    if word_end(s, i, nil_word()) is Some {
        TokenKind::Nil
    } else if word_end(s, i, true_word()) is Some || word_end(s, i, false_word()) is Some {
        TokenKind::Boolean
    } else if number_end(s, i) is Some {
        TokenKind::Numeric
    } else if char_end(s, i) is Some {
        TokenKind::Char
    } else if string_end(s, i) is Some {
        TokenKind::String
    } else {
        TokenKind::Regex
    }
}

/// The kind of the quote prefix at `i`.
pub open spec fn quote_kind(s: Seq<char>, i: int) -> TokenKind {
    if at(s, i, '\'') {
        TokenKind::Quote
    } else if at(s, i, '`') {
        TokenKind::Synquote
    } else if at(s, i, '#') && at(s, i + 1, '\'') {
        TokenKind::VarQuote
    } else if at(s, i, '~') && at(s, i + 1, '@') {
        TokenKind::SplicingUnquote
    } else {
        TokenKind::Unquote
    }
}

/// The kinds of the opening and the closing of the collection at `i`.
pub open spec fn open_kinds(s: Seq<char>, i: int) -> (TokenKind, TokenKind) {
    if at(s, i, '(') {
        (TokenKind::StartList, TokenKind::EndList)
    } else if at(s, i, '[') {
        (TokenKind::StartVector, TokenKind::EndVector)
    } else if at(s, i, '#') && at(s, i + 1, '(') {
        (TokenKind::StartAnonymousFn, TokenKind::EndAnonymousFn)
    } else if at(s, i, '#') && at(s, i + 1, '{') {
        (TokenKind::StartSet, TokenKind::EndSet)
    } else {
        (TokenKind::StartMap, TokenKind::EndMap)
    }
}

/// The lexemes of the whitespace and comments from `i` on, each a child of
/// `parent` with a form of its own numbered from `c + 1`; and the last
/// number handed out.
pub open spec fn skip_lx(s: Seq<char>, i: int, parent: int, c: int) -> (Seq<LexemeView>, int)
    decreases s.len() - i,
{
    if 0 <= i && at_class(s, i, Class::Ws) {
        let k = run_end(s, i, Class::Ws);
        if i < k <= s.len() {
            let r = skip_lx(s, k, parent, c + 1);
            (seq![lv(parent, c + 1, TokenKind::Whitespace, i, k)] + r.0, r.1)
        } else {
            (Seq::empty(), c)
        }
    } else if 0 <= i && comment_end(s, i) is Some {
        let k = comment_end(s, i)->0;
        if i < k <= s.len() {
            let r = skip_lx(s, k, parent, c + 1);
            (seq![lv(parent, c + 1, TokenKind::Comment, i, k)] + r.0, r.1)
        } else {
            (Seq::empty(), c)
        }
    } else {
        (Seq::empty(), c)
    }
}

/// The lexemes of the form at `i`, numbered `ix`, a child of `parent`, with
/// `c` the last number handed out; and the last number handed out after it.
pub open spec fn form_lx(s: Seq<char>, i: int, parent: int, ix: int, c: int) -> (
    Seq<LexemeView>,
    int,
)
    decreases s.len() - i, 2int,
{
    if i < 0 || i > s.len() {
        (Seq::empty(), c)
    } else if at(s, i, '#') && at(s, i + 1, '_') {
        match discarded_end(s, i) {
            Some(d) => if i < d <= s.len() && i < skip_end(s, d) <= s.len() {
                let a = discarded_lx(s, i, parent, c + 1, c + 1);
                let b = skip_lx(s, d, parent, a.1);
                let f = form_lx(s, skip_end(s, d), parent, ix, b.1);
                (a.0 + b.0 + f.0, f.1)
            } else {
                (Seq::empty(), c)
            },
            None => (Seq::empty(), c),
        }
    } else if quote_prefix_end(s, i) is Some {
        quote_lx(s, i, parent, ix, c)
    } else if meta_prefix_end(s, i) is Some {
        meta_lx(s, i, parent, ix, c)
    } else {
        expr_lx(s, i, parent, ix, c)
    }
}

pub open spec fn discarded_lx(s: Seq<char>, i: int, parent: int, ix: int, c: int) -> (
    Seq<LexemeView>,
    int,
)
    decreases s.len() - i, 1int,
{
    if 0 <= i && at(s, i, '#') && at(s, i + 1, '_') && i < skip_end(s, i + 2) <= s.len() {
        let b = skip_lx(s, i + 2, ix, c);
        let f = form_lx(s, skip_end(s, i + 2), ix, b.1 + 1, b.1 + 1);
        (seq![lv(parent, ix, TokenKind::Discard, i, i + 2)] + b.0 + f.0, f.1)
    } else {
        (Seq::empty(), c)
    }
}

pub open spec fn quote_lx(s: Seq<char>, i: int, parent: int, ix: int, c: int) -> (
    Seq<LexemeView>,
    int,
)
    decreases s.len() - i, 1int,
{
    match quote_prefix_end(s, i) {
        Some(p) => if 0 <= i < skip_end(s, p) <= s.len() {
            let b = skip_lx(s, p, ix, c);
            let f = form_lx(s, skip_end(s, p), ix, b.1 + 1, b.1 + 1);
            (seq![lv(parent, ix, quote_kind(s, i), i, p)] + b.0 + f.0, f.1)
        } else {
            (Seq::empty(), c)
        },
        None => (Seq::empty(), c),
    }
}

pub open spec fn meta_lx(s: Seq<char>, i: int, parent: int, ix: int, c: int) -> (
    Seq<LexemeView>,
    int,
)
    decreases s.len() - i, 1int,
{
    match meta_prefix_end(s, i) {
        Some(p) => if 0 <= i < skip_end(s, p) <= s.len() {
            let b = skip_lx(s, p, ix, c + 2);
            let f = form_lx(s, skip_end(s, p), ix, c + 1, b.1);
            match form_end(s, skip_end(s, p)) {
                Some(k) => if i < k <= s.len() && i < skip_end(s, k) <= s.len() {
                    let b2 = skip_lx(s, k, ix, f.1);
                    let f2 = form_lx(s, skip_end(s, k), ix, c + 2, b2.1);
                    (seq![lv(parent, ix, TokenKind::Meta(c + 1, c + 2), i, p)] + b.0 + f.0 + b2.0
                        + f2.0, f2.1)
                } else {
                    (Seq::empty(), c)
                },
                None => (Seq::empty(), c),
            }
        } else {
            (Seq::empty(), c)
        },
        None => (Seq::empty(), c),
    }
}

pub open spec fn expr_lx(s: Seq<char>, i: int, parent: int, ix: int, c: int) -> (
    Seq<LexemeView>,
    int,
)
    decreases s.len() - i, 1int,
{
    if i < 0 || i > s.len() {
        (Seq::empty(), c)
    } else if plain_atom_end(s, i) is Some {
        (seq![lv(parent, ix, plain_kind(s, i), i, plain_atom_end(s, i)->0)], c)
    } else if symbolic_end(s, i) is Some {
        let e = symbolic_end(s, i)->0;
        let b = skip_lx(s, i + 2, ix, c);
        (seq![lv(parent, ix, TokenKind::SymbolicValuePrefix, i, e)] + b.0 + seq![
            lv(parent, ix, TokenKind::SymbolicValue, i, e),
        ], b.1)
    } else if symbol_end(s, i) is Some {
        (seq![lv(parent, ix, TokenKind::Symbol, i, symbol_end(s, i)->0)], c)
    } else if keyword_end(s, i) is Some {
        (seq![lv(parent, ix, TokenKind::Keyword, i, keyword_end(s, i)->0)], c)
    } else if opening(s, i) is Some {
        let (p, close) = opening(s, i)->0;
        if i < p <= s.len() {
            let bd = body_lx(s, p, close, open_kinds(s, i).1, parent, ix, c);
            (seq![lv(parent, ix, open_kinds(s, i).0, i, p)] + bd.0, bd.1)
        } else {
            (Seq::empty(), c)
        }
    } else if map_qualifier_end(s, i) is Some {
        map_lx(s, i, parent, ix, c)
    } else if conditional_lx(s, i, parent, ix, c) is Some {
        conditional_lx(s, i, parent, ix, c)->0
    } else {
        tagged_lx(s, i, parent, ix, c)
    }
}

/// The lexemes of the namespaced map at `i`.
pub open spec fn map_lx(s: Seq<char>, i: int, parent: int, ix: int, c: int) -> (
    Seq<LexemeView>,
    int,
)
    decreases s.len() - i, 0int,
{
    match map_qualifier_end(s, i) {
        Some(q) => if 0 <= i < q <= skip_end(s, q) <= s.len() && at(s, skip_end(s, q), '{') {
            let j = skip_end(s, q);
            let b = skip_lx(s, q, ix, c + 1);
            let bd = body_lx(s, j + 1, '}', TokenKind::EndMap, ix, c + 1, b.1);
            (seq![lv(parent, ix, TokenKind::MapQualifier, i, q)] + b.0 + seq![
                lv(ix, c + 1, TokenKind::StartMap, j, j + 1),
            ] + bd.0, bd.1)
        } else {
            (Seq::empty(), c)
        },
        None => (Seq::empty(), c),
    }
}

/// The lexemes of the reader conditional at `i`, where there is one.
pub open spec fn conditional_lx(s: Seq<char>, i: int, parent: int, ix: int, c: int) -> Option<
    (Seq<LexemeView>, int),
>
    decreases s.len() - i, 0int,
{
    if 0 <= i && at(s, i, '#') && at(s, i + 1, '?') {
        let p = if at(s, i + 2, '@') {
            i + 3
        } else {
            i + 2
        };
        if i < p <= skip_end(s, p) <= s.len() && at(s, skip_end(s, p), '(') && body_end(
            s,
            skip_end(s, p) + 1,
            ')',
        ) is Some {
            let j = skip_end(s, p);
            let b = skip_lx(s, p, ix, c);
            let bd = body_lx(s, j + 1, ')', TokenKind::EndList, ix, b.1 + 1, b.1 + 1);
            Some(
                (seq![lv(parent, ix, TokenKind::ReaderConditionalPrefix, i, p)] + b.0 + seq![
                    lv(ix, b.1 + 1, TokenKind::StartList, j, j + 1),
                ] + bd.0, bd.1),
            )
        } else {
            None
        }
    } else {
        None
    }
}

pub open spec fn tagged_lx(s: Seq<char>, i: int, parent: int, ix: int, c: int) -> (
    Seq<LexemeView>,
    int,
)
    decreases s.len() - i, 0int,
{
    if 0 <= i && at(s, i, '#') && !at(s, i + 1, '_') && i < skip_end(s, i + 1) <= s.len() {
        let j = skip_end(s, i + 1);
        let b = skip_lx(s, i + 1, ix, c + 2);
        match symbol_end(s, j) {
            Some(e1) => if i < e1 <= s.len() && i < skip_end(s, e1) <= s.len() {
                let b2 = skip_lx(s, e1, ix, b.1);
                let f = form_lx(s, skip_end(s, e1), ix, c + 2, b2.1);
                let e = match form_end(s, skip_end(s, e1)) {
                    Some(e) => e,
                    None => i + 1,
                };
                (seq![lv(parent, ix, TokenKind::TaggedLiteral(c + 1, c + 2), i, e)] + b.0 + seq![
                    lv(ix, c + 1, TokenKind::Tag, j, e1),
                ] + b2.0 + f.0, f.1)
            } else {
                (Seq::empty(), c)
            },
            None => (Seq::empty(), c),
        }
    } else {
        (Seq::empty(), c)
    }
}

/// The lexemes of a collection's body from `i` on, whose elements are
/// children of `ix` and whose closing (of kind `endk`) belongs to `ix`, a
/// child of `parent`.
pub open spec fn body_lx(
    s: Seq<char>,
    i: int,
    close: char,
    endk: TokenKind,
    parent: int,
    ix: int,
    c: int,
) -> (Seq<LexemeView>, int)
    decreases s.len() - i, 4int,
{
    if i < 0 || i > s.len() || !(i <= skip_end(s, i) <= s.len()) {
        (Seq::empty(), c)
    } else {
        let j = skip_end(s, i);
        let b = skip_lx(s, i, ix, c);
        if at(s, j, close) {
            (b.0 + seq![lv(parent, ix, endk, j, j + 1)], b.1)
        } else {
            match element_end(s, j) {
                Some(k) => if j < k <= s.len() {
                    let el = element_lx(s, j, ix, b.1);
                    let r = body_lx(s, k, close, endk, parent, ix, el.1);
                    (b.0 + el.0 + r.0, r.1)
                } else {
                    (Seq::empty(), c)
                },
                None => (Seq::empty(), c),
            }
        }
    }
}

/// The lexemes of the element at `j`, a child of `parent`: a form, or a
/// discarded form where no form starts there.
pub open spec fn element_lx(s: Seq<char>, j: int, parent: int, c: int) -> (Seq<LexemeView>, int)
    decreases s.len() - j, 3int,
{
    if form_end(s, j) is Some {
        form_lx(s, j, parent, c + 1, c + 1)
    } else if at(s, j, '#') && at(s, j + 1, '_') {
        discarded_lx(s, j, parent, c + 1, c + 1)
    } else {
        (Seq::empty(), c)
    }
}

/// The lexemes of the top level from `i` on, whose elements are children of
/// the form numbered 0.
pub open spec fn top_lx(s: Seq<char>, i: int, c: int) -> (Seq<LexemeView>, int)
    decreases s.len() - i, 4int,
{
    if i < 0 || i > s.len() || !(i <= skip_end(s, i) <= s.len()) {
        (Seq::empty(), c)
    } else {
        let j = skip_end(s, i);
        let b = skip_lx(s, i, 0, c);
        if j == s.len() {
            b
        } else {
            match element_end(s, j) {
                Some(k) => if j < k <= s.len() {
                    let el = element_lx(s, j, 0, b.1);
                    let r = top_lx(s, k, el.1);
                    (b.0 + el.0 + r.0, r.1)
                } else {
                    (Seq::empty(), c)
                },
                None => (Seq::empty(), c),
            }
        }
    }
}

/// The lexemes of a text that the grammar accepts, in order.
pub open spec fn lexing(s: Seq<char>) -> Seq<LexemeView> {
    top_lx(s, 0, 0).0
}

} // verus!
