//! The grammar of Clojure forms, as a recognizer: for each kind of form,
//! where it ends when it starts at a given position, or that none starts
//! there.
//!
//! The first characters of a form decide its kind; among the atoms, and
//! between a reader conditional and a tagged literal, the alternatives are
//! tried in order and the first that matches wins, as in a parsing
//! expression grammar.  Between the pieces of a form there may be whitespace
//! and comments.

use vstd::prelude::*;

use super::atoms::{
    char_end, number_end, regex_end, skip_end, string_end, word_end,
};
use super::scanner::{at, keyword_parts, namespace_end, symbol_parts};

verus! {

/// The first of two alternatives that matches.
pub open spec fn first_of(a: Option<int>, b: Option<int>) -> Option<int> {
    if a is Some {
        a
    } else {
        b
    }
}

pub open spec fn nil_word() -> Seq<char> {
    seq!['n', 'i', 'l']
}

pub open spec fn true_word() -> Seq<char> {
    seq!['t', 'r', 'u', 'e']
}

pub open spec fn false_word() -> Seq<char> {
    seq!['f', 'a', 'l', 's', 'e']
}

/// A symbolic value (`##Inf`): `##`, whitespace and comments, and an
/// unqualified symbol.
pub open spec fn symbolic_end(s: Seq<char>, i: int) -> Option<int> {
    if 0 <= i && at(s, i, '#') && at(s, i + 1, '#') {
        match symbol_parts(s, skip_end(s, i + 2)) {
            Some((None, e)) => Some(e),
            _ => None,
        }
    } else {
        None
    }
}

pub open spec fn symbol_end(s: Seq<char>, i: int) -> Option<int> {
    match symbol_parts(s, i) {
        Some((_, e)) => Some(e),
        None => None,
    }
}

pub open spec fn keyword_end(s: Seq<char>, i: int) -> Option<int> {
    match keyword_parts(s, i) {
        Some((_, _, _, e)) => Some(e),
        None => None,
    }
}

/// The atoms that stand alone: `nil`, `true`, `false`, numbers, characters,
/// strings and regular expressions, in the order they are tried.
pub open spec fn plain_atom_end(s: Seq<char>, i: int) -> Option<int> {
    first_of(
        word_end(s, i, nil_word()),
        first_of(
            word_end(s, i, true_word()),
            first_of(
                word_end(s, i, false_word()),
                first_of(
                    number_end(s, i),
                    first_of(char_end(s, i), first_of(string_end(s, i), regex_end(s, i))),
                ),
            ),
        ),
    )
}

/// The atoms, in the order they are tried: the plain atoms, symbolic values,
/// symbols and keywords.
pub open spec fn atom_end(s: Seq<char>, i: int) -> Option<int> {
    first_of(
        plain_atom_end(s, i),
        first_of(symbolic_end(s, i), first_of(symbol_end(s, i), keyword_end(s, i))),
    )
}

/// Where the prefix of a quoted or unquoted form (`'`, `#'`, `` ` ``, `~@`,
/// `~`) that starts at `i` ends.
pub open spec fn quote_prefix_end(s: Seq<char>, i: int) -> Option<int> {
    if at(s, i, '\'') || at(s, i, '`') {
        Some(i + 1)
    } else if at(s, i, '#') && at(s, i + 1, '\'') {
        Some(i + 2)
    } else if at(s, i, '~') && at(s, i + 1, '@') {
        Some(i + 2)
    } else if at(s, i, '~') {
        Some(i + 1)
    } else {
        None
    }
}

/// Where the prefix of a form with metadata (`^` or `#^`) ends.
pub open spec fn meta_prefix_end(s: Seq<char>, i: int) -> Option<int> {
    if at(s, i, '^') {
        Some(i + 1)
    } else if at(s, i, '#') && at(s, i + 1, '^') {
        Some(i + 2)
    } else {
        None
    }
}

/// Where the opening of a collection starting at `i` ends, and the character
/// that closes it: `(`, `[`, `#(`, `#{` and `{`.
pub open spec fn opening(s: Seq<char>, i: int) -> Option<(int, char)> {
    if at(s, i, '(') {
        Some((i + 1, ')'))
    } else if at(s, i, '[') {
        Some((i + 1, ']'))
    } else if at(s, i, '#') && at(s, i + 1, '(') {
        Some((i + 2, ')'))
    } else if at(s, i, '#') && at(s, i + 1, '{') {
        Some((i + 2, '}'))
    } else if at(s, i, '{') {
        Some((i + 1, '}'))
    } else {
        None
    }
}

/// Where the qualifier of a namespaced map (`#:ns` or `#::`, the namespace
/// being optional) ends.
pub open spec fn map_qualifier_end(s: Seq<char>, i: int) -> Option<int> {
    if at(s, i, '#') && at(s, i + 1, ':') {
        let p = if at(s, i + 2, ':') {
            i + 3
        } else {
            i + 2
        };
        match namespace_end(s, p) {
            Some(n) => Some(n),
            None => Some(p),
        }
    } else {
        None
    }
}

/// Where the prefix of a reader conditional (`#?` or `#?@`) ends.
pub open spec fn conditional_prefix_end(s: Seq<char>, i: int) -> Option<int> {
    if at(s, i, '#') && at(s, i + 1, '?') {
        if at(s, i + 2, '@') {
            Some(i + 3)
        } else {
            Some(i + 2)
        }
    } else {
        None
    }
}

/// A form: discarded forms (`#_`) followed by a form, a quoted or unquoted
/// form, a form with metadata, or an expression.
pub open spec fn form_end(s: Seq<char>, i: int) -> Option<int>
    decreases s.len() - i, 2int,
{
    if i < 0 || i > s.len() {
        None
    } else if at(s, i, '#') && at(s, i + 1, '_') {
        match discarded_end(s, i) {
            Some(d) => if i < d <= s.len() && i < skip_end(s, d) <= s.len() {
                form_end(s, skip_end(s, d))
            } else {
                None
            },
            None => None,
        }
    } else if quote_prefix_end(s, i) is Some {
        quote_end(s, i)
    } else if meta_prefix_end(s, i) is Some {
        meta_end(s, i)
    } else {
        expr_end(s, i)
    }
}

/// A discarded form: `#_` and the form it discards.
pub open spec fn discarded_end(s: Seq<char>, i: int) -> Option<int>
    decreases s.len() - i, 1int,
{
    if 0 <= i && at(s, i, '#') && at(s, i + 1, '_') && i < skip_end(s, i + 2) <= s.len() {
        form_end(s, skip_end(s, i + 2))
    } else {
        None
    }
}

pub open spec fn quote_end(s: Seq<char>, i: int) -> Option<int>
    decreases s.len() - i, 1int,
{
    match quote_prefix_end(s, i) {
        Some(p) => if 0 <= i < skip_end(s, p) <= s.len() {
            form_end(s, skip_end(s, p))
        } else {
            None
        },
        None => None,
    }
}

/// A form with metadata: the prefix, the metadata form and the form.
pub open spec fn meta_end(s: Seq<char>, i: int) -> Option<int>
    decreases s.len() - i, 1int,
{
    match meta_prefix_end(s, i) {
        Some(p) => if 0 <= i < skip_end(s, p) <= s.len() {
            match form_end(s, skip_end(s, p)) {
                Some(k) => if i < k <= s.len() && i < skip_end(s, k) <= s.len() {
                    form_end(s, skip_end(s, k))
                } else {
                    None
                },
                None => None,
            }
        } else {
            None
        },
        None => None,
    }
}

/// An expression: an atom, a collection, a namespaced map, a reader
/// conditional or a tagged literal.
pub open spec fn expr_end(s: Seq<char>, i: int) -> Option<int>
    decreases s.len() - i, 1int,
{
    if i < 0 || i > s.len() {
        None
    } else if atom_end(s, i) is Some {
        atom_end(s, i)
    } else if opening(s, i) is Some {
        let (p, close) = opening(s, i)->0;
        if i < p <= s.len() {
            body_end(s, p, close)
        } else {
            None
        }
    } else if map_qualifier_end(s, i) is Some {
        let q = map_qualifier_end(s, i)->0;
        if i < q <= skip_end(s, q) <= s.len() && at(s, skip_end(s, q), '{') {
            body_end(s, skip_end(s, q) + 1, '}')
        } else {
            None
        }
    } else {
        let conditional = match conditional_prefix_end(s, i) {
            Some(p) => if i < p <= skip_end(s, p) <= s.len() && at(s, skip_end(s, p), '(') {
                body_end(s, skip_end(s, p) + 1, ')')
            } else {
                None
            },
            None => None,
        };
        if conditional is Some {
            conditional
        } else {
            tagged_end(s, i)
        }
    }
}

/// A tagged literal: `#`, the tag (a symbol) and the tagged form, with
/// whitespace and comments between them.  `#_` is always a discard.
pub open spec fn tagged_end(s: Seq<char>, i: int) -> Option<int>
    decreases s.len() - i, 0int,
{
    if 0 <= i && at(s, i, '#') && !at(s, i + 1, '_') && i < skip_end(s, i + 1) <= s.len() {
        match symbol_end(s, skip_end(s, i + 1)) {
            Some(e) => if i < e <= s.len() && i < skip_end(s, e) <= s.len() {
                form_end(s, skip_end(s, e))
            } else {
                None
            },
            None => None,
        }
    } else {
        None
    }
}

/// The body of a collection from `i` on: forms and discarded forms, with
/// whitespace and comments between them, up to and including `close`.
pub open spec fn body_end(s: Seq<char>, i: int, close: char) -> Option<int>
    decreases s.len() - i, 4int,
{
    if i < 0 || i > s.len() || !(i <= skip_end(s, i) <= s.len()) {
        None
    } else {
        let j = skip_end(s, i);
        if at(s, j, close) {
            Some(j + 1)
        } else {
            match element_end(s, j) {
                Some(k) => if j < k <= s.len() {
                    body_end(s, k, close)
                } else {
                    None
                },
                None => None,
            }
        }
    }
}

/// An element of a body or of the top level: a form, or, where none starts,
/// a discarded form.
pub open spec fn element_end(s: Seq<char>, j: int) -> Option<int>
    decreases s.len() - j, 3int,
{
    if form_end(s, j) is Some {
        form_end(s, j)
    } else if at(s, j, '#') && at(s, j + 1, '_') {
        discarded_end(s, j)
    } else {
        None
    }
}

/// The top level from `i` on: forms and discarded forms, with whitespace and
/// comments between them, up to the end of the input.
pub open spec fn top_end(s: Seq<char>, i: int) -> Option<int>
    decreases s.len() - i, 4int,
{
    if i < 0 || i > s.len() || !(i <= skip_end(s, i) <= s.len()) {
        None
    } else {
        let j = skip_end(s, i);
        if j == s.len() {
            Some(j)
        } else {
            match element_end(s, j) {
                Some(k) => if j < k <= s.len() {
                    top_end(s, k)
                } else {
                    None
                },
                None => None,
            }
        }
    }
}

/// Whether `s` is Clojure source that the lexer accepts.
pub open spec fn accepts(s: Seq<char>) -> bool {
    top_end(s, 0) == Some(s.len() as int)
}

} // verus!
