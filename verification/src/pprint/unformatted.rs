//! Unformatted output: the lexemes of a result printed as they are, each
//! with its style.

use vstd::prelude::*;

use super::printer::{Command, CommandView};
use super::style::Style;
use crate::lex::{Lexeme, Token};
use crate::result_ir::handled;
use crate::text::string_of;

verus! {

/// The commands that print `text` in `style`.
pub open spec fn styled(style: Style, text: Seq<char>) -> Seq<CommandView> {
    seq![CommandView::SetStyle(style), CommandView::Text(text), CommandView::ResetStyle(style)]
}

/// The commands that print a name: its namespace and `/`, if it has one, and
/// the name.
pub open spec fn named(ns: Option<String>, ns_style: Style, decoration: Style, name: Seq<char>, name_style: Style) -> Seq<CommandView> {
    match ns {
        Some(n) => styled(ns_style, n@) + styled(decoration, seq!['/']) + styled(name_style, name),
        None => styled(name_style, name),
    }
}

/// The lexemes that the unformatted printer prints: those that results are
/// made of, whitespace with its source.
pub open spec fn printable(l: Lexeme) -> bool {
    handled(l) && (l.token is Whitespace ==> l.source is Some)
}

/// Whether the unformatted printer prints a lexeme.
pub fn is_printable(l: &Lexeme) -> (r: bool)
    ensures
        r == printable(*l),
{
    match &l.token {
        Token::Whitespace => l.source.is_some(),
        Token::SymbolicValuePrefix | Token::Nil | Token::Boolean { .. } | Token::String { .. }
        | Token::Symbol { .. } | Token::Tag { .. } | Token::Keyword { .. } | Token::StartList
        | Token::EndList | Token::StartSet | Token::EndSet | Token::StartVector | Token::EndVector
        | Token::StartMap | Token::EndMap | Token::TaggedLiteral { .. } | Token::VarQuote => true,
        Token::Numeric { .. } | Token::SymbolicValue { .. } => l.source.is_some(),
        _ => false,
    }
}

/// The commands for one lexeme, given the form of the last var quote seen:
/// a symbol in that form is the var-quoted name.
pub open spec fn lexeme_commands(l: Lexeme, var_quote: Option<u32>) -> Seq<CommandView> {
    match l.token {
        Token::Whitespace => styled(Style::Whitespace, l.source->0.str@),
        Token::Nil => styled(Style::NilValue, seq!['n', 'i', 'l']),
        Token::Boolean { value } => styled(
            Style::BooleanValue,
            if value {
                seq!['t', 'r', 'u', 'e']
            } else {
                seq!['f', 'a', 'l', 's', 'e']
            },
        ),
        Token::Numeric { .. } => styled(Style::NumberValue, l.source->0.str@),
        Token::String { raw_value, .. } => styled(Style::StringDecoration, seq!['"']) + styled(
            Style::StringValue,
            raw_value@,
        ) + styled(Style::StringDecoration, seq!['"']),
        Token::SymbolicValuePrefix => styled(Style::SymbolicValueDecoration, seq!['#', '#']),
        Token::SymbolicValue { .. } => styled(Style::SymbolicValue, l.source->0.str@),
        Token::Symbol { namespace, name } => if var_quote == Some(l.parent_ix) {
            named(namespace, Style::VarQuoteNamespace, Style::VarQuoteDecoration, name@, Style::VarQuoteName)
        } else {
            named(namespace, Style::SymbolNamespace, Style::SymbolDecoration, name@, Style::SymbolName)
        },
        Token::Keyword { alias, namespace, name } => styled(
            Style::KeywordDecoration,
            if alias {
                seq![':', ':']
            } else {
                seq![':']
            },
        ) + named(namespace, Style::KeywordNamespace, Style::KeywordDecoration, name@, Style::KeywordName),
        Token::VarQuote => styled(Style::VarQuoteDecoration, seq!['#', '\'']),
        Token::TaggedLiteral { .. } => styled(Style::TaggedLiteralDecoration, seq!['#']),
        Token::Tag { namespace, name } => named(
            namespace,
            Style::TaggedLiteralNamespace,
            Style::TaggedLiteralDecoration,
            name@,
            Style::TaggedLiteralName,
        ),
        Token::StartList => styled(Style::CollectionDelimiter, seq!['(']),
        Token::EndList => styled(Style::CollectionDelimiter, seq![')']),
        Token::StartVector => styled(Style::CollectionDelimiter, seq!['[']),
        Token::EndVector => styled(Style::CollectionDelimiter, seq![']']),
        Token::StartSet => styled(Style::CollectionDelimiter, seq!['#', '{']),
        Token::EndSet => styled(Style::CollectionDelimiter, seq!['}']),
        Token::StartMap => styled(Style::CollectionDelimiter, seq!['{']),
        Token::EndMap => styled(Style::CollectionDelimiter, seq!['}']),
        _ => Seq::empty(),
    }
}

/// The form of the last var quote among the first `k` lexemes.
pub open spec fn last_var_quote(ls: Seq<Lexeme>, k: int) -> Option<u32>
    decreases k,
{
    if k <= 0 || k > ls.len() {
        None
    } else if ls[k - 1].token is VarQuote {
        Some(ls[k - 1].form_ix)
    } else {
        last_var_quote(ls, k - 1)
    }
}

/// The commands for the first `k` lexemes.
pub open spec fn unformatted(ls: Seq<Lexeme>, k: int) -> Seq<CommandView>
    decreases k,
{
    if k <= 0 || k > ls.len() {
        Seq::empty()
    } else {
        unformatted(ls, k - 1) + lexeme_commands(ls[k - 1], last_var_quote(ls, k - 1))
    }
}

fn lit(cs: Vec<char>) -> (s: String)
    ensures
        s@ == cs@,
{
    string_of(cs.as_slice())
}

fn push_styled(out: &mut Vec<Command>, style: Style, text: String)
    ensures
        super::printer::commands_view(final(out)@) == super::printer::commands_view(old(out)@)
            + styled(style, text@),
{
    let ghost t = text@;
    out.push(Command::SetStyle(style));
    out.push(Command::Text(text));
    out.push(Command::ResetStyle(style));
    assert(super::printer::commands_view(out@) =~= super::printer::commands_view(old(out)@)
        + styled(style, t));
}

fn push_named(
    out: &mut Vec<Command>,
    namespace: &Option<String>,
    ns_style: Style,
    decoration: Style,
    name: &String,
    name_style: Style,
)
    ensures
        super::printer::commands_view(final(out)@) == super::printer::commands_view(old(out)@)
            + named(*namespace, ns_style, decoration, name@, name_style),
{
    match namespace {
        Some(n) => {
            push_styled(out, ns_style, n.clone());
            let slash = lit(vec!['/']);
            assert(slash@ =~= seq!['/']);
            push_styled(out, decoration, slash);
        },
        None => {},
    }
    push_styled(out, name_style, name.clone());
    assert(super::printer::commands_view(out@) =~= super::printer::commands_view(old(out)@)
        + named(*namespace, ns_style, decoration, name@, name_style));
}

/// The printer's commands for lexemes printed as they are.
pub fn generate_printer_input(lexemes: &[Lexeme]) -> (out: Vec<Command>)
    requires
        forall|i: int| 0 <= i < lexemes.len() ==> printable(#[trigger] lexemes@[i]),
    ensures
        super::printer::commands_view(out@) == unformatted(lexemes@, lexemes.len() as int),
{
    let mut out: Vec<Command> = Vec::new();
    let mut var_quote: Option<u32> = None;
    let mut k: usize = 0;
    assert(super::printer::commands_view(out@) =~= unformatted(lexemes@, 0));
    while k < lexemes.len()
        invariant
            k <= lexemes.len(),
            forall|i: int| 0 <= i < lexemes.len() ==> printable(#[trigger] lexemes@[i]),
            var_quote == last_var_quote(lexemes@, k as int),
            super::printer::commands_view(out@) == unformatted(lexemes@, k as int),
        decreases lexemes.len() - k,
    {
        let l = &lexemes[k];
        assert(printable(lexemes@[k as int]));
        let ghost before = super::printer::commands_view(out@);
        match &l.token {
            Token::Whitespace => {
                let src = l.source.as_ref().unwrap();
                push_styled(&mut out, Style::Whitespace, src.str.clone());
            },
            Token::Nil => {
                let t = lit(vec!['n', 'i', 'l']);
                assert(t@ =~= seq!['n', 'i', 'l']);
                push_styled(&mut out, Style::NilValue, t);
            },
            Token::Boolean { value } => {
                let t = if *value {
                    lit(vec!['t', 'r', 'u', 'e'])
                } else {
                    lit(vec!['f', 'a', 'l', 's', 'e'])
                };
                assert(t@ =~= (if *value {
                    seq!['t', 'r', 'u', 'e']
                } else {
                    seq!['f', 'a', 'l', 's', 'e']
                }));
                push_styled(&mut out, Style::BooleanValue, t);
            },
            Token::Numeric { .. } => {
                let src = l.source.as_ref().unwrap();
                push_styled(&mut out, Style::NumberValue, src.str.clone());
            },
            Token::String { raw_value, .. } => {
                let q1 = lit(vec!['"']);
                let q2 = lit(vec!['"']);
                assert(q1@ =~= seq!['"']);
                assert(q2@ =~= seq!['"']);
                push_styled(&mut out, Style::StringDecoration, q1);
                push_styled(&mut out, Style::StringValue, raw_value.clone());
                push_styled(&mut out, Style::StringDecoration, q2);
            },
            Token::SymbolicValuePrefix => {
                let t = lit(vec!['#', '#']);
                assert(t@ =~= seq!['#', '#']);
                push_styled(&mut out, Style::SymbolicValueDecoration, t);
            },
            Token::SymbolicValue { .. } => {
                let src = l.source.as_ref().unwrap();
                push_styled(&mut out, Style::SymbolicValue, src.str.clone());
            },
            Token::Symbol { namespace, name } => {
                let quoted = match var_quote {
                    Some(ix) => ix == l.parent_ix,
                    None => false,
                };
                if quoted {
                    push_named(
                        &mut out,
                        namespace,
                        Style::VarQuoteNamespace,
                        Style::VarQuoteDecoration,
                        name,
                        Style::VarQuoteName,
                    );
                } else {
                    push_named(
                        &mut out,
                        namespace,
                        Style::SymbolNamespace,
                        Style::SymbolDecoration,
                        name,
                        Style::SymbolName,
                    );
                }
            },
            Token::Keyword { alias, namespace, name } => {
                let t = if *alias {
                    lit(vec![':', ':'])
                } else {
                    lit(vec![':'])
                };
                assert(t@ =~= (if *alias {
                    seq![':', ':']
                } else {
                    seq![':']
                }));
                push_styled(&mut out, Style::KeywordDecoration, t);
                push_named(
                    &mut out,
                    namespace,
                    Style::KeywordNamespace,
                    Style::KeywordDecoration,
                    name,
                    Style::KeywordName,
                );
            },
            Token::VarQuote => {
                let t = lit(vec!['#', '\'']);
                assert(t@ =~= seq!['#', '\'']);
                push_styled(&mut out, Style::VarQuoteDecoration, t);
            },
            Token::TaggedLiteral { .. } => {
                let t = lit(vec!['#']);
                assert(t@ =~= seq!['#']);
                push_styled(&mut out, Style::TaggedLiteralDecoration, t);
            },
            Token::Tag { namespace, name } => {
                push_named(
                    &mut out,
                    namespace,
                    Style::TaggedLiteralNamespace,
                    Style::TaggedLiteralDecoration,
                    name,
                    Style::TaggedLiteralName,
                );
            },
            Token::StartList => {
                let t = lit(vec!['(']);
                assert(t@ =~= seq!['(']);
                push_styled(&mut out, Style::CollectionDelimiter, t);
            },
            Token::EndList => {
                let t = lit(vec![')']);
                assert(t@ =~= seq![')']);
                push_styled(&mut out, Style::CollectionDelimiter, t);
            },
            Token::StartVector => {
                let t = lit(vec!['[']);
                assert(t@ =~= seq!['[']);
                push_styled(&mut out, Style::CollectionDelimiter, t);
            },
            Token::EndVector => {
                let t = lit(vec![']']);
                assert(t@ =~= seq![']']);
                push_styled(&mut out, Style::CollectionDelimiter, t);
            },
            Token::StartSet => {
                let t = lit(vec!['#', '{']);
                assert(t@ =~= seq!['#', '{']);
                push_styled(&mut out, Style::CollectionDelimiter, t);
            },
            Token::EndSet => {
                let t = lit(vec!['}']);
                assert(t@ =~= seq!['}']);
                push_styled(&mut out, Style::CollectionDelimiter, t);
            },
            Token::StartMap => {
                let t = lit(vec!['{']);
                assert(t@ =~= seq!['{']);
                push_styled(&mut out, Style::CollectionDelimiter, t);
            },
            Token::EndMap => {
                let t = lit(vec!['}']);
                assert(t@ =~= seq!['}']);
                push_styled(&mut out, Style::CollectionDelimiter, t);
            },
            _ => {},
        }
        proof {
            assert(super::printer::commands_view(out@) =~= before + lexeme_commands(lexemes@[k as int], var_quote));
        }
        if let Token::VarQuote = l.token {
            var_quote = Some(l.form_ix);
        }
        k = k + 1;
    }
    out
}

} // verus!
