//! The printer of evaluation results: pretty or as written, colored or
//! plain.

use vstd::prelude::*;

use super::layout::{commands_text, layout, lemma_layout_keeps_text, solve};
use super::printer::{commands_view, print, render};
use super::program::{
    convert_to_layout_program, keys_width, lemma_chunks_text_from, lemma_layout_view, nodes, nodes_all,
    nodes_entries, pretty_commands, pretty_printable, pretty_printable_all, pretty_printable_entries, tokens, lemma_printable_all, lemma_printable_entries,
};
use super::unformatted::{generate_printer_input, printable, unformatted};
use crate::lex::Lexeme;
use crate::result_ir::{build, entries_view, spec_build, value_view, values_view, BuildError, MapEntry, Value};

verus! {

/// How results are printed.
#[derive(Debug, Clone, Copy)]
pub struct ClojureResultPrinter {
    pub pretty: bool,
    pub color: bool,
    pub width: u16,
}

/// How lexemes are shown when they are dumped as they are.
#[derive(Debug, Clone, Copy)]
pub struct Formatter {
    pub pretty: bool,
    pub color: bool,
}

impl Formatter {
    pub fn new(pretty: bool, color: bool) -> (r: Self)
        ensures
            r.pretty == pretty,
            r.color == color,
    {
        Self { pretty, color }
    }
}

/// Text that is borrowed or owned.
#[derive(Debug, Clone)]
pub enum FragmentText<'a> {
    Borrowed(&'a str),
    Owned(String),
}

impl<'a> FragmentText<'a> {
    pub open spec fn text(&self) -> Seq<char> {
        match self {
            FragmentText::Borrowed(s) => s@,
            FragmentText::Owned(s) => s@,
        }
    }

    pub fn as_str(&self) -> (r: &str)
        ensures
            r@ == self.text(),
    {
        match self {
            FragmentText::Borrowed(s) => s,
            FragmentText::Owned(s) => s.as_str(),
        }
    }
}

/// Why a result could not be printed.
#[derive(Debug, Clone, Copy, PartialEq, Eq)]
pub enum PrintError {
    /// The lexemes are not one value.
    Build(BuildError),
    /// The value is too large to number its anchors.
    TooLarge,
    /// The layout takes a column beyond 16 bits.
    Layout,
}

/// The number of values a value is made of, where it is at most `limit`.
fn count_nodes(v: &Value, limit: usize) -> (r: Option<usize>)
    ensures
        match r {
            Some(n) => n == nodes(value_view(*v)) && n <= limit,
            None => nodes(value_view(*v)) > limit,
        },
    decreases v, 1int,
{
    if limit == 0 {
        return None;
    }
    let inner = match v {
        Value::TaggedLiteral { value, .. } => count_nodes(value, limit - 1),
        Value::List { values } => count_seq(values, limit - 1),
        Value::Vector { values } => count_seq(values, limit - 1),
        Value::SetColl { values } => count_seq(values, limit - 1),
        Value::MapColl { entries } => count_entries(entries, limit - 1),
        _ => Some(0),
    };
    match inner {
        Some(n) => Some(n + 1),
        None => None,
    }
}

fn count_seq(values: &Vec<Value>, limit: usize) -> (r: Option<usize>)
    ensures
        match r {
            Some(n) => n == nodes_all(values_view(values@)) && n <= limit,
            None => nodes_all(values_view(values@)) > limit,
        },
    decreases values@, 0int,
{
    let ghost vs = values_view(values@);
    let mut acc: usize = 0;
    let mut k: usize = 0;
    while k < values.len()
        invariant
            vs == values_view(values@),
            k <= values.len(),
            acc == nodes_all(vs.take(k as int)),
            acc <= limit,
        decreases values.len() - k,
    {
        proof {
            assert(vs.take(k + 1).drop_last() == vs.take(k as int));
            assert(vs[k as int] == value_view(values@[k as int]));
        }
        match count_nodes(&values[k], limit - acc) {
            Some(n) => {
                acc = acc + n;
            },
            None => {
                proof {
                    lemma_nodes_all_grow(vs, k as int + 1);
                }
                return None;
            },
        }
        k = k + 1;
    }
    assert(vs.take(values.len() as int) == vs);
    Some(acc)
}

/// Whether the pretty printer can print the value: it can cut every string,
/// and no map has rigid keys wider than 32766 bytes.
pub fn can_print_pretty(v: &Value) -> (r: bool)
    ensures
        r == pretty_printable(value_view(*v)),
    decreases v, 1int,
{
    match v {
        Value::String { literal } => {
            let cs = crate::text::chars_of(literal.as_str());
            let n = cs.len();
            n >= 2 && cs[0] < '\u{80}' && cs[n - 1] < '\u{80}'
        },
        Value::TaggedLiteral { value, .. } => can_print_pretty(value),
        Value::List { values } => printable_seq(values),
        Value::Vector { values } => printable_seq(values),
        Value::SetColl { values } => printable_seq(values),
        Value::MapColl { entries } => {
            let fits = match keys_width(entries) {
                Some(w) => w <= 0x7FFE,
                None => true,
            };
            fits && printable_entries(entries)
        },
        _ => true,
    }
}

fn printable_seq(values: &Vec<Value>) -> (r: bool)
    ensures
        r == pretty_printable_all(values_view(values@)),
    decreases values@, 0int,
{
    let ghost vs = values_view(values@);
    let mut k: usize = 0;
    while k < values.len()
        invariant
            vs == values_view(values@),
            k <= values.len(),
            pretty_printable_all(vs.take(k as int)),
        decreases values.len() - k,
    {
        proof {
            assert(vs.take(k + 1).drop_last() == vs.take(k as int));
            assert(vs[k as int] == value_view(values@[k as int]));
        }
        if !can_print_pretty(&values[k]) {
            proof {
                if pretty_printable_all(vs) {
                    lemma_printable_all(vs, k as int);
                }
            }
            return false;
        }
        k = k + 1;
    }
    assert(vs.take(values.len() as int) == vs);
    true
}

fn printable_entries(entries: &Vec<MapEntry>) -> (r: bool)
    ensures
        r == pretty_printable_entries(entries_view(entries@)),
    decreases entries@, 0int,
{
    let ghost es = entries_view(entries@);
    let mut k: usize = 0;
    while k < entries.len()
        invariant
            es == entries_view(entries@),
            k <= entries.len(),
            pretty_printable_entries(es.take(k as int)),
        decreases entries.len() - k,
    {
        proof {
            assert(es.take(k + 1).drop_last() == es.take(k as int));
            assert(es[k as int].0 == value_view(entries@[k as int].key));
            assert(es[k as int].1 == value_view(entries@[k as int].value));
        }
        let key_ok = can_print_pretty(&entries[k].key);
        let value_ok = can_print_pretty(&entries[k].value);
        if !key_ok || !value_ok {
            proof {
                if pretty_printable_entries(es) {
                    lemma_printable_entries(es, k as int);
                }
            }
            return false;
        }
        k = k + 1;
    }
    assert(es.take(entries.len() as int) == es);
    true
}

proof fn lemma_nodes_all_grow(vs: Seq<super::super::result_ir::ValueView>, k: int)
    requires
        0 <= k <= vs.len(),
    ensures
        nodes_all(vs.take(k)) <= nodes_all(vs),
    decreases vs.len() - k,
{
    if k < vs.len() {
        assert(vs.take(k + 1).drop_last() == vs.take(k));
        lemma_nodes_all_grow(vs, k + 1);
    } else {
        assert(vs.take(k) == vs);
    }
}

proof fn lemma_nodes_entries_grow(
    es: Seq<(super::super::result_ir::ValueView, super::super::result_ir::ValueView)>,
    k: int,
)
    requires
        0 <= k <= es.len(),
    ensures
        nodes_entries(es.take(k)) <= nodes_entries(es),
    decreases es.len() - k,
{
    if k < es.len() {
        assert(es.take(k + 1).drop_last() == es.take(k));
        lemma_nodes_entries_grow(es, k + 1);
    } else {
        assert(es.take(k) == es);
    }
}

fn count_entries(entries: &Vec<MapEntry>, limit: usize) -> (r: Option<usize>)
    ensures
        match r {
            Some(n) => n == nodes_entries(entries_view(entries@)) && n <= limit,
            None => nodes_entries(entries_view(entries@)) > limit,
        },
    decreases entries@, 0int,
{
    let ghost es = entries_view(entries@);
    let mut acc: usize = 0;
    let mut k: usize = 0;
    while k < entries.len()
        invariant
            es == entries_view(entries@),
            k <= entries.len(),
            acc == nodes_entries(es.take(k as int)),
            acc <= limit,
        decreases entries.len() - k,
    {
        proof {
            assert(es.take(k + 1).drop_last() == es.take(k as int));
            assert(es[k as int].0 == value_view(entries@[k as int].key));
            assert(es[k as int].1 == value_view(entries@[k as int].value));
        }
        match count_nodes(&entries[k].key, limit - acc) {
            Some(n) => {
                acc = acc + n;
            },
            None => {
                proof {
                    lemma_nodes_entries_grow(es, k as int + 1);
                }
                return None;
            },
        }
        match count_nodes(&entries[k].value, limit - acc) {
            Some(n) => {
                acc = acc + n;
            },
            None => {
                proof {
                    lemma_nodes_entries_grow(es, k as int + 1);
                }
                return None;
            },
        }
        k = k + 1;
    }
    assert(es.take(entries.len() as int) == es);
    Some(acc)
}

/// What printing the lexemes gives: dumped as they are where not pretty;
/// pretty, the rendering of the value's layout, or why there is none.
pub open spec fn printed(pretty: bool, color: bool, ls: Seq<Lexeme>) -> Result<Seq<char>, PrintError> {
    if !pretty {
        Ok(render(unformatted(ls, ls.len() as int), color).push('\n'))
    } else {
        match spec_build(ls) {
            Err(e) => Err(PrintError::Build(e)),
            Ok(v) => if 2 * nodes(v) > usize::MAX {
                Err(PrintError::TooLarge)
            } else {
                match pretty_commands(v) {
                    Some(cmds) => Ok(render(cmds, color).push('\n')),
                    None => Err(PrintError::Layout),
                }
            },
        }
    }
}

impl ClojureResultPrinter {
    pub fn new(pretty: bool, color: bool, width: u16) -> (r: Self)
        ensures
            r.pretty == pretty,
            r.color == color,
            r.width == width,
    {
        Self { pretty, color, width }
    }

    /// Prints a result, with a newline after it.
    ///
    /// As written, it prints the lexemes as they are, each in its style.
    /// Pretty, it builds the value and runs its layout program: what it
    /// prints holds exactly the value's tokens, with only whitespace and
    /// styles added.  It fails where the value does not build, where it has
    /// too many parts to number its anchors, or where the layout takes a
    /// column out of 16 bits.  Pretty, it shows a string's content without
    /// its first and its last character, so every string of the value must
    /// have two characters at least, ASCII at both ends; and the values of a
    /// map line up at an offset of 16 bits after its keys, so rigid keys may
    /// take at most 32766 bytes.
    pub fn print(&self, lexemes: &[Lexeme]) -> (r: Result<String, PrintError>)
        requires
            forall|i: int| 0 <= i < lexemes.len() ==> printable(#[trigger] lexemes@[i]),
            self.pretty ==> (spec_build(lexemes@) matches Ok(v) ==> pretty_printable(v)),
        ensures
            match r {
                Ok(s) => printed(self.pretty, self.color, lexemes@) == Ok::<Seq<char>, PrintError>(s@),
                Err(e) => printed(self.pretty, self.color, lexemes@) == Err::<Seq<char>, PrintError>(e),
            },
            !self.pretty ==> (r matches Ok(s) && s@ == render(
                unformatted(lexemes@, lexemes.len() as int),
                self.color,
            ).push('\n')),
            self.pretty ==> match spec_build(lexemes@) {
                Err(e) => r == Err::<String, PrintError>(PrintError::Build(e)),
                Ok(v) => if 2 * nodes(v) > usize::MAX {
                    r == Err::<String, PrintError>(PrintError::TooLarge)
                } else {
                    match pretty_commands(v) {
                        Some(cmds) => r matches Ok(s) && s@ == render(cmds, self.color).push('\n')
                            && commands_text(cmds) == tokens(v),
                        None => r == Err::<String, PrintError>(PrintError::Layout),
                    }
                },
            },
    {
        if !self.pretty {
            let commands = generate_printer_input(lexemes);
            let mut s = print(&commands, self.color);
            s.push('\n');
            return Ok(s);
        }
        let value = match build(lexemes) {
            Ok(v) => v,
            Err(e) => {
                return Err(PrintError::Build(e));
            },
        };
        if count_nodes(&value, usize::MAX / 2).is_none() {
            return Err(PrintError::TooLarge);
        }
        let p = convert_to_layout_program(&value);
        proof {
            lemma_layout_view(p);
        }
        match solve(&p) {
            Some(commands) => {
                proof {
                    lemma_layout_keeps_text(p);
                    lemma_chunks_text_from(p.chunks@);
                }
                let mut s = print(&commands, self.color);
                s.push('\n');
                assert(s@ == render(commands_view(commands@), self.color).push('\n')
                    && commands_text(commands_view(commands@)) == tokens(value_view(value)));
                Ok(s)
            },
            None => Err(PrintError::Layout),
        }
    }
}

} // verus!
