//! The layout program of a value: how it is broken and aligned when printed.
//!
//! Scalars are unbreakable texts.  The elements of a collection line up at
//! an anchor after its opening delimiter (after the first element of a
//! list, which is usually the operator); collections of scalars are filled
//! with spaces, other collections break before each element.  The values of
//! a map line up after its widest key when all keys have a fixed width.

use vstd::prelude::*;

use super::layout::{
    chunk_step, starts_line, fits_u16, fragment_commands, fragments_text, fragments_width, layout, run_from, Anchor,
    Chunk, Fragment, Program,
};
use super::printer::CommandView;
use super::style::Style;
use crate::result_ir::{entries_view, value_view, values_view, MapEntry, Value, ValueView};
use crate::text::string_of;

verus! {

pub open spec fn ns_text(ns: Option<Seq<char>>) -> Seq<char> {
    match ns {
        Some(n) => n + seq!['/'],
        None => Seq::empty(),
    }
}

/// What the pretty printer shows of a string's content between the quotes:
/// the content without its first and its last character.
pub open spec fn string_shown(l: Seq<char>) -> Seq<char> {
    l.subrange(1, l.len() - 1)
}

/// A string content from which the pretty printer can drop the first and
/// the last character: it has two at least, and both are ASCII, one byte
/// each.
pub open spec fn string_cuttable(l: Seq<char>) -> bool {
    l.len() >= 2 && l[0] < '\u{80}' && l[l.len() - 1] < '\u{80}'
}

/// A value that the pretty printer can print: every string in it can be
/// cut, and in every map whose keys all have a rigid width the widest key
/// takes at most 32766 bytes, so that the values line up at a 16-bit offset.
pub open spec fn pretty_printable(v: ValueView) -> bool
    decreases v,
{
    match v {
        ValueView::String(l) => string_cuttable(l),
        ValueView::TaggedLiteral(_, _, b) => pretty_printable(*b),
        ValueView::ListOf(vs) => pretty_printable_all(vs),
        ValueView::VectorOf(vs) => pretty_printable_all(vs),
        ValueView::SetOf(vs) => pretty_printable_all(vs),
        ValueView::MapOf(es) => (key_width(es) matches Some(w) ==> w <= 0x7FFE)
            && pretty_printable_entries(es),
        _ => true,
    }
}

pub open spec fn pretty_printable_all(vs: Seq<ValueView>) -> bool
    decreases vs,
{
    if vs.len() == 0 {
        true
    } else {
        pretty_printable_all(vs.drop_last()) && pretty_printable(vs.last())
    }
}

pub open spec fn pretty_printable_entries(es: Seq<(ValueView, ValueView)>) -> bool
    decreases es,
{
    if es.len() == 0 {
        true
    } else {
        pretty_printable_entries(es.drop_last()) && pretty_printable(es.last().0)
            && pretty_printable(es.last().1)
    }
}

/// The values of a sequence that can all be printed pretty: each prefix,
/// and each value.
pub proof fn lemma_printable_all(vs: Seq<ValueView>, k: int)
    requires
        pretty_printable_all(vs),
        0 <= k <= vs.len(),
    ensures
        pretty_printable_all(vs.take(k)),
        k < vs.len() ==> pretty_printable(vs[k]),
    decreases vs.len() - k,
{
    if k < vs.len() {
        lemma_printable_all(vs, k + 1);
        assert(vs.take(k + 1).drop_last() =~= vs.take(k));
        assert(vs.take(k + 1).last() == vs[k]);
    } else {
        assert(vs.take(k) =~= vs);
    }
}

/// The entries of a map that can all be printed pretty: each prefix, and
/// each key and value.
pub proof fn lemma_printable_entries(es: Seq<(ValueView, ValueView)>, k: int)
    requires
        pretty_printable_entries(es),
        0 <= k <= es.len(),
    ensures
        pretty_printable_entries(es.take(k)),
        k < es.len() ==> pretty_printable(es[k].0) && pretty_printable(es[k].1),
    decreases es.len() - k,
{
    if k < es.len() {
        lemma_printable_entries(es, k + 1);
        assert(es.take(k + 1).drop_last() =~= es.take(k));
        assert(es.take(k + 1).last() == es[k]);
    } else {
        assert(es.take(k) =~= es);
    }
}

/// The tokens of a value, without the whitespace between them.
pub open spec fn tokens(v: ValueView) -> Seq<char>
    decreases v,
{
    match v {
        ValueView::Nil => seq!['n', 'i', 'l'],
        ValueView::Boolean(b) => if b {
            seq!['t', 'r', 'u', 'e']
        } else {
            seq!['f', 'a', 'l', 's', 'e']
        },
        ValueView::Number(l) => l,
        ValueView::String(l) => seq!['"'] + string_shown(l) + seq!['"'],
        ValueView::SymbolicValue(l) => seq!['#', '#'] + l,
        ValueView::Symbol(ns, n) => ns_text(ns) + n,
        ValueView::Keyword(ns, n, alias) => (if alias {
            seq![':', ':']
        } else {
            seq![':']
        }) + ns_text(ns) + n,
        ValueView::VarQuoted(ns, n) => seq!['#', '\''] + ns_text(ns) + n,
        ValueView::TaggedLiteral(ns, n, b) => seq!['#'] + ns_text(ns) + n + tokens(*b),
        ValueView::ListOf(vs) => seq!['('] + tokens_all(vs) + seq![')'],
        ValueView::VectorOf(vs) => seq!['['] + tokens_all(vs) + seq![']'],
        ValueView::SetOf(vs) => seq!['#', '{'] + tokens_all(vs) + seq!['}'],
        ValueView::MapOf(es) => seq!['{'] + tokens_entries(es) + seq!['}'],
    }
}

pub open spec fn tokens_all(vs: Seq<ValueView>) -> Seq<char>
    decreases vs,
{
    if vs.len() == 0 {
        Seq::empty()
    } else {
        tokens_all(vs.drop_last()) + tokens(vs.last())
    }
}

pub open spec fn tokens_entries(es: Seq<(ValueView, ValueView)>) -> Seq<char>
    decreases es,
{
    if es.len() == 0 {
        Seq::empty()
    } else {
        tokens_entries(es.drop_last()) + tokens(es.last().0) + tokens(es.last().1)
    }
}

/// How many values a value is made of, itself included.
pub open spec fn nodes(v: ValueView) -> nat
    decreases v,
{
    match v {
        ValueView::TaggedLiteral(_, _, b) => 1 + nodes(*b),
        ValueView::ListOf(vs) => 1 + nodes_all(vs),
        ValueView::VectorOf(vs) => 1 + nodes_all(vs),
        ValueView::SetOf(vs) => 1 + nodes_all(vs),
        ValueView::MapOf(es) => 1 + nodes_entries(es),
        _ => 1,
    }
}

pub open spec fn nodes_all(vs: Seq<ValueView>) -> nat
    decreases vs,
{
    if vs.len() == 0 {
        0
    } else {
        nodes_all(vs.drop_last()) + nodes(vs.last())
    }
}

pub open spec fn nodes_entries(es: Seq<(ValueView, ValueView)>) -> nat
    decreases es,
{
    if es.len() == 0 {
        0
    } else {
        nodes_entries(es.drop_last()) + nodes(es.last().0) + nodes(es.last().1)
    }
}

/// The width that a value always takes, where it has one: scalars, symbols
/// and keywords.
pub open spec fn rigid_width(v: ValueView) -> Option<int> {
    match v {
        ValueView::Nil => Some(3),
        ValueView::Number(l) => Some(utf8_len(l)),
        ValueView::String(l) => Some(utf8_len(l)),
        ValueView::Boolean(b) => Some(
            if b {
                4
            } else {
                5
            },
        ),
        ValueView::SymbolicValue(l) => Some(utf8_len(l) + 2),
        ValueView::Keyword(ns, n, alias) => Some(
            (if alias {
                2int
            } else {
                1int
            }) + utf8_len(ns_text(ns)) + utf8_len(n),
        ),
        ValueView::Symbol(ns, n) => Some(utf8_len(ns_text(ns)) + utf8_len(n)),
        _ => None,
    }
}

/// How many bytes a character takes in UTF-8.
pub open spec fn utf8_width(c: char) -> int {
    if (c as u32) < 0x80 {
        1
    } else if (c as u32) < 0x800 {
        2
    } else if (c as u32) < 0x10000 {
        3
    } else {
        4
    }
}

/// How many bytes a text takes in UTF-8: the length of a `String` holding
/// it.
pub open spec fn utf8_len(s: Seq<char>) -> int
    decreases s.len(),
{
    if s.len() == 0 {
        0
    } else {
        utf8_len(s.drop_last()) + utf8_width(s.last())
    }
}

/// The characters of the texts of the chunks.
pub open spec fn chunks_text(cs: Seq<Chunk>) -> Seq<char>
    decreases cs.len(),
{
    if cs.len() == 0 {
        Seq::empty()
    } else {
        chunks_text(cs.drop_last()) + match cs.last() {
            Chunk::Text(fs) => fragments_text(fs@),
            _ => Seq::empty(),
        }
    }
}

/// Every anchor that a chunk refers to is one of the first `count`.
pub open spec fn anchors_below(cs: Seq<Chunk>, count: nat) -> bool {
    forall|k: int|
        0 <= k < cs.len() ==> match #[trigger] cs[k] {
            Chunk::SetAnchor { anchor } => anchor.0 < count,
            Chunk::SetRelativeAnchor { anchor, base, .. } => anchor.0 < count && base.0 < count,
            Chunk::HardBreak { anchor } => anchor.0 < count,
            Chunk::JumpTo { anchor } => anchor.0 < count,
            _ => true,
        }
}

/// A chunk as plain values: anchors by their numbers, and a text as its
/// styled pieces.
pub enum ChunkView {
    SetAnchor(nat),
    SetRelativeAnchor(nat, nat, int),
    SoftSpace,
    HardBreak(nat),
    JumpTo(nat),
    Text(Seq<(Style, Seq<char>)>),
}

pub open spec fn fragments_view(fs: Seq<Fragment>) -> Seq<(Style, Seq<char>)> {
    Seq::new(fs.len(), |i: int| (fs[i].style, fs[i].text@))
}

pub open spec fn chunk_view(c: Chunk) -> ChunkView {
    match c {
        Chunk::SetAnchor { anchor } => ChunkView::SetAnchor(anchor.0 as nat),
        Chunk::SetRelativeAnchor { anchor, base, offset } => ChunkView::SetRelativeAnchor(
            anchor.0 as nat,
            base.0 as nat,
            offset as int,
        ),
        Chunk::SoftSpace => ChunkView::SoftSpace,
        Chunk::HardBreak { anchor } => ChunkView::HardBreak(anchor.0 as nat),
        Chunk::JumpTo { anchor } => ChunkView::JumpTo(anchor.0 as nat),
        Chunk::Text(fs) => ChunkView::Text(fragments_view(fs@)),
    }
}

pub open spec fn chunks_view(cs: Seq<Chunk>) -> Seq<ChunkView> {
    Seq::new(cs.len(), |i: int| chunk_view(cs[i]))
}

/// A text of one piece.
pub open spec fn text1(style: Style, t: Seq<char>) -> ChunkView {
    ChunkView::Text(seq![(style, t)])
}

/// The text of a name: a prefix, if any, the namespace and a `/`, if there
/// is a namespace, and the name, each in its style.
pub open spec fn named_view(
    prefix: Option<(Seq<char>, Style)>,
    ns: Option<Seq<char>>,
    ns_style: Style,
    decoration: Style,
    name: Seq<char>,
    name_style: Style,
) -> ChunkView {
    ChunkView::Text(
        (match prefix {
            Some((p, s)) => seq![(s, p)],
            None => Seq::empty(),
        }) + (match ns {
            Some(n) => seq![(ns_style, n), (decoration, seq!['/'])],
            None => Seq::empty(),
        }) + seq![(name_style, name)],
    )
}

/// Whether a value is a collection.
pub open spec fn is_coll(v: ValueView) -> bool {
    v is ListOf || v is VectorOf || v is SetOf || v is MapOf
}

/// Whether none of the values is a collection.
pub open spec fn all_simple(vs: Seq<ValueView>) -> bool {
    forall|k: int| 0 <= k < vs.len() ==> !is_coll(#[trigger] vs[k])
}

/// The layout program of a value whose anchors are numbered from `a` on:
/// its chunks, and the number of the next anchor.
pub open spec fn program_of(v: ValueView, a: nat) -> (Seq<ChunkView>, nat)
    decreases v, 1int,
{
    match v {
        ValueView::Nil => (seq![text1(Style::NilValue, seq!['n', 'i', 'l'])], a),
        ValueView::Boolean(b) => (
            seq![
                text1(
                    Style::BooleanValue,
                    if b {
                        seq!['t', 'r', 'u', 'e']
                    } else {
                        seq!['f', 'a', 'l', 's', 'e']
                    },
                ),
            ],
            a,
        ),
        ValueView::Number(l) => (seq![text1(Style::NumberValue, l)], a),
        ValueView::String(l) => (
            seq![
                text1(Style::StringDecoration, seq!['"']),
                text1(Style::StringValue, string_shown(l)),
                text1(Style::StringDecoration, seq!['"']),
            ],
            a,
        ),
        ValueView::SymbolicValue(l) => (
            seq![
                text1(Style::SymbolicValueDecoration, seq!['#', '#']),
                text1(Style::SymbolicValue, l),
            ],
            a,
        ),
        ValueView::Symbol(ns, n) => (
            seq![
                named_view(
                    None,
                    ns,
                    Style::SymbolNamespace,
                    Style::SymbolDecoration,
                    n,
                    Style::SymbolName,
                ),
            ],
            a,
        ),
        ValueView::Keyword(ns, n, alias) => (
            seq![
                named_view(
                    Some(
                        (
                            if alias {
                                seq![':', ':']
                            } else {
                                seq![':']
                            },
                            Style::KeywordDecoration,
                        ),
                    ),
                    ns,
                    Style::KeywordNamespace,
                    Style::KeywordDecoration,
                    n,
                    Style::KeywordName,
                ),
            ],
            a,
        ),
        ValueView::VarQuoted(ns, n) => (
            seq![
                named_view(
                    Some((seq!['#', '\''], Style::VarQuoteDecoration)),
                    ns,
                    Style::VarQuoteNamespace,
                    Style::VarQuoteDecoration,
                    n,
                    Style::VarQuoteName,
                ),
            ],
            a,
        ),
        ValueView::TaggedLiteral(ns, n, b) => {
            let (cs, a2) = program_of(*b, a);
            (
                seq![
                    named_view(
                        Some((seq!['#'], Style::TaggedLiteralDecoration)),
                        ns,
                        Style::TaggedLiteralNamespace,
                        Style::TaggedLiteralDecoration,
                        n,
                        Style::TaggedLiteralName,
                    ),
                    ChunkView::SoftSpace,
                ] + cs,
                a2,
            )
        },
        ValueView::ListOf(vs) => seq_program(vs, true, seq!['('], seq![')'], a),
        ValueView::VectorOf(vs) => seq_program(vs, false, seq!['['], seq![']'], a),
        ValueView::SetOf(vs) => seq_program(vs, false, seq!['#', '{'], seq!['}'], a),
        ValueView::MapOf(es) => map_program(es, a),
    }
}

/// The program of values between delimiters: the elements line up at an
/// anchor set before the first of them (or, where `after_first`, before the
/// second, the first being followed by a space), and are separated by
/// spaces where none is a collection and by line breaks otherwise.
pub open spec fn seq_program(
    vs: Seq<ValueView>,
    after_first: bool,
    open: Seq<char>,
    close: Seq<char>,
    a: nat,
) -> (Seq<ChunkView>, nat)
    decreases vs, 1int,
{
    let o = text1(Style::CollectionDelimiter, open);
    let c = text1(Style::CollectionDelimiter, close);
    if after_first && vs.len() > 0 {
        let (c0, a1) = program_of(vs[0], a);
        if vs.len() == 1 {
            (seq![o] + c0 + seq![ChunkView::SoftSpace, c], a1)
        } else {
            let (cs, a2) = items(vs.subrange(1, vs.len() as int), all_simple(vs), a1, a1 + 1);
            (seq![o] + c0 + seq![ChunkView::SoftSpace, ChunkView::SetAnchor(a1)] + cs + seq![c], a2)
        }
    } else if vs.len() == 0 {
        (seq![o, c], a)
    } else {
        let (cs, a2) = items(vs, all_simple(vs), a, a + 1);
        (seq![o, ChunkView::SetAnchor(a)] + cs + seq![c], a2)
    }
}

/// The programs of values, one after another, separated by a space where
/// `simple` and by a line break to `anchor` otherwise.
pub open spec fn items(vs: Seq<ValueView>, simple: bool, anchor: nat, a: nat) -> (Seq<ChunkView>, nat)
    decreases vs, 0int,
{
    if vs.len() == 0 {
        (Seq::empty(), a)
    } else if vs.len() == 1 {
        program_of(vs[0], a)
    } else {
        let (c, a1) = items(vs.drop_last(), simple, anchor, a);
        let (c2, a2) = program_of(vs.last(), a1);
        (
            c + seq![
                if simple {
                    ChunkView::SoftSpace
                } else {
                    ChunkView::HardBreak(anchor)
                },
            ] + c2,
            a2,
        )
    }
}

/// The program of a map: an entry per line, lined up at an anchor set
/// before the first key; where every key has a rigid width, and the widest
/// is at most 32766 columns, the values line up at an anchor one column
/// after the widest key, and otherwise each follows its key after a space.
pub open spec fn map_program(es: Seq<(ValueView, ValueView)>, a: nat) -> (Seq<ChunkView>, nat)
    decreases es, 1int,
{
    let o = text1(Style::CollectionDelimiter, seq!['{']);
    let c = text1(Style::CollectionDelimiter, seq!['}']);
    if es.len() == 0 {
        (seq![o, c], a)
    } else {
        let aligned: Option<nat> = match key_width(es) {
            Some(w) => if w <= 0x7FFE {
                Some(a + 1)
            } else {
                None
            },
            None => None,
        };
        let rel: Seq<ChunkView> = match key_width(es) {
            Some(w) => if w <= 0x7FFE {
                seq![ChunkView::SetRelativeAnchor(a + 1, a, w + 1)]
            } else {
                Seq::empty()
            },
            None => Seq::empty(),
        };
        let a1 = if aligned is Some {
            a + 2
        } else {
            a + 1
        };
        let (cs, a2) = entry_items(es, a, aligned, a1);
        (seq![o, ChunkView::SetAnchor(a)] + rel + cs + seq![c], a2)
    }
}

/// The programs of map entries: each after a line break to `anchor` but
/// the first, its key, a jump to `aligned` (or a space) and its value.
pub open spec fn entry_items(
    es: Seq<(ValueView, ValueView)>,
    anchor: nat,
    aligned: Option<nat>,
    a: nat,
) -> (Seq<ChunkView>, nat)
    decreases es, 0int,
{
    if es.len() == 0 {
        (Seq::empty(), a)
    } else {
        let (c, a1) = entry_items(es.drop_last(), anchor, aligned, a);
        let sep: Seq<ChunkView> = if es.len() > 1 {
            seq![ChunkView::HardBreak(anchor)]
        } else {
            Seq::empty()
        };
        let (k, a2) = program_of(es.last().0, a1);
        let mid = match aligned {
            Some(va) => ChunkView::JumpTo(va),
            None => ChunkView::SoftSpace,
        };
        let (val, a3) = program_of(es.last().1, a2);
        (c + sep + k + seq![mid] + val, a3)
    }
}

proof fn lemma_chunks_view_push(cs: Seq<Chunk>, c: Chunk)
    ensures
        chunks_view(cs.push(c)) == chunks_view(cs).push(chunk_view(c)),
{
    assert(chunks_view(cs.push(c)) =~= chunks_view(cs).push(chunk_view(c)));
}

/// The commands for a text: each piece with its style set around it.
pub open spec fn pieces_commands(fv: Seq<(Style, Seq<char>)>) -> Seq<CommandView>
    decreases fv.len(),
{
    if fv.len() == 0 {
        Seq::empty()
    } else {
        pieces_commands(fv.drop_last()) + seq![
            CommandView::SetStyle(fv.last().0),
            CommandView::Text(fv.last().1),
            CommandView::ResetStyle(fv.last().0),
        ]
    }
}

/// The total width of a text.
pub open spec fn pieces_width(fv: Seq<(Style, Seq<char>)>) -> int
    decreases fv.len(),
{
    if fv.len() == 0 {
        0
    } else {
        pieces_width(fv.drop_last()) + fv.last().1.len()
    }
}

/// One chunk run from column `col` with the anchors `anchors`, where `bol`
/// tells whether no text has been written on the line yet: the commands it
/// writes, the column after it and the anchors after it; nothing where a
/// column leaves 16 bits, an anchor is missing, or a relative anchor leaves
/// the range of 16-bit signed offsets.  A soft space writes nothing at the
/// start of a line.
pub open spec fn step_view(c: ChunkView, col: int, bol: bool, anchors: Seq<int>) -> Option<
    (Seq<CommandView>, int, Seq<int>),
> {
    match c {
        ChunkView::Text(fv) => if fits_u16(col + pieces_width(fv)) {
            Some((pieces_commands(fv), col + pieces_width(fv), anchors))
        } else {
            None
        },
        ChunkView::SoftSpace => if bol {
            Some((Seq::empty(), col, anchors))
        } else if fits_u16(col + 1) {
            Some((seq![CommandView::Space(1)], col + 1, anchors))
        } else {
            None
        },
        ChunkView::HardBreak(anchor) => if anchor < anchors.len() {
            let a = anchors[anchor as int];
            Some((seq![CommandView::NewLine, CommandView::Space(a as u16)], a, anchors))
        } else {
            None
        },
        ChunkView::JumpTo(anchor) => if anchor < anchors.len() {
            let a = anchors[anchor as int];
            if col < a {
                Some((seq![CommandView::Space((a - col) as u16)], a, anchors))
            } else {
                Some((Seq::empty(), col, anchors))
            }
        } else {
            None
        },
        ChunkView::SetAnchor(anchor) => if anchor < anchors.len() {
            Some((Seq::empty(), col, anchors.update(anchor as int, col)))
        } else {
            None
        },
        ChunkView::SetRelativeAnchor(anchor, base, offset) => if anchor < anchors.len() && base
            < anchors.len() && anchors[base as int] <= 0x7FFF && 0 <= anchors[base as int] + offset
            <= 0x7FFF {
            Some((Seq::empty(), col, anchors.update(anchor as int, anchors[base as int] + offset)))
        } else {
            None
        },
    }
}

/// Whether a line has had no text yet after the chunk `c`.
pub open spec fn starts_line_view(c: ChunkView, bol: bool) -> bool {
    match c {
        ChunkView::Text(_) => false,
        ChunkView::HardBreak(_) => true,
        _ => bol,
    }
}

/// The commands that the chunks from `k` on write, run from column `col`
/// with the anchors `anchors`, `bol` telling whether the line has had no
/// text yet.
pub open spec fn run_view(cs: Seq<ChunkView>, k: int, col: int, bol: bool, anchors: Seq<int>) -> Option<
    Seq<CommandView>,
>
    decreases cs.len() - k,
{
    if k < 0 || k >= cs.len() {
        Some(Seq::empty())
    } else {
        match step_view(cs[k], col, bol, anchors) {
            Some((out, col2, anchors2)) => match run_view(
                cs,
                k + 1,
                col2,
                starts_line_view(cs[k], bol),
                anchors2,
            ) {
                Some(rest) => Some(out + rest),
                None => None,
            },
            None => None,
        }
    }
}

/// The commands that chunks with `n` anchors write, from the start of the
/// first line with every anchor at it.
pub open spec fn layout_view(cs: Seq<ChunkView>, n: nat) -> Option<Seq<CommandView>> {
    run_view(cs, 0, 0, true, Seq::new(n, |k: int| 0))
}

/// The commands that print a value pretty: its layout program run.
pub open spec fn pretty_commands(v: ValueView) -> Option<Seq<CommandView>> {
    layout_view(program_of(v, 0).0, program_of(v, 0).1)
}

proof fn lemma_pieces(fs: Seq<Fragment>)
    ensures
        fragment_commands(fs) == pieces_commands(fragments_view(fs)),
        fragments_width(fs) == pieces_width(fragments_view(fs)),
    decreases fs.len(),
{
    if fs.len() > 0 {
        lemma_pieces(fs.drop_last());
        assert(fragments_view(fs.drop_last()) =~= fragments_view(fs).drop_last());
    }
}

proof fn lemma_step_view(c: Chunk, col: int, bol: bool, anchors: Seq<int>)
    ensures
        chunk_step(c, col, bol, anchors) == step_view(chunk_view(c), col, bol, anchors),
        starts_line(c, bol) == starts_line_view(chunk_view(c), bol),
{
    if let Chunk::Text(fs) = c {
        lemma_pieces(fs@);
    }
}

proof fn lemma_run_view(cs: Seq<Chunk>, k: int, col: int, bol: bool, anchors: Seq<int>)
    ensures
        run_from(cs, k, col, bol, anchors) == run_view(chunks_view(cs), k, col, bol, anchors),
    decreases cs.len() - k,
{
    if 0 <= k < cs.len() {
        lemma_step_view(cs[k], col, bol, anchors);
        assert(chunks_view(cs)[k] == chunk_view(cs[k]));
        match chunk_step(cs[k], col, bol, anchors) {
            Some((out, col2, anchors2)) => {
                lemma_run_view(cs, k + 1, col2, starts_line(cs[k], bol), anchors2);
            },
            None => {},
        }
    }
}

/// A program runs as its chunks, read as plain values, do.
pub proof fn lemma_layout_view(p: Program)
    ensures
        layout(p) == layout_view(chunks_view(p.chunks@), p.anchor_count as nat),
{
    lemma_run_view(p.chunks@, 0, 0, true, Seq::new(p.anchor_count as nat, |k: int| 0));
}

/// The program under construction.
pub struct ChunkBuilder {
    pub anchor_count: usize,
    pub chunks: Vec<Chunk>,
}

impl ChunkBuilder {
    pub open spec fn wf(&self) -> bool {
        anchors_below(self.chunks@, self.anchor_count as nat)
    }
}

/// What a builder may have done since an earlier state: added chunks that
/// add `text`, and anchors, keeping its anchors in range.
pub open spec fn grew(old: ChunkBuilder, new: ChunkBuilder, text: Seq<char>) -> bool {
    &&& new.wf()
    &&& old.anchor_count <= new.anchor_count
    &&& chunks_text(new.chunks@) == chunks_text(old.chunks@) + text
}

proof fn lemma_chunks_text_push(cs: Seq<Chunk>, c: Chunk)
    ensures
        chunks_text(cs.push(c)) == chunks_text(cs) + match c {
            Chunk::Text(fs) => fragments_text(fs@),
            _ => Seq::empty(),
        },
{
    assert(cs.push(c).drop_last() == cs);
}

fn push_chunk(b: &mut ChunkBuilder, c: Chunk)
    requires
        old(b).wf(),
        match c {
            Chunk::SetAnchor { anchor } => anchor.0 < old(b).anchor_count,
            Chunk::SetRelativeAnchor { anchor, base, .. } => anchor.0 < old(b).anchor_count
                && base.0 < old(b).anchor_count,
            Chunk::HardBreak { anchor } => anchor.0 < old(b).anchor_count,
            Chunk::JumpTo { anchor } => anchor.0 < old(b).anchor_count,
            _ => true,
        },
    ensures
        final(b).wf(),
        final(b).anchor_count == old(b).anchor_count,
        final(b).chunks@ == old(b).chunks@.push(c),
        chunks_view(final(b).chunks@) == chunks_view(old(b).chunks@).push(chunk_view(c)),
        chunks_text(final(b).chunks@) == chunks_text(old(b).chunks@) + match c {
            Chunk::Text(fs) => fragments_text(fs@),
            _ => Seq::empty(),
        },
{
    proof {
        lemma_chunks_text_push(b.chunks@, c);
        lemma_chunks_view_push(b.chunks@, c);
    }
    b.chunks.push(c);
    assert forall|k: int| 0 <= k < b.chunks@.len() implies match #[trigger] b.chunks@[k] {
        Chunk::SetAnchor { anchor } => anchor.0 < b.anchor_count,
        Chunk::SetRelativeAnchor { anchor, base, .. } => anchor.0 < b.anchor_count && base.0
            < b.anchor_count,
        Chunk::HardBreak { anchor } => anchor.0 < b.anchor_count,
        Chunk::JumpTo { anchor } => anchor.0 < b.anchor_count,
        _ => true,
    } by {
        if k < b.chunks@.len() - 1 {
            assert(b.chunks@[k] == old(b).chunks@[k]);
        }
    }
}

/// Sets a new anchor at the current column.
fn set_anchor(b: &mut ChunkBuilder) -> (a: Anchor)
    requires
        old(b).wf(),
        old(b).anchor_count < usize::MAX,
    ensures
        final(b).wf(),
        final(b).anchor_count == old(b).anchor_count + 1,
        a.0 < final(b).anchor_count,
        a.0 == old(b).anchor_count,
        chunks_text(final(b).chunks@) == chunks_text(old(b).chunks@),
        chunks_view(final(b).chunks@) == chunks_view(old(b).chunks@).push(
            ChunkView::SetAnchor(old(b).anchor_count as nat),
        ),
{
    let a = Anchor(b.anchor_count);
    b.anchor_count = b.anchor_count + 1;
    push_chunk(b, Chunk::SetAnchor { anchor: a });
    a
}

/// Sets a new anchor `offset` columns after `base`.
fn set_relative_anchor(b: &mut ChunkBuilder, base: Anchor, offset: i16) -> (a: Anchor)
    requires
        old(b).wf(),
        old(b).anchor_count < usize::MAX,
        base.0 < old(b).anchor_count,
    ensures
        final(b).wf(),
        final(b).anchor_count == old(b).anchor_count + 1,
        a.0 < final(b).anchor_count,
        a.0 == old(b).anchor_count,
        chunks_text(final(b).chunks@) == chunks_text(old(b).chunks@),
        chunks_view(final(b).chunks@) == chunks_view(old(b).chunks@).push(
            ChunkView::SetRelativeAnchor(old(b).anchor_count as nat, base.0 as nat, offset as int),
        ),
{
    let a = Anchor(b.anchor_count);
    b.anchor_count = b.anchor_count + 1;
    push_chunk(b, Chunk::SetRelativeAnchor { anchor: a, base, offset });
    a
}

/// Adds a one-fragment text.
fn add_text(b: &mut ChunkBuilder, text: String, style: Style)
    requires
        old(b).wf(),
    ensures
        grew(*old(b), *final(b), text@),
        final(b).anchor_count == old(b).anchor_count,
        chunks_view(final(b).chunks@) == chunks_view(old(b).chunks@).push(text1(style, text@)),
{
    let ghost t = text@;
    let mut fs: Vec<Fragment> = Vec::new();
    fs.push(Fragment { style, text });
    assert(fs@.drop_last() == Seq::<Fragment>::empty());
    assert(fs@.last().text@ == t);
    assert(fragments_view(fs@) =~= seq![(style, t)]);
    assert(fragments_text(fs@.drop_last()) == Seq::<char>::empty());
    assert(fragments_text(fs@) =~= Seq::<char>::empty() + t);
    push_chunk(b, Chunk::Text(fs));
}

/// A string made of the characters given.
fn lit(cs: Vec<char>) -> (s: String)
    ensures
        s@ == cs@,
{
    string_of(cs.as_slice())
}

pub open spec fn cap(w: int) -> int {
    if w > 0xFFFF {
        0xFFFF
    } else {
        w
    }
}

proof fn lemma_utf8_len_nonneg(s: Seq<char>)
    ensures
        utf8_len(s) >= 0,
    decreases s.len(),
{
    if s.len() > 0 {
        lemma_utf8_len_nonneg(s.drop_last());
    }
}

proof fn lemma_utf8_len_ns(ns: Option<Seq<char>>)
    ensures
        utf8_len(ns_text(ns)) == match ns {
            Some(n) => utf8_len(n) + 1,
            None => 0,
        },
{
    if let Some(n) = ns {
        assert(ns_text(ns).drop_last() =~= n);
    }
}

/// The length in bytes of the text, capped at 65535.
fn capped_len(s: &String) -> (r: u64)
    ensures
        r == cap(utf8_len(s@)),
{
    let cs = crate::text::chars_of(s.as_str());
    let mut acc: u64 = 0;
    let mut k: usize = 0;
    while k < cs.len()
        invariant
            k <= cs.len(),
            cs@ == s@,
            acc == cap(utf8_len(cs@.take(k as int))),
        decreases cs.len() - k,
    {
        let c = cs[k];
        let code: u32 = c as u32;
        let w: u64 = if code < 0x80 {
            1
        } else if code < 0x800 {
            2
        } else if code < 0x10000 {
            3
        } else {
            4
        };
        proof {
            assert(cs@.take(k + 1).drop_last() =~= cs@.take(k as int));
            assert(cs@.take(k + 1).last() == c);
            lemma_utf8_len_nonneg(cs@.take(k as int));
        }
        acc = if acc + w > 0xFFFF {
            0xFFFF
        } else {
            acc + w
        };
        k = k + 1;
    }
    assert(cs@.take(cs.len() as int) =~= s@);
    acc
}

/// The rigid width of a value, capped at 65535.
fn rigid_width_capped(v: &Value) -> (r: Option<u64>)
    ensures
        match rigid_width(value_view(*v)) {
            Some(w) => w >= 0 && r == Some(cap(w) as u64),
            None => r is None,
        },
{
    proof {
        match value_view(*v) {
            ValueView::Number(l) => lemma_utf8_len_nonneg(l),
            ValueView::String(l) => lemma_utf8_len_nonneg(l),
            ValueView::SymbolicValue(l) => lemma_utf8_len_nonneg(l),
            ValueView::Keyword(ns, n, _) => {
                lemma_utf8_len_ns(ns);
                lemma_utf8_len_nonneg(n);
                if let Some(x) = ns {
                    lemma_utf8_len_nonneg(x);
                }
            },
            ValueView::Symbol(ns, n) => {
                lemma_utf8_len_ns(ns);
                lemma_utf8_len_nonneg(n);
                if let Some(x) = ns {
                    lemma_utf8_len_nonneg(x);
                }
            },
            _ => {},
        }
    }
    let w: u64 = match v {
        Value::Nil => 3,
        Value::Number { literal } => capped_len(literal),
        Value::String { literal } => capped_len(literal),
        Value::Boolean { value } => if *value {
            4
        } else {
            5
        },
        Value::SymbolicValue { literal } => capped_len(literal) + 2,
        Value::Keyword { namespace, name, alias } => {
            let a: u64 = if *alias {
                2
            } else {
                1
            };
            let ns: u64 = match namespace {
                Some(n) => capped_len(n) + 1,
                None => 0,
            };
            a + ns + capped_len(name)
        },
        Value::Symbol { namespace, name } => {
            let ns: u64 = match namespace {
                Some(n) => capped_len(n) + 1,
                None => 0,
            };
            ns + capped_len(name)
        },
        _ => {
            return None;
        },
    };
    if w > 0xFFFF {
        Some(0xFFFF)
    } else {
        Some(w)
    }
}

/// The widest of the keys, capped at 65535, where every key has a rigid
/// width.
pub open spec fn key_width(es: Seq<(ValueView, ValueView)>) -> Option<int>
    decreases es.len(),
{
    if es.len() == 0 {
        Some(0)
    } else {
        match (key_width(es.drop_last()), rigid_width(es.last().0)) {
            (Some(a), Some(w)) => Some(if a >= cap(w) {
                a
            } else {
                cap(w)
            }),
            _ => None,
        }
    }
}

pub(crate) fn keys_width(entries: &Vec<MapEntry>) -> (r: Option<u64>)
    ensures
        match key_width(entries_view(entries@)) {
            Some(w) => r == Some(w as u64) && 0 <= w <= 0xFFFF,
            None => r is None,
        },
{
    let ghost es = entries_view(entries@);
    let mut acc: u64 = 0;
    let mut k: usize = 0;
    while k < entries.len()
        invariant
            es == entries_view(entries@),
            k <= entries.len(),
            key_width(es.take(k as int)) == Some(acc as int),
            acc <= 0xFFFF,
        decreases entries.len() - k,
    {
        assert(es.take(k + 1).drop_last() == es.take(k as int));
        assert(es.take(k + 1).last().0 == value_view(entries@[k as int].key));
        match rigid_width_capped(&entries[k].key) {
            Some(w) => {
                if w > acc {
                    acc = w;
                }
            },
            None => {
                proof {
                    lemma_key_width_none(es, k as int + 1);
                }
                return None;
            },
        }
        k = k + 1;
    }
    assert(es.take(entries.len() as int) == es);
    Some(acc)
}

proof fn lemma_key_width_none(es: Seq<(ValueView, ValueView)>, k: int)
    requires
        0 <= k <= es.len(),
        key_width(es.take(k)) is None,
    ensures
        key_width(es) is None,
    decreases es.len() - k,
{
    if k < es.len() {
        assert(es.take(k + 1).drop_last() == es.take(k));
        lemma_key_width_none(es, k + 1);
    } else {
        assert(es.take(k) == es);
    }
}

fn push_fragment(fs: &mut Vec<Fragment>, text: String, style: Style)
    ensures
        fragments_text(final(fs)@) == fragments_text(old(fs)@) + text@,
        fragments_view(final(fs)@) == fragments_view(old(fs)@).push((style, text@)),
{
    let ghost before = fs@;
    let ghost t = text@;
    fs.push(Fragment { style, text });
    assert(fs@.drop_last() == before);
    assert(fragments_view(fs@) =~= fragments_view(before).push((style, t)));
}

/// Adds the text of a name: an optional prefix, the namespace and a `/`
/// if there is a namespace, and the name, as one unbreakable text.
fn add_named(
    b: &mut ChunkBuilder,
    prefix: Option<(String, Style)>,
    namespace: &Option<String>,
    ns_style: Style,
    decoration: Style,
    name: &String,
    name_style: Style,
)
    requires
        old(b).wf(),
    ensures
        grew(
            *old(b),
            *final(b),
            match prefix {
                Some((p, _)) => p@,
                None => Seq::empty(),
            } + ns_text(crate::result_ir::opt_view(*namespace)) + name@,
        ),
        final(b).anchor_count == old(b).anchor_count,
        chunks_view(final(b).chunks@) == chunks_view(old(b).chunks@).push(
            named_view(
                match prefix {
                    Some((p, s)) => Some((p@, s)),
                    None => None,
                },
                crate::result_ir::opt_view(*namespace),
                ns_style,
                decoration,
                name@,
                name_style,
            ),
        ),
{
    let ghost pre = match &prefix {
        Some((p, _)) => p@,
        None => Seq::<char>::empty(),
    };
    let ghost pv: Seq<(Style, Seq<char>)> = match &prefix {
        Some((p, st)) => seq![(*st, p@)],
        None => Seq::empty(),
    };
    let ghost pview: Option<(Seq<char>, Style)> = match &prefix {
        Some((p, st)) => Some((p@, *st)),
        None => None,
    };
    let mut fs: Vec<Fragment> = Vec::new();
    assert(fragments_text(fs@) == Seq::<char>::empty());
    assert(fragments_view(fs@) =~= Seq::<(Style, Seq<char>)>::empty());
    match prefix {
        Some((p, s)) => {
            push_fragment(&mut fs, p, s);
        },
        None => {},
    }
    assert(fragments_text(fs@) =~= pre);
    assert(fragments_view(fs@) =~= pv);
    let ghost fv1 = fragments_view(fs@);
    match namespace {
        Some(n) => {
            let nc = n.clone();
            assert(nc@ == n@);
            push_fragment(&mut fs, nc, ns_style);
            let slash = lit(vec!['/']);
            assert(slash@ =~= seq!['/']);
            push_fragment(&mut fs, slash, decoration);
            assert(fragments_view(fs@) =~= fv1 + seq![(ns_style, n@), (decoration, seq!['/'])]);
        },
        None => {},
    }
    assert(fragments_text(fs@) =~= pre + ns_text(crate::result_ir::opt_view(*namespace)));
    assert(fragments_view(fs@) =~= pv + (match crate::result_ir::opt_view(*namespace) {
        Some(n) => seq![(ns_style, n), (decoration, seq!['/'])],
        None => Seq::<(Style, Seq<char>)>::empty(),
    }));
    let ghost fv2 = fragments_view(fs@);
    let nm = name.clone();
    assert(nm@ == name@);
    push_fragment(&mut fs, nm, name_style);
    assert(fragments_text(fs@) =~= pre + ns_text(crate::result_ir::opt_view(*namespace)) + name@);
    assert(fragments_view(fs@) =~= fv2 + seq![(name_style, name@)]);
    let ghost nv = named_view(
        pview,
        crate::result_ir::opt_view(*namespace),
        ns_style,
        decoration,
        name@,
        name_style,
    );
    assert(nv == ChunkView::Text(fragments_view(fs@)));
    push_chunk(b, Chunk::Text(fs));
}

proof fn lemma_tokens_all_step(vs: Seq<ValueView>, i: int)
    requires
        0 <= i < vs.len(),
    ensures
        tokens_all(vs.take(i + 1)) == tokens_all(vs.take(i)) + tokens(vs[i]),
        nodes_all(vs.take(i + 1)) == nodes_all(vs.take(i)) + nodes(vs[i]),
{
    assert(vs.take(i + 1).drop_last() == vs.take(i));
}

proof fn lemma_nodes_all_prefix(vs: Seq<ValueView>, i: int)
    requires
        0 <= i <= vs.len(),
    ensures
        nodes_all(vs.take(i)) <= nodes_all(vs),
    decreases vs.len() - i,
{
    if i < vs.len() {
        lemma_tokens_all_step(vs, i);
        lemma_nodes_all_prefix(vs, i + 1);
    } else {
        assert(vs.take(i) == vs);
    }
}

proof fn lemma_entries_step(es: Seq<(ValueView, ValueView)>, i: int)
    requires
        0 <= i < es.len(),
    ensures
        tokens_entries(es.take(i + 1)) == tokens_entries(es.take(i)) + tokens(es[i].0) + tokens(
            es[i].1,
        ),
        nodes_entries(es.take(i + 1)) == nodes_entries(es.take(i)) + nodes(es[i].0) + nodes(
            es[i].1,
        ),
{
    assert(es.take(i + 1).drop_last() == es.take(i));
}

proof fn lemma_nodes_entries_prefix(es: Seq<(ValueView, ValueView)>, i: int)
    requires
        0 <= i <= es.len(),
    ensures
        nodes_entries(es.take(i)) <= nodes_entries(es),
    decreases es.len() - i,
{
    if i < es.len() {
        lemma_entries_step(es, i);
        lemma_nodes_entries_prefix(es, i + 1);
    } else {
        assert(es.take(i) == es);
    }
}

proof fn lemma_items_step(vs: Seq<ValueView>, start: int, i: int, simple: bool, anchor: nat, a: nat)
    requires
        0 <= start < i < vs.len(),
    ensures
        ({
            let (c, a1) = items(vs.subrange(start, i), simple, anchor, a);
            let (c2, a2) = program_of(vs[i], a1);
            items(vs.subrange(start, i + 1), simple, anchor, a) == (
                c + seq![
                    if simple {
                        ChunkView::SoftSpace
                    } else {
                        ChunkView::HardBreak(anchor)
                    },
                ] + c2,
                a2,
            )
        }),
{
    let sub = vs.subrange(start, i + 1);
    assert(sub.drop_last() =~= vs.subrange(start, i));
    assert(sub.last() == vs[i]);
}

proof fn lemma_items_first(vs: Seq<ValueView>, start: int, simple: bool, anchor: nat, a: nat)
    requires
        0 <= start < vs.len(),
    ensures
        items(vs.subrange(start, start + 1), simple, anchor, a) == program_of(vs[start], a),
{
    let sub = vs.subrange(start, start + 1);
    assert(sub.len() == 1);
    assert(sub[0] == vs[start]);
}

proof fn lemma_entry_items_step(
    es: Seq<(ValueView, ValueView)>,
    i: int,
    anchor: nat,
    aligned: Option<nat>,
    a: nat,
)
    requires
        0 <= i < es.len(),
    ensures
        ({
            let (c, a1) = entry_items(es.take(i), anchor, aligned, a);
            let sep: Seq<ChunkView> = if i > 0 {
                seq![ChunkView::HardBreak(anchor)]
            } else {
                Seq::empty()
            };
            let (k, a2) = program_of(es[i].0, a1);
            let mid = match aligned {
                Some(va) => ChunkView::JumpTo(va),
                None => ChunkView::SoftSpace,
            };
            let (val, a3) = program_of(es[i].1, a2);
            entry_items(es.take(i + 1), anchor, aligned, a) == (c + sep + k + seq![mid] + val, a3)
        }),
{
    let sub = es.take(i + 1);
    assert(sub.drop_last() =~= es.take(i));
    assert(sub.last() == es[i]);
}

proof fn lemma_seq_program_is(
    vs: Seq<ValueView>,
    after_first: bool,
    open: Seq<char>,
    close: Seq<char>,
    a0: nat,
    body: Seq<ChunkView>,
    acount: nat,
)
    requires
        after_first && vs.len() == 1 ==> body == program_of(vs[0], a0).0 + seq![ChunkView::SoftSpace]
            && acount == program_of(vs[0], a0).1,
        after_first && vs.len() > 1 ==> ({
            let a1 = program_of(vs[0], a0).1;
            &&& body == program_of(vs[0], a0).0 + seq![ChunkView::SoftSpace, ChunkView::SetAnchor(a1)]
                + items(vs.subrange(1, vs.len() as int), all_simple(vs), a1, a1 + 1).0
            &&& acount == items(vs.subrange(1, vs.len() as int), all_simple(vs), a1, a1 + 1).1
        }),
        vs.len() == 0 ==> body == Seq::<ChunkView>::empty() && acount == a0,
        !after_first && vs.len() > 0 ==> body == seq![ChunkView::SetAnchor(a0)] + items(
            vs.subrange(0, vs.len() as int),
            all_simple(vs),
            a0,
            a0 + 1,
        ).0 && acount == items(vs.subrange(0, vs.len() as int), all_simple(vs), a0, a0 + 1).1,
    ensures
        seq_program(vs, after_first, open, close, a0) == (
            seq![text1(Style::CollectionDelimiter, open)] + body + seq![
                text1(Style::CollectionDelimiter, close),
            ],
            acount,
        ),
{
    assert(vs.subrange(0, vs.len() as int) =~= vs);
    let o = text1(Style::CollectionDelimiter, open);
    let c = text1(Style::CollectionDelimiter, close);
    if after_first && vs.len() > 0 {
        let (c0, a1) = program_of(vs[0], a0);
        if vs.len() == 1 {
            assert(seq![o] + c0 + seq![ChunkView::SoftSpace, c] =~= seq![o] + body + seq![c]);
        } else {
            let (cs, a2) = items(vs.subrange(1, vs.len() as int), all_simple(vs), a1, a1 + 1);
            assert(seq![o] + c0 + seq![ChunkView::SoftSpace, ChunkView::SetAnchor(a1)] + cs + seq![c]
                =~= seq![o] + body + seq![c]);
        }
    } else if vs.len() == 0 {
        assert(seq![o, c] =~= seq![o] + body + seq![c]);
    } else {
        let (cs, a2) = items(vs, all_simple(vs), a0, a0 + 1);
        assert(seq![o, ChunkView::SetAnchor(a0)] + cs + seq![c] =~= seq![o] + body + seq![c]);
    }
}

/// The program of a nonempty map, with the anchor for its values set where
/// its keys allow it.
proof fn lemma_map_program_is(
    es: Seq<(ValueView, ValueView)>,
    a0: nat,
    rel: Seq<ChunkView>,
    aligned: Option<nat>,
    a1: nat,
)
    requires
        es.len() > 0,
        rel == match key_width(es) {
            Some(w) => if w <= 0x7FFE {
                seq![ChunkView::SetRelativeAnchor(a0 + 1, a0, w + 1)]
            } else {
                Seq::<ChunkView>::empty()
            },
            None => Seq::<ChunkView>::empty(),
        },
        aligned == match key_width(es) {
            Some(w) => if w <= 0x7FFE {
                Some(a0 + 1)
            } else {
                None::<nat>
            },
            None => None::<nat>,
        },
        a1 == (if aligned is Some {
            a0 + 2
        } else {
            a0 + 1
        }),
    ensures
        map_program(es, a0) == (
            seq![
                text1(Style::CollectionDelimiter, seq!['{']),
                ChunkView::SetAnchor(a0),
            ] + rel + entry_items(es, a0, aligned, a1).0 + seq![
                text1(Style::CollectionDelimiter, seq!['}']),
            ],
            entry_items(es, a0, aligned, a1).1,
        ),
{
}

fn all_scalars(values: &Vec<Value>) -> (r: bool)
    ensures
        r == all_simple(values_view(values@)),
{
    let ghost vs = values_view(values@);
    let mut simple = true;
    let mut k: usize = 0;
    while k < values.len()
        invariant
            vs == values_view(values@),
            k <= values.len(),
            simple == (forall|q: int| 0 <= q < k ==> !is_coll(#[trigger] vs[q])),
        decreases values.len() - k,
    {
        assert(vs[k as int] == value_view(values@[k as int]));
        if is_collection(&values[k]) {
            simple = false;
        }
        k = k + 1;
    }
    simple
}

fn is_collection(v: &Value) -> (r: bool)
    ensures
        r == (value_view(*v) is ListOf || value_view(*v) is VectorOf || value_view(*v) is SetOf
            || value_view(*v) is MapOf),
{
    match v {
        Value::List { .. } | Value::Vector { .. } | Value::SetColl { .. } | Value::MapColl { .. } => true,
        _ => false,
    }
}

/// The program of a sequence of values between delimiters.
#[verifier::rlimit(100)]
fn program_seq(
    b: &mut ChunkBuilder,
    values: &Vec<Value>,
    anchor_after_first: bool,
    open: Vec<char>,
    close: Vec<char>,
)
    requires
        old(b).wf(),
        pretty_printable_all(values_view(values@)),
        old(b).anchor_count + 2 + 2 * nodes_all(values_view(values@)) <= usize::MAX,
    ensures
        grew(*old(b), *final(b), open@ + tokens_all(values_view(values@)) + close@),
        final(b).anchor_count <= old(b).anchor_count + 2 + 2 * nodes_all(values_view(values@)),
        chunks_view(final(b).chunks@) == chunks_view(old(b).chunks@) + seq_program(
            values_view(values@),
            anchor_after_first,
            open@,
            close@,
            old(b).anchor_count as nat,
        ).0,
        final(b).anchor_count == seq_program(
            values_view(values@),
            anchor_after_first,
            open@,
            close@,
            old(b).anchor_count as nat,
        ).1,
    decreases values@, 0int,
{
    let ghost vs = values_view(values@);
    let ghost base = chunks_text(b.chunks@);
    let ghost cv0 = chunks_view(b.chunks@);
    let ghost a0 = b.anchor_count;
    let ghost open_text = open@;
    let ghost close_text = close@;
    let simple = all_scalars(values);
    add_text(b, lit(open), Style::CollectionDelimiter);
    let ghost o = text1(Style::CollectionDelimiter, open_text);
    let ghost c = text1(Style::CollectionDelimiter, close_text);
    let mut i: usize = 0;
    proof {
        lemma_nodes_all_prefix(vs, 0);
        assert(vs.take(0) == Seq::<ValueView>::empty());
    }
    let ghost mut body: Seq<ChunkView> = Seq::empty();
    assert(chunks_view(b.chunks@) =~= cv0 + seq![o] + body);
    if anchor_after_first && values.len() > 0 {
        proof {
            lemma_tokens_all_step(vs, 0);
            lemma_nodes_all_prefix(vs, 1);
            assert(vs[0] == value_view(values@[0]));
        }
        proof {
            lemma_printable_all(values_view(values@), 0);
        }
        program_value(b, &values[0]);
        push_chunk(b, Chunk::SoftSpace);
        proof {
            body = program_of(vs[0], a0 as nat).0 + seq![ChunkView::SoftSpace];
        }
        assert(chunks_view(b.chunks@) =~= cv0 + seq![o] + body);
        i = 1;
    }
    let ghost start = i as int;
    let ghost body0 = body;
    let ghost mut a1: nat = b.anchor_count as nat;
    if i < values.len() {
        let anchor = set_anchor(b);
        proof {
            lemma_tokens_all_step(vs, i as int);
            lemma_nodes_all_prefix(vs, i + 1);
            assert(vs[i as int] == value_view(values@[i as int]));
        }
        let ghost pre = cv0 + seq![o] + body0 + seq![ChunkView::SetAnchor(a1)];
        assert(chunks_view(b.chunks@) =~= pre);
        proof {
            lemma_printable_all(values_view(values@), i as int);
        }
        program_value(b, &values[i]);
        i = i + 1;
        proof {
            lemma_items_first(vs, start, all_simple(vs), a1, a1 + 1);
            assert(chunks_view(b.chunks@) =~= pre + items(vs.subrange(start, i as int), all_simple(vs), a1, a1 + 1).0);
        }
        while i < values.len()
            invariant
                pretty_printable_all(values_view(values@)),
                vs == values_view(values@),
                0 <= start < i <= values.len(),
                vs.len() == values.len(),
                b.wf(),
                anchor.0 < b.anchor_count,
                anchor.0 == a1,
                simple == all_simple(vs),
                chunks_text(b.chunks@) == base + open_text + tokens_all(vs.take(i as int)),
                a0 <= b.anchor_count <= a0 + 1 + 2 * nodes_all(vs.take(i as int)),
                a0 + 2 + 2 * nodes_all(vs) <= usize::MAX,
                chunks_view(b.chunks@) == pre + items(vs.subrange(start, i as int), simple, a1, a1 + 1).0,
                b.anchor_count == items(vs.subrange(start, i as int), simple, a1, a1 + 1).1,
            decreases values.len() - i,
        {
            if simple {
                push_chunk(b, Chunk::SoftSpace);
            } else {
                push_chunk(b, Chunk::HardBreak { anchor });
            }
            proof {
                lemma_tokens_all_step(vs, i as int);
                lemma_nodes_all_prefix(vs, i + 1);
                assert(vs[i as int] == value_view(values@[i as int]));
            }
            proof {
                lemma_printable_all(values_view(values@), i as int);
            }
            program_value(b, &values[i]);
            proof {
                lemma_items_step(vs, start, i as int, simple, a1, a1 + 1);
            }
            i = i + 1;
            assert(chunks_view(b.chunks@) =~= pre + items(vs.subrange(start, i as int), simple, a1, a1 + 1).0);
        }
        proof {
            body = body0 + seq![ChunkView::SetAnchor(a1)] + items(vs.subrange(start, i as int), simple, a1, a1 + 1).0;
            assert(chunks_view(b.chunks@) =~= cv0 + seq![o] + body);
        }
    }
    proof {
        assert(vs.take(values.len() as int) == vs);
    }
    let ghost acount = b.anchor_count as nat;
    add_text(b, lit(close), Style::CollectionDelimiter);
    assert(chunks_text(b.chunks@) =~= base + (open_text + tokens_all(vs) + close_text));
    proof {
        if anchor_after_first && vs.len() > 1 {
            assert(start == 1);
            assert(body =~= program_of(vs[0], a0 as nat).0 + seq![ChunkView::SoftSpace, ChunkView::SetAnchor(a1)]
                + items(vs.subrange(1, vs.len() as int), all_simple(vs), a1, a1 + 1).0);
        }
        if !anchor_after_first && vs.len() > 0 {
            assert(start == 0);
            assert(a1 == a0);
            assert(body =~= seq![ChunkView::SetAnchor(a1)] + items(vs.subrange(0, vs.len() as int), all_simple(vs), a1, a1 + 1).0);
        }
        lemma_seq_program_is(vs, anchor_after_first, open_text, close_text, a0 as nat, body, acount);
        assert(chunks_view(b.chunks@) =~= cv0 + seq_program(vs, anchor_after_first, open_text, close_text, a0 as nat).0);
    }
}

/// The program of a map: keys and values, with the values lined up after
/// the widest key where all keys have a rigid width.
#[verifier::rlimit(100)]
fn program_map(b: &mut ChunkBuilder, entries: &Vec<MapEntry>)
    requires
        old(b).wf(),
        pretty_printable_entries(entries_view(entries@)),
        old(b).anchor_count + 2 + 2 * nodes_entries(entries_view(entries@)) <= usize::MAX,
    ensures
        grew(*old(b), *final(b), seq!['{'] + tokens_entries(entries_view(entries@)) + seq!['}']),
        final(b).anchor_count <= old(b).anchor_count + 2 + 2 * nodes_entries(
            entries_view(entries@),
        ),
        chunks_view(final(b).chunks@) == chunks_view(old(b).chunks@) + map_program(
            entries_view(entries@),
            old(b).anchor_count as nat,
        ).0,
        final(b).anchor_count == map_program(entries_view(entries@), old(b).anchor_count as nat).1,
    decreases entries@, 0int,
{
    let ghost es = entries_view(entries@);
    let ghost base = chunks_text(b.chunks@);
    let ghost cv0 = chunks_view(b.chunks@);
    let ghost a0 = b.anchor_count as nat;
    let ob = lit(vec!['{']);
    assert(ob@ =~= seq!['{']);
    add_text(b, ob, Style::CollectionDelimiter);
    let width = keys_width(entries);
    proof {
        assert(es.take(0) == Seq::<(ValueView, ValueView)>::empty());
        lemma_nodes_entries_prefix(es, 0);
    }
    let ghost mut body: Seq<ChunkView> = Seq::empty();
    if entries.len() > 0 {
        let anchor = set_anchor(b);
        let ghost cv1 = chunks_view(b.chunks@);
        assert(cv1 =~= cv0 + seq![
            text1(Style::CollectionDelimiter, seq!['{']),
            ChunkView::SetAnchor(a0),
        ]);
        let ghost mut rel: Seq<ChunkView> = Seq::empty();
        let aligned: Option<Anchor> = match width {
            Some(w) => if w <= 0x7FFE {
                let off = (w + 1) as i16;
                assert(off as int == w + 1);
                let va = set_relative_anchor(b, anchor, off);
                proof {
                    rel = seq![ChunkView::SetRelativeAnchor(a0 + 1, a0, w + 1)];
                }
                assert(chunks_view(b.chunks@) =~= cv1 + rel);
                Some(va)
            } else {
                None
            },
            None => None,
        };
        assert(chunks_view(b.chunks@) =~= cv1 + rel);
        let ghost aligned_view: Option<nat> = match aligned {
            Some(va) => Some(va.0 as nat),
            None => None,
        };
        let ghost a1 = b.anchor_count as nat;
        let ghost pre = chunks_view(b.chunks@);
        proof {
            assert(es.take(0) =~= Seq::<(ValueView, ValueView)>::empty());
            assert(entry_items(es.take(0), a0, aligned_view, a1) == (Seq::<ChunkView>::empty(), a1));
        }
        let mut i: usize = 0;
        while i < entries.len()
            invariant
                pretty_printable_entries(entries_view(entries@)),
                es == entries_view(entries@),
                i <= entries.len(),
                entries.len() > 0,
                b.wf(),
                anchor.0 < b.anchor_count,
                anchor.0 == a0,
                aligned matches Some(va) ==> va.0 < b.anchor_count,
                aligned_view == (match aligned {
                    Some(va) => Some(va.0 as nat),
                    None => None::<nat>,
                }),
                chunks_text(b.chunks@) == base + seq!['{'] + tokens_entries(es.take(i as int)),
                a0 <= b.anchor_count <= a0 + 2 + 2 * nodes_entries(es.take(i as int)),
                a0 + 2 + 2 * nodes_entries(es) <= usize::MAX,
                chunks_view(b.chunks@) == pre + entry_items(es.take(i as int), a0, aligned_view, a1).0,
                b.anchor_count == entry_items(es.take(i as int), a0, aligned_view, a1).1,
            decreases entries.len() - i,
        {
            if i > 0 {
                push_chunk(b, Chunk::HardBreak { anchor });
            }
            proof {
                lemma_entries_step(es, i as int);
                lemma_nodes_entries_prefix(es, i + 1);
                assert(es[i as int].0 == value_view(entries@[i as int].key));
                assert(es[i as int].1 == value_view(entries@[i as int].value));
            }
            proof {
                lemma_printable_entries(entries_view(entries@), i as int);
            }
            program_value(b, &entries[i].key);
            match aligned {
                Some(va) => {
                    push_chunk(b, Chunk::JumpTo { anchor: va });
                },
                None => {
                    push_chunk(b, Chunk::SoftSpace);
                },
            }
            proof {
                lemma_printable_entries(entries_view(entries@), i as int);
            }
            program_value(b, &entries[i].value);
            proof {
                lemma_entry_items_step(es, i as int, a0, aligned_view, a1);
            }
            i = i + 1;
            assert(chunks_view(b.chunks@) =~= pre + entry_items(es.take(i as int), a0, aligned_view, a1).0);
        }
        proof {
            assert(es.take(entries.len() as int) =~= es);
            lemma_map_program_is(es, a0, rel, aligned_view, a1);
            body = seq![ChunkView::SetAnchor(a0)] + rel + entry_items(es, a0, aligned_view, a1).0;
            assert(chunks_view(b.chunks@) =~= cv0 + seq![text1(Style::CollectionDelimiter, seq!['{'])] + body);
        }
    }
    proof {
        assert(es.take(entries.len() as int) == es);
    }
    let ghost acount = b.anchor_count as nat;
    let cb = lit(vec!['}']);
    assert(cb@ =~= seq!['}']);
    add_text(b, cb, Style::CollectionDelimiter);
    assert(chunks_text(b.chunks@) =~= base + (seq!['{'] + tokens_entries(es) + seq!['}']));
    assert(chunks_view(b.chunks@) =~= cv0 + (seq![text1(Style::CollectionDelimiter, seq!['{'])] + body
        + seq![text1(Style::CollectionDelimiter, seq!['}'])]));
    proof {
        if es.len() == 0 {
            assert(body =~= Seq::<ChunkView>::empty());
        }
    }
}

/// The program of a value.
#[verifier::rlimit(100)]
fn program_value(b: &mut ChunkBuilder, v: &Value)
    requires
        old(b).wf(),
        pretty_printable(value_view(*v)),
        old(b).anchor_count + 2 * nodes(value_view(*v)) <= usize::MAX,
    ensures
        grew(*old(b), *final(b), tokens(value_view(*v))),
        final(b).anchor_count <= old(b).anchor_count + 2 * nodes(value_view(*v)),
        chunks_view(final(b).chunks@) == chunks_view(old(b).chunks@) + program_of(
            value_view(*v),
            old(b).anchor_count as nat,
        ).0,
        final(b).anchor_count == program_of(value_view(*v), old(b).anchor_count as nat).1,
    decreases v, 1int,
{
    let ghost base = chunks_text(b.chunks@);
    let ghost cv0 = chunks_view(b.chunks@);
    let ghost a0 = b.anchor_count as nat;
    match v {
        Value::Nil => {
            let t = lit(vec!['n', 'i', 'l']);
            assert(t@ =~= seq!['n', 'i', 'l']);
            assert(value_view(*v) == ValueView::Nil);
            assert(tokens(value_view(*v)) == seq!['n', 'i', 'l']);
            add_text(b, t, Style::NilValue);
            assert(chunks_text(b.chunks@) =~= base + tokens(value_view(*v)));
            assert(chunks_view(b.chunks@) =~= cv0 + program_of(value_view(*v), a0).0);
        },
        Value::Boolean { value } => {
            let t = if *value {
                lit(vec!['t', 'r', 'u', 'e'])
            } else {
                lit(vec!['f', 'a', 'l', 's', 'e'])
            };
            assert(t@ =~= tokens(value_view(*v)));
            add_text(b, t, Style::BooleanValue);
            assert(chunks_text(b.chunks@) =~= base + tokens(value_view(*v)));
            assert(chunks_view(b.chunks@) =~= cv0 + program_of(value_view(*v), a0).0);
        },
        Value::Number { literal } => {
            let t = literal.clone();
            assert(t@ == literal@);
            add_text(b, t, Style::NumberValue);
            assert(chunks_text(b.chunks@) =~= base + tokens(value_view(*v)));
            assert(chunks_view(b.chunks@) =~= cv0 + program_of(value_view(*v), a0).0);
        },
        Value::String { literal } => {
            let cs = crate::text::chars_of(literal.as_str());
            let inner = string_of(crate::text::copy_range(cs.as_slice(), 1, cs.len() - 1).as_slice());
            assert(inner@ == string_shown(literal@));
            let q1 = lit(vec!['"']);
            assert(q1@ =~= seq!['"']);
            add_text(b, q1, Style::StringDecoration);
            add_text(b, inner, Style::StringValue);
            let q2 = lit(vec!['"']);
            assert(q2@ =~= seq!['"']);
            add_text(b, q2, Style::StringDecoration);
            assert(chunks_text(b.chunks@) =~= base + tokens(value_view(*v)));
            assert(chunks_view(b.chunks@) =~= cv0 + program_of(value_view(*v), a0).0);
        },
        Value::SymbolicValue { literal } => {
            let h = lit(vec!['#', '#']);
            assert(h@ =~= seq!['#', '#']);
            add_text(b, h, Style::SymbolicValueDecoration);
            let t = literal.clone();
            assert(t@ == literal@);
            add_text(b, t, Style::SymbolicValue);
            assert(chunks_text(b.chunks@) =~= base + tokens(value_view(*v)));
            assert(chunks_view(b.chunks@) =~= cv0 + program_of(value_view(*v), a0).0);
        },
        Value::Symbol { namespace, name } => {
            add_named(
                b,
                None,
                namespace,
                Style::SymbolNamespace,
                Style::SymbolDecoration,
                name,
                Style::SymbolName,
            );
            assert(chunks_text(b.chunks@) =~= base + tokens(value_view(*v)));
            assert(chunks_view(b.chunks@) =~= cv0 + program_of(value_view(*v), a0).0);
        },
        Value::Keyword { namespace, name, alias } => {
            let p = if *alias {
                lit(vec![':', ':'])
            } else {
                lit(vec![':'])
            };
            assert(p@ =~= if *alias {
                seq![':', ':']
            } else {
                seq![':']
            });
            add_named(
                b,
                Some((p, Style::KeywordDecoration)),
                namespace,
                Style::KeywordNamespace,
                Style::KeywordDecoration,
                name,
                Style::KeywordName,
            );
            assert(chunks_text(b.chunks@) =~= base + tokens(value_view(*v)));
            assert(chunks_view(b.chunks@) =~= cv0 + program_of(value_view(*v), a0).0);
        },
        Value::VarQuoted { namespace, name } => {
            let p = lit(vec!['#', '\'']);
            assert(p@ =~= seq!['#', '\'']);
            add_named(
                b,
                Some((p, Style::VarQuoteDecoration)),
                namespace,
                Style::VarQuoteNamespace,
                Style::VarQuoteDecoration,
                name,
                Style::VarQuoteName,
            );
            assert(chunks_text(b.chunks@) =~= base + tokens(value_view(*v)));
            assert(chunks_view(b.chunks@) =~= cv0 + program_of(value_view(*v), a0).0);
        },
        Value::TaggedLiteral { namespace, name, value } => {
            let p = lit(vec!['#']);
            assert(p@ =~= seq!['#']);
            add_named(
                b,
                Some((p, Style::TaggedLiteralDecoration)),
                namespace,
                Style::TaggedLiteralNamespace,
                Style::TaggedLiteralDecoration,
                name,
                Style::TaggedLiteralName,
            );
            push_chunk(b, Chunk::SoftSpace);
            program_value(b, value);
            assert(b.anchor_count == program_of(value_view(*v), a0).1);
            assert(chunks_text(b.chunks@) =~= base + tokens(value_view(*v)));
            assert(chunks_view(b.chunks@) =~= cv0 + program_of(value_view(*v), a0).0);
        },
        Value::List { values } => {
            let ov = vec!['('];
            let cv = vec![')'];
            assert(ov@ =~= seq!['(']);
            assert(cv@ =~= seq![')']);
            program_seq(b, values, true, ov, cv);
            assert(b.anchor_count == program_of(value_view(*v), a0).1);
            assert(chunks_text(b.chunks@) =~= base + tokens(value_view(*v)));
            assert(chunks_view(b.chunks@) =~= cv0 + program_of(value_view(*v), a0).0);
        },
        Value::Vector { values } => {
            let ov = vec!['['];
            let cv = vec![']'];
            assert(ov@ =~= seq!['[']);
            assert(cv@ =~= seq![']']);
            program_seq(b, values, false, ov, cv);
            assert(b.anchor_count == program_of(value_view(*v), a0).1);
            assert(chunks_text(b.chunks@) =~= base + tokens(value_view(*v)));
            assert(chunks_view(b.chunks@) =~= cv0 + program_of(value_view(*v), a0).0);
        },
        Value::SetColl { values } => {
            let ov = vec!['#', '{'];
            let cv = vec!['}'];
            assert(ov@ =~= seq!['#', '{']);
            assert(cv@ =~= seq!['}']);
            program_seq(b, values, false, ov, cv);
            assert(b.anchor_count == program_of(value_view(*v), a0).1);
            assert(chunks_text(b.chunks@) =~= base + tokens(value_view(*v)));
            assert(chunks_view(b.chunks@) =~= cv0 + program_of(value_view(*v), a0).0);
        },
        Value::MapColl { entries } => {
            program_map(b, entries);
            assert(b.anchor_count == program_of(value_view(*v), a0).1);
            assert(chunks_text(b.chunks@) =~= base + tokens(value_view(*v)));
            assert(chunks_view(b.chunks@) =~= cv0 + program_of(value_view(*v), a0).0);
        },
    }
}

/// The layout program of a value.
///
/// Its texts hold exactly the tokens of the value, in order, and every
/// anchor it refers to is one of its anchors.
pub fn convert_to_layout_program(value: &Value) -> (p: Program)
    requires
        pretty_printable(value_view(*value)),
        2 * nodes(value_view(*value)) <= usize::MAX,
    ensures
        chunks_text(p.chunks@) == tokens(value_view(*value)),
        anchors_below(p.chunks@, p.anchor_count as nat),
        chunks_view(p.chunks@) == program_of(value_view(*value), 0).0,
        p.anchor_count == program_of(value_view(*value), 0).1,
{
    let mut b = ChunkBuilder { anchor_count: 0, chunks: Vec::new() };
    assert(chunks_text(b.chunks@) == Seq::<char>::empty());
    assert(chunks_view(b.chunks@) =~= Seq::<ChunkView>::empty());
    program_value(&mut b, value);
    assert(chunks_view(b.chunks@) =~= program_of(value_view(*value), 0).0);
    assert(chunks_text(b.chunks@) =~= tokens(value_view(*value)));
    Program { anchor_count: b.anchor_count, chunks: b.chunks }
}

proof fn lemma_chunks_text_split(cs: Seq<Chunk>, n: int)
    requires
        0 <= n <= cs.len(),
    ensures
        chunks_text(cs.take(n)) + super::layout::chunks_text_from(cs, n)
            == super::layout::chunks_text_from(cs, 0),
    decreases n,
{
    if n == 0 {
        assert(cs.take(0) =~= Seq::<Chunk>::empty());
        assert(chunks_text(cs.take(0)) + super::layout::chunks_text_from(cs, 0)
            =~= super::layout::chunks_text_from(cs, 0));
    } else {
        lemma_chunks_text_split(cs, n - 1);
        assert(cs.take(n).drop_last() =~= cs.take(n - 1));
        assert(cs.take(n).last() == cs[n - 1]);
        assert(chunks_text(cs.take(n)) + super::layout::chunks_text_from(cs, n)
            =~= chunks_text(cs.take(n - 1)) + super::layout::chunks_text_from(cs, n - 1));
    }
}

/// The two ways of reading the text of chunks agree.
pub proof fn lemma_chunks_text_from(cs: Seq<Chunk>)
    ensures
        chunks_text(cs) == super::layout::chunks_text_from(cs, 0),
{
    lemma_chunks_text_split(cs, cs.len() as int);
    assert(cs.take(cs.len() as int) =~= cs);
    assert(super::layout::chunks_text_from(cs, cs.len() as int) =~= Seq::<char>::empty());
    assert(chunks_text(cs) + Seq::<char>::empty() =~= chunks_text(cs));
}

} // verus!
