//! Layout programs and their solver.
//!
//! A layout program is a list of chunks: unbreakable texts, soft spaces,
//! hard breaks that start the next line at an anchor, jumps forward to an
//! anchor, and the setting of anchors at the current column or relative to
//! another anchor.  The solver runs the program from the first column and
//! writes the printer's commands.

use vstd::prelude::*;

use super::printer::{Command, CommandView};
use super::style::Style;

verus! {

/// A horizontal position that the layout refers to.
#[derive(Clone, Copy, Debug, PartialEq, Eq, Structural)]
pub struct Anchor(pub usize);

/// A styled piece of text.
#[derive(Clone, Debug)]
pub struct Fragment {
    pub style: Style,
    pub text: String,
}

impl Fragment {
    /// The width of the text, one column per character.
    pub fn width(&self) -> (w: usize)
        ensures
            w == self.text@.len(),
    {
        self.text.as_str().unicode_len()
    }
}

/// A step of a layout program.
#[derive(Clone, Debug)]
pub enum Chunk {
    /// Set `anchor` at the current column.
    SetAnchor { anchor: Anchor },
    /// Set `anchor` at `offset` columns from `base`.
    SetRelativeAnchor { anchor: Anchor, base: Anchor, offset: i16 },
    /// A space, except at the start of a line.
    SoftSpace,
    /// Break the line and start the next at `anchor`.
    HardBreak { anchor: Anchor },
    /// Move forward to `anchor`, if not already past it.
    JumpTo { anchor: Anchor },
    /// Unbreakable text.
    Text(Vec<Fragment>),
}

/// A layout program: its chunks and how many anchors they use.
#[derive(Clone, Debug)]
pub struct Program {
    pub anchor_count: usize,
    pub chunks: Vec<Chunk>,
}

/// The commands for a text: each fragment with its style set around it.
pub open spec fn fragment_commands(fs: Seq<Fragment>) -> Seq<CommandView>
    decreases fs.len(),
{
    if fs.len() == 0 {
        Seq::empty()
    } else {
        fragment_commands(fs.drop_last()) + seq![
            CommandView::SetStyle(fs.last().style),
            CommandView::Text(fs.last().text@),
            CommandView::ResetStyle(fs.last().style),
        ]
    }
}

/// The total width of a text.
pub open spec fn fragments_width(fs: Seq<Fragment>) -> int
    decreases fs.len(),
{
    if fs.len() == 0 {
        0
    } else {
        fragments_width(fs.drop_last()) + fs.last().text@.len()
    }
}

/// The characters of a text.
pub open spec fn fragments_text(fs: Seq<Fragment>) -> Seq<char>
    decreases fs.len(),
{
    if fs.len() == 0 {
        Seq::empty()
    } else {
        fragments_text(fs.drop_last()) + fs.last().text@
    }
}

pub open spec fn fits_u16(x: int) -> bool {
    0 <= x <= 0xFFFF
}

/// One chunk run from column `col` with the anchors `anchors`, where `bol`
/// tells whether no text has been written on the line yet: the commands it
/// writes, the column after it and the anchors after it; nothing where a
/// column leaves 16 bits, an anchor is missing, or a relative anchor leaves
/// the range of 16-bit signed offsets.  A soft space writes nothing at the
/// start of a line.
pub open spec fn chunk_step(c: Chunk, col: int, bol: bool, anchors: Seq<int>) -> Option<
    (Seq<CommandView>, int, Seq<int>),
> {
    match c {
        Chunk::Text(fs) => if fits_u16(col + fragments_width(fs@)) {
            Some((fragment_commands(fs@), col + fragments_width(fs@), anchors))
        } else {
            None
        },
        Chunk::SoftSpace => if bol {
            Some((Seq::empty(), col, anchors))
        } else if fits_u16(col + 1) {
            Some((seq![CommandView::Space(1)], col + 1, anchors))
        } else {
            None
        },
        Chunk::HardBreak { anchor } => if anchor.0 < anchors.len() {
            let a = anchors[anchor.0 as int];
            Some((seq![CommandView::NewLine, CommandView::Space(a as u16)], a, anchors))
        } else {
            None
        },
        Chunk::JumpTo { anchor } => if anchor.0 < anchors.len() {
            let a = anchors[anchor.0 as int];
            if col < a {
                Some((seq![CommandView::Space((a - col) as u16)], a, anchors))
            } else {
                Some((Seq::empty(), col, anchors))
            }
        } else {
            None
        },
        Chunk::SetAnchor { anchor } => if anchor.0 < anchors.len() {
            Some((Seq::empty(), col, anchors.update(anchor.0 as int, col)))
        } else {
            None
        },
        Chunk::SetRelativeAnchor { anchor, base, offset } => if anchor.0 < anchors.len()
            && base.0 < anchors.len() && anchors[base.0 as int] <= 0x7FFF && 0
            <= anchors[base.0 as int] + offset <= 0x7FFF {
            Some((Seq::empty(), col, anchors.update(anchor.0 as int, anchors[base.0 as int] + offset)))
        } else {
            None
        },
    }
}

/// Whether a line has had no text yet after the chunk `c`: a line break
/// starts a line, a text ends its start, anything else leaves it as it was.
pub open spec fn starts_line(c: Chunk, bol: bool) -> bool {
    match c {
        Chunk::Text(_) => false,
        Chunk::HardBreak { .. } => true,
        _ => bol,
    }
}

/// The commands that the chunks from `k` on write, run from column `col`
/// with the anchors `anchors`, `bol` telling whether the line has had no
/// text yet.
pub open spec fn run_from(cs: Seq<Chunk>, k: int, col: int, bol: bool, anchors: Seq<int>) -> Option<
    Seq<CommandView>,
>
    decreases cs.len() - k,
{
    if k < 0 || k >= cs.len() {
        Some(Seq::empty())
    } else {
        match chunk_step(cs[k], col, bol, anchors) {
            Some((out, col2, anchors2)) => match run_from(
                cs,
                k + 1,
                col2,
                starts_line(cs[k], bol),
                anchors2,
            ) {
                Some(rest) => Some(out + rest),
                None => None,
            },
            None => None,
        }
    }
}

/// The commands that a program writes, from the start of the first line with
/// every anchor at it.
pub open spec fn layout(p: Program) -> Option<Seq<CommandView>> {
    run_from(p.chunks@, 0, 0, true, Seq::new(p.anchor_count as nat, |k: int| 0))
}

pub open spec fn anchors_view(v: Seq<u16>) -> Seq<int> {
    Seq::new(v.len(), |k: int| v[k] as int)
}

/// Adds the commands of a text and moves the column past it.
fn add_fragments(fs: &Vec<Fragment>, out: &mut Vec<Command>, col: u16) -> (r: u16)
    requires
        fits_u16(col + fragments_width(fs@)),
    ensures
        super::printer::commands_view(final(out)@) == super::printer::commands_view(old(out)@)
            + fragment_commands(fs@),
        r == col + fragments_width(fs@),
{
    let mut c = col;
    let mut j: usize = 0;
    proof {
        lemma_width_prefix(fs@, 0);
    }
    while j < fs.len()
        invariant
            j <= fs.len(),
            fits_u16(col + fragments_width(fs@)),
            c == col + fragments_width(fs@.take(j as int)),
            super::printer::commands_view(out@) == super::printer::commands_view(old(out)@)
                + fragment_commands(fs@.take(j as int)),
        decreases fs.len() - j,
    {
        let f = &fs[j];
        let w = f.width();
        proof {
            lemma_width_prefix(fs@, j as int + 1);
            assert(fs@.take(j + 1).drop_last() == fs@.take(j as int));
        }
        let ghost prev = out@;
        out.push(Command::SetStyle(f.style));
        out.push(Command::Text(f.text.clone()));
        out.push(Command::ResetStyle(f.style));
        proof {
            lemma_commands_push(prev, Command::SetStyle(f.style));
            lemma_commands_push(prev.push(Command::SetStyle(f.style)), out@[prev.len() as int + 1]);
            lemma_commands_push(prev.push(Command::SetStyle(f.style)).push(out@[prev.len() as int + 1]), Command::ResetStyle(f.style));
            assert(out@ == prev.push(Command::SetStyle(f.style)).push(out@[prev.len() as int + 1]).push(Command::ResetStyle(f.style)));
        }
        c = c + w as u16;
        j = j + 1;
        assert(super::printer::commands_view(out@) =~= super::printer::commands_view(old(out)@)
            + fragment_commands(fs@.take(j as int)));
    }
    assert(fs@.take(fs.len() as int) == fs@);
    c
}

proof fn lemma_commands_push(s: Seq<Command>, x: Command)
    ensures
        super::printer::commands_view(s.push(x)) =~= super::printer::commands_view(s).push(x.view()),
{
}

/// A text's prefixes are no wider than it.
proof fn lemma_width_prefix(fs: Seq<Fragment>, j: int)
    requires
        0 <= j <= fs.len(),
    ensures
        0 <= fragments_width(fs.take(j)) <= fragments_width(fs),
    decreases fs.len(),
{
    if j < fs.len() {
        assert(fs.drop_last().take(j) == fs.take(j));
        lemma_width_prefix(fs.drop_last(), j);
    } else {
        assert(fs.take(j) == fs);
    }
    if fs.len() > 0 {
        lemma_width_prefix(fs.drop_last(), fs.len() - 1);
        assert(fs.drop_last().take(fs.len() - 1) == fs.drop_last());
    }
}

/// Runs a layout program: the printer's commands, or nothing where the
/// program refers to a missing anchor or takes a column or an anchor out of
/// range.
pub fn solve(p: &Program) -> (r: Option<Vec<Command>>)
    ensures
        match r {
            Some(out) => layout(*p) == Some(super::printer::commands_view(out@)),
            None => layout(*p) is None,
        },
{
    let mut anchors: Vec<u16> = Vec::new();
    let mut i: usize = 0;
    while i < p.anchor_count
        invariant
            i <= p.anchor_count,
            anchors@.len() == i,
            forall|q: int| 0 <= q < i ==> anchors@[q] == 0,
        decreases p.anchor_count - i,
    {
        anchors.push(0);
        i = i + 1;
    }
    assert(anchors_view(anchors@) =~= Seq::new(p.anchor_count as nat, |k: int| 0int));
    let mut out: Vec<Command> = Vec::new();
    let mut col: u16 = 0;
    let mut bol = true;
    let mut k: usize = 0;
    let ghost cs = p.chunks@;
    while k < p.chunks.len()
        invariant
            cs == p.chunks@,
            k <= cs.len(),
            layout(*p) matches Some(all) ==> run_from(cs, k as int, col as int, bol, anchors_view(anchors@))
                matches Some(rest) && all == super::printer::commands_view(out@) + rest,
            layout(*p) is None ==> run_from(cs, k as int, col as int, bol, anchors_view(anchors@)) is None,
        decreases cs.len() - k,
    {
        let ghost before = super::printer::commands_view(out@);
        let ghost av = anchors_view(anchors@);
        let ghost c0 = col as int;
        let ghost b0 = bol;
        match &p.chunks[k] {
            Chunk::Text(fs) => {
                if (col as usize) > 0xFFFF {
                    return None;
                }
                let mut total: usize = col as usize;
                let mut j: usize = 0;
                let mut fits = true;
                while j < fs.len()
                    invariant
                        j <= fs.len(),
                        fits ==> total == col + fragments_width(fs@.take(j as int)) && total <= 0xFFFF,
                        !fits ==> !fits_u16(col + fragments_width(fs@)),
                    decreases fs.len() - j,
                {
                    if fits {
                        let w = fs[j].width();
                        proof {
                            assert(fs@.take(j + 1).drop_last() == fs@.take(j as int));
                            lemma_width_prefix(fs@, j as int + 1);
                        }
                        if w > 0xFFFF - total {
                            fits = false;
                        } else {
                            total = total + w;
                        }
                    }
                    j = j + 1;
                }
                assert(fs@.take(fs.len() as int) == fs@);
                if !fits {
                    return None;
                }
                col = add_fragments(fs, &mut out, col);
                bol = false;
            },
            Chunk::SoftSpace => {
                if !bol {
                    if col == 0xFFFF {
                        return None;
                    }
                    proof {
                        lemma_commands_push(out@, Command::Space(1));
                    }
                    out.push(Command::Space(1));
                    col = col + 1;
                }
            },
            Chunk::HardBreak { anchor } => {
                if anchor.0 >= anchors.len() {
                    return None;
                }
                let a = anchors[anchor.0];
                proof {
                    lemma_commands_push(out@, Command::NewLine);
                    lemma_commands_push(out@.push(Command::NewLine), Command::Space(a));
                }
                out.push(Command::NewLine);
                out.push(Command::Space(a));
                col = a;
                bol = true;
            },
            Chunk::JumpTo { anchor } => {
                if anchor.0 >= anchors.len() {
                    return None;
                }
                let a = anchors[anchor.0];
                if col < a {
                    proof {
                        lemma_commands_push(out@, Command::Space((a - col) as u16));
                    }
                    out.push(Command::Space(a - col));
                    col = a;
                }
            },
            Chunk::SetAnchor { anchor } => {
                if anchor.0 >= anchors.len() {
                    return None;
                }
                anchors.set(anchor.0, col);
            },
            Chunk::SetRelativeAnchor { anchor, base, offset } => {
                if anchor.0 >= anchors.len() || base.0 >= anchors.len() {
                    return None;
                }
                let b = anchors[base.0];
                if b > 0x7FFF {
                    return None;
                }
                let v: i32 = b as i32 + *offset as i32;
                if v < 0 || v > 0x7FFF {
                    return None;
                }
                anchors.set(anchor.0, v as u16);
            },
        }
        proof {
            assert(bol == starts_line(cs[k as int], b0));
            assert(anchors_view(anchors@) =~= match chunk_step(cs[k as int], c0, b0, av) {
                Some((_, _, a2)) => a2,
                None => av,
            });
            assert(super::printer::commands_view(out@) =~= before + match chunk_step(
                cs[k as int],
                c0,
                b0,
                av,
            ) {
                Some((o, _, _)) => o,
                None => Seq::empty(),
            });
        }
        k = k + 1;
    }
    proof {
        if layout(*p) is Some {
            assert(super::printer::commands_view(out@) + Seq::<CommandView>::empty() =~= super::printer::commands_view(out@));
        }
    }
    Some(out)
}

/// The characters of the `Text` commands, in order.
pub open spec fn commands_text(cs: Seq<CommandView>) -> Seq<char>
    decreases cs.len(),
{
    if cs.len() == 0 {
        Seq::empty()
    } else {
        (match cs[0] {
            CommandView::Text(t) => t,
            _ => Seq::empty(),
        }) + commands_text(cs.drop_first())
    }
}

/// The characters of the texts of the chunks from `k` on.
pub open spec fn chunks_text_from(cs: Seq<Chunk>, k: int) -> Seq<char>
    decreases cs.len() - k,
{
    if k < 0 || k >= cs.len() {
        Seq::empty()
    } else {
        (match cs[k] {
            Chunk::Text(fs) => fragments_text(fs@),
            _ => Seq::empty(),
        }) + chunks_text_from(cs, k + 1)
    }
}

pub proof fn lemma_commands_text_add(a: Seq<CommandView>, b: Seq<CommandView>)
    ensures
        commands_text(a + b) == commands_text(a) + commands_text(b),
    decreases a.len(),
{
    if a.len() == 0 {
        assert(a + b =~= b);
        assert(commands_text(a) + commands_text(b) =~= commands_text(b));
    } else {
        assert((a + b).drop_first() =~= a.drop_first() + b);
        lemma_commands_text_add(a.drop_first(), b);
        assert((a + b)[0] == a[0]);
        assert(commands_text(a + b) =~= commands_text(a) + commands_text(b));
    }
}

proof fn lemma_commands_text_single(c: CommandView)
    ensures
        commands_text(seq![c]) == match c {
            CommandView::Text(t) => t,
            _ => Seq::empty(),
        },
{
    assert(seq![c].drop_first() =~= Seq::<CommandView>::empty());
    assert(commands_text(Seq::<CommandView>::empty()) == Seq::<char>::empty());
    assert(commands_text(seq![c]) =~= (match c {
        CommandView::Text(t) => t,
        _ => Seq::empty(),
    }) + Seq::<char>::empty());
}

proof fn lemma_fragment_commands_text(fs: Seq<Fragment>)
    ensures
        commands_text(fragment_commands(fs)) == fragments_text(fs),
    decreases fs.len(),
{
    if fs.len() > 0 {
        lemma_fragment_commands_text(fs.drop_last());
        let last = seq![
            CommandView::SetStyle(fs.last().style),
            CommandView::Text(fs.last().text@),
            CommandView::ResetStyle(fs.last().style),
        ];
        lemma_commands_text_add(fragment_commands(fs.drop_last()), last);
        let a = seq![CommandView::SetStyle(fs.last().style)];
        let b = seq![CommandView::Text(fs.last().text@)];
        let c = seq![CommandView::ResetStyle(fs.last().style)];
        assert(last =~= a + b + c);
        lemma_commands_text_add(a + b, c);
        lemma_commands_text_add(a, b);
        lemma_commands_text_single(CommandView::SetStyle(fs.last().style));
        lemma_commands_text_single(CommandView::Text(fs.last().text@));
        lemma_commands_text_single(CommandView::ResetStyle(fs.last().style));
        assert(commands_text(last) =~= fs.last().text@);
    }
}

proof fn lemma_run_text(cs: Seq<Chunk>, k: int, col: int, bol: bool, anchors: Seq<int>)
    requires
        0 <= k <= cs.len(),
        run_from(cs, k, col, bol, anchors) is Some,
    ensures
        commands_text(run_from(cs, k, col, bol, anchors)->0) == chunks_text_from(cs, k),
    decreases cs.len() - k,
{
    if k < cs.len() {
        let (out, col2, anchors2) = chunk_step(cs[k], col, bol, anchors)->0;
        let bol2 = starts_line(cs[k], bol);
        lemma_run_text(cs, k + 1, col2, bol2, anchors2);
        let rest = run_from(cs, k + 1, col2, bol2, anchors2)->0;
        lemma_commands_text_add(out, rest);
        match cs[k] {
            Chunk::Text(fs) => {
                lemma_fragment_commands_text(fs@);
            },
            Chunk::SoftSpace => {
                if bol {
                    assert(commands_text(out) =~= Seq::<char>::empty());
                } else {
                    lemma_commands_text_single(CommandView::Space(1));
                }
            },
            Chunk::HardBreak { anchor } => {
                let a = anchors[anchor.0 as int];
                assert(out =~= seq![CommandView::NewLine] + seq![CommandView::Space(a as u16)]);
                lemma_commands_text_add(seq![CommandView::NewLine], seq![CommandView::Space(a as u16)]);
                lemma_commands_text_single(CommandView::NewLine);
                lemma_commands_text_single(CommandView::Space(a as u16));
            },
            Chunk::JumpTo { anchor } => {
                let a = anchors[anchor.0 as int];
                if col < a {
                    lemma_commands_text_single(CommandView::Space((a - col) as u16));
                } else {
                    assert(commands_text(out) =~= Seq::<char>::empty());
                }
            },
            _ => {
                assert(commands_text(out) =~= Seq::<char>::empty());
            },
        }
        assert(commands_text(out) + commands_text(rest) =~= chunks_text_from(cs, k));
    } else {
        assert(commands_text(Seq::<CommandView>::empty()) =~= Seq::<char>::empty());
    }
}

/// Laying a program out keeps its text: the texts of the commands are the
/// texts of the chunks, in order; only spaces, line breaks and styles are
/// added.
pub proof fn lemma_layout_keeps_text(p: Program)
    requires
        layout(p) is Some,
    ensures
        commands_text(layout(p)->0) == chunks_text_from(p.chunks@, 0),
{
    lemma_run_text(p.chunks@, 0, 0, true, Seq::new(p.anchor_count as nat, |k: int| 0));
}

} // verus!
