//! The printer: it turns a list of commands (text, spaces, line breaks and
//! styles) into the characters that go to the terminal.

use vstd::prelude::*;

use super::style::{fg_escape, render_fg, render_reset, reset_escape, Color, Style};

verus! {

/// A command to the printer.
#[derive(Clone, Debug)]
pub enum Command {
    NewLine,
    Space(u16),
    SetStyle(Style),
    ResetStyle(Style),
    Text(String),
}

/// The contents of a command.
pub enum CommandView {
    NewLine,
    Space(u16),
    SetStyle(Style),
    ResetStyle(Style),
    Text(Seq<char>),
}

impl Command {
    pub open spec fn view(&self) -> CommandView {
        match self {
            Command::NewLine => CommandView::NewLine,
            Command::Space(n) => CommandView::Space(*n),
            Command::SetStyle(s) => CommandView::SetStyle(*s),
            Command::ResetStyle(s) => CommandView::ResetStyle(*s),
            Command::Text(t) => CommandView::Text(t@),
        }
    }

    pub fn is_set_style(&self) -> (r: bool)
        ensures
            r == (self.view() is SetStyle),
    {
        match self {
            Command::SetStyle(_) => true,
            _ => false,
        }
    }
}

pub open spec fn commands_view(cs: Seq<Command>) -> Seq<CommandView> {
    Seq::new(cs.len(), |k: int| cs[k].view())
}

/// `n` spaces.
pub open spec fn spaces(n: nat) -> Seq<char> {
    Seq::new(n, |k: int| ' ')
}

/// What the printer writes for the commands from `k` on, given the color
/// currently set.  With colors, a style sets its color unless that color is
/// already set, and the end of a style resets the colors unless another style
/// follows at once.
pub open spec fn render_from(
    cs: Seq<CommandView>,
    k: int,
    use_color: bool,
    current: Option<Color>,
) -> Seq<char>
    decreases cs.len() - k,
{
    if k < 0 || k >= cs.len() {
        Seq::empty()
    } else {
        match cs[k] {
            CommandView::NewLine => seq!['\n'] + render_from(cs, k + 1, use_color, current),
            CommandView::Space(n) => spaces(n as nat) + render_from(cs, k + 1, use_color, current),
            CommandView::Text(t) => t + render_from(cs, k + 1, use_color, current),
            CommandView::SetStyle(s) => if use_color && current != Some(s.color()) {
                fg_escape(s.color().index()) + render_from(cs, k + 1, use_color, Some(s.color()))
            } else {
                render_from(cs, k + 1, use_color, current)
            },
            CommandView::ResetStyle(_) => if use_color && !(k + 1 < cs.len() && cs[k + 1] is SetStyle) {
                reset_escape() + render_from(cs, k + 1, use_color, None)
            } else {
                render_from(cs, k + 1, use_color, current)
            },
        }
    }
}

/// What the printer writes for the commands.
pub open spec fn render(cs: Seq<CommandView>, use_color: bool) -> Seq<char> {
    render_from(cs, 0, use_color, None)
}

fn push_spaces(out: &mut String, n: u16)
    ensures
        final(out)@ == old(out)@ + spaces(n as nat),
{
    let mut k: u16 = 0;
    while k < n
        invariant
            k <= n,
            out@ == old(out)@ + spaces(k as nat),
        decreases n - k,
    {
        out.push(' ');
        k = k + 1;
        assert(out@ =~= old(out)@ + spaces(k as nat));
    }
}

fn push_text(out: &mut String, t: &str)
    ensures
        final(out)@ == old(out)@ + t@,
{
    out.append(t);
}

/// Prints the commands, with colors or without.
pub fn print(commands: &Vec<Command>, use_color: bool) -> (r: String)
    ensures
        r@ == render(commands_view(commands@), use_color),
{
    let ghost cs = commands_view(commands@);
    let mut out = String::new();
    let mut current: Option<Color> = None;
    let mut k: usize = 0;
    while k < commands.len()
        invariant
            cs == commands_view(commands@),
            k <= commands.len(),
            out@ + render_from(cs, k as int, use_color, current) == render(cs, use_color),
        decreases commands.len() - k,
    {
        let ghost before = out@;
        match &commands[k] {
            Command::NewLine => {
                out.push('\n');
            },
            Command::Space(n) => {
                push_spaces(&mut out, *n);
            },
            Command::Text(t) => {
                push_text(&mut out, t.as_str());
            },
            Command::SetStyle(s) => {
                if use_color {
                    let color = s.to_ansi_color();
                    let same = match current {
                        Some(c) => c == color,
                        None => false,
                    };
                    if !same {
                        let esc = render_fg(color.code());
                        push_text(&mut out, esc.as_str());
                        current = Some(color);
                    }
                }
            },
            Command::ResetStyle(_) => {
                let next_sets = k + 1 < commands.len() && commands[k + 1].is_set_style();
                if use_color && !next_sets {
                    let esc = render_reset();
                    push_text(&mut out, esc.as_str());
                    current = None;
                }
            },
        }
        proof {
            assert(cs[k as int] == commands@[k as int].view());
            if k + 1 < commands.len() {
                assert(cs[k + 1] == commands@[k + 1].view());
            }
            assert(out@ + render_from(cs, k + 1, use_color, current) =~= render(cs, use_color));
        }
        k = k + 1;
    }
    assert(render_from(cs, k as int, use_color, current) =~= Seq::<char>::empty());
    assert(out@ =~= out@ + Seq::<char>::empty());
    out
}

/// The text after the end (`m`) of an escape sequence whose start has been
/// read.
pub open spec fn after_escape(x: Seq<char>) -> Seq<char>
    decreases x.len(),
{
    if x.len() == 0 {
        x
    } else if x[0] == 'm' {
        x.drop_first()
    } else {
        after_escape(x.drop_first())
    }
}

/// What follows an escape sequence is no longer than the text.
pub proof fn lemma_after_escape_len(x: Seq<char>)
    ensures
        after_escape(x).len() <= x.len(),
    decreases x.len(),
{
    if x.len() > 0 && x[0] != 'm' {
        lemma_after_escape_len(x.drop_first());
    }
}

/// The text with every escape sequence (from `ESC` to the next `m`) taken
/// out.
pub open spec fn strip_escapes(x: Seq<char>) -> Seq<char>
    decreases x.len(),
{
    if x.len() == 0 {
        x
    } else if x[0] == '\u{1B}' {
        proof {
            lemma_after_escape_len(x.drop_first());
        }
        strip_escapes(after_escape(x.drop_first()))
    } else {
        seq![x[0]] + strip_escapes(x.drop_first())
    }
}

/// No `ESC` stands in the texts of the commands.
pub open spec fn texts_without_escapes(cs: Seq<CommandView>) -> bool {
    forall|k: int| 0 <= k < cs.len() ==> text_without_escape(#[trigger] cs[k])
}

/// A command that is no text, or a text without `ESC`.
pub open spec fn text_without_escape(c: CommandView) -> bool {
    match c {
        CommandView::Text(t) => forall|i: int| 0 <= i < t.len() ==> t[i] != '\u{1B}',
        _ => true,
    }
}

proof fn lemma_strip_plain(t: Seq<char>, rest: Seq<char>)
    requires
        forall|i: int| 0 <= i < t.len() ==> t[i] != '\u{1B}',
    ensures
        strip_escapes(t + rest) == t + strip_escapes(rest),
    decreases t.len(),
{
    if t.len() > 0 {
        assert((t + rest).drop_first() =~= t.drop_first() + rest);
        assert((t + rest)[0] == t[0]);
        lemma_strip_plain(t.drop_first(), rest);
        assert(t =~= seq![t[0]] + t.drop_first());
    } else {
        assert(t + rest =~= rest);
    }
}

proof fn lemma_after_escape_body(x: Seq<char>, rest: Seq<char>)
    requires
        forall|i: int| 0 <= i < x.len() ==> x[i] != 'm',
    ensures
        after_escape(x + seq!['m'] + rest) == rest,
    decreases x.len(),
{
    let y = x + seq!['m'] + rest;
    if x.len() > 0 {
        assert(y[0] == x[0]);
        assert(y.drop_first() =~= x.drop_first() + seq!['m'] + rest);
        lemma_after_escape_body(x.drop_first(), rest);
    } else {
        assert(y[0] == 'm');
        assert(y.drop_first() =~= rest);
    }
}

proof fn lemma_strip_escape(body: Seq<char>, rest: Seq<char>)
    requires
        forall|i: int| 0 <= i < body.len() ==> body[i] != 'm',
    ensures
        strip_escapes(seq!['\u{1B}'] + body + seq!['m'] + rest) == strip_escapes(rest),
{
    let y = seq!['\u{1B}'] + body + seq!['m'] + rest;
    assert(y[0] == '\u{1B}');
    assert(y.drop_first() =~= body + seq!['m'] + rest);
    lemma_after_escape_body(body, rest);
}

proof fn lemma_render_strip(cs: Seq<CommandView>, k: int, current: Option<Color>, other: Option<Color>)
    requires
        0 <= k,
        texts_without_escapes(cs),
    ensures
        strip_escapes(render_from(cs, k, true, current)) == render_from(cs, k, false, other),
    decreases cs.len() - k,
{
    if k < cs.len() {
        match cs[k] {
            CommandView::NewLine => {
                lemma_render_strip(cs, k + 1, current, other);
                lemma_strip_plain(seq!['\n'], render_from(cs, k + 1, true, current));
            },
            CommandView::Space(n) => {
                lemma_render_strip(cs, k + 1, current, other);
                lemma_strip_plain(spaces(n as nat), render_from(cs, k + 1, true, current));
            },
            CommandView::Text(t) => {
                lemma_render_strip(cs, k + 1, current, other);
                assert(text_without_escape(cs[k]));
                lemma_strip_plain(t, render_from(cs, k + 1, true, current));
            },
            CommandView::SetStyle(st) => {
                if current != Some(st.color()) {
                    lemma_render_strip(cs, k + 1, Some(st.color()), other);
                    let i = st.color().index();
                    let tens = if i < 8 {
                        '3'
                    } else {
                        '9'
                    };
                    let digit = (('0' as u8) + (i % 8)) as char;
                    let body = seq!['[', tens, digit];
                    assert(fg_escape(i) =~= seq!['\u{1B}'] + body + seq!['m']);
                    assert(('0' as u8) + (i % 8) < 58) by (nonlinear_arith)
                        requires i < 256;
                    lemma_strip_escape(body, render_from(cs, k + 1, true, Some(st.color())));
                    assert(fg_escape(i) + render_from(cs, k + 1, true, Some(st.color())) =~= seq![
                        '\u{1B}',
                    ] + body + seq!['m'] + render_from(cs, k + 1, true, Some(st.color())));
                } else {
                    lemma_render_strip(cs, k + 1, current, other);
                }
            },
            CommandView::ResetStyle(_) => {
                if !(k + 1 < cs.len() && cs[k + 1] is SetStyle) {
                    lemma_render_strip(cs, k + 1, None, other);
                    let body = seq!['[', '0'];
                    assert(reset_escape() =~= seq!['\u{1B}'] + body + seq!['m']);
                    lemma_strip_escape(body, render_from(cs, k + 1, true, None));
                    assert(reset_escape() + render_from(cs, k + 1, true, None) =~= seq!['\u{1B}']
                        + body + seq!['m'] + render_from(cs, k + 1, true, None));
                } else {
                    lemma_render_strip(cs, k + 1, current, other);
                }
            },
        }
    } else {
        assert(render_from(cs, k, true, current) =~= Seq::<char>::empty());
    }
}

/// Colors only add escape sequences: taking them out of the colored text
/// gives the plain text, where no text holds an `ESC` of its own.
pub proof fn lemma_color_adds_only_escapes(cs: Seq<CommandView>)
    requires
        texts_without_escapes(cs),
    ensures
        strip_escapes(render(cs, true)) == render(cs, false),
{
    lemma_render_strip(cs, 0, None, None);
}

/// What a command writes besides escape sequences: a line break, spaces or
/// its text.  Styles write nothing of their own.
pub open spec fn plain_piece(c: CommandView) -> Seq<char> {
    match c {
        CommandView::NewLine => seq!['\n'],
        CommandView::Space(n) => spaces(n as nat),
        CommandView::Text(t) => t,
        _ => Seq::empty(),
    }
}

/// Whether the command after `k` sets a style.
pub open spec fn next_sets_style(cs: Seq<CommandView>, k: int) -> bool {
    k + 1 < cs.len() && cs[k + 1] is SetStyle
}

/// The color set on the terminal after command `k`, given the color set
/// before it.
pub open spec fn color_after(cs: Seq<CommandView>, k: int, current: Option<Color>) -> Option<
    Color,
> {
    match cs[k] {
        CommandView::SetStyle(s) => Some(s.color()),
        CommandView::ResetStyle(_) => if next_sets_style(cs, k) {
            current
        } else {
            None
        },
        _ => current,
    }
}

/// The color set on the terminal before command `k` when printing with
/// colors: none at the start.
pub open spec fn color_before(cs: Seq<CommandView>, k: int) -> Option<Color>
    decreases k,
{
    if k <= 0 {
        None
    } else {
        color_after(cs, k - 1, color_before(cs, k - 1))
    }
}

/// The escape sequence that command `k` writes when printing with colors,
/// given the color set before it: a color for a style whose color is not the
/// one set, a reset for the end of a style that no style follows at once, and
/// nothing otherwise.
pub open spec fn escape_written(cs: Seq<CommandView>, k: int, current: Option<Color>) -> Seq<
    char,
> {
    match cs[k] {
        CommandView::SetStyle(s) => if current != Some(s.color()) {
            fg_escape(s.color().index())
        } else {
            Seq::empty()
        },
        CommandView::ResetStyle(_) => if next_sets_style(cs, k) {
            Seq::empty()
        } else {
            reset_escape()
        },
        _ => Seq::empty(),
    }
}

/// The output command by command from `k` on: each command's escape sequence
/// (with colors only), then what it writes besides.
pub open spec fn output_by_command(cs: Seq<CommandView>, k: int, use_color: bool) -> Seq<char>
    decreases cs.len() - k,
{
    if k < 0 || k >= cs.len() {
        Seq::empty()
    } else {
        (if use_color {
            escape_written(cs, k, color_before(cs, k))
        } else {
            Seq::empty()
        }) + plain_piece(cs[k]) + output_by_command(cs, k + 1, use_color)
    }
}

proof fn lemma_render_by_command(cs: Seq<CommandView>, k: int, use_color: bool)
    requires
        0 <= k <= cs.len(),
    ensures
        render_from(cs, k, use_color, if use_color {
            color_before(cs, k)
        } else {
            None
        }) == output_by_command(cs, k, use_color),
    decreases cs.len() - k,
{
    if k < cs.len() {
        lemma_render_by_command(cs, k + 1, use_color);
        let cur = if use_color {
            color_before(cs, k)
        } else {
            None
        };
        assert(color_before(cs, k + 1) == color_after(cs, k, color_before(cs, k)));
        let rest = output_by_command(cs, k + 1, use_color);
        match cs[k] {
            CommandView::SetStyle(s) => {
                if use_color && cur == Some(s.color()) {
                    assert(color_after(cs, k, cur) == cur);
                }
                assert(Seq::<char>::empty() + rest =~= rest);
                assert(fg_escape(s.color().index()) + Seq::<char>::empty() + rest =~= fg_escape(
                    s.color().index(),
                ) + rest);
            },
            CommandView::ResetStyle(_) => {
                assert(Seq::<char>::empty() + rest =~= rest);
                assert(reset_escape() + Seq::<char>::empty() + rest =~= reset_escape() + rest);
            },
            _ => {
                assert(Seq::<char>::empty() + plain_piece(cs[k]) =~= plain_piece(cs[k]));
            },
        }
    } else {
        assert(render_from(cs, k, use_color, if use_color {
            color_before(cs, k)
        } else {
            None
        }) =~= Seq::<char>::empty());
    }
}

/// When the printer writes escape sequences: the output is, command by
/// command, what each command writes besides escapes, and with colors each
/// command is preceded by the escape sequence it calls for.  A style writes
/// its color only when that color is not the one already set (none at the
/// start and after a reset), and the end of a style writes a reset only when
/// no style follows it at once.  Without colors no escape sequence is
/// written.
pub proof fn lemma_when_escapes_are_written(cs: Seq<CommandView>)
    ensures
        render(cs, true) == output_by_command(cs, 0, true),
        render(cs, false) == output_by_command(cs, 0, false),
{
    lemma_render_by_command(cs, 0, true);
    lemma_render_by_command(cs, 0, false);
}

} // verus!
