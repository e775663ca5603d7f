//! The meaning of the command line.
//!
//! The program reads its options (and resolves the paths they name) at its
//! edge; this module decides what to evaluate, where the input comes from,
//! what the template arguments are and where the output goes.

use vstd::prelude::*;

use crate::conn_expr::{ConnectionExpr, ConnectionExprSource};
use crate::error::Error;
use crate::text::{chars_of, copy_range, eq_chars, find_char, find_char_from, string_of};
use crate::version::VersionExpr;

verus! {

/// A file argument, or `-` for the standard stream.
#[derive(Debug, PartialEq, Eq, Clone)]
pub enum IoArg {
    Pipe,
    File(String),
}

/// Where source code comes from.
#[derive(Debug, PartialEq, Eq, Clone)]
pub enum SourceArg {
    Pipe,
    Expr(String),
    File(String),
}

/// The contents of a source argument.
pub enum SourceView {
    Pipe,
    Expr(Seq<char>),
    File(Seq<char>),
}

impl View for SourceArg {
    type V = SourceView;

    open spec fn view(&self) -> SourceView {
        match self {
            SourceArg::Pipe => SourceView::Pipe,
            SourceArg::Expr(e) => SourceView::Expr(e@),
            SourceArg::File(f) => SourceView::File(f@),
        }
    }
}

impl SourceArg {
    pub fn is_pipe(&self) -> (r: bool)
        ensures
            r == (self is Pipe),
    {
        match self {
            SourceArg::Pipe => true,
            _ => false,
        }
    }

    /// A file argument read as a source.
    pub fn from_io_arg(io: IoArg) -> (r: SourceArg)
        ensures
            match io {
                IoArg::Pipe => r is Pipe,
                IoArg::File(p) => (r matches SourceArg::File(q) && q@ == p@),
            },
    {
        match io {
            IoArg::Pipe => SourceArg::Pipe,
            IoArg::File(p) => SourceArg::File(p),
        }
    }
}

/// A template argument: a value, named, numbered by position, or both.
#[derive(Debug, Clone)]
pub struct TemplateArg {
    pub pos: Option<usize>,
    pub name: Option<String>,
    pub value: String,
}

/// A path given on the command line, as the program found it: its text (if
/// it is valid UTF-8), its text with invalid bytes replaced, and the
/// canonical path it resolves to, if it exists.
#[derive(Debug, Clone)]
pub struct PathArg {
    pub text: Option<String>,
    pub lossy: String,
    pub canonical: Option<String>,
}

/// A file argument that could not be resolved.
#[derive(Debug, Clone)]
pub struct IoParseError(pub String);

pub open spec fn is_dash(p: PathArg) -> bool {
    p.text matches Some(t) && t@ == seq!['-']
}

/// Reading a path argument where `-` means the standard stream.
pub open spec fn spec_path_or_pipe(p: PathArg) -> Option<SourceView> {
    if is_dash(p) {
        Some(SourceView::Pipe)
    } else {
        match p.canonical {
            Some(c) => Some(SourceView::File(c@)),
            None => None,
        }
    }
}

/// Reading a path argument that must name an existing file.
pub open spec fn spec_from_path(p: PathArg) -> Option<SourceView> {
    match p.canonical {
        Some(c) => Some(SourceView::File(c@)),
        None => None,
    }
}

fn is_dash_arg(p: &PathArg) -> (r: bool)
    ensures
        r == is_dash(*p),
{
    match &p.text {
        Some(t) => {
            let cs = chars_of(t.as_str());
            let dash = ['-'];
            assert(dash@ == seq!['-']);
            eq_chars(cs.as_slice(), dash.as_slice())
        },
        None => false,
    }
}

impl IoArg {
    pub fn from_path(path: &str) -> (r: IoArg)
        ensures
            (r matches IoArg::File(p) && p@ == path@),
    {
        IoArg::File(path.to_owned())
    }

    /// An existing file; `-` is not special.
    pub fn parse_from_path(p: &PathArg) -> (r: Result<IoArg, IoParseError>)
        ensures
            match spec_from_path(*p) {
                Some(SourceView::File(c)) => (r matches Ok(IoArg::File(f)) && f@ == c),
                _ => r is Err,
            },
    {
        match &p.canonical {
            Some(c) => Ok(IoArg::File(c.clone())),
            None => Err(IoParseError(p.lossy.clone())),
        }
    }

    /// `-` for the standard stream, or an existing file.
    pub fn parse_from_path_or_pipe(p: &PathArg) -> (r: Result<IoArg, IoParseError>)
        ensures
            match spec_path_or_pipe(*p) {
                Some(SourceView::Pipe) => r matches Ok(IoArg::Pipe),
                Some(SourceView::File(c)) => (r matches Ok(IoArg::File(f)) && f@ == c),
                _ => r is Err,
            },
    {
        if is_dash_arg(p) {
            Ok(IoArg::Pipe)
        } else {
            match &p.canonical {
                Some(c) => Ok(IoArg::File(c.clone())),
                None => Err(IoParseError(p.lossy.clone())),
            }
        }
    }
}

impl View for TemplateArg {
    type V = (Option<usize>, Option<Seq<char>>, Seq<char>);

    open spec fn view(&self) -> (Option<usize>, Option<Seq<char>>, Seq<char>) {
        (
            self.pos,
            match self.name {
                Some(n) => Some(n@),
                None => None,
            },
            self.value@,
        )
    }
}

/// The argument that `NAME=VALUE` (or a bare `VALUE`) gives at position `pos`.
pub open spec fn template_of(pos: Option<usize>, t: Seq<char>) -> (
    Option<usize>,
    Option<Seq<char>>,
    Seq<char>,
) {
    match find_char_from(t, '=', 0) {
        Some(i) => (pos, Some(t.take(i)), t.skip(i + 1)),
        None => (pos, None, t),
    }
}

/// Why a template argument cannot be read, if it cannot.
pub open spec fn template_error(pos: Option<usize>, s: Option<String>) -> Option<Error> {
    match s {
        None => Some(Error::NonUtf8TemplateArgument),
        Some(t) => if find_char_from(t@, '=', 0) is None && pos is None {
            Some(Error::UnnamedNonPositionalTemplateArgument)
        } else {
            None
        },
    }
}

impl TemplateArg {
    /// Reads `NAME=VALUE`, or just `VALUE` for a positional argument.  A
    /// non-positional argument must be named, and every argument must be
    /// UTF-8 (`None` stands for one that is not).
    pub fn parse(pos: Option<usize>, s: &Option<String>) -> (r: Result<TemplateArg, Error>)
        ensures
            match template_error(pos, *s) {
                Some(e) => r == Err::<TemplateArg, Error>(e),
                None => (r matches Ok(a) && a@ == template_of(pos, s.unwrap()@)),
            },
    {
        match s {
            None => Err(Error::NonUtf8TemplateArgument),
            Some(t) => {
                let cs = chars_of(t.as_str());
                match find_char(cs.as_slice(), '=', 0) {
                    Some(i) => {
                        proof {
                            crate::text::lemma_find_char_bounds(cs@, '=', 0);
                        }
                        let name = copy_range(cs.as_slice(), 0, i);
                        let value = copy_range(cs.as_slice(), i + 1, cs.len());
                        assert(name@ == t@.take(i as int));
                        assert(value@ == t@.skip(i + 1));
                        Ok(
                            TemplateArg {
                                pos,
                                name: Some(string_of(name.as_slice())),
                                value: string_of(value.as_slice()),
                            },
                        )
                    },
                    None => {
                        if pos.is_some() {
                            Ok(TemplateArg { pos, name: None, value: t.clone() })
                        } else {
                            Err(Error::UnnamedNonPositionalTemplateArgument)
                        }
                    },
                }
            },
        }
    }
}

/// An on/off switch that may also be left to the program to decide.
#[derive(Clone, Copy, Debug, PartialEq, Eq, Structural)]
pub enum Tristate {
    On,
    Off,
    Auto,
}

/// Failure to read a tristate switch.
#[derive(Clone, Copy, Debug, PartialEq, Eq, Structural)]
pub struct ParseTristateSwitchError;

impl Tristate {
    /// The switch's setting, with `default` standing for `Auto`.
    pub open spec fn setting(self, default: bool) -> bool {
        match self {
            Tristate::On => true,
            Tristate::Off => false,
            Tristate::Auto => default,
        }
    }

    /// The switch's setting, with `default` standing for `Auto`.
    pub fn to_bool(&self, default: bool) -> (r: bool)
        ensures
            r == match *self {
                Tristate::On => true,
                Tristate::Off => false,
                Tristate::Auto => default,
            },
    {
        match self {
            Tristate::On => true,
            Tristate::Off => false,
            Tristate::Auto => default,
        }
    }

    pub open spec fn spec_text(self) -> Seq<char> {
        match self {
            Tristate::On => seq!['o', 'n'],
            Tristate::Off => seq!['o', 'f', 'f'],
            Tristate::Auto => seq!['a', 'u', 't', 'o'],
        }
    }

    /// `on`, `off` or `auto`.
    pub fn to_string(&self) -> (s: String)
        ensures
            s@ == self.spec_text(),
    {
        let cs: Vec<char> = match self {
            Tristate::On => vec!['o', 'n'],
            Tristate::Off => vec!['o', 'f', 'f'],
            Tristate::Auto => vec!['a', 'u', 't', 'o'],
        };
        assert(cs@ == self.spec_text());
        string_of(cs.as_slice())
    }
}

/// What reading `s` as a switch gives: exactly `on`, `off` or `auto`.
pub open spec fn spec_parse_tristate(s: Seq<char>) -> Result<Tristate, ParseTristateSwitchError> {
    if s == Tristate::On.spec_text() {
        Ok(Tristate::On)
    } else if s == Tristate::Off.spec_text() {
        Ok(Tristate::Off)
    } else if s == Tristate::Auto.spec_text() {
        Ok(Tristate::Auto)
    } else {
        Err(ParseTristateSwitchError)
    }
}

/// Reads a switch: `on`, `off` or `auto`.
pub fn parse_tristate(s: &[char]) -> (r: Result<Tristate, ParseTristateSwitchError>)
    ensures
        r == spec_parse_tristate(s@),
{
    let on = ['o', 'n'];
    let off = ['o', 'f', 'f'];
    let auto = ['a', 'u', 't', 'o'];
    assert(on@ == Tristate::On.spec_text());
    assert(off@ == Tristate::Off.spec_text());
    assert(auto@ == Tristate::Auto.spec_text());
    if eq_chars(s, on.as_slice()) {
        Ok(Tristate::On)
    } else if eq_chars(s, off.as_slice()) {
        Ok(Tristate::Off)
    } else if eq_chars(s, auto.as_slice()) {
        Ok(Tristate::Auto)
    } else {
        Err(ParseTristateSwitchError)
    }
}

/// A switch reads back as what it shows.
pub proof fn lemma_tristate_round_trip(t: Tristate)
    ensures
        spec_parse_tristate(t.spec_text()) == Ok::<Tristate, ParseTristateSwitchError>(t),
{
    assert(Tristate::On.spec_text() != Tristate::Off.spec_text());
    assert(Tristate::On.spec_text() != Tristate::Auto.spec_text());
    assert(Tristate::Off.spec_text() != Tristate::Auto.spec_text());
}

/// What a pair of flags decides: the flag that forces the switch on sets it
/// whatever the default, the one that forces it off clears it, and neither
/// or both leave the default.
pub proof fn lemma_flags_decide_switch(on: bool, off: bool, default: bool)
    ensures
        on && !off ==> tristate_of(on, off).setting(default),
        !on && off ==> !tristate_of(on, off).setting(default),
        on == off ==> tristate_of(on, off).setting(default) == default,
        on == off ==> tristate_of(on, off) == Tristate::Auto,
{
}

/// A template argument `NAME=VALUE` is split at its first `=`: the name is
/// all before it and the value all after it.  A named result is exactly the
/// name, `=` and the value, with no `=` in the name; an unnamed one is the
/// text whole, which then holds no `=`.
pub proof fn lemma_template_split(pos: Option<usize>, t: Seq<char>, name: Seq<char>, value: Seq<char>)
    ensures
        template_of(pos, t) == (pos, Some(name), value) <==> (t == name + seq!['='] + value
            && !name.contains('=')),
        template_of(pos, t).1 is None <==> !t.contains('='),
        template_of(pos, t).1 is None ==> template_of(pos, t).2 == t,
        template_of(pos, t).0 == pos,
{
    crate::text::lemma_find_char_bounds(t, '=', 0);
    match find_char_from(t, '=', 0) {
        Some(i) => {
            assert(t.contains('=')) by {
                assert(t[i] == '=');
            }
            assert(t == t.take(i) + seq!['='] + t.skip(i + 1));
            assert(!t.take(i).contains('=')) by {
                if t.take(i).contains('=') {
                    let m = choose|m: int| 0 <= m < t.take(i).len() && t.take(i)[m] == '=';
                    assert(t[m] == '=');
                }
            }
        },
        None => {
            assert(!t.contains('=')) by {
                if t.contains('=') {
                    let m = choose|m: int| 0 <= m < t.len() && t[m] == '=';
                    crate::text::lemma_find_char_none(t, '=', 0);
                }
            }
        },
    }
    if t == name + seq!['='] + value && !name.contains('=') {
        let u = name + seq!['='] + value;
        assert(u[name.len() as int] == '=');
        assert forall|k: int| 0 <= k < name.len() implies u[k] != '=' by {
            assert(u[k] == name[k]);
            if name[k] == '=' {
                assert(name.contains('='));
            }
        }
        crate::text::lemma_find_char_first(u, '=', 0, name.len() as int);
        assert(u.take(name.len() as int) =~= name);
        assert(u.skip(name.len() as int + 1) =~= value);
    }
}

impl std::str::FromStr for Tristate {
    type Err = ParseTristateSwitchError;

    fn from_str(s: &str) -> (r: Result<Self, Self::Err>)
        ensures
            r == spec_parse_tristate(s@),
    {
        parse_tristate(chars_of(s).as_slice())
    }
}

pub open spec fn tristate_of(on: bool, off: bool) -> Tristate {
    if on && !off {
        Tristate::On
    } else if !on && off {
        Tristate::Off
    } else {
        Tristate::Auto
    }
}

/// A pair of flags: one forces the switch on, the other off; neither or both
/// leave it to the program.
pub fn tristate(on: bool, off: bool) -> (r: Tristate)
    ensures
        r == tristate_of(on, off),
{
    if on && !off {
        Tristate::On
    } else if !on && off {
        Tristate::Off
    } else {
        Tristate::Auto
    }
}

/// The command line as the program read it, with each path argument already
/// looked up.
#[derive(Debug, Clone)]
pub struct CliInput {
    /// `--port`: connect to this server.
    pub port: Option<ConnectionExpr>,
    /// `--port-file`: read the server from this file.
    pub port_file: Option<String>,
    /// `--expr`: evaluate these expressions.
    pub exprs: Vec<String>,
    /// `--file`: evaluate these files.
    pub files: Vec<PathArg>,
    /// `--stdin`: send this file to the server's stdin.
    pub stdin: Option<PathArg>,
    pub stdout: Option<String>,
    pub no_stdout: bool,
    pub stderr: Option<String>,
    pub no_stderr: bool,
    pub results: Option<String>,
    pub no_results: bool,
    /// `--arg`: named template arguments (`None` where not UTF-8).
    pub args: Vec<Option<String>>,
    /// The positional arguments.
    pub pos_args: Vec<PathArg>,
    /// `-!`: shebang mode, with an optional version requirement.
    pub shebang_guard: Option<Option<VersionExpr>>,
    /// `--wait-port-file`: seconds to wait for the port file.
    pub wait_port_file: Option<u64>,
    pub pretty: bool,
    pub no_pretty: bool,
    pub color: bool,
    pub no_color: bool,
    /// Whether the program's own standard input is a terminal.
    pub stdin_is_terminal: bool,
}

/// What the command line asks the program to do.
#[derive(Debug)]
pub struct Args {
    pub version_range: Option<VersionExpr>,
    pub conn_expr_src: ConnectionExprSource,
    pub stdin_from: Option<IoArg>,
    pub stdout_to: Option<IoArg>,
    pub stderr_to: Option<IoArg>,
    pub results_to: Option<IoArg>,
    pub source_args: Vec<SourceArg>,
    pub template_args: Vec<TemplateArg>,
    pub pretty: Tristate,
    pub color: Tristate,
}

/// The contents of an optional file argument.
pub open spec fn io_view(a: Option<IoArg>) -> Option<SourceView> {
    match a {
        None => None,
        Some(IoArg::Pipe) => Some(SourceView::Pipe),
        Some(IoArg::File(f)) => Some(SourceView::File(f@)),
    }
}

/// An output option: discarded, the given file, or the standard stream.
pub open spec fn spec_output(discard: bool, file: Option<String>) -> Option<SourceView> {
    if discard {
        None
    } else {
        match file {
            Some(f) => Some(SourceView::File(f@)),
            None => Some(SourceView::Pipe),
        }
    }
}

/// An output switch: its `--no-...` flag discards the stream whatever file
/// is given; otherwise the stream goes to the file given, or by default to
/// the program's own stream.
pub proof fn lemma_output_switch(discard: bool, file: Option<String>)
    ensures
        discard ==> spec_output(discard, file) is None,
        !discard && file is None ==> spec_output(discard, file) == Some(SourceView::Pipe),
        file matches Some(f) ==> (!discard ==> spec_output(discard, file) == Some(
            SourceView::File(f@),
        )),
{
}

/// The template arguments of a command line: first each `--arg`, unnamed by
/// position and in the order given; then each positional argument that is
/// not the program, numbered from zero in the order given.
pub proof fn lemma_template_args_in_order(cli: CliInput)
    ensures
        ({
            let t = spec_template_args(cli);
            let skip: int = if uses_first_pos_arg(cli) { 1 } else { 0 };
            &&& t.len() == cli.args.len() + cli.pos_args.len() - skip
            &&& forall|i: int| 0 <= i < cli.args.len() ==> (#[trigger] t[i]).0 is None
            &&& forall|j: int|
                0 <= j < cli.pos_args.len() - skip ==> (#[trigger] t[cli.args.len() + j]).0 == Some(
                    j as usize,
                ) && t[cli.args.len() + j].2 == template_of(
                    Some(j as usize),
                    cli.pos_args@[j + skip].text.unwrap()@,
                ).2
        }),
{
    let skip: int = if uses_first_pos_arg(cli) { 1 } else { 0 };
    assert(uses_first_pos_arg(cli) ==> cli.pos_args.len() > 0);
}

/// Whether the command line takes its program from the first positional
/// argument, which is then not a template argument.
pub open spec fn uses_first_pos_arg(cli: CliInput) -> bool {
    if cli.shebang_guard is Some {
        cli.pos_args.len() > 0
    } else {
        cli.exprs.len() == 0 && cli.files.len() == 0 && cli.stdin_is_terminal && cli.pos_args.len()
            > 0
    }
}

/// The sources to evaluate.  In shebang mode the first positional argument
/// is the program; otherwise the expressions, else the files, else a piped
/// standard input, else the first positional argument.  Nothing to evaluate
/// is fine only when merely waiting for the port file.
pub open spec fn spec_sources(cli: CliInput) -> Result<Seq<SourceView>, Error> {
    if cli.shebang_guard is Some {
        if cli.pos_args.len() == 0 {
            Err(Error::NoInput)
        } else {
            match spec_from_path(cli.pos_args@[0]) {
                Some(v) => Ok(seq![v]),
                None => Err(Error::BadSourceFile),
            }
        }
    } else if cli.exprs.len() > 0 {
        Ok(Seq::new(cli.exprs.len() as nat, |i: int| SourceView::Expr(cli.exprs@[i]@)))
    } else if cli.files.len() > 0 {
        if forall|i: int| 0 <= i < cli.files.len() ==> spec_path_or_pipe(#[trigger] cli.files@[i]) is Some {
            Ok(Seq::new(cli.files.len() as nat, |i: int| spec_path_or_pipe(cli.files@[i]).unwrap()))
        } else {
            Err(Error::BadSourceFile)
        }
    } else if !cli.stdin_is_terminal {
        Ok(seq![SourceView::Pipe])
    } else if cli.pos_args.len() > 0 {
        match spec_path_or_pipe(cli.pos_args@[0]) {
            Some(v) => Ok(seq![v]),
            None => Err(Error::BadSourceFile),
        }
    } else if cli.wait_port_file is Some {
        Ok(Seq::empty())
    } else {
        Err(Error::NoInput)
    }
}

/// How many of the sources read the standard input.
pub open spec fn pipe_count(s: Seq<SourceView>) -> nat
    decreases s.len(),
{
    if s.len() == 0 {
        0
    } else {
        pipe_count(s.drop_last()) + if s.last() is Pipe {
            1nat
        } else {
            0nat
        }
    }
}

/// The first unreadable named template argument from `i` on.
pub open spec fn first_named_error(args: Seq<Option<String>>, i: int) -> Option<Error>
    decreases args.len() - i,
{
    if i < 0 || i >= args.len() {
        None
    } else if template_error(None, args[i]) is Some {
        template_error(None, args[i])
    } else {
        first_named_error(args, i + 1)
    }
}

/// The first positional argument from `i` on that is not UTF-8.
pub open spec fn first_positional_error(args: Seq<PathArg>, i: int) -> Option<Error>
    decreases args.len() - i,
{
    if i < 0 || i >= args.len() {
        None
    } else if args[i].text is None {
        Some(Error::NonUtf8TemplateArgument)
    } else {
        first_positional_error(args, i + 1)
    }
}

/// Why the command line is refused, if it is: the sources first, then the
/// use of the standard input, then the template arguments.
pub open spec fn spec_args_error(cli: CliInput) -> Option<Error> {
    match spec_sources(cli) {
        Err(e) => Some(e),
        Ok(srcs) => if pipe_count(srcs) > 1 {
            Some(Error::StdInConflict)
        } else if cli.stdin matches Some(p) && spec_path_or_pipe(p) is None {
            Some(Error::BadStdIn)
        } else if cli.stdin is Some && pipe_count(srcs) == 1 {
            Some(Error::StdInConflict)
        } else if first_named_error(cli.args@, 0) is Some {
            first_named_error(cli.args@, 0)
        } else {
            first_positional_error(
                cli.pos_args@,
                if uses_first_pos_arg(cli) {
                    1int
                } else {
                    0int
                },
            )
        },
    }
}

/// The template arguments of an accepted command line: the named ones, then
/// the remaining positional ones numbered from zero.
pub open spec fn spec_template_args(cli: CliInput) -> Seq<
    (Option<usize>, Option<Seq<char>>, Seq<char>),
> {
    let skip = if uses_first_pos_arg(cli) {
        1int
    } else {
        0int
    };
    Seq::new(cli.args.len() as nat, |i: int| template_of(None, cli.args@[i].unwrap()@)) + Seq::new(
        (cli.pos_args.len() - skip) as nat,
        |j: int| template_of(Some(j as usize), cli.pos_args@[j + skip].text.unwrap()@),
    )
}

pub open spec fn source_views(v: Seq<SourceArg>) -> Seq<SourceView> {
    Seq::new(v.len(), |i: int| v[i]@)
}

pub open spec fn template_views(v: Seq<TemplateArg>) -> Seq<
    (Option<usize>, Option<Seq<char>>, Seq<char>),
> {
    Seq::new(v.len(), |i: int| v[i]@)
}

proof fn lemma_pipe_count_push(s: Seq<SourceView>, v: SourceView)
    ensures
        pipe_count(s.push(v)) == pipe_count(s) + if v is Pipe {
            1nat
        } else {
            0nat
        },
{
    assert(s.push(v).drop_last() == s);
}

fn count_pipes(v: &Vec<SourceArg>) -> (n: usize)
    ensures
        n == pipe_count(source_views(v@)),
{
    let mut n: usize = 0;
    let mut i: usize = 0;
    while i < v.len()
        invariant
            i <= v.len(),
            n <= i,
            n == pipe_count(source_views(v@.take(i as int))),
        decreases v.len() - i,
    {
        proof {
            lemma_pipe_count_push(source_views(v@.take(i as int)), v@[i as int]@);
            assert(source_views(v@.take(i + 1)) == source_views(v@.take(i as int)).push(
                v@[i as int]@,
            ));
        }
        if v[i].is_pipe() {
            n = n + 1;
        }
        i = i + 1;
    }
    assert(v@.take(v.len() as int) == v@);
    n
}

fn output_arg(discard: bool, file: &Option<String>) -> (r: Option<IoArg>)
    ensures
        io_view(r) == spec_output(discard, *file),
{
    if discard {
        None
    } else {
        match file {
            Some(f) => Some(IoArg::from_path(f.as_str())),
            None => Some(IoArg::Pipe),
        }
    }
}

#[verifier::loop_isolation(false)]
fn read_sources(cli: &CliInput) -> (r: Result<Vec<SourceArg>, Error>)
    ensures
        match spec_sources(*cli) {
            Ok(s) => (r matches Ok(v) && source_views(v@) == s),
            Err(e) => r == Err::<Vec<SourceArg>, Error>(e),
        },
{
    let mut out: Vec<SourceArg> = Vec::new();
    if cli.shebang_guard.is_some() {
        if cli.pos_args.len() == 0 {
            return Err(Error::NoInput);
        }
        match IoArg::parse_from_path(&cli.pos_args[0]) {
            Ok(a) => out.push(SourceArg::from_io_arg(a)),
            Err(_) => return Err(Error::BadSourceFile),
        }
        assert(source_views(out@) =~= spec_sources(*cli).unwrap());
    } else if cli.exprs.len() > 0 {
        let mut i: usize = 0;
        while i < cli.exprs.len()
            invariant
                i <= cli.exprs.len(),
                source_views(out@) =~= Seq::new(i as nat, |k: int| SourceView::Expr(cli.exprs@[k]@)),
            decreases cli.exprs.len() - i,
        {
            let e = SourceArg::Expr(cli.exprs[i].clone());
            let ghost before = out@;
            out.push(e);
            assert(source_views(out@) =~= source_views(before).push(e@));
            i = i + 1;
        }
        assert(source_views(out@) =~= spec_sources(*cli).unwrap());
    } else if cli.files.len() > 0 {
        let mut i: usize = 0;
        while i < cli.files.len()
            invariant
                i <= cli.files.len(),
                forall|k: int| 0 <= k < i ==> spec_path_or_pipe(#[trigger] cli.files@[k]) is Some,
                source_views(out@) =~= Seq::new(
                    i as nat,
                    |k: int| spec_path_or_pipe(cli.files@[k]).unwrap(),
                ),
            decreases cli.files.len() - i,
        {
            match IoArg::parse_from_path_or_pipe(&cli.files[i]) {
                Ok(a) => {
                    let f = SourceArg::from_io_arg(a);
                    let ghost before = out@;
                    out.push(f);
                    assert(source_views(out@) =~= source_views(before).push(f@));
                },
                Err(_) => {
                    assert(spec_path_or_pipe(cli.files@[i as int]) is None);
                    return Err(Error::BadSourceFile);
                },
            }
            i = i + 1;
        }
        assert(source_views(out@) =~= spec_sources(*cli).unwrap());
    } else if !cli.stdin_is_terminal {
        out.push(SourceArg::Pipe);
        assert(source_views(out@) =~= spec_sources(*cli).unwrap());
    } else if cli.pos_args.len() > 0 {
        match IoArg::parse_from_path_or_pipe(&cli.pos_args[0]) {
            Ok(a) => out.push(SourceArg::from_io_arg(a)),
            Err(_) => return Err(Error::BadSourceFile),
        }
        assert(source_views(out@) =~= spec_sources(*cli).unwrap());
    } else if cli.wait_port_file.is_none() {
        return Err(Error::NoInput);
    } else {
        assert(source_views(out@) =~= spec_sources(*cli).unwrap());
    }
    Ok(out)
}

impl Args {
    /// Decides what the command line asks for, or why it is refused.
    #[verifier::loop_isolation(false)]
    pub fn from_cli(cli: CliInput) -> (r: Result<Args, Error>)
        ensures
            match spec_args_error(cli) {
                Some(e) => r == Err::<Args, Error>(e),
                None => (r matches Ok(a) && {
                    &&& a.version_range == (match cli.shebang_guard {
                        Some(v) => v,
                        None => None,
                    })
                    &&& source_views(a.source_args@) == spec_sources(cli).unwrap()
                    &&& io_view(a.stdin_from) == (match cli.stdin {
                        Some(p) => spec_path_or_pipe(p),
                        None => None,
                    })
                    &&& io_view(a.stdout_to) == spec_output(cli.no_stdout, cli.stdout)
                    &&& io_view(a.stderr_to) == spec_output(cli.no_stderr, cli.stderr)
                    &&& io_view(a.results_to) == spec_output(cli.no_results, cli.results)
                    &&& template_views(a.template_args@) == spec_template_args(cli)
                    &&& a.pretty == tristate_of(cli.pretty, cli.no_pretty)
                    &&& a.color == tristate_of(cli.color, cli.no_color)
                    &&& match cli.port {
                        Some(e) => (a.conn_expr_src matches ConnectionExprSource::Direct(d)
                            && d == e),
                        None => (a.conn_expr_src matches ConnectionExprSource::PortFile {
                            path,
                            wait_for_secs,
                        } && path == cli.port_file && wait_for_secs == cli.wait_port_file),
                    }
                }),
            },
    {
        let sources = match read_sources(&cli) {
            Ok(s) => s,
            Err(e) => return Err(e),
        };
        let ghost srcs = spec_sources(cli).unwrap();
        let pipes = count_pipes(&sources);
        if pipes > 1 {
            return Err(Error::StdInConflict);
        }
        let stdin_from = match &cli.stdin {
            Some(p) => match IoArg::parse_from_path_or_pipe(p) {
                Ok(a) => Some(a),
                Err(_) => return Err(Error::BadStdIn),
            },
            None => None,
        };
        if stdin_from.is_some() && pipes == 1 {
            return Err(Error::StdInConflict);
        }
        let mut template_args: Vec<TemplateArg> = Vec::new();
        let mut i: usize = 0;
        while i < cli.args.len()
            invariant
                i <= cli.args.len(),
                first_named_error(cli.args@, 0) == first_named_error(cli.args@, i as int),
                forall|k: int| 0 <= k < i ==> (#[trigger] cli.args@[k]) is Some,
                template_views(template_args@) =~= Seq::new(
                    i as nat,
                    |k: int| template_of(None, cli.args@[k].unwrap()@),
                ),
            decreases cli.args.len() - i,
        {
            match TemplateArg::parse(None, &cli.args[i]) {
                Ok(a) => {
                    let ghost before = template_args@;
                    template_args.push(a);
                    assert(template_views(template_args@) =~= template_views(before).push(a@));
                },
                Err(e) => return Err(e),
            }
            i = i + 1;
        }
        let skip: usize = if cli.shebang_guard.is_some() {
            if cli.pos_args.len() > 0 {
                1
            } else {
                0
            }
        } else if cli.exprs.len() == 0 && cli.files.len() == 0 && cli.stdin_is_terminal
            && cli.pos_args.len() > 0 {
            1
        } else {
            0
        };
        assert(skip == (if uses_first_pos_arg(cli) {
            1int
        } else {
            0int
        }));
        let ghost named = template_views(template_args@);
        let mut j: usize = skip;
        while j < cli.pos_args.len()
            invariant
                skip <= j <= cli.pos_args.len(),
                first_positional_error(cli.pos_args@, skip as int) == first_positional_error(
                    cli.pos_args@,
                    j as int,
                ),
                forall|k: int| skip <= k < j ==> (#[trigger] cli.pos_args@[k]).text is Some,
                template_views(template_args@) =~= named + Seq::new(
                    (j - skip) as nat,
                    |k: int| template_of(Some(k as usize), cli.pos_args@[k + skip].text.unwrap()@),
                ),
            decreases cli.pos_args.len() - j,
        {
            match TemplateArg::parse(Some(j - skip), &cli.pos_args[j].text) {
                Ok(a) => {
                    let ghost before = template_args@;
                    template_args.push(a);
                    assert(template_views(template_args@) =~= template_views(before).push(a@));
                },
                Err(e) => return Err(e),
            }
            j = j + 1;
        }
        let pretty = tristate(cli.pretty, cli.no_pretty);
        let color = tristate(cli.color, cli.no_color);
        let stdout_to = output_arg(cli.no_stdout, &cli.stdout);
        let stderr_to = output_arg(cli.no_stderr, &cli.stderr);
        let results_to = output_arg(cli.no_results, &cli.results);
        let conn_expr_src = match cli.port {
            Some(e) => ConnectionExprSource::Direct(e),
            None => ConnectionExprSource::PortFile {
                path: cli.port_file,
                wait_for_secs: cli.wait_port_file,
            },
        };
        let version_range = match cli.shebang_guard {
            Some(v) => v,
            None => None,
        };
        Ok(
            Args {
                version_range,
                conn_expr_src,
                stdin_from,
                stdout_to,
                stderr_to,
                results_to,
                source_args: sources,
                template_args,
                pretty,
                color,
            },
        )
    }
}

} // verus!
