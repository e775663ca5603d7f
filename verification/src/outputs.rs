//! Where the server's output goes.
//!
//! The server's standard output, standard error and results each go to a
//! standard stream of the program or to a file, or nowhere.  Streams that go
//! to the same place share it: a file is opened once.

use vstd::prelude::*;

use crate::cli::{IoArg, Tristate};
use crate::error::Error;
use crate::lex::grammar::accepts;
use crate::lex::lexer::{lexemes_are, max_input};
use crate::lex::{lex, Lexeme};
use crate::pprint::program::pretty_printable;
use crate::pprint::result_printer::{can_print_pretty, printed, ClojureResultPrinter, PrintError};
use crate::result_ir::{build, spec_build};
use crate::pprint::unformatted::printable;

verus! {

/// Where output goes.
#[derive(Debug, Clone)]
pub enum OutputTarget {
    StdOut,
    StdErr,
    File(String),
}

/// What the server sends.
#[derive(Debug, Clone, Copy, PartialEq, Eq, Structural)]
pub enum Stream {
    StdOut,
    StdErr,
    Results,
}

/// The contents of a target.
pub enum TargetView {
    StdOut,
    StdErr,
    File(Seq<char>),
}

pub open spec fn target_view(t: OutputTarget) -> TargetView {
    match t {
        OutputTarget::StdOut => TargetView::StdOut,
        OutputTarget::StdErr => TargetView::StdErr,
        OutputTarget::File(p) => TargetView::File(p@),
    }
}

/// Where a stream goes by its argument: a file, or with `-` the program's
/// standard output (for the server's standard output and results) or
/// standard error.
pub open spec fn route(stream: Stream, arg: Option<IoArg>) -> Option<TargetView> {
    match arg {
        None => None,
        Some(IoArg::File(p)) => Some(TargetView::File(p@)),
        Some(IoArg::Pipe) => Some(
            match stream {
                Stream::StdErr => TargetView::StdErr,
                _ => TargetView::StdOut,
            },
        ),
    }
}

/// The streams and where they go, in the order stdout, stderr, results.
pub open spec fn connections(
    stdout_to: Option<IoArg>,
    stderr_to: Option<IoArg>,
    results_to: Option<IoArg>,
) -> Seq<(Stream, TargetView)> {
    let a = match route(Stream::StdOut, stdout_to) {
        Some(t) => seq![(Stream::StdOut, t)],
        None => Seq::empty(),
    };
    let b = match route(Stream::StdErr, stderr_to) {
        Some(t) => seq![(Stream::StdErr, t)],
        None => Seq::empty(),
    };
    let c = match route(Stream::Results, results_to) {
        Some(t) => seq![(Stream::Results, t)],
        None => Seq::empty(),
    };
    a + b + c
}

/// A plan of outputs: targets, each once, with the streams that go there;
/// every target has at least one stream, and only streams routed to it.
pub open spec fn plan_of(
    plan: Seq<(OutputTarget, Vec<Stream>)>,
    conns: Seq<(Stream, TargetView)>,
) -> bool {
    &&& forall|i: int| 0 <= i < plan.len() ==> #[trigger] plan[i].1.len() > 0
    &&& forall|i: int, j: int|
        0 <= i < j < plan.len() ==> target_view(plan[i].0) != target_view(plan[j].0)
    &&& forall|i: int, k: int|
        0 <= i < plan.len() && 0 <= k < plan[i].1.len() ==> conns.contains(
            (plan[i].1@[k], target_view(plan[i].0)),
        )
    &&& forall|c: int| 0 <= c < conns.len() ==> covered(plan, #[trigger] conns[c])
}

/// Whether the plan sends the stream to the target.
pub open spec fn covered(plan: Seq<(OutputTarget, Vec<Stream>)>, conn: (Stream, TargetView)) -> bool {
    exists|i: int|
        0 <= i < plan.len() && target_view(#[trigger] plan[i].0) == conn.1 && plan[i].1@.contains(conn.0)
}

/// Whether an output argument sends a stream to `t`: `-` to the stream's
/// own standard stream `pipe`, a path to that file.
pub open spec fn lands_on(arg: Option<IoArg>, pipe: TargetView, t: TargetView) -> bool {
    ||| arg == Some(IoArg::Pipe) && t == pipe
    ||| arg matches Some(IoArg::File(p)) && t == TargetView::File(p@)
}

proof fn lemma_connections_routes(o: Option<IoArg>, e: Option<IoArg>, r: Option<IoArg>, w: int)
    requires
        0 <= w < connections(o, e, r).len(),
    ensures
        ({
            let c = connections(o, e, r)[w];
            &&& c.0 == Stream::StdOut ==> lands_on(o, TargetView::StdOut, c.1)
            &&& c.0 == Stream::StdErr ==> lands_on(e, TargetView::StdErr, c.1)
            &&& c.0 == Stream::Results ==> lands_on(r, TargetView::StdOut, c.1)
        }),
{
}

proof fn lemma_connections_has(o: Option<IoArg>, e: Option<IoArg>, r: Option<IoArg>)
    ensures
        o is Some ==> exists|w: int|
            0 <= w < connections(o, e, r).len() && #[trigger] connections(o, e, r)[w].0
                == Stream::StdOut,
        e is Some ==> exists|w: int|
            0 <= w < connections(o, e, r).len() && #[trigger] connections(o, e, r)[w].0
                == Stream::StdErr,
        r is Some ==> exists|w: int|
            0 <= w < connections(o, e, r).len() && #[trigger] connections(o, e, r)[w].0
                == Stream::Results,
{
    let cs = connections(o, e, r);
    let na: int = if o is Some { 1 } else { 0 };
    let nb: int = if e is Some { 1 } else { 0 };
    if o is Some {
        assert(cs[0].0 == Stream::StdOut);
    }
    if e is Some {
        assert(cs[na].0 == Stream::StdErr);
    }
    if r is Some {
        assert(cs[na + nb].0 == Stream::Results);
    }
}

/// Where a plan sends each stream: the server's standard output and results
/// go to the program's standard output with `-`, its standard error to the
/// program's standard error with `-`, and a stream with a path goes to that
/// file.  A stream with an argument goes somewhere; one without, nowhere.
pub proof fn lemma_plan_sends_streams(
    plan: Seq<(OutputTarget, Vec<Stream>)>,
    stdout_to: Option<IoArg>,
    stderr_to: Option<IoArg>,
    results_to: Option<IoArg>,
)
    requires
        plan_of(plan, connections(stdout_to, stderr_to, results_to)),
    ensures
        forall|i: int, k: int|
            0 <= i < plan.len() && 0 <= k < plan[i].1.len() ==> {
                let t = target_view(plan[i].0);
                &&& #[trigger] plan[i].1@[k] == Stream::StdOut ==> lands_on(stdout_to, TargetView::StdOut, t)
                &&& plan[i].1@[k] == Stream::StdErr ==> lands_on(stderr_to, TargetView::StdErr, t)
                &&& plan[i].1@[k] == Stream::Results ==> lands_on(results_to, TargetView::StdOut, t)
            },
        stdout_to is Some <==> exists|i: int|
            0 <= i < plan.len() && (#[trigger] plan[i].1@).contains(Stream::StdOut),
        stderr_to is Some <==> exists|i: int|
            0 <= i < plan.len() && (#[trigger] plan[i].1@).contains(Stream::StdErr),
        results_to is Some <==> exists|i: int|
            0 <= i < plan.len() && (#[trigger] plan[i].1@).contains(Stream::Results),
{
    let cs = connections(stdout_to, stderr_to, results_to);
    assert forall|i: int, k: int|
        0 <= i < plan.len() && 0 <= k < plan[i].1.len() implies {
            let t = target_view(plan[i].0);
            &&& #[trigger] plan[i].1@[k] == Stream::StdOut ==> lands_on(stdout_to, TargetView::StdOut, t)
            &&& plan[i].1@[k] == Stream::StdErr ==> lands_on(stderr_to, TargetView::StdErr, t)
            &&& plan[i].1@[k] == Stream::Results ==> lands_on(results_to, TargetView::StdOut, t)
        } by {
        assert(cs.contains((plan[i].1@[k], target_view(plan[i].0))));
        let w = choose|w: int| 0 <= w < cs.len() && cs[w] == (plan[i].1@[k], target_view(plan[i].0));
        lemma_connections_routes(stdout_to, stderr_to, results_to, w);
    }
    lemma_stream_present(plan, stdout_to, stderr_to, results_to, Stream::StdOut);
    lemma_stream_present(plan, stdout_to, stderr_to, results_to, Stream::StdErr);
    lemma_stream_present(plan, stdout_to, stderr_to, results_to, Stream::Results);
}

proof fn lemma_stream_present(
    plan: Seq<(OutputTarget, Vec<Stream>)>,
    stdout_to: Option<IoArg>,
    stderr_to: Option<IoArg>,
    results_to: Option<IoArg>,
    st: Stream,
)
    requires
        plan_of(plan, connections(stdout_to, stderr_to, results_to)),
    ensures
        (match st {
            Stream::StdOut => stdout_to is Some,
            Stream::StdErr => stderr_to is Some,
            Stream::Results => results_to is Some,
        }) <==> exists|i: int| 0 <= i < plan.len() && (#[trigger] plan[i].1@).contains(st),
{
    let cs = connections(stdout_to, stderr_to, results_to);
    lemma_connections_has(stdout_to, stderr_to, results_to);
    if exists|i: int| 0 <= i < plan.len() && (#[trigger] plan[i].1@).contains(st) {
        let i = choose|i: int| 0 <= i < plan.len() && (#[trigger] plan[i].1@).contains(st);
        let k = choose|k: int| 0 <= k < plan[i].1@.len() && plan[i].1@[k] == st;
        assert(cs.contains((plan[i].1@[k], target_view(plan[i].0))));
        let w = choose|w: int| 0 <= w < cs.len() && cs[w] == (plan[i].1@[k], target_view(plan[i].0));
        lemma_connections_routes(stdout_to, stderr_to, results_to, w);
    }
    if (match st {
        Stream::StdOut => stdout_to is Some,
        Stream::StdErr => stderr_to is Some,
        Stream::Results => results_to is Some,
    }) {
        let w = choose|w: int| 0 <= w < cs.len() && #[trigger] cs[w].0 == st;
        assert(covered(plan, cs[w]));
        let i = choose|i: int|
            0 <= i < plan.len() && target_view(#[trigger] plan[i].0) == cs[w].1 && plan[i].1@.contains(cs[w].0);
        assert(plan[i].1@.contains(st));
    }
}

fn same_target(a: &OutputTarget, bt: &OutputTarget) -> (r: bool)
    ensures
        r == (target_view(*a) == target_view(*bt)),
{
    match (a, bt) {
        (OutputTarget::StdOut, OutputTarget::StdOut) => true,
        (OutputTarget::StdErr, OutputTarget::StdErr) => true,
        (OutputTarget::File(p), OutputTarget::File(q)) => *p == *q,
        _ => false,
    }
}

fn target_of(stream: Stream, arg: &Option<IoArg>) -> (r: Option<OutputTarget>)
    ensures
        match r {
            Some(t) => route(stream, *arg) == Some(target_view(t)),
            None => route(stream, *arg) is None,
        },
{
    match arg {
        None => None,
        Some(IoArg::File(p)) => Some(OutputTarget::File(p.clone())),
        Some(IoArg::Pipe) => Some(
            match stream {
                Stream::StdErr => OutputTarget::StdErr,
                _ => OutputTarget::StdOut,
            },
        ),
    }
}

/// Adds a stream to the plan: to the entry of its target, or to a new one.
fn connect(
    plan: &mut Vec<(OutputTarget, Vec<Stream>)>,
    stream: Stream,
    target: OutputTarget,
    Ghost(conns): Ghost<Seq<(Stream, TargetView)>>,
)
    requires
        plan_of(old(plan)@, conns),
    ensures
        plan_of(final(plan)@, conns.push((stream, target_view(target)))),
{
    let ghost tv = target_view(target);
    let ghost all = conns.push((stream, tv));
    let mut i: usize = 0;
    while i < plan.len()
        invariant
            i <= plan.len(),
            plan == old(plan),
            tv == target_view(target),
            all == conns.push((stream, tv)),
            plan_of(plan@, conns),
            forall|q: int| 0 <= q < i ==> target_view(#[trigger] plan@[q].0) != tv,
        decreases plan.len() - i,
    {
        if same_target(&plan[i].0, &target) {
            let ghost before = plan@;
            let (t, mut streams) = plan.remove(i);
            streams.push(stream);
            plan.insert(i, (t, streams));
            assert forall|c: int| 0 <= c < all.len() implies covered(plan@, #[trigger] all[c]) by {
                if c < conns.len() {
                    assert(all[c] == conns[c]);
                    assert(covered(before, conns[c]));
                    let q = choose|q: int|
                        0 <= q < before.len() && target_view(#[trigger] before[q].0) == conns[c].1
                            && before[q].1@.contains(conns[c].0);
                    if q == i {
                        let w = choose|w: int| 0 <= w < before[q].1@.len() && before[q].1@[w] == conns[c].0;
                        assert(plan@[q].1@[w] == conns[c].0);
                        assert(plan@[q].1@.contains(conns[c].0));
                    } else {
                        assert(plan@[q] == before[q]);
                    }
                    assert(target_view(plan@[q].0) == all[c].1 && plan@[q].1@.contains(all[c].0));
                } else {
                    assert(plan@[i as int].1@[plan@[i as int].1@.len() - 1] == stream);
                    assert(plan@[i as int].1@.contains(stream));
                    assert(target_view(plan@[i as int].0) == all[c].1 && plan@[i as int].1@.contains(all[c].0));
                }
            }
            assert forall|p: int, k: int|
                0 <= p < plan@.len() && 0 <= k < plan@[p].1.len() implies all.contains(
                (plan@[p].1@[k], target_view(plan@[p].0)),
            ) by {
                if p == i && k == plan@[p].1.len() - 1 {
                    assert(all[all.len() - 1] == (stream, tv));
                } else {
                    assert(plan@[p].1@[k] == before[p].1@[k]);
                    assert(conns.contains((before[p].1@[k], target_view(before[p].0))));
                    let w = choose|w: int| 0 <= w < conns.len() && conns[w] == (before[p].1@[k], target_view(before[p].0));
                    assert(all[w] == conns[w]);
                }
            }
            assert forall|p: int, q: int| 0 <= p < q < plan@.len() implies target_view(plan@[p].0) != target_view(plan@[q].0) by {
                assert(plan@[p].0 == before[p].0);
                assert(plan@[q].0 == before[q].0);
            }
            assert forall|p: int| 0 <= p < plan@.len() implies #[trigger] plan@[p].1.len() > 0 by {
                if p != i {
                    assert(plan@[p] == before[p]);
                }
            }
            return;
        }
        i = i + 1;
    }
    let ghost before = plan@;
    let mut streams: Vec<Stream> = Vec::new();
    streams.push(stream);
    plan.push((target, streams));
    assert forall|p: int| 0 <= p < plan@.len() implies #[trigger] plan@[p].1.len() > 0 by {
        if p < before.len() {
            assert(plan@[p] == before[p]);
        }
    }
    assert forall|c: int| 0 <= c < all.len() implies covered(plan@, #[trigger] all[c]) by {
        if c < conns.len() {
            assert(all[c] == conns[c]);
            assert(covered(before, conns[c]));
            let q = choose|q: int|
                0 <= q < before.len() && target_view(#[trigger] before[q].0) == conns[c].1
                    && before[q].1@.contains(conns[c].0);
            assert(plan@[q] == before[q]);
            assert(target_view(plan@[q].0) == all[c].1 && plan@[q].1@.contains(all[c].0));
        } else {
            assert(plan@[before.len() as int].1@[0] == stream);
            assert(plan@[before.len() as int].1@.contains(stream));
            assert(target_view(plan@[before.len() as int].0) == all[c].1 && plan@[before.len() as int].1@.contains(all[c].0));
        }
    }
    assert forall|p: int, k: int|
        0 <= p < plan@.len() && 0 <= k < plan@[p].1.len() implies all.contains(
        (plan@[p].1@[k], target_view(plan@[p].0)),
    ) by {
        if p == before.len() {
            assert(all[all.len() - 1] == (stream, tv));
        } else {
            assert(plan@[p] == before[p]);
            let w = choose|w: int| 0 <= w < conns.len() && conns[w] == (before[p].1@[k], target_view(before[p].0));
            assert(all[w] == conns[w]);
        }
    }
}

/// The outputs to set up: each place once, with the streams that go there.
pub fn output_plan(
    stdout_to: &Option<IoArg>,
    stderr_to: &Option<IoArg>,
    results_to: &Option<IoArg>,
) -> (plan: Vec<(OutputTarget, Vec<Stream>)>)
    ensures
        plan_of(plan@, connections(*stdout_to, *stderr_to, *results_to)),
{
    let mut plan: Vec<(OutputTarget, Vec<Stream>)> = Vec::new();
    let ghost mut conns: Seq<(Stream, TargetView)> = Seq::empty();
    if let Some(t) = target_of(Stream::StdOut, stdout_to) {
        connect(&mut plan, Stream::StdOut, t, Ghost(conns));
        proof {
            conns = conns.push((Stream::StdOut, target_view(t)));
        }
    }
    assert(conns =~= match route(Stream::StdOut, *stdout_to) {
        Some(t) => seq![(Stream::StdOut, t)],
        None => Seq::empty(),
    });
    let ghost c1 = conns;
    if let Some(t) = target_of(Stream::StdErr, stderr_to) {
        connect(&mut plan, Stream::StdErr, t, Ghost(conns));
        proof {
            conns = conns.push((Stream::StdErr, target_view(t)));
        }
    }
    assert(conns =~= c1 + match route(Stream::StdErr, *stderr_to) {
        Some(t) => seq![(Stream::StdErr, t)],
        None => Seq::empty(),
    });
    let ghost c2 = conns;
    if let Some(t) = target_of(Stream::Results, results_to) {
        connect(&mut plan, Stream::Results, t, Ghost(conns));
        proof {
            conns = conns.push((Stream::Results, target_view(t)));
        }
    }
    assert(conns =~= c2 + match route(Stream::Results, *results_to) {
        Some(t) => seq![(Stream::Results, t)],
        None => Seq::empty(),
    });
    plan
}

/// How results are printed on an output: pretty and colored by the
/// switches, `auto` following whether the output is a terminal; as they
/// come where neither applies.
pub fn results_printer(pretty: Tristate, color: Tristate, terminal: bool) -> (r: Option<
    ClojureResultPrinter,
>)
    ensures
        match r {
            Some(p) => p.pretty == pretty.setting(terminal) && p.color == color.setting(
                terminal,
            ) && (p.pretty || p.color),
            None => !pretty.setting(terminal) && !color.setting(terminal),
        },
{
    let p = pretty.to_bool(terminal);
    let c = color.to_bool(terminal);
    if p || c {
        Some(ClojureResultPrinter::new(p, c, 80))
    } else {
        None
    }
}

/// The lexemes of the result can all be printed, their value can be printed
/// pretty where the printer is, and printing them gives `out`.
pub open spec fn prints_as(p: ClojureResultPrinter, clojure: Seq<char>, out: Seq<char>) -> bool {
    exists|ls: Seq<Lexeme>|
        lexemes_are(clojure, ls) && (forall|i: int| 0 <= i < ls.len() ==> printable(#[trigger] ls[i]))
            && (p.pretty ==> (spec_build(ls) matches Ok(v) ==> pretty_printable(v)))
            && #[trigger] printed(p.pretty, p.color, ls) == Ok::<Seq<char>, PrintError>(out)
}

/// One of the lexemes of the result cannot be printed, the pretty printer
/// cannot print their value, or printing fails.
pub open spec fn fails_to_print(p: ClojureResultPrinter, clojure: Seq<char>) -> bool {
    exists|ls: Seq<Lexeme>|
        #[trigger] lexemes_are(clojure, ls) && (!(forall|i: int| 0 <= i < ls.len() ==> printable(
            #[trigger] ls[i],
        )) || (p.pretty && (spec_build(ls) matches Ok(v) && !pretty_printable(v)))
            || printed(p.pretty, p.color, ls) is Err)
}

/// What is written for a result: the result as printed by the printer, or
/// as it came, with a newline.  A result that the printer cannot read or
/// print is an error; so is, pretty, a value that the pretty printer cannot
/// print: one with a string of fewer than two characters or with a
/// character beyond ASCII at an end, as the printer shows a string's
/// content without its first and its last character, or with a map whose
/// rigid keys take more than 32766 bytes.
pub fn format_result(printer: &Option<ClojureResultPrinter>, clojure: &str) -> (r: Result<
    String,
    Error,
>)
    requires
        printer is Some ==> clojure@.len() < max_input(),
    ensures
        printer is None ==> (r matches Ok(s) && s@ == clojure@.push('\n')),
        r matches Err(e) ==> e == Error::FailedToParseResult,
        *printer matches Some(p) ==> match r {
            Ok(s) => accepts(clojure@) && prints_as(p, clojure@, s@),
            Err(_) => !accepts(clojure@) || fails_to_print(p, clojure@),
        },
{
    match printer {
        None => {
            let mut s = crate::text::string_of(crate::text::chars_of(clojure).as_slice());
            s.push('\n');
            Ok(s)
        },
        Some(p) => {
            let lexemes = match lex(clojure) {
                Ok(ls) => ls,
                Err(_) => {
                    return Err(Error::FailedToParseResult);
                },
            };
            if !all_printable(&lexemes) {
                assert(lexemes_are(clojure@, lexemes@));
                return Err(Error::FailedToParseResult);
            }
            if p.pretty {
                if let Ok(v) = build(lexemes.as_slice()) {
                    if !can_print_pretty(&v) {
                        assert(lexemes_are(clojure@, lexemes@));
                        return Err(Error::FailedToParseResult);
                    }
                }
            }
            match p.print(lexemes.as_slice()) {
                Ok(s) => {
                    assert(printed(p.pretty, p.color, lexemes@) == Ok::<Seq<char>, PrintError>(s@));
                    Ok(s)
                },
                Err(_) => {
                    assert(printed(p.pretty, p.color, lexemes@) is Err);
                    Err(Error::FailedToParseResult)
                },
            }
        },
    }
}

fn all_printable(ls: &Vec<Lexeme>) -> (r: bool)
    ensures
        r == forall|i: int| 0 <= i < ls.len() ==> printable(#[trigger] ls@[i]),
{
    let mut k: usize = 0;
    while k < ls.len()
        invariant
            k <= ls.len(),
            forall|i: int| 0 <= i < k ==> printable(#[trigger] ls@[i]),
        decreases ls.len() - k,
    {
        if !crate::pprint::unformatted::is_printable(&ls[k]) {
            return false;
        }
        k = k + 1;
    }
    true
}

} // verus!
