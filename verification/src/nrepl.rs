//! The nREPL protocol as the client speaks it: the requests it sends, the
//! responses it reads, how a response is told apart and how the bytes read
//! from the socket are cut into messages.
//!
//! Opening sockets and moving bytes is the program's part; this module
//! decides what each message means for the session.

use vstd::prelude::*;

use crate::bencode::{
    encode, lemma_scan_finds_encoded_value, lemma_scan_next_length, scan_next, spec_scan_next, Bencode,
    Error as FrameError,
};
use crate::error::Error;
use crate::text::{chars_of, decimal_string, decimal_text, eq_chars, string_of};

verus! {

/// The parts of an evaluation response that the caller sees.
#[derive(Debug)]
pub struct Response<'a> {
    pub value: Option<&'a str>,
    pub ex: Option<&'a str>,
    pub root_ex: Option<&'a str>,
    pub out: Option<&'a str>,
    pub err: Option<&'a str>,
}

/// The operations the client requests.
#[derive(Debug, Clone, Copy, PartialEq, Eq, Structural)]
pub enum Op {
    Clone,
    Close,
    Eval,
}

impl Op {
    /// The name of the operation on the wire.
    pub open spec fn wire_name(self) -> Seq<char> {
        match self {
            Op::Clone => seq!['c', 'l', 'o', 'n', 'e'],
            Op::Close => seq!['c', 'l', 'o', 's', 'e'],
            Op::Eval => seq!['e', 'v', 'a', 'l'],
        }
    }

    pub fn as_str(&self) -> (r: &'static str)
        ensures
            r@ == self.wire_name(),
    {
        match *self {
            Op::Clone => {
                proof {
                    reveal_strlit("clone");
                }
                "clone"
            },
            Op::Close => {
                proof {
                    reveal_strlit("close");
                }
                "close"
            },
            Op::Eval => {
                proof {
                    reveal_strlit("eval");
                }
                "eval"
            },
        }
    }
}

/// A request as it goes on the wire.
#[derive(Debug)]
pub struct WireRequest<'a> {
    pub op: Op,
    pub id: &'a str,
    pub session: Option<&'a str>,
    pub ns: Option<&'a str>,
    pub code: Option<&'a str>,
    pub line: Option<i32>,
    pub column: Option<i32>,
    pub file: Option<&'a str>,
}

/// A response as it comes off the wire.
#[derive(Debug)]
pub struct WireResponse {
    pub session: String,
    pub id: Option<String>,
    pub status: Option<Vec<String>>,
    pub new_session: Option<String>,
    pub value: Option<String>,
    pub ex: Option<String>,
    pub root_ex: Option<String>,
    pub out: Option<String>,
    pub err: Option<String>,
}

/// Whether two texts are equal.
fn same_text(a: &str, b: &str) -> (r: bool)
    ensures
        r == (a@ == b@),
{
    let x = chars_of(a);
    let y = chars_of(b);
    eq_chars(x.as_slice(), y.as_slice())
}

impl WireResponse {
    /// Whether the response answers the request with the id `id`.
    pub open spec fn answers(&self, id: Seq<char>) -> bool {
        self.id matches Some(our) && our@ == id
    }

    /// Whether the response carries the status `label`.
    pub open spec fn carries(&self, label: Seq<char>) -> bool {
        self.status matches Some(labels) && exists|k: int|
            0 <= k < labels.len() && (#[trigger] labels[k])@ == label
    }

    pub fn matches(&self, id: &str) -> (r: bool)
        ensures
            r == self.answers(id@),
    {
        match &self.id {
            Some(our) => same_text(our.as_str(), id),
            None => false,
        }
    }

    #[verifier::loop_isolation(false)]
    pub fn has_status(&self, label: &str) -> (r: bool)
        ensures
            r == self.carries(label@),
    {
        match &self.status {
            Some(labels) => {
                let mut k: usize = 0;
                while k < labels.len()
                    invariant
                        k <= labels.len(),
                        forall|q: int| 0 <= q < k ==> (#[trigger] labels@[q])@ != label@,
                    decreases labels.len() - k,
                {
                    if same_text(labels[k].as_str(), label) {
                        assert(labels[k as int]@ == label@);
                        return true;
                    }
                    k = k + 1;
                }
                false
            },
            None => false,
        }
    }

    /// The parts of the response that the caller of an evaluation sees.
    pub fn response(&self) -> (r: Response<'_>)
        ensures
            views_text(r.value, self.value),
            views_text(r.ex, self.ex),
            views_text(r.root_ex, self.root_ex),
            views_text(r.out, self.out),
            views_text(r.err, self.err),
    {
        Response {
            value: as_opt_str(&self.value),
            ex: as_opt_str(&self.ex),
            root_ex: as_opt_str(&self.root_ex),
            out: as_opt_str(&self.out),
            err: as_opt_str(&self.err),
        }
    }
}

/// Whether `a` views the text of `b`, or both are absent.
pub open spec fn views_text(a: Option<&str>, b: Option<String>) -> bool {
    match (a, b) {
        (Some(x), Some(y)) => x@ == y@,
        (None, None) => true,
        _ => false,
    }
}

fn as_opt_str(o: &Option<String>) -> (r: Option<&str>)
    ensures
        views_text(r, *o),
{
    match o {
        Some(s) => Some(s.as_str()),
        None => None,
    }
}

/// The labels of the statuses the client waits for.
pub open spec fn done_label() -> Seq<char> {
    seq!['d', 'o', 'n', 'e']
}

pub open spec fn session_closed_label() -> Seq<char> {
    seq!['s', 'e', 's', 's', 'i', 'o', 'n', '-', 'c', 'l', 'o', 's', 'e', 'd']
}

/// What to do with a response while an evaluation with the id `id` is
/// under way: whether to hand it to the caller, and whether to read on.
/// Responses to other requests are passed over; the one with the status
/// `done` is the last.
pub fn eval_reply(response: &WireResponse, id: &str) -> (r: (bool, bool))
    ensures
        r.0 == response.answers(id@),
        r.1 == !(response.answers(id@) && response.carries(done_label())),
{
    if !response.matches(id) {
        return (false, true);
    }
    let done = vec!['d', 'o', 'n', 'e'];
    let label = crate::text::string_of(done.as_slice());
    let finished = response.has_status(label.as_str());
    (true, !finished)
}

/// The labels the client waits for are `done` for an evaluation and
/// `session-closed` for closing.
pub proof fn lemma_waited_for_statuses(response: WireResponse)
    ensures
        response.carries(seq!['d', 'o', 'n', 'e']) == response.carries(done_label()),
        response.carries(seq!['s', 'e', 's', 's', 'i', 'o', 'n', '-', 'c', 'l', 'o', 's', 'e', 'd'])
            == response.carries(session_closed_label()),
{
    assert(done_label() =~= seq!['d', 'o', 'n', 'e']);
    assert(session_closed_label() =~= seq![
        's',
        'e',
        's',
        's',
        'i',
        'o',
        'n',
        '-',
        'c',
        'l',
        'o',
        's',
        'e',
        'd',
    ]);
}

/// Whether a response ends the closing of the session: it answers the close
/// request with the id `id` and says the session is closed.
pub fn close_reply(response: &WireResponse, id: &str) -> (r: bool)
    ensures
        r == (response.answers(id@) && response.carries(session_closed_label())),
{
    let closed = vec!['s', 'e', 's', 's', 'i', 'o', 'n', '-', 'c', 'l', 'o', 's', 'e', 'd'];
    let label = crate::text::string_of(closed.as_slice());
    response.matches(id) && response.has_status(label.as_str())
}

/// The session that a response to a `clone` request opened.
pub fn new_session_of(response: &WireResponse) -> (r: Result<String, Error>)
    ensures
        match r {
            Ok(s) => response.new_session matches Some(n) && s@ == n@,
            Err(e) => response.new_session is None && e == Error::UnexptectedResponse,
        },
{
    match &response.new_session {
        Some(n) => Ok(n.clone()),
        None => Err(Error::UnexptectedResponse),
    }
}

/// The id of the `count`th evaluation in a session: the session's id, a
/// colon and the count.
pub fn eval_id(session: &str, count: usize) -> (r: String)
    ensures
        r@ == session@ + seq![':'] + decimal_string(count as nat),
{
    let mut r = string_of(chars_of(session).as_slice());
    r.push(':');
    let n = decimal_text(count as u128);
    r.append(n.as_str());
    r
}

/// The id of the request that closes a session: the session's id and
/// `:close`.
pub fn close_id(session: &str) -> (r: String)
    ensures
        r@ == session@ + seq![':', 'c', 'l', 'o', 's', 'e'],
{
    let mut r = string_of(chars_of(session).as_slice());
    r.push(':');
    r.push('c');
    r.push('l');
    r.push('o');
    r.push('s');
    r.push('e');
    r
}

/// A line or column number as a request carries it: numbers too large for
/// the field become 0.
pub fn wire_position(n: Option<usize>) -> (r: Option<i32>)
    ensures
        match n {
            None => r is None,
            Some(k) => r == Some(if k <= i32::MAX { k as i32 } else { 0i32 }),
        },
{
    match n {
        None => None,
        Some(k) => if k <= 0x7fff_ffffusize {
            Some(k as i32)
        } else {
            Some(0)
        },
    }
}

/// A buffer that holds an encoded message followed by anything gives that
/// message whole, and keeps exactly what follows it.
pub proof fn lemma_take_message_cuts_encoded(v: Bencode, rest: Seq<u8>)
    ensures
        spec_scan_next(encode(v) + rest) matches Ok((_, n)) && (encode(v) + rest).take(n) == encode(v)
            && (encode(v) + rest).skip(n) == rest,
{
    lemma_scan_finds_encoded_value(v, rest);
    let n = encode(v).len() as int;
    assert((encode(v) + rest).take(n) =~= encode(v));
    assert((encode(v) + rest).skip(n) =~= rest);
}

/// Cuts the first complete message off the front of the bytes read so far.
///
/// Gives the message and keeps what follows it; gives nothing and keeps the
/// bytes while the message is incomplete; fails, keeping the bytes, where
/// they are not bencode.
pub fn take_message(buffer: &mut Vec<u8>) -> (r: Result<Option<Vec<u8>>, Error>)
    ensures
        match spec_scan_next(old(buffer)@) {
            Ok((_, n)) => r matches Ok(Some(m)) && m@ == old(buffer)@.take(n) && final(buffer)@
                == old(buffer)@.skip(n),
            Err(FrameError::UnexpectedEnd) => r == Ok::<Option<Vec<u8>>, Error>(None)
                && final(buffer)@ == old(buffer)@,
            Err(FrameError::BadInput) => r == Err::<Option<Vec<u8>>, Error>(
                Error::CorruptedResponse,
            ) && final(buffer)@ == old(buffer)@,
        },
{
    match scan_next(buffer.as_slice()) {
        Ok((_, n)) => {
            proof {
                lemma_scan_next_length(buffer@);
            }
            let mut message: Vec<u8> = Vec::new();
            let mut rest: Vec<u8> = Vec::new();
            let mut k: usize = 0;
            while k < buffer.len()
                invariant
                    0 < n <= buffer.len(),
                    k <= buffer.len(),
                    message@ == buffer@.take(if k < n { k as int } else { n as int }),
                    rest@ == if k < n { Seq::<u8>::empty() } else { buffer@.subrange(n as int, k as int) },
                decreases buffer.len() - k,
            {
                if k < n {
                    message.push(buffer[k]);
                } else {
                    rest.push(buffer[k]);
                }
                k = k + 1;
                assert(message@ == buffer@.take(if k < n { k as int } else { n as int }));
            }
            *buffer = rest;
            Ok(Some(message))
        },
        Err(FrameError::UnexpectedEnd) => Ok(None),
        Err(FrameError::BadInput) => Err(Error::CorruptedResponse),
    }
}

} // verus!
