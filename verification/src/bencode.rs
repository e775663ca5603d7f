//! Finding the extent of the next bencode object in a byte buffer.
//!
//! The scanner does not decode anything; it only tells what kind of object
//! starts the buffer and how many bytes it spans.  This is what a reader of a
//! bencode stream needs in order to cut complete messages out of its receive
//! buffer.

use vstd::prelude::*;

verus! {

/// Why no complete object could be found.
#[derive(Debug, PartialEq, Eq, Structural, Clone, Copy)]
pub enum Error {
    /// The input ended before the next object was complete.
    UnexpectedEnd,
    /// The input is not bencode.
    BadInput,
}

/// The kind of a bencode object.
#[derive(Debug, PartialEq, Eq, Structural, Clone, Copy)]
pub enum ObjType {
    ByteString,
    Dictionary,
    Integer,
    List,
}

pub open spec fn is_digit(b: u8) -> bool {
    48u8 <= b <= 57u8
}

pub open spec fn is_nonzero_digit(b: u8) -> bool {
    49u8 <= b <= 57u8
}

/// The digits of an integer body starting at `q`, up to and including the
/// closing `e`.  Gives the position just past the `e`.
pub open spec fn spec_int_digits(s: Seq<u8>, q: int) -> Result<int, Error>
    decreases s.len() - q,
{
    if q < 0 || q >= s.len() {
        Err(Error::UnexpectedEnd)
    } else if s[q] == 101u8 {
        Ok(q + 1)
    } else if is_digit(s[q]) {
        spec_int_digits(s, q + 1)
    } else {
        Err(Error::BadInput)
    }
}

/// An integer object `i...e` whose `i` is at `p`.  No leading zeros and no
/// negative zero are accepted.
pub open spec fn spec_scan_int(s: Seq<u8>, p: int) -> Result<int, Error> {
    if p + 1 >= s.len() {
        Err(Error::UnexpectedEnd)
    } else {
        let c = s[p + 1];
        if c == 45u8 {
            if p + 2 >= s.len() {
                Err(Error::UnexpectedEnd)
            } else if is_nonzero_digit(s[p + 2]) {
                spec_int_digits(s, p + 3)
            } else {
                Err(Error::BadInput)
            }
        } else if c == 48u8 {
            if p + 2 >= s.len() {
                Err(Error::UnexpectedEnd)
            } else if s[p + 2] == 101u8 {
                Ok(p + 3)
            } else {
                Err(Error::BadInput)
            }
        } else if is_nonzero_digit(c) {
            spec_int_digits(s, p + 2)
        } else {
            Err(Error::BadInput)
        }
    }
}

/// The rest of a byte string's length prefix from `q` on, where `v` is the
/// value of the digits read so far, followed by `:` and `v` bytes of content.
pub open spec fn spec_byte_string(s: Seq<u8>, q: int, v: nat) -> Result<int, Error>
    decreases s.len() - q,
{
    if q < 0 || q >= s.len() {
        Err(Error::UnexpectedEnd)
    } else if is_digit(s[q]) {
        spec_byte_string(s, q + 1, 10 * v + (s[q] - 48u8) as nat)
    } else if s[q] == 58u8 {
        if q + v < s.len() {
            Ok(q + v + 1)
        } else {
            Err(Error::UnexpectedEnd)
        }
    } else {
        Err(Error::BadInput)
    }
}

/// The object starting at position `p` of `s`: its type and the position just
/// past its end.
pub open spec fn spec_scan(s: Seq<u8>, p: int) -> Result<(ObjType, int), Error>
    decreases s.len() - p, 0int,
{
    if p < 0 || p >= s.len() {
        Err(Error::UnexpectedEnd)
    } else {
        let b = s[p];
        if b == 105u8 {
            match spec_scan_int(s, p) {
                Ok(e) => Ok((ObjType::Integer, e)),
                Err(e) => Err(e),
            }
        } else if b == 108u8 {
            match spec_scan_items(s, p + 1, false) {
                Ok(e) => Ok((ObjType::List, e)),
                Err(e) => Err(e),
            }
        } else if b == 100u8 {
            match spec_scan_items(s, p + 1, true) {
                Ok(e) => Ok((ObjType::Dictionary, e)),
                Err(e) => Err(e),
            }
        } else if is_digit(b) {
            match spec_byte_string(s, p + 1, (b - 48u8) as nat) {
                Ok(e) => Ok((ObjType::ByteString, e)),
                Err(e) => Err(e),
            }
        } else {
            Err(Error::BadInput)
        }
    }
}

/// The items of a list (or, with `dict`, the key-value pairs of a dictionary,
/// whose keys are byte strings) from position `p` on, up to and including the
/// closing `e`.  Gives the position just past the `e`.
pub open spec fn spec_scan_items(s: Seq<u8>, p: int, dict: bool) -> Result<int, Error>
    decreases s.len() - p, 1int,
{
    if p < 0 || p >= s.len() {
        Err(Error::UnexpectedEnd)
    } else if s[p] == 101u8 {
        Ok(p + 1)
    } else {
        match spec_scan(s, p) {
            Err(e) => Err(e),
            Ok((t, q)) => if q <= p || q > s.len() {
                Err(Error::BadInput)
            } else if !dict {
                spec_scan_items(s, q, dict)
            } else if t != ObjType::ByteString {
                Err(Error::BadInput)
            } else {
                match spec_scan(s, q) {
                    Err(e) => Err(e),
                    Ok((_, r)) => if r <= q || r > s.len() {
                        Err(Error::BadInput)
                    } else {
                        spec_scan_items(s, r, dict)
                    },
                }
            },
        }
    }
}

proof fn lemma_int_digits_facts(s: Seq<u8>, u: Seq<u8>, q: int)
    requires
        0 <= q,
    ensures
        spec_int_digits(s, q) matches Ok(e) ==> q < e <= s.len(),
        spec_int_digits(s, q) != Err::<int, Error>(Error::UnexpectedEnd) ==> spec_int_digits(
            s + u,
            q,
        ) == spec_int_digits(s, q),
    decreases s.len() - q,
{
    if q < s.len() {
        assert((s + u)[q] == s[q]);
        lemma_int_digits_facts(s, u, q + 1);
    }
}

proof fn lemma_byte_string_facts(s: Seq<u8>, u: Seq<u8>, q: int, v: nat)
    requires
        0 <= q,
    ensures
        spec_byte_string(s, q, v) matches Ok(e) ==> q < e <= s.len(),
        spec_byte_string(s, q, v) != Err::<int, Error>(Error::UnexpectedEnd)
            ==> spec_byte_string(s + u, q, v) == spec_byte_string(s, q, v),
    decreases s.len() - q,
{
    if q < s.len() {
        assert((s + u)[q] == s[q]);
        lemma_byte_string_facts(s, u, q + 1, 10 * v + (s[q] - 48u8) as nat);
    }
}

proof fn lemma_scan_facts(s: Seq<u8>, u: Seq<u8>, p: int)
    requires
        0 <= p,
    ensures
        spec_scan(s, p) matches Ok((_, e)) ==> p < e <= s.len(),
        spec_scan(s, p) != Err::<(ObjType, int), Error>(Error::UnexpectedEnd) ==> spec_scan(
            s + u,
            p,
        ) == spec_scan(s, p),
    decreases s.len() - p, 0int,
{
    if p < s.len() {
        let b = s[p];
        assert((s + u)[p] == b);
        if b == 105u8 {
            if p + 1 < s.len() {
                assert((s + u)[p + 1] == s[p + 1]);
            }
            if p + 2 < s.len() {
                assert((s + u)[p + 2] == s[p + 2]);
            }
            lemma_int_digits_facts(s, u, p + 2);
            lemma_int_digits_facts(s, u, p + 3);
        } else if b == 108u8 {
            lemma_items_facts(s, u, p + 1, false);
        } else if b == 100u8 {
            lemma_items_facts(s, u, p + 1, true);
        } else if is_digit(b) {
            lemma_byte_string_facts(s, u, p + 1, (b - 48u8) as nat);
        }
    }
}

proof fn lemma_items_facts(s: Seq<u8>, u: Seq<u8>, p: int, dict: bool)
    requires
        0 <= p,
    ensures
        spec_scan_items(s, p, dict) matches Ok(e) ==> p < e <= s.len(),
        spec_scan_items(s, p, dict) != Err::<int, Error>(Error::UnexpectedEnd)
            ==> spec_scan_items(s + u, p, dict) == spec_scan_items(s, p, dict),
    decreases s.len() - p, 1int,
{
    if p < s.len() {
        assert((s + u)[p] == s[p]);
        if s[p] != 101u8 {
            lemma_scan_facts(s, u, p);
            if let Ok((t, q)) = spec_scan(s, p) {
                if p < q <= s.len() {
                    if !dict {
                        lemma_items_facts(s, u, q, dict);
                    } else if t == ObjType::ByteString {
                        lemma_scan_facts(s, u, q);
                        if let Ok((_, r)) = spec_scan(s, q) {
                            if q < r <= s.len() {
                                lemma_items_facts(s, u, r, dict);
                            }
                        }
                    }
                }
            }
        }
    }
}

proof fn lemma_int_digits_prefix(s: Seq<u8>, m: int, q: int)
    requires
        0 <= q,
        m <= s.len(),
        spec_int_digits(s, q) matches Ok(e) && e <= m,
    ensures
        spec_int_digits(s.take(m), q) == spec_int_digits(s, q),
    decreases s.len() - q,
{
    lemma_int_digits_facts(s, Seq::empty(), q);
    assert(s.take(m)[q] == s[q]);
    if s[q] != 101u8 {
        lemma_int_digits_prefix(s, m, q + 1);
    }
}

proof fn lemma_byte_string_prefix(s: Seq<u8>, m: int, q: int, v: nat)
    requires
        0 <= q,
        m <= s.len(),
        spec_byte_string(s, q, v) matches Ok(e) && e <= m,
    ensures
        spec_byte_string(s.take(m), q, v) == spec_byte_string(s, q, v),
    decreases s.len() - q,
{
    lemma_byte_string_facts(s, Seq::empty(), q, v);
    assert(s.take(m)[q] == s[q]);
    if is_digit(s[q]) {
        lemma_byte_string_prefix(s, m, q + 1, 10 * v + (s[q] - 48u8) as nat);
    }
}

proof fn lemma_scan_prefix(s: Seq<u8>, m: int, p: int)
    requires
        0 <= p,
        m <= s.len(),
        spec_scan(s, p) matches Ok((_, e)) && e <= m,
    ensures
        spec_scan(s.take(m), p) == spec_scan(s, p),
    decreases s.len() - p, 0int,
{
    lemma_scan_facts(s, Seq::empty(), p);
    let t = s.take(m);
    let b = s[p];
    assert(t[p] == b);
    if b == 105u8 {
        lemma_int_digits_facts(s, Seq::empty(), p + 2);
        lemma_int_digits_facts(s, Seq::empty(), p + 3);
        assert(t[p + 1] == s[p + 1]);
        if p + 2 < m {
            assert(t[p + 2] == s[p + 2]);
        }
        if s[p + 1] == 45u8 {
            lemma_int_digits_prefix(s, m, p + 3);
        } else if s[p + 1] != 48u8 {
            lemma_int_digits_prefix(s, m, p + 2);
        }
    } else if b == 108u8 {
        lemma_items_prefix(s, m, p + 1, false);
    } else if b == 100u8 {
        lemma_items_prefix(s, m, p + 1, true);
    } else {
        lemma_byte_string_prefix(s, m, p + 1, (b - 48u8) as nat);
    }
}

proof fn lemma_items_prefix(s: Seq<u8>, m: int, p: int, dict: bool)
    requires
        0 <= p,
        m <= s.len(),
        spec_scan_items(s, p, dict) matches Ok(e) && e <= m,
    ensures
        spec_scan_items(s.take(m), p, dict) == spec_scan_items(s, p, dict),
    decreases s.len() - p, 1int,
{
    lemma_items_facts(s, Seq::empty(), p, dict);
    let t = s.take(m);
    assert(t[p] == s[p]);
    if s[p] != 101u8 {
        let (ty, q) = spec_scan(s, p)->Ok_0;
        lemma_items_facts(s, Seq::empty(), q, dict);
        if !dict {
            lemma_scan_prefix(s, m, p);
            lemma_items_prefix(s, m, q, dict);
        } else {
            let r = spec_scan(s, q)->Ok_0.1;
            lemma_scan_facts(s, Seq::empty(), q);
            lemma_items_facts(s, Seq::empty(), r, dict);
            lemma_scan_prefix(s, m, p);
            lemma_scan_prefix(s, m, q);
            lemma_items_prefix(s, m, r, dict);
        }
    }
}

/// A found object is found again in its own bytes alone: scanning just the
/// first `n` bytes gives the same type and length.
pub proof fn lemma_scan_next_own_bytes(s: Seq<u8>)
    ensures
        spec_scan_next(s) matches Ok((_, n)) ==> spec_scan_next(s.take(n)) == spec_scan_next(s),
{
    lemma_scan_facts(s, Seq::empty(), 0);
    if let Ok((_, n)) = spec_scan_next(s) {
        lemma_scan_prefix(s, n, 0);
    }
}

/// A found object is never empty and never reaches past the input.
pub proof fn lemma_scan_next_length(s: Seq<u8>)
    ensures
        spec_scan_next(s) matches Ok((_, n)) ==> 0 < n <= s.len(),
{
    lemma_scan_facts(s, Seq::empty(), 0);
}

/// Input after the first object does not change what is found: once the
/// scanner has decided (anything but running out of input), appending bytes
/// gives the same answer.
pub proof fn lemma_scan_next_ignores_trailing_input(s: Seq<u8>, u: Seq<u8>)
    ensures
        spec_scan_next(s) != Err::<(ObjType, int), Error>(Error::UnexpectedEnd)
            ==> spec_scan_next(s + u) == spec_scan_next(s),
{
    lemma_scan_facts(s, u, 0);
}

/// What `scan_next` gives for `s`: the type and byte length of the object at
/// the start of `s`.
pub open spec fn spec_scan_next(s: Seq<u8>) -> Result<(ObjType, int), Error> {
    spec_scan(s, 0)
}

fn scan_int_digits(bytes: &[u8], q: usize) -> (r: Result<usize, Error>)
    ensures
        match r {
            Ok(e) => spec_int_digits(bytes@, q as int) == Ok::<int, Error>(e as int),
            Err(x) => spec_int_digits(bytes@, q as int) == Err::<int, Error>(x),
        },
    decreases bytes.len() - q,
{
    if q >= bytes.len() {
        Err(Error::UnexpectedEnd)
    } else if bytes[q] == 101u8 {
        Ok(q + 1)
    } else if 48u8 <= bytes[q] && bytes[q] <= 57u8 {
        scan_int_digits(bytes, q + 1)
    } else {
        Err(Error::BadInput)
    }
}

fn scan_int(bytes: &[u8], p: usize) -> (r: Result<usize, Error>)
    requires
        p < bytes.len(),
    ensures
        match r {
            Ok(e) => spec_scan_int(bytes@, p as int) == Ok::<int, Error>(e as int),
            Err(x) => spec_scan_int(bytes@, p as int) == Err::<int, Error>(x),
        },
{
    if p + 1 >= bytes.len() {
        return Err(Error::UnexpectedEnd);
    }
    let c = bytes[p + 1];
    if c == 45u8 {
        if p + 2 >= bytes.len() {
            Err(Error::UnexpectedEnd)
        } else if 49u8 <= bytes[p + 2] && bytes[p + 2] <= 57u8 {
            scan_int_digits(bytes, p + 3)
        } else {
            Err(Error::BadInput)
        }
    } else if c == 48u8 {
        if p + 2 >= bytes.len() {
            Err(Error::UnexpectedEnd)
        } else if bytes[p + 2] == 101u8 {
            Ok(p + 3)
        } else {
            Err(Error::BadInput)
        }
    } else if 49u8 <= c && c <= 57u8 {
        scan_int_digits(bytes, p + 2)
    } else {
        Err(Error::BadInput)
    }
}

/// Once the length read so far exceeds the input, the byte string cannot fit
/// whatever digits follow.
proof fn lemma_byte_string_too_long(s: Seq<u8>, q: int, v: nat, w: nat)
    requires
        v > s.len(),
        w > s.len(),
    ensures
        spec_byte_string(s, q, v) == spec_byte_string(s, q, w),
    decreases s.len() - q,
{
    if 0 <= q < s.len() && is_digit(s[q]) {
        lemma_byte_string_too_long(
            s,
            q + 1,
            10 * v + (s[q] - 48u8) as nat,
            10 * w + (s[q] - 48u8) as nat,
        );
    }
}

fn scan_byte_string(bytes: &[u8], p: usize) -> (r: Result<usize, Error>)
    requires
        p < bytes.len(),
        is_digit(bytes@[p as int]),
    ensures
        match r {
            Ok(e) => spec_byte_string(bytes@, p + 1, (bytes@[p as int] - 48u8) as nat)
                == Ok::<int, Error>(e as int),
            Err(x) => spec_byte_string(bytes@, p + 1, (bytes@[p as int] - 48u8) as nat)
                == Err::<int, Error>(x),
        },
{
    let len = bytes.len();
    let mut q = p + 1;
    let mut v: usize = (bytes[p] - 48u8) as usize;
    let mut big = v > len;
    let ghost mut gv: nat = (bytes@[p as int] - 48u8) as nat;
    let ghost target = spec_byte_string(bytes@, p + 1, (bytes@[p as int] - 48u8) as nat);
    while q < len
        invariant
            p < q <= len,
            len == bytes.len(),
            !big ==> v == gv && v <= len,
            big ==> gv > len,
            spec_byte_string(bytes@, q as int, gv) == target,
            target == spec_byte_string(bytes@, p + 1, (bytes@[p as int] - 48u8) as nat),
        decreases len - q,
    {
        let b = bytes[q];
        proof {
            reveal_with_fuel(spec_byte_string, 1);
        }
        assert(b == bytes@[q as int]);
        if 48u8 <= b && b <= 57u8 {
            let d = (b - 48u8) as usize;
            proof {
                let nv = 10 * gv + d as nat;
                assert(spec_byte_string(bytes@, q as int, gv) == spec_byte_string(
                    bytes@,
                    q + 1,
                    nv,
                ));
            }
            if !big {
                if v > len / 10 {
                    big = true;
                } else {
                    let t = 10 * v;
                    if len < d || t > len - d {
                        big = true;
                    } else {
                        v = t + d;
                    }
                }
            }
            proof {
                gv = 10 * gv + d as nat;
            }
            q = q + 1;
        } else if b == 58u8 {
            if big {
                return Err(Error::UnexpectedEnd);
            }
            if v < len - q {
                return Ok(q + v + 1);
            } else {
                return Err(Error::UnexpectedEnd);
            }
        } else {
            return Err(Error::BadInput);
        }
    }
    Err(Error::UnexpectedEnd)
}

fn scan_at(bytes: &[u8], p: usize) -> (r: Result<(ObjType, usize), Error>)
    ensures
        match r {
            Ok((t, e)) => spec_scan(bytes@, p as int) == Ok::<(ObjType, int), Error>(
                (t, e as int),
            ),
            Err(x) => spec_scan(bytes@, p as int) == Err::<(ObjType, int), Error>(x),
        },
    decreases bytes.len() - p, 0int,
{
    if p >= bytes.len() {
        return Err(Error::UnexpectedEnd);
    }
    let b = bytes[p];
    if b == 105u8 {
        match scan_int(bytes, p) {
            Ok(e) => Ok((ObjType::Integer, e)),
            Err(e) => Err(e),
        }
    } else if b == 108u8 {
        match scan_items(bytes, p + 1, false) {
            Ok(e) => Ok((ObjType::List, e)),
            Err(e) => Err(e),
        }
    } else if b == 100u8 {
        match scan_items(bytes, p + 1, true) {
            Ok(e) => Ok((ObjType::Dictionary, e)),
            Err(e) => Err(e),
        }
    } else if 48u8 <= b && b <= 57u8 {
        match scan_byte_string(bytes, p) {
            Ok(e) => Ok((ObjType::ByteString, e)),
            Err(e) => Err(e),
        }
    } else {
        Err(Error::BadInput)
    }
}

fn scan_items(bytes: &[u8], p: usize, dict: bool) -> (r: Result<usize, Error>)
    ensures
        match r {
            Ok(e) => spec_scan_items(bytes@, p as int, dict) == Ok::<int, Error>(e as int),
            Err(x) => spec_scan_items(bytes@, p as int, dict) == Err::<int, Error>(x),
        },
    decreases bytes.len() - p, 1int,
{
    if p >= bytes.len() {
        return Err(Error::UnexpectedEnd);
    }
    if bytes[p] == 101u8 {
        return Ok(p + 1);
    }
    match scan_at(bytes, p) {
        Err(e) => Err(e),
        Ok((t, q)) => {
            if q <= p || q > bytes.len() {
                Err(Error::BadInput)
            } else if !dict {
                scan_items(bytes, q, dict)
            } else {
                match t {
                    ObjType::ByteString => match scan_at(bytes, q) {
                        Err(e) => Err(e),
                        Ok((_, r)) => {
                            if r <= q || r > bytes.len() {
                                Err(Error::BadInput)
                            } else {
                                scan_items(bytes, r, dict)
                            }
                        },
                    },
                    _ => Err(Error::BadInput),
                }
            }
        },
    }
}

/// Finds the type and the byte length of the bencode object at the start of
/// `bytes`.  Input after the object is ignored.
pub fn scan_next(bytes: &[u8]) -> (r: Result<(ObjType, usize), Error>)
    ensures
        match r {
            Ok((t, n)) => spec_scan_next(bytes@) == Ok::<(ObjType, int), Error>((t, n as int)),
            Err(x) => spec_scan_next(bytes@) == Err::<(ObjType, int), Error>(x),
        },
{
    scan_at(bytes, 0)
}

/// A bencode value: an integer, a byte string, a list of values, or a
/// dictionary from byte strings to values.
pub enum Bencode {
    Int(int),
    Bytes(Seq<u8>),
    List(Seq<Bencode>),
    Dict(Seq<(Seq<u8>, Bencode)>),
}

/// The kind of object a value is encoded as.
pub open spec fn obj_type(v: Bencode) -> ObjType {
    match v {
        Bencode::Int(_) => ObjType::Integer,
        Bencode::Bytes(_) => ObjType::ByteString,
        Bencode::List(_) => ObjType::List,
        Bencode::Dict(_) => ObjType::Dictionary,
    }
}

/// The decimal digits of `n` in ASCII, without leading zeros.
pub open spec fn decimal(n: nat) -> Seq<u8>
    decreases n,
{
    if n < 10 {
        seq![(48 + n) as u8]
    } else {
        decimal(n / 10).push((48 + n % 10) as u8)
    }
}

/// A byte string: its length in decimal, `:` and its bytes.
pub open spec fn encode_bytes(b: Seq<u8>) -> Seq<u8> {
    decimal(b.len()) + seq![58u8] + b
}

/// The bencode encoding of a value: `i<n>e`, `<len>:<bytes>`,
/// `l<items>e` or `d<key><value>...e`.
pub open spec fn encode(v: Bencode) -> Seq<u8>
    decreases v,
{
    match v {
        Bencode::Int(n) => if n >= 0 {
            seq![105u8] + decimal(n as nat) + seq![101u8]
        } else {
            seq![105u8, 45u8] + decimal((-n) as nat) + seq![101u8]
        },
        Bencode::Bytes(b) => encode_bytes(b),
        Bencode::List(vs) => seq![108u8] + encode_all(vs) + seq![101u8],
        Bencode::Dict(es) => seq![100u8] + encode_entries(es) + seq![101u8],
    }
}

pub open spec fn encode_all(vs: Seq<Bencode>) -> Seq<u8>
    decreases vs,
{
    if vs.len() == 0 {
        Seq::empty()
    } else {
        encode(vs[0]) + encode_all(vs.drop_first())
    }
}

pub open spec fn encode_entries(es: Seq<(Seq<u8>, Bencode)>) -> Seq<u8>
    decreases es,
{
    if es.len() == 0 {
        Seq::empty()
    } else {
        encode_bytes(es[0].0) + encode(es[0].1) + encode_entries(es.drop_first())
    }
}

spec fn all_digits(ds: Seq<u8>) -> bool {
    forall|i: int| 0 <= i < ds.len() ==> is_digit(#[trigger] ds[i])
}

/// The value of the digits `ds` read after a value `v` already read.
spec fn digits_value(v: nat, ds: Seq<u8>) -> nat
    decreases ds.len(),
{
    if ds.len() == 0 {
        v
    } else {
        digits_value(10 * v + (ds[0] - 48u8) as nat, ds.drop_first())
    }
}

proof fn lemma_digits_value_push(v: nat, ds: Seq<u8>, d: u8)
    requires
        is_digit(d),
    ensures
        digits_value(v, ds.push(d)) == 10 * digits_value(v, ds) + (d - 48u8) as nat,
    decreases ds.len(),
{
    if ds.len() > 0 {
        assert(ds.push(d).drop_first() =~= ds.drop_first().push(d));
        assert(ds.push(d)[0] == ds[0]);
        let w = 10 * v + (ds[0] - 48u8) as nat;
        lemma_digits_value_push(w, ds.drop_first(), d);
        assert(digits_value(v, ds) == digits_value(w, ds.drop_first()));
        assert(digits_value(v, ds.push(d)) == digits_value(w, ds.drop_first().push(d)));
    } else {
        assert(ds.push(d).drop_first() =~= Seq::<u8>::empty());
        assert(ds.push(d)[0] == d);
        let w = 10 * v + (d - 48u8) as nat;
        assert(digits_value(w, Seq::<u8>::empty()) == w);
        assert(digits_value(v, ds.push(d)) == digits_value(w, ds.push(d).drop_first()));
    }
}

proof fn lemma_decimal(n: nat)
    ensures
        decimal(n).len() >= 1,
        all_digits(decimal(n)),
        n == 0 ==> decimal(n) == seq![48u8],
        n > 0 ==> is_nonzero_digit(decimal(n)[0]),
        digits_value(0, decimal(n)) == n,
    decreases n,
{
    if n < 10 {
        let d = (48 + n) as u8;
        assert(d == 48 + n);
        assert(decimal(n) == seq![d]);
        assert(seq![d].drop_first() =~= Seq::<u8>::empty());
        assert(seq![d][0] == d);
        assert(digits_value(0, seq![d]) == digits_value((d - 48u8) as nat, seq![d].drop_first()));
    } else {
        let m = n / 10;
        let d = (48 + n % 10) as u8;
        assert(d == 48 + n % 10);
        lemma_decimal(m);
        lemma_digits_value_push(0, decimal(m), d);
        assert(n == 10 * m + n % 10);
        assert(decimal(n)[0] == decimal(m)[0]);
        assert forall|i: int| 0 <= i < decimal(n).len() implies is_digit(#[trigger] decimal(n)[i]) by {
            if i < decimal(m).len() {
                assert(decimal(n)[i] == decimal(m)[i]);
            }
        }
    }
}

/// `x` lies in `s` at `p`.
spec fn lies_at(s: Seq<u8>, p: int, x: Seq<u8>) -> bool {
    0 <= p && p + x.len() <= s.len() && s.subrange(p, p + x.len()) == x
}

proof fn lemma_lies_at_split(s: Seq<u8>, p: int, a: Seq<u8>, b: Seq<u8>)
    requires
        lies_at(s, p, a + b),
    ensures
        lies_at(s, p, a),
        lies_at(s, p + a.len(), b),
{
    assert(s.subrange(p, p + a.len()) =~= (a + b).subrange(0, a.len() as int));
    assert((a + b).subrange(0, a.len() as int) =~= a);
    assert(s.subrange(p + a.len(), p + a.len() + b.len()) =~= (a + b).subrange(
        a.len() as int,
        (a + b).len() as int,
    ));
    assert((a + b).subrange(a.len() as int, (a + b).len() as int) =~= b);
}

proof fn lemma_lies_at_index(s: Seq<u8>, p: int, x: Seq<u8>, i: int)
    requires
        lies_at(s, p, x),
        0 <= i < x.len(),
    ensures
        s[p + i] == x[i],
{
    assert(s.subrange(p, p + x.len())[i] == s[p + i]);
}

proof fn lemma_int_digits_read(s: Seq<u8>, q: int, ds: Seq<u8>)
    requires
        all_digits(ds),
        lies_at(s, q, ds + seq![101u8]),
    ensures
        spec_int_digits(s, q) == Ok::<int, Error>(q + ds.len() + 1),
    decreases ds.len(),
{
    if ds.len() == 0 {
        lemma_lies_at_index(s, q, ds + seq![101u8], 0);
    } else {
        lemma_lies_at_index(s, q, ds + seq![101u8], 0);
        assert(is_digit(ds[0]));
        assert(ds + seq![101u8] =~= seq![ds[0]] + (ds.drop_first() + seq![101u8]));
        lemma_lies_at_split(s, q, seq![ds[0]], ds.drop_first() + seq![101u8]);
        assert forall|i: int| 0 <= i < ds.drop_first().len() implies is_digit(
            #[trigger] ds.drop_first()[i],
        ) by {
            assert(ds.drop_first()[i] == ds[i + 1]);
        }
        lemma_int_digits_read(s, q + 1, ds.drop_first());
    }
}

proof fn lemma_byte_string_read(s: Seq<u8>, q: int, v: nat, ds: Seq<u8>)
    requires
        all_digits(ds),
        lies_at(s, q, ds + seq![58u8]),
        q + ds.len() + digits_value(v, ds) < s.len(),
    ensures
        spec_byte_string(s, q, v) == Ok::<int, Error>(q + ds.len() + digits_value(v, ds) + 1),
    decreases ds.len(),
{
    lemma_lies_at_index(s, q, ds + seq![58u8], 0);
    if ds.len() > 0 {
        assert(is_digit(ds[0]));
        assert(ds + seq![58u8] =~= seq![ds[0]] + (ds.drop_first() + seq![58u8]));
        lemma_lies_at_split(s, q, seq![ds[0]], ds.drop_first() + seq![58u8]);
        assert forall|i: int| 0 <= i < ds.drop_first().len() implies is_digit(
            #[trigger] ds.drop_first()[i],
        ) by {
            assert(ds.drop_first()[i] == ds[i + 1]);
        }
        lemma_byte_string_read(s, q + 1, 10 * v + (ds[0] - 48u8) as nat, ds.drop_first());
    }
}

proof fn lemma_scan_bytes(b: Seq<u8>, s: Seq<u8>, p: int)
    requires
        lies_at(s, p, encode_bytes(b)),
    ensures
        spec_scan(s, p) == Ok::<(ObjType, int), Error>(
            (ObjType::ByteString, p + encode_bytes(b).len()),
        ),
{
    let d = decimal(b.len());
    lemma_decimal(b.len());
    let rest = d.drop_first();
    assert(encode_bytes(b) =~= seq![d[0]] + (rest + seq![58u8]) + b);
    lemma_lies_at_split(s, p, seq![d[0]] + (rest + seq![58u8]), b);
    lemma_lies_at_split(s, p, seq![d[0]], rest + seq![58u8]);
    lemma_lies_at_index(s, p, seq![d[0]], 0);
    assert(is_digit(d[0]));
    assert forall|i: int| 0 <= i < rest.len() implies is_digit(#[trigger] rest[i]) by {
        assert(rest[i] == d[i + 1]);
    }
    assert(digits_value(0, d) == digits_value((d[0] - 48u8) as nat, rest));
    lemma_byte_string_read(s, p + 1, (d[0] - 48u8) as nat, rest);
}

proof fn lemma_first_byte(v: Bencode)
    ensures
        encode(v).len() >= 1,
        encode(v)[0] != 101u8,
{
    match v {
        Bencode::Bytes(b) => {
            lemma_decimal(b.len());
            assert(encode(v)[0] == decimal(b.len())[0]);
        },
        _ => {},
    }
}

proof fn lemma_scan_encoded(v: Bencode, s: Seq<u8>, p: int)
    requires
        lies_at(s, p, encode(v)),
    ensures
        spec_scan(s, p) == Ok::<(ObjType, int), Error>((obj_type(v), p + encode(v).len())),
    decreases v,
{
    let e = encode(v);
    match v {
        Bencode::Int(n) => {
            lemma_lies_at_index(s, p, e, 0);
            if n >= 0 {
                let d = decimal(n as nat);
                lemma_decimal(n as nat);
                lemma_lies_at_index(s, p, e, 1);
                assert(e[1] == d[0]);
                if n == 0 {
                    lemma_lies_at_index(s, p, e, 2);
                } else {
                    assert(e =~= seq![105u8, d[0]] + (d.drop_first() + seq![101u8]));
                    lemma_lies_at_split(s, p, seq![105u8, d[0]], d.drop_first() + seq![101u8]);
                    assert forall|i: int| 0 <= i < d.drop_first().len() implies is_digit(
                        #[trigger] d.drop_first()[i],
                    ) by {
                        assert(d.drop_first()[i] == d[i + 1]);
                    }
                    lemma_int_digits_read(s, p + 2, d.drop_first());
                }
            } else {
                let d = decimal((-n) as nat);
                lemma_decimal((-n) as nat);
                lemma_lies_at_index(s, p, e, 1);
                lemma_lies_at_index(s, p, e, 2);
                assert(e[2] == d[0]);
                assert(e =~= seq![105u8, 45u8, d[0]] + (d.drop_first() + seq![101u8]));
                lemma_lies_at_split(s, p, seq![105u8, 45u8, d[0]], d.drop_first() + seq![101u8]);
                assert forall|i: int| 0 <= i < d.drop_first().len() implies is_digit(
                    #[trigger] d.drop_first()[i],
                ) by {
                    assert(d.drop_first()[i] == d[i + 1]);
                }
                lemma_int_digits_read(s, p + 3, d.drop_first());
            }
        },
        Bencode::Bytes(b) => {
            lemma_scan_bytes(b, s, p);
        },
        Bencode::List(vs) => {
            lemma_lies_at_index(s, p, e, 0);
            assert(e =~= seq![108u8] + (encode_all(vs) + seq![101u8]));
            lemma_lies_at_split(s, p, seq![108u8], encode_all(vs) + seq![101u8]);
            lemma_scan_all(vs, s, p + 1);
        },
        Bencode::Dict(es) => {
            lemma_lies_at_index(s, p, e, 0);
            assert(e =~= seq![100u8] + (encode_entries(es) + seq![101u8]));
            lemma_lies_at_split(s, p, seq![100u8], encode_entries(es) + seq![101u8]);
            lemma_scan_entries(es, s, p + 1);
        },
    }
}

proof fn lemma_scan_all(vs: Seq<Bencode>, s: Seq<u8>, p: int)
    requires
        lies_at(s, p, encode_all(vs) + seq![101u8]),
    ensures
        spec_scan_items(s, p, false) == Ok::<int, Error>(p + encode_all(vs).len() + 1),
    decreases vs,
{
    let x = encode_all(vs) + seq![101u8];
    lemma_lies_at_index(s, p, x, 0);
    if vs.len() > 0 {
        let e0 = encode(vs[0]);
        lemma_first_byte(vs[0]);
        assert(x =~= e0 + (encode_all(vs.drop_first()) + seq![101u8]));
        lemma_lies_at_split(s, p, e0, encode_all(vs.drop_first()) + seq![101u8]);
        assert(x[0] == e0[0]);
        lemma_scan_encoded(vs[0], s, p);
        lemma_scan_all(vs.drop_first(), s, p + e0.len());
    }
}

proof fn lemma_scan_entries(es: Seq<(Seq<u8>, Bencode)>, s: Seq<u8>, p: int)
    requires
        lies_at(s, p, encode_entries(es) + seq![101u8]),
    ensures
        spec_scan_items(s, p, true) == Ok::<int, Error>(p + encode_entries(es).len() + 1),
    decreases es,
{
    let x = encode_entries(es) + seq![101u8];
    lemma_lies_at_index(s, p, x, 0);
    if es.len() > 0 {
        let k = encode_bytes(es[0].0);
        let e1 = encode(es[0].1);
        let rest = encode_entries(es.drop_first()) + seq![101u8];
        lemma_first_byte(Bencode::Bytes(es[0].0));
        assert(encode(Bencode::Bytes(es[0].0)) == k);
        assert(x =~= k + (e1 + rest));
        lemma_lies_at_split(s, p, k, e1 + rest);
        lemma_lies_at_split(s, p + k.len(), e1, rest);
        assert(x[0] == k[0]);
        lemma_scan_bytes(es[0].0, s, p);
        lemma_scan_encoded(es[0].1, s, p + k.len());
        lemma_scan_entries(es.drop_first(), s, p + k.len() + e1.len());
    }
}

/// Scanning finds every encoded bencode value whole: at the start of any
/// input, the encoding of a value is found as an object of the value's kind
/// spanning exactly its encoding, whatever follows it.  This holds for
/// dictionaries whose values are lists or dictionaries as for any other.
pub proof fn lemma_scan_finds_encoded_value(v: Bencode, u: Seq<u8>)
    ensures
        spec_scan_next(encode(v) + u) == Ok::<(ObjType, int), Error>(
            (obj_type(v), encode(v).len() as int),
        ),
{
    let s = encode(v) + u;
    assert(s.subrange(0, encode(v).len() as int) =~= encode(v));
    lemma_scan_encoded(v, s, 0);
}

/// `s` from `p` on is a proper prefix of `x`: the input ends inside `x`.
spec fn ends_inside(s: Seq<u8>, p: int, x: Seq<u8>) -> bool {
    0 <= p <= s.len() && s.len() - p < x.len() && s.subrange(p, s.len() as int) == x.take(
        s.len() - p,
    )
}

proof fn lemma_ends_inside_index(s: Seq<u8>, p: int, x: Seq<u8>, i: int)
    requires
        ends_inside(s, p, x),
        0 <= i,
        p + i < s.len(),
    ensures
        s[p + i] == x[i],
{
    assert(s.subrange(p, s.len() as int)[i] == s[p + i]);
    assert(x.take(s.len() - p)[i] == x[i]);
}

proof fn lemma_ends_inside_split(s: Seq<u8>, p: int, a: Seq<u8>, b: Seq<u8>)
    requires
        ends_inside(s, p, a + b),
    ensures
        s.len() - p < a.len() ==> ends_inside(s, p, a),
        s.len() - p >= a.len() ==> lies_at(s, p, a) && ends_inside(s, p + a.len(), b),
{
    let x = a + b;
    let m = s.len() - p;
    if m < a.len() {
        assert(x.take(m) =~= a.take(m));
    } else {
        assert(s.subrange(p, p + a.len()) =~= s.subrange(p, s.len() as int).subrange(0, a.len() as int));
        assert(x.take(m).subrange(0, a.len() as int) =~= a);
        assert(s.subrange(p + a.len(), s.len() as int) =~= s.subrange(p, s.len() as int).subrange(
            a.len() as int,
            m,
        ));
        assert(x.take(m).subrange(a.len() as int, m) =~= b.take(m - a.len()));
    }
}

proof fn lemma_int_digits_cut(s: Seq<u8>, q: int, ds: Seq<u8>)
    requires
        all_digits(ds),
        ends_inside(s, q, ds + seq![101u8]),
    ensures
        spec_int_digits(s, q) == Err::<int, Error>(Error::UnexpectedEnd),
    decreases ds.len(),
{
    if q < s.len() {
        lemma_ends_inside_index(s, q, ds + seq![101u8], 0);
        if ds.len() == 0 {
            assert(false);
        } else {
            assert(is_digit(ds[0]));
            assert(ds + seq![101u8] =~= seq![ds[0]] + (ds.drop_first() + seq![101u8]));
            lemma_ends_inside_split(s, q, seq![ds[0]], ds.drop_first() + seq![101u8]);
            assert forall|i: int| 0 <= i < ds.drop_first().len() implies is_digit(
                #[trigger] ds.drop_first()[i],
            ) by {
                assert(ds.drop_first()[i] == ds[i + 1]);
            }
            lemma_int_digits_cut(s, q + 1, ds.drop_first());
        }
    }
}

proof fn lemma_byte_string_cut(s: Seq<u8>, q: int, v: nat, ds: Seq<u8>, b: Seq<u8>)
    requires
        all_digits(ds),
        digits_value(v, ds) == b.len(),
        ends_inside(s, q, ds + seq![58u8] + b),
    ensures
        spec_byte_string(s, q, v) == Err::<int, Error>(Error::UnexpectedEnd),
    decreases ds.len(),
{
    if q < s.len() {
        lemma_ends_inside_index(s, q, ds + seq![58u8] + b, 0);
        if ds.len() == 0 {
            assert(digits_value(v, ds) == v);
        } else {
            assert(is_digit(ds[0]));
            assert(ds + seq![58u8] + b =~= seq![ds[0]] + (ds.drop_first() + seq![58u8] + b));
            lemma_ends_inside_split(s, q, seq![ds[0]], ds.drop_first() + seq![58u8] + b);
            assert forall|i: int| 0 <= i < ds.drop_first().len() implies is_digit(
                #[trigger] ds.drop_first()[i],
            ) by {
                assert(ds.drop_first()[i] == ds[i + 1]);
            }
            lemma_byte_string_cut(s, q + 1, 10 * v + (ds[0] - 48u8) as nat, ds.drop_first(), b);
        }
    }
}

proof fn lemma_scan_bytes_cut(b: Seq<u8>, s: Seq<u8>, p: int)
    requires
        ends_inside(s, p, encode_bytes(b)),
    ensures
        spec_scan(s, p) == Err::<(ObjType, int), Error>(Error::UnexpectedEnd),
{
    if p < s.len() {
        let d = decimal(b.len());
        lemma_decimal(b.len());
        let rest = d.drop_first();
        assert(encode_bytes(b) =~= seq![d[0]] + (rest + seq![58u8] + b));
        lemma_ends_inside_split(s, p, seq![d[0]], rest + seq![58u8] + b);
        lemma_ends_inside_index(s, p, encode_bytes(b), 0);
        assert(is_digit(d[0]));
        assert forall|i: int| 0 <= i < rest.len() implies is_digit(#[trigger] rest[i]) by {
            assert(rest[i] == d[i + 1]);
        }
        assert(digits_value(0, d) == digits_value((d[0] - 48u8) as nat, rest));
        lemma_byte_string_cut(s, p + 1, (d[0] - 48u8) as nat, rest, b);
    }
}

proof fn lemma_scan_cut(v: Bencode, s: Seq<u8>, p: int)
    requires
        ends_inside(s, p, encode(v)),
    ensures
        spec_scan(s, p) == Err::<(ObjType, int), Error>(Error::UnexpectedEnd),
    decreases v,
{
    let e = encode(v);
    if p < s.len() {
        lemma_ends_inside_index(s, p, e, 0);
        match v {
            Bencode::Int(n) => {
                if p + 1 < s.len() {
                    lemma_ends_inside_index(s, p, e, 1);
                    if n >= 0 {
                        let d = decimal(n as nat);
                        lemma_decimal(n as nat);
                        assert(e[1] == d[0]);
                        if n != 0 {
                            assert(e =~= seq![105u8, d[0]] + (d.drop_first() + seq![101u8]));
                            lemma_ends_inside_split(s, p, seq![105u8, d[0]], d.drop_first() + seq![101u8]);
                            assert forall|i: int| 0 <= i < d.drop_first().len() implies is_digit(
                                #[trigger] d.drop_first()[i],
                            ) by {
                                assert(d.drop_first()[i] == d[i + 1]);
                            }
                            lemma_int_digits_cut(s, p + 2, d.drop_first());
                        }
                    } else {
                        let d = decimal((-n) as nat);
                        lemma_decimal((-n) as nat);
                        if p + 2 < s.len() {
                            lemma_ends_inside_index(s, p, e, 2);
                            assert(e[2] == d[0]);
                            assert(e =~= seq![105u8, 45u8, d[0]] + (d.drop_first() + seq![101u8]));
                            lemma_ends_inside_split(
                                s,
                                p,
                                seq![105u8, 45u8, d[0]],
                                d.drop_first() + seq![101u8],
                            );
                            assert forall|i: int| 0 <= i < d.drop_first().len() implies is_digit(
                                #[trigger] d.drop_first()[i],
                            ) by {
                                assert(d.drop_first()[i] == d[i + 1]);
                            }
                            lemma_int_digits_cut(s, p + 3, d.drop_first());
                        }
                    }
                }
            },
            Bencode::Bytes(b) => {
                lemma_scan_bytes_cut(b, s, p);
            },
            Bencode::List(vs) => {
                assert(e =~= seq![108u8] + (encode_all(vs) + seq![101u8]));
                lemma_ends_inside_split(s, p, seq![108u8], encode_all(vs) + seq![101u8]);
                lemma_scan_all_cut(vs, s, p + 1);
            },
            Bencode::Dict(es) => {
                assert(e =~= seq![100u8] + (encode_entries(es) + seq![101u8]));
                lemma_ends_inside_split(s, p, seq![100u8], encode_entries(es) + seq![101u8]);
                lemma_scan_entries_cut(es, s, p + 1);
            },
        }
    }
}

proof fn lemma_scan_all_cut(vs: Seq<Bencode>, s: Seq<u8>, p: int)
    requires
        ends_inside(s, p, encode_all(vs) + seq![101u8]),
    ensures
        spec_scan_items(s, p, false) == Err::<int, Error>(Error::UnexpectedEnd),
    decreases vs,
{
    let x = encode_all(vs) + seq![101u8];
    if p < s.len() {
        lemma_ends_inside_index(s, p, x, 0);
        if vs.len() == 0 {
            assert(false);
        } else {
            let e0 = encode(vs[0]);
            lemma_first_byte(vs[0]);
            assert(x =~= e0 + (encode_all(vs.drop_first()) + seq![101u8]));
            lemma_ends_inside_split(s, p, e0, encode_all(vs.drop_first()) + seq![101u8]);
            assert(x[0] == e0[0]);
            if s.len() - p < e0.len() {
                lemma_scan_cut(vs[0], s, p);
            } else {
                lemma_scan_encoded(vs[0], s, p);
                lemma_scan_all_cut(vs.drop_first(), s, p + e0.len());
            }
        }
    }
}

proof fn lemma_scan_entries_cut(es: Seq<(Seq<u8>, Bencode)>, s: Seq<u8>, p: int)
    requires
        ends_inside(s, p, encode_entries(es) + seq![101u8]),
    ensures
        spec_scan_items(s, p, true) == Err::<int, Error>(Error::UnexpectedEnd),
    decreases es,
{
    let x = encode_entries(es) + seq![101u8];
    if p < s.len() {
        lemma_ends_inside_index(s, p, x, 0);
        if es.len() == 0 {
            assert(false);
        } else {
            let k = encode_bytes(es[0].0);
            let e1 = encode(es[0].1);
            let rest = encode_entries(es.drop_first()) + seq![101u8];
            lemma_first_byte(Bencode::Bytes(es[0].0));
            assert(encode(Bencode::Bytes(es[0].0)) == k);
            assert(x =~= k + (e1 + rest));
            lemma_ends_inside_split(s, p, k, e1 + rest);
            assert(x[0] == k[0]);
            if s.len() - p < k.len() {
                lemma_scan_bytes_cut(es[0].0, s, p);
            } else {
                lemma_scan_bytes(es[0].0, s, p);
                lemma_ends_inside_split(s, p + k.len(), e1, rest);
                if s.len() - (p + k.len()) < e1.len() {
                    lemma_scan_cut(es[0].1, s, p + k.len());
                } else {
                    lemma_scan_encoded(es[0].1, s, p + k.len());
                    lemma_scan_entries_cut(es.drop_first(), s, p + k.len() + e1.len());
                }
            }
        }
    }
}

/// Scanning waits for a value to arrive whole: every proper prefix of the
/// encoding of a value (the bytes read so far, when the rest is still on
/// its way) is reported as ending too early, never as bad input.
pub proof fn lemma_scan_waits_for_whole_value(v: Bencode, k: int)
    requires
        0 <= k < encode(v).len(),
    ensures
        spec_scan_next(encode(v).take(k)) == Err::<(ObjType, int), Error>(Error::UnexpectedEnd),
{
    let s = encode(v).take(k);
    assert(s.subrange(0, s.len() as int) =~= encode(v).take(k));
    lemma_scan_cut(v, s, 0);
}

} // verus!
