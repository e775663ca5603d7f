//! Port sets: `1`, `1,2`, `8000-8010`, `3-1` and lists of those, expanded in
//! the order given, each port once.

use vstd::prelude::*;

use crate::conn_expr::PortSet;
use crate::text::{all_digits, chars_of, decimal_value, parse_u16, split_char, split_on, views};

verus! {

/// The port that `t` writes: one or more decimal digits with a value that
/// fits in 16 bits.
pub open spec fn port_of(t: Seq<char>) -> Option<u16> {
    if t.len() > 0 && all_digits(t) && decimal_value(t) <= 0xFFFF {
        Some(decimal_value(t) as u16)
    } else {
        None
    }
}

/// The ports from `a` to `b`, both included, counting down where `b` is
/// below `a`.
pub open spec fn span(a: u16, b: u16) -> Seq<u16> {
    if a <= b {
        Seq::new((b - a + 1) as nat, |k: int| (a + k) as u16)
    } else {
        Seq::new((a - b + 1) as nat, |k: int| (a - k) as u16)
    }
}

/// The ports of one item of a port set: a port, or a range `a-b`.
pub open spec fn item_ports(t: Seq<char>) -> Option<Seq<u16>> {
    let parts = split_char(t, '-');
    if parts.len() == 1 {
        match port_of(t) {
            Some(p) => Some(seq![p]),
            None => None,
        }
    } else if parts.len() == 2 {
        match (port_of(parts[0]), port_of(parts[1])) {
            (Some(a), Some(b)) => Some(span(a, b)),
            _ => None,
        }
    } else {
        None
    }
}

/// A range runs from its first port to its last, one port at a time: up
/// where the last is not below the first, down otherwise.
pub proof fn lemma_span_runs(a: u16, b: u16)
    ensures
        span(a, b).len() == (if a <= b { b - a + 1 } else { a - b + 1 }),
        span(a, b)[0] == a,
        span(a, b)[span(a, b).len() - 1] == b,
        forall|k: int|
            0 <= k < span(a, b).len() - 1 ==> #[trigger] span(a, b)[k + 1] == (if a <= b {
                span(a, b)[k] + 1
            } else {
                span(a, b)[k] - 1
            }),
{
}

/// `acc` followed by the ports of `xs` that are not already there, each
/// once, in the order of `xs`.
pub open spec fn merge(acc: Seq<u16>, xs: Seq<u16>) -> Seq<u16>
    decreases xs.len(),
{
    if xs.len() == 0 {
        acc
    } else {
        let m = merge(acc, xs.drop_last());
        if m.contains(xs.last()) {
            m
        } else {
            m.push(xs.last())
        }
    }
}

/// The ports of a list of items, merged from left to right.
pub open spec fn items_ports(items: Seq<Seq<char>>) -> Option<Seq<u16>>
    decreases items.len(),
{
    if items.len() == 0 {
        Some(Seq::empty())
    } else {
        match (items_ports(items.drop_last()), item_ports(items.last())) {
            (Some(acc), Some(xs)) => Some(merge(acc, xs)),
            _ => None,
        }
    }
}

/// The ports of a port set expression: items separated by commas.
pub open spec fn port_set_of(s: Seq<char>) -> Option<Seq<u16>> {
    items_ports(split_char(s, ','))
}

/// No port occurs twice.
pub open spec fn distinct(ports: Seq<u16>) -> bool {
    forall|i: int, j: int| 0 <= i < j < ports.len() ==> ports[i] != ports[j]
}

/// Merging keeps the ports distinct, keeps what was there in front, and
/// holds exactly the ports of both.
pub proof fn lemma_merge(acc: Seq<u16>, xs: Seq<u16>)
    requires
        distinct(acc),
    ensures
        distinct(merge(acc, xs)),
        merge(acc, xs).take(acc.len() as int) == acc,
        acc.len() <= merge(acc, xs).len(),
        forall|p: u16| #[trigger] merge(acc, xs).contains(p) <==> acc.contains(p) || xs.contains(p),
    decreases xs.len(),
{
    if xs.len() > 0 {
        lemma_merge(acc, xs.drop_last());
        let m = merge(acc, xs.drop_last());
        assert forall|p: u16| #[trigger] merge(acc, xs).contains(p) <==> acc.contains(p) || xs.contains(p) by {
            if xs.contains(p) && !xs.drop_last().contains(p) {
                let k = choose|k: int| 0 <= k < xs.len() && xs[k] == p;
                if k < xs.len() - 1 {
                    assert(xs.drop_last()[k] == p);
                }
            }
            if xs.drop_last().contains(p) {
                let k = choose|k: int| 0 <= k < xs.drop_last().len() && xs.drop_last()[k] == p;
                assert(xs[k] == p);
            }
            if !m.contains(xs.last()) && m.push(xs.last()).contains(p) && p != xs.last() {
                let k = choose|k: int| 0 <= k < m.push(xs.last()).len() && m.push(xs.last())[k] == p;
                assert(m[k] == p);
            }
            if p == xs.last() {
                assert(xs[xs.len() - 1] == p);
                if !m.contains(xs.last()) {
                    assert(m.push(xs.last())[m.len() as int] == p);
                }
            }
            if m.contains(p) && !m.contains(xs.last()) {
                let k = choose|k: int| 0 <= k < m.len() && m[k] == p;
                assert(m.push(xs.last())[k] == p);
            }
        }
        if !m.contains(xs.last()) {
            assert(m.push(xs.last()).take(acc.len() as int) == m.take(acc.len() as int));
        }
    }
}

/// Whether `x` is among `v`.
fn has_port(v: &Vec<u16>, x: u16) -> (r: bool)
    ensures
        r == v@.contains(x),
{
    let mut k: usize = 0;
    while k < v.len()
        invariant
            k <= v.len(),
            forall|q: int| 0 <= q < k ==> v@[q] != x,
        decreases v.len() - k,
    {
        if v[k] == x {
            assert(v@[k as int] == x);
            return true;
        }
        k = k + 1;
    }
    false
}

/// Adds the ports from `a` to `b` that are not yet in `ports`.
fn add_span(ports: &mut Vec<u16>, a: u16, b: u16)
    ensures
        final(ports)@ == merge(old(ports)@, span(a, b)),
{
    let ghost xs = span(a, b);
    let ghost start = ports@;
    let mut p = a;
    let mut k: usize = 0;
    let n: usize = if a <= b {
        (b - a) as usize + 1
    } else {
        (a - b) as usize + 1
    };
    while k < n
        invariant
            xs == span(a, b),
            n == xs.len(),
            k <= n,
            k < n ==> p == xs[k as int],
            ports@ == merge(start, xs.take(k as int)),
        decreases n - k,
    {
        let ghost before = ports@;
        if !has_port(ports, p) {
            ports.push(p);
        }
        assert(xs.take(k + 1).drop_last() == xs.take(k as int));
        k = k + 1;
        if k < n {
            if a <= b {
                p = p + 1;
            } else {
                p = p - 1;
            }
        }
    }
    assert(xs.take(n as int) == xs);
}

/// An item of a port set whose ports cannot be read.
#[derive(Debug, Clone, Copy, PartialEq, Eq, Structural)]
pub struct CannotConvertToPortSetError;

/// A port set expression that cannot be read.
#[derive(Debug, Clone, Copy, PartialEq, Eq, Structural)]
pub struct PortSetParseError;

/// Parses one item of a port set: the first and the last port of its span.
fn parse_item(t: &[char]) -> (r: Result<(u16, u16), CannotConvertToPortSetError>)
    ensures
        match r {
            Ok((a, b)) => item_ports(t@) == Some(span(a, b)),
            Err(_) => item_ports(t@) is None,
        },
{
    let parts = split_on(t, '-');
    if parts.len() == 1 {
        assert(views(parts@)[0] == parts@[0]@);
        match port(t) {
            Some(p) => {
                assert(span(p, p) =~= seq![p]);
                Ok((p, p))
            },
            None => Err(CannotConvertToPortSetError),
        }
    } else if parts.len() == 2 {
        assert(views(parts@)[0] == parts@[0]@);
        assert(views(parts@)[1] == parts@[1]@);
        match (port(parts[0].as_slice()), port(parts[1].as_slice())) {
            (Some(a), Some(b)) => Ok((a, b)),
            _ => Err(CannotConvertToPortSetError),
        }
    } else {
        Err(CannotConvertToPortSetError)
    }
}

/// Parses a port: decimal digits only, with a value that fits in 16 bits.
fn port(t: &[char]) -> (r: Option<u16>)
    ensures
        r == port_of(t@),
{
    let mut k: usize = 0;
    while k < t.len()
        invariant
            k <= t.len(),
            forall|q: int| 0 <= q < k ==> '0' <= #[trigger] t@[q] <= '9',
        decreases t.len() - k,
    {
        if !('0' <= t[k] && t[k] <= '9') {
            assert(!all_digits(t@));
            return None;
        }
        k = k + 1;
    }
    if t.len() == 0 {
        return None;
    }
    assert(all_digits(t@));
    proof {
        assert(t@.len() > 0 && t@[0] != '+');
    }
    parse_u16(t)
}

/// Parses a port set expression.
pub fn parse_port_set(s: &str) -> (r: Result<PortSet, PortSetParseError>)
    ensures
        match r {
            Ok(ps) => port_set_of(s@) == Some(ps.0@),
            Err(_) => port_set_of(s@) is None,
        },
{
    let cs = chars_of(s);
    let items = split_on(cs.as_slice(), ',');
    let ghost its = views(items@);
    let mut ports: Vec<u16> = Vec::new();
    let mut k: usize = 0;
    while k < items.len()
        invariant
            its == views(items@),
            its == split_char(s@, ','),
            k <= items.len(),
            items_ports(its.take(k as int)) == Some(ports@),
        decreases items.len() - k,
    {
        assert(its.take(k + 1).drop_last() == its.take(k as int));
        assert(its.take(k + 1).last() == items@[k as int]@);
        match parse_item(items[k].as_slice()) {
            Ok((a, b)) => {
                add_span(&mut ports, a, b);
            },
            Err(_) => {
                proof {
                    assert(items_ports(its.take(k + 1)) is None);
                    lemma_items_fail(its, k as int + 1);
                    assert(its.take(its.len() as int) == its);
                }
                return Err(PortSetParseError);
            },
        }
        k = k + 1;
    }
    assert(its.take(items.len() as int) == its);
    Ok(PortSet(ports))
}

impl std::str::FromStr for PortSet {
    type Err = PortSetParseError;

    fn from_str(s: &str) -> (r: Result<Self, Self::Err>)
        ensures
            match r {
                Ok(ps) => port_set_of(s@) == Some(ps.0@),
                Err(_) => port_set_of(s@) is None,
            },
    {
        parse_port_set(s)
    }
}

/// Once an item fails, the whole list fails.
proof fn lemma_items_fail(items: Seq<Seq<char>>, k: int)
    requires
        0 <= k <= items.len(),
        items_ports(items.take(k)) is None,
    ensures
        items_ports(items) is None,
    decreases items.len() - k,
{
    if k < items.len() {
        assert(items.take(k + 1).drop_last() == items.take(k));
        lemma_items_fail(items, k + 1);
    } else {
        assert(items.take(k) == items);
    }
}

/// The ports of a port set are distinct, and a port is in the set exactly
/// when some item of the expression names it.
pub proof fn lemma_port_set_distinct(s: Seq<char>)
    requires
        port_set_of(s) is Some,
    ensures
        distinct(port_set_of(s)->0),
{
    lemma_items_distinct(split_char(s, ','));
}

proof fn lemma_items_distinct(items: Seq<Seq<char>>)
    requires
        items_ports(items) is Some,
    ensures
        distinct(items_ports(items)->0),
    decreases items.len(),
{
    if items.len() > 0 {
        lemma_items_distinct(items.drop_last());
        lemma_merge(items_ports(items.drop_last())->0, item_ports(items.last())->0);
    }
}

proof fn lemma_items_members(items: Seq<Seq<char>>, p: u16)
    requires
        items_ports(items) is Some,
    ensures
        items_ports(items)->0.contains(p) <==> exists|i: int|
            0 <= i < items.len() && #[trigger] item_ports(items[i]) is Some && item_ports(
                items[i],
            )->0.contains(p),
    decreases items.len(),
{
    if items.len() > 0 {
        let init = items.drop_last();
        lemma_items_members(init, p);
        lemma_items_distinct(init);
        let acc = items_ports(init)->0;
        let xs = item_ports(items.last())->0;
        lemma_merge(acc, xs);
        assert(merge(acc, xs).contains(p) <==> acc.contains(p) || xs.contains(p));
        if exists|i: int|
            0 <= i < items.len() && #[trigger] item_ports(items[i]) is Some && item_ports(
                items[i],
            )->0.contains(p) {
            let i = choose|i: int|
                0 <= i < items.len() && #[trigger] item_ports(items[i]) is Some && item_ports(
                    items[i],
                )->0.contains(p);
            if i < items.len() - 1 {
                assert(init[i] == items[i]);
            }
        }
        if acc.contains(p) {
            let i = choose|i: int|
                0 <= i < init.len() && #[trigger] item_ports(init[i]) is Some && item_ports(
                    init[i],
                )->0.contains(p);
            assert(init[i] == items[i]);
        }
        if xs.contains(p) {
            assert(items[items.len() - 1] == items.last());
        }
    }
}

/// A port is in a port set exactly when one of the comma-separated items
/// of the expression names it: as the port itself or within its range.
pub proof fn lemma_port_set_members(s: Seq<char>, p: u16)
    requires
        port_set_of(s) is Some,
    ensures
        port_set_of(s)->0.contains(p) <==> exists|i: int|
            0 <= i < split_char(s, ',').len() && #[trigger] item_ports(split_char(s, ',')[i])
                is Some && item_ports(split_char(s, ',')[i])->0.contains(p),
{
    lemma_items_members(split_char(s, ','), p);
}

} // verus!
