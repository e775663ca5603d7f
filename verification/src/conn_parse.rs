//! Reading connection expressions and host addresses.
//!
//! ```text
//! PORTS                               local server
//! ADDR:PORTS                          remote server
//! [USER@]ADDR[:PORTS]:ADDR:PORTS      server through an SSH tunnel
//! KEY                                 entry of the known-hosts table
//! ```
//!
//! An address is an IPv4 address, an IPv6 address in brackets, or a domain
//! name.

use vstd::prelude::*;

use crate::conn_expr::{Addr, ConnectionExpr, IpAddr, PortSet, RouteExpr, TunnelExpr};
use crate::port_set::{parse_port_set, port_set_of};
use crate::text::{
    all_digits, chars_of, copy_range, decimal_value, find_char, find_char_from, find_pattern,
    find_pattern_from, lemma_find_char_bounds, lemma_find_pattern_bounds, split_char, split_on,
    string_of, views,
};

verus! {

pub open spec fn is_alpha(c: char) -> bool {
    ('a' <= c <= 'z') || ('A' <= c <= 'Z')
}

pub open spec fn is_alnum(c: char) -> bool {
    is_alpha(c) || ('0' <= c <= '9')
}

pub open spec fn is_hex(c: char) -> bool {
    ('0' <= c <= '9') || ('a' <= c <= 'f') || ('A' <= c <= 'F')
}

/// A label of a domain name: a letter, then letters, digits and dashes,
/// ending with a letter or digit.
pub open spec fn label_ok(t: Seq<char>) -> bool {
    &&& t.len() >= 1
    &&& is_alpha(t[0])
    &&& is_alnum(t.last())
    &&& forall|k: int| 0 <= k < t.len() ==> is_alnum(#[trigger] t[k]) || t[k] == '-'
}

/// A domain name without its optional final dot.
pub open spec fn domain_body(t: Seq<char>) -> Seq<char> {
    if t.len() > 0 && t.last() == '.' {
        t.drop_last()
    } else {
        t
    }
}

/// Whether `t` is written as a domain name: labels separated by dots, and
/// perhaps a final dot.
pub open spec fn domain_syntax(t: Seq<char>) -> bool {
    let labels = split_char(domain_body(t), '.');
    domain_body(t).len() > 0 && forall|k: int| 0 <= k < labels.len() ==> label_ok(#[trigger] labels[k])
}

/// Whether a domain name is short enough: at most 253 characters, and at
/// most 63 in each label.
pub open spec fn domain_fits(t: Seq<char>) -> bool {
    let labels = split_char(domain_body(t), '.');
    t.len() <= 253 && forall|k: int| 0 <= k < labels.len() ==> (#[trigger] labels[k]).len() <= 63
}

/// A decimal octet: `0`, or one to three digits without a leading zero, at
/// most 255.
pub open spec fn octet_of(t: Seq<char>) -> Option<u8> {
    if 1 <= t.len() <= 3 && all_digits(t) && (t.len() == 1 || t[0] != '0') && decimal_value(t)
        <= 255 {
        Some(decimal_value(t) as u8)
    } else {
        None
    }
}

/// An IPv4 address: four octets separated by dots.
pub open spec fn ipv4_of(t: Seq<char>) -> Option<(u8, u8, u8, u8)> {
    let p = split_char(t, '.');
    if p.len() == 4 && octet_of(p[0]) is Some && octet_of(p[1]) is Some && octet_of(p[2]) is Some
        && octet_of(p[3]) is Some {
        Some((octet_of(p[0])->0, octet_of(p[1])->0, octet_of(p[2])->0, octet_of(p[3])->0))
    } else {
        None
    }
}

pub open spec fn hex_value(c: char) -> int {
    if '0' <= c <= '9' {
        c as int - '0' as int
    } else if 'a' <= c <= 'f' {
        c as int - 'a' as int + 10
    } else {
        c as int - 'A' as int + 10
    }
}

pub open spec fn hex_number(t: Seq<char>) -> int
    decreases t.len(),
{
    if t.len() == 0 {
        0
    } else {
        16 * hex_number(t.drop_last()) + hex_value(t.last())
    }
}

/// A group of an IPv6 address: one to four hexadecimal digits.
pub open spec fn hex_group(t: Seq<char>) -> Option<u16> {
    if 1 <= t.len() <= 4 && forall|k: int| 0 <= k < t.len() ==> is_hex(#[trigger] t[k]) {
        Some(hex_number(t) as u16)
    } else {
        None
    }
}

/// The groups written by the pieces, each a group.
pub open spec fn groups_of(parts: Seq<Seq<char>>) -> Option<Seq<u16>>
    decreases parts.len(),
{
    if parts.len() == 0 {
        Some(Seq::empty())
    } else {
        match (groups_of(parts.drop_last()), hex_group(parts.last())) {
            (Some(g), Some(h)) => Some(g.push(h)),
            _ => None,
        }
    }
}

/// Groups separated by colons; nothing for the empty text.
pub open spec fn head_groups(t: Seq<char>) -> Option<Seq<u16>> {
    if t.len() == 0 {
        Some(Seq::empty())
    } else {
        groups_of(split_char(t, ':'))
    }
}

/// Groups separated by colons, the last of which may be an IPv4 address
/// standing for two groups; nothing for the empty text.
pub open spec fn tail_groups(t: Seq<char>) -> Option<Seq<u16>> {
    if t.len() == 0 {
        Some(Seq::empty())
    } else {
        let ps = split_char(t, ':');
        if find_char_from(ps.last(), '.', 0) is Some {
            match (groups_of(ps.drop_last()), ipv4_of(ps.last())) {
                (Some(g), Some((a, b, c, d))) => Some(
                    g + seq![(a * 256 + b) as u16, (c * 256 + d) as u16],
                ),
                _ => None,
            }
        } else {
            groups_of(ps)
        }
    }
}

pub open spec fn double_colon() -> Seq<char> {
    seq![':', ':']
}

/// An IPv6 address (without its brackets): eight groups, or fewer with one
/// `::` standing for the missing zero groups.
pub open spec fn ipv6_of(t: Seq<char>) -> Option<Seq<u16>> {
    match find_pattern_from(t, double_colon(), 0) {
        None => match tail_groups(t) {
            Some(g) => if g.len() == 8 {
                Some(g)
            } else {
                None
            },
            None => None,
        },
        Some(p) => {
            let head = t.take(p);
            let tail = t.skip(p + 2);
            if find_pattern_from(tail, double_colon(), 0) is Some {
                None
            } else {
                match (head_groups(head), tail_groups(tail)) {
                    (Some(h), Some(g)) => if h.len() + g.len() <= 7 {
                        Some(h + Seq::new((8 - h.len() - g.len()) as nat, |k: int| 0u16) + g)
                    } else {
                        None
                    },
                    _ => None,
                }
            }
        },
    }
}

/// The contents of an address.
pub enum AddrView {
    Domain(Seq<char>),
    V4(u8, u8, u8, u8),
    V6(Seq<u16>),
}

pub open spec fn addr_view(a: Addr) -> AddrView {
    match a {
        Addr::Domain(d) => AddrView::Domain(d@),
        Addr::IP(IpAddr::V4(a, b, c, d)) => AddrView::V4(a, b, c, d),
        Addr::IP(IpAddr::V6(a, b, c, d, e, f, g, h)) => AddrView::V6(seq![a, b, c, d, e, f, g, h]),
    }
}

/// The address that `t` writes: an IPv6 address in brackets, an IPv4
/// address, or a domain name that is not too long.
pub open spec fn addr_of(t: Seq<char>) -> Option<AddrView> {
    if t.len() >= 2 && t[0] == '[' && t.last() == ']' {
        match ipv6_of(t.subrange(1, t.len() - 1)) {
            Some(g) => Some(AddrView::V6(g)),
            None => None,
        }
    } else if ipv4_of(t) is Some {
        let (a, b, c, d) = ipv4_of(t)->0;
        Some(AddrView::V4(a, b, c, d))
    } else if domain_syntax(t) && domain_fits(t) {
        Some(AddrView::Domain(t))
    } else {
        None
    }
}

proof fn lemma_decimal_leading(n: nat)
    requires
        n >= 1,
    ensures
        crate::text::decimal_string(n)[0] != '0',
    decreases n,
{
    crate::text::lemma_decimal_string_parses(n);
    if n >= 10 {
        lemma_decimal_leading(n / 10);
        assert(crate::text::decimal_string(n)[0] == crate::text::decimal_string(n / 10)[0]);
    } else {
        assert(crate::text::decimal_string(n)[0] == crate::text::digit_char(n));
    }
}

proof fn lemma_octet_reads_back(x: u8)
    ensures
        octet_of(crate::text::decimal_string(x as nat)) == Some(x),
{
    let n = x as nat;
    let t = crate::text::decimal_string(n);
    crate::text::lemma_decimal_string_parses(n);
    if n >= 10 {
        lemma_decimal_leading(n);
        crate::text::lemma_decimal_string_parses(n / 10);
        if n / 10 >= 10 {
            crate::text::lemma_decimal_string_parses(n / 100);
            assert(n / 10 / 10 < 10);
            assert(crate::text::decimal_string(n / 10 / 10).len() == 1);
        }
    }
}

/// An IPv4 address written in the usual way, four octets in decimal with
/// dots between them, reads back as that address.
pub proof fn lemma_ipv4_reads_back(a: u8, b: u8, c: u8, d: u8)
    ensures
        ({
            let t = crate::text::decimal_string(a as nat) + seq!['.'] + crate::text::decimal_string(
                b as nat,
            ) + seq!['.'] + crate::text::decimal_string(c as nat) + seq!['.']
                + crate::text::decimal_string(d as nat);
            &&& ipv4_of(t) == Some((a, b, c, d))
            &&& addr_of(t) == Some(AddrView::V4(a, b, c, d))
        }),
{
    let da = crate::text::decimal_string(a as nat);
    let db = crate::text::decimal_string(b as nat);
    let dc = crate::text::decimal_string(c as nat);
    let dd = crate::text::decimal_string(d as nat);
    let t = da + seq!['.'] + db + seq!['.'] + dc + seq!['.'] + dd;
    crate::text::lemma_decimal_no_dot(a as nat);
    crate::text::lemma_decimal_no_dot(b as nat);
    crate::text::lemma_decimal_no_dot(c as nat);
    crate::text::lemma_decimal_no_dot(d as nat);
    crate::text::lemma_decimal_string_parses(a as nat);
    let r3 = dc + seq!['.'] + dd;
    let r2 = db + seq!['.'] + r3;
    assert(t =~= da + seq!['.'] + r2);
    crate::text::lemma_split_piece(da, r2, '.');
    crate::text::lemma_split_piece(db, r3, '.');
    crate::text::lemma_split_piece(dc, dd, '.');
    crate::text::lemma_split_single(dd, '.');
    let p = split_char(t, '.');
    assert(p =~= seq![da, db, dc, dd]);
    lemma_octet_reads_back(a);
    lemma_octet_reads_back(b);
    lemma_octet_reads_back(c);
    lemma_octet_reads_back(d);
    assert(t[0] == da[0]);
    assert(crate::text::is_digit_char(da[0]));
}

/// A text that cannot be read as an address.
#[derive(Debug, Clone, Copy, PartialEq, Eq, Structural)]
pub struct ParseError;

/// A domain name that is too long.
#[derive(Debug, Clone, Copy, PartialEq, Eq, Structural)]
pub struct ConversionError;

fn alpha(c: char) -> (r: bool)
    ensures
        r == is_alpha(c),
{
    ('a' <= c && c <= 'z') || ('A' <= c && c <= 'Z')
}

fn alnum(c: char) -> (r: bool)
    ensures
        r == is_alnum(c),
{
    alpha(c) || ('0' <= c && c <= '9')
}

fn label(t: &[char]) -> (r: bool)
    ensures
        r == label_ok(t@),
{
    if t.len() == 0 || !alpha(t[0]) || !alnum(t[t.len() - 1]) {
        return false;
    }
    let mut k: usize = 0;
    while k < t.len()
        invariant
            k <= t.len(),
            forall|q: int| 0 <= q < k ==> is_alnum(#[trigger] t@[q]) || t@[q] == '-',
        decreases t.len() - k,
    {
        if !(alnum(t[k]) || t[k] == '-') {
            return false;
        }
        k = k + 1;
    }
    true
}

fn body_of(t: &[char]) -> (r: Vec<char>)
    ensures
        r@ == domain_body(t@),
{
    if t.len() > 0 && t[t.len() - 1] == '.' {
        copy_range(t, 0, t.len() - 1)
    } else {
        copy_range(t, 0, t.len())
    }
}

/// Checks a domain name's syntax and, separately, its lengths.
fn domain(t: &[char]) -> (r: Result<bool, ConversionError>)
    ensures
        match r {
            Ok(b) => b == domain_syntax(t@) && (b ==> domain_fits(t@)),
            Err(_) => domain_syntax(t@) && !domain_fits(t@),
        },
{
    let body = body_of(t);
    if body.len() == 0 {
        return Ok(false);
    }
    let labels = split_on(body.as_slice(), '.');
    let ghost ls = views(labels@);
    let mut fits = t.len() <= 253;
    let mut k: usize = 0;
    while k < labels.len()
        invariant
            ls == views(labels@),
            ls == split_char(domain_body(t@), '.'),
            k <= labels.len(),
            forall|q: int| 0 <= q < k ==> label_ok(#[trigger] ls[q]),
            fits == (t@.len() <= 253 && forall|q: int| 0 <= q < k ==> (#[trigger] ls[q]).len() <= 63),
        decreases labels.len() - k,
    {
        assert(ls[k as int] == labels@[k as int]@);
        if !label(labels[k].as_slice()) {
            return Ok(false);
        }
        if labels[k].len() > 63 {
            fits = false;
        }
        k = k + 1;
    }
    if fits {
        Ok(true)
    } else {
        Err(ConversionError)
    }
}

fn octet(t: &[char]) -> (r: Option<u8>)
    ensures
        r == octet_of(t@),
{
    if t.len() < 1 || t.len() > 3 || (t.len() > 1 && t[0] == '0') {
        return None;
    }
    let mut v: u32 = 0;
    let mut k: usize = 0;
    while k < t.len()
        invariant
            k <= t.len() <= 3,
            forall|q: int| 0 <= q < k ==> '0' <= #[trigger] t@[q] <= '9',
            v == decimal_value(t@.take(k as int)),
            k < 1 ==> v < 1,
            k < 2 ==> v < 10,
            k < 3 ==> v < 100,
            v < 1000,
        decreases t.len() - k,
    {
        if !('0' <= t[k] && t[k] <= '9') {
            assert(!all_digits(t@));
            return None;
        }
        assert(t@.take(k + 1).drop_last() == t@.take(k as int));
        v = v * 10 + ((t[k] as u32) - ('0' as u32));
        k = k + 1;
    }
    assert(t@.take(t.len() as int) == t@);
    assert(all_digits(t@));
    if v > 255 {
        None
    } else {
        Some(v as u8)
    }
}

fn ipv4(t: &[char]) -> (r: Option<(u8, u8, u8, u8)>)
    ensures
        r == ipv4_of(t@),
{
    let p = split_on(t, '.');
    if p.len() != 4 {
        return None;
    }
    assert(views(p@)[0] == p@[0]@);
    assert(views(p@)[1] == p@[1]@);
    assert(views(p@)[2] == p@[2]@);
    assert(views(p@)[3] == p@[3]@);
    match (octet(p[0].as_slice()), octet(p[1].as_slice()), octet(p[2].as_slice()), octet(p[3].as_slice())) {
        (Some(a), Some(b), Some(c), Some(d)) => Some((a, b, c, d)),
        _ => None,
    }
}

fn hex_digit_value(c: char) -> (r: u32)
    requires
        is_hex(c),
    ensures
        r == hex_value(c),
        r < 16,
{
    if '0' <= c && c <= '9' {
        (c as u32) - ('0' as u32)
    } else if 'a' <= c && c <= 'f' {
        (c as u32) - ('a' as u32) + 10
    } else {
        (c as u32) - ('A' as u32) + 10
    }
}

fn group(t: &[char]) -> (r: Option<u16>)
    ensures
        r == hex_group(t@),
{
    if t.len() < 1 || t.len() > 4 {
        return None;
    }
    let mut v: u32 = 0;
    let mut k: usize = 0;
    while k < t.len()
        invariant
            k <= t.len() <= 4,
            forall|q: int| 0 <= q < k ==> is_hex(#[trigger] t@[q]),
            v == hex_number(t@.take(k as int)),
            v < 0x10000,
            k < 4 ==> v < 0x1000,
            k < 3 ==> v < 0x100,
            k < 2 ==> v < 0x10,
            k < 1 ==> v < 1,
        decreases t.len() - k,
    {
        let c = t[k];
        if !(('0' <= c && c <= '9') || ('a' <= c && c <= 'f') || ('A' <= c && c <= 'F')) {
            assert(!is_hex(t@[k as int]));
            return None;
        }
        assert(t@.take(k + 1).drop_last() == t@.take(k as int));
        v = v * 16 + hex_digit_value(c);
        k = k + 1;
    }
    assert(t@.take(t.len() as int) == t@);
    Some(v as u16)
}

fn groups(parts: &Vec<Vec<char>>) -> (r: Option<Vec<u16>>)
    ensures
        match r {
            Some(g) => groups_of(views(parts@)) == Some(g@),
            None => groups_of(views(parts@)) is None,
        },
{
    let ghost ps = views(parts@);
    let mut out: Vec<u16> = Vec::new();
    let mut k: usize = 0;
    while k < parts.len()
        invariant
            ps == views(parts@),
            k <= parts.len(),
            groups_of(ps.take(k as int)) == Some(out@),
        decreases parts.len() - k,
    {
        assert(ps.take(k + 1).drop_last() == ps.take(k as int));
        assert(ps.take(k + 1).last() == parts@[k as int]@);
        match group(parts[k].as_slice()) {
            Some(h) => {
                out.push(h);
            },
            None => {
                proof {
                    lemma_groups_fail(ps, k as int + 1);
                }
                return None;
            },
        }
        k = k + 1;
    }
    assert(ps.take(parts.len() as int) == ps);
    Some(out)
}

proof fn lemma_groups_fail(ps: Seq<Seq<char>>, k: int)
    requires
        0 <= k <= ps.len(),
        groups_of(ps.take(k)) is None,
    ensures
        groups_of(ps) is None,
    decreases ps.len() - k,
{
    if k < ps.len() {
        assert(ps.take(k + 1).drop_last() == ps.take(k));
        lemma_groups_fail(ps, k + 1);
    } else {
        assert(ps.take(k) == ps);
    }
}

fn head_part(t: &[char]) -> (r: Option<Vec<u16>>)
    ensures
        match r {
            Some(g) => head_groups(t@) == Some(g@),
            None => head_groups(t@) is None,
        },
{
    if t.len() == 0 {
        return Some(Vec::new());
    }
    groups(&split_on(t, ':'))
}

fn tail_part(t: &[char]) -> (r: Option<Vec<u16>>)
    ensures
        match r {
            Some(g) => tail_groups(t@) == Some(g@),
            None => tail_groups(t@) is None,
        },
{
    if t.len() == 0 {
        return Some(Vec::new());
    }
    let mut ps = split_on(t, ':');
    let ghost all = views(ps@);
    assert(all.len() > 0) by {
        crate::text::lemma_split_nonempty(t@, ':');
    }
    let last = ps.pop().unwrap();
    assert(views(ps@) =~= all.drop_last());
    assert(last@ == all.last());
    if find_char(last.as_slice(), '.', 0).is_some() {
        match (groups(&ps), ipv4(last.as_slice())) {
            (Some(mut g), Some((a, b, c, d))) => {
                let hi: u16 = (a as u16) * 256 + (b as u16);
                let lo: u16 = (c as u16) * 256 + (d as u16);
                let ghost g0 = g@;
                g.push(hi);
                g.push(lo);
                assert(g@ =~= g0 + seq![(a * 256 + b) as u16, (c * 256 + d) as u16]);
                Some(g)
            },
            _ => None,
        }
    } else {
        ps.push(last);
        assert(views(ps@) =~= all);
        groups(&ps)
    }
}

fn ipv6(t: &[char]) -> (r: Option<Vec<u16>>)
    ensures
        match r {
            Some(g) => ipv6_of(t@) == Some(g@),
            None => ipv6_of(t@) is None,
        },
{
    let dc = vec![':', ':'];
    assert(dc@ == double_colon());
    proof {
        lemma_find_pattern_bounds(t@, dc@, 0);
    }
    match find_pattern(t, dc.as_slice()) {
        None => match tail_part(t) {
            Some(g) => if g.len() == 8 {
                Some(g)
            } else {
                None
            },
            None => None,
        },
        Some(p) => {
            assert(dc@.len() == 2);
            let head = copy_range(t, 0, p);
            let tail = copy_range(t, p + 2, t.len());
            assert(head@ == t@.take(p as int));
            assert(tail@ == t@.skip(p + 2));
            if find_pattern(tail.as_slice(), dc.as_slice()).is_some() {
                return None;
            }
            match (head_part(head.as_slice()), tail_part(tail.as_slice())) {
                (Some(h), Some(g)) => {
                    if h.len() > 7 || g.len() > 7 - h.len() {
                        return None;
                    }
                    let mut out = h;
                    let ghost hv = out@;
                    let n = 8 - out.len() - g.len();
                    let mut k: usize = 0;
                    while k < n
                        invariant
                            k <= n,
                            out@ == hv + Seq::new(k as nat, |q: int| 0u16),
                        decreases n - k,
                    {
                        out.push(0);
                        k = k + 1;
                        assert(out@ =~= hv + Seq::new(k as nat, |q: int| 0u16));
                    }
                    let mut j: usize = 0;
                    let ghost mid = out@;
                    while j < g.len()
                        invariant
                            j <= g.len(),
                            out@ == mid + g@.take(j as int),
                        decreases g.len() - j,
                    {
                        out.push(g[j]);
                        j = j + 1;
                        assert(out@ =~= mid + g@.take(j as int));
                    }
                    assert(g@.take(g.len() as int) == g@);
                    Some(out)
                },
                _ => None,
            }
        },
    }
}

/// Parses an address.
pub fn parse_addr(t: &[char]) -> (r: Result<Addr, ParseError>)
    ensures
        match r {
            Ok(a) => addr_of(t@) == Some(addr_view(a)),
            Err(_) => addr_of(t@) is None,
        },
{
    if t.len() >= 2 && t[0] == '[' && t[t.len() - 1] == ']' {
        let inner = copy_range(t, 1, t.len() - 1);
        return match ipv6(inner.as_slice()) {
            Some(g) => {
                assert(g@.len() == 8);
                let a = Addr::IP(IpAddr::V6(g[0], g[1], g[2], g[3], g[4], g[5], g[6], g[7]));
                assert(addr_view(a) == AddrView::V6(g@)) by {
                    assert(seq![g@[0], g@[1], g@[2], g@[3], g@[4], g@[5], g@[6], g@[7]] =~= g@);
                }
                Ok(a)
            },
            None => Err(ParseError),
        };
    }
    if let Some((a, b, c, d)) = ipv4(t) {
        return Ok(Addr::IP(IpAddr::V4(a, b, c, d)));
    }
    match domain(t) {
        Ok(true) => Ok(Addr::Domain(string_of(t))),
        _ => Err(ParseError),
    }
}

impl std::str::FromStr for Addr {
    type Err = ParseError;

    fn from_str(s: &str) -> (r: Result<Self, Self::Err>)
        ensures
            match r {
                Ok(a) => addr_of(s@) == Some(addr_view(a)),
                Err(_) => addr_of(s@) is None,
            },
    {
        let cs = chars_of(s);
        parse_addr(cs.as_slice())
    }
}

/// Where the segment from `j` on ends: at the first `:` that is not between
/// brackets, or at the end.
pub open spec fn segment_end(s: Seq<char>, j: int) -> int
    decreases s.len() - j,
{
    if j < 0 || j >= s.len() {
        j
    } else if s[j] == ':' {
        j
    } else if s[j] == '[' {
        match find_char_from(s, ']', j) {
            Some(k) => if j < k < s.len() {
                segment_end(s, k + 1)
            } else {
                s.len() as int
            },
            None => s.len() as int,
        }
    } else {
        segment_end(s, j + 1)
    }
}

proof fn lemma_segment_end(s: Seq<char>, j: int)
    requires
        0 <= j <= s.len(),
    ensures
        j <= segment_end(s, j) <= s.len(),
        segment_end(s, j) < s.len() ==> s[segment_end(s, j)] == ':',
    decreases s.len() - j,
{
    if j < s.len() && s[j] != ':' {
        if s[j] == '[' {
            lemma_find_char_bounds(s, ']', j);
            match find_char_from(s, ']', j) {
                Some(k) => if j < k < s.len() {
                    lemma_segment_end(s, k + 1);
                },
                None => {},
            }
        } else {
            lemma_segment_end(s, j + 1);
        }
    }
}

/// The `:`-separated segments of a connection expression from `i` on;
/// colons between brackets do not separate.
pub open spec fn segments(s: Seq<char>, i: int) -> Seq<Seq<char>>
    decreases s.len() - i,
{
    let e = segment_end(s, i);
    if 0 <= i <= e < s.len() {
        seq![s.subrange(i, e)] + segments(s, e + 1)
    } else {
        seq![s.subrange(i, s.len() as int)]
    }
}

/// A key of the known-hosts table: letters, digits, `_` and `-`.
pub open spec fn host_key_ok(t: Seq<char>) -> bool {
    t.len() > 0 && forall|k: int| 0 <= k < t.len() ==> is_alnum(#[trigger] t[k]) || t[k] == '_' || t[k] == '-'
}

/// The user and address of a tunnel: `USER@ADDR` or `ADDR`.
pub open spec fn user_addr_of(t: Seq<char>) -> Option<(Option<Seq<char>>, AddrView)> {
    match find_char_from(t, '@', 0) {
        Some(k) => if 0 < k < t.len() {
            match addr_of(t.skip(k + 1)) {
                Some(a) => Some((Some(t.take(k)), a)),
                None => None,
            }
        } else {
            None
        },
        None => match addr_of(t) {
            Some(a) => Some((None, a)),
            None => None,
        },
    }
}

/// The contents of a connection expression.
pub enum ConnView {
    Route {
        ports: Seq<u16>,
        addr: Option<AddrView>,
        tunnel: Option<(Option<Seq<char>>, AddrView, Option<Seq<u16>>)>,
    },
    HostKey(Seq<char>),
}

pub open spec fn opt_addr_view(a: Option<Addr>) -> Option<AddrView> {
    match a {
        Some(x) => Some(addr_view(x)),
        None => None,
    }
}

pub open spec fn conn_view(c: ConnectionExpr) -> ConnView {
    match c {
        ConnectionExpr::RouteExpr(r) => ConnView::Route {
            ports: r.ports.0@,
            addr: opt_addr_view(r.addr),
            tunnel: match r.tunnel {
                Some(t) => Some(
                    (
                        match t.user {
                            Some(u) => Some(u@),
                            None => None,
                        },
                        addr_view(t.addr),
                        match t.ports {
                            Some(p) => Some(p.0@),
                            None => None,
                        },
                    ),
                ),
                None => None,
            },
        },
        ConnectionExpr::HostKey(k) => ConnView::HostKey(k@),
    }
}

/// What a connection expression says: one segment is ports or a host key,
/// two are an address and ports, three are a tunnel, an address and ports,
/// and four are a tunnel, its ports, an address and ports.
pub open spec fn conn_of(s: Seq<char>) -> Option<ConnView> {
    let g = segments(s, 0);
    if g.len() == 1 {
        match port_set_of(g[0]) {
            Some(p) => Some(ConnView::Route { ports: p, addr: None, tunnel: None }),
            None => if host_key_ok(g[0]) {
                Some(ConnView::HostKey(g[0]))
            } else {
                None
            },
        }
    } else if g.len() == 2 {
        match (addr_of(g[0]), port_set_of(g[1])) {
            (Some(a), Some(p)) => Some(ConnView::Route { ports: p, addr: Some(a), tunnel: None }),
            _ => None,
        }
    } else if g.len() == 3 {
        match (user_addr_of(g[0]), addr_of(g[1]), port_set_of(g[2])) {
            (Some((u, ta)), Some(a), Some(p)) => Some(
                ConnView::Route { ports: p, addr: Some(a), tunnel: Some((u, ta, None)) },
            ),
            _ => None,
        }
    } else if g.len() == 4 {
        match (user_addr_of(g[0]), port_set_of(g[1]), addr_of(g[2]), port_set_of(g[3])) {
            (Some((u, ta)), Some(tp), Some(a), Some(p)) => Some(
                ConnView::Route { ports: p, addr: Some(a), tunnel: Some((u, ta, Some(tp))) },
            ),
            _ => None,
        }
    } else {
        None
    }
}

fn scan_segment(s: &[char], j: usize) -> (e: usize)
    requires
        j <= s.len(),
    ensures
        e == segment_end(s@, j as int),
        j <= e <= s.len(),
{
    let mut k = j;
    proof {
        lemma_segment_end(s@, j as int);
    }
    while k < s.len()
        invariant
            j <= k <= s.len(),
            segment_end(s@, k as int) == segment_end(s@, j as int),
        decreases s.len() - k,
    {
        if s[k] == ':' {
            return k;
        } else if s[k] == '[' {
            proof {
                lemma_find_char_bounds(s@, ']', k as int);
            }
            match find_char(s, ']', k) {
                Some(q) => {
                    if q + 1 > s.len() || q <= k {
                        return s.len();
                    }
                    k = q + 1;
                },
                None => {
                    return s.len();
                },
            }
        } else {
            k = k + 1;
        }
    }
    k
}

fn split_segments(s: &[char]) -> (r: Vec<Vec<char>>)
    ensures
        views(r@) == segments(s@, 0),
{
    let mut r: Vec<Vec<char>> = Vec::new();
    let mut i: usize = 0;
    loop
        invariant
            i <= s.len(),
            views(r@) + segments(s@, i as int) == segments(s@, 0),
        decreases s.len() - i,
    {
        let e = scan_segment(s, i);
        let piece = copy_range(s, i, e);
        let ghost before = views(r@);
        r.push(piece);
        assert(views(r@) =~= before.push(s@.subrange(i as int, e as int)));
        if e < s.len() {
            assert(segments(s@, i as int) == seq![s@.subrange(i as int, e as int)] + segments(
                s@,
                e + 1,
            ));
            assert(views(r@) + segments(s@, e + 1) =~= before + segments(s@, i as int));
            i = e + 1;
        } else {
            assert(segments(s@, i as int) == seq![s@.subrange(i as int, s.len() as int)]);
            assert(views(r@) =~= before + segments(s@, i as int));
            return r;
        }
    }
}

fn host_key(t: &[char]) -> (r: bool)
    ensures
        r == host_key_ok(t@),
{
    if t.len() == 0 {
        return false;
    }
    let mut k: usize = 0;
    while k < t.len()
        invariant
            k <= t.len(),
            forall|q: int| 0 <= q < k ==> is_alnum(#[trigger] t@[q]) || t@[q] == '_' || t@[q] == '-',
        decreases t.len() - k,
    {
        if !(alnum(t[k]) || t[k] == '_' || t[k] == '-') {
            return false;
        }
        k = k + 1;
    }
    true
}

fn user_addr(t: &[char]) -> (r: Option<(Option<String>, Addr)>)
    ensures
        match r {
            Some((u, a)) => user_addr_of(t@) == Some(
                (
                    match u {
                        Some(x) => Some(x@),
                        None => None,
                    },
                    addr_view(a),
                ),
            ),
            None => user_addr_of(t@) is None,
        },
{
    proof {
        lemma_find_char_bounds(t@, '@', 0);
    }
    match find_char(t, '@', 0) {
        Some(k) => {
            if k == 0 || k >= t.len() {
                return None;
            }
            let rest = copy_range(t, k + 1, t.len());
            assert(rest@ == t@.skip(k + 1));
            match parse_addr(rest.as_slice()) {
                Ok(a) => {
                    let user = copy_range(t, 0, k);
                    assert(user@ == t@.take(k as int));
                    Some((Some(string_of(user.as_slice())), a))
                },
                Err(_) => None,
            }
        },
        None => match parse_addr(t) {
            Ok(a) => Some((None, a)),
            Err(_) => None,
        },
    }
}

fn ports(t: &Vec<char>) -> (r: Option<PortSet>)
    ensures
        match r {
            Some(p) => port_set_of(t@) == Some(p.0@),
            None => port_set_of(t@) is None,
        },
{
    let s = string_of(t.as_slice());
    match parse_port_set(s.as_str()) {
        Ok(p) => Some(p),
        Err(_) => None,
    }
}


/// Parses a connection expression.
pub fn parse_connection_expr(s: &str) -> (r: Result<ConnectionExpr, ParseError>)
    ensures
        match r {
            Ok(c) => conn_of(s@) == Some(conn_view(c)),
            Err(_) => conn_of(s@) is None,
        },
{
    let cs = chars_of(s);
    let g = split_segments(cs.as_slice());
    let ghost gv = views(g@);
    proof {
        assert(gv.len() == g@.len());
        if g.len() > 0 {
            assert(gv[0] == g@[0]@);
        }
        if g.len() > 1 {
            assert(gv[1] == g@[1]@);
        }
        if g.len() > 2 {
            assert(gv[2] == g@[2]@);
        }
        if g.len() > 3 {
            assert(gv[3] == g@[3]@);
        }
    }
    if g.len() == 1 {
        match ports(&g[0]) {
            Some(p) => Ok(ConnectionExpr::RouteExpr(RouteExpr { ports: p, addr: None, tunnel: None })),
            None => if host_key(g[0].as_slice()) {
                Ok(ConnectionExpr::HostKey(string_of(g[0].as_slice())))
            } else {
                Err(ParseError)
            },
        }
    } else if g.len() == 2 {
        match (parse_addr(g[0].as_slice()), ports(&g[1])) {
            (Ok(a), Some(p)) => Ok(
                ConnectionExpr::RouteExpr(RouteExpr { ports: p, addr: Some(a), tunnel: None }),
            ),
            _ => Err(ParseError),
        }
    } else if g.len() == 3 {
        match (user_addr(g[0].as_slice()), parse_addr(g[1].as_slice()), ports(&g[2])) {
            (Some((u, ta)), Ok(a), Some(p)) => Ok(
                ConnectionExpr::RouteExpr(
                    RouteExpr {
                        ports: p,
                        addr: Some(a),
                        tunnel: Some(TunnelExpr { user: u, addr: ta, ports: None }),
                    },
                ),
            ),
            _ => Err(ParseError),
        }
    } else if g.len() == 4 {
        match (user_addr(g[0].as_slice()), ports(&g[1]), parse_addr(g[2].as_slice()), ports(&g[3])) {
            (Some((u, ta)), Some(tp), Ok(a), Some(p)) => Ok(
                ConnectionExpr::RouteExpr(
                    RouteExpr {
                        ports: p,
                        addr: Some(a),
                        tunnel: Some(TunnelExpr { user: u, addr: ta, ports: Some(tp) }),
                    },
                ),
            ),
            _ => Err(ParseError),
        }
    } else {
        Err(ParseError)
    }
}

impl std::str::FromStr for ConnectionExpr {
    type Err = ParseError;

    fn from_str(s: &str) -> (r: Result<Self, Self::Err>)
        ensures
            match r {
                Ok(c) => conn_of(s@) == Some(conn_view(c)),
                Err(_) => conn_of(s@) is None,
            },
    {
        parse_connection_expr(s)
    }
}

} // verus!
