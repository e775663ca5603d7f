//! Point versions, prefixed version blocks and version ranges.
//!
//! A script can demand that it is run by a compatible version of the tool;
//! these types express such demands and check a version against them.

use std::cmp::Ordering;

use vstd::prelude::*;

use crate::text::{
    chars_of, copy_range, decimal_string, find_pattern, find_pattern_from,
    is_digit_char, lemma_decimal_no_dot, lemma_decimal_string_parses, lemma_find_pattern_bounds, lemma_parse_u16_decimal, lemma_split_piece,
    lemma_split_single, parse_u16, push_decimal, spec_parse_u16, split_char, split_on, string_of,
    views,
};

verus! {

/// A point version `major.minor.patch`.
#[derive(Clone, Copy, Debug, PartialEq, Eq, Structural)]
pub struct Version(pub u16, pub u16, pub u16);

/// A version range, possibly unbounded on either side.
///
/// `start` is the smallest version of the range and `stop` the smallest
/// version above it; `None` means unbounded from below or above.
pub trait VersionRange {
    spec fn spec_start(&self) -> Option<Version>;

    spec fn spec_stop(&self) -> Option<Version>;

    /// Whether `stop` can be computed without a version number overflowing.
    spec fn stop_defined(&self) -> bool;

    /// The smallest version of the range or `None`, if the range is unbounded
    /// from below.
    fn start(&self) -> (r: Option<Version>)
        ensures
            r == self.spec_start(),
    ;

    /// The smallest version greater than the range or `None`, if the range is
    /// unbounded from above.
    fn stop(&self) -> (r: Option<Version>)
        requires
            self.stop_defined(),
        ensures
            r == self.spec_stop(),
    ;

    /// Checks whether the range is sensible, i.e. it doesn't stop before it
    /// starts.  Ranges of zero size are permitted.
    fn sound(&self) -> (r: bool)
        requires
            self.stop_defined(),
        ensures
            r == spec_sound(self.spec_start(), self.spec_stop()),
    {
        match (self.start(), self.stop()) {
            (Some(start), Some(stop)) => start.le(&stop),
            _ => true,
        }
    }
}

/// A range with the given bounds does not stop before it starts.
pub open spec fn spec_sound(start: Option<Version>, stop: Option<Version>) -> bool {
    match (start, stop) {
        (Some(a), Some(b)) => a.spec_le(b),
        _ => true,
    }
}

/// Where `v` lies with respect to a range with the given bounds: below it,
/// inside it, or above it.  Being below the start takes precedence.
pub open spec fn range_order(v: Version, start: Option<Version>, stop: Option<Version>)
    -> Ordering {
    if start matches Some(x) && v.spec_lt(x) {
        Ordering::Less
    } else if stop matches Some(x) && x.spec_le(v) {
        Ordering::Greater
    } else {
        Ordering::Equal
    }
}

impl Version {
    /// Lexicographic order on (major, minor, patch).
    pub open spec fn spec_lt(self, other: Version) -> bool {
        ||| self.0 < other.0
        ||| self.0 == other.0 && self.1 < other.1
        ||| self.0 == other.0 && self.1 == other.1 && self.2 < other.2
    }

    pub open spec fn spec_le(self, other: Version) -> bool {
        self.spec_lt(other) || self == other
    }

    pub fn lt(&self, other: &Version) -> (r: bool)
        ensures
            r == self.spec_lt(*other),
    {
        self.0 < other.0 || (self.0 == other.0 && self.1 < other.1) || (self.0 == other.0
            && self.1 == other.1 && self.2 < other.2)
    }

    pub fn le(&self, other: &Version) -> (r: bool)
        ensures
            r == self.spec_le(*other),
    {
        self.lt(other) || (self.0 == other.0 && self.1 == other.1 && self.2 == other.2)
    }

    pub open spec fn next_break_defined(self) -> bool {
        if self.0 == 0 {
            self.1 < u16::MAX
        } else {
            self.0 < u16::MAX
        }
    }

    /// The next version block that may break compatibility with this version
    /// under Semantic Versioning: the next minor block below 1.0, the next
    /// major block from 1.0 on.
    pub open spec fn spec_next_break(self) -> VersionBlock {
        if self.0 == 0 {
            VersionBlock::Minor(self.0, (self.1 + 1) as u16)
        } else {
            VersionBlock::Major((self.0 + 1) as u16)
        }
    }

    /// Returns the next version block that can contain breaking changes with
    /// respect to this point version.
    pub fn next_break(&self) -> (r: VersionBlock)
        requires
            self.next_break_defined(),
        ensures
            r == self.spec_next_break(),
    {
        if self.0 == 0 {
            VersionBlock::Minor(self.0, self.1 + 1)
        } else {
            VersionBlock::Major(self.0 + 1)
        }
    }

    /// Compares the version against the given version range: `Less` when it
    /// comes before the range, `Greater` when after, `Equal` when within.
    pub fn range_cmp<R: VersionRange>(&self, range: &R) -> (r: Ordering)
        requires
            range.stop_defined(),
        ensures
            r == range_order(*self, range.spec_start(), range.spec_stop()),
    {
        let below = match range.start() {
            Some(x) => self.lt(&x),
            None => false,
        };
        if below {
            return Ordering::Less;
        }
        let above = match range.stop() {
            Some(x) => x.le(self),
            None => false,
        };
        if above {
            Ordering::Greater
        } else {
            Ordering::Equal
        }
    }

    /// The characters of `x.y.z`.
    pub open spec fn spec_text(self) -> Seq<char> {
        decimal_string(self.0 as nat) + seq!['.'] + decimal_string(self.1 as nat) + seq!['.']
            + decimal_string(self.2 as nat)
    }

    /// The version as `x.y.z`.
    pub fn to_string(&self) -> (s: String)
        ensures
            s@ == self.spec_text(),
    {
        let mut v: Vec<char> = Vec::new();
        push_decimal(&mut v, self.0);
        v.push('.');
        push_decimal(&mut v, self.1);
        v.push('.');
        push_decimal(&mut v, self.2);
        string_of(v.as_slice())
    }
}

impl VersionRange for Version {
    open spec fn spec_start(&self) -> Option<Version> {
        Some(*self)
    }

    open spec fn spec_stop(&self) -> Option<Version> {
        Some(Version(self.0, self.1, (self.2 + 1) as u16))
    }

    open spec fn stop_defined(&self) -> bool {
        self.2 < u16::MAX
    }

    fn start(&self) -> (r: Option<Version>) {
        Some(*self)
    }

    fn stop(&self) -> (r: Option<Version>) {
        Some(Version(self.0, self.1, self.2 + 1))
    }
}

/// Failure to parse a version.
#[derive(Clone, Copy, Debug, PartialEq, Eq, Structural)]
pub struct ParseVersionError;

/// What parsing `s` as a point version gives: exactly three `.`-separated
/// `u16` numbers.
pub open spec fn spec_parse_version(s: Seq<char>) -> Result<Version, ParseVersionError> {
    let pieces = split_char(s, '.');
    if pieces.len() == 3 && spec_parse_u16(pieces[0]) is Some && spec_parse_u16(pieces[1]) is Some
        && spec_parse_u16(pieces[2]) is Some {
        Ok(
            Version(
                spec_parse_u16(pieces[0]).unwrap(),
                spec_parse_u16(pieces[1]).unwrap(),
                spec_parse_u16(pieces[2]).unwrap(),
            ),
        )
    } else {
        Err(ParseVersionError)
    }
}

/// Parses a point version `x.y.z`.
pub fn parse_version(s: &[char]) -> (r: Result<Version, ParseVersionError>)
    ensures
        r == spec_parse_version(s@),
{
    let pieces = split_on(s, '.');
    assert(views(pieces@) == split_char(s@, '.'));
    if pieces.len() != 3 {
        return Err(ParseVersionError);
    }
    assert(pieces@[0]@ == split_char(s@, '.')[0]);
    assert(pieces@[1]@ == split_char(s@, '.')[1]);
    assert(pieces@[2]@ == split_char(s@, '.')[2]);
    match (
        parse_u16(pieces[0].as_slice()),
        parse_u16(pieces[1].as_slice()),
        parse_u16(pieces[2].as_slice()),
    ) {
        (Some(x), Some(y), Some(z)) => Ok(Version(x, y, z)),
        _ => Err(ParseVersionError),
    }
}

impl std::str::FromStr for Version {
    type Err = ParseVersionError;

    fn from_str(s: &str) -> (r: Result<Self, Self::Err>)
        ensures
            r == spec_parse_version(s@),
    {
        parse_version(chars_of(s).as_slice())
    }
}

/// A prefixed version block: all versions that begin with the given numbers.
#[derive(Clone, Copy, Debug, PartialEq, Eq, Structural)]
pub enum VersionBlock {
    /// `x`
    Major(u16),
    /// `x.y`
    Minor(u16, u16),
    /// `x.y.z`
    Patch(u16, u16, u16),
}

impl VersionBlock {
    /// The last number of the block is not the largest possible.
    pub open spec fn successor_defined(self) -> bool {
        match self {
            VersionBlock::Major(x) => x < u16::MAX,
            VersionBlock::Minor(_, y) => y < u16::MAX,
            VersionBlock::Patch(_, _, z) => z < u16::MAX,
        }
    }

    pub open spec fn spec_successor(self) -> VersionBlock {
        match self {
            VersionBlock::Major(x) => VersionBlock::Major((x + 1) as u16),
            VersionBlock::Minor(x, y) => VersionBlock::Minor(x, (y + 1) as u16),
            VersionBlock::Patch(x, y, z) => VersionBlock::Patch(x, y, (z + 1) as u16),
        }
    }

    /// The first version of the block.
    pub open spec fn first(self) -> Version {
        match self {
            VersionBlock::Major(x) => Version(x, 0, 0),
            VersionBlock::Minor(x, y) => Version(x, y, 0),
            VersionBlock::Patch(x, y, z) => Version(x, y, z),
        }
    }

    /// The next version block of the same "size".
    pub fn successor(&self) -> (r: VersionBlock)
        requires
            self.successor_defined(),
        ensures
            r == self.spec_successor(),
    {
        match *self {
            VersionBlock::Major(x) => VersionBlock::Major(x + 1),
            VersionBlock::Minor(x, y) => VersionBlock::Minor(x, y + 1),
            VersionBlock::Patch(x, y, z) => VersionBlock::Patch(x, y, z + 1),
        }
    }

    /// The characters of `x`, `x.y` or `x.y.z`.
    pub open spec fn spec_text(self) -> Seq<char> {
        match self {
            VersionBlock::Major(x) => decimal_string(x as nat),
            VersionBlock::Minor(x, y) => decimal_string(x as nat) + seq!['.'] + decimal_string(
                y as nat,
            ),
            VersionBlock::Patch(x, y, z) => decimal_string(x as nat) + seq!['.']
                + decimal_string(y as nat) + seq!['.'] + decimal_string(z as nat),
        }
    }

    fn push_text(&self, out: &mut Vec<char>)
        ensures
            final(out)@ == old(out)@ + self.spec_text(),
    {
        match *self {
            VersionBlock::Major(x) => {
                push_decimal(out, x);
            },
            VersionBlock::Minor(x, y) => {
                push_decimal(out, x);
                out.push('.');
                push_decimal(out, y);
            },
            VersionBlock::Patch(x, y, z) => {
                push_decimal(out, x);
                out.push('.');
                push_decimal(out, y);
                out.push('.');
                push_decimal(out, z);
            },
        }
    }

    /// The block as `x`, `x.y` or `x.y.z`.
    pub fn to_string(&self) -> (s: String)
        ensures
            s@ == self.spec_text(),
    {
        let mut v: Vec<char> = Vec::new();
        self.push_text(&mut v);
        assert(v@ == self.spec_text());
        string_of(v.as_slice())
    }
}

impl VersionRange for VersionBlock {
    open spec fn spec_start(&self) -> Option<Version> {
        Some(self.first())
    }

    open spec fn spec_stop(&self) -> Option<Version> {
        Some(self.spec_successor().first())
    }

    open spec fn stop_defined(&self) -> bool {
        self.successor_defined()
    }

    fn start(&self) -> (r: Option<Version>) {
        match *self {
            VersionBlock::Major(x) => Some(Version(x, 0, 0)),
            VersionBlock::Minor(x, y) => Some(Version(x, y, 0)),
            VersionBlock::Patch(x, y, z) => Some(Version(x, y, z)),
        }
    }

    fn stop(&self) -> (r: Option<Version>) {
        self.successor().start()
    }
}

/// Failure to parse a version block.
#[derive(Clone, Copy, Debug, PartialEq, Eq, Structural)]
pub struct ParseVersionBlockError;

/// The block of one, two or three parsed numbers.
pub open spec fn block_of(pieces: Seq<Seq<char>>) -> VersionBlock {
    if pieces.len() == 1 {
        VersionBlock::Major(spec_parse_u16(pieces[0]).unwrap())
    } else if pieces.len() == 2 {
        VersionBlock::Minor(spec_parse_u16(pieces[0]).unwrap(), spec_parse_u16(pieces[1]).unwrap())
    } else {
        VersionBlock::Patch(
            spec_parse_u16(pieces[0]).unwrap(),
            spec_parse_u16(pieces[1]).unwrap(),
            spec_parse_u16(pieces[2]).unwrap(),
        )
    }
}

/// What parsing `s` as a version block gives: one to three `.`-separated
/// `u16` numbers.
pub open spec fn spec_parse_block(s: Seq<char>) -> Result<VersionBlock, ParseVersionBlockError> {
    let pieces = split_char(s, '.');
    if 1 <= pieces.len() <= 3 && forall|i: int|
        0 <= i < pieces.len() ==> spec_parse_u16(#[trigger] pieces[i]) is Some {
        Ok(block_of(pieces))
    } else {
        Err(ParseVersionBlockError)
    }
}

/// Parses a version block `x`, `x.y` or `x.y.z`.
pub fn parse_block(s: &[char]) -> (r: Result<VersionBlock, ParseVersionBlockError>)
    ensures
        r == spec_parse_block(s@),
{
    let pieces = split_on(s, '.');
    let ghost ps = split_char(s@, '.');
    assert(views(pieces@) == ps);
    let n = pieces.len();
    if n < 1 || n > 3 {
        return Err(ParseVersionBlockError);
    }
    let mut nums: Vec<u16> = Vec::new();
    let mut i: usize = 0;
    while i < n
        invariant
            n == pieces.len(),
            1 <= n <= 3,
            i <= n,
            ps == views(pieces@),
            ps == split_char(s@, '.'),
            nums.len() == i,
            forall|j: int| 0 <= j < i ==> spec_parse_u16(#[trigger] ps[j]) == Some(nums@[j]),
        decreases n - i,
    {
        assert(pieces@[i as int]@ == ps[i as int]);
        match parse_u16(pieces[i].as_slice()) {
            Some(x) => nums.push(x),
            None => {
                assert(spec_parse_u16(ps[i as int]) is None);
                return Err(ParseVersionBlockError);
            },
        }
        i = i + 1;
    }
    if n == 1 {
        Ok(VersionBlock::Major(nums[0]))
    } else if n == 2 {
        Ok(VersionBlock::Minor(nums[0], nums[1]))
    } else {
        Ok(VersionBlock::Patch(nums[0], nums[1], nums[2]))
    }
}

impl std::str::FromStr for VersionBlock {
    type Err = ParseVersionBlockError;

    fn from_str(s: &str) -> (r: Result<Self, Self::Err>)
        ensures
            r == spec_parse_block(s@),
    {
        parse_block(chars_of(s).as_slice())
    }
}

/// A contiguous version range that may span several version blocks.
#[derive(Clone, Copy, Debug, PartialEq, Eq, Structural)]
pub enum VersionExpr {
    /// From the given minimum version up to the next breaking version
    /// according to Semantic Versioning.
    MinSemVer(VersionBlock),
    /// `from..to`
    RangeExcl(VersionBlock, VersionBlock),
    /// `from..=to`
    RangeIncl(VersionBlock, VersionBlock),
    /// `from..`
    From(VersionBlock),
    /// `..to`
    UpToExcl(VersionBlock),
    /// `..=to`
    UpToIncl(VersionBlock),
}

impl VersionRange for VersionExpr {
    open spec fn spec_start(&self) -> Option<Version> {
        match *self {
            VersionExpr::MinSemVer(b) => Some(b.first()),
            VersionExpr::RangeExcl(b, _) => Some(b.first()),
            VersionExpr::RangeIncl(b, _) => Some(b.first()),
            VersionExpr::From(b) => Some(b.first()),
            VersionExpr::UpToExcl(_) => None,
            VersionExpr::UpToIncl(_) => None,
        }
    }

    open spec fn spec_stop(&self) -> Option<Version> {
        match *self {
            VersionExpr::MinSemVer(b) => Some(b.first().spec_next_break().first()),
            VersionExpr::RangeExcl(_, b) => Some(b.first()),
            VersionExpr::RangeIncl(_, b) => Some(b.spec_successor().first()),
            VersionExpr::From(_) => None,
            VersionExpr::UpToExcl(b) => Some(b.first()),
            VersionExpr::UpToIncl(b) => Some(b.spec_successor().first()),
        }
    }

    open spec fn stop_defined(&self) -> bool {
        match *self {
            VersionExpr::MinSemVer(b) => b.first().next_break_defined(),
            VersionExpr::RangeIncl(_, b) => b.successor_defined(),
            VersionExpr::UpToIncl(b) => b.successor_defined(),
            _ => true,
        }
    }

    fn start(&self) -> (r: Option<Version>) {
        match self {
            VersionExpr::MinSemVer(b) => b.start(),
            VersionExpr::RangeExcl(b, _) => b.start(),
            VersionExpr::RangeIncl(b, _) => b.start(),
            VersionExpr::From(b) => b.start(),
            VersionExpr::UpToExcl(_) => None,
            VersionExpr::UpToIncl(_) => None,
        }
    }

    fn stop(&self) -> (r: Option<Version>) {
        match self {
            VersionExpr::MinSemVer(b) => {
                let first = match b.start() {
                    Some(v) => v,
                    None => Version(0, 0, 0),
                };
                first.next_break().start()
            },
            VersionExpr::RangeExcl(_, b) => b.start(),
            VersionExpr::RangeIncl(_, b) => b.stop(),
            VersionExpr::From(_) => None,
            VersionExpr::UpToExcl(b) => b.start(),
            VersionExpr::UpToIncl(b) => b.stop(),
        }
    }
}

fn block_successor_fits(b: &VersionBlock) -> (r: bool)
    ensures
        r == b.successor_defined(),
{
    match *b {
        VersionBlock::Major(x) => x < u16::MAX,
        VersionBlock::Minor(_, y) => y < u16::MAX,
        VersionBlock::Patch(_, _, z) => z < u16::MAX,
    }
}

impl VersionExpr {
    /// Whether the end of the range can be written as a version: an
    /// inclusive end, or the implied end of a minimum version, must not be
    /// the largest number of its part.
    pub fn stop_fits(&self) -> (r: bool)
        ensures
            r == self.stop_defined(),
    {
        match self {
            VersionExpr::MinSemVer(b) => {
                let (x, y) = match *b {
                    VersionBlock::Major(x) => (x, 0u16),
                    VersionBlock::Minor(x, y) => (x, y),
                    VersionBlock::Patch(x, y, _) => (x, y),
                };
                if x == 0 {
                    y < u16::MAX
                } else {
                    x < u16::MAX
                }
            },
            VersionExpr::RangeIncl(_, b) => block_successor_fits(b),
            VersionExpr::UpToIncl(b) => block_successor_fits(b),
            _ => true,
        }
    }

    /// The characters of the expression in range syntax; a minimum version
    /// is shown with its implied upper bound.
    pub open spec fn spec_text(self) -> Seq<char> {
        match self {
            VersionExpr::MinSemVer(b) => b.spec_text() + seq!['.', '.']
                + b.first().spec_next_break().spec_text(),
            VersionExpr::RangeExcl(b, e) => b.spec_text() + seq!['.', '.'] + e.spec_text(),
            VersionExpr::RangeIncl(b, e) => b.spec_text() + seq!['.', '.', '='] + e.spec_text(),
            VersionExpr::From(b) => b.spec_text() + seq!['.', '.'],
            VersionExpr::UpToExcl(e) => seq!['.', '.'] + e.spec_text(),
            VersionExpr::UpToIncl(e) => seq!['.', '.', '='] + e.spec_text(),
        }
    }

    /// The expression in range syntax (`1.2..2`, `..=4.5`, ...).
    pub fn to_string(&self) -> (s: String)
        requires
            self matches VersionExpr::MinSemVer(b) ==> b.first().next_break_defined(),
        ensures
            s@ == self.spec_text(),
    {
        let mut v: Vec<char> = Vec::new();
        match *self {
            VersionExpr::MinSemVer(b) => {
                b.push_text(&mut v);
                v.push('.');
                v.push('.');
                let first = match b.start() {
                    Some(x) => x,
                    None => Version(0, 0, 0),
                };
                first.next_break().push_text(&mut v);
            },
            VersionExpr::RangeExcl(b, e) => {
                b.push_text(&mut v);
                v.push('.');
                v.push('.');
                e.push_text(&mut v);
            },
            VersionExpr::RangeIncl(b, e) => {
                b.push_text(&mut v);
                v.push('.');
                v.push('.');
                v.push('=');
                e.push_text(&mut v);
            },
            VersionExpr::From(b) => {
                b.push_text(&mut v);
                v.push('.');
                v.push('.');
            },
            VersionExpr::UpToExcl(e) => {
                v.push('.');
                v.push('.');
                e.push_text(&mut v);
            },
            VersionExpr::UpToIncl(e) => {
                v.push('.');
                v.push('.');
                v.push('=');
                e.push_text(&mut v);
            },
        }
        assert(v@ =~= self.spec_text());
        string_of(v.as_slice())
    }
}

/// Failure to parse a version expression.
#[derive(Clone, Copy, Debug, PartialEq, Eq, Structural)]
pub struct ParseVersionExprError;

/// An optional block: empty text is no block, anything else must parse.
pub open spec fn spec_parse_opt_block(s: Seq<char>) -> Result<Option<VersionBlock>, ParseVersionExprError> {
    if s.len() == 0 {
        Ok(None)
    } else {
        match spec_parse_block(s) {
            Ok(b) => Ok(Some(b)),
            Err(_) => Err(ParseVersionExprError),
        }
    }
}

/// What parsing `s` as a version expression gives.  The first `..=` splits an
/// inclusive range, otherwise the first `..` an exclusive one; a lone block
/// is a minimum version.
pub open spec fn spec_parse_expr(s: Seq<char>) -> Result<VersionExpr, ParseVersionExprError> {
    match find_pattern_from(s, seq!['.', '.', '='], 0) {
        Some(i) => match (spec_parse_opt_block(s.take(i)), spec_parse_block(s.skip(i + 3))) {
            (Ok(Some(b)), Ok(e)) => Ok(VersionExpr::RangeIncl(b, e)),
            (Ok(None), Ok(e)) => Ok(VersionExpr::UpToIncl(e)),
            _ => Err(ParseVersionExprError),
        },
        None => match find_pattern_from(s, seq!['.', '.'], 0) {
            Some(i) => match (spec_parse_opt_block(s.take(i)), spec_parse_opt_block(s.skip(i + 2))) {
                (Ok(Some(b)), Ok(None)) => Ok(VersionExpr::From(b)),
                (Ok(None), Ok(Some(e))) => Ok(VersionExpr::UpToExcl(e)),
                (Ok(Some(b)), Ok(Some(e))) => Ok(VersionExpr::RangeExcl(b, e)),
                _ => Err(ParseVersionExprError),
            },
            None => match spec_parse_block(s) {
                Ok(b) => Ok(VersionExpr::MinSemVer(b)),
                Err(_) => Err(ParseVersionExprError),
            },
        },
    }
}

fn parse_opt_block(s: &[char]) -> (r: Result<Option<VersionBlock>, ParseVersionExprError>)
    ensures
        r == spec_parse_opt_block(s@),
{
    if s.len() == 0 {
        Ok(None)
    } else {
        match parse_block(s) {
            Ok(b) => Ok(Some(b)),
            Err(_) => Err(ParseVersionExprError),
        }
    }
}

/// Parses a version expression: `x[.y[.z]]`, `from..to`, `from..=to`,
/// `from..`, `..to` or `..=to`.
pub fn parse_expr(s: &[char]) -> (r: Result<VersionExpr, ParseVersionExprError>)
    ensures
        r == spec_parse_expr(s@),
{
    let incl = vec!['.', '.', '='];
    let excl = vec!['.', '.'];
    assert(incl@ == seq!['.', '.', '=']);
    assert(excl@ == seq!['.', '.']);
    proof {
        lemma_find_pattern_bounds(s@, incl@, 0);
        lemma_find_pattern_bounds(s@, excl@, 0);
    }
    match find_pattern(s, incl.as_slice()) {
        Some(i) => {
            assert(incl@.len() == 3);
            let start = copy_range(s, 0, i);
            let end = copy_range(s, i + 3, s.len());
            assert(start@ == s@.take(i as int));
            assert(end@ == s@.skip(i + 3));
            match (parse_opt_block(start.as_slice()), parse_block(end.as_slice())) {
                (Ok(Some(b)), Ok(e)) => Ok(VersionExpr::RangeIncl(b, e)),
                (Ok(None), Ok(e)) => Ok(VersionExpr::UpToIncl(e)),
                _ => Err(ParseVersionExprError),
            }
        },
        None => match find_pattern(s, excl.as_slice()) {
            Some(i) => {
                assert(excl@.len() == 2);
                let start = copy_range(s, 0, i);
                let end = copy_range(s, i + 2, s.len());
                assert(start@ == s@.take(i as int));
                assert(end@ == s@.skip(i + 2));
                match (parse_opt_block(start.as_slice()), parse_opt_block(end.as_slice())) {
                    (Ok(Some(b)), Ok(None)) => Ok(VersionExpr::From(b)),
                    (Ok(None), Ok(Some(e))) => Ok(VersionExpr::UpToExcl(e)),
                    (Ok(Some(b)), Ok(Some(e))) => Ok(VersionExpr::RangeExcl(b, e)),
                    _ => Err(ParseVersionExprError),
                }
            },
            None => match parse_block(s) {
                Ok(b) => Ok(VersionExpr::MinSemVer(b)),
                Err(_) => Err(ParseVersionExprError),
            },
        },
    }
}

impl std::str::FromStr for VersionExpr {
    type Err = ParseVersionExprError;

    fn from_str(s: &str) -> (r: Result<Self, Self::Err>)
        ensures
            r == spec_parse_expr(s@),
    {
        parse_expr(chars_of(s).as_slice())
    }
}

/// A version reads back from its text as itself.
pub proof fn lemma_version_text_round_trip(v: Version)
    ensures
        spec_parse_version(v.spec_text()) == Ok::<Version, ParseVersionError>(v),
{
    let d0 = decimal_string(v.0 as nat);
    let d1 = decimal_string(v.1 as nat);
    let d2 = decimal_string(v.2 as nat);
    lemma_decimal_no_dot(v.0 as nat);
    lemma_decimal_no_dot(v.1 as nat);
    lemma_decimal_no_dot(v.2 as nat);
    lemma_parse_u16_decimal(v.0);
    lemma_parse_u16_decimal(v.1);
    lemma_parse_u16_decimal(v.2);
    assert(v.spec_text() =~= d0 + seq!['.'] + (d1 + seq!['.'] + d2));
    lemma_split_piece(d0, d1 + seq!['.'] + d2, '.');
    lemma_split_piece(d1, d2, '.');
    lemma_split_single(d2, '.');
    assert(split_char(v.spec_text(), '.') =~= seq![d0, d1, d2]);
}

/// A version block reads back from its text as itself.
pub proof fn lemma_block_text_round_trip(b: VersionBlock)
    ensures
        spec_parse_block(b.spec_text()) == Ok::<VersionBlock, ParseVersionBlockError>(b),
{
    match b {
        VersionBlock::Major(x) => {
            let d0 = decimal_string(x as nat);
            lemma_decimal_no_dot(x as nat);
            lemma_parse_u16_decimal(x);
            lemma_split_single(d0, '.');
            assert(split_char(b.spec_text(), '.') =~= seq![d0]);
        },
        VersionBlock::Minor(x, y) => {
            let d0 = decimal_string(x as nat);
            let d1 = decimal_string(y as nat);
            lemma_decimal_no_dot(x as nat);
            lemma_decimal_no_dot(y as nat);
            lemma_parse_u16_decimal(x);
            lemma_parse_u16_decimal(y);
            lemma_split_piece(d0, d1, '.');
            lemma_split_single(d1, '.');
            assert(split_char(b.spec_text(), '.') =~= seq![d0, d1]);
        },
        VersionBlock::Patch(x, y, z) => {
            let d0 = decimal_string(x as nat);
            let d1 = decimal_string(y as nat);
            let d2 = decimal_string(z as nat);
            lemma_decimal_no_dot(x as nat);
            lemma_decimal_no_dot(y as nat);
            lemma_decimal_no_dot(z as nat);
            lemma_parse_u16_decimal(x);
            lemma_parse_u16_decimal(y);
            lemma_parse_u16_decimal(z);
            assert(b.spec_text() =~= d0 + seq!['.'] + (d1 + seq!['.'] + d2));
            lemma_split_piece(d0, d1 + seq!['.'] + d2, '.');
            lemma_split_piece(d1, d2, '.');
            lemma_split_single(d2, '.');
            assert(split_char(b.spec_text(), '.') =~= seq![d0, d1, d2]);
        },
    }
}

/// Text that starts with neither `.` nor `=`, does not end with `.`, and has
/// no two `.` in a row: the shape of a block's text.
spec fn dot_separated(s: Seq<char>) -> bool {
    &&& s.len() > 0
    &&& s[0] != '.' && s[0] != '='
    &&& s[s.len() - 1] != '.'
    &&& forall|k: int| 0 <= k < s.len() - 1 ==> !(#[trigger] s[k] == '.' && s[k + 1] == '.')
}

proof fn lemma_decimal_dot_separated(n: nat)
    ensures
        dot_separated(decimal_string(n)),
{
    lemma_decimal_string_parses(n);
    let s = decimal_string(n);
    assert(is_digit_char(s[0]));
    assert(is_digit_char(s[s.len() - 1]));
    assert forall|k: int| 0 <= k < s.len() - 1 implies !(#[trigger] s[k] == '.' && s[k + 1] == '.') by {
        assert(is_digit_char(s[k]));
    }
}

proof fn lemma_join_dot(a: Seq<char>, b: Seq<char>)
    requires
        dot_separated(a),
        dot_separated(b),
    ensures
        dot_separated(a + seq!['.'] + b),
{
    let s = a + seq!['.'] + b;
    assert(s[0] == a[0]);
    assert(s[s.len() - 1] == b[b.len() - 1]);
    assert forall|k: int| 0 <= k < s.len() - 1 implies !(#[trigger] s[k] == '.' && s[k + 1] == '.') by {
        if k < a.len() - 1 {
            assert(s[k] == a[k] && s[k + 1] == a[k + 1]);
        } else if k == a.len() - 1 {
            assert(s[k] == a[k]);
        } else if k == a.len() {
            assert(s[k + 1] == b[0]);
        } else {
            assert(s[k] == b[k - a.len() - 1] && s[k + 1] == b[k - a.len()]);
        }
    }
}

proof fn lemma_block_dot_separated(b: VersionBlock)
    ensures
        dot_separated(b.spec_text()),
{
    match b {
        VersionBlock::Major(x) => {
            lemma_decimal_dot_separated(x as nat);
        },
        VersionBlock::Minor(x, y) => {
            lemma_decimal_dot_separated(x as nat);
            lemma_decimal_dot_separated(y as nat);
            lemma_join_dot(decimal_string(x as nat), decimal_string(y as nat));
        },
        VersionBlock::Patch(x, y, z) => {
            let d0 = decimal_string(x as nat);
            let d1 = decimal_string(y as nat);
            let d2 = decimal_string(z as nat);
            lemma_decimal_dot_separated(x as nat);
            lemma_decimal_dot_separated(y as nat);
            lemma_decimal_dot_separated(z as nat);
            lemma_join_dot(d0, d1);
            lemma_join_dot(d0 + seq!['.'] + d1, d2);
        },
    }
}

/// The first occurrence of `pat` at or after `i` is at `j` when none comes
/// between; there is none when `pat` does not fit at `j` either.
proof fn lemma_find_pattern_first(s: Seq<char>, pat: Seq<char>, i: int, j: int)
    requires
        pat.len() > 0,
        0 <= i <= j,
        forall|k: int|
            i <= k < j && k + pat.len() <= s.len() ==> #[trigger] s.subrange(k, k + pat.len())
                != pat,
    ensures
        j + pat.len() <= s.len() && s.subrange(j, j + pat.len()) == pat ==> find_pattern_from(
            s,
            pat,
            i,
        ) == Some(j),
        j + pat.len() > s.len() ==> find_pattern_from(s, pat, i) is None,
    decreases j - i,
{
    if i < j {
        if !(i >= s.len() || i + pat.len() > s.len()) {
            assert(s.subrange(i, i + pat.len()) != pat);
            lemma_find_pattern_first(s, pat, i + 1, j);
        }
    }
}

/// Neither `..` nor `..=` starts inside a block's text.
proof fn lemma_no_range_mark(t: Seq<char>, s: Seq<char>, at: int)
    requires
        dot_separated(t),
        0 <= at,
        at + t.len() <= s.len(),
        s.subrange(at, at + t.len()) == t,
    ensures
        forall|k: int|
            at <= k < at + t.len() && k + 2 <= s.len() ==> #[trigger] s.subrange(k, k + 2) != seq![
                '.',
                '.',
            ],
        forall|k: int|
            at <= k < at + t.len() && k + 3 <= s.len() ==> #[trigger] s.subrange(k, k + 3) != seq![
                '.',
                '.',
                '=',
            ],
{
    assert forall|k: int| at <= k < at + t.len() && k + 1 < s.len() implies !(#[trigger] s[k] == '.' && s[k
        + 1] == '.') by {
        if k < at + t.len() - 1 {
            assert(s[k] == t[k - at] && s[k + 1] == t[k - at + 1]);
        } else {
            assert(s[k] == t[t.len() - 1]);
        }
    }
    assert forall|k: int|
        at <= k < at + t.len() && k + 2 <= s.len() implies #[trigger] s.subrange(k, k + 2) != seq![
        '.',
        '.',
    ] by {
        assert(s.subrange(k, k + 2)[0] == s[k] && s.subrange(k, k + 2)[1] == s[k + 1]);
    }
    assert forall|k: int|
        at <= k < at + t.len() && k + 3 <= s.len() implies #[trigger] s.subrange(k, k + 3) != seq![
        '.',
        '.',
        '=',
    ] by {
        assert(s.subrange(k, k + 3)[0] == s[k] && s.subrange(k, k + 3)[1] == s[k + 1]);
    }
}

/// The text of `b`, then `..`, then the text of `e`, holds no `..=` and
/// splits at its first `..` into the two blocks.
proof fn lemma_excl_text(b: VersionBlock, e: VersionBlock)
    ensures
        spec_parse_expr(b.spec_text() + seq!['.', '.'] + e.spec_text()) == Ok::<
            VersionExpr,
            ParseVersionExprError,
        >(VersionExpr::RangeExcl(b, e)),
{
    let bt = b.spec_text();
    let et = e.spec_text();
    let s = bt + seq!['.', '.'] + et;
    let i = bt.len() as int;
    let incl = seq!['.', '.', '='];
    let excl = seq!['.', '.'];
    lemma_block_dot_separated(b);
    lemma_block_dot_separated(e);
    lemma_block_text_round_trip(b);
    lemma_block_text_round_trip(e);
    assert(s.subrange(0, i) =~= bt);
    assert(s.subrange(i + 2, s.len() as int) =~= et);
    lemma_no_range_mark(bt, s, 0);
    lemma_no_range_mark(et, s, i + 2);
    assert(s[i] == '.' && s[i + 1] == '.' && s[i + 2] == et[0]);
    assert forall|k: int|
        0 <= k < s.len() && k + incl.len() <= s.len() implies #[trigger] s.subrange(
        k,
        k + incl.len(),
    ) != incl by {
        if k == i || k == i + 1 {
            assert(s.subrange(k, k + 3)[1] == s[k + 1] && s.subrange(k, k + 3)[2] == s[k + 2]);
        }
    }
    lemma_find_pattern_first(s, incl, 0, s.len() as int);
    assert(s.subrange(i, i + 2) =~= excl);
    lemma_find_pattern_first(s, excl, 0, i);
    assert(s.take(i) =~= bt);
    assert(s.skip(i + 2) =~= et);
}

/// An expression's text reads back as the same range: as the expression
/// itself, or, for a minimum version, as the exclusive range up to its next
/// breaking version that the text spells out.
pub proof fn lemma_expr_text_round_trip(e: VersionExpr)
    ensures
        spec_parse_expr(e.spec_text()) == Ok::<VersionExpr, ParseVersionExprError>(match e {
            VersionExpr::MinSemVer(b) => VersionExpr::RangeExcl(b, b.first().spec_next_break()),
            _ => e,
        }),
        spec_parse_expr(e.spec_text()) matches Ok(f) && f.spec_start() == e.spec_start()
            && f.spec_stop() == e.spec_stop(),
{
    let incl = seq!['.', '.', '='];
    let excl = seq!['.', '.'];
    let s = e.spec_text();
    match e {
        VersionExpr::MinSemVer(b) => {
            lemma_excl_text(b, b.first().spec_next_break());
        },
        VersionExpr::RangeExcl(b, x) => {
            lemma_excl_text(b, x);
        },
        VersionExpr::RangeIncl(b, x) => {
            let bt = b.spec_text();
            let xt = x.spec_text();
            let i = bt.len() as int;
            lemma_block_dot_separated(b);
            lemma_block_text_round_trip(b);
            lemma_block_text_round_trip(x);
            assert(s.subrange(0, i) =~= bt);
            lemma_no_range_mark(bt, s, 0);
            assert(s.subrange(i, i + 3) =~= incl);
            lemma_find_pattern_first(s, incl, 0, i);
            assert(s.take(i) =~= bt);
            assert(s.skip(i + 3) =~= xt);
        },
        VersionExpr::From(b) => {
            let bt = b.spec_text();
            let i = bt.len() as int;
            lemma_block_dot_separated(b);
            lemma_block_text_round_trip(b);
            assert(s.subrange(0, i) =~= bt);
            lemma_no_range_mark(bt, s, 0);
            lemma_find_pattern_first(s, incl, 0, i);
            assert(s.subrange(i, i + 2) =~= excl);
            lemma_find_pattern_first(s, excl, 0, i);
            assert(s.take(i) =~= bt);
            assert(s.skip(i + 2) =~= Seq::<char>::empty());
        },
        VersionExpr::UpToExcl(x) => {
            let xt = x.spec_text();
            lemma_block_dot_separated(x);
            lemma_block_text_round_trip(x);
            assert(s.subrange(2, s.len() as int) =~= xt);
            lemma_no_range_mark(xt, s, 2);
            assert(s[0] == '.' && s[1] == '.' && s[2] == xt[0]);
            assert forall|k: int|
                0 <= k < s.len() && k + incl.len() <= s.len() implies #[trigger] s.subrange(
                k,
                k + incl.len(),
            ) != incl by {
                if k < 2 {
                    assert(s.subrange(k, k + 3)[1] == s[k + 1] && s.subrange(k, k + 3)[2] == s[k
                        + 2]);
                }
            }
            lemma_find_pattern_first(s, incl, 0, s.len() as int);
            assert(s.subrange(0, 2) =~= excl);
            lemma_find_pattern_first(s, excl, 0, 0);
            assert(s.take(0) =~= Seq::<char>::empty());
            assert(s.skip(2) =~= xt);
        },
        VersionExpr::UpToIncl(x) => {
            let xt = x.spec_text();
            lemma_block_text_round_trip(x);
            assert(s.subrange(0, 3) =~= incl);
            lemma_find_pattern_first(s, incl, 0, 0);
            assert(s.take(0) =~= Seq::<char>::empty());
            assert(s.skip(3) =~= xt);
        },
    }
}

/// A version is placed relative to a sound range exactly by where it lies:
/// below the start, at or above the stop, or in between.
pub proof fn lemma_range_cmp_classifies(v: Version, start: Option<Version>, stop: Option<Version>)
    requires
        spec_sound(start, stop),
    ensures
        (range_order(v, start, stop) == Ordering::Less) <==> (start matches Some(a)
            && v.spec_lt(a)),
        (range_order(v, start, stop) == Ordering::Greater) <==> (stop matches Some(b)
            && b.spec_le(v)),
        (range_order(v, start, stop) == Ordering::Equal) <==> ((start matches Some(a)
            ==> a.spec_le(v)) && (stop matches Some(b) ==> v.spec_lt(b))),
{
}

/// The place of an ordering in `Less < Equal < Greater`.
pub open spec fn ordering_rank(o: Ordering) -> int {
    match o {
        Ordering::Less => 0,
        Ordering::Equal => 1,
        Ordering::Greater => 2,
    }
}

/// Placing versions against a range is monotone: a version that is not
/// greater than another is placed no higher against any range.
pub proof fn lemma_range_cmp_monotone(
    v1: Version,
    v2: Version,
    start: Option<Version>,
    stop: Option<Version>,
)
    requires
        v1.spec_le(v2),
    ensures
        ordering_rank(range_order(v1, start, stop)) <= ordering_rank(range_order(v2, start, stop)),
{
}

/// Every version block is a sound, non-empty range: it starts strictly before
/// it stops.
pub proof fn lemma_block_nonempty(b: VersionBlock)
    requires
        b.successor_defined(),
    ensures
        b.first().spec_lt(b.spec_successor().first()),
        spec_sound(b.spec_start(), b.spec_stop()),
        range_order(b.first(), b.spec_start(), b.spec_stop()) == Ordering::Equal,
{
}

/// The next breaking version lies strictly above the version, so a minimum
/// version expression always contains its own minimum.
pub proof fn lemma_next_break_above(v: Version)
    requires
        v.next_break_defined(),
    ensures
        v.spec_lt(v.spec_next_break().first()),
        forall|b: VersionBlock|
            b.first() == v ==> range_order(
                v,
                #[trigger] VersionExpr::MinSemVer(b).spec_start(),
                VersionExpr::MinSemVer(b).spec_stop(),
            ) == Ordering::Equal,
{
}

} // verus!
