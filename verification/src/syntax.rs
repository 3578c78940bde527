//! Parsed regex patterns.

use crate::syntax::Kind::{Bytes, Chars, Other};
use crate::util::{copied, same_bytes};
use regex_syntax::hir::Class::{Bytes as OfBytes, Unicode as OfChars};
use regex_syntax::hir::Hir;
use regex_syntax::hir::HirKind::{
    Alternation, Capture, Class, Concat, Empty, Literal, Look, Repetition,
};
use regex_syntax::hir::Look::{End, Start};
use regex_syntax::utf8::Utf8Sequences;
use regex_syntax::ParserBuilder;
use vstd::prelude::*;

verus! {

/// A parsed pattern, as the `regex-syntax` crate holds it.
#[verifier::external_type_specification]
#[verifier::external_body]
pub struct ExHir(Hir);

/// How patterns are parsed.
#[derive(Clone, Copy, PartialEq, Eq, Structural)]
pub struct ParserFlags {
    pub unicode: bool,
    pub utf8: bool,
    pub ignore_whitespace: bool,
    pub case_insensitive: bool,
    pub dot_matches_new_line: bool,
}

/// How patterns are parsed unless asked for otherwise.
pub open spec fn default_flags() -> ParserFlags {
    ParserFlags {
        unicode: true,
        utf8: true,
        ignore_whitespace: false,
        case_insensitive: false,
        dot_matches_new_line: false,
    }
}

/// What stands at the top of a parsed pattern.
pub enum Kind {
    /// Matches the empty string.
    Empty,
    /// Matches these bytes.
    Literal(Vec<u8>),
    /// Matches a byte of one of the ranges.
    Bytes(Vec<(u8, u8)>),
    /// Matches a character of one of the ranges.
    Chars(Vec<(char, char)>),
    /// Matches at the start of the text.
    Start,
    /// Matches at the end of the text.
    End,
    /// Another condition on the surroundings of a match.
    Other,
    /// Matches a number of strings of the one part.
    Repetition(u32, Option<u32>),
    /// Matches what the one part matches, and may name it.
    Capture(Option<String>),
    /// Matches strings of the parts, one after another.
    Concat,
    /// Matches what one of the parts matches.
    Alternation,
}

/// What a [`Kind`] holds.
pub enum KindView {
    Empty,
    Literal(Seq<u8>),
    Bytes(Seq<(u8, u8)>),
    Chars(Seq<(char, char)>),
    Start,
    End,
    Other,
    Repetition(u32, Option<u32>),
    Capture(Option<Seq<char>>),
    Concat,
    Alternation,
}

impl View for Kind {
    type V = KindView;

    open spec fn view(&self) -> KindView {
        match self {
            Kind::Empty => KindView::Empty,
            Kind::Literal(bytes) => KindView::Literal(bytes@),
            Kind::Bytes(ranges) => KindView::Bytes(ranges@),
            Kind::Chars(ranges) => KindView::Chars(ranges@),
            Kind::Start => KindView::Start,
            Kind::End => KindView::End,
            Kind::Other => KindView::Other,
            Kind::Repetition(min, max) => KindView::Repetition(*min, *max),
            Kind::Capture(name) => KindView::Capture(
                match name {
                    Some(name) => Some(name@),
                    None => None,
                },
            ),
            Kind::Concat => KindView::Concat,
            Kind::Alternation => KindView::Alternation,
        }
    }
}

/// A parsed pattern: what stands at its top, and its parts.
pub struct Syntax {
    pub kind: KindView,
    pub subs: Seq<Syntax>,
}

/// A parsed pattern: what stands at its top, and its parts.
pub struct Pattern {
    pub kind: Kind,
    pub subs: Vec<Pattern>,
}

/// What a [`Pattern`] holds.
pub open spec fn pattern_view(p: Pattern) -> Syntax
    decreases p,
{
    Syntax {
        kind: p.kind@,
        subs: Seq::new(
            p.subs@.len(),
            |i: int|
                if 0 <= i < p.subs@.len() {
                    pattern_view(p.subs@[i])
                } else {
                    arbitrary()
                },
        ),
    }
}

impl View for Pattern {
    type V = Syntax;

    open spec fn view(&self) -> Syntax {
        pattern_view(*self)
    }
}

/// The parts of what a pattern holds are what its parts hold.
pub proof fn pattern_parts(p: Pattern)
    ensures
        p@.subs.len() == p.subs@.len(),
        forall|k: int| 0 <= k < p.subs@.len() ==> (#[trigger] p.subs@[k])@ == p@.subs[k],
{
}

/// A copy of what stands at the top of a parsed pattern.
pub(crate) fn copied_kind(kind: &Kind) -> (r: Kind)
    ensures
        r@ == kind@,
{
    match kind {
        Kind::Empty => Kind::Empty,
        Kind::Literal(bytes) => Kind::Literal(copied(bytes.as_slice())),
        Kind::Bytes(ranges) => Kind::Bytes(copied(ranges.as_slice())),
        Kind::Chars(ranges) => Kind::Chars(copied(ranges.as_slice())),
        Kind::Start => Kind::Start,
        Kind::End => Kind::End,
        Kind::Other => Kind::Other,
        Kind::Repetition(min, max) => Kind::Repetition(*min, *max),
        Kind::Capture(name) => Kind::Capture(
            match name {
                Some(name) => Some(name.clone()),
                None => None,
            },
        ),
        Kind::Concat => Kind::Concat,
        Kind::Alternation => Kind::Alternation,
    }
}

/// A copy of several parsed patterns.
pub fn copied_patterns(v: &[Pattern]) -> (r: Vec<Pattern>)
    ensures
        views(r@) == views(v@),
    decreases v@,
{
    let mut r: Vec<Pattern> = Vec::new();
    let mut k: usize = 0;
    while k < v.len()
        invariant
            k <= v@.len(),
            r@.len() == k,
            forall|n: int| 0 <= n < k ==> (#[trigger] r@[n])@ == v@[n]@,
        decreases v@.len() - k,
    {
        r.push(copied_pattern(&v[k]));
        k = k + 1;
    }
    assert(views(r@) =~= views(v@));
    r
}

/// A copy of a parsed pattern.
pub fn copied_pattern(p: &Pattern) -> (r: Pattern)
    ensures
        r@ == p@,
    decreases p,
{
    let kind: Kind = copied_kind(&p.kind);
    let subs: Vec<Pattern> = copied_patterns(p.subs.as_slice());
    let r: Pattern = Pattern { kind, subs };
    proof {
        pattern_views(r);
        pattern_views(*p);
    }
    r
}

/// What several parsed patterns hold.
pub open spec fn views(v: Seq<Pattern>) -> Seq<Syntax> {
    v.map_values(|p: Pattern| p@)
}

/// The parts of what a pattern holds are what its parts hold.
pub proof fn pattern_views(p: Pattern)
    ensures
        p@.kind == p.kind@,
        p@.subs == views(p.subs@),
{
    assert(p@.subs =~= views(p.subs@));
}

/// Whether two ranges of bytes are the same.
fn same_byte_ranges(a: &[(u8, u8)], b: &[(u8, u8)]) -> (r: bool)
    ensures
        r == (a@ == b@),
{
    if a.len() != b.len() {
        return false;
    }
    let mut i: usize = 0;
    while i < a.len()
        invariant
            i <= a@.len(),
            a@.len() == b@.len(),
            forall|k: int| 0 <= k < i ==> a@[k] == b@[k],
        decreases a@.len() - i,
    {
        if a[i].0 != b[i].0 || a[i].1 != b[i].1 {
            return false;
        }
        i = i + 1;
    }
    assert(a@ =~= b@);
    true
}

/// Whether two ranges of characters are the same.
fn same_char_ranges(a: &[(char, char)], b: &[(char, char)]) -> (r: bool)
    ensures
        r == (a@ == b@),
{
    if a.len() != b.len() {
        return false;
    }
    let mut i: usize = 0;
    while i < a.len()
        invariant
            i <= a@.len(),
            a@.len() == b@.len(),
            forall|k: int| 0 <= k < i ==> a@[k] == b@[k],
        decreases a@.len() - i,
    {
        if a[i].0 != b[i].0 || a[i].1 != b[i].1 {
            return false;
        }
        i = i + 1;
    }
    assert(a@ =~= b@);
    true
}

/// Whether the same stands at the top of two parsed patterns.
fn same_kind(a: &Kind, b: &Kind) -> (r: bool)
    ensures
        r == (a@ == b@),
{
    match (a, b) {
        (Kind::Empty, Kind::Empty) => true,
        (Kind::Literal(x), Kind::Literal(y)) => same_bytes(x.as_slice(), y.as_slice()),
        (Kind::Bytes(x), Kind::Bytes(y)) => same_byte_ranges(x.as_slice(), y.as_slice()),
        (Kind::Chars(x), Kind::Chars(y)) => same_char_ranges(x.as_slice(), y.as_slice()),
        (Kind::Start, Kind::Start) => true,
        (Kind::End, Kind::End) => true,
        (Kind::Other, Kind::Other) => true,
        (Kind::Repetition(min1, max1), Kind::Repetition(min2, max2)) => {
            let same: bool = match (max1, max2) {
                (Some(m), Some(n)) => *m == *n,
                (None, None) => true,
                _ => false,
            };
            *min1 == *min2 && same
        },
        (Kind::Capture(x), Kind::Capture(y)) => match (x, y) {
            (Some(m), Some(n)) => *m == *n,
            (None, None) => true,
            _ => false,
        },
        (Kind::Concat, Kind::Concat) => true,
        (Kind::Alternation, Kind::Alternation) => true,
        _ => false,
    }
}

/// Whether two parsed patterns are the same.
pub fn same_pattern(a: &Pattern, b: &Pattern) -> (r: bool)
    ensures
        r == (a@ == b@),
    decreases a,
{
    proof {
        pattern_views(*a);
        pattern_views(*b);
    }
    if !same_kind(&a.kind, &b.kind) {
        return false;
    }
    let r: bool = same_patterns(a.subs.as_slice(), b.subs.as_slice());
    proof {
        if r {
            assert(a@ == Syntax { kind: a@.kind, subs: a@.subs });
            assert(b@ == Syntax { kind: b@.kind, subs: b@.subs });
        }
    }
    r
}

/// Whether parsed patterns are the same, one by one.
fn same_patterns(a: &[Pattern], b: &[Pattern]) -> (r: bool)
    ensures
        r == (views(a@) == views(b@)),
    decreases a@,
{
    if a.len() != b.len() {
        assert(views(a@).len() != views(b@).len());
        return false;
    }
    let mut k: usize = 0;
    while k < a.len()
        invariant
            k <= a@.len(),
            a@.len() == b@.len(),
            forall|n: int| 0 <= n < k ==> (#[trigger] a@[n])@ == b@[n]@,
        decreases a@.len() - k,
    {
        if !same_pattern(&a[k], &b[k]) {
            proof {
                assert(views(a@)[k as int] == a@[k as int]@);
                assert(views(b@)[k as int] == b@[k as int]@);
            }
            return false;
        }
        k = k + 1;
    }
    assert(views(a@) =~= views(b@));
    true
}

/// What a parsed pattern holds.
pub uninterp spec fn syntax_of(h: Hir) -> Syntax;

/// What `regex_syntax::Parser::parse` makes of a pattern: the parsed pattern, or what it says of
/// the error.
pub uninterp spec fn parsed(flags: ParserFlags, pattern: Seq<char>) -> Result<Syntax, Seq<char>>;

/// `regex_syntax::Parser::parse`, with a parser of these flags that is else as
/// `regex_syntax::ParserBuilder::new` makes it. The result is that of [`parsed`].
#[verifier::external_body]
fn parse(flags: ParserFlags, pattern: &str) -> (r: Result<Hir, String>)
    ensures
        match r {
            Ok(h) => parsed(flags, pattern@) == Ok::<Syntax, Seq<char>>(syntax_of(h)),
            Err(e) => parsed(flags, pattern@) == Err::<Syntax, Seq<char>>(e@),
        },
{
    ParserBuilder::new()
        .unicode(flags.unicode)
        .utf8(flags.utf8)
        .ignore_whitespace(flags.ignore_whitespace)
        .case_insensitive(flags.case_insensitive)
        .dot_matches_new_line(flags.dot_matches_new_line)
        .build()
        .parse(pattern)
        .map_err(|e| e.to_string())
}

/// `regex_syntax::hir::Hir::kind`: what stands at the top of a parsed pattern.
#[verifier::external_body]
fn kind(h: &Hir) -> (r: Kind)
    ensures
        r@ == syntax_of(*h).kind,
{
    match h.kind() {
        Empty => Kind::Empty,
        Literal(l) => Kind::Literal(l.0.to_vec()),
        Class(OfBytes(c)) => Bytes(c.iter().map(|r| (r.start(), r.end())).collect()),
        Class(OfChars(c)) => Chars(c.iter().map(|r| (r.start(), r.end())).collect()),
        Look(Start) => Kind::Start,
        Look(End) => Kind::End,
        Look(_) => Other,
        Repetition(r) => Kind::Repetition(r.min, r.max),
        Capture(c) => Kind::Capture(c.name.clone().map(String::from)),
        Concat(_) => Kind::Concat,
        Alternation(_) => Kind::Alternation,
    }
}

/// `regex_syntax::hir::HirKind::subs`: the parts of a parsed pattern.
#[verifier::external_body]
fn subs(h: &Hir) -> (r: &[Hir])
    ensures
        r@.len() == syntax_of(*h).subs.len(),
        forall|k: int| 0 <= k < r@.len() ==> syntax_of(#[trigger] r@[k]) == syntax_of(*h).subs[k],
{
    h.kind().subs()
}

/// Reads a parsed pattern.
fn read(h: &Hir) -> (r: Pattern)
    ensures
        r@ == syntax_of(*h),
    decreases syntax_of(*h),
{
    let ghost t = syntax_of(*h);
    let parts: &[Hir] = subs(h);
    let mut read_parts: Vec<Pattern> = Vec::new();
    let mut k: usize = 0;
    while k < parts.len()
        invariant
            k <= parts@.len(),
            t == syntax_of(*h),
            parts@.len() == t.subs.len(),
            forall|n: int|
                0 <= n < parts@.len() ==> syntax_of(#[trigger] parts@[n]) == t.subs[n],
            read_parts@.len() == k,
            forall|n: int| 0 <= n < k ==> (#[trigger] read_parts@[n])@ == t.subs[n],
        decreases parts@.len() - k,
    {
        proof {
            assert(decreases_to!(t => t.subs[k as int]));
        }
        read_parts.push(read(&parts[k]));
        k = k + 1;
    }
    let r: Pattern = Pattern { kind: kind(h), subs: read_parts };
    assert(r@.subs =~= t.subs);
    r
}

/// Parses a pattern.
pub fn parse_pattern(flags: ParserFlags, pattern: &str) -> (r: Result<Pattern, String>)
    ensures
        match r {
            Ok(p) => parsed(flags, pattern@) == Ok::<Syntax, Seq<char>>(p@),
            Err(e) => parsed(flags, pattern@) == Err::<Syntax, Seq<char>>(e@),
        },
{
    match parse(flags, pattern) {
        Ok(h) => Ok(read(&h)),
        Err(e) => Err(e),
    }
}

/// `v` has one byte of each range.
pub open spec fn in_byte_ranges(ranges: Seq<(u8, u8)>, v: Seq<u8>) -> bool {
    &&& v.len() == ranges.len()
    &&& forall|k: int| 0 <= k < v.len() ==> ranges[k].0 <= #[trigger] v[k] <= ranges[k].1
}

/// The ranges of a [`Vec`] of sequences of ranges.
pub open spec fn range_lists(r: Seq<Vec<(u8, u8)>>) -> Seq<Seq<(u8, u8)>> {
    r.map_values(|v: Vec<(u8, u8)>| v@)
}

/// `v` has one byte of each range of one of the sequences.
pub open spec fn in_range_lists(r: Seq<Seq<(u8, u8)>>, v: Seq<u8>) -> bool {
    exists|k: int| 0 <= k < r.len() && in_byte_ranges(#[trigger] r[k], v)
}

/// The UTF-8 encoding of a character.
pub open spec fn utf8(c: char) -> Seq<u8> {
    vstd::utf8::encode_utf8(seq![c])
}

/// `v` is the UTF-8 encoding of a character of the range.
pub open spec fn encodes(start: char, end: char, v: Seq<u8>) -> bool {
    exists|c: char| start <= c <= end && #[trigger] utf8(c) == v
}

/// `regex_syntax::utf8::Utf8Sequences`: sequences of byte ranges that match precisely the UTF-8
/// encodings of the characters of the range.
#[verifier::external_body]
pub(crate) fn utf8_sequences(start: char, end: char) -> (r: Vec<Vec<(u8, u8)>>)
    ensures
        forall|v: Seq<u8>| #[trigger] in_range_lists(range_lists(r@), v) <==> encodes(start, end, v),
{
    Utf8Sequences::new(start, end)
        .map(|s| s.as_slice().iter().map(|r| (r.start, r.end)).collect())
        .collect()
}

} // verus!
