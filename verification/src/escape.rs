//! Escape grammars of string literals.

use crate::error::Error;
use crate::lang::Reading;
use crate::sorting;
use crate::text;
use crate::text::ascii_bytes;
use crate::sorting::{dedup_by_first, sort_by_first, sort_dedup_bytes};
use crate::util::{copied, same_bytes};
use vstd::prelude::*;

verus! {

/// Describes the hex-based fallback encoding for bytes without an explicit escape sequence.
///
/// The fallback format is: `prefix` + 2 case-insensitive hex digits + `suffix`. For example, a
/// `FallbackFormat` with prefix `b"\\u00"`, empty suffix, and
/// `valid_byte_ranges: Some(vec![(0x00, 0x7F)])` produces `\u001F` for byte 0x1F and rejects bytes
/// above 0x7F.
#[derive(Debug, PartialEq, Eq, Hash)]
pub struct FallbackFormat {
    /// Prefix bytes before the 2 hex digits.
    /// E.g. `b"\\u00"` for JSON, `b"%"` for URL, `b"&#x"` for XML.
    pub prefix: Vec<u8>,
    /// Suffix bytes after the 2 hex digits.
    /// E.g. `b";"` for XML `&#xNN;`. Empty for most formats.
    pub suffix: Vec<u8>,
    /// Inclusive byte ranges eligible for fallback encoding. Each `(lo, hi)` pair means bytes
    /// `lo..=hi` can use this fallback. Must-escape bytes outside all ranges must have an explicit
    /// escape sequence or they cause an error. `None` means all byte values are valid.
    pub valid_byte_ranges: Option<Vec<(u8, u8)>>,
}

/// What a [`FallbackFormat`] holds.
#[verifier::ext_equal]
pub struct FallbackView {
    pub prefix: Seq<u8>,
    pub suffix: Seq<u8>,
    pub ranges: Option<Seq<(u8, u8)>>,
}

impl View for FallbackFormat {
    type V = FallbackView;

    open spec fn view(&self) -> FallbackView {
        FallbackView {
            prefix: self.prefix@,
            suffix: self.suffix@,
            ranges: match self.valid_byte_ranges {
                Some(ranges) => Some(ranges@),
                None => None,
            },
        }
    }
}

/// Whether the byte lies in one of the ranges.
pub open spec fn in_ranges(ranges: Seq<(u8, u8)>, b: u8) -> bool {
    exists|i: int| 0 <= i < ranges.len() && (#[trigger] ranges[i]).0 <= b <= ranges[i].1
}

/// Whether the byte may be written in the fallback format.
pub open spec fn covers(f: FallbackView, b: u8) -> bool {
    f.ranges matches Some(ranges) ==> in_ranges(ranges, b)
}

/// Whether the byte is a hex digit, in either case, of the value `n`.
pub open spec fn is_hex(c: u8, n: int) -> bool {
    if n < 10 {
        c == 0x30 + n
    } else {
        c == 0x37 + n || c == 0x57 + n
    }
}

/// Whether `v` is the byte in the fallback format.
pub open spec fn hex_form(f: FallbackView, b: u8, v: Seq<u8>) -> bool {
    exists|high: u8, low: u8|
        #[trigger] is_hex(high, b as int / 16) && #[trigger] is_hex(low, b as int % 16) && v
            == f.prefix + seq![high, low] + f.suffix
}

impl FallbackFormat {
    /// Check whether a byte is eligible for this fallback format.
    pub fn covers_byte(&self, b: u8) -> (r: bool)
        ensures
            r == covers(self@, b),
    {
        match &self.valid_byte_ranges {
            None => true,
            Some(ranges) => {
                let mut i: usize = 0;
                while i < ranges.len()
                    invariant
                        i <= ranges@.len(),
                        self@.ranges == Some(ranges@),
                        forall|k: int|
                            0 <= k < i ==> !((#[trigger] ranges@[k]).0 <= b <= ranges@[k].1),
                    decreases ranges@.len() - i,
                {
                    if ranges[i].0 <= b && b <= ranges[i].1 {
                        assert(in_ranges(ranges@, b)) by {
                            assert(ranges@[i as int].0 <= b <= ranges@[i as int].1);
                        }
                        return true;
                    }
                    i = i + 1;
                }
                false
            },
        }
    }
}

impl Clone for FallbackFormat {
    fn clone(&self) -> (r: FallbackFormat)
        ensures
            r@ == self@,
    {
        FallbackFormat {
            prefix: copied(self.prefix.as_slice()),
            suffix: copied(self.suffix.as_slice()),
            valid_byte_ranges: match &self.valid_byte_ranges {
                Some(ranges) => Some(copied(ranges.as_slice())),
                None => None,
            },
        }
    }
}

/// Declarative description of a string literal escape grammar.
///
/// Each byte in `must_escape` is represented by its `escape_sequences` entry and/or its `fallback`
/// hex form. When both exist, both are accepted (e.g., JSON `\b` and `\u0008` are both valid for
/// byte 0x08). Must-escape bytes with neither form have no representation. However, if `fallback`
/// has `valid_byte_ranges` set, a must-escape byte outside those ranges without an explicit escape
/// is an error. All other bytes stand for themselves.
///
/// Delimiter wrapping (e.g., surrounding with `"`) is not part of the grammar; that is the
/// caller's responsibility.
#[derive(Debug, PartialEq, Eq, Hash)]
pub struct StringEscapeOptions {
    /// Explicit escape sequences for specific bytes. Each entry `(byte, sequence)` means: when
    /// `byte` needs escaping, it is represented as `sequence`. For example,
    /// `(b'\n', b"\\n".to_vec())` means newline → `\n`.
    pub escape_sequences: Vec<(u8, Vec<u8>)>,
    /// Hex-based fallback format for must-escape bytes. `None` means that must-escape bytes
    /// without an explicit escape sequence have no representation.
    pub fallback: Option<FallbackFormat>,
    /// Bytes that must be escaped. Bytes not in this set pass through literally. There are no
    /// implicit additions: list everything that needs escaping, including escape prefix bytes,
    /// quote characters, etc.
    pub must_escape: Vec<u8>,
}

/// What a [`StringEscapeOptions`] holds.
#[verifier::ext_equal]
pub struct EscapeView {
    pub sequences: Seq<(u8, Seq<u8>)>,
    pub fallback: Option<FallbackView>,
    pub must_escape: Seq<u8>,
}

/// What a list of escape sequences holds.
pub open spec fn sequences_view(s: Seq<(u8, Vec<u8>)>) -> Seq<(u8, Seq<u8>)> {
    s.map_values(|p: (u8, Vec<u8>)| (p.0, p.1@))
}

impl View for StringEscapeOptions {
    type V = EscapeView;

    open spec fn view(&self) -> EscapeView {
        EscapeView {
            sequences: sequences_view(self.escape_sequences@),
            fallback: match self.fallback {
                Some(f) => Some(f@),
                None => None,
            },
            must_escape: self.must_escape@,
        }
    }
}

/// How an escape grammar writes each byte.
pub open spec fn reading(o: EscapeView) -> Reading {
    |b: u8, v: Seq<u8>|
        if o.must_escape.contains(b) {
            o.sequences.contains((b, v)) || (o.fallback matches Some(f) && covers(f, b)
                && hex_form(f, b, v))
        } else {
            v == seq![b]
        }
}

/// Two different sequences are given for the byte.
pub open spec fn conflict(s: Seq<(u8, Seq<u8>)>, b: u8) -> bool {
    exists|v: Seq<u8>, w: Seq<u8>|
        v != w && #[trigger] s.contains((b, v)) && #[trigger] s.contains((b, w))
}

/// The sequences are those of `s`, each byte once, in increasing order.
pub open spec fn sequences_normalized(n: Seq<(u8, Seq<u8>)>, s: Seq<(u8, Seq<u8>)>) -> bool {
    &&& sorting::strictly_sorted_by_first(n)
    &&& forall|x: (u8, Seq<u8>)|
        #![trigger n.contains(x)]
        #![trigger s.contains(x)]
        n.contains(x) <==> s.contains(x)
}

/// The bytes are those of `s`, each once, in increasing order.
pub open spec fn bytes_normalized(n: Seq<u8>, s: Seq<u8>) -> bool {
    &&& sorting::strictly_sorted(n)
    &&& forall|b: u8|
        #![trigger n.contains(b)]
        #![trigger s.contains(b)]
        n.contains(b) <==> s.contains(b)
}

/// The ranges increase, and at least one byte lies between any two of them.
pub open spec fn canonical(ranges: Seq<(u8, u8)>) -> bool {
    &&& forall|i: int| 0 <= i < ranges.len() ==> (#[trigger] ranges[i]).0 <= ranges[i].1
    &&& forall|i: int, j: int|
        0 <= i < j < ranges.len() ==> (#[trigger] ranges[i]).1 + 1 < (#[trigger] ranges[j]).0
}

/// The ranges are canonical and cover the bytes that `s` covers.
pub open spec fn ranges_normalized(n: Seq<(u8, u8)>, s: Seq<(u8, u8)>) -> bool {
    &&& canonical(n)
    &&& forall|b: u8|
        #![trigger in_ranges(n, b)]
        #![trigger in_ranges(s, b)]
        in_ranges(n, b) <==> in_ranges(s, b)
}

/// The ranges of a fallback are spelled in the one way there is for the bytes they cover: canonical,
/// and left out where they would cover every byte.
pub open spec fn ranges_canonical(f: FallbackView) -> bool {
    f.ranges matches Some(ranges) ==> canonical(ranges) && exists|b: u8|
        !#[trigger] in_ranges(ranges, b)
}

/// The fallback writes the bytes that `f` writes, in the same form, and spells its ranges in the
/// canonical way.
pub open spec fn fallback_normalized(n: Option<FallbackView>, f: Option<FallbackView>) -> bool {
    match (n, f) {
        (Some(n), Some(f)) => {
            &&& n.prefix == f.prefix
            &&& n.suffix == f.suffix
            &&& ranges_canonical(n)
            &&& forall|b: u8| #![trigger covers(n, b)] #![trigger covers(f, b)] covers(n, b)
                <==> covers(f, b)
        },
        (None, None) => true,
        _ => false,
    }
}

/// `n` is the normal form of `o`.
pub open spec fn normalized(n: EscapeView, o: EscapeView) -> bool {
    &&& sequences_normalized(n.sequences, o.sequences)
    &&& bytes_normalized(n.must_escape, o.must_escape)
    &&& fallback_normalized(n.fallback, o.fallback)
}

/// No byte has two different sequences.
pub open spec fn consistent(o: EscapeView) -> bool {
    forall|b: u8| !#[trigger] conflict(o.sequences, b)
}

/// All ranges of the fallback start at or before their end.
pub open spec fn ranges_valid(o: EscapeView) -> bool {
    o.fallback matches Some(f) ==> f.ranges matches Some(ranges) ==> forall|i: int|
        0 <= i < ranges.len() ==> (#[trigger] ranges[i]).0 <= ranges[i].1
}

/// The first range, in stable order of the starts, that starts after its end.
pub open spec fn is_first_invalid(sorted: Seq<(u8, u8)>, lo: u8, hi: u8) -> bool {
    exists|i: int|
        #![trigger sorted[i]]
        0 <= i < sorted.len() && sorted[i] == (lo, hi) && hi < lo && forall|j: int|
            0 <= j < i ==> (#[trigger] sorted[j]).0 <= sorted[j].1
}

/// The byte has to be escaped, lies outside of the ranges of the fallback, and has no sequence.
pub open spec fn unrepresentable(o: EscapeView, b: u8) -> bool {
    &&& o.must_escape.contains(b)
    &&& o.fallback matches Some(f) && f.ranges is Some && !covers(f, b)
    &&& !sorting::has_key(o.sequences, b)
}

/// The options can be used: no byte has two different sequences, no range starts after its end,
/// and the ranges leave no byte out that has to be escaped and has no sequence.
pub open spec fn usable(o: EscapeView) -> bool {
    &&& consistent(o)
    &&& ranges_valid(o)
    &&& forall|b: u8| !#[trigger] unrepresentable(o, b)
}

/// The error says why the options cannot be used.
pub open spec fn is_escape_error(o: EscapeView, e: Error) -> bool {
    match e {
        Error::ConflictingEscapeSequences(b) => {
            &&& conflict(o.sequences, b)
            &&& forall|c: u8| c < b ==> !#[trigger] conflict(o.sequences, c)
        },
        Error::InvalidByteRange(lo, hi) => {
            &&& consistent(o)
            &&& o.fallback matches Some(f) && f.ranges matches Some(ranges) && exists|
                sorted: Seq<(u8, u8)>,
            | #[trigger]
                sorting::is_stable_sort(sorted, ranges) && is_first_invalid(sorted, lo, hi)
        },
        Error::UnrepresentableByte(b) => {
            &&& consistent(o)
            &&& ranges_valid(o)
            &&& unrepresentable(o, b)
            &&& forall|c: u8| c < b ==> !#[trigger] unrepresentable(o, c)
        },
        _ => false,
    }
}

/// Options that cannot be used have an error that says so, and no others have one.
pub proof fn escape_error_unusable(o: EscapeView, e: Error)
    requires
        is_escape_error(o, e),
    ensures
        !usable(o),
{
    match e {
        Error::InvalidByteRange(lo, hi) => {
            let ranges = o.fallback->0.ranges->0;
            let sorted = choose|sorted: Seq<(u8, u8)>| #[trigger]
                sorting::is_stable_sort(sorted, ranges) && is_first_invalid(sorted, lo, hi);
            let i = choose|i: int|
                #![trigger sorted[i]]
                0 <= i < sorted.len() && sorted[i] == (lo, hi) && hi < lo && forall|j: int|
                    0 <= j < i ==> (#[trigger] sorted[j]).0 <= sorted[j].1;
            assert(sorted.contains((lo, hi)));
            lemma_sort_contains(sorted, ranges, (lo, hi));
            assert(ranges[ranges.index_of((lo, hi))] == (lo, hi));
        },
        _ => {},
    }
}

/// The normal form of some options means what they mean.
pub proof fn normalized_reading(n: EscapeView, o: EscapeView)
    requires
        normalized(n, o),
    ensures
        reading(n) == reading(o),
        forall|b: u8| unrepresentable(n, b) == #[trigger] unrepresentable(o, b),
{
    assert forall|b: u8, v: Seq<u8>| #[trigger] reading(n)(b, v) == reading(o)(b, v) by {
        assert(n.must_escape.contains(b) == o.must_escape.contains(b));
        assert(n.sequences.contains((b, v)) == o.sequences.contains((b, v)));
        if n.fallback is Some {
            let f = n.fallback->0;
            let g = o.fallback->0;
            assert(covers(f, b) == covers(g, b));
            assert(hex_form(f, b, v) == hex_form(g, b, v));
        }
    }
    assert(reading(n) =~= reading(o));
    assert forall|b: u8| unrepresentable(n, b) == #[trigger] unrepresentable(o, b) by {
        assert(n.must_escape.contains(b) == o.must_escape.contains(b));
        if sorting::has_key(n.sequences, b) {
            let i = choose|i: int|
                0 <= i < n.sequences.len() && (#[trigger] n.sequences[i]).0 == b;
            let x = n.sequences[i];
            assert(n.sequences.contains(x));
            assert(o.sequences.contains(x));
            assert(o.sequences[o.sequences.index_of(x)].0 == b);
        }
        if sorting::has_key(o.sequences, b) {
            let i = choose|i: int|
                0 <= i < o.sequences.len() && (#[trigger] o.sequences[i]).0 == b;
            let x = o.sequences[i];
            assert(o.sequences.contains(x));
            assert(n.sequences.contains(x));
            assert(n.sequences[n.sequences.index_of(x)].0 == b);
        }
        if n.fallback is Some {
            assert(covers(n.fallback->0, b) == covers(o.fallback->0, b));
        }
    }
}

proof fn lemma_entries_view(s: Seq<(u8, Vec<u8>)>, key: u8)
    ensures
        sorting::entries(sequences_view(s), key) == sequences_view(sorting::entries(s, key)),
    decreases s.len(),
{
    reveal(Seq::filter);
    let v = sequences_view(s);
    if s.len() > 0 {
        lemma_entries_view(s.drop_last(), key);
        assert(v.drop_last() =~= sequences_view(s.drop_last()));
        assert(v.last() == (s.last().0, s.last().1@));
        assert(sorting::entries(v, key) =~= sequences_view(sorting::entries(s, key)));
    } else {
        assert(sorting::entries(v, key) =~= sequences_view(sorting::entries(s, key)));
    }
}

proof fn lemma_sequences_contain(s: Seq<(u8, Vec<u8>)>, x: (u8, Vec<u8>))
    requires
        s.contains(x),
    ensures
        sequences_view(s).contains((x.0, x.1@)),
{
    let i = s.index_of(x);
    assert(sequences_view(s)[i] == (x.0, x.1@));
}

/// A stable sort keeps what is listed.
pub proof fn lemma_sort_contains<T>(n: Seq<(u8, T)>, s: Seq<(u8, T)>, x: (u8, T))
    requires
        sorting::is_stable_sort(n, s),
    ensures
        n.contains(x) <==> s.contains(x),
{
    sorting::lemma_entries_contain(n, x);
    sorting::lemma_entries_contain(s, x);
    assert(sorting::entries(n, x.0) == sorting::entries(s, x.0));
}

/// The first two neighbours of one key whose sequences differ.
fn first_conflict(v: &Vec<(u8, Vec<u8>)>) -> (r: Option<u8>)
    requires
        sorting::sorted_by_first(v@),
    ensures
        match r {
            Some(b) => conflict(sequences_view(v@), b) && forall|c: u8|
                c < b ==> !#[trigger] conflict(sequences_view(v@), c),
            None => forall|c: u8| !#[trigger] conflict(sequences_view(v@), c),
        },
{
    let ghost s = sequences_view(v@);
    let n: usize = v.len();
    let mut i: usize = 1;
    while i < n
        invariant
            1 <= i,
            n == v@.len(),
            n >= 1 ==> i <= n,
            s == sequences_view(v@),
            sorting::sorted_by_first(v@),
            forall|j: int, k: int|
                0 <= j < k < i && k < n && (#[trigger] s[j]).0 == (#[trigger] s[k]).0 ==> s[j]
                    == s[k],
        decreases n - i,
    {
        if v[i - 1].0 == v[i].0 && !same_bytes(v[i - 1].1.as_slice(), v[i].1.as_slice()) {
            let b: u8 = v[i].0;
            proof {
                let x = s[i - 1];
                let y = s[i as int];
                assert(s.contains((b, x.1)));
                assert(s.contains((b, y.1)));
                assert(conflict(s, b));
                assert forall|c: u8| c < b implies !#[trigger] conflict(s, c) by {
                    if conflict(s, c) {
                        let (p, q) = choose|p: Seq<u8>, q: Seq<u8>|
                            p != q && #[trigger] s.contains((c, p)) && #[trigger] s.contains((c, q));
                        lemma_order_of(v@, i as int, c, p);
                        lemma_order_of(v@, i as int, c, q);
                        let j = s.index_of((c, p));
                        let k = s.index_of((c, q));
                        assert(s[j].0 == s[k].0);
                    }
                }
            }
            return Some(b);
        }
        proof {
            assert forall|j: int, k: int|
                0 <= j < k < i + 1 && k < n && (#[trigger] s[j]).0 == (
                #[trigger] s[k]).0 implies s[j] == s[k] by {
                if k == i {
                    assert(v@[j].0 <= v@[i - 1].0 <= v@[i as int].0);
                    assert(s[i - 1].0 == s[i as int].0);
                    assert(s[i - 1].1 == v@[i - 1].1@);
                    assert(s[i - 1] == s[i as int]);
                    if j < i - 1 {
                        assert(s[j] == s[i - 1]);
                    }
                }
            }
        }
        i = i + 1;
    }
    proof {
        assert forall|c: u8| !#[trigger] conflict(s, c) by {
            if conflict(s, c) {
                let (p, q) = choose|p: Seq<u8>, q: Seq<u8>|
                    p != q && #[trigger] s.contains((c, p)) && #[trigger] s.contains((c, q));
                let j = s.index_of((c, p));
                let k = s.index_of((c, q));
                assert(s[j].0 == s[k].0);
            }
        }
    }
    None
}

/// What lies below a key stands ahead of it.
proof fn lemma_order_of(v: Seq<(u8, Vec<u8>)>, i: int, c: u8, p: Seq<u8>)
    requires
        sorting::sorted_by_first(v),
        0 <= i < v.len(),
        c < v[i].0,
        sequences_view(v).contains((c, p)),
    ensures
        sequences_view(v).index_of((c, p)) < i,
{
    let s = sequences_view(v);
    let j = s.index_of((c, p));
    assert(s[j] == (c, p));
    assert(v[j].0 == c);
}

/// Joins ranges that touch or overlap.
fn merge_ranges(ranges: &Vec<(u8, u8)>) -> (r: Result<Vec<(u8, u8)>, Error>)
    requires
        sorting::sorted_by_first(ranges@),
    ensures
        match r {
            Ok(merged) => ranges_normalized(merged@, ranges@) && forall|i: int|
                0 <= i < ranges@.len() ==> (#[trigger] ranges@[i]).0 <= ranges@[i].1,
            Err(Error::InvalidByteRange(lo, hi)) => is_first_invalid(ranges@, lo, hi),
            Err(_) => false,
        },
{
    let mut merged: Vec<(u8, u8)> = Vec::new();
    let mut i: usize = 0;
    while i < ranges.len()
        invariant
            i <= ranges@.len(),
            sorting::sorted_by_first(ranges@),
            forall|j: int| 0 <= j < i ==> (#[trigger] ranges@[j]).0 <= ranges@[j].1,
            ranges_normalized(merged@, ranges@.take(i as int)),
            merged@.len() > 0 ==> i > 0 && merged@.last().0 <= ranges@[i - 1].0,
        decreases ranges@.len() - i,
    {
        let (lo, hi): (u8, u8) = ranges[i];
        if lo > hi {
            assert(ranges@[i as int] == (lo, hi));
            return Err(Error::InvalidByteRange(lo, hi));
        }
        let ghost before = merged@;
        let ghost t = ranges@.take(i as int);
        let n: usize = merged.len();
        let mut joined: bool = false;
        if n > 0 {
            let last: (u8, u8) = merged[n - 1];
            if last.1 == 255 || last.1 + 1 >= lo {
                if hi > last.1 {
                    merged.set(n - 1, (last.0, hi));
                }
                joined = true;
            }
        }
        if !joined {
            merged.push((lo, hi));
        }
        proof {
            let u = ranges@.take(i + 1);
            assert(u =~= t.push((lo, hi)));
            let m = merged@;
            assert forall|b: u8| in_ranges(u, b) <==> in_ranges(t, b) || lo <= b <= hi by {
                if in_ranges(u, b) {
                    let k = choose|k: int| 0 <= k < u.len() && (#[trigger] u[k]).0 <= b <= u[k].1;
                    if k < i {
                        assert(t[k].0 <= b <= t[k].1);
                    }
                }
                if in_ranges(t, b) {
                    let k = choose|k: int| 0 <= k < t.len() && (#[trigger] t[k]).0 <= b <= t[k].1;
                    assert(u[k].0 <= b <= u[k].1);
                }
                if lo <= b <= hi {
                    assert(u[i as int].0 <= b <= u[i as int].1);
                }
            }
            if i > 0 {
                assert(ranges@[i - 1].0 <= ranges@[i as int].0);
            }
            assert forall|b: u8| in_ranges(m, b) <==> in_ranges(before, b) || lo <= b <= hi by {
                if in_ranges(m, b) {
                    let k = choose|k: int| 0 <= k < m.len() && (#[trigger] m[k]).0 <= b <= m[k].1;
                    if k < before.len() {
                        if !(lo <= b <= hi) {
                            assert(before[k].0 <= b <= before[k].1);
                        }
                    }
                }
                if in_ranges(before, b) {
                    let k = choose|k: int|
                        0 <= k < before.len() && (#[trigger] before[k]).0 <= b <= before[k].1;
                    assert(m[k].0 <= b <= m[k].1);
                }
                if lo <= b <= hi {
                    assert(m[m.len() - 1].0 <= b <= m[m.len() - 1].1);
                }
            }
            assert(forall|b: u8| in_ranges(before, b) <==> in_ranges(t, b));
            assert(forall|k: int|
                0 <= k < m.len() - 1 ==> #[trigger] m[k] == before[k]);
            assert(canonical(m));
            assert(ranges_normalized(m, u));
        }
        i = i + 1;
    }
    assert(ranges@.take(i as int) =~= ranges@);
    Ok(merged)
}

/// A copy of a list of escape sequences.
fn copied_sequences(s: &Vec<(u8, Vec<u8>)>) -> (r: Vec<(u8, Vec<u8>)>)
    ensures
        sequences_view(r@) == sequences_view(s@),
{
    let mut r: Vec<(u8, Vec<u8>)> = Vec::new();
    let mut i: usize = 0;
    while i < s.len()
        invariant
            i <= s@.len(),
            r@.len() == i,
            forall|k: int| 0 <= k < i ==> (#[trigger] r@[k]).0 == s@[k].0 && r@[k].1@ == s@[k].1@,
        decreases s@.len() - i,
    {
        r.push((s[i].0, copied(s[i].1.as_slice())));
        i = i + 1;
    }
    assert(sequences_view(r@) =~= sequences_view(s@));
    r
}

/// Whether two lists of ranges are equal.
fn same_ranges(a: &[(u8, u8)], b: &[(u8, u8)]) -> (r: bool)
    ensures
        r == (a@ == b@),
{
    if a.len() != b.len() {
        return false;
    }
    let mut i: usize = 0;
    while i < a.len()
        invariant
            i <= a@.len(),
            a@.len() == b@.len(),
            forall|k: int| 0 <= k < i ==> a@[k] == b@[k],
        decreases a@.len() - i,
    {
        if a[i].0 != b[i].0 || a[i].1 != b[i].1 {
            return false;
        }
        i = i + 1;
    }
    assert(a@ =~= b@);
    true
}

/// Whether two lists of escape sequences are equal.
fn same_sequences(a: &[(u8, Vec<u8>)], b: &[(u8, Vec<u8>)]) -> (r: bool)
    ensures
        r == (sequences_view(a@) == sequences_view(b@)),
{
    let ghost x = sequences_view(a@);
    let ghost y = sequences_view(b@);
    if a.len() != b.len() {
        assert(x.len() != y.len());
        return false;
    }
    let mut i: usize = 0;
    while i < a.len()
        invariant
            i <= a@.len(),
            a@.len() == b@.len(),
            x == sequences_view(a@),
            y == sequences_view(b@),
            forall|k: int| 0 <= k < i ==> x[k] == y[k],
        decreases a@.len() - i,
    {
        if a[i].0 != b[i].0 || !same_bytes(a[i].1.as_slice(), b[i].1.as_slice()) {
            assert(x[i as int] != y[i as int]);
            return false;
        }
        i = i + 1;
    }
    assert(x =~= y);
    true
}

/// Whether two fallback formats are equal.
fn same_fallback(a: &FallbackFormat, b: &FallbackFormat) -> (r: bool)
    ensures
        r == (a@ == b@),
{
    let ranges: bool = match (&a.valid_byte_ranges, &b.valid_byte_ranges) {
        (Some(x), Some(y)) => same_ranges(x.as_slice(), y.as_slice()),
        (None, None) => true,
        _ => false,
    };
    assert(ranges == (a@.ranges == b@.ranges));
    same_bytes(a.prefix.as_slice(), b.prefix.as_slice()) && same_bytes(
        a.suffix.as_slice(),
        b.suffix.as_slice(),
    ) && ranges
}

/// Whether two options are equal.
pub(crate) fn same_options(a: &StringEscapeOptions, b: &StringEscapeOptions) -> (r: bool)
    ensures
        r == (a@ == b@),
{
    let fallback: bool = match (&a.fallback, &b.fallback) {
        (Some(x), Some(y)) => same_fallback(x, y),
        (None, None) => true,
        _ => false,
    };
    assert(fallback == (a@.fallback == b@.fallback));
    same_sequences(a.escape_sequences.as_slice(), b.escape_sequences.as_slice()) && fallback
        && same_bytes(a.must_escape.as_slice(), b.must_escape.as_slice())
}

impl Clone for StringEscapeOptions {
    fn clone(&self) -> (r: StringEscapeOptions)
        ensures
            r@ == self@,
    {
        StringEscapeOptions {
            escape_sequences: copied_sequences(&self.escape_sequences),
            fallback: match &self.fallback {
                Some(f) => Some(f.clone()),
                None => None,
            },
            must_escape: copied(self.must_escape.as_slice()),
        }
    }
}

impl StringEscapeOptions {
    /// Sort and deduplicate `escape_sequences` and `must_escape`, and canonicalize
    /// `fallback.valid_byte_ranges`, so that options become equal that list the same and whose
    /// fallbacks write the same bytes in the same form. Ranges that cover every byte become `None`,
    /// which means the same.
    ///
    /// Returns an error if `escape_sequences` contains duplicate entries for the same byte with
    /// different sequences, or if `valid_byte_ranges` contains an entry where `start > end`.
    pub fn normalize(&mut self) -> (r: Result<(), Error>)
        ensures
            match r {
                Ok(()) => {
                    &&& consistent(old(self)@)
                    &&& ranges_valid(old(self)@)
                    &&& normalized(final(self)@, old(self)@)
                },
                Err(Error::ConflictingEscapeSequences(b)) => {
                    &&& conflict(old(self)@.sequences, b)
                    &&& forall|c: u8| c < b ==> !#[trigger] conflict(old(self)@.sequences, c)
                    &&& sorting::is_stable_sort(final(self)@.sequences, old(self)@.sequences)
                    &&& final(self)@.fallback == old(self)@.fallback
                    &&& final(self)@.must_escape == old(self)@.must_escape
                },
                Err(Error::InvalidByteRange(lo, hi)) => {
                    &&& consistent(old(self)@)
                    &&& sequences_normalized(final(self)@.sequences, old(self)@.sequences)
                    &&& bytes_normalized(final(self)@.must_escape, old(self)@.must_escape)
                    &&& old(self)@.fallback matches Some(f) && f.ranges matches Some(ranges)
                        && final(self)@.fallback matches Some(g) && g.ranges matches Some(sorted)
                        && g.prefix == f.prefix && g.suffix == f.suffix && sorting::is_stable_sort(
                        sorted,
                        ranges,
                    ) && is_first_invalid(sorted, lo, hi)
                },
                Err(_) => false,
            },
    {
        let ghost o = self@;
        let ghost listed = self.escape_sequences@;
        sort_by_first(&mut self.escape_sequences);
        let ghost sorted = self.escape_sequences@;
        proof {
            assert forall|key: u8| #[trigger]
                sorting::entries(self@.sequences, key) == sorting::entries(o.sequences, key) by {
                lemma_entries_view(sorted, key);
                lemma_entries_view(listed, key);
                assert(sorting::entries(sorted, key) == sorting::entries(listed, key));
            }
            assert(sorting::sorted_by_first(self@.sequences));
            assert(sorting::is_stable_sort(self@.sequences, o.sequences));
            assert forall|x: (u8, Seq<u8>)|
                #![trigger o.sequences.contains(x)]
                sequences_view(sorted).contains(x) <==> o.sequences.contains(x) by {
                lemma_sort_contains(sequences_view(sorted), o.sequences, x);
            }
            assert forall|b: u8|
                #![trigger conflict(sequences_view(sorted), b)]
                #![trigger conflict(o.sequences, b)]
                conflict(sequences_view(sorted), b) == conflict(o.sequences, b) by {
                lemma_same_conflict(sequences_view(sorted), o.sequences, b);
            }
        }
        match first_conflict(&self.escape_sequences) {
            Some(b) => {
                return Err(Error::ConflictingEscapeSequences(b));
            },
            None => {},
        }
        dedup_by_first(&mut self.escape_sequences);
        proof {
            lemma_dedup(self.escape_sequences@, sorted);
            assert(sequences_normalized(self@.sequences, o.sequences));
        }
        let must_escape: Vec<u8> = sort_dedup_bytes(self.must_escape.as_slice());
        self.must_escape = must_escape;
        let mut fallback: Option<FallbackFormat> = None;
        std::mem::swap(&mut self.fallback, &mut fallback);
        match fallback {
            None => {},
            Some(f) => {
                let FallbackFormat { prefix, suffix, valid_byte_ranges } = f;
                match valid_byte_ranges {
                    None => {
                        self.fallback = Some(
                            FallbackFormat { prefix, suffix, valid_byte_ranges: None },
                        );
                    },
                    Some(ranges) => {
                        let ghost given = ranges@;
                        let mut ranges: Vec<(u8, u8)> = ranges;
                        sort_by_first(&mut ranges);
                        match merge_ranges(&ranges) {
                            Ok(merged) => {
                                let ghost spelled = merged@;
                                proof {
                                    lemma_sorted_ranges(ranges@, given);
                                    assert forall|b: u8|
                                        in_ranges(spelled, b) <==> in_ranges(given, b) by {
                                        assert(in_ranges(spelled, b) <==> in_ranges(ranges@, b));
                                    }
                                    lemma_all_covered(spelled);
                                }
                                let all: bool = merged.len() == 1 && merged[0].0 == 0
                                    && merged[0].1 == 0xFF;
                                let valid_byte_ranges: Option<Vec<(u8, u8)>> = if all {
                                    None
                                } else {
                                    Some(merged)
                                };
                                self.fallback = Some(
                                    FallbackFormat { prefix, suffix, valid_byte_ranges },
                                );
                                proof {
                                    let n = self@.fallback->0;
                                    let f = o.fallback->0;
                                    assert(f.ranges == Some(given));
                                    assert forall|b: u8| covers(n, b) <==> covers(f, b) by {
                                        assert(in_ranges(spelled, b) <==> in_ranges(given, b));
                                    }
                                }
                            },
                            Err(e) => {
                                self.fallback = Some(
                                    FallbackFormat {
                                        prefix,
                                        suffix,
                                        valid_byte_ranges: Some(ranges),
                                    },
                                );
                                return Err(e);
                            },
                        }
                    },
                }
            },
        }
        Ok(())
    }
}

/// The bytes that JSON strings escape: the control characters, the backslash, the quote and DEL.
pub open spec fn json_must_escape() -> Seq<u8> {
    Seq::new(32, |i: int| i as u8) + seq!['\\' as u8, '"' as u8, 0x7F]
}

/// The fallback of JSON strings: `\u00` and two hex digits, for code points of ASCII.
pub open spec fn json_fallback() -> FallbackView {
    FallbackView {
        prefix: text::ascii("\\u00"@),
        suffix: seq![],
        ranges: Some(seq![(0u8, 0x7Fu8)]),
    }
}

/// The escape grammar of JSON strings.
pub open spec fn json_view() -> EscapeView {
    EscapeView {
        sequences: seq![
            (0x08u8, text::ascii("\\b"@)),
            (0x0Cu8, text::ascii("\\f"@)),
            ('\n' as u8, text::ascii("\\n"@)),
            ('\r' as u8, text::ascii("\\r"@)),
            ('\t' as u8, text::ascii("\\t"@)),
            ('\\' as u8, text::ascii("\\\\"@)),
            ('"' as u8, text::ascii("\\\""@)),
        ],
        fallback: Some(json_fallback()),
        must_escape: json_must_escape(),
    }
}

/// The bytes that URLs never encode.
pub open spec fn unreserved(b: u8) -> bool {
    ||| 'A' as u8 <= b <= 'Z' as u8
    ||| 'a' as u8 <= b <= 'z' as u8
    ||| '0' as u8 <= b <= '9' as u8
    ||| b == '-' as u8
    ||| b == '.' as u8
    ||| b == '_' as u8
    ||| b == '~' as u8
}

/// The fallback of URLs: `%` and two hex digits.
pub open spec fn url_fallback() -> FallbackView {
    FallbackView { prefix: text::ascii("%"@), suffix: seq![], ranges: None }
}

/// The escape grammar of XML text and attributes.
pub open spec fn xml_view() -> EscapeView {
    EscapeView {
        sequences: seq![
            ('&' as u8, text::ascii("&amp;"@)),
            ('<' as u8, text::ascii("&lt;"@)),
            ('>' as u8, text::ascii("&gt;"@)),
            ('"' as u8, text::ascii("&quot;"@)),
            ('\'' as u8, text::ascii("&apos;"@)),
        ],
        fallback: Some(
            FallbackView {
                prefix: text::ascii("&#x"@),
                suffix: text::ascii(";"@),
                ranges: Some(seq![(0x09u8, 0x0Au8), (0x0Du8, 0x0Du8), (0x20u8, 0xFFu8)]),
            },
        ),
        must_escape: seq![0x09, 0x0A, 0x0D, '&' as u8, '<' as u8, '>' as u8, '"' as u8, '\'' as u8],
    }
}

/// The bytes that JSON strings escape.
pub(crate) fn json_must_escape_bytes() -> (r: Vec<u8>)
    ensures
        r@ == json_must_escape(),
{
    let mut r: Vec<u8> = Vec::new();
    let mut b: u8 = 0;
    while b < 32
        invariant
            b <= 32,
            r@ == Seq::new(b as nat, |i: int| i as u8),
        decreases 32 - b,
    {
        r.push(b);
        assert(r@ =~= Seq::new((b + 1) as nat, |i: int| i as u8));
        b = b + 1;
    }
    r.push('\\' as u8);
    r.push('"' as u8);
    r.push(0x7F);
    assert(r@ =~= json_must_escape());
    r
}

/// The fallback of JSON strings.
pub(crate) fn json_fallback_format() -> (r: FallbackFormat)
    ensures
        r@ == json_fallback(),
{
    let prefix: Vec<u8> = ascii_bytes("\\u00");
    let suffix: Vec<u8> = Vec::new();
    let ranges: Vec<(u8, u8)> = vec![(0x00, 0x7F)];
    assert(prefix@ =~= json_fallback().prefix);
    assert(suffix@ =~= json_fallback().suffix);
    assert(ranges@ =~= seq![(0u8, 0x7Fu8)]);
    FallbackFormat { prefix, suffix, valid_byte_ranges: Some(ranges) }
}

impl StringEscapeOptions {
    /// Build options for JSON string escaping.
    ///
    /// Uses `\u00XX` fallback, and explicit escape sequences for `\b`, `\f`, `\n`, `\r`, `\t`,
    /// `\\`, `\"`. Control characters 0x00–0x1F, 0x7F, `\`, and `"` are in `must_escape`.
    ///
    /// Note: RFC 8259 only requires escaping 0x00–0x1F, `\`, and `"`. We additionally escape 0x7F
    /// (DEL) as a conservative safety measure.
    pub fn json() -> (r: StringEscapeOptions)
        ensures
            r@ == json_view(),
    {
        let escape_sequences: Vec<(u8, Vec<u8>)> = vec![
            (0x08, ascii_bytes("\\b")),
            (0x0C, ascii_bytes("\\f")),
            ('\n' as u8, ascii_bytes("\\n")),
            ('\r' as u8, ascii_bytes("\\r")),
            ('\t' as u8, ascii_bytes("\\t")),
            ('\\' as u8, ascii_bytes("\\\\")),
            ('"' as u8, ascii_bytes("\\\"")),
        ];
        assert(sequences_view(escape_sequences@) =~~= json_view().sequences);
        StringEscapeOptions {
            escape_sequences,
            fallback: Some(json_fallback_format()),
            must_escape: json_must_escape_bytes(),
        }
    }

    /// Build options for JSON without `\uXXXX` fallback.
    ///
    /// Same as [`StringEscapeOptions::json`] but with no fallback. Bytes that lack an explicit
    /// escape sequence (e.g., 0x01) cannot be represented.
    pub fn json_raw() -> (r: StringEscapeOptions)
        ensures
            r@ == (EscapeView { fallback: None, ..json_view() }),
    {
        let mut r: StringEscapeOptions = StringEscapeOptions::json();
        r.fallback = None;
        r
    }

    /// Build options for URL percent-encoding (RFC 3986).
    ///
    /// Uses `%HH` for all bytes outside the unreserved set (`A-Z`, `a-z`, `0-9`, `-`, `.`, `_`,
    /// `~`). No string delimiters.
    pub fn url_percent_encoding() -> (r: StringEscapeOptions)
        ensures
            r@.sequences == Seq::<(u8, Seq<u8>)>::empty(),
            r@.fallback == Some(url_fallback()),
            sorting::strictly_sorted(r@.must_escape),
            forall|b: u8| #[trigger] r@.must_escape.contains(b) <==> !unreserved(b),
    {
        let mut must_escape: Vec<u8> = Vec::new();
        let mut n: u16 = 0;
        while n < 256
            invariant
                n <= 256,
                sorting::strictly_sorted(must_escape@),
                forall|b: u8| #[trigger]
                    must_escape@.contains(b) <==> (b < n && !unreserved(b)),
            decreases 256 - n,
        {
            let b: u8 = n as u8;
            let letter: bool = ('A' as u8 <= b && b <= 'Z' as u8) || ('a' as u8 <= b && b
                <= 'z' as u8);
            let digit: bool = '0' as u8 <= b && b <= '9' as u8;
            let mark: bool = b == '-' as u8 || b == '.' as u8 || b == '_' as u8 || b == '~' as u8;
            if !letter && !digit && !mark {
                let ghost before = must_escape@;
                must_escape.push(b);
                proof {
                    assert forall|c: u8| #[trigger]
                        must_escape@.contains(c) <==> before.contains(c) || c == b by {
                        if must_escape@.contains(c) && c != b {
                            assert(before[must_escape@.index_of(c)] == c);
                        }
                        if before.contains(c) {
                            assert(must_escape@[before.index_of(c)] == c);
                        }
                        assert(must_escape@[before.len() as int] == b);
                    }
                    assert forall|i: int, j: int|
                        0 <= i < j < must_escape@.len() implies #[trigger] must_escape@[i]
                        < #[trigger] must_escape@[j] by {
                        if j == before.len() {
                            assert(before.contains(before[i]));
                        } else {
                            assert(before[i] < before[j]);
                        }
                    }
                }
            }
            n = n + 1;
        }
        let prefix: Vec<u8> = ascii_bytes("%");
        let suffix: Vec<u8> = Vec::new();
        let escape_sequences: Vec<(u8, Vec<u8>)> = Vec::new();
        assert(prefix@ =~= url_fallback().prefix);
        assert(suffix@ =~= url_fallback().suffix);
        assert(sequences_view(escape_sequences@) =~= Seq::<(u8, Seq<u8>)>::empty());
        StringEscapeOptions {
            escape_sequences,
            fallback: Some(FallbackFormat { prefix, suffix, valid_byte_ranges: None }),
            must_escape,
        }
    }

    /// Build options for XML attribute/text escaping.
    ///
    /// Uses named entities for `&`, `<`, `>`, `"`, `'` and `&#xNN;` hex fallback for the XML
    /// 1.0–legal control characters (TAB, LF, CR).
    ///
    /// Only bytes whose corresponding Unicode scalar values are valid XML 1.0 characters are in
    /// `must_escape`. XML 1.0 forbids 0x00–0x08, 0x0B, 0x0C, and 0x0E–0x1F entirely. The options do
    /// not prevent forbidden control bytes from passing through literally: where a regex can match
    /// them, intersect it first with a character-class restriction (e.g.,
    /// `[\x09\x0A\x0D\x20-\xFF]`).
    pub fn xml() -> (r: StringEscapeOptions)
        ensures
            r@ == xml_view(),
    {
        let escape_sequences: Vec<(u8, Vec<u8>)> = vec![
            ('&' as u8, ascii_bytes("&amp;")),
            ('<' as u8, ascii_bytes("&lt;")),
            ('>' as u8, ascii_bytes("&gt;")),
            ('"' as u8, ascii_bytes("&quot;")),
            ('\'' as u8, ascii_bytes("&apos;")),
        ];
        assert(sequences_view(escape_sequences@) =~~= xml_view().sequences);
        let prefix: Vec<u8> = ascii_bytes("&#x");
        let suffix: Vec<u8> = ascii_bytes(";");
        let ranges: Vec<(u8, u8)> = vec![(0x09, 0x0A), (0x0D, 0x0D), (0x20, 0xFF)];
        let must_escape: Vec<u8> = vec![
            0x09,
            0x0A,
            0x0D,
            '&' as u8,
            '<' as u8,
            '>' as u8,
            '"' as u8,
            '\'' as u8,
        ];
        assert(prefix@ =~= xml_view().fallback->0.prefix);
        assert(suffix@ =~= xml_view().fallback->0.suffix);
        assert(ranges@ =~= xml_view().fallback->0.ranges->0);
        assert(must_escape@ =~= xml_view().must_escape);
        StringEscapeOptions {
            escape_sequences,
            fallback: Some(FallbackFormat { prefix, suffix, valid_byte_ranges: Some(ranges) }),
            must_escape,
        }
    }
}

proof fn lemma_same_conflict(n: Seq<(u8, Seq<u8>)>, s: Seq<(u8, Seq<u8>)>, b: u8)
    requires
        forall|x: (u8, Seq<u8>)| #[trigger] s.contains(x) <==> n.contains(x),
    ensures
        conflict(n, b) == conflict(s, b),
{
    if conflict(n, b) {
        let (p, q) = choose|p: Seq<u8>, q: Seq<u8>|
            p != q && #[trigger] n.contains((b, p)) && #[trigger] n.contains((b, q));
        assert(s.contains((b, p)) && s.contains((b, q)));
    }
    if conflict(s, b) {
        let (p, q) = choose|p: Seq<u8>, q: Seq<u8>|
            p != q && #[trigger] s.contains((b, p)) && #[trigger] s.contains((b, q));
        assert(n.contains((b, p)) && n.contains((b, q)));
    }
}

/// Where no byte has two different sequences, one entry for each byte is as good as all.
proof fn lemma_dedup(n: Seq<(u8, Vec<u8>)>, s: Seq<(u8, Vec<u8>)>)
    requires
        sorting::strictly_sorted_by_first(n),
        forall|x: (u8, Vec<u8>)| #[trigger] n.contains(x) ==> s.contains(x),
        forall|key: u8| #[trigger] sorting::has_key(n, key) <==> sorting::has_key(s, key),
        forall|b: u8| !#[trigger] conflict(sequences_view(s), b),
    ensures
        sequences_normalized(sequences_view(n), sequences_view(s)),
{
    let vn = sequences_view(n);
    let vs = sequences_view(s);
    assert forall|x: (u8, Seq<u8>)| vn.contains(x) implies vs.contains(x) by {
        let i = vn.index_of(x);
        assert(n.contains(n[i]));
        lemma_sequences_contain(s, n[i]);
    }
    assert forall|x: (u8, Seq<u8>)| vs.contains(x) implies vn.contains(x) by {
        let j = vs.index_of(x);
        assert(s[j].0 == x.0);
        assert(sorting::has_key(s, x.0));
        assert(sorting::has_key(n, x.0));
        let i = choose|i: int| 0 <= i < n.len() && (#[trigger] n[i]).0 == x.0;
        assert(n.contains(n[i]));
        lemma_sequences_contain(s, n[i]);
        assert(vn[i] == (x.0, n[i].1@));
        assert(vn.contains(vn[i]));
        if n[i].1@ != x.1 {
            assert(vs.contains((x.0, n[i].1@)));
            assert(vs.contains((x.0, x.1)));
            assert(conflict(vs, x.0));
        }
        assert(vn[i] == x);
    }
}

/// Canonical ranges cover every byte if and only if they are the one range of all bytes.
proof fn lemma_all_covered(ranges: Seq<(u8, u8)>)
    requires
        canonical(ranges),
    ensures
        (forall|b: u8| #[trigger] in_ranges(ranges, b)) <==> ranges.len() == 1 && ranges[0] == (
            0u8,
            0xFFu8,
        ),
{
    if forall|b: u8| #[trigger] in_ranges(ranges, b) {
        assert(in_ranges(ranges, 0));
        let i = choose|i: int| 0 <= i < ranges.len() && (#[trigger] ranges[i]).0 <= 0 <= ranges[i].1;
        if i > 0 {
            assert(ranges[0].1 + 1 < ranges[i].0);
        }
        let end = ranges[0].1;
        if end < 0xFF {
            let b = (end + 1) as u8;
            assert(in_ranges(ranges, b));
            let j = choose|j: int| 0 <= j < ranges.len() && (#[trigger] ranges[j]).0 <= b <= ranges[j].1;
            if j > 0 {
                assert(ranges[0].1 + 1 < ranges[j].0);
            }
        } else if ranges.len() > 1 {
            assert(ranges[0].1 + 1 < ranges[1].0);
        }
    }
    if ranges.len() == 1 && ranges[0] == (0u8, 0xFFu8) {
        assert forall|b: u8| #[trigger] in_ranges(ranges, b) by {
            assert(ranges[0].0 <= b <= ranges[0].1);
        }
    }
}

/// Sorting ranges changes neither what they cover nor whether they are valid.
proof fn lemma_sorted_ranges(n: Seq<(u8, u8)>, s: Seq<(u8, u8)>)
    requires
        sorting::is_stable_sort(n, s),
    ensures
        forall|b: u8| #[trigger] in_ranges(n, b) <==> in_ranges(s, b),
        (forall|i: int| 0 <= i < n.len() ==> (#[trigger] n[i]).0 <= n[i].1) ==> forall|i: int|
            0 <= i < s.len() ==> (#[trigger] s[i]).0 <= s[i].1,
{
    assert forall|b: u8| #[trigger] in_ranges(n, b) <==> in_ranges(s, b) by {
        if in_ranges(n, b) {
            let i = choose|i: int| 0 <= i < n.len() && (#[trigger] n[i]).0 <= b <= n[i].1;
            assert(n.contains(n[i]));
            lemma_sort_contains(n, s, n[i]);
            let j = s.index_of(n[i]);
            assert(s[j].0 <= b <= s[j].1);
        }
        if in_ranges(s, b) {
            let i = choose|i: int| 0 <= i < s.len() && (#[trigger] s[i]).0 <= b <= s[i].1;
            assert(s.contains(s[i]));
            lemma_sort_contains(n, s, s[i]);
            let j = n.index_of(s[i]);
            assert(n[j].0 <= b <= n[j].1);
        }
    }
    if forall|i: int| 0 <= i < n.len() ==> (#[trigger] n[i]).0 <= n[i].1 {
        assert forall|i: int| 0 <= i < s.len() implies (#[trigger] s[i]).0 <= s[i].1 by {
            assert(s.contains(s[i]));
            lemma_sort_contains(n, s, s[i]);
            let j = n.index_of(s[i]);
            assert(n[j].0 <= n[j].1);
        }
    }
}

} // verus!
