//! From parsed patterns to expressions.

use crate::byteset;
use crate::byteset::{byteset_256, byteset_from_range, byteset_union};
use crate::escape;
use crate::expr;
use crate::expr::{ExprRef, ExprSet};
use crate::lang;
use crate::lang::{Lang, Reading};
use crate::syntax;
use crate::syntax::{Kind, KindView, Pattern, Syntax};
use vstd::prelude::*;

verus! {

/// The bytes of the ranges.
pub open spec fn byte_set(ranges: Seq<(u8, u8)>) -> Set<u8> {
    Set::new(|b: u8| escape::in_ranges(ranges, b))
}

/// Whether the character lies in one of the ranges.
pub open spec fn in_char_ranges(ranges: Seq<(char, char)>, c: char) -> bool {
    exists|k: int| 0 <= k < ranges.len() && (#[trigger] ranges[k]).0 <= c <= ranges[k].1
}

/// The writings of the UTF-8 encodings of the characters of the ranges.
pub open spec fn chars(ranges: Seq<(char, char)>, s: Reading) -> Lang {
    |w: Seq<u8>|
        exists|c: char| #[trigger] in_char_ranges(ranges, c) && lang::writes(s, syntax::utf8(c), w)
}

/// The upper bound of a repetition, where `u32::MAX` and no number mean that there is none.
pub open spec fn upper_bound(max: Option<u32>) -> Option<nat> {
    match max {
        Some(m) => expr::max_bound(m),
        None => None,
    }
}

/// Whether the pattern holds no condition on the surroundings of a match.
pub open spec fn look_free(t: Syntax) -> bool
    decreases t,
{
    &&& !(t.kind is Start || t.kind is End || t.kind is Other)
    &&& forall|k: int| 0 <= k < t.subs.len() ==> look_free(#[trigger] t.subs[k])
}

/// The language of a pattern that holds no such condition.
pub open spec fn meaning(t: Syntax, s: Reading) -> Lang
    decreases t, 0nat,
{
    match t.kind {
        KindView::Empty => lang::epsilon(),
        KindView::Literal(bytes) => lang::literal(bytes, s),
        KindView::Bytes(ranges) => lang::one_of(byte_set(ranges), s),
        KindView::Chars(ranges) => chars(ranges, s),
        KindView::Repetition(min, max) => if t.subs.len() > 0 {
            lang::repeat(meaning(t.subs[0], s), min as nat, upper_bound(max))
        } else {
            lang::none()
        },
        KindView::Capture(_) => if t.subs.len() > 0 {
            meaning(t.subs[0], s)
        } else {
            lang::none()
        },
        KindView::Concat => meaning_from(t.subs, 0, s),
        KindView::Alternation => |w: Seq<u8>|
            exists|k: int| 0 <= k < t.subs.len() && meaning(#[trigger] t.subs[k], s)(w),
        KindView::Start | KindView::End | KindView::Other => lang::none(),
    }
}

/// The language of the parts from the `k`-th on, one after another.
pub open spec fn meaning_from(ts: Seq<Syntax>, k: nat, s: Reading) -> Lang
    decreases ts, ts.len() - k,
{
    if k < ts.len() {
        lang::cat(meaning(ts[k as int], s), meaning_from(ts, k + 1, s))
    } else {
        lang::epsilon()
    }
}

/// Whether conditions on the surroundings stand only where they can be met by where the pattern
/// stands: `^` at its start, where that is the start of the text, and `$` at its end, where that
/// is the end of the text.
pub open spec fn placed(t: Syntax, at_start: bool, at_end: bool) -> bool
    decreases t,
{
    look_free(t) || match t.kind {
        KindView::Start => at_start,
        KindView::End => at_end,
        KindView::Capture(_) => t.subs.len() > 0 && placed(t.subs[0], at_start, at_end),
        KindView::Concat => forall|k: int|
            0 <= k < t.subs.len() ==> placed(
                #[trigger] t.subs[k],
                at_start && k == 0,
                at_end && k == t.subs.len() - 1,
            ),
        KindView::Alternation => forall|k: int|
            0 <= k < t.subs.len() ==> placed(#[trigger] t.subs[k], at_start, at_end),
        _ => false,
    }
}

/// Whether the pattern, with its conditions placed as [`placed`] says, matches the text `w` from
/// `i` to `j`.
pub open spec fn matches_at(t: Syntax, s: Reading, w: Seq<u8>, i: int, j: int) -> bool
    decreases t, 0nat,
{
    if look_free(t) {
        meaning(t, s)(w.subrange(i, j))
    } else {
        match t.kind {
            KindView::Start => i == 0 && j == 0,
            KindView::End => i == w.len() && j == w.len(),
            KindView::Capture(_) => t.subs.len() > 0 && matches_at(t.subs[0], s, w, i, j),
            KindView::Concat => matches_from(t.subs, 0, s, w, i, j),
            KindView::Alternation => exists|k: int|
                0 <= k < t.subs.len() && matches_at(#[trigger] t.subs[k], s, w, i, j),
            _ => false,
        }
    }
}

/// Whether `m` lies between two places.
pub open spec fn between(i: int, m: int, j: int) -> bool {
    i <= m <= j
}

/// Whether the parts from the `k`-th on match the text, one after another, from `i` to `j`.
pub open spec fn matches_from(ts: Seq<Syntax>, k: nat, s: Reading, w: Seq<u8>, i: int, j: int) -> bool
    decreases ts, ts.len() - k,
{
    if k < ts.len() {
        exists|m: int| #[trigger]
            between(i, m, j) && matches_at(ts[k as int], s, w, i, m) && matches_from(
                ts,
                k + 1,
                s,
                w,
                m,
                j,
            )
    } else {
        i == j
    }
}

/// All text: any characters, in UTF-8.
pub open spec fn any_text(s: Reading) -> Lang {
    lang::repeat(chars(seq![('\0', '\u{10FFFF}')], s), 0, None)
}

/// What may stand between two places of the text: nothing, or any text where `open`.
pub open spec fn gap(open: bool, s: Reading, w: Seq<u8>, i: int, j: int) -> bool {
    i <= j && if open {
        any_text(s)(w.subrange(i, j))
    } else {
        i == j
    }
}

/// Whether the pattern matches the text between `i` and `j`, all of it but for the gaps on the
/// left and on the right.
pub open spec fn found(
    t: Syntax,
    left: bool,
    right: bool,
    s: Reading,
    w: Seq<u8>,
    i: int,
    j: int,
) -> bool {
    exists|a: int, b: int|
        a <= b && #[trigger] gap(left, s, w, i, a) && #[trigger] gap(right, s, w, b, j)
            && matches_at(t, s, w, a, b)
}

/// The language of a pattern: the texts that it matches, or, for a search, in which it matches.
pub open spec fn accepts(t: Syntax, search: bool, s: Reading, w: Seq<u8>) -> bool {
    found(t, search, search, s, w, 0, w.len() as int)
}

/// Any text where `open`, and else the empty string only.
pub open spec fn gap_lang(open: bool, s: Reading) -> Lang {
    if open {
        any_text(s)
    } else {
        lang::epsilon()
    }
}

/// The language of a pattern that stands at the start of the text, at its end, at both or at
/// neither. For a search, any text may stand before and after it there.
pub open spec fn placed_lang(
    t: Syntax,
    at_start: bool,
    at_end: bool,
    search: bool,
    s: Reading,
) -> Lang
    decreases t, 0nat,
{
    if look_free(t) {
        lang::cat(
            gap_lang(at_start && search, s),
            lang::cat(meaning(t, s), gap_lang(at_end && search, s)),
        )
    } else {
        match t.kind {
            KindView::Start => gap_lang(at_end && search, s),
            KindView::End => gap_lang(at_start && search, s),
            KindView::Capture(_) => if t.subs.len() > 0 {
                placed_lang(t.subs[0], at_start, at_end, search, s)
            } else {
                lang::none()
            },
            KindView::Concat => placed_from(t.subs, 0, at_start, at_end, search, s),
            KindView::Alternation => |w: Seq<u8>|
                exists|k: int|
                    0 <= k < t.subs.len() && placed_lang(
                        #[trigger] t.subs[k],
                        at_start,
                        at_end,
                        search,
                        s,
                    )(w),
            _ => lang::none(),
        }
    }
}

/// The language of the parts from the `k`-th on of a pattern that stands there.
pub open spec fn placed_from(
    ts: Seq<Syntax>,
    k: nat,
    at_start: bool,
    at_end: bool,
    search: bool,
    s: Reading,
) -> Lang
    decreases ts, ts.len() - k,
{
    if k < ts.len() {
        lang::cat(
            placed_lang(
                ts[k as int],
                at_start && k == 0,
                at_end && k + 1 == ts.len(),
                search,
                s,
            ),
            placed_from(ts, k + 1, at_start, at_end, search, s),
        )
    } else {
        lang::epsilon()
    }
}

/// Whether the pattern holds no condition on the surroundings of a match.
pub(crate) fn is_look_free(h: &Pattern) -> (r: bool)
    ensures
        r == look_free(h@),
    decreases h@,
{
    let ghost t = h@;
    match &h.kind {
        Kind::Start | Kind::End | Kind::Other => false,
        _ => {
            let parts: &[Pattern] = h.subs.as_slice();
            proof {
                syntax::pattern_parts(*h);
            }
            let mut k: usize = 0;
            while k < parts.len()
                invariant
                    k <= parts@.len(),
                    t == h@,
                    parts@.len() == t.subs.len(),
                    forall|n: int|
                        0 <= n < parts@.len() ==> (#[trigger] parts@[n])@
                            == t.subs[n],
                    forall|n: int| 0 <= n < k ==> look_free(#[trigger] t.subs[n]),
                decreases parts@.len() - k,
            {
                proof {
                    assert(decreases_to!(t => t.subs[k as int]));
                }
                if !is_look_free(&parts[k]) {
                    assert(!look_free(t.subs[k as int]));
                    return false;
                }
                k = k + 1;
            }
            true
        },
    }
}

/// The bytes from `lo` to `hi`.
spec fn range_set(lo: u8, hi: u8) -> Set<u8> {
    Set::new(|b: u8| lo <= b <= hi)
}

/// One byte of each range, one after another.
spec fn each_of(ranges: Seq<(u8, u8)>, s: Reading) -> Lang
    decreases ranges.len(),
{
    if ranges.len() == 0 {
        lang::epsilon()
    } else {
        lang::cat(
            lang::one_of(range_set(ranges[0].0, ranges[0].1), s),
            each_of(ranges.skip(1), s),
        )
    }
}

/// `w` is a writing of a byte string that has one byte of each range.
spec fn writes_ranges(ranges: Seq<(u8, u8)>, s: Reading, w: Seq<u8>) -> bool {
    exists|v: Seq<u8>| #[trigger] syntax::in_byte_ranges(ranges, v) && lang::writes(s, v, w)
}

proof fn lemma_each_of(ranges: Seq<(u8, u8)>, s: Reading, w: Seq<u8>)
    ensures
        each_of(ranges, s)(w) == writes_ranges(ranges, s, w),
    decreases ranges.len(),
{
    if ranges.len() == 0 {
        if w.len() == 0 {
            let v = Seq::<u8>::empty();
            assert(syntax::in_byte_ranges(ranges, v) && lang::writes(s, v, w));
        }
    } else {
        let rest = ranges.skip(1);
        let set = range_set(ranges[0].0, ranges[0].1);
        let one = lang::one_of(set, s);
        if each_of(ranges, s)(w) {
            let i = lang::cat_split(one, each_of(rest, s), w);
            let b = choose|b: u8| #[trigger] set.contains(b) && s(b, w.take(i));
            lemma_each_of(rest, s, w.skip(i));
            let u = choose|u: Seq<u8>| #[trigger]
                syntax::in_byte_ranges(rest, u) && lang::writes(s, u, w.skip(i));
            let v = seq![b] + u;
            assert(v.skip(1) =~= u);
            assert(v[0] == b);
            assert forall|k: int| 0 <= k < v.len() implies ranges[k].0 <= #[trigger] v[k]
                <= ranges[k].1 by {
                if k > 0 {
                    assert(v[k] == u[k - 1] && ranges[k] == rest[k - 1]);
                }
            }
            assert(syntax::in_byte_ranges(ranges, v));
            assert(lang::writes(s, v, w));
        }
        if writes_ranges(ranges, s, w) {
            let v = choose|v: Seq<u8>| #[trigger]
                syntax::in_byte_ranges(ranges, v) && lang::writes(s, v, w);
            let i = choose|i: int|
                #![trigger w.take(i)]
                0 <= i <= w.len() && s(v[0], w.take(i)) && lang::writes(s, v.skip(1), w.skip(i));
            let u = v.skip(1);
            assert forall|k: int| 0 <= k < u.len() implies rest[k].0 <= #[trigger] u[k]
                <= rest[k].1 by {
                assert(u[k] == v[k + 1] && rest[k] == ranges[k + 1]);
            }
            assert(syntax::in_byte_ranges(rest, u));
            lemma_each_of(rest, s, w.skip(i));
            assert(ranges[0].0 <= v[0] <= ranges[0].1);
            assert(set.contains(v[0]));
            assert(one(w.take(i)));
            lang::cat_intro(one, each_of(rest, s), w.take(i), w.skip(i));
            assert(w =~= w.take(i) + w.skip(i));
        }
    }
}

/// Matches one byte of each range, one after another.
fn mk_each_of(exprset: &mut ExprSet, ranges: &[(u8, u8)]) -> (r: ExprRef)
    requires
        old(exprset).wf(),
    ensures
        final(exprset).wf(),
        final(exprset).keeps(old(exprset)),
        final(exprset).adds_no_lookahead(old(exprset)),
        final(exprset).valid(r),
        final(exprset).clear(r),
        forall|s: Reading| #[trigger] final(exprset).lang(r, s) == each_of(ranges@, s),
{
    let mut r: ExprRef = ExprRef::empty_string();
    let mut k: usize = ranges.len();
    proof {
        exprset.lemma_constants();
        assert(ranges@.skip(k as int).len() == 0);
    }
    while k > 0
        invariant
            k <= ranges@.len(),
            exprset.wf(),
            exprset.keeps(old(exprset)),
            exprset.adds_no_lookahead(old(exprset)),
            exprset.valid(r),
            exprset.clear(r),
            forall|s: Reading| #[trigger]
                exprset.lang(r, s) == each_of(ranges@.skip(k as int), s),
        decreases k,
    {
        let ghost before = *exprset;
        let ghost t = r;
        k = k - 1;
        let words: Vec<u32> = byteset_from_range(ranges[k].0, ranges[k].1);
        let e = exprset.mk_byte_set(words.as_slice());
        let ghost mid = *exprset;
        r = exprset.mk_concat(e, r);
        proof {
            let u = ranges@.skip(k as int);
            assert(u.skip(1) =~= ranges@.skip(k + 1));
            assert(byteset::byteset(words@) =~= range_set(u[0].0, u[0].1));
            assert forall|s: Reading| #[trigger] exprset.lang(r, s) == each_of(u, s) by {
                assert(mid.tree(t) == before.tree(t));
                assert(before.lang(t, s) == each_of(ranges@.skip(k + 1), s));
                assert(mid.lang(e, s) == lang::one_of(range_set(u[0].0, u[0].1), s));
            }
        }
    }
    assert(ranges@.skip(0) =~= ranges@);
    r
}

/// `w` is a writing of the UTF-8 encoding of a character of the range.
spec fn writes_char(start: char, end: char, s: Reading, w: Seq<u8>) -> bool {
    exists|c: char| start <= c <= end && lang::writes(s, #[trigger] syntax::utf8(c), w)
}

/// `w` is a writing of a byte string of one of the first `n` sequences of ranges.
spec fn writes_lists(lists: Seq<Seq<(u8, u8)>>, n: int, s: Reading, w: Seq<u8>) -> bool {
    exists|k: int| 0 <= k < n && writes_ranges(#[trigger] lists[k], s, w)
}

proof fn lemma_writes_char(
    lists: Seq<Seq<(u8, u8)>>,
    start: char,
    end: char,
    s: Reading,
    w: Seq<u8>,
)
    requires
        forall|v: Seq<u8>| #[trigger]
            syntax::in_range_lists(lists, v) <==> syntax::encodes(start, end, v),
    ensures
        writes_lists(lists, lists.len() as int, s, w) == writes_char(start, end, s, w),
{
    if writes_lists(lists, lists.len() as int, s, w) {
        let k = choose|k: int| 0 <= k < lists.len() && writes_ranges(#[trigger] lists[k], s, w);
        let v = choose|v: Seq<u8>| #[trigger]
            syntax::in_byte_ranges(lists[k], v) && lang::writes(s, v, w);
        assert(syntax::in_range_lists(lists, v));
        let c = choose|c: char| start <= c <= end && #[trigger] syntax::utf8(c) == v;
        assert(lang::writes(s, syntax::utf8(c), w));
    }
    if writes_char(start, end, s, w) {
        let c = choose|c: char|
            start <= c <= end && lang::writes(s, #[trigger] syntax::utf8(c), w);
        let v = syntax::utf8(c);
        assert(syntax::encodes(start, end, v));
        assert(syntax::in_range_lists(lists, v));
        let k = choose|k: int|
            0 <= k < lists.len() && syntax::in_byte_ranges(#[trigger] lists[k], v);
        assert(writes_ranges(lists[k], s, w));
    }
}

/// Appends to `alts` the UTF-8 encodings of the characters of the range.
fn push_chars(exprset: &mut ExprSet, alts: &mut Vec<ExprRef>, start: char, end: char)
    requires
        old(exprset).wf(),
        old(exprset).all_valid(old(alts)@),
    ensures
        final(exprset).wf(),
        final(exprset).keeps(old(exprset)),
        final(exprset).adds_no_lookahead(old(exprset)),
        final(exprset).all_valid(final(alts)@),
        old(exprset).all_clear(old(alts)@) ==> final(exprset).all_clear(final(alts)@),
        forall|s: Reading, w: Seq<u8>| #[trigger]
            lang::union(final(exprset).langs(final(alts)@, s))(w) == (lang::union(
                old(exprset).langs(old(alts)@, s),
            )(w) || writes_char(start, end, s, w)),
{
    let ghost e0 = *exprset;
    let ghost a0 = alts@;
    let sequences: Vec<Vec<(u8, u8)>> = syntax::utf8_sequences(start, end);
    let ghost lists = syntax::range_lists(sequences@);
    let mut k: usize = 0;
    while k < sequences.len()
        invariant
            k <= sequences@.len(),
            lists == syntax::range_lists(sequences@),
            exprset.wf(),
            exprset.keeps(&e0),
            exprset.adds_no_lookahead(&e0),
            exprset.all_valid(alts@),
            e0.all_clear(a0) ==> exprset.all_clear(alts@),
            forall|s: Reading, w: Seq<u8>| #[trigger]
                lang::union(exprset.langs(alts@, s))(w) == (lang::union(e0.langs(a0, s))(w)
                    || writes_lists(lists, k as int, s, w)),
        decreases sequences@.len() - k,
    {
        let ghost e1 = *exprset;
        let ghost a1 = alts@;
        let r = mk_each_of(exprset, sequences[k].as_slice());
        alts.push(r);
        proof {
            assert(lists[k as int] == sequences@[k as int]@);
            assert forall|n: int| 0 <= n < alts@.len() implies exprset.valid(
                #[trigger] alts@[n],
            ) by {
                if n < a1.len() {
                    assert(alts@[n] == a1[n]);
                    assert(e1.valid(a1[n]));
                }
            }
            if e0.all_clear(a0) {
                assert forall|n: int| 0 <= n < alts@.len() implies exprset.clear(
                    #[trigger] alts@[n],
                ) by {
                    if n < a1.len() {
                        assert(alts@[n] == a1[n]);
                        assert(e1.valid(a1[n]) && e1.clear(a1[n]));
                        assert(exprset.tree(a1[n]) == e1.tree(a1[n]));
                    }
                }
            }
            assert forall|s: Reading, w: Seq<u8>| #[trigger]
                lang::union(exprset.langs(alts@, s))(w) == (lang::union(e0.langs(a0, s))(w)
                    || writes_lists(lists, k + 1, s, w)) by {
                exprset.lemma_langs_kept(&e1, a1, s);
                exprset.lemma_union_push(a1, r, s, w);
                assert(lang::union(e1.langs(a1, s))(w) == (lang::union(e0.langs(a0, s))(w)
                    || writes_lists(lists, k as int, s, w)));
                assert(exprset.lang(r, s) == each_of(lists[k as int], s));
                lemma_each_of(lists[k as int], s, w);
                if writes_ranges(lists[k as int], s, w) {
                    assert(writes_lists(lists, k + 1, s, w));
                }
                if writes_lists(lists, k as int, s, w) {
                    let n = choose|n: int|
                        0 <= n < k && writes_ranges(#[trigger] lists[n], s, w);
                    assert(writes_lists(lists, k + 1, s, w));
                }
            }
        }
        k = k + 1;
    }
    proof {
        assert(lists.len() == sequences@.len());
        assert forall|s: Reading, w: Seq<u8>| #[trigger]
            lang::union(exprset.langs(alts@, s))(w) == (lang::union(e0.langs(a0, s))(w)
                || writes_char(start, end, s, w)) by {
            lemma_writes_char(lists, start, end, s, w);
        }
    }
}

/// `w` is a writing of the UTF-8 encoding of a character of one of the first `n` ranges.
spec fn writes_chars(ranges: Seq<(char, char)>, n: int, s: Reading, w: Seq<u8>) -> bool {
    exists|k: int|
        0 <= k < n && writes_char((#[trigger] ranges[k]).0, ranges[k].1, s, w)
}

proof fn lemma_writes_chars(ranges: Seq<(char, char)>, s: Reading, w: Seq<u8>)
    ensures
        writes_chars(ranges, ranges.len() as int, s, w) == chars(ranges, s)(w),
{
    if writes_chars(ranges, ranges.len() as int, s, w) {
        let k = choose|k: int|
            0 <= k < ranges.len() && writes_char((#[trigger] ranges[k]).0, ranges[k].1, s, w);
        let c = choose|c: char|
            ranges[k].0 <= c <= ranges[k].1 && lang::writes(s, #[trigger] syntax::utf8(c), w);
        assert(in_char_ranges(ranges, c));
    }
    if chars(ranges, s)(w) {
        let c = choose|c: char| #[trigger]
            in_char_ranges(ranges, c) && lang::writes(s, syntax::utf8(c), w);
        let k = choose|k: int| 0 <= k < ranges.len() && (#[trigger] ranges[k]).0 <= c <= ranges[k].1;
        assert(writes_char(ranges[k].0, ranges[k].1, s, w));
    }
}

/// Matches the UTF-8 encoding of a character of one of the ranges.
fn mk_chars(exprset: &mut ExprSet, ranges: &[(char, char)]) -> (r: ExprRef)
    requires
        old(exprset).wf(),
    ensures
        final(exprset).wf(),
        final(exprset).keeps(old(exprset)),
        final(exprset).adds_no_lookahead(old(exprset)),
        final(exprset).valid(r),
        final(exprset).clear(r),
        forall|s: Reading| #[trigger] final(exprset).lang(r, s) == chars(ranges@, s),
{
    let mut alts: Vec<ExprRef> = Vec::new();
    let mut k: usize = 0;
    while k < ranges.len()
        invariant
            k <= ranges@.len(),
            exprset.wf(),
            exprset.keeps(old(exprset)),
            exprset.adds_no_lookahead(old(exprset)),
            exprset.all_valid(alts@),
            exprset.all_clear(alts@),
            forall|s: Reading, w: Seq<u8>| #[trigger]
                lang::union(exprset.langs(alts@, s))(w) == writes_chars(ranges@, k as int, s, w),
        decreases ranges@.len() - k,
    {
        let ghost e1 = *exprset;
        let ghost a1 = alts@;
        let (start, end): (char, char) = ranges[k];
        push_chars(exprset, &mut alts, start, end);
        proof {
            assert forall|s: Reading, w: Seq<u8>| #[trigger]
                lang::union(exprset.langs(alts@, s))(w) == writes_chars(
                ranges@,
                k + 1,
                s,
                w,
            ) by {
                assert(lang::union(e1.langs(a1, s))(w) == writes_chars(ranges@, k as int, s, w));
                assert(ranges@[k as int] == (start, end));
            }
        }
        k = k + 1;
    }
    let ghost e1 = *exprset;
    let r = exprset.mk_or(alts.as_slice());
    proof {
        assert forall|s: Reading| #[trigger] exprset.lang(r, s) == chars(ranges@, s) by {
            let u = lang::union(e1.langs(alts@, s));
            assert forall|w: Seq<u8>| #[trigger] u(w) == chars(ranges@, s)(w) by {
                lemma_writes_chars(ranges@, s, w);
            }
            assert(u =~= chars(ranges@, s));
        }
    }
    r
}

/// Matches a byte of one of the ranges.
fn mk_bytes(exprset: &mut ExprSet, ranges: &[(u8, u8)]) -> (r: ExprRef)
    requires
        old(exprset).wf(),
    ensures
        final(exprset).wf(),
        final(exprset).keeps(old(exprset)),
        final(exprset).adds_no_lookahead(old(exprset)),
        final(exprset).valid(r),
        final(exprset).clear(r),
        forall|s: Reading| #[trigger]
            final(exprset).lang(r, s) == lang::one_of(byte_set(ranges@), s),
{
    let mut words: Vec<u32> = byteset_256();
    let mut k: usize = 0;
    proof {
        assert(byteset::byteset(words@) =~= byte_set(ranges@.take(0)));
    }
    while k < ranges.len()
        invariant
            k <= ranges@.len(),
            words@.len() == byteset::BYTESET_WORDS,
            byteset::byteset(words@) == byte_set(ranges@.take(k as int)),
        decreases ranges@.len() - k,
    {
        let more: Vec<u32> = byteset_from_range(ranges[k].0, ranges[k].1);
        byteset_union(&mut words, more.as_slice());
        proof {
            let t = ranges@.take(k as int);
            let u = ranges@.take(k + 1);
            assert(u =~= t.push(ranges@[k as int]));
            assert forall|b: u8| #[trigger]
                byteset::byteset(words@).contains(b) == byte_set(u).contains(b) by {
                if escape::in_ranges(t, b) {
                    let n = choose|n: int| 0 <= n < t.len() && (#[trigger] t[n]).0 <= b <= t[n].1;
                    assert(u[n].0 <= b <= u[n].1);
                }
                if ranges@[k as int].0 <= b <= ranges@[k as int].1 {
                    assert(u[k as int].0 <= b <= u[k as int].1);
                }
                if escape::in_ranges(u, b) {
                    let n = choose|n: int| 0 <= n < u.len() && (#[trigger] u[n]).0 <= b <= u[n].1;
                    if n < k {
                        assert(t[n].0 <= b <= t[n].1);
                    }
                }
            }
            assert(byteset::byteset(words@) =~= byte_set(u));
        }
        k = k + 1;
    }
    assert(ranges@.take(k as int) =~= ranges@);
    exprset.mk_byte_set(words.as_slice())
}

/// The expression of a pattern that holds no condition on the surroundings of a match.
pub(crate) fn mk_look_free(exprset: &mut ExprSet, h: &Pattern) -> (r: ExprRef)
    requires
        old(exprset).wf(),
        look_free(h@),
    ensures
        final(exprset).wf(),
        final(exprset).keeps(old(exprset)),
        !has_stop(h@) ==> final(exprset).adds_no_lookahead(old(exprset)),
        final(exprset).valid(r),
        is_stop_capture(h@) ==> lang::fresh_lookahead(final(exprset).tree(r)),
        stops_match(h@) ==> final(exprset).clear(r),
        forall|s: Reading| #[trigger]
            final(exprset).lang(r, s) == meaning(h@, s),
    decreases h@,
{
    let ghost t = h@;
    proof {
        exprset.lemma_constants();
    }
    match &h.kind {
        Kind::Empty => ExprRef::empty_string(),
        Kind::Literal(bytes) => exprset.mk_byte_literal(bytes.as_slice()),
        Kind::Bytes(ranges) => mk_bytes(exprset, ranges.as_slice()),
        Kind::Chars(ranges) => mk_chars(exprset, ranges.as_slice()),
        Kind::Start | Kind::End | Kind::Other => ExprRef::no_match(),
        Kind::Repetition(min, max) => {
            let parts: &[Pattern] = h.subs.as_slice();
            proof {
                syntax::pattern_parts(*h);
            }
            if parts.len() == 0 {
                return ExprRef::no_match();
            }
            proof {
                assert(decreases_to!(t => t.subs[0]));
                assert(look_free(t.subs[0]));
            }
            let e = mk_look_free(exprset, &parts[0]);
            let max: u32 = match max {
                Some(m) => *m,
                None => u32::MAX,
            };
            exprset.mk_repeat(e, *min, max)
        },
        Kind::Capture(name) => {
            let parts: &[Pattern] = h.subs.as_slice();
            proof {
                syntax::pattern_parts(*h);
            }
            if parts.len() == 0 {
                return ExprRef::no_match();
            }
            proof {
                assert(decreases_to!(t => t.subs[0]));
                assert(look_free(t.subs[0]));
            }
            let e = mk_look_free(exprset, &parts[0]);
            if is_stop(name) {
                proof {
                    if stops_match(t) {
                        let w = choose|w: Seq<u8>| #[trigger]
                            meaning(t.subs[0], lang::plain())(w);
                        assert(exprset.lang(e, lang::plain())(w));
                        exprset.lemma_clear(e);
                    }
                }
                exprset.mk_lookahead(e, 0)
            } else {
                e
            }
        },
        Kind::Concat => {
            let parts: &[Pattern] = h.subs.as_slice();
            proof {
                syntax::pattern_parts(*h);
            }
            let mut r: ExprRef = ExprRef::empty_string();
            let mut k: usize = parts.len();
            while k > 0
                invariant
                    k <= parts@.len(),
                    t == h@,
                    look_free(t),
                    parts@.len() == t.subs.len(),
                    forall|n: int|
                        0 <= n < parts@.len() ==> (#[trigger] parts@[n])@
                            == t.subs[n],
                    exprset.wf(),
                    exprset.keeps(old(exprset)),
                    !has_stop(t) ==> exprset.adds_no_lookahead(old(exprset)),
                    exprset.valid(r),
                    stops_match(t) ==> exprset.clear(r),
                    forall|s: Reading| #[trigger]
                        exprset.lang(r, s) == meaning_from(t.subs, k as nat, s),
                decreases k,
            {
                let ghost before = *exprset;
                let ghost rest = r;
                k = k - 1;
                proof {
                    assert(decreases_to!(t => t.subs[k as int]));
                    assert(look_free(t.subs[k as int]));
                }
                let e = mk_look_free(exprset, &parts[k]);
                let ghost mid = *exprset;
                r = exprset.mk_concat(e, r);
                proof {
                    assert forall|s: Reading| #[trigger]
                        exprset.lang(r, s) == meaning_from(t.subs, k as nat, s) by {
                        assert(mid.tree(rest) == before.tree(rest));
                        assert(before.lang(rest, s) == meaning_from(t.subs, (k + 1) as nat, s));
                        assert(mid.lang(e, s) == meaning(t.subs[k as int], s));
                    }
                }
            }
            r
        },
        Kind::Alternation => {
            let parts: &[Pattern] = h.subs.as_slice();
            proof {
                syntax::pattern_parts(*h);
            }
            let mut args: Vec<ExprRef> = Vec::new();
            let mut k: usize = 0;
            while k < parts.len()
                invariant
                    k <= parts@.len(),
                    t == h@,
                    look_free(t),
                    parts@.len() == t.subs.len(),
                    forall|n: int|
                        0 <= n < parts@.len() ==> (#[trigger] parts@[n])@
                            == t.subs[n],
                    exprset.wf(),
                    exprset.keeps(old(exprset)),
                    !has_stop(t) ==> exprset.adds_no_lookahead(old(exprset)),
                    args@.len() == k,
                    exprset.all_valid(args@),
                    stops_match(t) ==> exprset.all_clear(args@),
                    forall|s: Reading, n: int|
                        0 <= n < k ==> #[trigger] exprset.lang(args@[n], s) == meaning(
                            t.subs[n],
                            s,
                        ),
                decreases parts@.len() - k,
            {
                let ghost e1 = *exprset;
                let ghost a1 = args@;
                proof {
                    assert(decreases_to!(t => t.subs[k as int]));
                    assert(look_free(t.subs[k as int]));
                }
                let e = mk_look_free(exprset, &parts[k]);
                args.push(e);
                proof {
                    assert forall|n: int| 0 <= n < args@.len() implies exprset.valid(
                        #[trigger] args@[n],
                    ) by {
                        if n < a1.len() {
                            assert(args@[n] == a1[n]);
                            assert(e1.valid(a1[n]));
                        }
                    }
                    if stops_match(t) {
                        assert(stops_match(t.subs[k as int]));
                        assert forall|n: int| 0 <= n < args@.len() implies exprset.clear(
                            #[trigger] args@[n],
                        ) by {
                            if n < a1.len() {
                                assert(args@[n] == a1[n]);
                                assert(e1.valid(a1[n]) && e1.clear(a1[n]));
                                assert(exprset.tree(a1[n]) == e1.tree(a1[n]));
                            }
                        }
                    }
                    assert forall|s: Reading, n: int| 0 <= n < k + 1 implies #[trigger] exprset.lang(
                        args@[n],
                        s,
                    ) == meaning(t.subs[n], s) by {
                        if n < k {
                            assert(args@[n] == a1[n]);
                            assert(e1.valid(a1[n]));
                            assert(exprset.tree(a1[n]) == e1.tree(a1[n]));
                            assert(e1.lang(a1[n], s) == meaning(t.subs[n], s));
                        }
                    }
                }
                k = k + 1;
            }
            let ghost e1 = *exprset;
            let r = exprset.mk_or(args.as_slice());
            proof {
                assert forall|s: Reading| #[trigger] exprset.lang(r, s) == meaning(t, s) by {
                    let u = lang::union(e1.langs(args@, s));
                    let m = meaning(t, s);
                    assert forall|w: Seq<u8>| #[trigger] u(w) == m(w) by {
                        if u(w) {
                            let n = choose|n: int|
                                0 <= n < args@.len() && (#[trigger] e1.langs(args@, s)[n])(w);
                            assert(e1.lang(args@[n], s) == meaning(t.subs[n], s));
                        }
                        if m(w) {
                            let n = choose|n: int|
                                0 <= n < t.subs.len() && meaning(#[trigger] t.subs[n], s)(w);
                            assert(e1.lang(args@[n], s) == meaning(t.subs[n], s));
                            assert(e1.langs(args@, s)[n](w));
                        }
                    }
                    assert(u =~= m);
                }
            }
            r
        },
    }
}

/// The pattern is a capture that is named `stop`, which makes a lookahead of it.
pub open spec fn is_stop_capture(t: Syntax) -> bool {
    t.kind matches KindView::Capture(name) && name == Some("stop"@) && t.subs.len() > 0
}

/// The pattern has a capture that is named `stop`.
pub open spec fn has_stop(t: Syntax) -> bool
    decreases t,
{
    ||| is_stop_capture(t)
    ||| exists|k: int| 0 <= k < t.subs.len() && has_stop(#[trigger] t.subs[k])
}

/// Some text matches the pattern.
pub open spec fn matches_some(t: Syntax) -> bool {
    exists|w: Seq<u8>| #[trigger] meaning(t, lang::plain())(w)
}

/// Each capture of the pattern that is named `stop` matches some text.
pub open spec fn stops_match(t: Syntax) -> bool
    decreases t,
{
    &&& is_stop_capture(t) ==> matches_some(t.subs[0])
    &&& forall|k: int| 0 <= k < t.subs.len() ==> stops_match(#[trigger] t.subs[k])
}

/// A pattern without such a capture has none that matches nothing.
pub proof fn no_stops_match(t: Syntax)
    requires
        !has_stop(t),
    ensures
        stops_match(t),
    decreases t,
{
    assert forall|k: int| 0 <= k < t.subs.len() implies stops_match(#[trigger] t.subs[k]) by {
        no_stops_match(t.subs[k]);
    }
}

/// Whether a capture is named `stop`.
pub(crate) fn is_stop(name: &Option<String>) -> (r: bool)
    ensures
        r == (name matches Some(n) && n@ == "stop"@),
{
    match name {
        Some(n) => *n == "stop".to_string(),
        None => false,
    }
}

/// A stretch of the text that reaches its start and its end, where that is asked for.
pub open spec fn in_place(at_start: bool, at_end: bool, w: Seq<u8>, i: int, j: int) -> bool {
    &&& 0 <= i <= j <= w.len()
    &&& at_start ==> i == 0
    &&& at_end ==> j == w.len()
}

/// Whether the parts from the `k`-th on are found, one after another, between `i` and `j`.
spec fn found_from(
    ts: Seq<Syntax>,
    k: nat,
    left: bool,
    right: bool,
    s: Reading,
    w: Seq<u8>,
    i: int,
    j: int,
) -> bool {
    exists|a: int, b: int|
        a <= b && #[trigger] gap(left, s, w, i, a) && #[trigger] gap(right, s, w, b, j)
            && matches_from(ts, k, s, w, a, b)
}

/// The `k`-th part is found up to `m`, and the parts after it are found from there on.
spec fn splits(
    ts: Seq<Syntax>,
    k: nat,
    left: bool,
    here: bool,
    rest: bool,
    s: Reading,
    w: Seq<u8>,
    i: int,
    m: int,
    j: int,
) -> bool {
    &&& i <= m <= j
    &&& found(ts[k as int], left, here, s, w, i, m)
    &&& found_from(ts, k + 1, false, rest, s, w, m, j)
}

proof fn lemma_any_empty(s: Reading, v: Seq<u8>)
    requires
        v.len() == 0,
    ensures
        any_text(s)(v),
{
    let a = chars(seq![('\0', '\u{10FFFF}')], s);
    assert(lang::power(a, 0)(v));
}

proof fn lemma_gap(open: bool, s: Reading, w: Seq<u8>, i: int, j: int)
    requires
        0 <= i <= j <= w.len(),
    ensures
        gap_lang(open, s)(w.subrange(i, j)) == gap(open, s, w, i, j),
{
}

/// Where no part is left, only the empty stretch is matched.
proof fn lemma_found_none(ts: Seq<Syntax>, s: Reading, w: Seq<u8>, i: int, j: int)
    ensures
        found_from(ts, ts.len(), false, false, s, w, i, j) == (i == j),
{
    if i == j {
        assert(gap(false, s, w, i, i));
        assert(matches_from(ts, ts.len(), s, w, i, i));
    }
}

/// The parts from the `k`-th on are found where the `k`-th is, and the others after it. A gap on
/// the right belongs to the last part.
proof fn lemma_found_step(
    ts: Seq<Syntax>,
    k: nat,
    left: bool,
    right: bool,
    here: bool,
    rest: bool,
    s: Reading,
    w: Seq<u8>,
    i: int,
    j: int,
)
    requires
        k < ts.len(),
        i <= j,
        here == (right && k + 1 == ts.len()),
        rest == (right && k + 1 < ts.len()),
    ensures
        found_from(ts, k, left, right, s, w, i, j) == exists|m: int| #[trigger]
            splits(ts, k, left, here, rest, s, w, i, m, j),
{
    let last = k + 1 == ts.len();
    let t = ts[k as int];
    if found_from(ts, k, left, right, s, w, i, j) {
        let (a, b) = choose|a: int, b: int|
            a <= b && #[trigger] gap(left, s, w, i, a) && #[trigger] gap(right, s, w, b, j)
                && matches_from(ts, k, s, w, a, b);
        let m0 = choose|m: int| #[trigger]
            between(a, m, b) && matches_at(t, s, w, a, m) && matches_from(ts, k + 1, s, w, m, b);
        if last {
            assert(m0 == b);
            assert(found(t, left, here, s, w, i, j));
            lemma_found_none(ts, s, w, j, j);
            assert(splits(ts, k, left, here, rest, s, w, i, j, j));
        } else {
            assert(gap(false, s, w, m0, m0));
            assert(found(t, left, here, s, w, i, m0));
            assert(found_from(ts, k + 1, false, rest, s, w, m0, j));
            assert(splits(ts, k, left, here, rest, s, w, i, m0, j));
        }
    }
    if exists|m: int| #[trigger] splits(ts, k, left, here, rest, s, w, i, m, j) {
        let m = choose|m: int| #[trigger] splits(ts, k, left, here, rest, s, w, i, m, j);
        let (a, b1) = choose|a: int, b: int|
            a <= b && #[trigger] gap(left, s, w, i, a) && #[trigger] gap(here, s, w, b, m)
                && matches_at(t, s, w, a, b);
        let (a2, b2) = choose|a: int, b: int|
            a <= b && #[trigger] gap(false, s, w, m, a) && #[trigger] gap(rest, s, w, b, j)
                && matches_from(ts, k + 1, s, w, a, b);
        if last {
            assert(m == j);
            assert(matches_from(ts, k + 1, s, w, b1, b1));
            assert(between(a, b1, b1));
            assert(matches_from(ts, k, s, w, a, b1));
        } else {
            assert(b1 == m);
            assert(between(a, m, b2));
            assert(matches_from(ts, k, s, w, a, b2));
        }
    }
}

/// A pattern without conditions on its surroundings, with the gaps round it.
proof fn lemma_placed_look_free(
    t: Syntax,
    left: bool,
    right: bool,
    s: Reading,
    w: Seq<u8>,
    i: int,
    j: int,
)
    requires
        look_free(t),
        0 <= i <= j <= w.len(),
    ensures
        lang::cat(gap_lang(left, s), lang::cat(meaning(t, s), gap_lang(right, s)))(
            w.subrange(i, j),
        ) == found(t, left, right, s, w, i, j),
{
    let a = gap_lang(left, s);
    let b = gap_lang(right, s);
    let v = w.subrange(i, j);
    let e = meaning(t, s);
    if lang::cat(a, lang::cat(e, b))(v) {
        let p = lang::cat_split(a, lang::cat(e, b), v);
        let q = lang::cat_split(e, b, v.skip(p));
        let x = i + p;
        let y = i + p + q;
        assert(v.take(p) =~= w.subrange(i, x));
        assert(v.skip(p).take(q) =~= w.subrange(x, y));
        assert(v.skip(p).skip(q) =~= w.subrange(y, j));
        assert(gap(left, s, w, i, x) && gap(right, s, w, y, j));
        assert(matches_at(t, s, w, x, y));
    }
    if found(t, left, right, s, w, i, j) {
        let (x, y) = choose|x: int, y: int|
            x <= y && #[trigger] gap(left, s, w, i, x) && #[trigger] gap(right, s, w, y, j)
                && matches_at(t, s, w, x, y);
        assert(a(w.subrange(i, x)));
        assert(b(w.subrange(y, j)));
        lang::cat_intro(e, b, w.subrange(x, y), w.subrange(y, j));
        lang::cat_intro(
            a,
            lang::cat(e, b),
            w.subrange(i, x),
            w.subrange(x, y) + w.subrange(y, j),
        );
        assert(w.subrange(i, x) + (w.subrange(x, y) + w.subrange(y, j)) =~= v);
    }
}

/// `^` is found where what follows it may follow the start of the text.
proof fn lemma_found_start(t: Syntax, left: bool, right: bool, s: Reading, w: Seq<u8>, j: int)
    requires
        t.kind is Start,
        0 <= j <= w.len(),
    ensures
        found(t, left, right, s, w, 0, j) == gap(right, s, w, 0, j),
{
    assert(!look_free(t));
    lemma_any_empty(s, w.subrange(0, 0));
    assert(gap(left, s, w, 0, 0));
    assert(matches_at(t, s, w, 0, 0));
    if found(t, left, right, s, w, 0, j) {
        let (a, b) = choose|a: int, b: int|
            a <= b && #[trigger] gap(left, s, w, 0, a) && #[trigger] gap(right, s, w, b, j)
                && matches_at(t, s, w, a, b);
        assert(b == 0);
    }
}

/// `$` is found where what precedes it may precede the end of the text.
proof fn lemma_found_end(t: Syntax, left: bool, right: bool, s: Reading, w: Seq<u8>, i: int)
    requires
        t.kind is End,
        0 <= i <= w.len(),
    ensures
        found(t, left, right, s, w, i, w.len() as int) == gap(left, s, w, i, w.len() as int),
{
    let n = w.len() as int;
    assert(!look_free(t));
    lemma_any_empty(s, w.subrange(n, n));
    assert(gap(right, s, w, n, n));
    assert(matches_at(t, s, w, n, n));
    if found(t, left, right, s, w, i, n) {
        let (a, b) = choose|a: int, b: int|
            a <= b && #[trigger] gap(left, s, w, i, a) && #[trigger] gap(right, s, w, b, n)
                && matches_at(t, s, w, a, b);
        assert(a == n);
    }
}

/// Patterns that match at the same places are found at the same places.
proof fn lemma_found_same(
    t: Syntax,
    u: Syntax,
    left: bool,
    right: bool,
    s: Reading,
    w: Seq<u8>,
    i: int,
    j: int,
)
    requires
        forall|a: int, b: int| matches_at(t, s, w, a, b) == #[trigger] matches_at(u, s, w, a, b),
    ensures
        found(t, left, right, s, w, i, j) == found(u, left, right, s, w, i, j),
{
    if found(t, left, right, s, w, i, j) {
        let (a, b) = choose|a: int, b: int|
            a <= b && #[trigger] gap(left, s, w, i, a) && #[trigger] gap(right, s, w, b, j)
                && matches_at(t, s, w, a, b);
        assert(matches_at(u, s, w, a, b));
    }
    if found(u, left, right, s, w, i, j) {
        let (a, b) = choose|a: int, b: int|
            a <= b && #[trigger] gap(left, s, w, i, a) && #[trigger] gap(right, s, w, b, j)
                && matches_at(u, s, w, a, b);
        assert(matches_at(t, s, w, a, b));
    }
}

/// A stretch of the text is in the language of a placed pattern if and only if the pattern is
/// found there.
pub proof fn placed_lang_finds(
    t: Syntax,
    at_start: bool,
    at_end: bool,
    search: bool,
    s: Reading,
    w: Seq<u8>,
    i: int,
    j: int,
)
    requires
        placed(t, at_start, at_end),
        in_place(at_start, at_end, w, i, j),
    ensures
        placed_lang(t, at_start, at_end, search, s)(w.subrange(i, j)) == found(
            t,
            at_start && search,
            at_end && search,
            s,
            w,
            i,
            j,
        ),
    decreases t, 0nat,
{
    let left = at_start && search;
    let right = at_end && search;
    let v = w.subrange(i, j);
    if look_free(t) {
        lemma_placed_look_free(t, left, right, s, w, i, j);
    } else {
        match t.kind {
            KindView::Start => {
                lemma_found_start(t, left, right, s, w, j);
                lemma_gap(right, s, w, 0, j);
            },
            KindView::End => {
                lemma_found_end(t, left, right, s, w, i);
                lemma_gap(left, s, w, i, j);
            },
            KindView::Capture(_) => {
                let u = t.subs[0];
                placed_lang_finds(u, at_start, at_end, search, s, w, i, j);
                assert forall|a: int, b: int|
                    matches_at(t, s, w, a, b) == #[trigger] matches_at(u, s, w, a, b) by {}
                lemma_found_same(t, u, left, right, s, w, i, j);
            },
            KindView::Concat => {
                lemma_placed_from(t.subs, 0, at_start, at_end, search, s, w, i, j);
                if found(t, left, right, s, w, i, j) {
                    let (a, b) = choose|a: int, b: int|
                        a <= b && #[trigger] gap(left, s, w, i, a) && #[trigger] gap(
                            right,
                            s,
                            w,
                            b,
                            j,
                        ) && matches_at(t, s, w, a, b);
                    assert(matches_from(t.subs, 0, s, w, a, b));
                }
                if found_from(t.subs, 0, left, right, s, w, i, j) {
                    let (a, b) = choose|a: int, b: int|
                        a <= b && #[trigger] gap(left, s, w, i, a) && #[trigger] gap(
                            right,
                            s,
                            w,
                            b,
                            j,
                        ) && matches_from(t.subs, 0, s, w, a, b);
                    assert(matches_at(t, s, w, a, b));
                }
            },
            KindView::Alternation => {
                assert forall|k: int| 0 <= k < t.subs.len() implies placed_lang(
                    #[trigger] t.subs[k],
                    at_start,
                    at_end,
                    search,
                    s,
                )(v) == found(t.subs[k], left, right, s, w, i, j) by {
                    placed_lang_finds(t.subs[k], at_start, at_end, search, s, w, i, j);
                }
                if found(t, left, right, s, w, i, j) {
                    let (a, b) = choose|a: int, b: int|
                        a <= b && #[trigger] gap(left, s, w, i, a) && #[trigger] gap(
                            right,
                            s,
                            w,
                            b,
                            j,
                        ) && matches_at(t, s, w, a, b);
                    let k = choose|k: int|
                        0 <= k < t.subs.len() && matches_at(#[trigger] t.subs[k], s, w, a, b);
                    assert(found(t.subs[k], left, right, s, w, i, j));
                }
                if placed_lang(t, at_start, at_end, search, s)(v) {
                    let k = choose|k: int|
                        0 <= k < t.subs.len() && placed_lang(
                            #[trigger] t.subs[k],
                            at_start,
                            at_end,
                            search,
                            s,
                        )(v);
                    assert(found(t.subs[k], left, right, s, w, i, j));
                    let (a, b) = choose|a: int, b: int|
                        a <= b && #[trigger] gap(left, s, w, i, a) && #[trigger] gap(
                            right,
                            s,
                            w,
                            b,
                            j,
                        ) && matches_at(t.subs[k], s, w, a, b);
                    assert(matches_at(t, s, w, a, b));
                }
            },
            _ => {},
        }
    }
}

/// As [`placed_lang_finds`], for the parts from the `k`-th on.
proof fn lemma_placed_from(
    ts: Seq<Syntax>,
    k: nat,
    at_start: bool,
    at_end: bool,
    search: bool,
    s: Reading,
    w: Seq<u8>,
    i: int,
    j: int,
)
    requires
        0 < ts.len(),
        k <= ts.len(),
        forall|n: int|
            0 <= n < ts.len() ==> placed(
                #[trigger] ts[n],
                at_start && n == 0,
                at_end && n == ts.len() - 1,
            ),
        in_place(at_start && k == 0, at_end && k < ts.len(), w, i, j),
    ensures
        placed_from(ts, k, at_start, at_end, search, s)(w.subrange(i, j)) == found_from(
            ts,
            k,
            at_start && k == 0 && search,
            at_end && k < ts.len() && search,
            s,
            w,
            i,
            j,
        ),
    decreases ts, ts.len() - k,
{
    let v = w.subrange(i, j);
    if k < ts.len() {
        let last = k + 1 == ts.len();
        let start_here = at_start && k == 0;
        let end_here = at_end && k + 1 == ts.len();
        let end_rest = at_end && k + 1 < ts.len();
        let left = at_start && k == 0 && search;
        let right = at_end && k < ts.len() && search;
        let gap_here = end_here && search;
        let gap_rest = end_rest && search;
        let t = ts[k as int];
        let a = placed_lang(t, start_here, end_here, search, s);
        let b = placed_from(ts, k + 1, at_start, at_end, search, s);
        lemma_found_step(ts, k, left, right, gap_here, gap_rest, s, w, i, j);
        assert(placed(t, start_here, end_here));
        if lang::cat(a, b)(v) {
            let p = lang::cat_split(a, b, v);
            let m = i + p;
            assert(v.take(p) =~= w.subrange(i, m));
            assert(v.skip(p) =~= w.subrange(m, j));
            lemma_placed_from(ts, k + 1, at_start, at_end, search, s, w, m, j);
            if last {
                lemma_found_none(ts, s, w, m, j);
            }
            placed_lang_finds(t, start_here, end_here, search, s, w, i, m);
            assert(splits(ts, k, left, gap_here, gap_rest, s, w, i, m, j));
        }
        if found_from(ts, k, left, right, s, w, i, j) {
            let m = choose|m: int| #[trigger]
                splits(ts, k, left, gap_here, gap_rest, s, w, i, m, j);
            if last {
                lemma_found_none(ts, s, w, m, j);
            }
            lemma_placed_from(ts, k + 1, at_start, at_end, search, s, w, m, j);
            placed_lang_finds(t, start_here, end_here, search, s, w, i, m);
            lang::cat_intro(a, b, w.subrange(i, m), w.subrange(m, j));
            assert(w.subrange(i, m) + w.subrange(m, j) =~= v);
        }
    } else {
        lemma_found_none(ts, s, w, i, j);
    }
}

/// A text is in the language of a pattern if and only if the pattern accepts it.
pub proof fn placed_lang_accepts(t: Syntax, search: bool, s: Reading, w: Seq<u8>)
    requires
        placed(t, true, true),
    ensures
        placed_lang(t, true, true, search, s)(w) == accepts(t, search, s, w),
{
    let n = w.len() as int;
    assert(w.subrange(0, n) =~= w);
    placed_lang_finds(t, true, true, search, s, w, 0, n);
}

} // verus!
