//! What regexes and patterns match, string by string.
//!
//! Everything here is said of strings alone: a concatenation is matched by the join of strings, a
//! repetition by the join of a number of them that lies between its bounds.

use crate::ast;
use crate::ast::{Ast, Head, RegexAst};
use crate::builder;
use crate::derivative;
use crate::error::Error;
use crate::escape;
use crate::escape::StringEscapeOptions;
use crate::expr::{ExprRef, ExprSet};
use crate::image;
use crate::json_quote;
use crate::json_quote::JsonQuoteOptions;
use crate::lang;
use crate::lang::{Lang, Reading, Rx};
use crate::laws;
use crate::number;
use crate::pattern;
use crate::regex;
use crate::remainder;
use crate::semantics;
use crate::syntax;
use crate::syntax::{Kind, KindView, ParserFlags, Pattern, Syntax};
use vstd::prelude::*;

verus! {

/// Under the plain reading a byte is written as itself.
pub proof fn plain_writes_itself(b: u8, v: Seq<u8>)
    ensures
        lang::plain()(b, v) <==> v.len() == 1 && v[0] == b,
{
    if v.len() == 1 && v[0] == b {
        assert(v =~= seq![b]);
    }
}

/// A string of a concatenation is the join of one string of each language.
pub proof fn join_of_each(ls: Seq<Lang>, w: Seq<u8>)
    ensures
        lang::cat_all(ls)(w) <==> exists|parts: Seq<Seq<u8>>| #[trigger]
            parts.flatten() == w && parts.len() == ls.len() && forall|k: int|
                0 <= k < ls.len() ==> ls[k](#[trigger] parts[k]),
    decreases ls.len(),
{
    if ls.len() == 0 {
        let none = Seq::<Seq<u8>>::empty();
        if w.len() == 0 {
            assert(none.flatten() =~= w);
        }
    } else {
        let rest = lang::cat_all(ls.skip(1));
        if lang::cat_all(ls)(w) {
            let i = lang::cat_split(ls[0], rest, w);
            join_of_each(ls.skip(1), w.skip(i));
            let tail = choose|tail: Seq<Seq<u8>>| #[trigger]
                tail.flatten() == w.skip(i) && tail.len() == ls.skip(1).len() && forall|k: int|
                    0 <= k < ls.skip(1).len() ==> ls.skip(1)[k](#[trigger] tail[k]);
            let parts = seq![w.take(i)] + tail;
            assert(parts.drop_first() =~= tail);
            assert(parts.first() == w.take(i));
            assert(parts.flatten() =~= w);
            assert forall|k: int| 0 <= k < ls.len() implies ls[k](#[trigger] parts[k]) by {
                if k > 0 {
                    assert(ls.skip(1)[k - 1](tail[k - 1]));
                }
            }
        }
        if exists|parts: Seq<Seq<u8>>| #[trigger]
            parts.flatten() == w && parts.len() == ls.len() && forall|k: int|
                0 <= k < ls.len() ==> ls[k](#[trigger] parts[k]) {
            let parts = choose|parts: Seq<Seq<u8>>| #[trigger]
                parts.flatten() == w && parts.len() == ls.len() && forall|k: int|
                    0 <= k < ls.len() ==> ls[k](#[trigger] parts[k]);
            let tail = parts.drop_first();
            assert forall|k: int| 0 <= k < ls.skip(1).len() implies ls.skip(1)[k](
                #[trigger] tail[k],
            ) by {
                assert(ls[k + 1](parts[k + 1]));
            }
            join_of_each(ls.skip(1), tail.flatten());
            assert(ls[0](parts[0]));
            lang::cat_intro(ls[0], rest, parts[0], tail.flatten());
            assert(w =~= parts[0] + tail.flatten());
        }
    }
}

/// A string of a power is the join of that many strings of the language.
pub proof fn join_of_power(a: Lang, n: nat, w: Seq<u8>)
    ensures
        lang::power(a, n)(w) <==> exists|parts: Seq<Seq<u8>>| #[trigger]
            parts.flatten() == w && parts.len() == n && forall|k: int|
                0 <= k < n ==> a(#[trigger] parts[k]),
    decreases n,
{
    let ls = Seq::new(n, |k: int| a);
    lemma_power_is_row(a, n);
    join_of_each(ls, w);
    if exists|parts: Seq<Seq<u8>>| #[trigger]
        parts.flatten() == w && parts.len() == ls.len() && forall|k: int|
            0 <= k < ls.len() ==> ls[k](#[trigger] parts[k]) {
        let parts = choose|parts: Seq<Seq<u8>>| #[trigger]
            parts.flatten() == w && parts.len() == ls.len() && forall|k: int|
                0 <= k < ls.len() ==> ls[k](#[trigger] parts[k]);
        assert forall|k: int| 0 <= k < n implies a(#[trigger] parts[k]) by {
            assert(ls[k](parts[k]));
        }
    }
    if exists|parts: Seq<Seq<u8>>| #[trigger]
        parts.flatten() == w && parts.len() == n && forall|k: int|
            0 <= k < n ==> a(#[trigger] parts[k]) {
        let parts = choose|parts: Seq<Seq<u8>>| #[trigger]
            parts.flatten() == w && parts.len() == n && forall|k: int|
                0 <= k < n ==> a(#[trigger] parts[k]);
        assert forall|k: int| 0 <= k < ls.len() implies ls[k](#[trigger] parts[k]) by {
            assert(a(parts[k]));
        }
    }
}

proof fn lemma_power_is_row(a: Lang, n: nat)
    ensures
        lang::power(a, n) == lang::cat_all(Seq::new(n, |k: int| a)),
    decreases n,
{
    if n > 0 {
        let ls = Seq::new(n, |k: int| a);
        lemma_power_is_row(a, (n - 1) as nat);
        assert(ls.skip(1) =~= Seq::new((n - 1) as nat, |k: int| a));
    }
}

/// A string of a repetition is the join of strings of the language, no fewer than `min` and, where
/// there is an upper bound, no more than that.
pub proof fn join_of_repeat(a: Lang, min: nat, max: Option<nat>, w: Seq<u8>)
    ensures
        lang::repeat(a, min, max)(w) <==> exists|parts: Seq<Seq<u8>>| #[trigger]
            parts.flatten() == w && min <= parts.len() && (max matches Some(m) ==> parts.len() <= m)
                && forall|k: int| 0 <= k < parts.len() ==> a(#[trigger] parts[k]),
{
    if lang::repeat(a, min, max)(w) {
        let n = choose|n: nat| lang::in_bounds(n, min, max) && #[trigger] lang::power(a, n)(w);
        join_of_power(a, n, w);
    }
    if exists|parts: Seq<Seq<u8>>| #[trigger]
        parts.flatten() == w && min <= parts.len() && (max matches Some(m) ==> parts.len() <= m)
            && forall|k: int| 0 <= k < parts.len() ==> a(#[trigger] parts[k]) {
        let parts = choose|parts: Seq<Seq<u8>>| #[trigger]
            parts.flatten() == w && min <= parts.len() && (max matches Some(m) ==> parts.len() <= m)
                && forall|k: int| 0 <= k < parts.len() ==> a(#[trigger] parts[k]);
        join_of_power(a, parts.len(), w);
        assert(lang::in_bounds(parts.len(), min, max));
        assert(lang::power(a, parts.len())(w));
    }
}

/// A writing of a string is the join of one writing of each of its bytes.
pub proof fn join_of_writings(s: Reading, u: Seq<u8>, v: Seq<u8>)
    ensures
        lang::writes(s, u, v) <==> exists|parts: Seq<Seq<u8>>| #[trigger]
            parts.flatten() == v && parts.len() == u.len() && forall|k: int|
                0 <= k < u.len() ==> s(u[k], #[trigger] parts[k]),
    decreases u.len(),
{
    if u.len() == 0 {
        let none = Seq::<Seq<u8>>::empty();
        if v.len() == 0 {
            assert(none.flatten() =~= v);
        }
    } else {
        if lang::writes(s, u, v) {
            let i = choose|i: int|
                #![trigger v.take(i)]
                0 <= i <= v.len() && s(u[0], v.take(i)) && lang::writes(s, u.skip(1), v.skip(i));
            join_of_writings(s, u.skip(1), v.skip(i));
            let tail = choose|tail: Seq<Seq<u8>>| #[trigger]
                tail.flatten() == v.skip(i) && tail.len() == u.skip(1).len() && forall|k: int|
                    0 <= k < u.skip(1).len() ==> s(u.skip(1)[k], #[trigger] tail[k]);
            let parts = seq![v.take(i)] + tail;
            assert(parts.drop_first() =~= tail);
            assert(parts.first() == v.take(i));
            assert(parts.flatten() =~= v);
            assert forall|k: int| 0 <= k < u.len() implies s(u[k], #[trigger] parts[k]) by {
                if k > 0 {
                    assert(s(u.skip(1)[k - 1], tail[k - 1]));
                }
            }
        }
        if exists|parts: Seq<Seq<u8>>| #[trigger]
            parts.flatten() == v && parts.len() == u.len() && forall|k: int|
                0 <= k < u.len() ==> s(u[k], #[trigger] parts[k]) {
            let parts = choose|parts: Seq<Seq<u8>>| #[trigger]
                parts.flatten() == v && parts.len() == u.len() && forall|k: int|
                    0 <= k < u.len() ==> s(u[k], #[trigger] parts[k]);
            let tail = parts.drop_first();
            assert forall|k: int| 0 <= k < u.skip(1).len() implies s(
                u.skip(1)[k],
                #[trigger] tail[k],
            ) by {
                assert(s(u[k + 1], parts[k + 1]));
            }
            join_of_writings(s, u.skip(1), tail.flatten());
            assert(s(u[0], parts[0]));
            let i = parts[0].len() as int;
            assert(v == parts[0] + tail.flatten());
            assert(v.take(i) =~= parts[0]);
            assert(v.skip(i) =~= tail.flatten());
        }
    }
}

/// A string is written if it is a writing of some string. Under the plain reading every string is.
pub proof fn written_strings(s: Reading, w: Seq<u8>)
    ensures
        lang::written(s, w) <==> exists|u: Seq<u8>| #[trigger] lang::writes(s, u, w),
        lang::written(lang::plain(), w),
{
    lang::written_plain(w);
}

/// What a repetition matches: the join of `min` to `max` strings that the regex matches, and of `min`
/// or more where `max` is `u32::MAX`.
pub proof fn repeat_matches(
    flags: ParserFlags,
    set: ExprSet,
    a: RegexAst,
    min: u32,
    max: u32,
    s: Reading,
    w: Seq<u8>,
)
    ensures
        semantics::ast_lang(flags, set, RegexAst::Repeat(Box::new(a), min, max)@, s)(w)
            <==> exists|parts: Seq<Seq<u8>>| #[trigger]
            parts.flatten() == w && min <= parts.len() && (max < u32::MAX ==> parts.len() <= max)
                && forall|k: int|
                0 <= k < parts.len() ==> semantics::ast_lang(flags, set, a@, s)(
                    #[trigger] parts[k],
                ),
{
    let l = semantics::ast_lang(flags, set, a@, s);
    join_of_repeat(l, min as nat, crate::expr::max_bound(max), w);
}

/// What a concatenation matches: the join of one string of each part, in order.
pub proof fn concat_matches(flags: ParserFlags, set: ExprSet, v: Vec<RegexAst>, s: Reading, w: Seq<u8>)
    ensures
        semantics::ast_lang(flags, set, RegexAst::Concat(v)@, s)(w) <==> exists|
            parts: Seq<Seq<u8>>,
        | #[trigger]
            parts.flatten() == w && parts.len() == v@.len() && forall|k: int|
                0 <= k < v@.len() ==> semantics::ast_lang(flags, set, v@[k]@, s)(
                    #[trigger] parts[k],
                ),
{
    let a = RegexAst::Concat(v)@;
    let ls = semantics::ast_langs(flags, set, a.args, s);
    semantics::ast_lang_of_list(flags, set, a, s);
    join_of_each(ls, w);
    assert forall|k: int| 0 <= k < v@.len() implies #[trigger] ls[k] == semantics::ast_lang(
        flags,
        set,
        v@[k]@,
        s,
    ) by {}
    if exists|parts: Seq<Seq<u8>>| #[trigger]
        parts.flatten() == w && parts.len() == ls.len() && forall|k: int|
            0 <= k < ls.len() ==> ls[k](#[trigger] parts[k]) {
        let parts = choose|parts: Seq<Seq<u8>>| #[trigger]
            parts.flatten() == w && parts.len() == ls.len() && forall|k: int|
                0 <= k < ls.len() ==> ls[k](#[trigger] parts[k]);
        assert forall|k: int| 0 <= k < v@.len() implies semantics::ast_lang(
            flags,
            set,
            v@[k]@,
            s,
        )(#[trigger] parts[k]) by {
            assert(ls[k](parts[k]));
        }
    }
    if exists|parts: Seq<Seq<u8>>| #[trigger]
        parts.flatten() == w && parts.len() == v@.len() && forall|k: int|
            0 <= k < v@.len() ==> semantics::ast_lang(flags, set, v@[k]@, s)(
                #[trigger] parts[k],
            ) {
        let parts = choose|parts: Seq<Seq<u8>>| #[trigger]
            parts.flatten() == w && parts.len() == v@.len() && forall|k: int|
                0 <= k < v@.len() ==> semantics::ast_lang(flags, set, v@[k]@, s)(
                    #[trigger] parts[k],
                );
        assert forall|k: int| 0 <= k < ls.len() implies ls[k](#[trigger] parts[k]) by {
            assert(semantics::ast_lang(flags, set, v@[k]@, s)(parts[k]));
        }
    }
}

/// What a union matches: what one of its parts matches.
pub proof fn or_matches(flags: ParserFlags, set: ExprSet, v: Vec<RegexAst>, s: Reading, w: Seq<u8>)
    ensures
        semantics::ast_lang(flags, set, RegexAst::Or(v)@, s)(w) <==> exists|k: int|
            0 <= k < v@.len() && semantics::ast_lang(
                flags,
                set,
                (#[trigger] v@[k])@,
                s,
            )(w),
{
    let a = RegexAst::Or(v)@;
    assert forall|k: int| 0 <= k < v@.len() implies #[trigger] a.args[k] == v@[k]@ by {}
    if semantics::ast_lang(flags, set, a, s)(w) {
        let k = choose|k: int|
            0 <= k < a.args.len() && semantics::ast_lang(
                flags,
                set,
                #[trigger] a.args[k],
                s,
            )(w);
        assert(semantics::ast_lang(flags, set, v@[k]@, s)(w));
    }
    if exists|k: int|
        0 <= k < v@.len() && semantics::ast_lang(flags, set, (#[trigger] v@[k])@, s)(w) {
        let k = choose|k: int|
            0 <= k < v@.len() && semantics::ast_lang(
                flags,
                set,
                (#[trigger] v@[k])@,
                s,
            )(w);
        assert(semantics::ast_lang(flags, set, a.args[k], s)(w));
    }
}

/// What an intersection matches: the writings of strings that all of its parts match.
pub proof fn and_matches(flags: ParserFlags, set: ExprSet, v: Vec<RegexAst>, s: Reading, w: Seq<u8>)
    ensures
        semantics::ast_lang(flags, set, RegexAst::And(v)@, s)(w) <==> lang::written(s, w)
            && forall|k: int|
            0 <= k < v@.len() ==> semantics::ast_lang(
                flags,
                set,
                (#[trigger] v@[k])@,
                s,
            )(w),
{
    let a = RegexAst::And(v)@;
    assert forall|k: int| 0 <= k < v@.len() implies #[trigger] a.args[k] == v@[k]@ by {}
    if semantics::ast_lang(flags, set, a, s)(w) {
        assert forall|k: int| 0 <= k < v@.len() implies semantics::ast_lang(
            flags,
            set,
            (#[trigger] v@[k])@,
            s,
        )(w) by {
            assert(semantics::ast_lang(flags, set, a.args[k], s)(w));
        }
    }
    if lang::written(s, w) && forall|k: int|
        0 <= k < v@.len() ==> semantics::ast_lang(
            flags,
            set,
            (#[trigger] v@[k])@,
            s,
        )(w) {
        assert forall|k: int| 0 <= k < a.args.len() implies semantics::ast_lang(
            flags,
            set,
            #[trigger] a.args[k],
            s,
        )(w) by {
            assert(semantics::ast_lang(flags, set, v@[k]@, s)(w));
        }
    }
}

/// A complement matches the writings of strings that the regex does not match, and a lookahead what
/// it matches.
pub proof fn not_matches(flags: ParserFlags, set: ExprSet, a: RegexAst, s: Reading, w: Seq<u8>)
    ensures
        semantics::ast_lang(flags, set, RegexAst::Not(Box::new(a))@, s)(w)
            <==> lang::written(s, w) && !semantics::ast_lang(flags, set, a@, s)(w),
        semantics::ast_lang(flags, set, RegexAst::LookAhead(Box::new(a))@, s)(w)
            <==> semantics::ast_lang(flags, set, a@, s)(w),
{
}

/// What the regexes without parts match: the empty string, nothing, the bytes of a text, these bytes,
/// this byte, or a byte whose bit is set.
pub proof fn atoms_match(
    flags: ParserFlags,
    set: ExprSet,
    t: String,
    bytes: Vec<u8>,
    b: u8,
    words: Vec<u32>,
    w: Seq<u8>,
)
    requires
        words@.len() == 8,
    ensures
        semantics::ast_lang(flags, set, RegexAst::EmptyString@, lang::plain())(w) <==> w.len() == 0,
        !semantics::ast_lang(flags, set, RegexAst::NoMatch@, lang::plain())(w),
        semantics::ast_lang(flags, set, RegexAst::Literal(t)@, lang::plain())(w) <==> w
            == vstd::utf8::encode_utf8(t@),
        semantics::ast_lang(flags, set, RegexAst::ByteLiteral(bytes)@, lang::plain())(w) <==> w
            == bytes@,
        semantics::ast_lang(flags, set, RegexAst::Byte(b)@, lang::plain())(w) <==> w == seq![b],
        semantics::ast_lang(flags, set, RegexAst::ByteSet(words)@, lang::plain())(w) <==> w.len()
            == 1 && words@[(w[0] / 32) as int] & (1u32 << (w[0] % 32) as u32) != 0,
{
    lang::writes_plain(vstd::utf8::encode_utf8(t@), w);
    lang::writes_plain(bytes@, w);
    lemma_one_of(set![b], w);
    lemma_one_of(crate::byteset::byteset(words@), w);
    if w.len() == 1 && w[0] == b {
        assert(w =~= seq![b]);
    }
}

/// The same under any reading: what they match is written byte by byte.
pub proof fn atoms_written(
    flags: ParserFlags,
    set: ExprSet,
    t: String,
    bytes: Vec<u8>,
    b: u8,
    words: Vec<u32>,
    s: Reading,
    w: Seq<u8>,
)
    requires
        words@.len() == 8,
    ensures
        semantics::ast_lang(flags, set, RegexAst::EmptyString@, s)(w) <==> w.len() == 0,
        !semantics::ast_lang(flags, set, RegexAst::NoMatch@, s)(w),
        semantics::ast_lang(flags, set, RegexAst::Literal(t)@, s)(w) <==> lang::writes(
            s,
            vstd::utf8::encode_utf8(t@),
            w,
        ),
        semantics::ast_lang(flags, set, RegexAst::ByteLiteral(bytes)@, s)(w) <==> lang::writes(
            s,
            bytes@,
            w,
        ),
        semantics::ast_lang(flags, set, RegexAst::Byte(b)@, s)(w) <==> s(b, w),
        semantics::ast_lang(flags, set, RegexAst::ByteSet(words)@, s)(w) <==> exists|c: u8|
            #[trigger] words@[(c / 32) as int] & (1u32 << (c % 32) as u32) != 0 && s(c, w),
{
    let one = set![b];
    assert(one.contains(b));
    let bits = crate::byteset::byteset(words@);
    if exists|c: u8| #[trigger] words@[(c / 32) as int] & (1u32 << (c % 32) as u32) != 0 && s(c, w) {
        let c = choose|c: u8|
            #[trigger] words@[(c / 32) as int] & (1u32 << (c % 32) as u32) != 0 && s(c, w);
        assert(bits.contains(c));
    }
    if lang::one_of(bits, s)(w) {
        let c = choose|c: u8| #[trigger] bits.contains(c) && s(c, w);
        assert(words@[(c / 32) as int] & (1u32 << (c % 32) as u32) != 0);
    }
}

/// A string of one byte of a set is that byte.
pub proof fn lemma_one_of(bytes: Set<u8>, w: Seq<u8>)
    ensures
        lang::one_of(bytes, lang::plain())(w) <==> w.len() == 1 && bytes.contains(w[0]),
{
    let p = lang::plain();
    if lang::one_of(bytes, p)(w) {
        let b = choose|b: u8| #[trigger] bytes.contains(b) && p(b, w);
        assert(w == seq![b]);
    }
    if w.len() == 1 && bytes.contains(w[0]) {
        assert(w =~= seq![w[0]]);
        assert(p(w[0], w));
    }
}

/// A reference matches what its expression matches.
pub proof fn reference_matches(
    flags: ParserFlags,
    set: ExprSet,
    r: ExprRef,
    s: Reading,
    w: Seq<u8>,
)
    ensures
        semantics::ast_lang(flags, set, RegexAst::ExprRef(r)@, s)(w) <==> set.lang(r, s)(w),
{
}

/// What a repetition of a pattern matches: the join of `min` to `max` strings that the part matches,
/// and of `min` or more where there is no upper bound.
pub proof fn repetition_means(t: Syntax, min: u32, max: Option<u32>, w: Seq<u8>)
    requires
        t.kind == KindView::Repetition(min, max),
        t.subs.len() > 0,
    ensures
        pattern::meaning(t, lang::plain())(w) <==> exists|parts: Seq<Seq<u8>>| #[trigger]
            parts.flatten() == w && min <= parts.len() && (max matches Some(m) ==> m < u32::MAX
                ==> parts.len() <= m) && forall|k: int|
                0 <= k < parts.len() ==> pattern::meaning(t.subs[0], lang::plain())(
                    #[trigger] parts[k],
                ),
{
    join_of_repeat(
        pattern::meaning(t.subs[0], lang::plain()),
        min as nat,
        pattern::upper_bound(max),
        w,
    );
}

/// A repetition of one byte that may stand at most `max` times matches no more bytes than that.
pub proof fn repetition_stops(t: Syntax, min: u32, max: u32, w: Seq<u8>)
    requires
        t.kind == KindView::Repetition(min, Some(max)),
        t.subs.len() > 0,
        max < u32::MAX,
        forall|v: Seq<u8>| #[trigger]
            pattern::meaning(t.subs[0], lang::plain())(v) ==> v.len() == 1,
        pattern::meaning(t, lang::plain())(w),
    ensures
        min <= w.len() <= max,
{
    repetition_means(t, min, Some(max), w);
    let l = pattern::meaning(t.subs[0], lang::plain());
    let parts = choose|parts: Seq<Seq<u8>>| #[trigger]
        parts.flatten() == w && min <= parts.len() && parts.len() <= max && forall|k: int|
            0 <= k < parts.len() ==> l(#[trigger] parts[k]);
    lemma_join_of_bytes(parts);
}

proof fn lemma_join_of_bytes(parts: Seq<Seq<u8>>)
    requires
        forall|k: int| 0 <= k < parts.len() ==> (#[trigger] parts[k]).len() == 1,
    ensures
        parts.flatten().len() == parts.len(),
    decreases parts.len(),
{
    if parts.len() > 0 {
        lemma_join_of_bytes(parts.drop_first());
    }
}

/// The languages of the parts of a pattern.
spec fn part_langs(ts: Seq<Syntax>) -> Seq<Lang> {
    ts.map_values(|t: Syntax| pattern::meaning(t, lang::plain()))
}

proof fn lemma_meaning_row(ts: Seq<Syntax>, k: nat)
    requires
        k <= ts.len(),
    ensures
        pattern::meaning_from(ts, k, lang::plain()) == lang::cat_all(
            part_langs(ts).skip(k as int),
        ),
    decreases ts.len() - k,
{
    let ls = part_langs(ts);
    if k < ts.len() {
        lemma_meaning_row(ts, k + 1);
        assert(ls.skip(k as int).skip(1) =~= ls.skip(k as int + 1));
        assert(ls.skip(k as int)[0] == pattern::meaning(ts[k as int], lang::plain()));
    }
}

/// What a concatenation of patterns matches: the join of one string of each part, in order.
pub proof fn concatenation_means(t: Syntax, w: Seq<u8>)
    requires
        t.kind is Concat,
    ensures
        pattern::meaning(t, lang::plain())(w) <==> exists|parts: Seq<Seq<u8>>| #[trigger]
            parts.flatten() == w && parts.len() == t.subs.len() && forall|k: int|
                0 <= k < t.subs.len() ==> pattern::meaning(t.subs[k], lang::plain())(
                    #[trigger] parts[k],
                ),
{
    let ls = part_langs(t.subs);
    lemma_meaning_row(t.subs, 0);
    assert(ls.skip(0) =~= ls);
    join_of_each(ls, w);
    if exists|parts: Seq<Seq<u8>>| #[trigger]
        parts.flatten() == w && parts.len() == ls.len() && forall|k: int|
            0 <= k < ls.len() ==> ls[k](#[trigger] parts[k]) {
        let parts = choose|parts: Seq<Seq<u8>>| #[trigger]
            parts.flatten() == w && parts.len() == ls.len() && forall|k: int|
                0 <= k < ls.len() ==> ls[k](#[trigger] parts[k]);
        assert forall|k: int| 0 <= k < t.subs.len() implies pattern::meaning(
            t.subs[k],
            lang::plain(),
        )(#[trigger] parts[k]) by {
            assert(ls[k](parts[k]));
        }
    }
    if exists|parts: Seq<Seq<u8>>| #[trigger]
        parts.flatten() == w && parts.len() == t.subs.len() && forall|k: int|
            0 <= k < t.subs.len() ==> pattern::meaning(t.subs[k], lang::plain())(
                #[trigger] parts[k],
            ) {
        let parts = choose|parts: Seq<Seq<u8>>| #[trigger]
            parts.flatten() == w && parts.len() == t.subs.len() && forall|k: int|
                0 <= k < t.subs.len() ==> pattern::meaning(t.subs[k], lang::plain())(
                    #[trigger] parts[k],
                );
        assert forall|k: int| 0 <= k < ls.len() implies ls[k](#[trigger] parts[k]) by {
            assert(pattern::meaning(t.subs[k], lang::plain())(parts[k]));
        }
    }
}

/// What the other patterns match: an alternation what one of its parts matches, a capture what its
/// part matches, the empty pattern the empty string, a literal its bytes, and a class one byte, or the
/// UTF-8 encoding of one character, of its ranges.
pub proof fn patterns_mean(t: Syntax, w: Seq<u8>)
    ensures
        t.kind is Empty ==> (pattern::meaning(t, lang::plain())(w) <==> w.len() == 0),
        t.kind matches KindView::Literal(bytes) ==> (pattern::meaning(t, lang::plain())(w) <==> w
            == bytes),
        t.kind matches KindView::Bytes(ranges) ==> (pattern::meaning(t, lang::plain())(w)
            <==> w.len() == 1 && exists|k: int|
            0 <= k < ranges.len() && (#[trigger] ranges[k]).0 <= w[0] <= ranges[k].1),
        t.kind matches KindView::Chars(ranges) ==> (pattern::meaning(t, lang::plain())(w)
            <==> exists|k: int, c: char|
            0 <= k < ranges.len() && (#[trigger] ranges[k]).0 <= c <= ranges[k].1 && w
                == #[trigger] vstd::utf8::encode_utf8(seq![c])),
        t.kind is Capture && t.subs.len() > 0 ==> (pattern::meaning(t, lang::plain())(w)
            <==> pattern::meaning(t.subs[0], lang::plain())(w)),
        t.kind is Alternation ==> (pattern::meaning(t, lang::plain())(w) <==> exists|k: int|
            0 <= k < t.subs.len() && pattern::meaning(#[trigger] t.subs[k], lang::plain())(w)),
{
    let p = lang::plain();
    match t.kind {
        KindView::Literal(bytes) => {
            lang::writes_plain(bytes, w);
        },
        KindView::Bytes(ranges) => {
            lemma_one_of(pattern::byte_set(ranges), w);
        },
        KindView::Chars(ranges) => {
            if pattern::meaning(t, p)(w) {
                let c = choose|c: char| #[trigger]
                    pattern::in_char_ranges(ranges, c) && lang::writes(p, syntax::utf8(c), w);
                lang::writes_plain(syntax::utf8(c), w);
                let k = choose|k: int|
                    0 <= k < ranges.len() && (#[trigger] ranges[k]).0 <= c <= ranges[k].1;
                assert(w == vstd::utf8::encode_utf8(seq![c]));
            }
            if exists|k: int, c: char|
                0 <= k < ranges.len() && (#[trigger] ranges[k]).0 <= c <= ranges[k].1 && w
                    == #[trigger] vstd::utf8::encode_utf8(seq![c]) {
                let (k, c) = choose|k: int, c: char|
                    0 <= k < ranges.len() && (#[trigger] ranges[k]).0 <= c <= ranges[k].1 && w
                        == #[trigger] vstd::utf8::encode_utf8(seq![c]);
                assert(pattern::in_char_ranges(ranges, c));
                lang::writes_plain(syntax::utf8(c), w);
            }
        },
        _ => {},
    }
}

proof fn lemma_text_of_chars(parts: Seq<Seq<u8>>) -> (cs: Seq<char>)
    requires
        forall|k: int|
            0 <= k < parts.len() ==> pattern::chars(seq![('\0', '\u{10FFFF}')], lang::plain())(
                #[trigger] parts[k],
            ),
    ensures
        parts.flatten() == vstd::utf8::encode_utf8(cs),
    decreases parts.len(),
{
    let p = lang::plain();
    let ranges = seq![('\0', '\u{10FFFF}')];
    if parts.len() == 0 {
        let none = Seq::<char>::empty();
        assert(parts.flatten() =~= vstd::utf8::encode_utf8(none));
        none
    } else {
        let tail = parts.drop_first();
        assert forall|k: int| 0 <= k < tail.len() implies pattern::chars(ranges, p)(
            #[trigger] tail[k],
        ) by {
            assert(pattern::chars(ranges, p)(parts[k + 1]));
        }
        let rest = lemma_text_of_chars(tail);
        assert(pattern::chars(ranges, p)(parts[0]));
        let c = choose|c: char| #[trigger]
            pattern::in_char_ranges(ranges, c) && lang::writes(p, syntax::utf8(c), parts[0]);
        lang::writes_plain(syntax::utf8(c), parts[0]);
        let cs = seq![c] + rest;
        lemma_encode_front(c, rest);
        assert(parts.flatten() =~= vstd::utf8::encode_utf8(cs));
        cs
    }
}

proof fn lemma_encode_front(c: char, rest: Seq<char>)
    ensures
        vstd::utf8::encode_utf8(seq![c] + rest) == vstd::utf8::encode_utf8(seq![c])
            + vstd::utf8::encode_utf8(rest),
{
    let cs = seq![c] + rest;
    assert(cs.drop_first() =~= rest);
    assert(seq![c].drop_first() =~= seq![]);
    assert(vstd::utf8::encode_utf8(seq![c].drop_first()) =~= seq![]);
    assert(vstd::utf8::encode_utf8(cs) =~= vstd::utf8::encode_utf8(seq![c])
        + vstd::utf8::encode_utf8(rest));
}

proof fn lemma_char_bounds(c: char)
    ensures
        '\0' <= c <= '\u{10FFFF}',
{
}

proof fn lemma_chars_of_text(cs: Seq<char>) -> (parts: Seq<Seq<u8>>)
    ensures
        parts.flatten() == vstd::utf8::encode_utf8(cs),
        forall|k: int|
            0 <= k < parts.len() ==> pattern::chars(seq![('\0', '\u{10FFFF}')], lang::plain())(
                #[trigger] parts[k],
            ),
    decreases cs.len(),
{
    let p = lang::plain();
    let ranges = seq![('\0', '\u{10FFFF}')];
    if cs.len() == 0 {
        let none = Seq::<Seq<u8>>::empty();
        assert(none.flatten() =~= vstd::utf8::encode_utf8(cs));
        none
    } else {
        let c = cs[0];
        let rest = cs.drop_first();
        let tail = lemma_chars_of_text(rest);
        let parts = seq![syntax::utf8(c)] + tail;
        assert(parts.drop_first() =~= tail);
        assert(parts.first() == syntax::utf8(c));
        assert(cs =~= seq![c] + rest);
        lemma_encode_front(c, rest);
        assert(parts.flatten() =~= vstd::utf8::encode_utf8(cs));
        lemma_char_bounds(c);
        assert(ranges[0].0 <= c <= ranges[0].1);
        assert(pattern::in_char_ranges(ranges, c));
        lang::writes_plain(syntax::utf8(c), syntax::utf8(c));
        assert(pattern::chars(ranges, p)(parts[0]));
        assert forall|k: int| 0 <= k < parts.len() implies pattern::chars(ranges, p)(
            #[trigger] parts[k],
        ) by {
            if k > 0 {
                assert(pattern::chars(ranges, p)(tail[k - 1]));
            }
        }
        parts
    }
}

/// Any text is the UTF-8 encoding of any characters.
pub proof fn any_text_is_utf8(w: Seq<u8>)
    ensures
        pattern::any_text(lang::plain())(w) <==> exists|cs: Seq<char>|
            w == #[trigger] vstd::utf8::encode_utf8(cs),
{
    let l = pattern::chars(seq![('\0', '\u{10FFFF}')], lang::plain());
    join_of_repeat(l, 0, None, w);
    if pattern::any_text(lang::plain())(w) {
        let parts = choose|parts: Seq<Seq<u8>>| #[trigger]
            parts.flatten() == w && 0 <= parts.len() && forall|k: int|
                0 <= k < parts.len() ==> l(#[trigger] parts[k]);
        let cs = lemma_text_of_chars(parts);
        assert(w == vstd::utf8::encode_utf8(cs));
    }
    if exists|cs: Seq<char>| w == #[trigger] vstd::utf8::encode_utf8(cs) {
        let cs = choose|cs: Seq<char>| w == #[trigger] vstd::utf8::encode_utf8(cs);
        let parts = lemma_chars_of_text(cs);
        assert(parts.flatten() == w);
    }
}

/// Whether a stretch of the text that starts at `i` and ends at `j` is the UTF-8 encoding of any
/// characters.
spec fn is_text(w: Seq<u8>, i: int, j: int) -> bool {
    exists|cs: Seq<char>| w.subrange(i, j) == #[trigger] vstd::utf8::encode_utf8(cs)
}

/// A pattern has to match the whole of a text. For a search it has to match a stretch of it, with any
/// characters before and after.
pub proof fn pattern_accepts(t: Syntax, w: Seq<u8>)
    ensures
        pattern::accepts(t, false, lang::plain(), w) <==> pattern::matches_at(
            t,
            lang::plain(),
            w,
            0,
            w.len() as int,
        ),
        pattern::accepts(t, true, lang::plain(), w) <==> exists|i: int, j: int|
            0 <= i <= j <= w.len() && #[trigger] pattern::matches_at(t, lang::plain(), w, i, j) && (
            exists|cs: Seq<char>|
                w.subrange(0, i) == #[trigger] vstd::utf8::encode_utf8(cs)) && (exists|
                cs: Seq<char>,
            |
                w.subrange(j, w.len() as int) == #[trigger] vstd::utf8::encode_utf8(cs)),
{
    let p = lang::plain();
    let n = w.len() as int;
    if pattern::matches_at(t, p, w, 0, n) {
        assert(pattern::gap(false, p, w, 0, 0) && pattern::gap(false, p, w, n, n));
    }
    if pattern::accepts(t, true, p, w) {
        let (i, j) = choose|i: int, j: int|
            i <= j && #[trigger] pattern::gap(true, p, w, 0, i) && #[trigger] pattern::gap(
                true,
                p,
                w,
                j,
                n,
            ) && pattern::matches_at(t, p, w, i, j);
        any_text_is_utf8(w.subrange(0, i));
        any_text_is_utf8(w.subrange(j, n));
        assert(is_text(w, 0, i) && is_text(w, j, n));
    }
    if exists|i: int, j: int|
        0 <= i <= j <= w.len() && #[trigger] pattern::matches_at(t, p, w, i, j) && is_text(w, 0, i)
            && is_text(w, j, n) {
        let (i, j) = choose|i: int, j: int|
            0 <= i <= j <= w.len() && #[trigger] pattern::matches_at(t, p, w, i, j) && is_text(
                w,
                0,
                i,
            ) && is_text(w, j, n);
        any_text_is_utf8(w.subrange(0, i));
        any_text_is_utf8(w.subrange(j, n));
        assert(pattern::gap(true, p, w, 0, i) && pattern::gap(true, p, w, j, n));
    }
}

/// Where a pattern stands in a text: without anchors it matches the bytes there; `^` stands at the
/// start and `$` at the end, and take no byte.
pub proof fn pattern_stands(t: Syntax, w: Seq<u8>, i: int, j: int)
    ensures
        pattern::look_free(t) ==> (pattern::matches_at(t, lang::plain(), w, i, j)
            <==> pattern::meaning(t, lang::plain())(w.subrange(i, j))),
        t.kind is Start ==> (pattern::matches_at(t, lang::plain(), w, i, j) <==> i == 0 && j == 0),
        t.kind is End ==> (pattern::matches_at(t, lang::plain(), w, i, j) <==> i == w.len() && j
            == w.len()),
        t.kind is Capture && t.subs.len() > 0 && !pattern::look_free(t) ==> (pattern::matches_at(
            t,
            lang::plain(),
            w,
            i,
            j,
        ) <==> pattern::matches_at(t.subs[0], lang::plain(), w, i, j)),
        t.kind is Alternation && !pattern::look_free(t) ==> (pattern::matches_at(
            t,
            lang::plain(),
            w,
            i,
            j,
        ) <==> exists|k: int|
            0 <= k < t.subs.len() && pattern::matches_at(
                #[trigger] t.subs[k],
                lang::plain(),
                w,
                i,
                j,
            )),
{
}

/// The places from the `k`-th on split a stretch of a text into one stretch for each part from there
/// on.
spec fn placed_at(ts: Seq<Syntax>, k: nat, w: Seq<u8>, i: int, j: int, at: Seq<int>) -> bool {
    &&& at.len() == ts.len() + 1
    &&& at[k as int] == i
    &&& at[ts.len() as int] == j
    &&& forall|n: int| k <= n < ts.len() ==> stands_at(#[trigger] ts[n], w, at[n], at[n + 1])
}

/// The part stands between the two places.
pub open spec fn stands_at(t: Syntax, w: Seq<u8>, i: int, j: int) -> bool {
    i <= j && pattern::matches_at(t, lang::plain(), w, i, j)
}

proof fn lemma_places(ts: Seq<Syntax>, k: nat, w: Seq<u8>, i: int, j: int) -> (at: Seq<int>)
    requires
        k <= ts.len(),
        pattern::matches_from(ts, k, lang::plain(), w, i, j),
    ensures
        placed_at(ts, k, w, i, j, at),
    decreases ts.len() - k,
{
    let p = lang::plain();
    if k < ts.len() {
        let m = choose|m: int| #[trigger]
            pattern::between(i, m, j) && pattern::matches_at(ts[k as int], p, w, i, m)
                && pattern::matches_from(ts, k + 1, p, w, m, j);
        let rest = lemma_places(ts, k + 1, w, m, j);
        let at = rest.update(k as int, i);
        assert forall|n: int| k <= n < ts.len() implies stands_at(
            #[trigger] ts[n],
            w,
            at[n],
            at[n + 1],
        ) by {
            if n > k {
                assert(stands_at(ts[n], w, rest[n], rest[n + 1]));
            }
        }
        at
    } else {
        Seq::new(ts.len() + 1, |n: int| i)
    }
}

proof fn lemma_placed(ts: Seq<Syntax>, k: nat, w: Seq<u8>, i: int, j: int, at: Seq<int>)
    requires
        k <= ts.len(),
        placed_at(ts, k, w, i, j, at),
    ensures
        i <= j,
        pattern::matches_from(ts, k, lang::plain(), w, i, j),
    decreases ts.len() - k,
{
    if k < ts.len() {
        let m = at[k as int + 1];
        assert(stands_at(ts[k as int], w, at[k as int], at[k as int + 1]));
        lemma_placed(ts, k + 1, w, m, j, at);
        assert(pattern::between(i, m, j));
    }
}

/// A concatenation with anchors stands where its parts stand side by side.
pub proof fn parts_stand(t: Syntax, w: Seq<u8>, i: int, j: int)
    requires
        t.kind is Concat,
        !pattern::look_free(t),
    ensures
        pattern::matches_at(t, lang::plain(), w, i, j) <==> exists|at: Seq<int>| #[trigger]
            at.len() == t.subs.len() + 1 && at[0] == i && at[at.len() - 1] == j && forall|k: int|
                0 <= k < t.subs.len() ==> stands_at(#[trigger] t.subs[k], w, at[k], at[k + 1]),
{
    let p = lang::plain();
    if pattern::matches_at(t, p, w, i, j) {
        let at = lemma_places(t.subs, 0, w, i, j);
        assert(at.len() == t.subs.len() + 1);
    }
    assert forall|at: Seq<int>| #[trigger]
        at.len() == t.subs.len() + 1 && at[0] == i && at[at.len() - 1] == j && (forall|k: int|
            0 <= k < t.subs.len() ==> stands_at(#[trigger] t.subs[k], w, at[k], at[k + 1]))
        implies pattern::matches_at(t, p, w, i, j) by {
        assert(placed_at(t.subs, 0, w, i, j, at));
        lemma_placed(t.subs, 0, w, i, j, at);
    }
}

/// A pattern has a condition on its surroundings if and only if it is one or one of its parts has.
pub proof fn anchors_found(t: Syntax)
    ensures
        pattern::look_free(t) <==> !(t.kind is Start) && !(t.kind is End) && !(t.kind is Other)
            && forall|k: int| 0 <= k < t.subs.len() ==> pattern::look_free(#[trigger] t.subs[k]),
{
}

/// Where anchors may stand: `^` only where the text starts, `$` only where it ends, in captures and
/// alternatives, and in a concatenation at its first and at its last part; nowhere else.
pub proof fn anchors_placed(t: Syntax, at_start: bool, at_end: bool)
    ensures
        pattern::look_free(t) ==> pattern::placed(t, at_start, at_end),
        t.kind is Start ==> (pattern::placed(t, at_start, at_end) <==> at_start),
        t.kind is End ==> (pattern::placed(t, at_start, at_end) <==> at_end),
        t.kind is Other ==> !pattern::placed(t, at_start, at_end),
        t.kind is Repetition && !pattern::look_free(t) ==> !pattern::placed(t, at_start, at_end),
        t.kind is Capture && t.subs.len() > 0 ==> (pattern::placed(t, at_start, at_end)
            <==> pattern::look_free(t) || pattern::placed(t.subs[0], at_start, at_end)),
        t.kind is Alternation ==> (pattern::placed(t, at_start, at_end) <==> pattern::look_free(t)
            || forall|k: int|
            0 <= k < t.subs.len() ==> pattern::placed(#[trigger] t.subs[k], at_start, at_end)),
        t.kind is Concat ==> (pattern::placed(t, at_start, at_end) <==> pattern::look_free(t)
            || forall|k: int|
            0 <= k < t.subs.len() ==> pattern::placed(
                #[trigger] t.subs[k],
                at_start && k == 0,
                at_end && k == t.subs.len() - 1,
            )),
{
}

/// A pattern that does not parse is refused with what the parser says, one with an anchor where none
/// can stand is refused for that, and all others are accepted and matched as they parse.
pub proof fn pattern_errors(flags: ParserFlags, p: Seq<char>, search: bool, e: Error, w: Seq<u8>)
    ensures
        semantics::pattern_ok(flags, p) <==> (syntax::parsed(flags, p) matches Ok(t)
            && pattern::placed(t, true, true)),
        syntax::parsed(flags, p) matches Err(said) ==> (semantics::is_pattern_error(flags, p, e) <==> (
        e matches Error::Syntax(text) && text@ == said)),
        syntax::parsed(flags, p) matches Ok(t) ==> (semantics::is_pattern_error(flags, p, e) <==> e
            == Error::MisplacedAnchor && !pattern::placed(t, true, true)),
        syntax::parsed(flags, p) matches Ok(t) ==> (semantics::pattern_lang(
            flags,
            p,
            search,
            lang::plain(),
        )(w) <==> pattern::accepts(t, search, lang::plain(), w)),
{
}

/// A regex that is a pattern matches what the pattern matches: the whole of a text, or, where it is
/// searched for, a stretch of it.
pub proof fn patterns_match(flags: ParserFlags, set: ExprSet, p: String, s: Reading, w: Seq<u8>)
    ensures
        semantics::ast_lang(flags, set, RegexAst::Regex(p)@, s)(w) <==> semantics::pattern_lang(
            flags,
            p@,
            false,
            s,
        )(w),
        semantics::ast_lang(flags, set, RegexAst::SearchRegex(p)@, s)(w)
            <==> semantics::pattern_lang(flags, p@, true, s)(w),
{
}

/// Under any reading a pattern that is accepted matches the writings of what it matches.
pub proof fn patterns_written(
    flags: ParserFlags,
    p: Seq<char>,
    search: bool,
    s: Reading,
    w: Seq<u8>,
)
    requires
        syntax::parsed(flags, p) matches Ok(t) && pattern::placed(t, true, true),
    ensures
        semantics::pattern_lang(flags, p, search, s)(w) <==> exists|u: Seq<u8>| #[trigger]
            lang::writes(s, u, w) && semantics::pattern_lang(flags, p, search, lang::plain())(u),
{
    laws::lemma_pattern_image(flags, p, search, s);
}

/// What a parsed pattern holds is what it is made of.
pub proof fn pattern_holds(p: Pattern, k: Kind)
    ensures
        p@.kind == p.kind@,
        p@.subs.len() == p.subs@.len(),
        forall|i: int| 0 <= i < p.subs@.len() ==> p@.subs[i] == (#[trigger] p.subs@[i])@,
        k is Empty ==> k@ == KindView::Empty,
        k matches Kind::Literal(bytes) ==> k@ == KindView::Literal(bytes@),
        k matches Kind::Bytes(ranges) ==> k@ == KindView::Bytes(ranges@),
        k matches Kind::Chars(ranges) ==> k@ == KindView::Chars(ranges@),
        k is Start ==> k@ == KindView::Start,
        k is End ==> k@ == KindView::End,
        k is Other ==> k@ == KindView::Other,
        k matches Kind::Repetition(min, max) ==> k@ == KindView::Repetition(min, max),
        k matches Kind::Capture(Some(name)) ==> k@ == KindView::Capture(Some(name@)),
        k matches Kind::Capture(None) ==> k@ == KindView::Capture(None),
        k is Concat ==> k@ == KindView::Concat,
        k is Alternation ==> k@ == KindView::Alternation,
{
    syntax::pattern_parts(p);
}

/// Unless asked for otherwise, patterns are of Unicode text and match only valid UTF-8, whitespace and
/// case count, and the dot matches no line break.
pub proof fn flags_by_default()
    ensures
        syntax::default_flags().unicode,
        syntax::default_flags().utf8,
        !syntax::default_flags().ignore_whitespace,
        !syntax::default_flags().case_insensitive,
        !syntax::default_flags().dot_matches_new_line,
{
}

/// Ten to a power, and the value of digits: one digit more is ten times the value, and the digit.
pub proof fn digits_have_values(n: nat, w: Seq<u8>, c: u8)
    ensures
        number::pow10(n) == vstd::arithmetic::power::pow(10, n),
        number::decimal_value(seq![]) == 0,
        0x30 <= c <= 0x39 ==> number::decimal_value(w + seq![c]) == 10 * number::decimal_value(w)
            + (c - 0x30),
    decreases n + w.len(),
{
    reveal(vstd::arithmetic::power::pow);
    if n > 0 {
        digits_have_values((n - 1) as nat, seq![], c);
    }
    if 0x30 <= c <= 0x39 {
        lemma_digit_more(w, c);
    }
}

proof fn lemma_digit_more(w: Seq<u8>, c: u8)
    requires
        0x30 <= c <= 0x39,
    ensures
        number::decimal_value(w + seq![c]) == 10 * number::decimal_value(w) + (c - 0x30),
    decreases w.len(),
{
    let x = w + seq![c];
    if w.len() == 0 {
        assert(x.skip(1) =~= seq![]);
        assert(number::decimal_value(x.skip(1)) == 0);
        assert(number::pow10(0) == 1);
        assert(number::digit(x[0]) * 1 == c - 0x30);
    } else {
        lemma_digit_more(w.skip(1), c);
        assert(x.skip(1) =~= w.skip(1) + seq![c]);
        let p = number::pow10((w.len() - 1) as nat);
        assert(number::pow10(w.len()) == 10 * p);
        let d = number::digit(w[0]);
        assert(d * (10 * p) == 10 * (d * p)) by (nonlinear_arith);
    }
}

/// The text is a decimal numeral of these digits before the point and after it.
pub open spec fn is_numeral(w: Seq<u8>, whole: Seq<u8>, fraction: Seq<u8>) -> bool {
    &&& w == whole && fraction.len() == 0 || w == whole + seq![0x2Eu8] + fraction
    &&& whole.len() + fraction.len() > 0
    &&& forall|k: int| 0 <= k < whole.len() ==> 0x30 <= #[trigger] whole[k] <= 0x39
    &&& forall|k: int| 0 <= k < fraction.len() ==> 0x30 <= #[trigger] fraction[k] <= 0x39
}

/// What a multiple matches: the decimal numerals, with or without a point, whose value is a multiple
/// of `d` times ten to the power `-scale`. Times ten to the number of the digits after the point, the
/// value is a whole number.
pub proof fn multiple_matches(flags: ParserFlags, set: ExprSet, d: u32, scale: u32, w: Seq<u8>)
    requires
        d > 0,
    ensures
        semantics::ast_lang(flags, set, RegexAst::MultipleOf(d, scale)@, lang::plain())(w)
            <==> exists|whole: Seq<u8>, fraction: Seq<u8>| #[trigger]
            is_numeral(w, whole, fraction) && ((number::decimal_value(whole) * number::pow10(
                fraction.len(),
            ) + number::decimal_value(fraction)) * number::pow10(scale as nat)) % (d as nat
                * number::pow10(fraction.len())) == 0,
{
    let p = lang::plain();
    let a = number::multiples(d as nat, scale as nat);
    let l = semantics::ast_lang(flags, set, RegexAst::MultipleOf(d, scale)@, p);
    assert(l == image::image(a, p));
    lang::writes_plain(w, w);
    assert(l(w) == a(w)) by {
        if l(w) {
            let u = choose|u: Seq<u8>| #[trigger] lang::writes(p, u, w) && a(u);
            lang::writes_plain(u, w);
        }
        if a(w) {
            assert(lang::writes(p, w, w));
        }
    }
    if a(w) {
        if number::divides(d as nat, scale as nat, w, seq![]) {
            assert(is_numeral(w, w, seq![]));
        } else {
            let k = choose|k: int|
                #![trigger w[k]]
                0 <= k < w.len() && w[k] == 0x2e && number::divides(
                    d as nat,
                    scale as nat,
                    w.take(k),
                    w.skip(k + 1),
                );
            assert(w =~= w.take(k) + seq![0x2Eu8] + w.skip(k + 1));
            let whole = w.take(k);
            let fraction = w.skip(k + 1);
            assert forall|n: int| 0 <= n < whole.len() implies 0x30 <= #[trigger] whole[n]
                <= 0x39 by {
                assert(number::is_digit(whole[n]));
            }
            assert forall|n: int| 0 <= n < fraction.len() implies 0x30 <= #[trigger] fraction[n]
                <= 0x39 by {
                assert(number::is_digit(fraction[n]));
            }
            assert(is_numeral(w, whole, fraction));
        }
    }
    assert forall|whole: Seq<u8>, fraction: Seq<u8>| #[trigger]
        is_numeral(w, whole, fraction) && ((number::decimal_value(whole) * number::pow10(
            fraction.len(),
        ) + number::decimal_value(fraction)) * number::pow10(scale as nat)) % (d as nat
            * number::pow10(fraction.len())) == 0 implies a(w) by {
        assert(number::divides(d as nat, scale as nat, whole, fraction));
        if w == whole && fraction.len() == 0 {
            assert(fraction =~= seq![]);
        } else {
            let k = whole.len() as int;
            assert(w[k] == 0x2E);
            assert(w.take(k) =~= whole);
            assert(w.skip(k + 1) =~= fraction);
        }
    }
}

/// A numeral of a remainder: the digits of [`remainder::value`] stand with the lowest first.
pub proof fn remainders_reached(divisor: nat, remainder: nat, n: nat, a: Seq<u8>, c: u8)
    ensures
        remainder::value(seq![]) == 0,
        remainder::value(seq![c] + a) == c + 10 * remainder::value(a),
        remainder::reachable(divisor, remainder, n) <==> exists|x: Seq<u8>|
            x.len() == n && (forall|k: int| 0 <= k < x.len() ==> #[trigger] x[k] <= 9)
                && #[trigger] remainder::value(x) % divisor == remainder % divisor,
{
    assert((seq![c] + a).skip(1) =~= a);
    if remainder::reachable(divisor, remainder, n) {
        let x = choose|x: Seq<u8>| #[trigger]
            remainder::are_digits(x, n) && remainder::value(x) % divisor == remainder % divisor;
        assert(remainder::value(x) % divisor == remainder % divisor);
    }
    assert forall|x: Seq<u8>|
        x.len() == n && (forall|k: int| 0 <= k < x.len() ==> #[trigger] x[k] <= 9)
            && #[trigger] remainder::value(x) % divisor == remainder
            % divisor implies remainder::reachable(divisor, remainder, n) by {
        assert(remainder::are_digits(x, n));
    }
}

/// Which regexes are refused by what stands at their top, and with which error.
pub proof fn regex_refused(flags: ParserFlags, set: ExprSet, a: RegexAst, e: Error)
    ensures
        a matches RegexAst::Regex(p) ==> (semantics::head_fails(flags, set, a@.head)
            <==> !semantics::pattern_ok(flags, p@)) && (semantics::is_head_error(
            flags,
            set,
            a@.head,
            e,
        ) <==> semantics::is_pattern_error(flags, p@, e)),
        a matches RegexAst::SearchRegex(p) ==> (semantics::head_fails(flags, set, a@.head)
            <==> !semantics::pattern_ok(flags, p@)) && (semantics::is_head_error(
            flags,
            set,
            a@.head,
            e,
        ) <==> semantics::is_pattern_error(flags, p@, e)),
        a matches RegexAst::JsonQuote(_, o) ==> (semantics::head_fails(flags, set, a@.head)
            <==> !semantics::names_valid(o@)) && (semantics::is_head_error(flags, set, a@.head, e)
            <==> semantics::is_quote_error(o@, e)),
        a matches RegexAst::StringEscape(_, o) ==> (semantics::head_fails(flags, set, a@.head)
            <==> !escape::usable(o@)) && (semantics::is_head_error(flags, set, a@.head, e)
            <==> escape::is_escape_error(o@, e)),
        a matches RegexAst::ExprRef(r) ==> (semantics::head_fails(flags, set, a@.head)
            <==> !set.valid(r)) && (semantics::is_head_error(flags, set, a@.head, e) <==> !set.valid(
            r,
        ) && e == Error::InvalidRef),
        a matches RegexAst::MultipleOf(d, _) ==> (semantics::head_fails(flags, set, a@.head) <==> d
            == 0) && (semantics::is_head_error(flags, set, a@.head, e) <==> d == 0 && e
            == Error::InvalidMultipleOf),
        a matches RegexAst::ByteSet(words) ==> (semantics::head_fails(flags, set, a@.head)
            <==> words@.len() != 8) && (semantics::is_head_error(flags, set, a@.head, e)
            <==> words@.len() != 8 && e == Error::InvalidByteSetLen),
        a is And || a is Or || a is Concat || a is LookAhead || a is Not || a is Repeat
            || a is EmptyString || a is NoMatch || a is Literal || a is ByteLiteral || a is Byte
            ==> !semantics::head_fails(flags, set, a@.head) && !semantics::is_head_error(
            flags,
            set,
            a@.head,
            e,
        ),
{
}

/// A regex is refused if it is by what stands at its top or if one of its parts is, and the error is
/// that of the first part that is refused, or else its own.
pub proof fn regex_refused_for(flags: ParserFlags, set: ExprSet, a: Ast, e: Error)
    ensures
        semantics::fails(flags, set, a) <==> semantics::head_fails(flags, set, a.head) || exists|
            k: int,
        |
            0 <= k < a.args.len() && semantics::fails(flags, set, #[trigger] a.args[k]),
        semantics::is_ast_error(flags, set, a, e) && (forall|k: int|
            0 <= k < a.args.len() ==> !semantics::fails(flags, set, #[trigger] a.args[k]))
            ==> semantics::is_head_error(flags, set, a.head, e),
        forall|k: int|
            0 <= k < a.args.len() && semantics::is_ast_error(flags, set, a, e) && semantics::fails(
                flags,
                set,
                #[trigger] a.args[k],
            ) && (forall|j: int|
                0 <= j < k ==> !semantics::fails(flags, set, #[trigger] a.args[j]))
                ==> semantics::is_ast_error(flags, set, a.args[k], e),
{
    if semantics::is_ast_error(flags, set, a, e) {
        lemma_error_fails(flags, set, a, e);
        if !(forall|j: int| 0 <= j < a.args.len() ==> !semantics::fails(
            flags,
            set,
            #[trigger] a.args[j],
        )) {
            let n = choose|n: int|
                0 <= n < a.args.len() && semantics::is_ast_error(
                    flags,
                    set,
                    #[trigger] a.args[n],
                    e,
                ) && forall|j: int|
                    0 <= j < n ==> !semantics::fails(flags, set, #[trigger] a.args[j]);
            lemma_error_fails(flags, set, a.args[n], e);
        } else {
            assert forall|k: int| 0 <= k < a.args.len() implies !semantics::is_ast_error(
                flags,
                set,
                #[trigger] a.args[k],
                e,
            ) by {
                if semantics::is_ast_error(flags, set, a.args[k], e) {
                    lemma_error_fails(flags, set, a.args[k], e);
                }
            }
        }
    }
}

proof fn lemma_error_fails(flags: ParserFlags, set: ExprSet, a: Ast, e: Error)
    requires
        semantics::is_ast_error(flags, set, a, e),
    ensures
        semantics::fails(flags, set, a),
    decreases a,
{
    if (forall|j: int| 0 <= j < a.args.len() ==> !semantics::fails(flags, set, #[trigger] a.args[j]))
        && semantics::is_head_error(flags, set, a.head, e) {
        match a.head {
            Head::StringEscape(o) => {
                escape::escape_error_unusable(o, e);
            },
            Head::JsonQuote(o) => {
                let b = e->InvalidAllowedEscape_0;
                let bytes = vstd::utf8::encode_utf8(o.allowed_escapes);
                let k = choose|k: int|
                    #![trigger bytes[k]]
                    0 <= k < bytes.len() && bytes[k] == b && !json_quote::is_escape_name(b)
                        && forall|j: int|
                        0 <= j < k ==> json_quote::is_escape_name(#[trigger] bytes[j]);
                assert(bytes.contains(b));
                assert(json_quote::allowed(o, b));
            },
            _ => {},
        }
    } else {
        let k = choose|k: int|
            0 <= k < a.args.len() && semantics::is_ast_error(flags, set, #[trigger] a.args[k], e)
                && forall|j: int|
                0 <= j < k ==> !semantics::fails(flags, set, #[trigger] a.args[j]);
        lemma_error_fails(flags, set, a.args[k], e);
    }
}

/// The strings of one language and not of another, the strings after one, the strings after one byte,
/// and the language without any.
pub proof fn languages_of(a: Lang, b: Lang, u: Seq<u8>, c: u8, w: Seq<u8>)
    ensures
        builder::lang_difference(a, b)(w) <==> a(w) && !b(w),
        regex::rest_of(a, u)(w) <==> a(u + w),
        derivative::after(a, c)(w) <==> a(seq![c] + w),
        regex::is_empty(a) <==> forall|v: Seq<u8>| !#[trigger] a(v),
{
}

/// A limit is outrun: there are more different expressions than it allows, the first is the one that
/// is looked into, different strings lead to them, and each matches what may follow its string, which
/// is never the empty string.
pub proof fn limit_outrun(set: ExprSet, root: ExprRef, max_fuel: u64) -> (r: (
    ExprSet,
    Seq<ExprRef>,
    Seq<Seq<u8>>,
))
    requires
        regex::outruns(&set, root, max_fuel),
        set.valid(root),
    ensures
        r.0.keeps(&set),
        r.1.len() > max_fuel,
        r.1.no_duplicates(),
        r.1[0] == root,
        r.2.len() == r.1.len(),
        r.2.no_duplicates(),
        r.2[0] == Seq::<u8>::empty(),
        forall|k: int, w: Seq<u8>|
            #![trigger r.0.lang(r.1[k], lang::plain())(w)]
            0 <= k < r.1.len() ==> r.0.lang(r.1[k], lang::plain())(w) == set.lang(
                root,
                lang::plain(),
            )(r.2[k] + w),
        forall|k: int| 0 <= k < r.2.len() ==> !set.lang(root, lang::plain())(#[trigger] r.2[k]),
{
    let (more, v, us) = choose|more: ExprSet, v: Seq<ExprRef>, us: Seq<Seq<u8>>|
        #[trigger] regex::derived(&more, root, v, us) && more.wf() && more.keeps(&set) && v.len()
            > max_fuel;
    let p = lang::plain();
    assert(more.tree(root) == set.tree(root));
    assert forall|k: int, w: Seq<u8>|
        #![trigger more.lang(v[k], p)(w)]
        0 <= k < v.len() implies more.lang(v[k], p)(w) == set.lang(root, p)(us[k] + w) by {
        regex::lemma_derived(&more, root, v, us, k);
    }
    assert forall|k: int| 0 <= k < us.len() implies !set.lang(root, p)(#[trigger] us[k]) by {
        assert(!more.lang(v[k], p)(Seq::empty()));
        assert(us[k] + Seq::<u8>::empty() =~= us[k]);
    }
    (more, v, us)
}

/// Where a limit is outrun, every smaller one is: what was found out with a limit is never out of the
/// reach of a larger one.
pub proof fn limits_nest(set: ExprSet, root: ExprRef, small: u64, large: u64)
    requires
        regex::outruns(&set, root, large),
        small <= large,
    ensures
        regex::outruns(&set, root, small),
{
    let (more, v, us) = choose|more: ExprSet, v: Seq<ExprRef>, us: Seq<Seq<u8>>|
        #[trigger] regex::derived(&more, root, v, us) && more.wf() && more.keeps(&set) && v.len()
            > large;
    assert(regex::derived(&more, root, v, us) && more.wf() && more.keeps(&set) && v.len() > small);
}

/// Beginnings of the strings of a language: they are different, and each goes on to a string of it.
pub proof fn beginnings_go_on(a: Lang, us: Seq<Seq<u8>>, k: int)
    requires
        builder::are_beginnings(a, us),
        0 <= k < us.len(),
    ensures
        us.no_duplicates(),
        exists|w: Seq<u8>| a(#[trigger] (us[k] + w)),
{
    assert(builder::begins(a, us[k]));
}

/// How many strings are no longer than `n`: each is empty or a byte and one that is no longer than
/// `n - 1`.
pub proof fn strings_counted(n: nat)
    ensures
        regex::strings_up_to(0) == 1,
        regex::strings_up_to(n + 1) == 1 + 256 * regex::strings_up_to(n),
{
}

/// What is in one regex and not in another: the first, and not the second.
pub proof fn difference_matches(flags: ParserFlags, set: ExprSet, x: Ast, y: Ast, w: Seq<u8>)
    ensures
        semantics::ast_lang(flags, set, ast::difference(x, y), lang::plain())(w)
            <==> semantics::ast_lang(flags, set, x, lang::plain())(w) && !semantics::ast_lang(
            flags,
            set,
            y,
            lang::plain(),
        )(w),
        ast::difference(x, y).head is And,
        ast::difference(x, y).args.len() == 2,
        ast::difference(x, y).args[0] == x,
        ast::difference(x, y).args[1].head is Not,
        ast::difference(x, y).args[1].args == seq![y],
{
    let d = ast::difference(x, y);
    let p = lang::plain();
    lang::written_plain(w);
    let l = semantics::ast_lang(flags, set, d, p);
    assert(semantics::ast_lang(flags, set, d.args[1], p)(w) == !semantics::ast_lang(
        flags,
        set,
        y,
        p,
    )(w));
    if l(w) {
        assert(semantics::ast_lang(flags, set, d.args[0], p)(w));
        assert(semantics::ast_lang(flags, set, d.args[1], p)(w));
    }
    if semantics::ast_lang(flags, set, x, p)(w) && !semantics::ast_lang(flags, set, y, p)(w) {
        assert forall|k: int| 0 <= k < d.args.len() implies semantics::ast_lang(
            flags,
            set,
            #[trigger] d.args[k],
            p,
        )(w) by {
            assert(k == 0 || k == 1);
        }
    }
}

/// Two patterns are refused with the error of the first of them that is not accepted.
pub proof fn pair_refused(flags: ParserFlags, small: Seq<char>, big: Seq<char>, e: Error)
    ensures
        !semantics::pattern_ok(flags, small) ==> (builder::is_pair_error(flags, small, big, e)
            <==> semantics::is_pattern_error(flags, small, e)),
        semantics::pattern_ok(flags, small) ==> (builder::is_pair_error(flags, small, big, e)
            <==> semantics::is_pattern_error(flags, big, e)),
{
}

/// What a prefix tree matches: the bytes of a branch, followed by what its expression matches.
pub proof fn prefix_tree_matches(set: ExprSet, branches: Seq<(Vec<u8>, ExprRef)>, w: Seq<u8>)
    ensures
        lang::union(
            branches.map_values(
                |b: (Vec<u8>, ExprRef)|
                    lang::cat(
                        lang::literal(b.0@, lang::plain()),
                        set.lang(b.1, lang::plain()),
                    ),
            ),
        )(w) <==> exists|k: int|
            0 <= k < branches.len() && (#[trigger] branches[k]).0@.len() <= w.len() && w.take(
                branches[k].0@.len() as int,
            ) == branches[k].0@ && set.lang(branches[k].1, lang::plain())(
                w.skip(branches[k].0@.len() as int),
            ),
{
    let p = lang::plain();
    let ls = branches.map_values(
        |b: (Vec<u8>, ExprRef)| lang::cat(lang::literal(b.0@, p), set.lang(b.1, p)),
    );
    if lang::union(ls)(w) {
        let k = choose|k: int| 0 <= k < ls.len() && (#[trigger] ls[k])(w);
        let l = set.lang(branches[k].1, p);
        let i = lang::cat_split(lang::literal(branches[k].0@, p), l, w);
        lang::writes_plain(branches[k].0@, w.take(i));
    }
    assert forall|k: int|
        0 <= k < branches.len() && (#[trigger] branches[k]).0@.len() <= w.len() && w.take(
            branches[k].0@.len() as int,
        ) == branches[k].0@ && set.lang(branches[k].1, p)(
            w.skip(branches[k].0@.len() as int),
        ) implies lang::union(ls)(w) by {
        let i = branches[k].0@.len() as int;
        lang::writes_plain(branches[k].0@, w.take(i));
        lang::cat_intro(
            lang::literal(branches[k].0@, p),
            set.lang(branches[k].1, p),
            w.take(i),
            w.skip(i),
        );
        assert(w =~= w.take(i) + w.skip(i));
        assert(ls[k](w));
    }
}

/// Which regexes are lookaheads: those that say so, patterns that are a capture named `stop`, and the
/// escaped forms of these. A fresh one has the offset zero.
pub proof fn lookaheads_marked(
    flags: ParserFlags,
    a: RegexAst,
    p: String,
    o: StringEscapeOptions,
    q: JsonQuoteOptions,
    t: Syntax,
    rx: Rx,
)
    ensures
        semantics::is_lookahead(flags, RegexAst::LookAhead(Box::new(a))@),
        semantics::is_lookahead(flags, RegexAst::Regex(p)@) <==> (syntax::parsed(flags, p@) matches Ok(
            x,
        ) && pattern::is_stop_capture(x)),
        semantics::is_lookahead(flags, RegexAst::StringEscape(Box::new(a), o)@)
            <==> semantics::is_lookahead(flags, a@),
        q.raw_mode ==> (semantics::is_lookahead(flags, RegexAst::JsonQuote(Box::new(a), q)@)
            <==> semantics::is_lookahead(flags, a@)),
        !q.raw_mode ==> !semantics::is_lookahead(flags, RegexAst::JsonQuote(Box::new(a), q)@),
        pattern::is_stop_capture(t) <==> t.kind == KindView::Capture(Some("stop"@)) && t.subs.len()
            > 0,
        lang::fresh_lookahead(rx) <==> (rx matches Rx::Lookahead(_, n) && n == 0),
{
}

/// A reference stands for itself, and the empty string and nothing have the first two places.
pub proof fn references_fixed(a: RegexAst)
    ensures
        a matches RegexAst::ExprRef(r) ==> semantics::fixed_ref(a@) == Some(r),
        a is EmptyString ==> (semantics::fixed_ref(a@) matches Some(r) && r.id == 0),
        a is NoMatch ==> (semantics::fixed_ref(a@) matches Some(r) && r.id == 1),
        a matches RegexAst::Concat(v) ==> v@.len() == 0 ==> (semantics::fixed_ref(a@) matches Some(
            r,
        ) && r.id == 0),
        a matches RegexAst::Or(v) ==> v@.len() == 0 ==> (semantics::fixed_ref(a@) matches Some(r)
            && r.id == 1),
{
}

/// A pattern has a capture named `stop` if it is one or if a part has one, and a regex asks for a
/// lookahead if it is one, if its pattern has such a capture, or if a part asks for one.
pub proof fn stops_found(flags: ParserFlags, t: Syntax, a: Ast)
    ensures
        pattern::has_stop(t) <==> pattern::is_stop_capture(t) || exists|k: int|
            0 <= k < t.subs.len() && pattern::has_stop(#[trigger] t.subs[k]),
        semantics::marks(flags, a) <==> {
            ||| a.head is LookAhead
            ||| a.head matches Head::Regex(p) && (syntax::parsed(flags, p) matches Ok(x)
                && pattern::has_stop(x))
            ||| a.head matches Head::SearchRegex(p) && (syntax::parsed(flags, p) matches Ok(x)
                && pattern::has_stop(x))
            ||| exists|k: int| 0 <= k < a.args.len() && semantics::marks(flags, #[trigger] a.args[k])
        },
{
}

} // verus!
