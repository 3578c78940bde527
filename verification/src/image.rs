//! What escaping makes of languages.

use crate::lang;
use crate::lang::{Lang, Reading, Rx};
use crate::number;
use crate::pattern;
use crate::syntax;
use crate::syntax::{KindView, Syntax};
use vstd::prelude::*;

verus! {

/// The writings of the strings of a language.
pub open spec fn image(a: Lang, s: Reading) -> Lang {
    |v: Seq<u8>| exists|u: Seq<u8>| #[trigger] lang::writes(s, u, v) && a(u)
}

/// Writings of two strings, one after another, write the join of the two.
pub proof fn writes_join(s: Reading, u1: Seq<u8>, u2: Seq<u8>, v1: Seq<u8>, v2: Seq<u8>)
    requires
        lang::writes(s, u1, v1),
        lang::writes(s, u2, v2),
    ensures
        lang::writes(s, u1 + u2, v1 + v2),
{
    lang::literal_concat(u1, u2, s);
    lang::cat_intro(lang::literal(u1, s), lang::literal(u2, s), v1, v2);
    assert(lang::literal(u1 + u2, s)(v1 + v2));
}

/// A writing of the join of two strings splits into one of each.
pub proof fn writes_split(s: Reading, u1: Seq<u8>, u2: Seq<u8>, v: Seq<u8>) -> (i: int)
    requires
        lang::writes(s, u1 + u2, v),
    ensures
        0 <= i <= v.len(),
        lang::writes(s, u1, v.take(i)),
        lang::writes(s, u2, v.skip(i)),
        v == v.take(i) + v.skip(i),
{
    lang::literal_concat(u1, u2, s);
    assert(lang::literal(u1 + u2, s)(v));
    lang::cat_split(lang::literal(u1, s), lang::literal(u2, s), v)
}

/// A writing of one byte.
pub proof fn writes_byte(s: Reading, b: u8, v: Seq<u8>)
    ensures
        lang::writes(s, seq![b], v) == s(b, v),
{
    lang::literal_one(b, s);
    assert(lang::literal(seq![b], s)(v) == lang::one_of(set![b], s)(v));
    assert(lang::one_of(set![b], s)(v) == s(b, v)) by {
        assert(set![b].contains(b));
    }
}

/// Writing what was written is writing by both readings at once.
pub proof fn writes_compose(s: Reading, r: Reading, u: Seq<u8>, v: Seq<u8>)
    ensures
        lang::writes(lang::compose(s, r), u, v) == exists|m: Seq<u8>| #[trigger]
            lang::writes(r, u, m) && lang::writes(s, m, v),
    decreases u.len(),
{
    let c = lang::compose(s, r);
    if u.len() == 0 {
        let e = Seq::<u8>::empty();
        if v.len() == 0 {
            assert(lang::writes(r, u, e) && lang::writes(s, e, v));
        }
        if exists|m: Seq<u8>| #[trigger] lang::writes(r, u, m) && lang::writes(s, m, v) {
            let m = choose|m: Seq<u8>| #[trigger] lang::writes(r, u, m) && lang::writes(s, m, v);
            assert(m.len() == 0);
        }
    } else {
        let b = u[0];
        let rest = u.skip(1);
        assert(u =~= seq![b] + rest);
        if lang::writes(c, u, v) {
            let i = writes_split(c, seq![b], rest, v);
            writes_byte(c, b, v.take(i));
            let f = choose|f: Seq<u8>| #[trigger] r(b, f) && lang::writes(s, f, v.take(i));
            writes_compose(s, r, rest, v.skip(i));
            let m = choose|m: Seq<u8>| #[trigger]
                lang::writes(r, rest, m) && lang::writes(s, m, v.skip(i));
            writes_byte(r, b, f);
            writes_join(r, seq![b], rest, f, m);
            writes_join(s, f, m, v.take(i), v.skip(i));
            assert(lang::writes(r, u, f + m) && lang::writes(s, f + m, v));
        }
        if exists|m: Seq<u8>| #[trigger] lang::writes(r, u, m) && lang::writes(s, m, v) {
            let m = choose|m: Seq<u8>| #[trigger] lang::writes(r, u, m) && lang::writes(s, m, v);
            let i = writes_split(r, seq![b], rest, m);
            writes_byte(r, b, m.take(i));
            let j = writes_split(s, m.take(i), m.skip(i), v);
            assert(c(b, v.take(j)));
            writes_byte(c, b, v.take(j));
            writes_compose(s, r, rest, v.skip(j));
            assert(lang::writes(c, rest, v.skip(j)));
            writes_join(c, seq![b], rest, v.take(j), v.skip(j));
        }
    }
}

/// The join of writings is a writing.
pub proof fn written_join(s: Reading, v: Seq<u8>, w: Seq<u8>)
    requires
        lang::written(s, v),
        lang::written(s, w),
    ensures
        lang::written(s, v + w),
{
    let x = choose|x: Seq<u8>| #[trigger] lang::writes(s, x, v);
    let y = choose|y: Seq<u8>| #[trigger] lang::writes(s, y, w);
    writes_join(s, x, y, v, w);
    assert(lang::writes(s, x + y, v + w));
}

/// The empty string writes itself.
pub proof fn written_empty(s: Reading)
    ensures
        lang::written(s, Seq::empty()),
{
    assert(lang::writes(s, Seq::empty(), Seq::empty()));
}

proof fn lemma_written_one_of(set: Set<u8>, s: Reading, w: Seq<u8>)
    requires
        lang::one_of(set, s)(w),
    ensures
        lang::written(s, w),
{
    let b = choose|b: u8| #[trigger] set.contains(b) && s(b, w);
    writes_byte(s, b, w);
    assert(lang::writes(s, seq![b], w));
}

proof fn lemma_written_power(a: Lang, k: nat, s: Reading, w: Seq<u8>)
    requires
        forall|v: Seq<u8>| #[trigger] a(v) ==> lang::written(s, v),
        lang::power(a, k)(w),
    ensures
        lang::written(s, w),
    decreases k,
{
    if k == 0 {
        assert(w =~= Seq::empty());
        written_empty(s);
    } else {
        let i = lang::cat_split(a, lang::power(a, (k - 1) as nat), w);
        lemma_written_power(a, (k - 1) as nat, s, w.skip(i));
        written_join(s, w.take(i), w.skip(i));
    }
}

proof fn lemma_written_writes(r: Reading, s: Reading, u: Seq<u8>, w: Seq<u8>)
    requires
        forall|b: u8, v: Seq<u8>| #[trigger] r(b, v) ==> lang::written(s, v),
        lang::writes(r, u, w),
    ensures
        lang::written(s, w),
    decreases u.len(),
{
    if u.len() == 0 {
        assert(w =~= Seq::empty());
        written_empty(s);
    } else {
        let i = choose|i: int|
            #![trigger w.take(i)]
            0 <= i <= w.len() && r(u[0], w.take(i)) && lang::writes(r, u.skip(1), w.skip(i));
        lemma_written_writes(r, s, u.skip(1), w.skip(i));
        written_join(s, w.take(i), w.skip(i));
        assert(w =~= w.take(i) + w.skip(i));
    }
}

proof fn lemma_written_spelled(
    divisor: nat,
    remainder: nat,
    scale: nat,
    fraction: bool,
    forms: Seq<Lang>,
    s: Reading,
    w: Seq<u8>,
)
    requires
        forall|k: int, v: Seq<u8>|
            0 <= k < number::NUMERAL_CHARS && #[trigger] forms[k](v) ==> lang::written(s, v),
        number::spelled(divisor, remainder, scale, fraction, forms, w),
    ensures
        lang::written(s, w),
{
    let r = number::form_reading(forms);
    let u = choose|u: Seq<u8>| #[trigger]
        lang::writes(r, u, w) && number::accepts(divisor, remainder, scale, fraction, u);
    lemma_written_writes(r, s, u, w);
}

/// What is spelled in the writings of strings of `forms` is a writing of what is spelled in `forms`.
pub proof fn spelled_of_images(
    divisor: nat,
    remainder: nat,
    scale: nat,
    fraction: bool,
    forms: Seq<Lang>,
    images: Seq<Lang>,
    s: Reading,
    v: Seq<u8>,
)
    requires
        forall|k: int|
            0 <= k < number::NUMERAL_CHARS ==> #[trigger] images[k] == image(forms[k], s),
    ensures
        number::spelled(divisor, remainder, scale, fraction, images, v) == exists|x: Seq<u8>|
            #[trigger] lang::writes(s, x, v) && number::spelled(
                divisor,
                remainder,
                scale,
                fraction,
                forms,
                x,
            ),
{
    let r = number::form_reading(forms);
    let ri = number::form_reading(images);
    let c = lang::compose(s, r);
    assert forall|b: u8, x: Seq<u8>| #[trigger] ri(b, x) == c(b, x) by {
        if ri(b, x) {
            let k = choose|k: int|
                0 <= k < number::NUMERAL_CHARS && number::numeral_char(k) == b && (
                #[trigger] images[k])(x);
            assert(image(forms[k], s)(x));
            let f = choose|f: Seq<u8>| #[trigger] lang::writes(s, f, x) && forms[k](f);
            assert(r(b, f));
        }
        if c(b, x) {
            let f = choose|f: Seq<u8>| #[trigger] r(b, f) && lang::writes(s, f, x);
            let k = choose|k: int|
                0 <= k < number::NUMERAL_CHARS && number::numeral_char(k) == b && (
                #[trigger] forms[k])(f);
            assert(image(forms[k], s)(x));
            assert(images[k](x));
        }
    }
    assert(ri =~= c);
    if number::spelled(divisor, remainder, scale, fraction, images, v) {
        let u = choose|u: Seq<u8>| #[trigger]
            lang::writes(ri, u, v) && number::accepts(divisor, remainder, scale, fraction, u);
        writes_compose(s, r, u, v);
        let x = choose|x: Seq<u8>| #[trigger] lang::writes(r, u, x) && lang::writes(s, x, v);
        assert(number::spelled(divisor, remainder, scale, fraction, forms, x));
    }
    if exists|x: Seq<u8>| #[trigger]
        lang::writes(s, x, v) && number::spelled(divisor, remainder, scale, fraction, forms, x) {
        let x = choose|x: Seq<u8>| #[trigger]
            lang::writes(s, x, v) && number::spelled(
                divisor,
                remainder,
                scale,
                fraction,
                forms,
                x,
            );
        let u = choose|u: Seq<u8>| #[trigger]
            lang::writes(r, u, x) && number::accepts(divisor, remainder, scale, fraction, u);
        writes_compose(s, r, u, v);
        assert(lang::writes(ri, u, v));
    }
}

/// Whatever an expression matches under a reading is a writing of some string.
pub proof fn language_written(rx: Rx, s: Reading, w: Seq<u8>)
    requires
        lang::language(rx, s)(w),
    ensures
        lang::written(s, w),
    decreases rx,
{
    match rx {
        Rx::EmptyString => {
            assert(w =~= Seq::empty());
            written_empty(s);
        },
        Rx::NoMatch => {},
        Rx::ByteSet(set) => {
            lemma_written_one_of(set, s, w);
        },
        Rx::ByteConcat(bytes, tail) => {
            let i = lang::cat_split(lang::literal(bytes, s), lang::language(*tail, s), w);
            assert(lang::writes(s, bytes, w.take(i)));
            language_written(*tail, s, w.skip(i));
            written_join(s, w.take(i), w.skip(i));
        },
        Rx::RemainderIs { divisor, remainder, scale, fractional_part, forms } => {
            lang::language_numeral(divisor, remainder, scale, fractional_part, forms, s, w);
            let ls = lang::form_langs(forms, s);
            assert forall|k: int, v: Seq<u8>|
                0 <= k < number::NUMERAL_CHARS && #[trigger] ls[k](v) implies lang::written(
                s,
                v,
            ) by {
                if k < forms.len() {
                    language_written(forms[k], s, v);
                } else if forms.len() == 0 {
                    lemma_written_one_of(set![number::numeral_char(k)], s, v);
                }
            }
            lemma_written_spelled(divisor, remainder, scale, fractional_part, ls, s, w);
        },
        Rx::Lookahead(e, _) => {
            language_written(*e, s, w);
        },
        Rx::Not(_) => {},
        Rx::Repeat(e, min, max) => {
            let a = lang::language(*e, s);
            let k = choose|k: nat| lang::in_bounds(k, min, max) && #[trigger] lang::power(a, k)(w);
            assert forall|v: Seq<u8>| #[trigger] a(v) implies lang::written(s, v) by {
                language_written(*e, s, v);
            }
            lemma_written_power(a, k, s, w);
        },
        Rx::Concat(a, b) => {
            let i = lang::cat_split(lang::language(*a, s), lang::language(*b, s), w);
            language_written(*a, s, w.take(i));
            language_written(*b, s, w.skip(i));
            written_join(s, w.take(i), w.skip(i));
        },
        Rx::Or(es) => {
            let k = choose|k: int| 0 <= k < es.len() && lang::language(#[trigger] es[k], s)(w);
            language_written(es[k], s, w);
        },
        Rx::And(_) => {},
    }
}

/// The writings of strings are those of bytes, one after another.
pub proof fn written_bytes(s: Reading)
    ensures
        lang::repeat(lang::one_of(Set::full(), s), 0, None) == (|w: Seq<u8>| lang::written(s, w)),
{
    let a = lang::one_of(Set::full(), s);
    let l = lang::repeat(a, 0, None);
    let r = |w: Seq<u8>| lang::written(s, w);
    assert forall|w: Seq<u8>| #[trigger] l(w) == r(w) by {
        if l(w) {
            let k = choose|k: nat|
                lang::in_bounds(k, 0, None) && #[trigger] lang::power(a, k)(w);
            assert forall|v: Seq<u8>| #[trigger] a(v) implies lang::written(s, v) by {
                lemma_written_one_of(Set::full(), s, v);
            }
            lemma_written_power(a, k, s, w);
        }
        if r(w) {
            let u = choose|u: Seq<u8>| #[trigger] lang::writes(s, u, w);
            lemma_writes_power(s, u, w);
            assert(lang::in_bounds(u.len(), 0, None) && lang::power(a, u.len())(w));
        }
    }
    assert(l =~= r);
}

proof fn lemma_writes_power(s: Reading, u: Seq<u8>, w: Seq<u8>)
    requires
        lang::writes(s, u, w),
    ensures
        lang::power(lang::one_of(Set::full(), s), u.len())(w),
    decreases u.len(),
{
    let a = lang::one_of(Set::full(), s);
    if u.len() > 0 {
        assert(u =~= seq![u[0]] + u.skip(1));
        let i = writes_split(s, seq![u[0]], u.skip(1), w);
        writes_byte(s, u[0], w.take(i));
        assert(Set::<u8>::full().contains(u[0]));
        lemma_writes_power(s, u.skip(1), w.skip(i));
        lang::cat_intro(a, lang::power(a, (u.len() - 1) as nat), w.take(i), w.skip(i));
    }
}

pub proof fn image_compose(a: Lang, s: Reading, r: Reading)
    ensures
        image(a, lang::compose(s, r)) == image(image(a, r), s),
{
    let l = image(a, lang::compose(s, r));
    let m = image(image(a, r), s);
    assert forall|v: Seq<u8>| #[trigger] l(v) == m(v) by {
        if l(v) {
            let u = choose|u: Seq<u8>| #[trigger]
                lang::writes(lang::compose(s, r), u, v) && a(u);
            writes_compose(s, r, u, v);
            let x = choose|x: Seq<u8>| #[trigger] lang::writes(r, u, x) && lang::writes(s, x, v);
            assert(image(a, r)(x));
        }
        if m(v) {
            let x = choose|x: Seq<u8>| #[trigger] lang::writes(s, x, v) && image(a, r)(x);
            let u = choose|u: Seq<u8>| #[trigger] lang::writes(r, u, x) && a(u);
            writes_compose(s, r, u, v);
            assert(lang::writes(lang::compose(s, r), u, v));
        }
    }
    assert(l =~= m);
}

pub proof fn image_epsilon(s: Reading)
    ensures
        image(lang::epsilon(), s) == lang::epsilon(),
{
    let e = Seq::<u8>::empty();
    assert forall|v: Seq<u8>| #[trigger] image(lang::epsilon(), s)(v) == lang::epsilon()(v) by {
        if v.len() == 0 {
            assert(lang::writes(s, e, v));
        }
        if image(lang::epsilon(), s)(v) {
            let u = choose|u: Seq<u8>| #[trigger] lang::writes(s, u, v) && lang::epsilon()(u);
        }
    }
    assert(image(lang::epsilon(), s) =~= lang::epsilon());
}

pub proof fn image_none(s: Reading)
    ensures
        image(lang::none(), s) == lang::none(),
{
    assert(image(lang::none(), s) =~= lang::none());
}

pub proof fn image_one_of(set: Set<u8>, s: Reading)
    ensures
        image(lang::one_of(set, lang::plain()), s) == lang::one_of(set, s),
{
    let l = image(lang::one_of(set, lang::plain()), s);
    let r = lang::one_of(set, s);
    assert forall|v: Seq<u8>| #[trigger] l(v) == r(v) by {
        if l(v) {
            let u = choose|u: Seq<u8>| #[trigger]
                lang::writes(s, u, v) && lang::one_of(set, lang::plain())(u);
            let b = choose|b: u8| #[trigger] set.contains(b) && lang::plain()(b, u);
            writes_byte(s, b, v);
        }
        if r(v) {
            let b = choose|b: u8| #[trigger] set.contains(b) && s(b, v);
            writes_byte(s, b, v);
            assert(lang::plain()(b, seq![b]));
            assert(lang::one_of(set, lang::plain())(seq![b]));
        }
    }
    assert(l =~= r);
}

pub proof fn image_literal(w: Seq<u8>, s: Reading)
    ensures
        image(lang::literal(w, lang::plain()), s) == lang::literal(w, s),
{
    let l = image(lang::literal(w, lang::plain()), s);
    let r = lang::literal(w, s);
    assert forall|v: Seq<u8>| #[trigger] l(v) == r(v) by {
        lang::writes_plain(w, w);
        if l(v) {
            let u = choose|u: Seq<u8>| #[trigger]
                lang::writes(s, u, v) && lang::literal(w, lang::plain())(u);
            lang::writes_plain(w, u);
        }
        if r(v) {
            assert(lang::writes(s, w, v));
            assert(lang::literal(w, lang::plain())(w));
        }
    }
    assert(l =~= r);
}

pub proof fn image_cat(a: Lang, b: Lang, s: Reading)
    ensures
        image(lang::cat(a, b), s) == lang::cat(image(a, s), image(b, s)),
{
    let l = image(lang::cat(a, b), s);
    let r = lang::cat(image(a, s), image(b, s));
    assert forall|v: Seq<u8>| #[trigger] l(v) == r(v) by {
        if l(v) {
            let u = choose|u: Seq<u8>| #[trigger] lang::writes(s, u, v) && lang::cat(a, b)(u);
            let i = lang::cat_split(a, b, u);
            let j = writes_split(s, u.take(i), u.skip(i), v);
            assert(image(a, s)(v.take(j)));
            assert(image(b, s)(v.skip(j)));
            lang::cat_intro(image(a, s), image(b, s), v.take(j), v.skip(j));
        }
        if r(v) {
            let j = lang::cat_split(image(a, s), image(b, s), v);
            let u1 = choose|u: Seq<u8>| #[trigger] lang::writes(s, u, v.take(j)) && a(u);
            let u2 = choose|u: Seq<u8>| #[trigger] lang::writes(s, u, v.skip(j)) && b(u);
            writes_join(s, u1, u2, v.take(j), v.skip(j));
            lang::cat_intro(a, b, u1, u2);
            assert(lang::writes(s, u1 + u2, v));
        }
    }
    assert(l =~= r);
}

pub proof fn image_power(a: Lang, k: nat, s: Reading)
    ensures
        image(lang::power(a, k), s) == lang::power(image(a, s), k),
    decreases k,
{
    if k == 0 {
        image_epsilon(s);
    } else {
        image_power(a, (k - 1) as nat, s);
        image_cat(a, lang::power(a, (k - 1) as nat), s);
    }
}

pub proof fn image_repeat(a: Lang, min: nat, max: Option<nat>, s: Reading)
    ensures
        image(lang::repeat(a, min, max), s) == lang::repeat(image(a, s), min, max),
{
    let l = image(lang::repeat(a, min, max), s);
    let r = lang::repeat(image(a, s), min, max);
    assert forall|v: Seq<u8>| #[trigger] l(v) == r(v) by {
        if l(v) {
            let u = choose|u: Seq<u8>| #[trigger]
                lang::writes(s, u, v) && lang::repeat(a, min, max)(u);
            let k = choose|k: nat| lang::in_bounds(k, min, max) && #[trigger] lang::power(a, k)(u);
            image_power(a, k, s);
            assert(image(lang::power(a, k), s)(v));
            assert(lang::power(image(a, s), k)(v));
        }
        if r(v) {
            let k = choose|k: nat|
                lang::in_bounds(k, min, max) && #[trigger] lang::power(image(a, s), k)(v);
            image_power(a, k, s);
            assert(image(lang::power(a, k), s)(v));
            let u = choose|u: Seq<u8>| #[trigger] lang::writes(s, u, v) && lang::power(a, k)(u);
            assert(lang::repeat(a, min, max)(u));
        }
    }
    assert(l =~= r);
}

pub proof fn image_chars(ranges: Seq<(char, char)>, s: Reading)
    ensures
        image(pattern::chars(ranges, lang::plain()), s) == pattern::chars(ranges, s),
{
    let p = pattern::chars(ranges, lang::plain());
    let l = image(p, s);
    let r = pattern::chars(ranges, s);
    assert forall|v: Seq<u8>| #[trigger] l(v) == r(v) by {
        if l(v) {
            let u = choose|u: Seq<u8>| #[trigger] lang::writes(s, u, v) && p(u);
            let c = choose|c: char| #[trigger]
                pattern::in_char_ranges(ranges, c) && lang::writes(
                    lang::plain(),
                    syntax::utf8(c),
                    u,
                );
            lang::writes_plain(syntax::utf8(c), u);
        }
        if r(v) {
            let c = choose|c: char| #[trigger]
                pattern::in_char_ranges(ranges, c) && lang::writes(s, syntax::utf8(c), v);
            let u = syntax::utf8(c);
            lang::writes_plain(u, u);
            assert(p(u));
            assert(lang::writes(s, u, v));
        }
    }
    assert(l =~= r);
}

pub proof fn image_any_text(s: Reading)
    ensures
        image(pattern::any_text(lang::plain()), s) == pattern::any_text(s),
{
    let ranges = seq![('\0', '\u{10FFFF}')];
    image_chars(ranges, s);
    image_repeat(pattern::chars(ranges, lang::plain()), 0, None, s);
}

pub proof fn image_gap(open: bool, s: Reading)
    ensures
        image(pattern::gap_lang(open, lang::plain()), s) == pattern::gap_lang(open, s),
{
    image_any_text(s);
    image_epsilon(s);
}

/// The writings of what a pattern means are what it means under the reading.
pub proof fn image_meaning(t: Syntax, s: Reading)
    ensures
        image(pattern::meaning(t, lang::plain()), s) == pattern::meaning(t, s),
    decreases t, 0nat,
{
    let p = lang::plain();
    image_none(s);
    match t.kind {
        KindView::Empty => {
            image_epsilon(s);
        },
        KindView::Literal(bytes) => {
            image_literal(bytes, s);
        },
        KindView::Bytes(ranges) => {
            image_one_of(pattern::byte_set(ranges), s);
        },
        KindView::Chars(ranges) => {
            image_chars(ranges, s);
        },
        KindView::Repetition(min, max) => {
            if t.subs.len() > 0 {
                image_meaning(t.subs[0], s);
                image_repeat(
                    pattern::meaning(t.subs[0], p),
                    min as nat,
                    pattern::upper_bound(max),
                    s,
                );
            }
        },
        KindView::Capture(_) => {
            if t.subs.len() > 0 {
                image_meaning(t.subs[0], s);
            }
        },
        KindView::Concat => {
            image_meaning_from(t.subs, 0, s);
        },
        KindView::Alternation => {
            let a = pattern::meaning(t, p);
            let b = pattern::meaning(t, s);
            assert forall|k: int| 0 <= k < t.subs.len() implies image(
                pattern::meaning(#[trigger] t.subs[k], p),
                s,
            ) == pattern::meaning(t.subs[k], s) by {
                image_meaning(t.subs[k], s);
            }
            assert forall|v: Seq<u8>| #[trigger] image(a, s)(v) == b(v) by {
                if image(a, s)(v) {
                    let u = choose|u: Seq<u8>| #[trigger] lang::writes(s, u, v) && a(u);
                    let k = choose|k: int|
                        0 <= k < t.subs.len() && pattern::meaning(#[trigger] t.subs[k], p)(u);
                    assert(image(pattern::meaning(t.subs[k], p), s)(v));
                }
                if b(v) {
                    let k = choose|k: int|
                        0 <= k < t.subs.len() && pattern::meaning(#[trigger] t.subs[k], s)(v);
                    assert(image(pattern::meaning(t.subs[k], p), s)(v));
                    let u = choose|u: Seq<u8>| #[trigger]
                        lang::writes(s, u, v) && pattern::meaning(t.subs[k], p)(u);
                    assert(a(u));
                }
            }
            assert(image(a, s) =~= b);
        },
        _ => {},
    }
}

proof fn image_meaning_from(ts: Seq<Syntax>, k: nat, s: Reading)
    ensures
        image(pattern::meaning_from(ts, k, lang::plain()), s) == pattern::meaning_from(ts, k, s),
    decreases ts, ts.len() - k,
{
    if k < ts.len() {
        image_meaning(ts[k as int], s);
        image_meaning_from(ts, k + 1, s);
        image_cat(
            pattern::meaning(ts[k as int], lang::plain()),
            pattern::meaning_from(ts, k + 1, lang::plain()),
            s,
        );
    } else {
        image_epsilon(s);
    }
}

/// The writings of the language of a placed pattern are its language under the reading.
pub proof fn image_placed(t: Syntax, at_start: bool, at_end: bool, search: bool, s: Reading)
    ensures
        image(pattern::placed_lang(t, at_start, at_end, search, lang::plain()), s)
            == pattern::placed_lang(t, at_start, at_end, search, s),
    decreases t, 0nat,
{
    let p = lang::plain();
    let left = at_start && search;
    let right = at_end && search;
    image_none(s);
    image_gap(left, s);
    image_gap(right, s);
    if pattern::look_free(t) {
        image_meaning(t, s);
        let m = pattern::meaning(t, p);
        image_cat(m, pattern::gap_lang(right, p), s);
        image_cat(
            pattern::gap_lang(left, p),
            lang::cat(m, pattern::gap_lang(right, p)),
            s,
        );
    } else {
        match t.kind {
            KindView::Capture(_) => {
                if t.subs.len() > 0 {
                    image_placed(t.subs[0], at_start, at_end, search, s);
                }
            },
            KindView::Concat => {
                image_placed_from(t.subs, 0, at_start, at_end, search, s);
            },
            KindView::Alternation => {
                let a = pattern::placed_lang(t, at_start, at_end, search, p);
                let b = pattern::placed_lang(t, at_start, at_end, search, s);
                assert forall|k: int| 0 <= k < t.subs.len() implies image(
                    pattern::placed_lang(#[trigger] t.subs[k], at_start, at_end, search, p),
                    s,
                ) == pattern::placed_lang(t.subs[k], at_start, at_end, search, s) by {
                    image_placed(t.subs[k], at_start, at_end, search, s);
                }
                assert forall|v: Seq<u8>| #[trigger] image(a, s)(v) == b(v) by {
                    if image(a, s)(v) {
                        let u = choose|u: Seq<u8>| #[trigger] lang::writes(s, u, v) && a(u);
                        let k = choose|k: int|
                            0 <= k < t.subs.len() && pattern::placed_lang(
                                #[trigger] t.subs[k],
                                at_start,
                                at_end,
                                search,
                                p,
                            )(u);
                        assert(image(
                            pattern::placed_lang(t.subs[k], at_start, at_end, search, p),
                            s,
                        )(v));
                    }
                    if b(v) {
                        let k = choose|k: int|
                            0 <= k < t.subs.len() && pattern::placed_lang(
                                #[trigger] t.subs[k],
                                at_start,
                                at_end,
                                search,
                                s,
                            )(v);
                        assert(image(
                            pattern::placed_lang(t.subs[k], at_start, at_end, search, p),
                            s,
                        )(v));
                        let u = choose|u: Seq<u8>| #[trigger]
                            lang::writes(s, u, v) && pattern::placed_lang(
                                t.subs[k],
                                at_start,
                                at_end,
                                search,
                                p,
                            )(u);
                        assert(a(u));
                    }
                }
                assert(image(a, s) =~= b);
            },
            _ => {},
        }
    }
}

proof fn image_placed_from(
    ts: Seq<Syntax>,
    k: nat,
    at_start: bool,
    at_end: bool,
    search: bool,
    s: Reading,
)
    ensures
        image(pattern::placed_from(ts, k, at_start, at_end, search, lang::plain()), s)
            == pattern::placed_from(ts, k, at_start, at_end, search, s),
    decreases ts, ts.len() - k,
{
    if k < ts.len() {
        let start_here = at_start && k == 0;
        let end_here = at_end && k + 1 == ts.len();
        image_placed(ts[k as int], start_here, end_here, search, s);
        image_placed_from(ts, k + 1, at_start, at_end, search, s);
        image_cat(
            pattern::placed_lang(ts[k as int], start_here, end_here, search, lang::plain()),
            pattern::placed_from(ts, k + 1, at_start, at_end, search, lang::plain()),
            s,
        );
    } else {
        image_epsilon(s);
    }
}

/// Digits and the point are written as themselves, and only so.
pub open spec fn numerals_plain(s: Reading) -> bool {
    forall|c: u8, v: Seq<u8>|
        number::is_digit(c) || c == 0x2e ==> #[trigger] s(c, v) == (v == seq![c])
}

/// A string of digits and points is written as itself, and only so.
proof fn lemma_numeral_writes(s: Reading, u: Seq<u8>, v: Seq<u8>)
    requires
        numerals_plain(s),
        forall|i: int| 0 <= i < u.len() ==> number::is_digit(#[trigger] u[i]) || u[i] == 0x2e,
    ensures
        lang::writes(s, u, v) == (u == v),
    decreases u.len(),
{
    if u.len() == 0 {
        if v.len() == 0 {
            assert(u =~= v);
        }
    } else {
        let rest = u.skip(1);
        assert(u =~= seq![u[0]] + rest);
        assert forall|i: int| 0 <= i < rest.len() implies number::is_digit(#[trigger] rest[i])
            || rest[i] == 0x2e by {
            assert(rest[i] == u[i + 1]);
        }
        if lang::writes(s, u, v) {
            let i = writes_split(s, seq![u[0]], rest, v);
            writes_byte(s, u[0], v.take(i));
            lemma_numeral_writes(s, rest, v.skip(i));
            assert(number::is_digit(u[0]) || u[0] == 0x2e);
            assert(v =~= u);
        }
        if u == v {
            assert(number::is_digit(u[0]) || u[0] == 0x2e);
            assert(s(u[0], seq![u[0]]));
            writes_byte(s, u[0], seq![u[0]]);
            lemma_numeral_writes(s, rest, rest);
            writes_join(s, seq![u[0]], rest, seq![u[0]], rest);
        }
    }
}

/// A numeral of a multiple has only digits and points.
proof fn lemma_multiple_bytes(divisor: nat, scale: nat, w: Seq<u8>)
    requires
        number::is_multiple(divisor, scale, w),
    ensures
        forall|i: int| 0 <= i < w.len() ==> number::is_digit(#[trigger] w[i]) || w[i] == 0x2e,
{
    if !number::divides(divisor, scale, w, seq![]) {
        let p = choose|p: int|
            #![trigger w[p]]
            0 <= p < w.len() && w[p] == 0x2e && number::divides(
                divisor,
                scale,
                w.take(p),
                w.skip(p + 1),
            );
        assert forall|i: int| 0 <= i < w.len() implies number::is_digit(#[trigger] w[i]) || w[i]
            == 0x2e by {
            if i < p {
                assert(w.take(p)[i] == w[i]);
            } else if i > p {
                assert(w.skip(p + 1)[i - p - 1] == w[i]);
            }
        }
    }
}

/// Numerals of multiples are written as themselves, where digits and the point are.
pub proof fn image_multiples(divisor: nat, scale: nat, s: Reading)
    requires
        numerals_plain(s),
    ensures
        image(number::multiples(divisor, scale), s) == number::multiples(divisor, scale),
{
    let a = number::multiples(divisor, scale);
    assert forall|v: Seq<u8>| #[trigger] image(a, s)(v) == a(v) by {
        if image(a, s)(v) {
            let u = choose|u: Seq<u8>| #[trigger] lang::writes(s, u, v) && a(u);
            lemma_multiple_bytes(divisor, scale, u);
            lemma_numeral_writes(s, u, v);
        }
        if a(v) {
            lemma_multiple_bytes(divisor, scale, v);
            lemma_numeral_writes(s, v, v);
            assert(lang::writes(s, v, v));
        }
    }
    assert(image(a, s) =~= a);
}

} // verus!
