//! Languages of byte strings, and the regular expressions that denote them.
//!
//! An expression is read relative to a [`Reading`], which says in how many ways each byte may be
//! written. Under [`plain`] every byte stands for itself and an expression has its ordinary
//! language; under the reading of an escape grammar it has the language of its escaped strings.

use crate::number;
use vstd::prelude::*;

verus! {

/// A language: a set of byte strings.
pub type Lang = spec_fn(Seq<u8>) -> bool;

/// The ways of writing a byte: `s(b, v)` says that the string `v` stands for the byte `b`.
pub type Reading = spec_fn(u8, Seq<u8>) -> bool;

/// The reading under which each byte stands for itself.
pub open spec fn plain() -> Reading {
    |b: u8, v: Seq<u8>| v == seq![b]
}

/// `v` is a concatenation of writings of the bytes of `u`.
pub open spec fn writes(s: Reading, u: Seq<u8>, v: Seq<u8>) -> bool
    decreases u.len(),
{
    if u.len() == 0 {
        v.len() == 0
    } else {
        exists|i: int|
            #![trigger v.take(i)]
            0 <= i <= v.len() && s(u[0], v.take(i)) && writes(s, u.skip(1), v.skip(i))
    }
}

/// `w` is a writing of some string.
pub open spec fn written(s: Reading, w: Seq<u8>) -> bool {
    exists|u: Seq<u8>| #[trigger] writes(s, u, w)
}

/// The reading that first writes a byte by `inner`, and then each byte of that by `outer`.
pub open spec fn compose(outer: Reading, inner: Reading) -> Reading {
    |b: u8, v: Seq<u8>| exists|f: Seq<u8>| #[trigger] inner(b, f) && writes(outer, f, v)
}

/// The language of no string.
pub open spec fn none() -> Lang {
    |w: Seq<u8>| false
}

/// The language of the empty string alone.
pub open spec fn epsilon() -> Lang {
    |w: Seq<u8>| w.len() == 0
}

/// The writings of one byte of `set`.
pub open spec fn one_of(set: Set<u8>, s: Reading) -> Lang {
    |w: Seq<u8>| exists|b: u8| #[trigger] set.contains(b) && s(b, w)
}

/// The writings of each of the characters of numerals.
pub open spec fn numeral_langs(s: Reading) -> Seq<Lang> {
    Seq::new(
        number::NUMERAL_CHARS as nat,
        |k: int| one_of(set![number::numeral_char(k)], s),
    )
}

/// The writings of the byte string `u`.
pub open spec fn literal(u: Seq<u8>, s: Reading) -> Lang {
    |w: Seq<u8>| writes(s, u, w)
}

/// Concatenation.
pub open spec fn cat(a: Lang, b: Lang) -> Lang {
    |w: Seq<u8>|
        exists|i: int|
            #![trigger w.take(i)]
            0 <= i <= w.len() && a(w.take(i)) && b(w.skip(i))
}

/// `k` strings of `a`, one after another.
pub open spec fn power(a: Lang, k: nat) -> Lang
    decreases k,
{
    if k == 0 {
        epsilon()
    } else {
        cat(a, power(a, (k - 1) as nat))
    }
}

/// Whether `k` lies between `min` and `max`, where no `max` means no upper bound.
pub open spec fn in_bounds(k: nat, min: nat, max: Option<nat>) -> bool {
    min <= k && (max matches Some(m) ==> k <= m)
}

/// Between `min` and `max` strings of `a`, one after another.
pub open spec fn repeat(a: Lang, min: nat, max: Option<nat>) -> Lang {
    |w: Seq<u8>| exists|k: nat| in_bounds(k, min, max) && #[trigger] power(a, k)(w)
}

/// A regular expression.
pub enum Rx {
    /// Matches the empty string.
    EmptyString,
    /// Matches nothing.
    NoMatch,
    /// Matches one byte of the set.
    ByteSet(Set<u8>),
    /// Matches the bytes, followed by a string of the expression.
    ByteConcat(Seq<u8>, Box<Rx>),
    /// Matches what completes a decimal numeral to a multiple: see [`number::accepts`]. Its digits
    /// and its point stand for themselves, or are matched by the expressions of `forms`, where there
    /// are any.
    RemainderIs {
        divisor: nat,
        remainder: nat,
        scale: nat,
        fractional_part: bool,
        forms: Seq<Rx>,
    },
    /// Matches what the expression matches. The number is the offset that it was made with.
    Lookahead(Box<Rx>, nat),
    /// Matches what the expression does not match, of the writings of strings.
    Not(Box<Rx>),
    /// Matches a number of strings of the expression that lies between the two bounds.
    Repeat(Box<Rx>, nat, Option<nat>),
    /// Matches a string of the first expression, followed by one of the second.
    Concat(Box<Rx>, Box<Rx>),
    /// Matches what one of the expressions matches.
    Or(Seq<Rx>),
    /// Matches what all of the expressions match, of the writings of strings.
    And(Seq<Rx>),
}

/// The expression is a lookahead that was made with the offset 0.
pub open spec fn fresh_lookahead(rx: Rx) -> bool {
    rx matches Rx::Lookahead(_, offset) && offset == 0
}

/// The language of an expression under a reading.
pub open spec fn language(rx: Rx, s: Reading) -> Lang
    decreases rx,
{
    match rx {
        Rx::EmptyString => epsilon(),
        Rx::NoMatch => none(),
        Rx::ByteSet(set) => one_of(set, s),
        Rx::ByteConcat(bytes, tail) => cat(literal(bytes, s), language(*tail, s)),
        Rx::RemainderIs { divisor, remainder, scale, fractional_part, forms } => {
            let ls = form_langs(forms, s);
            |w: Seq<u8>| number::spelled(divisor, remainder, scale, fractional_part, ls, w)
        },
        Rx::Lookahead(e, _) => language(*e, s),
        Rx::Not(e) => |w: Seq<u8>| written(s, w) && !language(*e, s)(w),
        Rx::Repeat(e, min, max) => repeat(language(*e, s), min, max),
        Rx::Concat(a, b) => cat(language(*a, s), language(*b, s)),
        Rx::Or(es) => |w: Seq<u8>| exists|i: int| 0 <= i < es.len() && language(#[trigger] es[i], s)(w),
        Rx::And(es) =>
            |w: Seq<u8>|
                written(s, w) && forall|i: int|
                    0 <= i < es.len() ==> language(#[trigger] es[i], s)(w),
    }
}

/// Some byte is in the set.
pub open spec fn some_byte(set: Set<u8>) -> bool {
    exists|b: u8| #[trigger] set.contains(b)
}

/// The expression is built of bytes, alternatives, repetitions, lookaheads and one thing after
/// another alone, and none of its parts matches nothing.
pub open spec fn live(rx: Rx) -> bool
    decreases rx,
{
    match rx {
        Rx::EmptyString => true,
        Rx::ByteSet(set) => some_byte(set),
        Rx::ByteConcat(_, tail) => live(*tail),
        Rx::Lookahead(e, _) => live(*e),
        Rx::Repeat(e, min, max) => live(*e) && in_bounds(min, min, max),
        Rx::Concat(a, b) => live(*a) && live(*b),
        Rx::Or(es) => es.len() > 0 && forall|i: int| 0 <= i < es.len() ==> live(#[trigger] es[i]),
        _ => false,
    }
}

/// The expression is the other one, or an intersection that it is a part of.
pub open spec fn guarded(rx: Rx, m: Rx) -> bool {
    rx == m || (rx matches Rx::And(es) && es.contains(m))
}

/// A string that is one of `a`, `k` times over.
proof fn lemma_power_some(a: Lang, u: Seq<u8>, k: nat) -> (w: Seq<u8>)
    requires
        a(u),
    ensures
        power(a, k)(w),
    decreases k,
{
    if k == 0 {
        Seq::empty()
    } else {
        let v = lemma_power_some(a, u, (k - 1) as nat);
        cat_intro(a, power(a, (k - 1) as nat), u, v);
        u + v
    }
}

/// Such an expression matches some string.
pub proof fn live_matches(rx: Rx) -> (w: Seq<u8>)
    requires
        live(rx),
    ensures
        language(rx, plain())(w),
    decreases rx,
{
    match rx {
        Rx::ByteSet(set) => {
            let b = choose|b: u8| #[trigger] set.contains(b);
            assert(plain()(b, seq![b]));
            seq![b]
        },
        Rx::ByteConcat(bytes, tail) => {
            let v = live_matches(*tail);
            writes_plain(bytes, bytes);
            cat_intro(literal(bytes, plain()), language(*tail, plain()), bytes, v);
            bytes + v
        },
        Rx::Lookahead(e, _) => live_matches(*e),
        Rx::Repeat(e, min, max) => {
            let u = live_matches(*e);
            let w = lemma_power_some(language(*e, plain()), u, min);
            assert(in_bounds(min, min, max));
            w
        },
        Rx::Concat(a, b) => {
            let u = live_matches(*a);
            let v = live_matches(*b);
            cat_intro(language(*a, plain()), language(*b, plain()), u, v);
            u + v
        },
        Rx::Or(es) => {
            let w = live_matches(es[0]);
            assert(language(es[0], plain())(w));
            w
        },
        _ => Seq::empty(),
    }
}

/// The languages in which the characters of a numeral are written: its own, or those of the
/// expressions of `forms`, where there are any.
pub open spec fn form_langs(forms: Seq<Rx>, s: Reading) -> Seq<Lang>
    decreases forms,
{
    Seq::new(
        number::NUMERAL_CHARS as nat,
        |k: int|
            if 0 <= k < forms.len() {
                language(forms[k], s)
            } else if forms.len() == 0 {
                one_of(set![number::numeral_char(k)], s)
            } else {
                none()
            },
    )
}

/// What a numeral matches.
pub proof fn language_numeral(
    divisor: nat,
    remainder: nat,
    scale: nat,
    fractional_part: bool,
    forms: Seq<Rx>,
    s: Reading,
    w: Seq<u8>,
)
    ensures
        language(Rx::RemainderIs { divisor, remainder, scale, fractional_part, forms }, s)(w)
            == number::spelled(
            divisor,
            remainder,
            scale,
            fractional_part,
            form_langs(forms, s),
            w,
        ),
{
}

/// A numeral without forms is written in its own characters.
pub proof fn own_forms(forms: Seq<Rx>, s: Reading)
    ensures
        forms.len() == 0 ==> form_langs(forms, s) == numeral_langs(s),
        forms.len() == number::NUMERAL_CHARS ==> form_langs(forms, s) == languages(forms, s),
{
    if forms.len() == 0 {
        assert(form_langs(forms, s) =~= numeral_langs(s));
    }
    if forms.len() == number::NUMERAL_CHARS {
        assert(form_langs(forms, s) =~= languages(forms, s));
    }
}

/// Concatenation of several languages.
pub open spec fn cat_all(ls: Seq<Lang>) -> Lang
    decreases ls.len(),
{
    if ls.len() == 0 {
        epsilon()
    } else {
        cat(ls[0], cat_all(ls.skip(1)))
    }
}

/// Union.
pub open spec fn union(ls: Seq<Lang>) -> Lang {
    |w: Seq<u8>| exists|i: int| 0 <= i < ls.len() && (#[trigger] ls[i])(w)
}

/// Intersection, of the writings of strings.
pub open spec fn intersection(ls: Seq<Lang>, s: Reading) -> Lang {
    |w: Seq<u8>| written(s, w) && forall|i: int| 0 <= i < ls.len() ==> (#[trigger] ls[i])(w)
}

/// Complement, of the writings of strings.
pub open spec fn complement(a: Lang, s: Reading) -> Lang {
    |w: Seq<u8>| written(s, w) && !a(w)
}

/// The languages of several expressions.
pub open spec fn languages(es: Seq<Rx>, s: Reading) -> Seq<Lang> {
    es.map_values(|e: Rx| language(e, s))
}

pub proof fn language_or(es: Seq<Rx>, s: Reading)
    ensures
        language(Rx::Or(es), s) == union(languages(es, s)),
{
    let l = language(Rx::Or(es), s);
    let r = union(languages(es, s));
    assert forall|w: Seq<u8>| #[trigger] l(w) == r(w) by {
        if l(w) {
            let i = choose|i: int| 0 <= i < es.len() && language(#[trigger] es[i], s)(w);
            assert(languages(es, s)[i](w));
        }
        if r(w) {
            let i = choose|i: int| 0 <= i < es.len() && (#[trigger] languages(es, s)[i])(w);
            assert(language(es[i], s)(w));
        }
    }
    assert(l =~= r);
}

pub proof fn language_and(es: Seq<Rx>, s: Reading)
    ensures
        language(Rx::And(es), s) == intersection(languages(es, s), s),
{
    let l = language(Rx::And(es), s);
    let r = intersection(languages(es, s), s);
    assert forall|w: Seq<u8>| #[trigger] l(w) == r(w) by {
        if l(w) {
            assert forall|i: int| 0 <= i < es.len() implies (#[trigger] languages(es, s)[i])(
                w,
            ) by {
                assert(language(es[i], s)(w));
            }
        }
        if r(w) {
            assert forall|i: int| 0 <= i < es.len() implies language(#[trigger] es[i], s)(w) by {
                assert(languages(es, s)[i](w));
            }
        }
    }
    assert(l =~= r);
}

/// A concatenation holds the join of one string of each language.
pub proof fn cat_intro(a: Lang, b: Lang, u: Seq<u8>, v: Seq<u8>)
    requires
        a(u),
        b(v),
    ensures
        cat(a, b)(u + v),
{
    let w = u + v;
    assert(w.take(u.len() as int) =~= u);
    assert(w.skip(u.len() as int) =~= v);
}

/// A string of a concatenation splits into one string of each language.
pub proof fn cat_split(a: Lang, b: Lang, w: Seq<u8>) -> (i: int)
    requires
        cat(a, b)(w),
    ensures
        0 <= i <= w.len(),
        a(w.take(i)),
        b(w.skip(i)),
        w == w.take(i) + w.skip(i),
{
    let i = choose|i: int|
        #![trigger w.take(i)]
        0 <= i <= w.len() && a(w.take(i)) && b(w.skip(i));
    assert(w =~= w.take(i) + w.skip(i));
    i
}

pub proof fn cat_epsilon_left(a: Lang)
    ensures
        cat(epsilon(), a) == a,
{
    let e = epsilon();
    assert forall|w: Seq<u8>| #[trigger] cat(e, a)(w) == a(w) by {
        if cat(e, a)(w) {
            let i = cat_split(e, a, w);
            assert(w.skip(i) =~= w);
        }
        if a(w) {
            cat_intro(e, a, Seq::empty(), w);
            assert(Seq::<u8>::empty() + w =~= w);
        }
    }
    assert(cat(e, a) =~= a);
}

pub proof fn cat_epsilon_right(a: Lang)
    ensures
        cat(a, epsilon()) == a,
{
    let e = epsilon();
    assert forall|w: Seq<u8>| #[trigger] cat(a, e)(w) == a(w) by {
        if cat(a, e)(w) {
            let i = cat_split(a, e, w);
            assert(w.take(i) =~= w);
        }
        if a(w) {
            cat_intro(a, e, w, Seq::empty());
            assert(w + Seq::<u8>::empty() =~= w);
        }
    }
    assert(cat(a, e) =~= a);
}

pub proof fn cat_none(a: Lang)
    ensures
        cat(none(), a) == none(),
        cat(a, none()) == none(),
{
    assert(cat(none(), a) =~= none());
    assert(cat(a, none()) =~= none());
}

pub proof fn cat_assoc(a: Lang, b: Lang, c: Lang)
    ensures
        cat(cat(a, b), c) == cat(a, cat(b, c)),
{
    let l = cat(cat(a, b), c);
    let r = cat(a, cat(b, c));
    assert forall|w: Seq<u8>| #[trigger] l(w) == r(w) by {
        if l(w) {
            let j = cat_split(cat(a, b), c, w);
            let i = cat_split(a, b, w.take(j));
            cat_intro(b, c, w.take(j).skip(i), w.skip(j));
            cat_intro(a, cat(b, c), w.take(j).take(i), w.take(j).skip(i) + w.skip(j));
            assert(w.take(j).take(i) + (w.take(j).skip(i) + w.skip(j)) =~= w);
        }
        if r(w) {
            let i = cat_split(a, cat(b, c), w);
            let j = cat_split(b, c, w.skip(i));
            cat_intro(a, b, w.take(i), w.skip(i).take(j));
            cat_intro(cat(a, b), c, w.take(i) + w.skip(i).take(j), w.skip(i).skip(j));
            assert((w.take(i) + w.skip(i).take(j)) + w.skip(i).skip(j) =~= w);
        }
    }
    assert(l =~= r);
}

pub proof fn literal_empty(s: Reading)
    ensures
        literal(Seq::empty(), s) == epsilon(),
{
    assert(literal(Seq::empty(), s) =~= epsilon());
}

pub proof fn literal_one(b: u8, s: Reading)
    ensures
        literal(seq![b], s) == one_of(set![b], s),
{
    let l = literal(seq![b], s);
    let r = one_of(set![b], s);
    assert forall|w: Seq<u8>| #[trigger] l(w) == r(w) by {
        assert(seq![b].skip(1) =~= Seq::<u8>::empty());
        if l(w) {
            let i = choose|i: int|
                #![trigger w.take(i)]
                0 <= i <= w.len() && s(b, w.take(i)) && writes(s, seq![b].skip(1), w.skip(i));
            assert(w.take(i) =~= w);
            assert(set![b].contains(b));
        }
        if r(w) {
            assert(s(b, w));
            assert(w.take(w.len() as int) =~= w);
            assert(w.skip(w.len() as int).len() == 0);
            assert(writes(s, seq![b].skip(1), w.skip(w.len() as int)));
        }
    }
    assert(l =~= r);
}

/// A literal is its first byte and then the rest of it.
pub proof fn literal_cons(b: u8, u: Seq<u8>, s: Reading)
    ensures
        literal(seq![b] + u, s) == cat(one_of(set![b], s), literal(u, s)),
{
    let l = literal(seq![b] + u, s);
    let one = one_of(set![b], s);
    let r = cat(one, literal(u, s));
    let bu = seq![b] + u;
    assert(bu.skip(1) =~= u);
    assert forall|w: Seq<u8>| #[trigger] l(w) == r(w) by {
        if l(w) {
            let i = choose|i: int|
                #![trigger w.take(i)]
                0 <= i <= w.len() && s(b, w.take(i)) && writes(s, bu.skip(1), w.skip(i));
            assert(set![b].contains(b));
            assert(one(w.take(i)));
        }
        if r(w) {
            let i = cat_split(one, literal(u, s), w);
            assert(s(bu[0], w.take(i)));
        }
    }
    assert(l =~= r);
}

pub proof fn literal_concat(u: Seq<u8>, v: Seq<u8>, s: Reading)
    ensures
        literal(u + v, s) == cat(literal(u, s), literal(v, s)),
    decreases u.len(),
{
    if u.len() == 0 {
        assert(u + v =~= v);
        assert(u =~= Seq::empty());
        literal_empty(s);
        cat_epsilon_left(literal(v, s));
    } else {
        let one = one_of(set![u[0]], s);
        let rest = u.skip(1);
        literal_concat(rest, v, s);
        assert(u + v =~= seq![u[0]] + (rest + v));
        assert(u =~= seq![u[0]] + rest);
        literal_cons(u[0], rest + v, s);
        literal_cons(u[0], rest, s);
        cat_assoc(one, literal(rest, s), literal(v, s));
    }
}

/// Under the plain reading a byte string is written in one way: as itself.
pub proof fn writes_plain(u: Seq<u8>, v: Seq<u8>)
    ensures
        writes(plain(), u, v) <==> u == v,
    decreases u.len(),
{
    if u.len() == 0 {
        if v.len() == 0 {
            assert(u =~= v);
        }
    } else {
        if writes(plain(), u, v) {
            let i = choose|i: int|
                #![trigger v.take(i)]
                0 <= i <= v.len() && plain()(u[0], v.take(i)) && writes(
                    plain(),
                    u.skip(1),
                    v.skip(i),
                );
            writes_plain(u.skip(1), v.skip(i));
            assert(v =~= v.take(i) + v.skip(i));
            assert(u =~= seq![u[0]] + u.skip(1));
        }
        if u == v {
            writes_plain(u.skip(1), v.skip(1));
            assert(v.take(1) =~= seq![u[0]]);
        }
    }
}

/// Written plainly, every string is a writing.
pub proof fn written_plain(w: Seq<u8>)
    ensures
        written(plain(), w),
{
    writes_plain(w, w);
}

/// Readings that write the bytes of a string alike write the string alike.
pub proof fn writes_alike(r: Reading, s: Reading, u: Seq<u8>, v: Seq<u8>)
    requires
        forall|i: int, x: Seq<u8>| 0 <= i < u.len() ==> #[trigger] r(u[i], x) == s(u[i], x),
    ensures
        writes(r, u, v) == writes(s, u, v),
    decreases u.len(),
{
    if u.len() > 0 {
        let rest = u.skip(1);
        assert forall|i: int, x: Seq<u8>| 0 <= i < rest.len() implies #[trigger] r(rest[i], x) == s(
            rest[i],
            x,
        ) by {
            assert(rest[i] == u[i + 1]);
        }
        assert forall|i: int| 0 <= i <= v.len() implies writes(r, rest, #[trigger] v.skip(i))
            == writes(s, rest, v.skip(i)) by {
            writes_alike(r, s, rest, v.skip(i));
        }
        if writes(r, u, v) {
            let i = choose|i: int|
                #![trigger v.take(i)]
                0 <= i <= v.len() && r(u[0], v.take(i)) && writes(r, rest, v.skip(i));
            assert(writes(s, rest, v.skip(i)));
            assert(s(u[0], v.take(i)));
        }
        if writes(s, u, v) {
            let i = choose|i: int|
                #![trigger v.take(i)]
                0 <= i <= v.len() && s(u[0], v.take(i)) && writes(s, rest, v.skip(i));
            assert(writes(r, rest, v.skip(i)));
            assert(r(u[0], v.take(i)));
        }
    }
}

/// Writing each byte in its one plain way changes nothing.
pub proof fn compose_plain(s: Reading)
    ensures
        compose(s, plain()) == s,
        compose(plain(), s) == s,
{
    assert forall|b: u8, v: Seq<u8>| #[trigger] compose(s, plain())(b, v) == s(b, v) by {
        literal_one(b, s);
        let l = literal(seq![b], s);
        assert(l(v) == one_of(set![b], s)(v));
        assert(one_of(set![b], s)(v) == s(b, v)) by {
            assert(set![b].contains(b));
        }
        if s(b, v) {
            assert(plain()(b, seq![b]) && writes(s, seq![b], v));
        }
    }
    assert(compose(s, plain()) =~= s);
    assert forall|b: u8, v: Seq<u8>| #[trigger] compose(plain(), s)(b, v) == s(b, v) by {
        if compose(plain(), s)(b, v) {
            let f = choose|f: Seq<u8>| #[trigger] s(b, f) && writes(plain(), f, v);
            writes_plain(f, v);
        }
        if s(b, v) {
            writes_plain(v, v);
        }
    }
    assert(compose(plain(), s) =~= s);
}

pub proof fn power_one(a: Lang)
    ensures
        power(a, 1) == a,
{
    cat_epsilon_right(a);
    assert(power(a, 0) == epsilon());
    reveal_with_fuel(power, 2);
}

pub proof fn power_of_none(k: nat)
    ensures
        power(none(), k) == (if k == 0 { epsilon() } else { none() }),
{
    if k > 0 {
        cat_none(power(none(), (k - 1) as nat));
    }
}

pub proof fn power_of_epsilon(k: nat)
    ensures
        power(epsilon(), k) == epsilon(),
    decreases k,
{
    if k > 0 {
        power_of_epsilon((k - 1) as nat);
        cat_epsilon_left(epsilon());
    }
}

pub proof fn cat_at_empty(a: Lang, b: Lang)
    ensures
        cat(a, b)(Seq::empty()) <==> a(Seq::empty()) && b(Seq::empty()),
{
    let w = Seq::<u8>::empty();
    if cat(a, b)(w) {
        let i = cat_split(a, b, w);
        assert(w.take(i) =~= w);
        assert(w.skip(i) =~= w);
    }
    if a(w) && b(w) {
        cat_intro(a, b, w, w);
        assert(w + w =~= w);
    }
}

pub proof fn power_at_empty(a: Lang, k: nat)
    ensures
        power(a, k)(Seq::empty()) <==> k == 0 || a(Seq::empty()),
    decreases k,
{
    if k > 0 {
        power_at_empty(a, (k - 1) as nat);
        cat_at_empty(a, power(a, (k - 1) as nat));
    }
}

pub proof fn repeat_at_empty(a: Lang, min: nat, max: Option<nat>)
    ensures
        repeat(a, min, max)(Seq::empty()) <==> (max matches Some(m) ==> min <= m) && (min == 0
            || a(Seq::empty())),
{
    power_at_empty(a, min);
    let w = Seq::<u8>::empty();
    if repeat(a, min, max)(w) {
        let k = choose|k: nat| in_bounds(k, min, max) && #[trigger] power(a, k)(w);
        power_at_empty(a, k);
    }
    if (max matches Some(m) ==> min <= m) && (min == 0 || a(w)) {
        assert(in_bounds(min, min, max) && power(a, min)(w));
    }
}

/// Under the plain reading no byte is written as the empty string.
pub proof fn one_of_at_empty(set: Set<u8>)
    ensures
        !one_of(set, plain())(Seq::empty()),
{
    assert forall|b: u8| #[trigger] set.contains(b) implies !plain()(b, Seq::empty()) by {
        assert(seq![b].len() == 1);
    }
}

} // verus!
