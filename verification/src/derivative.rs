//! What is left of languages and expressions after a byte.

use crate::byteset::byteset_contains;
use crate::expr::{max_bound, Expr, ExprRef, ExprSet};
use crate::image;
use crate::lang;
use crate::lang::Lang;
use crate::number;
use crate::number::{numeral_byte, reachable, read_digit, State};
use crate::util::copied;
use std::collections::HashMap;
use vstd::prelude::*;

verus! {

broadcast use vstd::std_specs::hash::group_hash_axioms;

/// The strings that may follow the byte.
pub open spec fn after(a: Lang, b: u8) -> Lang {
    |w: Seq<u8>| a(seq![b] + w)
}

/// After the first byte of a concatenation.
pub proof fn after_cat(a: Lang, c: Lang, b: u8, w: Seq<u8>)
    ensures
        lang::cat(a, c)(seq![b] + w) == (lang::cat(after(a, b), c)(w) || (a(Seq::empty()) && c(
            seq![b] + w,
        ))),
{
    let bw = seq![b] + w;
    if lang::cat(a, c)(bw) {
        let i = lang::cat_split(a, c, bw);
        if i == 0 {
            assert(bw.take(0) =~= Seq::empty());
            assert(bw.skip(0) =~= bw);
        } else {
            assert(bw.take(i) =~= seq![b] + w.take(i - 1));
            assert(bw.skip(i) =~= w.skip(i - 1));
            assert(after(a, b)(w.take(i - 1)));
            lang::cat_intro(after(a, b), c, w.take(i - 1), w.skip(i - 1));
            assert(w =~= w.take(i - 1) + w.skip(i - 1));
        }
    }
    if lang::cat(after(a, b), c)(w) {
        let i = lang::cat_split(after(a, b), c, w);
        lang::cat_intro(a, c, seq![b] + w.take(i), w.skip(i));
        assert((seq![b] + w.take(i)) + w.skip(i) =~= bw);
    }
    if a(Seq::empty()) && c(bw) {
        lang::cat_intro(a, c, Seq::empty(), bw);
        assert(Seq::<u8>::empty() + bw =~= bw);
    }
}

/// Where a language holds the empty string, more repetitions hold what fewer do.
proof fn lemma_power_monotonic(a: Lang, j: nat, k: nat, w: Seq<u8>)
    requires
        a(Seq::empty()),
        j <= k,
        lang::power(a, j)(w),
    ensures
        lang::power(a, k)(w),
    decreases k - j,
{
    if j < k {
        lemma_power_monotonic(a, j, (k - 1) as nat, w);
        lang::cat_intro(a, lang::power(a, (k - 1) as nat), Seq::empty(), w);
        assert(Seq::<u8>::empty() + w =~= w);
    }
}

/// After the first byte of some repetitions, one repetition fewer follows.
proof fn lemma_after_power(a: Lang, k: nat, b: u8, w: Seq<u8>)
    ensures
        lang::power(a, k)(seq![b] + w) ==> k > 0 && lang::cat(
            after(a, b),
            lang::power(a, (k - 1) as nat),
        )(w),
        k > 0 && lang::cat(after(a, b), lang::power(a, (k - 1) as nat))(w) ==> lang::power(a, k)(
            seq![b] + w,
        ),
    decreases k,
{
    let bw = seq![b] + w;
    if k == 0 {
        assert(bw.len() == w.len() + 1);
    } else {
        let p = lang::power(a, (k - 1) as nat);
        after_cat(a, p, b, w);
        if lang::power(a, k)(bw) && !lang::cat(after(a, b), p)(w) {
            // The first repetition is empty.
            lemma_after_power(a, (k - 1) as nat, b, w);
            let q = lang::power(a, (k - 2) as nat);
            let i = lang::cat_split(after(a, b), q, w);
            lemma_power_monotonic(a, (k - 2) as nat, (k - 1) as nat, w.skip(i));
            lang::cat_intro(after(a, b), p, w.take(i), w.skip(i));
        }
    }
}

/// The upper bound after one repetition.
pub open spec fn less_one(max: Option<nat>) -> Option<nat> {
    match max {
        Some(m) => Some(if m > 0 {
            (m - 1) as nat
        } else {
            0
        }),
        None => None,
    }
}

/// After the first byte of a repetition.
pub proof fn after_repeat(a: Lang, min: nat, max: Option<nat>, b: u8, w: Seq<u8>)
    requires
        max matches Some(m) ==> m > 0,
    ensures
        lang::repeat(a, min, max)(seq![b] + w) == lang::cat(
            after(a, b),
            lang::repeat(
                a,
                if min > 0 {
                    (min - 1) as nat
                } else {
                    0
                },
                less_one(max),
            ),
        )(w),
{
    let bw = seq![b] + w;
    let low = if min > 0 {
        (min - 1) as nat
    } else {
        0
    };
    let rest = lang::repeat(a, low, less_one(max));
    if lang::repeat(a, min, max)(bw) {
        let k = choose|k: nat| lang::in_bounds(k, min, max) && #[trigger] lang::power(a, k)(bw);
        lemma_after_power(a, k, b, w);
        let p = lang::power(a, (k - 1) as nat);
        let i = lang::cat_split(after(a, b), p, w);
        assert(lang::in_bounds((k - 1) as nat, low, less_one(max)));
        assert(rest(w.skip(i)));
        lang::cat_intro(after(a, b), rest, w.take(i), w.skip(i));
    }
    if lang::cat(after(a, b), rest)(w) {
        let i = lang::cat_split(after(a, b), rest, w);
        let v = w.skip(i);
        let k = choose|k: nat|
            lang::in_bounds(k, low, less_one(max)) && #[trigger] lang::power(a, k)(v);
        let p = lang::power(a, k);
        lang::cat_intro(after(a, b), p, w.take(i), v);
        lemma_after_power(a, k + 1, b, w);
        assert(lang::in_bounds(k + 1, min, max));
        assert(lang::power(a, k + 1)(bw));
    }
}

/// `r` matches what may follow the byte in strings of `e`, and is clear where `e` is.
pub open spec fn follows(set: &ExprSet, e: ExprRef, b: u8, r: ExprRef) -> bool {
    &&& set.valid(e)
    &&& set.valid(r)
    &&& set.lang(r, lang::plain()) == after(set.lang(e, lang::plain()), b)
    &&& set.clear(e) ==> set.clear(r)
}

/// `r` matches what may follow the byte in strings of `e`, and what holds `e` holds, after the byte,
/// `r`.
pub open spec fn is_after(set: &ExprSet, e: ExprRef, b: u8, r: ExprRef) -> bool {
    &&& follows(set, e, b, r)
    &&& forall|l: Lang| #[trigger] set.held(e, l) ==> set.held(r, after(l, b))
}

/// What holds an expression that is no intersection is its own language.
proof fn lemma_held_after(set: &ExprSet, e: ExprRef, b: u8, r: ExprRef)
    requires
        set.wf(),
        follows(set, e, b, r),
        !(set.tree(e) is And),
    ensures
        is_after(set, e, b, r),
{
    assert forall|l: Lang| #[trigger] set.held(e, l) implies set.held(r, after(l, b)) by {
        set.lemma_held_alone(e, l);
        if e.id == 1 {
            lemma_nothing_after(set, e, b, r, after(l, b));
        } else {
            set.lemma_held_itself(r);
        }
    }
}

/// After nothing comes nothing.
proof fn lemma_nothing_after(set: &ExprSet, e: ExprRef, b: u8, r: ExprRef, l: Lang)
    requires
        set.wf(),
        follows(set, e, b, r),
        e.id == 1,
    ensures
        set.held(r, l),
{
    set.lemma_constants();
    set.lemma_clear(r);
    assert(e == ExprRef { id: 1 });
    assert forall|w: Seq<u8>| !#[trigger] set.lang(r, lang::plain())(w) by {
        assert(!set.lang(e, lang::plain())(seq![b] + w));
    }
    set.lemma_held_dead(r, l);
}

/// What follows stays what it is while the set grows.
pub proof fn lemma_is_after_kept(now: &ExprSet, before: &ExprSet, e: ExprRef, b: u8, r: ExprRef)
    requires
        now.keeps(before),
        is_after(before, e, b, r),
    ensures
        is_after(now, e, b, r),
{
    assert(before.valid(e) && before.valid(r));
    assert(now.tree(e) == before.tree(e) && now.tree(r) == before.tree(r));
    assert forall|l: Lang| #[trigger] now.held(e, l) implies now.held(r, after(l, b)) by {
        now.lemma_held_alike(before, e, l);
        now.lemma_held_alike(before, r, after(l, b));
    }
}

/// All that is remembered is what follows. A key is the place of the expression, times 256, and
/// the byte.
pub open spec fn table_ok(set: &ExprSet, table: Map<u64, ExprRef>) -> bool {
    forall|key: u64| #[trigger]
        table.contains_key(key) ==> is_after(
            set,
            ExprRef { id: (key / 256) as usize },
            (key % 256) as u8,
            table[key],
        )
}

/// What is remembered stays right while the set grows.
proof fn lemma_table_kept(now: &ExprSet, before: &ExprSet, table: Map<u64, ExprRef>)
    requires
        now.keeps(before),
        table_ok(before, table),
    ensures
        table_ok(now, table),
{
    assert forall|key: u64| #[trigger] table.contains_key(key) implies is_after(
        now,
        ExprRef { id: (key / 256) as usize },
        (key % 256) as u8,
        table[key],
    ) by {
        lemma_is_after_kept(
            now,
            before,
            ExprRef { id: (key / 256) as usize },
            (key % 256) as u8,
            table[key],
        );
    }
}

/// The expression of what may follow the byte in strings of `e`.
pub(crate) fn derivative(
    set: &mut ExprSet,
    table: &mut HashMap<u64, ExprRef>,
    e: ExprRef,
    b: u8,
) -> (r: ExprRef)
    requires
        old(set).wf(),
        old(set).valid(e),
        table_ok(old(set), old(table)@),
    ensures
        final(set).wf(),
        final(set).keeps(old(set)),
        table_ok(final(set), final(table)@),
        is_after(final(set), e, b, r),
    decreases e.id, 3nat,
{
    let key: u64 = if (e.id as u64) < 0x0080_0000_0000_0000 {
        (e.id as u64) * 256 + b as u64
    } else {
        let r: ExprRef = derivative_of(set, table, e, b);
        proof {
            assert(set.tree(e) == old(set).tree(e));
            if !(set.tree(e) is And) {
                lemma_held_after(set, e, b, r);
            }
        }
        return r;
    };
    assert(key / 256 == e.id && key % 256 == b);
    match table.get(&key) {
        Some(r) => {
            return *r;
        },
        None => {},
    }
    let r: ExprRef = derivative_of(set, table, e, b);
    proof {
        assert(set.tree(e) == old(set).tree(e));
        if !(set.tree(e) is And) {
            lemma_held_after(set, e, b, r);
        }
    }
    let ghost before = table@;
    table.insert(key, r);
    proof {
        assert forall|k: u64| #[trigger] table@.contains_key(k) implies is_after(
            set,
            ExprRef { id: (k / 256) as usize },
            (k % 256) as u8,
            table@[k],
        ) by {
            if k != key {
                assert(before.contains_key(k));
            }
        }
    }
    r
}

/// The derivatives of several expressions.
fn derivatives(
    set: &mut ExprSet,
    table: &mut HashMap<u64, ExprRef>,
    v: &[ExprRef],
    b: u8,
    bound: usize,
) -> (r: Vec<ExprRef>)
    requires
        old(set).wf(),
        old(set).all_valid(v@),
        forall|k: int| 0 <= k < v@.len() ==> (#[trigger] v@[k]).id < bound,
        table_ok(old(set), old(table)@),
    ensures
        final(set).wf(),
        final(set).keeps(old(set)),
        table_ok(final(set), final(table)@),
        r@.len() == v@.len(),
        forall|k: int| 0 <= k < v@.len() ==> is_after(final(set), v@[k], b, #[trigger] r@[k]),
    decreases bound, 0nat,
{
    let mut r: Vec<ExprRef> = Vec::new();
    let mut k: usize = 0;
    while k < v.len()
        invariant
            k <= v@.len(),
            set.wf(),
            set.keeps(old(set)),
            old(set).all_valid(v@),
            forall|n: int| 0 <= n < v@.len() ==> (#[trigger] v@[n]).id < bound,
            table_ok(set, table@),
            r@.len() == k,
            forall|n: int| 0 <= n < k ==> is_after(set, v@[n], b, #[trigger] r@[n]),
        decreases v@.len() - k,
    {
        let ghost before = *set;
        let ghost r0 = r@;
        proof {
            assert(old(set).valid(v@[k as int]));
            assert(set.valid(v@[k as int]));
        }
        let d = derivative(set, table, v[k], b);
        r.push(d);
        proof {
            assert forall|n: int| 0 <= n < k + 1 implies is_after(
                set,
                v@[n],
                b,
                #[trigger] r@[n],
            ) by {
                if n < k {
                    assert(r@[n] == r0[n]);
                    lemma_is_after_kept(set, &before, v@[n], b, r0[n]);
                }
            }
        }
        k = k + 1;
    }
    r
}

fn derivative_of(
    set: &mut ExprSet,
    table: &mut HashMap<u64, ExprRef>,
    e: ExprRef,
    b: u8,
) -> (r: ExprRef)
    requires
        old(set).wf(),
        old(set).valid(e),
        table_ok(old(set), old(table)@),
    ensures
        final(set).wf(),
        final(set).keeps(old(set)),
        table_ok(final(set), final(table)@),
        follows(final(set), e, b, r),
        old(set).tree(e) is And ==> is_after(final(set), e, b, r),
    decreases e.id, 2nat,
{
    let ghost s0 = *set;
    let ghost t = s0.lang(e, lang::plain());
    let ghost p = lang::plain();
    proof {
        set.lemma_constants();
    }
    let node: &Expr = set.get(e);
    match node {
        Expr::EmptyString | Expr::NoMatch => {
            proof {
                assert(after(t, b) =~= lang::none());
            }
            ExprRef::no_match()
        },
        Expr::Byte(c) => {
            let c: u8 = *c;
            proof {
                lemma_after_set(set![c], b);
            }
            if c == b {
                ExprRef::empty_string()
            } else {
                ExprRef::no_match()
            }
        },
        Expr::ByteSet(words) => {
            proof {
                lemma_after_set(crate::byteset::byteset(words@), b);
            }
            if byteset_contains(words.as_slice(), b) {
                ExprRef::empty_string()
            } else {
                ExprRef::no_match()
            }
        },
        Expr::ByteConcat(bytes, tail) => {
            let tail: ExprRef = *tail;
            if bytes.len() == 0 {
                proof {
                    assert(bytes@ =~= Seq::empty());
                    lang::literal_empty(p);
                    lang::cat_epsilon_left(s0.lang(tail, p));
                }
                let r = derivative(set, table, tail, b);
                proof {
                    assert(set.tree(e) == s0.tree(e) && set.tree(tail) == s0.tree(tail));
                }
                r
            } else if bytes[0] == b {
                let rest: Vec<u8> = copied(vstd::slice::slice_subrange(bytes.as_slice(), 1, bytes.len()));
                proof {
                    assert(bytes@ =~= seq![b] + rest@);
                    lemma_after_literal(b, rest@, s0.lang(tail, p), b);
                }
                let r = set.mk_byte_concat(rest.as_slice(), tail);
                proof {
                    assert(set.tree(e) == s0.tree(e));
                    lemma_table_kept(set, &s0, table@);
                }
                r
            } else {
                proof {
                    let rest = bytes@.skip(1);
                    assert(bytes@ =~= seq![bytes@[0]] + rest);
                    lemma_after_literal(bytes@[0], rest, s0.lang(tail, p), b);
                }
                ExprRef::no_match()
            }
        },
        Expr::RemainderIs { divisor, remainder, scale, fractional_part, forms } => {
            let (d, m, k, f): (u32, u32, u32, bool) = (
                *divisor,
                *remainder,
                *scale,
                *fractional_part,
            );
            let forms: Vec<ExprRef> = copied(forms.as_slice());
            proof {
                assert forall|w: Seq<u8>| #[trigger] t(w) == number::spelled(
                    d as nat,
                    m as nat,
                    k as nat,
                    f,
                    lang::form_langs(s0.trees(forms@), p),
                    w,
                ) by {
                    lang::language_numeral(
                        d as nat,
                        m as nat,
                        k as nat,
                        f,
                        s0.trees(forms@),
                        p,
                        w,
                    );
                }
            }
            if forms.len() > 0 {
                return derivative_of_spelled(set, table, e, b, d, (m, k, f), forms);
            }
            proof {
                lang::own_forms(s0.trees(forms@), p);
                assert forall|w: Seq<u8>| #[trigger] t(w) == number::accepts(
                    d as nat,
                    m as nat,
                    k as nat,
                    f,
                    w,
                ) by {
                    number::spelled_plainly(d as nat, m as nat, k as nat, f, w);
                }
            }
            match read_digit(d, m, k, f, b) {
                Some((m2, k2, f2)) => {
                    let r = set.mk_remainder_is(d, m2, k2, f2);
                    proof {
                        assert(set.tree(e) == s0.tree(e));
                        assert forall|w: Seq<u8>| #[trigger] set.lang(r, p)(w) == after(t, b)(
                            w,
                        ) by {
                            assert((seq![b] + w).skip(1) =~= w);
                            number::spelled_plainly(d as nat, m2 as nat, k2 as nat, f2, w);
                            assert(t(seq![b] + w) == number::accepts(
                                d as nat,
                                m as nat,
                                k as nat,
                                f,
                                seq![b] + w,
                            ));
                        }
                        assert(set.lang(r, p) =~= after(t, b));
                        lemma_table_kept(set, &s0, table@);
                    }
                    r
                },
                None => {
                    proof {
                        assert forall|w: Seq<u8>| #[trigger] after(t, b)(w) == lang::none()(
                            w,
                        ) by {
                            assert(t(seq![b] + w) == number::accepts(
                                d as nat,
                                m as nat,
                                k as nat,
                                f,
                                seq![b] + w,
                            ));
                        }
                        assert(after(t, b) =~= lang::none());
                    }
                    ExprRef::no_match()
                },
            }
        },
        Expr::Lookahead(a, offset) => {
            let (a, offset): (ExprRef, u32) = (*a, *offset);
            let d = derivative(set, table, a, b);
            let ghost s1 = *set;
            if d == ExprRef::no_match() {
                proof {
                    assert(s1.tree(a) == s0.tree(a));
                    assert(s1.tree(e) == s0.tree(e));
                }
                return d;
            }
            let r = set.mk_lookahead(d, offset);
            proof {
                assert(s1.tree(a) == s0.tree(a));
                assert(set.tree(e) == s0.tree(e));
                lemma_table_kept(set, &s1, table@);
            }
            r
        },
        Expr::Not(a) => {
            let a: ExprRef = *a;
            let d = derivative(set, table, a, b);
            let ghost s1 = *set;
            let r = set.mk_not(d);
            proof {
                assert(s1.tree(a) == s0.tree(a));
                assert(set.tree(e) == s0.tree(e));
                assert forall|w: Seq<u8>| #[trigger] set.lang(r, p)(w) == after(t, b)(w) by {
                    lang::written_plain(w);
                    lang::written_plain(seq![b] + w);
                }
                assert(set.lang(r, p) =~= after(t, b));
                lemma_table_kept(set, &s1, table@);
            }
            r
        },
        Expr::Repeat(a, min, max) => {
            let (a, min, max): (ExprRef, u32, u32) = (*a, *min, *max);
            if max == 0 {
                proof {
                    lemma_after_nothing(s0.lang(a, p), min as nat, b);
                }
                return ExprRef::no_match();
            }
            let d = derivative(set, table, a, b);
            let ghost s1 = *set;
            let low: u32 = if min > 0 {
                min - 1
            } else {
                0
            };
            let high: u32 = if max == u32::MAX {
                max
            } else {
                max - 1
            };
            let rest = set.mk_repeat(a, low, high);
            let ghost s2 = *set;
            let r = set.mk_concat(d, rest);
            proof {
                assert(s1.tree(a) == s0.tree(a));
                assert(s2.tree(d) == s1.tree(d));
                assert(s2.tree(e) == s1.tree(e) && s1.tree(e) == s0.tree(e));
                assert(set.tree(e) == s2.tree(e));
                let la = s0.lang(a, p);
                assert(max_bound(high) == less_one(max_bound(max)));
                assert forall|w: Seq<u8>| #[trigger] set.lang(r, p)(w) == after(t, b)(w) by {
                    after_repeat(la, min as nat, max_bound(max), b, w);
                }
                assert(set.lang(r, p) =~= after(t, b));
                lemma_table_kept(&s2, &s1, table@);
                lemma_table_kept(set, &s2, table@);
            }
            r
        },
        Expr::Concat(a, c) => {
            let (a, c): (ExprRef, ExprRef) = (*a, *c);
            let null: bool = set.is_nullable(a);
            let d = derivative(set, table, a, b);
            let ghost s1 = *set;
            let head = set.mk_concat(d, c);
            let ghost s2 = *set;
            proof {
                assert(s1.tree(a) == s0.tree(a) && s1.tree(c) == s0.tree(c));
                assert(s1.tree(e) == s0.tree(e) && s2.tree(e) == s1.tree(e));
                lemma_table_kept(&s2, &s1, table@);
                assert forall|w: Seq<u8>| #[trigger] after(t, b)(w) == (s2.lang(head, p)(w) || (null
                    && s0.lang(c, p)(seq![b] + w))) by {
                    after_cat(s0.lang(a, p), s0.lang(c, p), b, w);
                }
            }
            if null {
                let d2 = derivative(set, table, c, b);
                let ghost s3 = *set;
                let alts: Vec<ExprRef> = vec![head, d2];
                proof {
                    assert(s2.tree(c) == s1.tree(c));
                    assert(s3.tree(c) == s2.tree(c) && s3.tree(head) == s2.tree(head));
                    assert(s3.tree(e) == s2.tree(e));
                    if s0.clear(e) {
                        assert(s2.clear(head) && s3.clear(head) && s3.clear(d2));
                        assert(s3.all_clear(alts@));
                    }
                }
                let r = set.mk_or(alts.as_slice());
                proof {
                    assert(set.tree(e) == s3.tree(e));
                    let ls = s3.langs(alts@, p);
                    assert(ls[0] == s3.lang(head, p) && ls[1] == s3.lang(d2, p));
                    assert forall|w: Seq<u8>| #[trigger] set.lang(r, p)(w) == after(t, b)(w) by {
                        assert(after(t, b)(w) == (ls[0](w) || ls[1](w)));
                        if lang::union(ls)(w) {
                            let k = choose|k: int| 0 <= k < ls.len() && (#[trigger] ls[k])(w);
                            assert(k == 0 || k == 1);
                        }
                    }
                    assert(set.lang(r, p) =~= after(t, b));
                    lemma_table_kept(set, &s3, table@);
                }
                r
            } else {
                proof {
                    assert(s2.lang(head, p) =~= after(t, b));
                }
                head
            }
        },
        Expr::Or(v) => {
            let v: Vec<ExprRef> = copied(v.as_slice());
            let ds: Vec<ExprRef> = derivatives(set, table, v.as_slice(), b, e.id);
            let ghost s1 = *set;
            proof {
                lemma_parts(&s1, &s0, v@, ds@, b);
                if s0.clear(e) {
                    assert forall|k: int| 0 <= k < ds@.len() implies s1.clear(
                        #[trigger] ds@[k],
                    ) by {
                        assert(lang::live(s0.trees(v@)[k]));
                        assert(s0.valid(v@[k]) && s1.tree(v@[k]) == s0.tree(v@[k]));
                        assert(is_after(&s1, v@[k], b, ds@[k]));
                    }
                }
            }
            let r = set.mk_or(ds.as_slice());
            proof {
                assert(s1.tree(e) == s0.tree(e) && set.tree(e) == s1.tree(e));
                let la = s0.langs(v@, p);
                let ld = s1.langs(ds@, p);
                lang::language_or(s0.trees(v@), p);
                assert(lang::languages(s0.trees(v@), p) =~= la);
                assert forall|w: Seq<u8>| #[trigger] set.lang(r, p)(w) == after(t, b)(w) by {
                    let bw = seq![b] + w;
                    if lang::union(ld)(w) {
                        let k = choose|k: int| 0 <= k < ld.len() && (#[trigger] ld[k])(w);
                        assert(la[k](bw));
                    }
                    if lang::union(la)(bw) {
                        let k = choose|k: int| 0 <= k < la.len() && (#[trigger] la[k])(bw);
                        assert(ld[k](w));
                    }
                }
                assert(set.lang(r, p) =~= after(t, b));
                lemma_table_kept(set, &s1, table@);
            }
            r
        },
        Expr::And(v) => {
            let v: Vec<ExprRef> = copied(v.as_slice());
            let ds: Vec<ExprRef> = derivatives(set, table, v.as_slice(), b, e.id);
            let ghost s1 = *set;
            proof {
                lemma_parts(&s1, &s0, v@, ds@, b);
            }
            let r = set.mk_and(ds.as_slice());
            proof {
                assert(s1.tree(e) == s0.tree(e) && set.tree(e) == s1.tree(e));
                assert forall|l: Lang| #[trigger] set.held(e, l) implies set.held(r, after(l, b)) by {
                    s0.lemma_held_alike(set, e, l);
                    if e.id == 1 {
                        assert(e == ExprRef { id: 1 });
                    } else {
                        let k = s0.lemma_held_part(e, v@, l);
                        assert(s0.valid(v@[k]) && s1.tree(v@[k]) == s0.tree(v@[k]));
                        assert(is_after(&s1, v@[k], b, ds@[k]));
                        if ds@[k].id == 1 {
                            set.lemma_held_dead(r, after(l, b));
                        } else {
                            assert(lang::live(s1.tree(ds@[k])));
                            set.lemma_held_guarded(r, s1.tree(ds@[k]));
                        }
                    }
                }
                let la = s0.langs(v@, p);
                let ld = s1.langs(ds@, p);
                lang::language_and(s0.trees(v@), p);
                assert(lang::languages(s0.trees(v@), p) =~= la);
                assert forall|w: Seq<u8>| #[trigger] set.lang(r, p)(w) == after(t, b)(w) by {
                    let bw = seq![b] + w;
                    lang::written_plain(w);
                    lang::written_plain(bw);
                    if lang::intersection(ld, p)(w) {
                        assert forall|k: int| 0 <= k < la.len() implies (#[trigger] la[k])(
                            bw,
                        ) by {
                            assert(ld[k](w));
                        }
                    }
                    if lang::intersection(la, p)(bw) {
                        assert forall|k: int| 0 <= k < ld.len() implies (#[trigger] ld[k])(w) by {
                            assert(la[k](bw));
                        }
                    }
                }
                assert(set.lang(r, p) =~= after(t, b));
                lemma_table_kept(set, &s1, table@);
            }
            r
        },
    }
}

/// A spelled numeral after the byte, where the byte starts a form of its `k`-th character.
spec fn spelled_after(
    divisor: nat,
    remainder: nat,
    scale: nat,
    fractional_part: bool,
    forms: Seq<Lang>,
    b: u8,
    k: int,
    w: Seq<u8>,
) -> bool {
    match number::step(divisor, remainder, scale, fractional_part, number::numeral_char(k)) {
        Some((r, n, f)) => lang::cat(after(forms[k], b), spelled_rest(divisor, r, n, f, forms))(w),
        None => false,
    }
}

/// What is spelled.
spec fn spelled_rest(
    divisor: nat,
    remainder: nat,
    scale: nat,
    fractional_part: bool,
    forms: Seq<Lang>,
) -> Lang {
    |w: Seq<u8>| number::spelled(divisor, remainder, scale, fractional_part, forms, w)
}

/// The first character whose writing is not empty is the one that the byte starts.
proof fn lemma_first_written(
    divisor: nat,
    q: State,
    forms: Seq<Lang>,
    silent: Seq<bool>,
    b: u8,
    w: Seq<u8>,
    u: Seq<u8>,
) -> (r: (State, int))
    requires
        number::marks_silent(forms, silent),
        lang::writes(number::form_reading(forms), u, seq![b] + w),
        number::accepts(divisor, q.0, q.1, q.2, u),
    ensures
        number::reaches(divisor, silent, q, r.0),
        0 <= r.1 < number::NUMERAL_CHARS,
        spelled_after(divisor, r.0.0, r.0.1, r.0.2, forms, b, r.1, w),
    decreases u.len(),
{
    let bw = seq![b] + w;
    let reading = number::form_reading(forms);
    let rest = u.skip(1);
    let i = choose|i: int|
        #![trigger bw.take(i)]
        0 <= i <= bw.len() && reading(u[0], bw.take(i)) && lang::writes(reading, rest, bw.skip(i));
    let k = choose|k: int|
        0 <= k < number::NUMERAL_CHARS && number::numeral_char(k) == u[0] && (#[trigger] forms[k])(
            bw.take(i),
        );
    let next = number::step(divisor, q.0, q.1, q.2, u[0])->0;
    if i == 0 {
        assert(bw.take(0) =~= Seq::empty() && bw.skip(0) =~= bw);
        assert(silent[k]);
        let (x, n) = lemma_first_written(divisor, next, forms, silent, b, w, rest);
        let v = choose|v: Seq<u8>|
            number::all_silent(silent, v) && #[trigger] number::run(divisor, next, v) == Some(x);
        let all = seq![u[0]] + v;
        assert(all.skip(1) =~= v);
        assert forall|j: int| 0 <= j < all.len() implies number::is_silent(
            silent,
            #[trigger] all[j],
        ) by {
            if j > 0 {
                assert(all[j] == v[j - 1]);
            }
        }
        assert(number::run(divisor, q, all) == Some(x));
        (x, n)
    } else {
        assert(bw.take(i) =~= seq![b] + w.take(i - 1));
        assert(bw.skip(i) =~= w.skip(i - 1));
        assert(spelled_rest(divisor, next.0, next.1, next.2, forms)(w.skip(i - 1)));
        lang::cat_intro(
            after(forms[k], b),
            spelled_rest(divisor, next.0, next.1, next.2, forms),
            w.take(i - 1),
            w.skip(i - 1),
        );
        assert(w =~= w.take(i - 1) + w.skip(i - 1));
        let none = Seq::<u8>::empty();
        assert(number::all_silent(silent, none) && number::run(divisor, q, none) == Some(q));
        (q, k)
    }
}

/// What is spelled after a byte: characters that may be written as nothing lead to a state from
/// which the byte starts the writing of another.
proof fn lemma_spelled_after(
    divisor: nat,
    q: State,
    forms: Seq<Lang>,
    silent: Seq<bool>,
    b: u8,
    w: Seq<u8>,
)
    requires
        number::marks_silent(forms, silent),
    ensures
        number::spelled(divisor, q.0, q.1, q.2, forms, seq![b] + w) == exists|x: State| #[trigger]
            number::reaches(divisor, silent, q, x) && spelled_from(divisor, x, forms, b, w),
{
    let bw = seq![b] + w;
    let reading = number::form_reading(forms);
    if number::spelled(divisor, q.0, q.1, q.2, forms, bw) {
        let u = choose|u: Seq<u8>| #[trigger]
            lang::writes(reading, u, bw) && number::accepts(divisor, q.0, q.1, q.2, u);
        let (x, k) = lemma_first_written(divisor, q, forms, silent, b, w, u);
        assert(spelled_from(divisor, x, forms, b, w));
    }
    if exists|x: State| #[trigger]
        number::reaches(divisor, silent, q, x) && spelled_from(divisor, x, forms, b, w) {
        let x = choose|x: State| #[trigger]
            number::reaches(divisor, silent, q, x) && spelled_from(divisor, x, forms, b, w);
        let k = choose|k: int|
            0 <= k < number::NUMERAL_CHARS && #[trigger] spelled_after(
                divisor,
                x.0,
                x.1,
                x.2,
                forms,
                b,
                k,
                w,
            );
        let v = choose|v: Seq<u8>|
            number::all_silent(silent, v) && #[trigger] number::run(divisor, q, v) == Some(x);
        number::silent_writes(forms, silent, v);
        let c = number::numeral_char(k);
        let next = number::step(divisor, x.0, x.1, x.2, c)->0;
        let rest = spelled_rest(divisor, next.0, next.1, next.2, forms);
        let j = lang::cat_split(after(forms[k], b), rest, w);
        let y = choose|y: Seq<u8>| #[trigger]
            lang::writes(reading, y, w.skip(j)) && number::accepts(
                divisor,
                next.0,
                next.1,
                next.2,
                y,
            );
        assert(reading(c, seq![b] + w.take(j)));
        image::writes_byte(reading, c, seq![b] + w.take(j));
        image::writes_join(reading, seq![c], y, seq![b] + w.take(j), w.skip(j));
        let tail = seq![c] + y;
        image::writes_join(
            reading,
            v,
            tail,
            Seq::empty(),
            (seq![b] + w.take(j)) + w.skip(j),
        );
        assert(Seq::<u8>::empty() + ((seq![b] + w.take(j)) + w.skip(j)) =~= bw);
        number::accepts_runs(divisor, next, y);
        assert(tail.skip(1) =~= y);
        number::run_join(divisor, q, v, tail);
        number::accepts_runs(divisor, q, v + tail);
        assert(lang::writes(reading, v + tail, bw));
    }
}

/// A spelled numeral after the byte, where the byte starts a form of the next character.
spec fn spelled_from(divisor: nat, x: State, forms: Seq<Lang>, b: u8, w: Seq<u8>) -> bool {
    exists|k: int|
        0 <= k < number::NUMERAL_CHARS && #[trigger] spelled_after(
            divisor,
            x.0,
            x.1,
            x.2,
            forms,
            b,
            k,
            w,
        )
}

/// Appends to `alts` what may follow the byte in a numeral in state `q`, where `ds` are what may
/// follow it in the forms of its characters.
fn push_spelled(
    set: &mut ExprSet,
    alts: &mut Vec<ExprRef>,
    b: u8,
    d: u32,
    q: (u32, u32, bool),
    forms: &[ExprRef],
    ds: &[ExprRef],
)
    requires
        old(set).wf(),
        old(set).all_valid(old(alts)@),
        0 < d,
        q.0 <= d,
        forms@.len() == number::NUMERAL_CHARS,
        ds@.len() == forms@.len(),
        old(set).all_valid(forms@),
        forall|k: int| 0 <= k < forms@.len() ==> is_after(old(set), forms@[k], b, #[trigger] ds@[k]),
    ensures
        final(set).wf(),
        final(set).keeps(old(set)),
        final(set).all_valid(final(alts)@),
        forall|w: Seq<u8>| #[trigger]
            lang::union(final(set).langs(final(alts)@, lang::plain()))(w) == (lang::union(
                old(set).langs(old(alts)@, lang::plain()),
            )(w) || spelled_from(
                d as nat,
                number::state(q),
                lang::form_langs(old(set).trees(forms@), lang::plain()),
                b,
                w,
            )),
{
    let ghost p = lang::plain();
    let ghost s0 = *set;
    let ghost a0 = alts@;
    let ghost ls = lang::form_langs(s0.trees(forms@), p);
    let ghost (m, n, f) = number::state(q);
    let mut k: usize = 0;
    proof {
        lang::own_forms(s0.trees(forms@), p);
        assert forall|j: int| 0 <= j < forms@.len() implies s0.valid(#[trigger] ds@[j]) && s0.lang(
            ds@[j],
            p,
        ) == after(ls[j], b) by {
            assert(is_after(&s0, forms@[j], b, ds@[j]));
            assert(ls[j] == s0.lang(forms@[j], p));
        }
    }
    while k < forms.len()
        invariant
            k <= forms@.len(),
            forms@.len() == number::NUMERAL_CHARS,
            ds@.len() == forms@.len(),
            p == lang::plain(),
            (m, n, f) == number::state(q),
            0 < d,
            q.0 <= d,
            set.wf(),
            set.keeps(&s0),
            s0.all_valid(forms@),
            ls == lang::form_langs(s0.trees(forms@), p),
            forall|j: int|
                0 <= j < forms@.len() ==> s0.valid(#[trigger] ds@[j]) && s0.lang(ds@[j], p)
                    == after(ls[j], b),
            set.all_valid(alts@),
            forall|w: Seq<u8>| #[trigger]
                lang::union(set.langs(alts@, p))(w) == (lang::union(s0.langs(a0, p))(w) || exists|
                    j: int,
                | 0 <= j < k && #[trigger] spelled_after(d as nat, m, n, f, ls, b, j, w)),
        decreases forms@.len() - k,
    {
        let ghost before = *set;
        let ghost alts0 = alts@;
        match read_digit(d, q.0, q.1, q.2, numeral_byte(k)) {
            Some((m2, n2, f2)) => {
                let same: Vec<ExprRef> = copied(forms);
                proof {
                    assert forall|j: int| 0 <= j < same@.len() implies before.valid(
                        #[trigger] same@[j],
                    ) && before.tree(same@[j]) == s0.tree(same@[j]) by {
                        assert(s0.valid(forms@[j]));
                    }
                    assert(before.trees(same@) =~= s0.trees(forms@));
                    assert(s0.valid(ds@[k as int]));
                    assert(before.valid(ds@[k as int]) && before.tree(ds@[k as int]) == s0.tree(
                        ds@[k as int],
                    ));
                }
                let rest = set.mk_spelled_remainder(d, m2, n2, f2, same);
                let ghost s2 = *set;
                proof {
                    assert(s2.valid(ds@[k as int]) && s2.tree(ds@[k as int]) == before.tree(
                        ds@[k as int],
                    ));
                    assert(s2.lang(rest, p) =~= spelled_rest(
                        d as nat,
                        m2 as nat,
                        n2 as nat,
                        f2,
                        ls,
                    ));
                }
                let alt = set.mk_concat(ds[k], rest);
                alts.push(alt);
                proof {
                    s2.lemma_langs_kept(&before, alts0, p);
                    set.lemma_langs_kept(&s2, alts0, p);
                    assert forall|j: int| 0 <= j < alts@.len() implies set.valid(
                        #[trigger] alts@[j],
                    ) by {
                        if j < alts0.len() {
                            assert(alts@[j] == alts0[j]);
                        }
                    }
                    assert forall|w: Seq<u8>| #[trigger]
                        lang::union(set.langs(alts@, p))(w) == (lang::union(s0.langs(a0, p))(w)
                        || exists|j: int|
                        0 <= j < k + 1 && #[trigger] spelled_after(
                            d as nat,
                            m,
                            n,
                            f,
                            ls,
                            b,
                            j,
                            w,
                        )) by {
                        set.lemma_union_push(alts0, alt, p, w);
                        assert(lang::union(before.langs(alts0, p))(w) == lang::union(
                            set.langs(alts0, p),
                        )(w));
                        assert(set.lang(alt, p)(w) == spelled_after(
                            d as nat,
                            m,
                            n,
                            f,
                            ls,
                            b,
                            k as int,
                            w,
                        ));
                    }
                }
            },
            None => {
                proof {
                    assert forall|w: Seq<u8>| #[trigger]
                        lang::union(set.langs(alts@, p))(w) == (lang::union(s0.langs(a0, p))(w)
                        || exists|j: int|
                        0 <= j < k + 1 && #[trigger] spelled_after(
                            d as nat,
                            m,
                            n,
                            f,
                            ls,
                            b,
                            j,
                            w,
                        )) by {
                        assert(!spelled_after(d as nat, m, n, f, ls, b, k as int, w));
                    }
                }
            },
        }
        k = k + 1;
    }
    proof {
        assert forall|w: Seq<u8>| #[trigger]
            lang::union(set.langs(alts@, p))(w) == (lang::union(s0.langs(a0, p))(w)
            || spelled_from(d as nat, number::state(q), ls, b, w)) by {}
    }
}

/// What may follow the byte in a spelled numeral.
fn derivative_of_spelled(
    set: &mut ExprSet,
    table: &mut HashMap<u64, ExprRef>,
    e: ExprRef,
    b: u8,
    d: u32,
    q: (u32, u32, bool),
    forms: Vec<ExprRef>,
) -> (r: ExprRef)
    requires
        old(set).wf(),
        old(set).valid(e),
        table_ok(old(set), old(table)@),
        0 < d,
        q.0 <= d,
        forms@.len() == number::NUMERAL_CHARS,
        old(set).all_valid(forms@),
        forall|k: int| 0 <= k < forms@.len() ==> (#[trigger] forms@[k]).id < e.id,
        forall|w: Seq<u8>| #[trigger]
            old(set).lang(e, lang::plain())(w) == number::spelled(
                d as nat,
                q.0 as nat,
                q.1 as nat,
                q.2,
                lang::form_langs(old(set).trees(forms@), lang::plain()),
                w,
            ),
        old(set).tree(e) is RemainderIs,
    ensures
        final(set).wf(),
        final(set).keeps(old(set)),
        table_ok(final(set), final(table)@),
        follows(final(set), e, b, r),
    decreases e.id, 1nat,
{
    let ghost p = lang::plain();
    let ghost s0 = *set;
    let ghost ls = lang::form_langs(s0.trees(forms@), p);
    let ghost t = s0.lang(e, p);
    proof {
        set.lemma_constants();
        assert(!set.clear(e));
    }
    let silent: Vec<bool> = set.which_nullable(forms.as_slice());
    let states: Vec<(u32, u32, bool)> = reachable(d, q, silent.as_slice());
    let ds: Vec<ExprRef> = derivatives(set, table, forms.as_slice(), b, e.id);
    let ghost s1 = *set;
    let mut alts: Vec<ExprRef> = Vec::new();
    let mut i: usize = 0;
    proof {
        lang::own_forms(s0.trees(forms@), p);
        assert(number::marks_silent(ls, silent@)) by {
            assert forall|k: int| 0 <= k < number::NUMERAL_CHARS implies #[trigger] silent@[k]
                == ls[k](Seq::empty()) by {
                assert(ls[k] == s0.lang(forms@[k], p));
            }
        }
    }
    while i < states.len()
        invariant
            i <= states@.len(),
            p == lang::plain(),
            0 < d,
            forms@.len() == number::NUMERAL_CHARS,
            ds@.len() == forms@.len(),
            set.wf(),
            set.keeps(&s1),
            s1.keeps(&s0),
            s0.all_valid(forms@),
            ls == lang::form_langs(s0.trees(forms@), p),
            forall|k: int|
                0 <= k < forms@.len() ==> is_after(&s1, forms@[k], b, #[trigger] ds@[k]),
            forall|j: int| 0 <= j < states@.len() ==> (#[trigger] states@[j]).0 <= d,
            set.all_valid(alts@),
            forall|w: Seq<u8>| #[trigger]
                lang::union(set.langs(alts@, p))(w) == exists|j: int|
                    0 <= j < i && spelled_from(
                        d as nat,
                        number::state(#[trigger] states@[j]),
                        ls,
                        b,
                        w,
                    ),
        decreases states@.len() - i,
    {
        let ghost before = *set;
        let ghost alts0 = alts@;
        proof {
            assert forall|k: int| 0 <= k < forms@.len() implies before.valid(#[trigger] forms@[k])
                && before.tree(forms@[k]) == s0.tree(forms@[k]) by {
                assert(s0.valid(forms@[k]));
                assert(s1.valid(forms@[k]) && s1.tree(forms@[k]) == s0.tree(forms@[k]));
            }
            assert(before.trees(forms@) =~= s0.trees(forms@));
            assert forall|k: int| 0 <= k < forms@.len() implies is_after(
                &before,
                forms@[k],
                b,
                #[trigger] ds@[k],
            ) by {
                assert(is_after(&s1, forms@[k], b, ds@[k]));
                lemma_is_after_kept(&before, &s1, forms@[k], b, ds@[k]);
            }
        }
        push_spelled(set, &mut alts, b, d, states[i], forms.as_slice(), ds.as_slice());
        proof {
            assert forall|w: Seq<u8>| #[trigger]
                lang::union(set.langs(alts@, p))(w) == exists|j: int|
                    0 <= j < i + 1 && spelled_from(
                        d as nat,
                        number::state(#[trigger] states@[j]),
                        ls,
                        b,
                        w,
                    ) by {
                assert(lang::union(before.langs(alts0, p))(w) == exists|j: int|
                    0 <= j < i && spelled_from(
                        d as nat,
                        number::state(#[trigger] states@[j]),
                        ls,
                        b,
                        w,
                    ));
                if spelled_from(d as nat, number::state(states@[i as int]), ls, b, w) {
                    assert(0 <= i < i + 1);
                }
            }
        }
        i = i + 1;
    }
    let ghost s3 = *set;
    let r = set.mk_or(alts.as_slice());
    proof {
        assert(s1.tree(e) == s0.tree(e) && s3.tree(e) == s1.tree(e));
        assert(set.tree(e) == s3.tree(e));
        assert forall|w: Seq<u8>| #[trigger] set.lang(r, p)(w) == after(t, b)(w) by {
            lemma_spelled_after(d as nat, number::state(q), ls, silent@, b, w);
            assert(t(seq![b] + w) == number::spelled(
                d as nat,
                q.0 as nat,
                q.1 as nat,
                q.2,
                ls,
                seq![b] + w,
            ));
            if t(seq![b] + w) {
                let x = choose|x: State| #[trigger]
                    number::reaches(d as nat, silent@, number::state(q), x) && spelled_from(
                        d as nat,
                        x,
                        ls,
                        b,
                        w,
                    );
                assert(number::holds_state(states@, x));
            }
            if set.lang(r, p)(w) {
                let j = choose|j: int|
                    0 <= j < i && spelled_from(
                        d as nat,
                        number::state(#[trigger] states@[j]),
                        ls,
                        b,
                        w,
                    );
                assert(number::holds_state(states@, number::state(states@[j])));
            }
        }
        assert(set.lang(r, p) =~= after(t, b));
        lemma_table_kept(&s3, &s1, table@);
        lemma_table_kept(set, &s3, table@);
    }
    r
}

/// The languages of the parts after the byte.
proof fn lemma_parts(
    now: &ExprSet,
    before: &ExprSet,
    v: Seq<ExprRef>,
    ds: Seq<ExprRef>,
    b: u8,
)
    requires
        now.keeps(before),
        before.all_valid(v),
        ds.len() == v.len(),
        forall|k: int| 0 <= k < v.len() ==> is_after(now, v[k], b, #[trigger] ds[k]),
    ensures
        now.all_valid(ds),
        forall|k: int, w: Seq<u8>|
            0 <= k < v.len() ==> #[trigger] now.langs(ds, lang::plain())[k](w) == before.langs(
                v,
                lang::plain(),
            )[k](seq![b] + w),
{
    let p = lang::plain();
    assert forall|k: int| 0 <= k < ds.len() implies now.valid(#[trigger] ds[k]) by {
        assert(is_after(now, v[k], b, ds[k]));
    }
    assert forall|k: int, w: Seq<u8>| 0 <= k < v.len() implies #[trigger] now.langs(ds, p)[k](w)
        == before.langs(v, p)[k](seq![b] + w) by {
        assert(is_after(now, v[k], b, ds[k]));
        assert(before.valid(v[k]));
        assert(now.tree(v[k]) == before.tree(v[k]));
        assert(now.lang(ds[k], p)(w) == after(now.lang(v[k], p), b)(w));
    }
}

/// After a byte of a set nothing more follows, and no other byte starts a string of it.
proof fn lemma_after_set(set: Set<u8>, b: u8)
    ensures
        after(lang::one_of(set, lang::plain()), b) == (if set.contains(b) {
            lang::epsilon()
        } else {
            lang::none()
        }),
{
    let l = after(lang::one_of(set, lang::plain()), b);
    let r = if set.contains(b) {
        lang::epsilon()
    } else {
        lang::none()
    };
    assert forall|w: Seq<u8>| #[trigger] l(w) == r(w) by {
        let bw = seq![b] + w;
        if l(w) {
            let c = choose|c: u8| #[trigger] set.contains(c) && lang::plain()(c, bw);
            assert(bw == seq![c]);
            assert(bw[0] == b && seq![c][0] == c);
            assert(bw.len() == 1);
        }
        if r(w) {
            assert(bw =~= seq![b]);
            assert(lang::plain()(b, bw));
        }
    }
    assert(l =~= r);
}

/// After the first byte of a literal the rest of it follows.
proof fn lemma_after_literal(c: u8, u: Seq<u8>, tail: Lang, b: u8)
    ensures
        after(lang::cat(lang::literal(seq![c] + u, lang::plain()), tail), b) == (if c == b {
            lang::cat(lang::literal(u, lang::plain()), tail)
        } else {
            lang::none()
        }),
{
    let p = lang::plain();
    let one = lang::one_of(set![c], p);
    let rest = lang::cat(lang::literal(u, p), tail);
    lang::literal_cons(c, u, p);
    lang::cat_assoc(one, lang::literal(u, p), tail);
    lemma_after_set(set![c], b);
    let l = after(lang::cat(one, rest), b);
    assert forall|w: Seq<u8>| #[trigger] l(w) == lang::cat(after(one, b), rest)(w) by {
        after_cat(one, rest, b, w);
        lang::one_of_at_empty(set![c]);
    }
    assert(l =~= lang::cat(after(one, b), rest));
    lang::cat_epsilon_left(rest);
    lang::cat_none(rest);
}

/// At most no repetition leaves nothing to follow.
proof fn lemma_after_nothing(a: Lang, min: nat, b: u8)
    ensures
        after(lang::repeat(a, min, Some(0)), b) == lang::none(),
{
    let l = after(lang::repeat(a, min, Some(0)), b);
    assert forall|w: Seq<u8>| !#[trigger] l(w) by {
        let bw = seq![b] + w;
        if l(w) {
            let k = choose|k: nat|
                lang::in_bounds(k, min, Some(0)) && #[trigger] lang::power(a, k)(bw);
            assert(k == 0);
            assert(bw.len() == 0);
        }
    }
    assert(l =~= lang::none());
}

} // verus!
