//! A store of expressions that share their parts.

use crate::byteset::{byteset_256, byteset_contains, byteset_set, byteset_union};
use crate::image;
use crate::lang;
use crate::lang::{Lang, Reading, Rx};
use crate::number;
use crate::util::{copied, same_bytes, same_refs, same_words};
use std::collections::HashMap;
use vstd::prelude::*;

verus! {

broadcast use vstd::std_specs::hash::group_hash_axioms;

/// A reference to an expression of an [`ExprSet`].
#[derive(Clone, Copy, Debug, PartialEq, Eq, Hash, Structural)]
pub struct ExprRef {
    /// The place of the expression in its set.
    pub id: usize,
}

impl ExprRef {
    /// The expression that matches the empty string. It is in every set.
    pub fn empty_string() -> (r: ExprRef)
        ensures
            r.id == 0,
    {
        ExprRef { id: 0 }
    }

    /// The expression that matches nothing. It is in every set.
    pub fn no_match() -> (r: ExprRef)
        ensures
            r.id == 1,
    {
        ExprRef { id: 1 }
    }

    /// The place of the expression in its set.
    pub fn as_usize(&self) -> (r: usize)
        ensures
            r == self.id,
    {
        self.id
    }
}

/// One expression of an [`ExprSet`].
#[derive(Debug)]
pub enum Expr {
    EmptyString,
    NoMatch,
    Byte(u8),
    ByteSet(Vec<u32>),
    ByteConcat(Vec<u8>, ExprRef),
    RemainderIs {
        divisor: u32,
        remainder: u32,
        scale: u32,
        fractional_part: bool,
        forms: Vec<ExprRef>,
    },
    Lookahead(ExprRef, u32),
    Not(ExprRef),
    Repeat(ExprRef, u32, u32),
    Concat(ExprRef, ExprRef),
    Or(Vec<ExprRef>),
    And(Vec<ExprRef>),
}

/// What an [`Expr`] holds.
pub enum ExprView {
    EmptyString,
    NoMatch,
    Byte(u8),
    ByteSet(Seq<u32>),
    ByteConcat(Seq<u8>, ExprRef),
    RemainderIs(u32, u32, u32, bool, Seq<ExprRef>),
    Lookahead(ExprRef, u32),
    Not(ExprRef),
    Repeat(ExprRef, u32, u32),
    Concat(ExprRef, ExprRef),
    Or(Seq<ExprRef>),
    And(Seq<ExprRef>),
}

impl View for Expr {
    type V = ExprView;

    open spec fn view(&self) -> ExprView {
        match *self {
            Expr::EmptyString => ExprView::EmptyString,
            Expr::NoMatch => ExprView::NoMatch,
            Expr::Byte(b) => ExprView::Byte(b),
            Expr::ByteSet(words) => ExprView::ByteSet(words@),
            Expr::ByteConcat(bytes, a) => ExprView::ByteConcat(bytes@, a),
            Expr::RemainderIs { divisor, remainder, scale, fractional_part, forms } => {
                ExprView::RemainderIs(divisor, remainder, scale, fractional_part, forms@)
            },
            Expr::Lookahead(a, offset) => ExprView::Lookahead(a, offset),
            Expr::Not(a) => ExprView::Not(a),
            Expr::Repeat(a, min, max) => ExprView::Repeat(a, min, max),
            Expr::Concat(a, b) => ExprView::Concat(a, b),
            Expr::Or(v) => ExprView::Or(v@),
            Expr::And(v) => ExprView::And(v@),
        }
    }
}

/// The upper bound of a repetition, where `u32::MAX` means that there is none.
pub open spec fn max_bound(max: u32) -> Option<nat> {
    if max == u32::MAX {
        None
    } else {
        Some(max as nat)
    }
}

/// All references of an expression lie below `bound`, and its numbers are in range.
pub open spec fn node_below(e: Expr, bound: int) -> bool {
    match e {
        Expr::EmptyString | Expr::NoMatch | Expr::Byte(_) => true,
        Expr::ByteSet(words) => words@.len() == crate::byteset::BYTESET_WORDS,
        Expr::RemainderIs { divisor, remainder, scale, fractional_part, forms } => {
            &&& 0 < divisor && remainder <= divisor
            &&& forms@.len() == 0 || forms@.len() == number::NUMERAL_CHARS
            &&& forall|k: int| 0 <= k < forms@.len() ==> (#[trigger] forms@[k]).id < bound
        },
        Expr::ByteConcat(_, a) => a.id < bound,
        Expr::Lookahead(a, _) => a.id < bound,
        Expr::Not(a) => a.id < bound,
        Expr::Repeat(a, _, _) => a.id < bound,
        Expr::Concat(a, b) => a.id < bound && b.id < bound,
        Expr::Or(v) => forall|k: int| 0 <= k < v@.len() ==> (#[trigger] v@[k]).id < bound,
        Expr::And(v) => forall|k: int| 0 <= k < v@.len() ==> (#[trigger] v@[k]).id < bound,
    }
}

/// Two expressions that are built alike from the same references.
pub open spec fn same_node(a: Expr, b: Expr) -> bool {
    a@ == b@
}

/// The references of an expression.
pub open spec fn args(e: Expr) -> Seq<ExprRef> {
    match e {
        Expr::EmptyString | Expr::NoMatch | Expr::Byte(_) | Expr::ByteSet(_) => seq![],
        Expr::RemainderIs { divisor, remainder, scale, fractional_part, forms } => forms@,
        Expr::ByteConcat(_, a) => seq![a],
        Expr::Lookahead(a, _) => seq![a],
        Expr::Not(a) => seq![a],
        Expr::Repeat(a, _, _) => seq![a],
        Expr::Concat(a, b) => seq![a, b],
        Expr::Or(v) => v@,
        Expr::And(v) => v@,
    }
}

/// The references of an expression.
pub fn get_args(e: &Expr) -> (r: Vec<ExprRef>)
    ensures
        r@ == args(*e),
{
    let r: Vec<ExprRef> = match e {
        Expr::EmptyString | Expr::NoMatch | Expr::Byte(_) | Expr::ByteSet(_) => Vec::new(),
        Expr::RemainderIs { divisor: _, remainder: _, scale: _, fractional_part: _, forms } => copied(
            forms.as_slice(),
        ),
        Expr::ByteConcat(_, a) => vec![*a],
        Expr::Lookahead(a, _) => vec![*a],
        Expr::Not(a) => vec![*a],
        Expr::Repeat(a, _, _) => vec![*a],
        Expr::Concat(a, b) => vec![*a, *b],
        Expr::Or(v) => copied(v.as_slice()),
        Expr::And(v) => copied(v.as_slice()),
    };
    assert(r@ =~= args(*e));
    r
}

/// Whether two expressions are built alike from the same references.
fn same_expr(a: &Expr, b: &Expr) -> (r: bool)
    ensures
        r == same_node(*a, *b),
{
    match (a, b) {
        (Expr::EmptyString, Expr::EmptyString) => true,
        (Expr::NoMatch, Expr::NoMatch) => true,
        (Expr::Byte(x), Expr::Byte(y)) => *x == *y,
        (Expr::ByteSet(x), Expr::ByteSet(y)) => same_words(x, y),
        (Expr::ByteConcat(x, c), Expr::ByteConcat(y, d)) => *c == *d && same_bytes(x, y),
        (
            Expr::RemainderIs {
                divisor: d1,
                remainder: r1,
                scale: s1,
                fractional_part: f1,
                forms: x,
            },
            Expr::RemainderIs {
                divisor: d2,
                remainder: r2,
                scale: s2,
                fractional_part: f2,
                forms: y,
            },
        ) => *d1 == *d2 && *r1 == *r2 && *s1 == *s2 && *f1 == *f2 && same_refs(x, y),
        (Expr::Lookahead(c, n), Expr::Lookahead(d, m)) => *c == *d && *n == *m,
        (Expr::Not(c), Expr::Not(d)) => *c == *d,
        (Expr::Repeat(c, m1, n1), Expr::Repeat(d, m2, n2)) => *c == *d && *m1 == *m2 && *n1 == *n2,
        (Expr::Concat(c1, d1), Expr::Concat(c2, d2)) => *c1 == *c2 && *d1 == *d2,
        (Expr::Or(x), Expr::Or(y)) => same_refs(x, y),
        (Expr::And(x), Expr::And(y)) => same_refs(x, y),
        _ => false,
    }
}

/// A copy of an expression.
fn copied_expr(e: &Expr) -> (r: Expr)
    ensures
        same_node(*e, r),
{
    match e {
        Expr::EmptyString => Expr::EmptyString,
        Expr::NoMatch => Expr::NoMatch,
        Expr::Byte(b) => Expr::Byte(*b),
        Expr::ByteSet(words) => Expr::ByteSet(copied(words.as_slice())),
        Expr::ByteConcat(bytes, a) => Expr::ByteConcat(copied(bytes.as_slice()), *a),
        Expr::RemainderIs { divisor, remainder, scale, fractional_part, forms } => {
            Expr::RemainderIs {
                divisor: *divisor,
                remainder: *remainder,
                scale: *scale,
                fractional_part: *fractional_part,
                forms: copied(forms.as_slice()),
            }
        },
        Expr::Lookahead(a, offset) => Expr::Lookahead(*a, *offset),
        Expr::Not(a) => Expr::Not(*a),
        Expr::Repeat(a, min, max) => Expr::Repeat(*a, *min, *max),
        Expr::Concat(a, b) => Expr::Concat(*a, *b),
        Expr::Or(v) => Expr::Or(copied(v.as_slice())),
        Expr::And(v) => Expr::And(copied(v.as_slice())),
    }
}

/// The bytes whose bits are set.
spec fn byteset_of(words: Seq<u32>) -> Set<u8> {
    crate::byteset::byteset(words)
}

/// A byte of one of two sets.
proof fn lemma_one_of_union(a: Set<u8>, b: Set<u8>, s: Reading, w: Seq<u8>)
    ensures
        lang::one_of(a.union(b), s)(w) == (lang::one_of(a, s)(w) || lang::one_of(b, s)(w)),
{
    let c = a.union(b);
    if lang::one_of(c, s)(w) {
        let x = choose|x: u8| #[trigger] c.contains(x) && s(x, w);
        assert(a.contains(x) || b.contains(x));
    }
    if lang::one_of(a, s)(w) {
        let x = choose|x: u8| #[trigger] a.contains(x) && s(x, w);
        assert(c.contains(x));
    }
    if lang::one_of(b, s)(w) {
        let x = choose|x: u8| #[trigger] b.contains(x) && s(x, w);
        assert(c.contains(x));
    }
}

proof fn lemma_repeat_none(a: Lang)
    ensures
        lang::repeat(a, 0, Some(0)) == lang::epsilon(),
{
    assert forall|w: Seq<u8>| #[trigger]
        lang::repeat(a, 0, Some(0))(w) == lang::epsilon()(w) by {
        if lang::epsilon()(w) {
            assert(lang::in_bounds(0, 0, Some(0)) && lang::power(a, 0)(w));
        }
    }
    assert(lang::repeat(a, 0, Some(0)) =~= lang::epsilon());
}

proof fn lemma_repeat_once(a: Lang)
    ensures
        lang::repeat(a, 1, Some(1)) == a,
{
    lang::power_one(a);
    assert forall|w: Seq<u8>| #[trigger] lang::repeat(a, 1, Some(1))(w) == a(w) by {
        if a(w) {
            assert(lang::in_bounds(1, 1, Some(1)) && lang::power(a, 1)(w));
        }
    }
    assert(lang::repeat(a, 1, Some(1)) =~= a);
}

proof fn lemma_repeat_epsilon(min: nat, max: Option<nat>)
    requires
        max matches Some(m) ==> min <= m,
    ensures
        lang::repeat(lang::epsilon(), min, max) == lang::epsilon(),
{
    let e = lang::epsilon();
    assert forall|w: Seq<u8>| #[trigger] lang::repeat(e, min, max)(w) == e(w) by {
        if lang::repeat(e, min, max)(w) {
            let k = choose|k: nat|
                lang::in_bounds(k, min, max) && #[trigger] lang::power(e, k)(w);
            lang::power_of_epsilon(k);
        }
        if e(w) {
            lang::power_of_epsilon(min);
            assert(lang::in_bounds(min, min, max) && lang::power(e, min)(w));
        }
    }
    assert(lang::repeat(e, min, max) =~= e);
}

proof fn lemma_repeat_no_match(min: nat, max: Option<nat>)
    requires
        max matches Some(m) ==> min <= m,
    ensures
        lang::repeat(lang::none(), min, max) == (if min == 0 {
            lang::epsilon()
        } else {
            lang::none()
        }),
{
    let e = lang::none();
    let r = if min == 0 {
        lang::epsilon()
    } else {
        lang::none()
    };
    assert forall|w: Seq<u8>| #[trigger] lang::repeat(e, min, max)(w) == r(w) by {
        if lang::repeat(e, min, max)(w) {
            let k = choose|k: nat|
                lang::in_bounds(k, min, max) && #[trigger] lang::power(e, k)(w);
            lang::power_of_none(k);
        }
        if r(w) {
            lang::power_of_none(0);
            assert(lang::in_bounds(0, min, max) && lang::power(e, 0)(w));
        }
    }
    assert(lang::repeat(e, min, max) =~= r);
}

/// Adds a reference to a list, which stays sorted and free of duplicates if it was.
fn insert_sorted(v: &mut Vec<ExprRef>, x: ExprRef)
    ensures
        forall|e: ExprRef|
            #![trigger final(v)@.contains(e)]
            #![trigger old(v)@.contains(e)]
            final(v)@.contains(e) <==> old(v)@.contains(e) || e == x,
{
    let mut i: usize = v.len();
    while i > 0 && v[i - 1].id > x.id
        invariant
            i <= v@.len(),
        decreases i,
    {
        i = i - 1;
    }
    if i > 0 && v[i - 1].id == x.id {
        proof {
            assert(v@[i - 1] == x);
        }
        return ;
    }
    v.insert(i, x);
    proof {
        let before = old(v)@;
        assert forall|e: ExprRef|
            #![trigger v@.contains(e)]
            #![trigger before.contains(e)]
            v@.contains(e) <==> before.contains(e) || e == x by {
            if v@.contains(e) {
                let k = v@.index_of(e);
                if k < i {
                    assert(before[k] == e);
                } else if k > i {
                    assert(before[k - 1] == e);
                }
            }
            if before.contains(e) {
                let k = before.index_of(e);
                if k < i {
                    assert(v@[k] == e);
                } else {
                    assert(v@[k + 1] == e);
                }
            }
            if e == x {
                assert(v@[i as int] == e);
            }
        }
    }
}

/// A key with one more number mixed in.
spec fn mixed(key: u64, x: u64) -> u64 {
    let y = (key ^ x).wrapping_mul(0x9e37_79b9_7f4a_7c15);
    y ^ (y >> 29)
}

/// A key with several numbers mixed in, one after another.
spec fn mixed_all(key: u64, xs: Seq<u64>) -> u64
    decreases xs.len(),
{
    if xs.len() == 0 {
        key
    } else {
        mixed(mixed_all(key, xs.drop_last()), xs.last())
    }
}

/// The places of references, as numbers.
spec fn ref_numbers(v: Seq<ExprRef>) -> Seq<u64> {
    v.map_values(|e: ExprRef| e.id as u64)
}

/// Words, as numbers.
spec fn word_numbers(v: Seq<u32>) -> Seq<u64> {
    v.map_values(|w: u32| w as u64)
}

/// Bytes, as numbers.
spec fn byte_numbers(v: Seq<u8>) -> Seq<u64> {
    v.map_values(|b: u8| b as u64)
}

/// The key by which an expression is looked up: a number for its kind, with all that it is built
/// from mixed in.
spec fn key_of(e: Expr) -> u64 {
    match e {
        Expr::EmptyString => 1,
        Expr::NoMatch => 2,
        Expr::Byte(b) => mixed(3, b as u64),
        Expr::ByteSet(words) => mixed_all(4, word_numbers(words@)),
        Expr::ByteConcat(bytes, a) => mixed_all(mixed(5, a.id as u64), byte_numbers(bytes@)),
        Expr::RemainderIs { divisor, remainder, scale, fractional_part, forms } => {
            let f: u64 = if fractional_part {
                6
            } else {
                7
            };
            mixed_all(
                mixed(mixed(mixed(f, divisor as u64), remainder as u64), scale as u64),
                ref_numbers(forms@),
            )
        },
        Expr::Lookahead(a, n) => mixed(mixed(8, a.id as u64), n as u64),
        Expr::Not(a) => mixed(9, a.id as u64),
        Expr::Repeat(a, min, max) => mixed(
            mixed(mixed(10, a.id as u64), min as u64),
            max as u64,
        ),
        Expr::Concat(a, b) => mixed(mixed(11, a.id as u64), b.id as u64),
        Expr::Or(v) => mixed_all(12, ref_numbers(v@)),
        Expr::And(v) => mixed_all(13, ref_numbers(v@)),
    }
}

/// Expressions that are built alike have the same key.
proof fn lemma_key_alike(a: Expr, b: Expr)
    requires
        same_node(a, b),
    ensures
        key_of(a) == key_of(b),
{
}

/// One more number is mixed in last.
proof fn lemma_mixed_more(key: u64, xs: Seq<u64>, i: int)
    requires
        0 <= i < xs.len(),
    ensures
        mixed_all(key, xs.take(i + 1)) == mixed(mixed_all(key, xs.take(i)), xs[i]),
{
    assert(xs.take(i + 1).drop_last() =~= xs.take(i));
}

/// Mixes one more number into a key.
fn mix(key: u64, x: u64) -> (r: u64)
    ensures
        r == mixed(key, x),
{
    let y: u64 = (key ^ x).wrapping_mul(0x9e37_79b9_7f4a_7c15);
    y ^ (y >> 29)
}

/// Mixes several references into a key.
fn mix_refs(key: u64, v: &[ExprRef]) -> (r: u64)
    ensures
        r == mixed_all(key, ref_numbers(v@)),
{
    let ghost xs = ref_numbers(v@);
    let mut k: u64 = key;
    let mut i: usize = 0;
    while i < v.len()
        invariant
            i <= v@.len(),
            xs == ref_numbers(v@),
            k == mixed_all(key, xs.take(i as int)),
        decreases v@.len() - i,
    {
        proof {
            lemma_mixed_more(key, xs, i as int);
        }
        k = mix(k, v[i].id as u64);
        i = i + 1;
    }
    assert(xs.take(i as int) =~= xs);
    k
}

/// The key by which an expression is looked up. Expressions that are built alike have the same
/// key; a good one is met by few others.
fn node_key(e: &Expr) -> (r: u64)
    ensures
        r == key_of(*e),
{
    match e {
        Expr::EmptyString => 1,
        Expr::NoMatch => 2,
        Expr::Byte(b) => mix(3, *b as u64),
        Expr::ByteSet(words) => {
            let ghost xs = word_numbers(words@);
            let mut k: u64 = 4;
            let mut i: usize = 0;
            while i < words.len()
                invariant
                    i <= words@.len(),
                    xs == word_numbers(words@),
                    k == mixed_all(4, xs.take(i as int)),
                decreases words@.len() - i,
            {
                proof {
                    lemma_mixed_more(4, xs, i as int);
                }
                k = mix(k, words[i] as u64);
                i = i + 1;
            }
            assert(xs.take(i as int) =~= xs);
            k
        },
        Expr::ByteConcat(bytes, a) => {
            let ghost xs = byte_numbers(bytes@);
            let start: u64 = mix(5, a.id as u64);
            let mut k: u64 = start;
            let mut i: usize = 0;
            while i < bytes.len()
                invariant
                    i <= bytes@.len(),
                    xs == byte_numbers(bytes@),
                    k == mixed_all(start, xs.take(i as int)),
                decreases bytes@.len() - i,
            {
                proof {
                    lemma_mixed_more(start, xs, i as int);
                }
                k = mix(k, bytes[i] as u64);
                i = i + 1;
            }
            assert(xs.take(i as int) =~= xs);
            k
        },
        Expr::RemainderIs { divisor, remainder, scale, fractional_part, forms } => {
            let f: u64 = if *fractional_part { 6 } else { 7 };
            mix_refs(
                mix(mix(mix(f, *divisor as u64), *remainder as u64), *scale as u64),
                forms.as_slice(),
            )
        },
        Expr::Lookahead(a, n) => mix(mix(8, a.id as u64), *n as u64),
        Expr::Not(a) => mix(9, a.id as u64),
        Expr::Repeat(a, min, max) => mix(mix(mix(10, a.id as u64), *min as u64), *max as u64),
        Expr::Concat(a, b) => mix(mix(11, a.id as u64), b.id as u64),
        Expr::Or(v) => mix_refs(12, v),
        Expr::And(v) => mix_refs(13, v),
    }
}

/// The `t`-th key to look at, where `key` is the first.
spec fn slot(key: u64, t: int) -> u64 {
    ((key + t) % 0x1_0000_0000_0000_0000) as u64
}

proof fn lemma_slot_next(key: u64, t: int)
    requires
        t >= 0,
    ensures
        slot(key, 0) == key,
        slot(key, t).wrapping_add(1) == slot(key, t + 1),
{
}

/// The `t`-th key from `key` on leads to the place `id`, and all before it lead somewhere.
spec fn met_at(index: Map<u64, usize>, key: u64, id: int, t: int) -> bool {
    &&& t >= 0
    &&& index.contains_key(slot(key, t))
    &&& index[slot(key, t)] == id
    &&& forall|j: int| 0 <= j < t ==> index.contains_key(#[trigger] slot(key, j))
}

/// The place `id` is met from `key` on.
spec fn met(index: Map<u64, usize>, key: u64, id: int) -> bool {
    exists|t: int| #[trigger] met_at(index, key, id, t)
}

/// Every place is met from the key of its expression on, and no two places hold expressions that
/// are built alike.
#[verifier::opaque]
spec fn indexed(nodes: Seq<Expr>, index: Map<u64, usize>) -> bool {
    &&& index.dom().len() <= nodes.len()
    &&& forall|key: u64| #[trigger] index.contains_key(key) ==> index[key] < nodes.len()
    &&& forall|id: int|
        0 <= id < nodes.len() ==> met(index, key_of(#[trigger] nodes[id]), id)
    &&& forall|i: int, j: int|
        0 <= i < j < nodes.len() ==> !same_node(#[trigger] nodes[i], #[trigger] nodes[j])
}

/// Of more keys than lead anywhere, one leads nowhere.
proof fn lemma_some_vacant(index: Map<u64, usize>, key: u64, n: int)
    requires
        index.dom().finite(),
        index.dom().len() <= n < 0x1_0000_0000_0000_0000,
    ensures
        exists|j: int| 0 <= j <= n && !index.contains_key(#[trigger] slot(key, j)),
{
    if forall|j: int| 0 <= j <= n ==> index.contains_key(#[trigger] slot(key, j)) {
        let x = vstd::set_lib::set_int_range(0, n + 1);
        let f = |j: int| slot(key, j);
        let y = x.map(f);
        vstd::set_lib::lemma_int_range(0, n + 1);
        assert(vstd::relations::injective_on(f, x)) by {
            assert forall|a: int, b: int|
                x.contains(a) && x.contains(b) && #[trigger] f(a) == #[trigger] f(b) implies a
                == b by {
                assert((key + a) % 0x1_0000_0000_0000_0000 == (key + b) % 0x1_0000_0000_0000_0000);
            }
        }
        vstd::set_lib::lemma_map_size(x, y, f);
        assert forall|k: u64| y.contains(k) implies index.dom().contains(k) by {
            let j = choose|j: int| x.contains(j) && k == f(j);
            assert(index.contains_key(slot(key, j)));
        }
        vstd::set_lib::lemma_len_subset(y, index.dom());
    }
}

/// Where a key is met that leads nowhere, and none before it leads to an expression that is built
/// alike, no place holds one.
proof fn lemma_not_there(nodes: Seq<Expr>, index: Map<u64, usize>, node: Expr, n: int)
    requires
        indexed(nodes, index),
        n >= 0,
        !index.contains_key(slot(key_of(node), n)),
        forall|j: int|
            0 <= j < n ==> !same_node(
                nodes[index[#[trigger] slot(key_of(node), j)] as int],
                node,
            ),
    ensures
        forall|id: int| 0 <= id < nodes.len() ==> !same_node(#[trigger] nodes[id], node),
{
    reveal(indexed);
    assert forall|id: int| 0 <= id < nodes.len() implies !same_node(#[trigger] nodes[id], node) by {
        if same_node(nodes[id], node) {
            lemma_key_alike(nodes[id], node);
            assert(met(index, key_of(nodes[id]), id));
            let t = choose|t: int| #[trigger] met_at(index, key_of(nodes[id]), id, t);
            assert(index.contains_key(slot(key_of(node), t)));
            if t < n {
                assert(!same_node(nodes[index[slot(key_of(node), t)] as int], node));
            } else if n < t {
                assert(index.contains_key(slot(key_of(node), n)));
            }
        }
    }
}

/// A new expression is entered under the first key that leads nowhere yet.
proof fn lemma_index_more(nodes: Seq<Expr>, index: Map<u64, usize>, node: Expr, n: int)
    requires
        indexed(nodes, index),
        index.dom().finite(),
        nodes.len() < usize::MAX,
        n >= 0,
        !index.contains_key(slot(key_of(node), n)),
        forall|j: int| 0 <= j < n ==> index.contains_key(#[trigger] slot(key_of(node), j)),
        forall|id: int| 0 <= id < nodes.len() ==> !same_node(#[trigger] nodes[id], node),
    ensures
        indexed(
            nodes.push(node),
            index.insert(slot(key_of(node), n), nodes.len() as usize),
        ),
{
    reveal(indexed);
    let more = nodes.push(node);
    let now = index.insert(slot(key_of(node), n), nodes.len() as usize);
    assert(now.dom() =~= index.dom().insert(slot(key_of(node), n)));
    assert forall|key: u64| #[trigger] now.contains_key(key) implies now[key] < more.len() by {
        if index.contains_key(key) {
            assert(index[key] < nodes.len());
        }
    }
    assert forall|id: int| 0 <= id < more.len() implies met(
        now,
        key_of(#[trigger] more[id]),
        id,
    ) by {
        if id < nodes.len() {
            assert(met(index, key_of(nodes[id]), id));
            let t = choose|t: int| #[trigger] met_at(index, key_of(nodes[id]), id, t);
            assert(met_at(now, key_of(more[id]), id, t));
        } else {
            assert(met_at(now, key_of(more[id]), id, n));
        }
    }
    assert forall|i: int, j: int| 0 <= i < j < more.len() implies !same_node(
        #[trigger] more[i],
        #[trigger] more[j],
    ) by {
        assert(more[i] == nodes[i]);
        if j < nodes.len() {
            assert(more[j] == nodes[j]);
        }
    }
}

/// The expression at place `i` of `nodes`, as far as it stands below `bound`.
spec fn rx_at(nodes: Seq<Expr>, i: int, bound: int) -> Rx
    decreases bound, 0int,
{
    if 0 <= i < bound && i < nodes.len() {
        rx_node(nodes, nodes[i], i)
    } else {
        Rx::NoMatch
    }
}

/// The expressions of several references.
spec fn rx_list(nodes: Seq<Expr>, v: Seq<ExprRef>, bound: int) -> Seq<Rx>
    decreases bound, 1int,
{
    Seq::new(v.len(), |k: int| rx_at(nodes, v[k].id as int, bound))
}

/// The expression `e`, whose references lie below `bound`.
spec fn rx_node(nodes: Seq<Expr>, e: Expr, bound: int) -> Rx
    decreases bound, 2int,
{
    match e {
        Expr::EmptyString => Rx::EmptyString,
        Expr::NoMatch => Rx::NoMatch,
        Expr::Byte(b) => Rx::ByteSet(set![b]),
        Expr::ByteSet(words) => Rx::ByteSet(crate::byteset::byteset(words@)),
        Expr::ByteConcat(bytes, a) => Rx::ByteConcat(
            bytes@,
            Box::new(rx_at(nodes, a.id as int, bound)),
        ),
        Expr::RemainderIs { divisor, remainder, scale, fractional_part, forms } => {
            Rx::RemainderIs {
                divisor: divisor as nat,
                remainder: remainder as nat,
                scale: scale as nat,
                fractional_part,
                forms: rx_list(nodes, forms@, bound),
            }
        },
        Expr::Lookahead(a, offset) => Rx::Lookahead(
            Box::new(rx_at(nodes, a.id as int, bound)),
            offset as nat,
        ),
        Expr::Not(a) => Rx::Not(Box::new(rx_at(nodes, a.id as int, bound))),
        Expr::Repeat(a, min, max) => Rx::Repeat(
            Box::new(rx_at(nodes, a.id as int, bound)),
            min as nat,
            max_bound(max),
        ),
        Expr::Concat(a, b) => Rx::Concat(
            Box::new(rx_at(nodes, a.id as int, bound)),
            Box::new(rx_at(nodes, b.id as int, bound)),
        ),
        Expr::Or(v) => Rx::Or(rx_list(nodes, v@, bound)),
        Expr::And(v) => Rx::And(rx_list(nodes, v@, bound)),
    }
}

/// Nodes that are built alike stand for the same expressions.
proof fn lemma_rx_node_alike(a: Seq<Expr>, b: Seq<Expr>, e: Expr, f: Expr, bound: int)
    requires
        bound <= a.len() <= b.len(),
        forall|i: int| 0 <= i < a.len() ==> same_node(#[trigger] a[i], b[i]),
        same_node(e, f),
    ensures
        rx_node(a, e, bound) == rx_node(b, f, bound),
    decreases bound,
{
    assert forall|i: int| #[trigger] rx_at(a, i, bound) == rx_at(b, i, bound) by {
        if 0 <= i < bound {
            lemma_rx_node_alike(a, b, a[i], b[i], i);
        }
    }
    match e {
        Expr::Or(v) => {
            assert forall|k: int| 0 <= k < v@.len() implies #[trigger] rx_list(a, v@, bound)[k]
                == rx_list(b, v@, bound)[k] by {
                assert(rx_at(a, v@[k].id as int, bound) == rx_at(b, v@[k].id as int, bound));
            }
            assert(rx_list(a, v@, bound) =~= rx_list(b, v@, bound));
            assert(rx_node(a, e, bound) == Rx::Or(rx_list(a, v@, bound)));
            assert(rx_node(b, f, bound) == Rx::Or(rx_list(b, v@, bound)));
        },
        Expr::And(v) => {
            assert forall|k: int| 0 <= k < v@.len() implies #[trigger] rx_list(a, v@, bound)[k]
                == rx_list(b, v@, bound)[k] by {
                assert(rx_at(a, v@[k].id as int, bound) == rx_at(b, v@[k].id as int, bound));
            }
            assert(rx_list(a, v@, bound) =~= rx_list(b, v@, bound));
            assert(rx_node(a, e, bound) == Rx::And(rx_list(a, v@, bound)));
            assert(rx_node(b, f, bound) == Rx::And(rx_list(b, v@, bound)));
        },
        Expr::RemainderIs { divisor: _, remainder: _, scale: _, fractional_part: _, forms: v } => {
            assert forall|k: int| 0 <= k < v@.len() implies #[trigger] rx_list(a, v@, bound)[k]
                == rx_list(b, v@, bound)[k] by {
                assert(rx_at(a, v@[k].id as int, bound) == rx_at(b, v@[k].id as int, bound));
            }
            assert(rx_list(a, v@, bound) =~= rx_list(b, v@, bound));
        },
        Expr::ByteConcat(_, c) | Expr::Lookahead(c, _) | Expr::Not(c) | Expr::Repeat(c, _, _) => {
            assert(rx_at(a, c.id as int, bound) == rx_at(b, c.id as int, bound));
        },
        Expr::Concat(c, d) => {
            assert(rx_at(a, c.id as int, bound) == rx_at(b, c.id as int, bound));
            assert(rx_at(a, d.id as int, bound) == rx_at(b, d.id as int, bound));
        },
        _ => {},
    }
}

proof fn lemma_rx_node_prefix(a: Seq<Expr>, b: Seq<Expr>, e: Expr, bound: int)
    requires
        bound <= a.len() <= b.len(),
        forall|i: int| 0 <= i < a.len() ==> a[i] == b[i],
    ensures
        rx_node(a, e, bound) == rx_node(b, e, bound),
{
    lemma_rx_node_alike(a, b, e, e, bound);
}

/// Raising the bound above the references of an expression changes nothing.
proof fn lemma_rx_node_bound(nodes: Seq<Expr>, e: Expr, lo: int, hi: int)
    requires
        lo <= hi,
        node_below(e, lo),
    ensures
        rx_node(nodes, e, lo) == rx_node(nodes, e, hi),
{
    match e {
        Expr::Or(v) => {
            assert(rx_list(nodes, v@, lo) =~= rx_list(nodes, v@, hi));
        },
        Expr::And(v) => {
            assert(rx_list(nodes, v@, lo) =~= rx_list(nodes, v@, hi));
        },
        Expr::RemainderIs { divisor: _, remainder: _, scale: _, fractional_part: _, forms: v } => {
            assert(rx_list(nodes, v@, lo) =~= rx_list(nodes, v@, hi));
        },
        _ => {},
    }
}

/// A set of expressions. Each is held once and refers to the expressions it is built from.
#[derive(Debug)]
pub struct ExprSet {
    nodes: Vec<Expr>,
    nullable: Vec<bool>,
    index: HashMap<u64, usize>,
}

impl ExprSet {
    /// Whether the reference belongs to this set.
    pub closed spec fn valid(&self, e: ExprRef) -> bool {
        e.id < self.nodes@.len()
    }

    /// The expression that a reference stands for.
    pub closed spec fn tree(&self, e: ExprRef) -> Rx {
        rx_at(self.nodes@, e.id as int, self.nodes@.len() as int)
    }

    /// How the expression that a reference stands for is built.
    pub closed spec fn node(&self, e: ExprRef) -> Expr {
        self.nodes@[e.id as int]
    }

    /// The expressions that several references stand for.
    pub open spec fn trees(&self, v: Seq<ExprRef>) -> Seq<Rx> {
        v.map_values(|a: ExprRef| self.tree(a))
    }

    /// The language of an expression under a reading.
    pub open spec fn lang(&self, e: ExprRef, s: Reading) -> Lang {
        lang::language(self.tree(e), s)
    }

    /// The languages of several expressions under a reading.
    pub open spec fn langs(&self, v: Seq<ExprRef>, s: Reading) -> Seq<Lang> {
        v.map_values(|a: ExprRef| self.lang(a, s))
    }

    /// All of the references belong to this set.
    pub open spec fn all_valid(&self, v: Seq<ExprRef>) -> bool {
        forall|k: int| 0 <= k < v.len() ==> self.valid(#[trigger] v[k])
    }

    /// The expression that `e` is, built from expressions of this set.
    pub open spec fn rx(&self, e: Expr) -> Rx {
        match e {
            Expr::EmptyString => Rx::EmptyString,
            Expr::NoMatch => Rx::NoMatch,
            Expr::Byte(b) => Rx::ByteSet(set![b]),
            Expr::ByteSet(words) => Rx::ByteSet(crate::byteset::byteset(words@)),
            Expr::ByteConcat(bytes, a) => Rx::ByteConcat(bytes@, Box::new(self.tree(a))),
            Expr::RemainderIs { divisor, remainder, scale, fractional_part, forms } => {
                Rx::RemainderIs {
                    divisor: divisor as nat,
                    remainder: remainder as nat,
                    scale: scale as nat,
                    fractional_part,
                    forms: self.trees(forms@),
                }
            },
            Expr::Lookahead(a, offset) => Rx::Lookahead(Box::new(self.tree(a)), offset as nat),
            Expr::Not(a) => Rx::Not(Box::new(self.tree(a))),
            Expr::Repeat(a, min, max) => Rx::Repeat(
                Box::new(self.tree(a)),
                min as nat,
                max_bound(max),
            ),
            Expr::Concat(a, b) => Rx::Concat(Box::new(self.tree(a)), Box::new(self.tree(b))),
            Expr::Or(v) => Rx::Or(self.trees(v@)),
            Expr::And(v) => Rx::And(self.trees(v@)),
        }
    }

    /// The set is well formed: each expression refers to earlier ones only, the empty string and
    /// the expression that matches nothing have their places, it is known of each expression whether
    /// it matches the empty string, and each is found by its key.
    pub closed spec fn wf(&self) -> bool {
        &&& self.nodes@.len() >= 2
        &&& self.nodes@[0] == Expr::EmptyString
        &&& self.nodes@[1] == Expr::NoMatch
        &&& forall|i: int| 0 <= i < self.nodes@.len() ==> node_below(#[trigger] self.nodes@[i], i)
        &&& self.nullable@.len() == self.nodes@.len()
        &&& forall|i: int|
            #![trigger self.nullable@[i]]
            0 <= i < self.nodes@.len() ==> self.nullable@[i] == lang::language(
                rx_node(self.nodes@, self.nodes@[i], i),
                lang::plain(),
            )(Seq::empty())
        &&& indexed(self.nodes@, self.index@)
    }

    /// All expressions of `other` are in this set, under the same references.
    pub open spec fn keeps(&self, other: &ExprSet) -> bool {
        forall|e: ExprRef|
            #![trigger self.tree(e)]
            #![trigger self.valid(e)]
            other.valid(e) ==> self.valid(e) && self.tree(e) == other.tree(e) && self.node(e)@
                == other.node(e)@
    }

    /// The expression is the one that matches nothing, or its form shows that it matches some
    /// string.
    pub open spec fn clear(&self, e: ExprRef) -> bool {
        e.id == 1 || lang::live(self.tree(e))
    }

    /// Each of the expressions is clear.
    pub open spec fn all_clear(&self, v: Seq<ExprRef>) -> bool {
        forall|k: int| 0 <= k < v.len() ==> self.clear(#[trigger] v[k])
    }

    /// A clear expression is the one that matches nothing if it matches nothing.
    pub proof fn lemma_clear(&self, e: ExprRef)
        requires
            self.wf(),
            self.clear(e),
        ensures
            e.id == 1 <==> forall|w: Seq<u8>| !#[trigger] self.lang(e, lang::plain())(w),
    {
        self.lemma_constants();
        if e.id != 1 {
            let w = lang::live_matches(self.tree(e));
            assert(self.lang(e, lang::plain())(w));
        }
    }

    /// The expression is the one that matches nothing, or it can be seen that it matches no string
    /// outside of the language, and that there are some in it.
    pub closed spec fn held(&self, e: ExprRef, l: Lang) -> bool {
        e.id == 1 || exists|m: Rx| #[trigger]
            lang::live(m) && lang::guarded(self.tree(e), m) && lang::language(m, lang::plain()) == l
    }

    /// A clear expression is held by its own language.
    pub proof fn lemma_held_itself(&self, e: ExprRef)
        requires
            self.clear(e),
        ensures
            self.held(e, self.lang(e, lang::plain())),
    {
        if e.id != 1 {
            assert(lang::live(self.tree(e)));
        }
    }

    /// A language that holds another expression than the one that matches nothing has a string.
    pub proof fn lemma_held_some(&self, e: ExprRef, l: Lang) -> (w: Seq<u8>)
        requires
            self.held(e, l),
            e.id != 1,
        ensures
            l(w),
    {
        let m = choose|m: Rx| #[trigger]
            lang::live(m) && lang::guarded(self.tree(e), m) && lang::language(m, lang::plain()) == l;
        lang::live_matches(m)
    }

    /// What holds an expression goes by its tree.
    pub proof fn lemma_held_alike(&self, other: &ExprSet, e: ExprRef, l: Lang)
        requires
            self.tree(e) == other.tree(e),
        ensures
            self.held(e, l) == other.held(e, l),
    {
    }

    /// An expression that is no intersection is held by its own language alone.
    pub proof fn lemma_held_alone(&self, e: ExprRef, l: Lang)
        requires
            self.held(e, l),
            !(self.tree(e) is And),
        ensures
            e.id == 1 || self.clear(e) && l == self.lang(e, lang::plain()),
    {
        if e.id != 1 {
            let m = choose|m: Rx| #[trigger]
                lang::live(m) && lang::guarded(self.tree(e), m) && lang::language(m, lang::plain())
                    == l;
            assert(self.tree(e) == m);
        }
    }

    /// An intersection is held by the language of one of its parts.
    pub proof fn lemma_held_part(&self, e: ExprRef, v: Seq<ExprRef>, l: Lang) -> (k: int)
        requires
            self.held(e, l),
            e.id != 1,
            self.tree(e) == Rx::And(self.trees(v)),
        ensures
            0 <= k < v.len(),
            self.clear(v[k]),
            self.lang(v[k], lang::plain()) == l,
    {
        let m = choose|m: Rx| #[trigger]
            lang::live(m) && lang::guarded(self.tree(e), m) && lang::language(m, lang::plain()) == l;
        assert(self.tree(e) != m);
        let es = self.trees(v);
        let k = es.index_of(m);
        assert(es[k] == self.tree(v[k]));
        k
    }

    /// Every language holds the expression that matches nothing.
    pub proof fn lemma_held_dead(&self, e: ExprRef, l: Lang)
        requires
            e.id == 1,
        ensures
            self.held(e, l),
    {
    }

    /// What is guarded by an expression that matches some string is held by its language.
    pub proof fn lemma_held_guarded(&self, e: ExprRef, m: Rx)
        requires
            e.id == 1 || lang::live(m) && lang::guarded(self.tree(e), m),
        ensures
            self.held(e, lang::language(m, lang::plain())),
    {
    }

    /// No expression of the set is a lookahead.
    pub open spec fn unmarked(&self) -> bool {
        forall|e: ExprRef| #[trigger] self.valid(e) ==> !(self.tree(e) is Lookahead)
    }

    /// Each lookahead of this set is an expression of `other`.
    pub open spec fn adds_no_lookahead(&self, other: &ExprSet) -> bool {
        forall|e: ExprRef| #[trigger]
            self.valid(e) && self.tree(e) is Lookahead ==> other.valid(e)
    }

    /// The numbers and references of `e` are those of an expression of this set.
    pub open spec fn node_ok(&self, e: Expr) -> bool {
        match e {
            Expr::EmptyString | Expr::NoMatch | Expr::Byte(_) => true,
            Expr::ByteSet(words) => words@.len() == crate::byteset::BYTESET_WORDS,
            Expr::RemainderIs { divisor, remainder, scale, fractional_part, forms } => {
                &&& 0 < divisor && remainder <= divisor
                &&& forms@.len() == 0 || forms@.len() == number::NUMERAL_CHARS
                &&& forall|k: int| 0 <= k < forms@.len() ==> self.valid(#[trigger] forms@[k])
            },
            Expr::ByteConcat(_, a) => self.valid(a),
            Expr::Lookahead(a, _) => self.valid(a),
            Expr::Not(a) => self.valid(a),
            Expr::Repeat(a, _, _) => self.valid(a),
            Expr::Concat(a, b) => self.valid(a) && self.valid(b),
            Expr::Or(v) => forall|k: int| 0 <= k < v@.len() ==> self.valid(#[trigger] v@[k]),
            Expr::And(v) => forall|k: int| 0 <= k < v@.len() ==> self.valid(#[trigger] v@[k]),
        }
    }

    proof fn lemma_rx(&self, e: Expr)
        requires
            self.node_ok(e),
        ensures
            self.rx(e) == rx_node(self.nodes@, e, self.nodes@.len() as int),
            node_below(e, self.nodes@.len() as int),
    {
        match e {
            Expr::Or(v) => {
                assert(self.trees(v@) =~= rx_list(self.nodes@, v@, self.nodes@.len() as int));
            },
            Expr::And(v) => {
                assert(self.trees(v@) =~= rx_list(self.nodes@, v@, self.nodes@.len() as int));
            },
            Expr::RemainderIs { divisor: _, remainder: _, scale: _, fractional_part: _, forms: v } => {
                assert(self.trees(v@) =~= rx_list(self.nodes@, v@, self.nodes@.len() as int));
            },
            _ => {},
        }
    }

    proof fn lemma_same_node(&self, a: Expr, b: Expr)
        requires
            same_node(a, b),
        ensures
            self.rx(a) == self.rx(b),
    {
    }

    proof fn lemma_tree(&self, e: ExprRef)
        requires
            self.wf(),
            self.valid(e),
        ensures
            self.tree(e) == rx_node(self.nodes@, self.nodes@[e.id as int], e.id as int),
            self.tree(e) == self.rx(self.nodes@[e.id as int]),
            self.node_ok(self.nodes@[e.id as int]),
    {
        let i = e.id as int;
        let n = self.nodes@.len() as int;
        lemma_rx_node_bound(self.nodes@, self.nodes@[i], i, n);
        self.lemma_rx(self.nodes@[i]);
    }

    /// References below one of this set belong to it too.
    pub proof fn lemma_valid_below(&self, e: ExprRef, a: ExprRef)
        requires
            self.valid(e),
            a.id <= e.id,
        ensures
            self.valid(a),
    {
    }

    /// An expression refers to lower ones only.
    pub proof fn lemma_args_below(&self, e: ExprRef)
        requires
            self.wf(),
            self.valid(e),
        ensures
            forall|k: int|
                0 <= k < args(self.node(e)).len() ==> (#[trigger] args(self.node(e))[k]).id < e.id,
    {
        self.lemma_tree(e);
        assert(node_below(self.nodes@[e.id as int], e.id as int));
    }

    /// The parts of an expression are expressions of the set, and earlier ones.
    pub proof fn lemma_args_valid(&self, e: ExprRef)
        requires
            self.wf(),
            self.valid(e),
        ensures
            forall|k: int|
                0 <= k < args(self.node(e)).len() ==> (#[trigger] args(self.node(e))[k]).id < e.id
                    && self.valid(args(self.node(e))[k]),
            self.node(e) matches Expr::ByteSet(words) ==> words@.len()
                == crate::byteset::BYTESET_WORDS,
    {
        self.lemma_args_below(e);
        assert(node_below(self.nodes@[e.id as int], e.id as int));
    }

    /// No two expressions of a set are alike.
    pub proof fn lemma_no_twins(&self, a: ExprRef, b: ExprRef)
        requires
            self.wf(),
            self.valid(a),
            self.valid(b),
            same_node(self.node(a), self.node(b)),
        ensures
            a == b,
    {
        reveal(indexed);
        if a.id < b.id {
            assert(!same_node(self.nodes@[a.id as int], self.nodes@[b.id as int]));
        }
        if b.id < a.id {
            assert(same_node(self.nodes@[b.id as int], self.nodes@[a.id as int]));
        }
    }

    /// The empty string and the expression that matches nothing are in every set.
    pub proof fn lemma_constants(&self)
        requires
            self.wf(),
        ensures
            forall|e: ExprRef| e.id <= 1 ==> #[trigger] self.valid(e),
            self.tree(ExprRef { id: 0 }) == Rx::EmptyString,
            self.tree(ExprRef { id: 1 }) == Rx::NoMatch,
    {
        self.lemma_tree(ExprRef { id: 0 });
        self.lemma_tree(ExprRef { id: 1 });
    }

    /// Expressions keep their languages while the set grows.
    pub proof fn lemma_langs_kept(&self, before: &ExprSet, v: Seq<ExprRef>, s: Reading)
        requires
            self.keeps(before),
            before.all_valid(v),
        ensures
            self.all_valid(v),
            self.langs(v, s) == before.langs(v, s),
    {
        assert forall|k: int| 0 <= k < v.len() implies self.valid(#[trigger] v[k]) && self.tree(v[k])
            == before.tree(v[k]) by {
            assert(before.valid(v[k]));
        }
        assert(self.langs(v, s) =~= before.langs(v, s));
    }

    /// One more alternative adds its strings.
    pub proof fn lemma_union_push(&self, v: Seq<ExprRef>, e: ExprRef, s: Reading, w: Seq<u8>)
        ensures
            lang::union(self.langs(v.push(e), s))(w) == (lang::union(self.langs(v, s))(w)
                || self.lang(e, s)(w)),
    {
        let a = self.langs(v, s);
        let b = self.langs(v.push(e), s);
        assert(b =~= a.push(self.lang(e, s)));
        if lang::union(a)(w) {
            let i = choose|i: int| 0 <= i < a.len() && (#[trigger] a[i])(w);
            assert(b[i](w));
        }
        if self.lang(e, s)(w) {
            assert(b[a.len() as int](w));
        }
        if lang::union(b)(w) {
            let i = choose|i: int| 0 <= i < b.len() && (#[trigger] b[i])(w);
            if i < a.len() {
                assert(a[i](w));
            }
        }
    }

    /// The set of the two constant expressions.
    pub fn new() -> (r: ExprSet)
        ensures
            r.wf(),
            forall|e: ExprRef| #[trigger] r.valid(e) <==> e.id < 2,
    {
        let mut nodes: Vec<Expr> = Vec::new();
        nodes.push(Expr::EmptyString);
        nodes.push(Expr::NoMatch);
        let mut nullable: Vec<bool> = Vec::new();
        nullable.push(true);
        nullable.push(false);
        let mut index: HashMap<u64, usize> = HashMap::new();
        let ghost none = index@;
        index.insert(node_key(&Expr::EmptyString), 0);
        index.insert(node_key(&Expr::NoMatch), 1);
        proof {
            assert(indexed(seq![], none)) by {
                reveal(indexed);
            }
            lemma_index_more(seq![], none, Expr::EmptyString, 0);
            let first = Seq::<Expr>::empty().push(Expr::EmptyString);
            lemma_index_more(first, none.insert(1, 0), Expr::NoMatch, 0);
            assert(nodes@ =~= first.push(Expr::NoMatch));
        }
        ExprSet { nodes, nullable, index }
    }

    /// Whether the expression `node` matches the empty string.
    fn node_nullable(&self, node: &Expr) -> (r: bool)
        requires
            self.wf(),
            self.node_ok(*node),
        ensures
            r == lang::language(self.rx(*node), lang::plain())(Seq::empty()),
    {
        let ghost p = lang::plain();
        let ghost eps = Seq::<u8>::empty();
        match node {
            Expr::EmptyString => true,
            Expr::NoMatch => false,
            Expr::Byte(_) | Expr::ByteSet(_) => {
                proof {
                    match self.rx(*node) {
                        Rx::ByteSet(set) => lang::one_of_at_empty(set),
                        _ => {},
                    }
                }
                false
            },
            Expr::ByteConcat(bytes, a) => {
                proof {
                    lang::cat_at_empty(lang::literal(bytes@, p), self.lang(*a, p));
                    lang::writes_plain(bytes@, eps);
                    if bytes@.len() == 0 {
                        assert(bytes@ =~= eps);
                    }
                }
                bytes.len() == 0 && self.is_nullable(*a)
            },
            Expr::RemainderIs { divisor, remainder, scale, fractional_part, forms } => {
                proof {
                    lang::language_numeral(
                        *divisor as nat,
                        *remainder as nat,
                        *scale as nat,
                        *fractional_part,
                        self.trees(forms@),
                        p,
                        eps,
                    );
                    lang::own_forms(self.trees(forms@), p);
                }
                if forms.len() == 0 {
                    proof {
                        number::spelled_plainly(
                            *divisor as nat,
                            *remainder as nat,
                            *scale as nat,
                            *fractional_part,
                            eps,
                        );
                    }
                    return *remainder != *divisor && number::scaled_remainder(
                        *divisor,
                        *remainder,
                        *scale,
                    ) == 0;
                }
                let silent: Vec<bool> = self.which_nullable(forms.as_slice());
                let q: (u32, u32, bool) = (*remainder, *scale, *fractional_part);
                proof {
                    let ls = lang::form_langs(self.trees(forms@), p);
                    assert forall|k: int| 0 <= k < number::NUMERAL_CHARS implies #[trigger] silent@[k]
                        == ls[k](eps) by {
                        assert(ls[k] == self.lang(forms@[k], p));
                    }
                    number::spelled_as_nothing(*divisor as nat, number::state(q), ls, silent@);
                }
                number::ends_silently(*divisor, q, silent.as_slice())
            },
            Expr::Lookahead(a, _) => self.is_nullable(*a),
            Expr::Not(a) => {
                proof {
                    lang::written_plain(eps);
                }
                !self.is_nullable(*a)
            },
            Expr::Repeat(a, min, max) => {
                proof {
                    lang::repeat_at_empty(self.lang(*a, p), *min as nat, max_bound(*max));
                }
                (*max == u32::MAX || *min <= *max) && (*min == 0 || self.is_nullable(*a))
            },
            Expr::Concat(a, b) => {
                proof {
                    lang::cat_at_empty(self.lang(*a, p), self.lang(*b, p));
                }
                self.is_nullable(*a) && self.is_nullable(*b)
            },
            Expr::Or(v) => {
                let r: bool = self.any_nullable(v, true);
                proof {
                    let ts = self.trees(v@);
                    assert forall|k: int| 0 <= k < ts.len() implies #[trigger] lang::language(
                        ts[k],
                        p,
                    )(eps) == self.lang(v@[k], p)(eps) by {}
                    if r {
                        let k = choose|k: int|
                            0 <= k < v@.len() && self.lang(#[trigger] v@[k], p)(eps) == true;
                        assert(lang::language(ts[k], p)(eps));
                    }
                }
                r
            },
            Expr::And(v) => {
                let r: bool = self.any_nullable(v, false);
                proof {
                    lang::written_plain(eps);
                    let ts = self.trees(v@);
                    assert forall|k: int| 0 <= k < ts.len() implies #[trigger] lang::language(
                        ts[k],
                        p,
                    )(eps) == self.lang(v@[k], p)(eps) by {}
                    if r {
                        let k = choose|k: int|
                            0 <= k < v@.len() && self.lang(#[trigger] v@[k], p)(eps) == false;
                        assert(!lang::language(ts[k], p)(eps));
                    }
                }
                !r
            },
        }
    }

    /// Which of the expressions match the empty string.
    pub(crate) fn which_nullable(&self, v: &[ExprRef]) -> (r: Vec<bool>)
        requires
            self.wf(),
            forall|k: int| 0 <= k < v@.len() ==> self.valid(#[trigger] v@[k]),
        ensures
            r@.len() == v@.len(),
            forall|k: int|
                0 <= k < v@.len() ==> #[trigger] r@[k] == self.lang(v@[k], lang::plain())(
                    Seq::empty(),
                ),
    {
        let mut r: Vec<bool> = Vec::new();
        let mut i: usize = 0;
        while i < v.len()
            invariant
                i <= v@.len(),
                self.wf(),
                forall|k: int| 0 <= k < v@.len() ==> self.valid(#[trigger] v@[k]),
                r@.len() == i,
                forall|k: int|
                    0 <= k < i ==> #[trigger] r@[k] == self.lang(v@[k], lang::plain())(
                        Seq::empty(),
                    ),
            decreases v@.len() - i,
        {
            r.push(self.is_nullable(v[i]));
            i = i + 1;
        }
        r
    }

    /// Whether one of the expressions does (`want`), or does not, match the empty string.
    fn any_nullable(&self, v: &[ExprRef], want: bool) -> (r: bool)
        requires
            self.wf(),
            forall|k: int| 0 <= k < v@.len() ==> self.valid(#[trigger] v@[k]),
        ensures
            r <==> exists|k: int|
                0 <= k < v@.len() && self.lang(#[trigger] v@[k], lang::plain())(Seq::empty())
                    == want,
    {
        let mut i: usize = 0;
        while i < v.len()
            invariant
                i <= v@.len(),
                self.wf(),
                forall|k: int| 0 <= k < v@.len() ==> self.valid(#[trigger] v@[k]),
                forall|k: int|
                    0 <= k < i ==> self.lang(#[trigger] v@[k], lang::plain())(Seq::empty()) != want,
            decreases v@.len() - i,
        {
            if self.is_nullable(v[i]) == want {
                return true;
            }
            i = i + 1;
        }
        false
    }

    /// Adds an expression, unless one that is built alike is already there.
    fn insert(&mut self, node: Expr) -> (r: ExprRef)
        requires
            old(self).wf(),
            old(self).node_ok(node),
        ensures
            final(self).wf(),
            final(self).keeps(old(self)),
            !(node is Lookahead) ==> final(self).adds_no_lookahead(old(self)),
            final(self).valid(r),
            final(self).tree(r) == old(self).rx(node),
            same_node(final(self).node(r), node),
            forall|e: ExprRef| #[trigger]
                old(self).valid(e) && same_node(old(self).node(e), node) ==> r == e && *final(self)
                    == *old(self),
    {
        let mut key: u64 = node_key(&node);
        let n: usize = self.nodes.len();
        let mut tries: usize = 0;
        let ghost start = key;
        proof {
            lemma_slot_next(start, 0);
        }
        loop
            invariant
                *self == *old(self),
                self.wf(),
                self.node_ok(node),
                n == self.nodes@.len(),
                tries <= n,
                start == key_of(node),
                key == slot(start, tries as int),
                forall|j: int|
                    0 <= j < tries ==> self.index@.contains_key(#[trigger] slot(start, j))
                        && !same_node(self.nodes@[self.index@[slot(start, j)] as int], node),
            ensures
                !self.index@.contains_key(key),
            decreases n - tries,
        {
            match self.index.get(&key) {
                Some(id) => {
                    let id: usize = *id;
                    assert(id < n) by {
                        reveal(indexed);
                        assert(self.index@.contains_key(key));
                    }
                    if same_expr(&self.nodes[id], &node) {
                        let e = ExprRef { id };
                        proof {
                            self.lemma_tree(e);
                            self.lemma_same_node(self.nodes@[id as int], node);
                            assert forall|x: ExprRef| #[trigger]
                                old(self).valid(x) && same_node(old(self).node(x), node) implies x
                                == e by {
                                reveal(indexed);
                                let a = self.nodes@[x.id as int];
                                let b = self.nodes@[id as int];
                                assert(same_node(a, b) && same_node(b, a));
                            }
                        }
                        return e;
                    }
                    proof {
                        assert forall|j: int| 0 <= j <= tries implies self.index@.contains_key(
                            #[trigger] slot(start, j),
                        ) by {}
                        if tries == n {
                            reveal(indexed);
                            lemma_some_vacant(self.index@, start, n as int);
                        }
                        lemma_slot_next(start, tries as int);
                    }
                    key = key.wrapping_add(1);
                    tries = tries + 1;
                },
                None => {
                    break ;
                },
            }
        }
        proof {
            lemma_not_there(self.nodes@, self.index@, node, tries as int);
        }
        let ghost before = self.index@;
        let null: bool = self.node_nullable(&node);
        self.index.insert(key, n);
        self.nullable.push(null);
        self.nodes.push(node);
        let e = ExprRef { id: n };
        proof {
            assert(self.nodes.len() == n + 1);
            lemma_index_more(old(self).nodes@, before, node, tries as int);
            self.lemma_extended(old(self), node);
            if !(node is Lookahead) {
                assert forall|x: ExprRef| #[trigger]
                    self.valid(x) && self.tree(x) is Lookahead implies old(self).valid(x) by {
                    if x.id == n {
                        assert(x == e);
                    }
                }
            }
        }
        e
    }

    /// A copy of the set, in which each reference stands for the same expression.
    fn copy(&self) -> (r: ExprSet)
        ensures
            self.wf() ==> r.wf(),
            forall|e: ExprRef| #[trigger] r.valid(e) == self.valid(e),
            self.wf() ==> forall|e: ExprRef| #[trigger] r.tree(e) == self.tree(e),
            self.wf() ==> r.keeps(self),
    {
        let mut nodes: Vec<Expr> = Vec::new();
        let mut index: HashMap<u64, usize> = HashMap::new();
        let mut i: usize = 0;
        assert(indexed(nodes@, index@)) by {
            reveal(indexed);
        }
        while i < self.nodes.len()
            invariant
                i <= self.nodes@.len(),
                nodes@.len() == i,
                forall|k: int| 0 <= k < i ==> same_node(#[trigger] self.nodes@[k], nodes@[k]),
                self.wf() ==> indexed(nodes@, index@),
            decreases self.nodes@.len() - i,
        {
            let mut key: u64 = node_key(&self.nodes[i]);
            let mut tries: usize = 0;
            let ghost start = key;
            proof {
                lemma_slot_next(start, 0);
            }
            while tries < i && index.contains_key(&key)
                invariant
                    tries <= i,
                    key == slot(start, tries as int),
                    forall|j: int| 0 <= j < tries ==> index@.contains_key(#[trigger] slot(start, j)),
                decreases i - tries,
            {
                proof {
                    lemma_slot_next(start, tries as int);
                }
                key = key.wrapping_add(1);
                tries = tries + 1;
            }
            let node: Expr = copied_expr(&self.nodes[i]);
            proof {
                lemma_key_alike(self.nodes@[i as int], node);
                if self.wf() {
                    if index@.contains_key(key) {
                        assert forall|j: int| 0 <= j <= i implies index@.contains_key(
                            #[trigger] slot(start, j),
                        ) by {}
                        assert(index@.dom().len() <= i) by {
                            reveal(indexed);
                        }
                        lemma_some_vacant(index@, start, i as int);
                    }
                    assert forall|k: int| 0 <= k < i implies !same_node(
                        #[trigger] nodes@[k],
                        node,
                    ) by {
                        reveal(indexed);
                        assert(same_node(self.nodes@[k], nodes@[k]));
                        assert(!same_node(self.nodes@[k], self.nodes@[i as int]));
                    }
                    lemma_index_more(nodes@, index@, node, tries as int);
                }
            }
            index.insert(key, i);
            nodes.push(node);
            i = i + 1;
        }
        let r = ExprSet { nodes, nullable: copied(self.nullable.as_slice()), index };
        proof {
            if self.wf() {
                let n = self.nodes@.len() as int;
                assert forall|k: int, bound: int|
                    0 <= bound <= n && 0 <= k < n implies #[trigger] rx_node(
                    self.nodes@,
                    self.nodes@[k],
                    bound,
                ) == rx_node(r.nodes@, r.nodes@[k], bound) by {
                    lemma_rx_node_alike(self.nodes@, r.nodes@, self.nodes@[k], r.nodes@[k], bound);
                }
                assert forall|k: int| 0 <= k < n implies node_below(#[trigger] r.nodes@[k], k) by {
                    assert(same_node(self.nodes@[k], r.nodes@[k]));
                    assert(node_below(self.nodes@[k], k));
                }
                assert forall|k: int|
                    #![trigger r.nullable@[k]]
                    0 <= k < n implies r.nullable@[k] == lang::language(
                    rx_node(r.nodes@, r.nodes@[k], k),
                    lang::plain(),
                )(Seq::empty()) by {
                    assert(rx_node(self.nodes@, self.nodes@[k], k) == rx_node(
                        r.nodes@,
                        r.nodes@[k],
                        k,
                    ));
                    assert(self.nullable@[k] == r.nullable@[k]);
                }
                assert(same_node(self.nodes@[0], r.nodes@[0]));
                assert(same_node(self.nodes@[1], r.nodes@[1]));
                assert forall|e: ExprRef| #[trigger] r.tree(e) == self.tree(e) by {
                    if self.valid(e) {
                        assert(rx_node(self.nodes@, self.nodes@[e.id as int], e.id as int) == rx_node(
                            r.nodes@,
                            r.nodes@[e.id as int],
                            e.id as int,
                        ));
                    }
                }
            }
        }
        r
    }

    /// What one more expression changes.
    proof fn lemma_extended(&self, before: &ExprSet, node: Expr)
        requires
            before.wf(),
            before.node_ok(node),
            self.nodes@ == before.nodes@.push(node),
            self.nullable@ == before.nullable@.push(
                lang::language(before.rx(node), lang::plain())(Seq::empty()),
            ),
            before.nodes@.len() < usize::MAX,
            indexed(self.nodes@, self.index@),
        ensures
            self.wf(),
            self.keeps(before),
            self.tree(ExprRef { id: before.nodes@.len() as usize }) == before.rx(node),
    {
        let n = before.nodes@.len() as int;
        before.lemma_rx(node);
        lemma_rx_node_prefix(before.nodes@, self.nodes@, node, n);
        assert forall|i: int| 0 <= i < n implies rx_node(self.nodes@, self.nodes@[i], i) == rx_node(
            before.nodes@,
            before.nodes@[i],
            i,
        ) by {
            lemma_rx_node_prefix(before.nodes@, self.nodes@, before.nodes@[i], i);
        }
        assert forall|i: int| 0 <= i < self.nodes@.len() implies node_below(
            #[trigger] self.nodes@[i],
            i,
        ) by {
            if i < n {
                assert(self.nodes@[i] == before.nodes@[i]);
            }
        }
        assert forall|i: int|
            #![trigger self.nullable@[i]]
            0 <= i < self.nodes@.len() implies self.nullable@[i] == lang::language(
            rx_node(self.nodes@, self.nodes@[i], i),
            lang::plain(),
        )(Seq::empty()) by {
            if i < n {
                assert(self.nullable@[i] == before.nullable@[i]);
            }
        }
        assert forall|e: ExprRef| before.valid(e) implies self.tree(e) == before.tree(e) by {
            assert(rx_node(self.nodes@, self.nodes@[e.id as int], e.id as int) == rx_node(
                before.nodes@,
                before.nodes@[e.id as int],
                e.id as int,
            ));
        }
    }

    /// Whether the reference belongs to this set.
    pub fn is_valid(&self, e: ExprRef) -> (r: bool)
        ensures
            r == self.valid(e),
    {
        e.id < self.nodes.len()
    }

    /// The number of expressions.
    pub fn len(&self) -> (r: usize)
        ensures
            forall|e: ExprRef| #[trigger] self.valid(e) <==> e.id < r,
    {
        self.nodes.len()
    }

    /// Whether the expression matches the empty string.
    pub fn is_nullable(&self, e: ExprRef) -> (r: bool)
        requires
            self.wf(),
            self.valid(e),
        ensures
            r == self.lang(e, lang::plain())(Seq::empty()),
    {
        proof {
            self.lemma_tree(e);
        }
        self.nullable[e.id]
    }

    /// The expression that a reference stands for. Its own references are lower.
    pub fn get(&self, e: ExprRef) -> (r: &Expr)
        requires
            self.wf(),
            self.valid(e),
        ensures
            *r == self.node(e),
            self.tree(e) == self.rx(*r),
            self.node_ok(*r),
            node_below(*r, e.id as int),
    {
        proof {
            self.lemma_tree(e);
        }
        &self.nodes[e.id]
    }

    /// Matches this byte only.
    pub fn mk_byte(&mut self, b: u8) -> (r: ExprRef)
        requires
            old(self).wf(),
        ensures
            final(self).wf(),
            final(self).keeps(old(self)),
            final(self).adds_no_lookahead(old(self)),
            final(self).valid(r),
            final(self).clear(r),
            forall|s: Reading| #[trigger]
                final(self).lang(r, s) == lang::one_of(set![b], s),
    {
        assert(set![b].contains(b));
        self.insert(Expr::Byte(b))
    }

    /// Matches one byte of the set.
    pub fn mk_byte_set(&mut self, words: &[u32]) -> (r: ExprRef)
        requires
            old(self).wf(),
            words@.len() == crate::byteset::BYTESET_WORDS,
        ensures
            final(self).wf(),
            final(self).keeps(old(self)),
            final(self).adds_no_lookahead(old(self)),
            final(self).valid(r),
            final(self).clear(r),
            forall|s: Reading| #[trigger]
                final(self).lang(r, s) == lang::one_of(crate::byteset::byteset(words@), s),
    {
        let ghost set = crate::byteset::byteset(words@);
        let mut first: Option<u8> = None;
        let mut many: bool = false;
        let mut b: u16 = 0;
        while b < 256
            invariant
                b <= 256,
                words@.len() == crate::byteset::BYTESET_WORDS,
                set == crate::byteset::byteset(words@),
                match first {
                    None => !many && forall|c: u8| c < b ==> !set.contains(c),
                    Some(f) => set.contains(f) && (many || forall|c: u8|
                        c < b && set.contains(c) ==> c == f),
                },
            decreases 256 - b,
        {
            let c: u8 = b as u8;
            if byteset_contains(words, c) {
                if first.is_none() {
                    first = Some(c);
                } else {
                    many = true;
                }
            }
            b = b + 1;
        }
        proof {
            self.lemma_constants();
        }
        match first {
            None => {
                proof {
                    assert forall|s: Reading| #[trigger]
                        lang::one_of(set, s) == lang::none() by {
                        assert(lang::one_of(set, s) =~= lang::none());
                    }
                }
                ExprRef::no_match()
            },
            Some(f) => {
                assert(set.contains(f));
                if many {
                    self.insert(Expr::ByteSet(copied(words)))
                } else {
                    proof {
                        assert(set =~= set![f]);
                    }
                    self.insert(Expr::Byte(f))
                }
            },
        }
    }

    /// Matches the bytes, followed by a string of `tail`.
    pub fn mk_byte_concat(&mut self, bytes: &[u8], tail: ExprRef) -> (r: ExprRef)
        requires
            old(self).wf(),
            old(self).valid(tail),
        ensures
            final(self).wf(),
            final(self).keeps(old(self)),
            final(self).adds_no_lookahead(old(self)),
            final(self).valid(r),
            old(self).clear(tail) ==> final(self).clear(r),
            forall|s: Reading| #[trigger]
                final(self).lang(r, s) == lang::cat(
                    lang::literal(bytes@, s),
                    old(self).lang(tail, s),
                ),
    {
        proof {
            self.lemma_constants();
        }
        if tail == ExprRef::no_match() {
            proof {
                assert forall|s: Reading| #[trigger]
                    lang::cat(lang::literal(bytes@, s), lang::none()) == lang::none() by {
                    lang::cat_none(lang::literal(bytes@, s));
                }
            }
            return tail;
        }
        if bytes.len() == 0 {
            proof {
                assert(bytes@ =~= Seq::empty());
                assert forall|s: Reading| #[trigger]
                    lang::cat(lang::literal(bytes@, s), self.lang(tail, s)) == self.lang(
                    tail,
                    s,
                ) by {
                    lang::literal_empty(s);
                    lang::cat_epsilon_left(self.lang(tail, s));
                }
            }
            return tail;
        }
        let mut all: Vec<u8> = copied(bytes);
        let mut rest: ExprRef = tail;
        match self.get(tail) {
            Expr::ByteConcat(more, t) => {
                let mut more = copied(more);
                proof {
                    assert forall|s: Reading| #[trigger]
                        lang::cat(lang::literal(bytes@ + more@, s), self.lang(*t, s)) == lang::cat(
                        lang::literal(bytes@, s),
                        self.lang(tail, s),
                    ) by {
                        lang::literal_concat(bytes@, more@, s);
                        lang::cat_assoc(
                            lang::literal(bytes@, s),
                            lang::literal(more@, s),
                            self.lang(*t, s),
                        );
                    }
                }
                all.append(&mut more);
                rest = *t;
            },
            Expr::Byte(b) => {
                let b: u8 = *b;
                proof {
                    let t = ExprRef { id: 0 };
                    assert(bytes@.push(b) =~= bytes@ + seq![b]);
                    assert forall|s: Reading| #[trigger]
                        lang::cat(lang::literal(bytes@.push(b), s), self.lang(t, s)) == lang::cat(
                        lang::literal(bytes@, s),
                        self.lang(tail, s),
                    ) by {
                        lang::literal_concat(bytes@, seq![b], s);
                        lang::literal_one(b, s);
                        lang::cat_epsilon_right(lang::literal(bytes@.push(b), s));
                    }
                }
                all.push(b);
                rest = ExprRef::empty_string();
            },
            _ => {},
        }
        assert(self.clear(tail) ==> lang::live(self.tree(rest)));
        let ghost joined = all@;
        let r = if all.len() == 1 && rest == ExprRef::empty_string() {
            let b: u8 = all[0];
            proof {
                assert(joined =~= seq![b]);
                assert forall|s: Reading| #[trigger]
                    lang::one_of(set![b], s) == lang::cat(
                    lang::literal(joined, s),
                    old(self).lang(rest, s),
                ) by {
                    lang::literal_one(b, s);
                    lang::cat_epsilon_right(lang::literal(joined, s));
                }
            }
            self.mk_byte(b)
        } else {
            self.insert(Expr::ByteConcat(all, rest))
        };
        proof {
            assert forall|s: Reading| #[trigger]
                self.lang(r, s) == lang::cat(
                lang::literal(bytes@, s),
                old(self).lang(tail, s),
            ) by {
                assert(self.lang(r, s) == lang::cat(
                    lang::literal(joined, s),
                    old(self).lang(rest, s),
                ));
            }
        }
        r
    }

    /// Matches this string of bytes only.
    pub fn mk_byte_literal(&mut self, bytes: &[u8]) -> (r: ExprRef)
        requires
            old(self).wf(),
        ensures
            final(self).wf(),
            final(self).keeps(old(self)),
            final(self).adds_no_lookahead(old(self)),
            final(self).valid(r),
            final(self).clear(r),
            forall|s: Reading| #[trigger] final(self).lang(r, s) == lang::literal(bytes@, s),
    {
        proof {
            self.lemma_constants();
            assert forall|s: Reading| #[trigger]
                lang::literal(bytes@, s) == lang::cat(
                lang::literal(bytes@, s),
                lang::epsilon(),
            ) by {
                lang::cat_epsilon_right(lang::literal(bytes@, s));
            }
        }
        self.mk_byte_concat(bytes, ExprRef::empty_string())
    }

    /// Matches this string only.
    pub fn mk_literal(&mut self, text: &str) -> (r: ExprRef)
        requires
            old(self).wf(),
        ensures
            final(self).wf(),
            final(self).keeps(old(self)),
            final(self).adds_no_lookahead(old(self)),
            final(self).valid(r),
            final(self).clear(r),
            forall|s: Reading| #[trigger]
                final(self).lang(r, s) == lang::literal(vstd::utf8::encode_utf8(text@), s),
    {
        self.mk_byte_literal(text.as_bytes())
    }

    /// A string of one of the expressions.
    spec fn any(&self, v: Seq<ExprRef>, s: Reading, w: Seq<u8>) -> bool {
        exists|e: ExprRef| #[trigger] v.contains(e) && self.lang(e, s)(w)
    }

    /// A writing that all of the expressions match.
    spec fn all(&self, v: Seq<ExprRef>, s: Reading, w: Seq<u8>) -> bool {
        &&& lang::written(s, w)
        &&& forall|e: ExprRef| #[trigger] v.contains(e) ==> self.lang(e, s)(w)
    }

    proof fn lemma_any(&self, v: Seq<ExprRef>, s: Reading, w: Seq<u8>)
        ensures
            lang::union(self.langs(v, s))(w) == self.any(v, s, w),
            lang::union(lang::languages(self.trees(v), s))(w) == self.any(v, s, w),
    {
        let ls = self.langs(v, s);
        assert(lang::languages(self.trees(v), s) =~= ls);
        if lang::union(ls)(w) {
            let i = choose|i: int| 0 <= i < ls.len() && (#[trigger] ls[i])(w);
            assert(v.contains(v[i]));
        }
        if self.any(v, s, w) {
            let e = choose|e: ExprRef| #[trigger] v.contains(e) && self.lang(e, s)(w);
            let i = v.index_of(e);
            assert(ls[i](w));
        }
    }

    proof fn lemma_all(&self, v: Seq<ExprRef>, s: Reading, w: Seq<u8>)
        ensures
            lang::intersection(self.langs(v, s), s)(w) == self.all(v, s, w),
            lang::intersection(lang::languages(self.trees(v), s), s)(w) == self.all(v, s, w),
    {
        let ls = self.langs(v, s);
        assert(lang::languages(self.trees(v), s) =~= ls);
        if lang::intersection(ls, s)(w) {
            assert forall|e: ExprRef| #[trigger] v.contains(e) implies self.lang(e, s)(w) by {
                let i = v.index_of(e);
                assert(ls[i](w));
            }
        }
        if self.all(v, s, w) {
            assert forall|i: int| 0 <= i < ls.len() implies (#[trigger] ls[i])(w) by {
                assert(v.contains(v[i]));
            }
        }
    }

    /// The expressions of `args`, with those that are alternatives replaced by their parts.
    fn flatten(&self, args: &[ExprRef], or: bool) -> (r: Vec<ExprRef>)
        requires
            self.wf(),
            self.all_valid(args@),
        ensures
            self.all_valid(r@),
            or && self.all_clear(args@) ==> self.all_clear(r@),
            !or ==> forall|k: int|
                0 <= k < args@.len() && !(self.tree(#[trigger] args@[k]) is And) ==> r@.contains(
                    args@[k],
                ),
            or ==> forall|s: Reading, w: Seq<u8>| #[trigger]
                self.any(r@, s, w) == self.any(args@, s, w),
            !or ==> forall|s: Reading, w: Seq<u8>| #[trigger]
                self.all(r@, s, w) == self.all(args@, s, w),
    {
        let mut r: Vec<ExprRef> = Vec::new();
        let mut i: usize = 0;
        proof {
            assert(args@.take(0) =~= r@);
        }
        while i < args.len()
            invariant
                i <= args@.len(),
                self.wf(),
                self.all_valid(args@),
                self.all_valid(r@),
                or && self.all_clear(args@) ==> self.all_clear(r@),
                !or ==> forall|k: int|
                    0 <= k < i && !(self.tree(#[trigger] args@[k]) is And) ==> r@.contains(args@[k]),
                or ==> forall|s: Reading, w: Seq<u8>| #[trigger]
                    self.any(r@, s, w) == self.any(args@.take(i as int), s, w),
                !or ==> forall|s: Reading, w: Seq<u8>| #[trigger]
                    self.all(r@, s, w) == self.all(args@.take(i as int), s, w),
            decreases args@.len() - i,
        {
            let e: ExprRef = args[i];
            let ghost before = r@;
            match (self.get(e), or) {
                (Expr::Or(v), true) => {
                    let mut more = copied(v);
                    r.append(&mut more);
                    proof {
                        assert(r@ =~= before + v@);
                        if self.all_clear(args@) {
                            self.lemma_constants();
                            assert(self.clear(args@[i as int]));
                            assert forall|k: int| 0 <= k < r@.len() implies self.clear(
                                #[trigger] r@[k],
                            ) by {
                                if k >= before.len() {
                                    assert(lang::live(self.trees(v@)[k - before.len()]));
                                }
                            }
                        }
                        assert forall|s: Reading, w: Seq<u8>| #[trigger]
                            self.any(r@, s, w) == self.any(args@.take(i + 1), s, w) by {
                            lang::language_or(self.trees(v@), s);
                            self.lemma_any(v@, s, w);
                            self.lemma_any_push(args@, i as int, s, w);
                            self.lemma_any_add(before, v@, s, w);
                            assert(self.any(before, s, w) == self.any(args@.take(i as int), s, w));
                        }
                    }
                },
                (Expr::And(v), false) => {
                    let mut more = copied(v);
                    r.append(&mut more);
                    proof {
                        assert(r@ =~= before + v@);
                        assert forall|k: int|
                            0 <= k < i + 1 && !(self.tree(#[trigger] args@[k]) is And) implies r@.contains(
                        args@[k]) by {
                            assert(before.contains(args@[k]));
                            assert(r@[before.index_of(args@[k])] == args@[k]);
                        }
                        assert forall|s: Reading, w: Seq<u8>| #[trigger]
                            self.all(r@, s, w) == self.all(args@.take(i + 1), s, w) by {
                            lang::language_and(self.trees(v@), s);
                            self.lemma_all(v@, s, w);
                            self.lemma_any_push(args@, i as int, s, w);
                            self.lemma_any_add(before, v@, s, w);
                            assert(self.all(before, s, w) == self.all(args@.take(i as int), s, w));
                        }
                    }
                },
                _ => {
                    r.push(e);
                    proof {
                        assert(self.all_clear(args@) ==> self.clear(args@[i as int]));
                        if !or {
                            assert forall|k: int|
                                0 <= k < i + 1 && !(self.tree(
                                    #[trigger] args@[k],
                                ) is And) implies r@.contains(args@[k]) by {
                                if k < i {
                                    assert(before.contains(args@[k]));
                                    assert(r@[before.index_of(args@[k])] == args@[k]);
                                } else {
                                    assert(r@[before.len() as int] == e);
                                }
                            }
                        }
                        assert(r@.take(before.len() as int) =~= before);
                        assert(r@.take(before.len() as int + 1) =~= r@);
                        if or {
                            assert forall|s: Reading, w: Seq<u8>| #[trigger]
                                self.any(r@, s, w) == self.any(args@.take(i + 1), s, w) by {
                                self.lemma_any_push(r@, before.len() as int, s, w);
                                self.lemma_any_push(args@, i as int, s, w);
                                assert(self.any(before, s, w) == self.any(
                                    args@.take(i as int),
                                    s,
                                    w,
                                ));
                            }
                        } else {
                            assert forall|s: Reading, w: Seq<u8>| #[trigger]
                                self.all(r@, s, w) == self.all(args@.take(i + 1), s, w) by {
                                self.lemma_any_push(r@, before.len() as int, s, w);
                                self.lemma_any_push(args@, i as int, s, w);
                                assert(self.all(before, s, w) == self.all(
                                    args@.take(i as int),
                                    s,
                                    w,
                                ));
                            }
                        }
                    }
                },
            }
            i = i + 1;
        }
        proof {
            assert(args@.take(i as int) =~= args@);
        }
        r
    }

    /// One expression more in a list.
    proof fn lemma_any_push(&self, v: Seq<ExprRef>, i: int, s: Reading, w: Seq<u8>)
        requires
            0 <= i < v.len(),
        ensures
            self.any(v.take(i + 1), s, w) == (self.any(v.take(i), s, w) || self.lang(v[i], s)(w)),
            self.all(v.take(i + 1), s, w) == (self.all(v.take(i), s, w) && self.lang(v[i], s)(w)),
    {
        let a = v.take(i);
        let b = v.take(i + 1);
        assert forall|e: ExprRef|
            #![trigger a.contains(e)]
            #![trigger b.contains(e)]
            b.contains(e) <==> a.contains(e) || e == v[i] by {
            if b.contains(e) {
                let k = b.index_of(e);
                if k < i {
                    assert(a[k] == e);
                }
            }
            if a.contains(e) {
                let k = a.index_of(e);
                assert(b[k] == e);
            }
            assert(b[i] == v[i]);
        }
        assert(b.contains(v[i]));
    }

    /// Several expressions more in a list.
    proof fn lemma_any_add(&self, a: Seq<ExprRef>, b: Seq<ExprRef>, s: Reading, w: Seq<u8>)
        ensures
            self.any(a + b, s, w) == (self.any(a, s, w) || self.any(b, s, w)),
            self.all(a + b, s, w) == (self.all(a, s, w) && self.all(b, s, w)),
    {
        let c = a + b;
        assert forall|e: ExprRef|
            #![trigger a.contains(e)]
            #![trigger b.contains(e)]
            #![trigger c.contains(e)]
            c.contains(e) <==> a.contains(e) || b.contains(e) by {
            if c.contains(e) {
                let k = c.index_of(e);
                if k < a.len() {
                    assert(a[k] == e);
                } else {
                    assert(b[k - a.len()] == e);
                }
            }
            if a.contains(e) {
                assert(c[a.index_of(e)] == e);
            }
            if b.contains(e) {
                assert(c[a.len() + b.index_of(e)] == e);
            }
        }
    }

    /// Matches what one of the expressions matches.
    pub fn mk_or(&mut self, args: &[ExprRef]) -> (r: ExprRef)
        requires
            old(self).wf(),
            old(self).all_valid(args@),
        ensures
            final(self).wf(),
            final(self).keeps(old(self)),
            final(self).adds_no_lookahead(old(self)),
            final(self).valid(r),
            args@.len() == 0 ==> r.id == 1,
            old(self).all_clear(args@) ==> final(self).clear(r),
            forall|s: Reading| #[trigger]
                final(self).lang(r, s) == lang::union(old(self).langs(args@, s)),
    {
        if args.len() == 0 {
            proof {
                self.lemma_constants();
                assert forall|s: Reading| #[trigger]
                    self.lang(ExprRef { id: 1 }, s) == lang::union(old(self).langs(args@, s)) by {
                    assert(lang::none() =~= lang::union(old(self).langs(args@, s)));
                }
            }
            return ExprRef::no_match();
        }
        let flat = self.flatten(args, true);
        proof {
            self.lemma_constants();
        }
        let mut words: Vec<u32> = byteset_256();
        let mut rest: Vec<ExprRef> = Vec::new();
        let mut i: usize = 0;
        proof {
            assert(byteset_of(words@) =~= Set::empty());
            assert forall|s: Reading, w: Seq<u8>| #[trigger]
                self.any(flat@.take(0), s, w) == (lang::one_of(byteset_of(words@), s)(w)
                || self.any(rest@, s, w)) by {}
        }
        while i < flat.len()
            invariant
                i <= flat@.len(),
                self.wf(),
                self.all_valid(flat@),
                self.tree(ExprRef { id: 1 }) == Rx::NoMatch,
                forall|e: ExprRef| #[trigger] rest@.contains(e) ==> self.valid(e),
                self.all_clear(flat@) ==> forall|e: ExprRef| #[trigger]
                    rest@.contains(e) ==> lang::live(self.tree(e)),
                words@.len() == crate::byteset::BYTESET_WORDS,
                forall|s: Reading, w: Seq<u8>| #[trigger]
                    self.any(flat@.take(i as int), s, w) == (lang::one_of(byteset_of(words@), s)(w)
                        || self.any(rest@, s, w)),
            decreases flat@.len() - i,
        {
            let e: ExprRef = flat[i];
            let ghost set = byteset_of(words@);
            let ghost before = rest@;
            match self.get(e) {
                Expr::NoMatch => {},
                Expr::Byte(b) => {
                    byteset_set(&mut words, *b);
                    proof {
                        assert(set.insert(*b) =~= set.union(set![*b]));
                    }
                },
                Expr::ByteSet(more) => {
                    byteset_union(&mut words, more);
                },
                _ => {
                    insert_sorted(&mut rest, e);
                },
            }
            proof {
                assert(self.all_clear(flat@) ==> self.clear(flat@[i as int]));
                assert forall|s: Reading, w: Seq<u8>| #[trigger]
                    self.any(flat@.take(i + 1), s, w) == (lang::one_of(byteset_of(words@), s)(w)
                    || self.any(rest@, s, w)) by {
                    self.lemma_any_push(flat@, i as int, s, w);
                    assert(self.any(flat@.take(i as int), s, w) == (lang::one_of(set, s)(w)
                        || self.any(before, s, w)));
                    match self.tree(e) {
                        Rx::NoMatch => {
                            assert(!self.lang(e, s)(w));
                        },
                        Rx::ByteSet(more) => {
                            lemma_one_of_union(set, more, s, w);
                        },
                        _ => {
                            assert(self.any(rest@, s, w) == (self.any(before, s, w) || self.lang(
                                e,
                                s,
                            )(w))) by {
                                assert(rest@.contains(e));
                            }
                        },
                    }
                }
            }
            i = i + 1;
        }
        let ghost alternatives = rest@;
        let ghost set = byteset_of(words@);
        let bytes = self.mk_byte_set(&words);
        if bytes != ExprRef::no_match() {
            insert_sorted(&mut rest, bytes);
        }
        proof {
            self.lemma_constants();
            assert(flat@.take(i as int) =~= flat@);
            assert forall|s: Reading, w: Seq<u8>| #[trigger]
                self.any(rest@, s, w) == lang::union(old(self).langs(args@, s))(w) by {
                old(self).lemma_any(args@, s, w);
                assert(old(self).any(flat@, s, w) == (lang::one_of(set, s)(w) || old(self).any(
                    alternatives,
                    s,
                    w,
                )));
                assert(self.lang(bytes, s)(w) == lang::one_of(set, s)(w));
                assert(self.any(alternatives, s, w) == old(self).any(alternatives, s, w));
                if bytes != (ExprRef { id: 1 }) {
                    assert(rest@.contains(bytes));
                    assert(self.any(rest@, s, w) == (self.any(alternatives, s, w) || self.lang(
                        bytes,
                        s,
                    )(w)));
                } else {
                    assert(!self.lang(bytes, s)(w));
                }
            }
        }
        let ghost mid = *self;
        let ghost joined = rest@;
        proof {
            if old(self).all_clear(args@) {
                assert forall|e: ExprRef| #[trigger] joined.contains(e) implies lang::live(
                    self.tree(e),
                ) by {
                    if alternatives.contains(e) {
                        assert(old(self).valid(e));
                    }
                }
                assert forall|k: int| 0 <= k < joined.len() implies lang::live(
                    #[trigger] self.trees(joined)[k],
                ) by {
                    assert(joined.contains(joined[k]));
                }
            }
        }
        let r = if rest.len() == 0 {
            proof {
                assert forall|s: Reading| #[trigger]
                    self.lang(ExprRef { id: 1 }, s) == lang::union(old(self).langs(args@, s)) by {
                    assert forall|w: Seq<u8>|
                        !(#[trigger] lang::union(old(self).langs(args@, s))(w)) by {
                        assert(!self.any(rest@, s, w));
                    }
                    assert(lang::none() =~= lang::union(old(self).langs(args@, s)));
                }
            }
            ExprRef::no_match()
        } else if rest.len() == 1 {
            let only: ExprRef = rest[0];
            proof {
                assert(rest@.contains(only));
                assert forall|s: Reading| #[trigger]
                    self.lang(only, s) == lang::union(old(self).langs(args@, s)) by {
                    assert forall|w: Seq<u8>| #[trigger]
                        self.lang(only, s)(w) == lang::union(old(self).langs(args@, s))(w) by {
                        assert(self.any(rest@, s, w) == self.lang(only, s)(w));
                    }
                    assert(self.lang(only, s) =~= lang::union(old(self).langs(args@, s)));
                }
            }
            only
        } else {
            proof {
                assert forall|k: int| 0 <= k < rest@.len() implies self.valid(
                    #[trigger] rest@[k],
                ) by {
                    assert(rest@.contains(rest@[k]));
                }
            }
            let r = self.insert(Expr::Or(rest));
            proof {
                assert forall|s: Reading| #[trigger]
                    self.lang(r, s) == lang::union(old(self).langs(args@, s)) by {
                    lang::language_or(mid.trees(joined), s);
                    assert forall|w: Seq<u8>| #[trigger]
                        self.lang(r, s)(w) == lang::union(old(self).langs(args@, s))(w) by {
                        mid.lemma_any(joined, s, w);
                        assert(mid.any(joined, s, w) == lang::union(old(self).langs(args@, s))(w));
                    }
                    assert(self.lang(r, s) =~= lang::union(old(self).langs(args@, s)));
                }
            }
            r
        };
        r
    }

    /// Matches what all of the expressions match, of the writings of strings.
    pub fn mk_and(&mut self, args: &[ExprRef]) -> (r: ExprRef)
        requires
            old(self).wf(),
            old(self).all_valid(args@),
        ensures
            final(self).wf(),
            final(self).keeps(old(self)),
            final(self).adds_no_lookahead(old(self)),
            final(self).valid(r),
            forall|k: int| 0 <= k < args@.len() && (#[trigger] args@[k]).id == 1 ==> r.id == 1,
            forall|k: int|
                0 <= k < args@.len() && lang::live(old(self).tree(#[trigger] args@[k])) ==> r.id == 1
                    || lang::guarded(final(self).tree(r), old(self).tree(args@[k])),
            forall|s: Reading| #[trigger]
                final(self).lang(r, s) == lang::intersection(old(self).langs(args@, s), s),
    {
        let flat = self.flatten(args, false);
        let mut rest: Vec<ExprRef> = Vec::new();
        let mut i: usize = 0;
        while i < flat.len()
            invariant
                i <= flat@.len(),
                self.wf(),
                *self == *old(self),
                self.all_valid(flat@),
                self.all_valid(args@),
                forall|e: ExprRef| #[trigger] rest@.contains(e) ==> self.valid(e),
                forall|k: int| 0 <= k < i ==> (#[trigger] flat@[k]).id != 1,
                forall|k: int|
                    0 <= k < i && lang::live(self.tree(#[trigger] flat@[k])) ==> rest@.contains(
                        flat@[k],
                    ),
                forall|s: Reading, w: Seq<u8>| #[trigger]
                    self.all(flat@, s, w) == self.all(args@, s, w),
                forall|s: Reading, w: Seq<u8>| #[trigger]
                    self.all(flat@.take(i as int), s, w) == self.all(rest@, s, w),
            decreases flat@.len() - i,
        {
            let e: ExprRef = flat[i];
            let ghost before = rest@;
            proof {
                self.lemma_constants();
            }
            if e == ExprRef::no_match() {
                proof {
                    assert(flat@.contains(e));
                    assert forall|s: Reading| #[trigger]
                        self.lang(e, s) == lang::intersection(old(self).langs(args@, s), s) by {
                        assert forall|w: Seq<u8>|
                            !(#[trigger] lang::intersection(old(self).langs(args@, s), s)(w)) by {
                            self.lemma_all(args@, s, w);
                            assert(!self.lang(e, s)(w));
                            assert(!self.all(flat@, s, w));
                        }
                        assert(lang::none() =~= lang::intersection(old(self).langs(args@, s), s));
                    }
                }
                return e;
            }
            let everything: bool = match self.get(e) {
                Expr::Not(a) => *a == ExprRef::no_match(),
                _ => false,
            };
            if !everything {
                insert_sorted(&mut rest, e);
            }
            proof {
                assert forall|s: Reading, w: Seq<u8>| #[trigger]
                    self.all(flat@.take(i + 1), s, w) == self.all(rest@, s, w) by {
                    self.lemma_any_push(flat@, i as int, s, w);
                    assert(self.all(flat@.take(i as int), s, w) == self.all(before, s, w));
                    if everything {
                        assert(lang::language(Rx::NoMatch, s) == lang::none());
                        assert(self.tree(e) == Rx::Not(Box::new(Rx::NoMatch)));
                        assert(self.lang(e, s)(w) == lang::written(s, w));
                    } else {
                        assert(rest@.contains(e));
                    }
                }
            }
            i = i + 1;
        }
        proof {
            assert(flat@.take(i as int) =~= flat@);
            assert forall|s: Reading, w: Seq<u8>| #[trigger]
                self.all(rest@, s, w) == lang::intersection(old(self).langs(args@, s), s)(w) by {
                self.lemma_all(args@, s, w);
                assert(self.all(flat@, s, w) == self.all(args@, s, w));
            }
        }
        let ghost joined = rest@;
        proof {
            self.lemma_constants();
            assert forall|k: int| 0 <= k < args@.len() implies (#[trigger] args@[k]).id != 1 by {
                if args@[k].id == 1 {
                    assert(args@[k] == ExprRef { id: 1 });
                    assert(flat@.contains(args@[k]));
                    assert(flat@[flat@.index_of(args@[k])].id != 1);
                }
            }
            assert forall|k: int|
                0 <= k < args@.len() && lang::live(
                    self.tree(#[trigger] args@[k]),
                ) implies joined.contains(args@[k]) by {
                assert(flat@.contains(args@[k]));
                assert(flat@[flat@.index_of(args@[k])] == args@[k]);
            }
            assert forall|k: int|
                0 <= k < args@.len() && lang::live(self.tree(#[trigger] args@[k])) implies self.trees(
                joined,
            ).contains(self.tree(args@[k])) by {
                assert(joined.contains(args@[k]));
                assert(self.trees(joined)[joined.index_of(args@[k])] == self.tree(args@[k]));
            }
        }
        if rest.len() == 0 {
            let r = self.mk_not(ExprRef::no_match());
            proof {
                old(self).lemma_constants();
                assert forall|s: Reading| #[trigger]
                    self.lang(r, s) == lang::intersection(old(self).langs(args@, s), s) by {
                    assert forall|w: Seq<u8>| #[trigger]
                        lang::intersection(old(self).langs(args@, s), s)(w) == lang::written(
                        s,
                        w,
                    ) by {
                        assert(old(self).all(joined, s, w) == lang::written(s, w));
                    }
                    assert(lang::complement(lang::none(), s) =~= lang::intersection(
                        old(self).langs(args@, s),
                        s,
                    ));
                }
            }
            r
        } else if rest.len() == 1 {
            let only: ExprRef = rest[0];
            proof {
                assert(rest@.contains(only));
                assert forall|s: Reading| #[trigger]
                    self.lang(only, s) == lang::intersection(old(self).langs(args@, s), s) by {
                    assert forall|w: Seq<u8>| #[trigger]
                        self.lang(only, s)(w) == lang::intersection(old(self).langs(args@, s), s)(
                            w,
                        ) by {
                        if self.lang(only, s)(w) {
                            image::language_written(self.tree(only), s, w);
                        }
                        assert(self.all(rest@, s, w) == self.lang(only, s)(w));
                    }
                    assert(self.lang(only, s) =~= lang::intersection(old(self).langs(args@, s), s));
                }
            }
            only
        } else {
            proof {
                assert forall|k: int| 0 <= k < rest@.len() implies self.valid(
                    #[trigger] rest@[k],
                ) by {
                    assert(rest@.contains(rest@[k]));
                }
            }
            let r = self.insert(Expr::And(rest));
            proof {
                assert forall|s: Reading| #[trigger]
                    self.lang(r, s) == lang::intersection(old(self).langs(args@, s), s) by {
                    lang::language_and(old(self).trees(joined), s);
                    assert forall|w: Seq<u8>| #[trigger]
                        self.lang(r, s)(w) == lang::intersection(old(self).langs(args@, s), s)(w) by {
                        old(self).lemma_all(joined, s, w);
                        assert(old(self).all(joined, s, w) == lang::intersection(
                            old(self).langs(args@, s),
                            s,
                        )(w));
                    }
                    assert(self.lang(r, s) =~= lang::intersection(old(self).langs(args@, s), s));
                }
            }
            r
        }
    }

    /// Matches what the expression does not match, of the writings of strings.
    pub fn mk_not(&mut self, e: ExprRef) -> (r: ExprRef)
        requires
            old(self).wf(),
            old(self).valid(e),
        ensures
            final(self).wf(),
            final(self).keeps(old(self)),
            final(self).adds_no_lookahead(old(self)),
            final(self).valid(r),
            forall|s: Reading| #[trigger]
                final(self).lang(r, s) == lang::complement(old(self).lang(e, s), s),
    {
        match self.get(e) {
            Expr::Not(a) => {
                let a: ExprRef = *a;
                proof {
                    assert forall|s: Reading| #[trigger]
                        self.lang(a, s) == lang::complement(self.lang(e, s), s) by {
                        assert forall|w: Seq<u8>| #[trigger]
                            self.lang(a, s)(w) == lang::complement(self.lang(e, s), s)(w) by {
                            if self.lang(a, s)(w) {
                                image::language_written(self.tree(a), s, w);
                            }
                        }
                        assert(self.lang(a, s) =~= lang::complement(self.lang(e, s), s));
                    }
                }
                a
            },
            _ => {
                let r = self.insert(Expr::Not(e));
                proof {
                    assert forall|s: Reading| #[trigger]
                        self.lang(r, s) == lang::complement(old(self).lang(e, s), s) by {
                        assert(self.lang(r, s) =~= lang::complement(old(self).lang(e, s), s));
                    }
                }
                r
            },
        }
    }

    /// Matches what the expression matches; the part that it matches can be told apart.
    pub fn mk_lookahead(&mut self, e: ExprRef, offset: u32) -> (r: ExprRef)
        requires
            old(self).wf(),
            old(self).valid(e),
        ensures
            final(self).wf(),
            final(self).keeps(old(self)),
            final(self).valid(r),
            final(self).node(r) == Expr::Lookahead(e, offset),
            old(self).clear(e) && e.id != 1 ==> final(self).clear(r),
            final(self).tree(r) == Rx::Lookahead(Box::new(old(self).tree(e)), offset as nat),
            forall|s: Reading| #[trigger] final(self).lang(r, s) == old(self).lang(e, s),
    {
        self.insert(Expr::Lookahead(e, offset))
    }

    /// Matches at least `min` and at most `max` strings of the expression, one after another;
    /// `u32::MAX` means that there is no upper bound.
    pub fn mk_repeat(&mut self, e: ExprRef, min: u32, max: u32) -> (r: ExprRef)
        requires
            old(self).wf(),
            old(self).valid(e),
        ensures
            final(self).wf(),
            final(self).keeps(old(self)),
            final(self).adds_no_lookahead(old(self)),
            final(self).valid(r),
            old(self).clear(e) ==> final(self).clear(r),
            forall|s: Reading| #[trigger]
                final(self).lang(r, s) == lang::repeat(
                    old(self).lang(e, s),
                    min as nat,
                    max_bound(max),
                ),
    {
        proof {
            self.lemma_constants();
        }
        if min > max {
            proof {
                assert forall|s: Reading| #[trigger]
                    lang::repeat(self.lang(e, s), min as nat, max_bound(max)) == lang::none() by {
                    let l = lang::repeat(self.lang(e, s), min as nat, max_bound(max));
                    assert(l =~= lang::none());
                }
            }
            ExprRef::no_match()
        } else if max == 0 && min == 0 {
            proof {
                assert forall|s: Reading| #[trigger]
                    lang::repeat(self.lang(e, s), 0, Some(0)) == lang::epsilon() by {
                    lemma_repeat_none(self.lang(e, s));
                }
            }
            ExprRef::empty_string()
        } else if max == 1 && min == 1 {
            proof {
                assert forall|s: Reading| #[trigger]
                    lang::repeat(self.lang(e, s), 1, Some(1)) == self.lang(e, s) by {
                    lemma_repeat_once(self.lang(e, s));
                }
            }
            e
        } else if e == ExprRef::empty_string() {
            proof {
                assert forall|s: Reading| #[trigger]
                    lang::repeat(self.lang(e, s), min as nat, max_bound(max))
                    == lang::epsilon() by {
                    lemma_repeat_epsilon(min as nat, max_bound(max));
                }
            }
            e
        } else if e == ExprRef::no_match() {
            proof {
                assert forall|s: Reading| #[trigger]
                    lang::repeat(self.lang(e, s), min as nat, max_bound(max)) == (if min == 0 {
                    lang::epsilon()
                } else {
                    lang::none()
                }) by {
                    lemma_repeat_no_match(min as nat, max_bound(max));
                }
            }
            if min == 0 {
                ExprRef::empty_string()
            } else {
                e
            }
        } else {
            self.insert(Expr::Repeat(e, min, max))
        }
    }

    /// Matches a string of `a`, followed by one of `b`.
    pub fn mk_concat(&mut self, a: ExprRef, b: ExprRef) -> (r: ExprRef)
        requires
            old(self).wf(),
            old(self).valid(a),
            old(self).valid(b),
        ensures
            final(self).wf(),
            final(self).keeps(old(self)),
            final(self).adds_no_lookahead(old(self)),
            final(self).valid(r),
            a.id == 0 ==> r == b,
            b.id == 0 ==> r == a,
            old(self).clear(a) && old(self).clear(b) ==> final(self).clear(r),
            forall|s: Reading| #[trigger]
                final(self).lang(r, s) == lang::cat(old(self).lang(a, s), old(self).lang(b, s)),
        decreases a.id,
    {
        proof {
            self.lemma_constants();
        }
        if a == ExprRef::no_match() || b == ExprRef::empty_string() {
            proof {
                assert forall|s: Reading| #[trigger]
                    self.lang(a, s) == lang::cat(self.lang(a, s), self.lang(b, s)) by {
                    lang::cat_none(self.lang(b, s));
                    lang::cat_epsilon_right(self.lang(a, s));
                }
            }
            return a;
        }
        if b == ExprRef::no_match() || a == ExprRef::empty_string() {
            proof {
                assert forall|s: Reading| #[trigger]
                    self.lang(b, s) == lang::cat(self.lang(a, s), self.lang(b, s)) by {
                    lang::cat_none(self.lang(a, s));
                    lang::cat_epsilon_left(self.lang(b, s));
                }
            }
            return b;
        }
        match self.get(a) {
            Expr::Concat(x, y) => {
                let x: ExprRef = *x;
                let y: ExprRef = *y;
                let rest = self.mk_concat(y, b);
                let r = self.mk_concat(x, rest);
                proof {
                    assert forall|s: Reading| #[trigger]
                        self.lang(r, s) == lang::cat(
                        old(self).lang(a, s),
                        old(self).lang(b, s),
                    ) by {
                        lang::cat_assoc(
                            old(self).lang(x, s),
                            old(self).lang(y, s),
                            old(self).lang(b, s),
                        );
                    }
                }
                r
            },
            Expr::ByteConcat(bytes, t) => {
                let bytes = copied(bytes);
                let t: ExprRef = *t;
                let rest = self.mk_concat(t, b);
                let r = self.mk_byte_concat(&bytes, rest);
                proof {
                    assert forall|s: Reading| #[trigger]
                        self.lang(r, s) == lang::cat(
                        old(self).lang(a, s),
                        old(self).lang(b, s),
                    ) by {
                        lang::cat_assoc(
                            lang::literal(bytes@, s),
                            old(self).lang(t, s),
                            old(self).lang(b, s),
                        );
                    }
                }
                r
            },
            Expr::Byte(c) => {
                let bytes: Vec<u8> = vec![*c];
                let r = self.mk_byte_concat(&bytes, b);
                proof {
                    assert(bytes@ =~= seq![*c]);
                    assert forall|s: Reading| #[trigger]
                        self.lang(r, s) == lang::cat(
                        old(self).lang(a, s),
                        old(self).lang(b, s),
                    ) by {
                        lang::literal_one(bytes@[0], s);
                    }
                }
                r
            },
            _ => self.insert(Expr::Concat(a, b)),
        }
    }

    /// Matches a string of each expression, one after another.
    pub fn mk_concat_vec(&mut self, args: &[ExprRef]) -> (r: ExprRef)
        requires
            old(self).wf(),
            old(self).all_valid(args@),
        ensures
            final(self).wf(),
            final(self).keeps(old(self)),
            final(self).adds_no_lookahead(old(self)),
            final(self).valid(r),
            args@.len() == 0 ==> r.id == 0,
            old(self).all_clear(args@) ==> final(self).clear(r),
            forall|s: Reading| #[trigger]
                final(self).lang(r, s) == lang::cat_all(old(self).langs(args@, s)),
    {
        let mut r = ExprRef::empty_string();
        let mut i: usize = args.len();
        proof {
            self.lemma_constants();
        }
        while i > 0
            invariant
                i <= args@.len(),
                self.wf(),
                self.keeps(old(self)),
                self.adds_no_lookahead(old(self)),
                self.valid(r),
                i == args@.len() ==> r.id == 0,
                old(self).all_valid(args@),
                old(self).all_clear(args@) ==> self.clear(r),
                forall|s: Reading| #[trigger]
                    self.lang(r, s) == lang::cat_all(old(self).langs(args@, s).skip(i as int)),
            decreases i,
        {
            i = i - 1;
            let ghost before = *self;
            let ghost rest = r;
            r = self.mk_concat(args[i], r);
            proof {
                assert forall|s: Reading| #[trigger]
                    self.lang(r, s) == lang::cat_all(
                    old(self).langs(args@, s).skip(i as int),
                ) by {
                    let ls = old(self).langs(args@, s);
                    assert(ls.skip(i as int).skip(1) =~= ls.skip(i + 1));
                    assert(ls.skip(i as int)[0] == old(self).lang(args@[i as int], s));
                    assert(before.lang(rest, s) == lang::cat_all(ls.skip(i + 1)));
                }
            }
        }
        proof {
            assert forall|s: Reading| #[trigger]
                self.lang(r, s) == lang::cat_all(old(self).langs(args@, s)) by {
                assert(old(self).langs(args@, s).skip(0) =~= old(self).langs(args@, s));
            }
        }
        r
    }

    /// Matches what completes a numeral to a multiple of `divisor` times ten to the power
    /// `-scale`: see [`number::accepts`].
    pub fn mk_remainder_is(
        &mut self,
        divisor: u32,
        remainder: u32,
        scale: u32,
        fractional_part: bool,
    ) -> (r: ExprRef)
        requires
            old(self).wf(),
            0 < divisor,
            remainder <= divisor,
        ensures
            final(self).wf(),
            final(self).keeps(old(self)),
            final(self).adds_no_lookahead(old(self)),
            final(self).valid(r),
            forall|s: Reading, w: Seq<u8>| #[trigger]
                final(self).lang(r, s)(w) == number::spelled(
                    divisor as nat,
                    remainder as nat,
                    scale as nat,
                    fractional_part,
                    lang::numeral_langs(s),
                    w,
                ),
    {
        let forms: Vec<ExprRef> = Vec::new();
        let r = self.mk_spelled_remainder(divisor, remainder, scale, fractional_part, forms);
        proof {
            assert forall|s: Reading| #[trigger]
                lang::form_langs(old(self).trees(forms@), s) == lang::numeral_langs(s) by {
                lang::own_forms(old(self).trees(forms@), s);
            }
        }
        r
    }

    /// Matches what completes a numeral to a multiple of `divisor` times ten to the power `-scale`,
    /// where the expressions of `forms`, if there are any, match its characters: see
    /// [`number::spelled`].
    pub fn mk_spelled_remainder(
        &mut self,
        divisor: u32,
        remainder: u32,
        scale: u32,
        fractional_part: bool,
        forms: Vec<ExprRef>,
    ) -> (r: ExprRef)
        requires
            old(self).wf(),
            0 < divisor,
            remainder <= divisor,
            forms@.len() == 0 || forms@.len() == number::NUMERAL_CHARS,
            old(self).all_valid(forms@),
        ensures
            final(self).wf(),
            final(self).keeps(old(self)),
            final(self).adds_no_lookahead(old(self)),
            final(self).valid(r),
            forall|s: Reading, w: Seq<u8>| #[trigger]
                final(self).lang(r, s)(w) == number::spelled(
                    divisor as nat,
                    remainder as nat,
                    scale as nat,
                    fractional_part,
                    lang::form_langs(old(self).trees(forms@), s),
                    w,
                ),
    {
        let ghost v = forms@;
        let r = self.insert(
            Expr::RemainderIs { divisor, remainder, scale, fractional_part, forms },
        );
        proof {
            assert forall|s: Reading, w: Seq<u8>| #[trigger]
                self.lang(r, s)(w) == number::spelled(
                divisor as nat,
                remainder as nat,
                scale as nat,
                fractional_part,
                lang::form_langs(old(self).trees(v), s),
                w,
            ) by {
                lang::language_numeral(
                    divisor as nat,
                    remainder as nat,
                    scale as nat,
                    fractional_part,
                    old(self).trees(v),
                    s,
                    w,
                );
            }
        }
        r
    }

    /// Matches one of the byte strings, followed by a string of the expression that goes with it.
    pub fn mk_prefix_tree(&mut self, branches: Vec<(Vec<u8>, ExprRef)>) -> (r: ExprRef)
        requires
            old(self).wf(),
            forall|k: int| 0 <= k < branches@.len() ==> old(self).valid((#[trigger] branches@[k]).1),
        ensures
            final(self).wf(),
            final(self).keeps(old(self)),
            final(self).adds_no_lookahead(old(self)),
            final(self).valid(r),
            (forall|k: int|
                0 <= k < branches@.len() ==> old(self).clear((#[trigger] branches@[k]).1))
                ==> final(self).clear(r),
            forall|s: Reading| #[trigger]
                final(self).lang(r, s) == lang::union(
                    branches@.map_values(
                        |b: (Vec<u8>, ExprRef)|
                            lang::cat(lang::literal(b.0@, s), old(self).lang(b.1, s)),
                    ),
                ),
    {
        let mut args: Vec<ExprRef> = Vec::new();
        let mut i: usize = 0;
        while i < branches.len()
            invariant
                i <= branches@.len(),
                args@.len() == i,
                self.wf(),
                self.keeps(old(self)),
                self.adds_no_lookahead(old(self)),
                self.all_valid(args@),
                (forall|k: int|
                    0 <= k < branches@.len() ==> old(self).clear((#[trigger] branches@[k]).1))
                    ==> self.all_clear(args@),
                forall|k: int|
                    0 <= k < branches@.len() ==> old(self).valid((#[trigger] branches@[k]).1),
                forall|s: Reading, k: int|
                    0 <= k < i ==> self.lang(#[trigger] args@[k], s) == lang::cat(
                        #[trigger] lang::literal(branches@[k].0@, s),
                        old(self).lang(branches@[k].1, s),
                    ),
            decreases branches@.len() - i,
        {
            let ghost before = *self;
            let e = self.mk_byte_concat(&branches[i].0, branches[i].1);
            let ghost prefix = args@;
            args.push(e);
            proof {
                if forall|k: int|
                    0 <= k < branches@.len() ==> old(self).clear((#[trigger] branches@[k]).1) {
                    assert(old(self).clear(branches@[i as int].1));
                    assert forall|k: int| 0 <= k < args@.len() implies self.clear(
                        #[trigger] args@[k],
                    ) by {
                        if k < i {
                            assert(args@[k] == prefix[k]);
                            assert(before.valid(prefix[k]) && before.clear(prefix[k]));
                        }
                    }
                }
                assert forall|s: Reading, k: int| 0 <= k < i + 1 implies self.lang(
                    #[trigger] args@[k],
                    s,
                ) == lang::cat(
                    #[trigger] lang::literal(branches@[k].0@, s),
                    old(self).lang(branches@[k].1, s),
                ) by {
                    if k < i {
                        assert(args@[k] == prefix[k]);
                        assert(before.valid(prefix[k]));
                        assert(before.lang(prefix[k], s) == lang::cat(
                            lang::literal(branches@[k].0@, s),
                            old(self).lang(branches@[k].1, s),
                        ));
                    }
                }
            }
            i = i + 1;
        }
        let ghost before = *self;
        let r = self.mk_or(&args);
        proof {
            assert forall|s: Reading| #[trigger]
                self.lang(r, s) == lang::union(
                branches@.map_values(
                    |b: (Vec<u8>, ExprRef)|
                        lang::cat(lang::literal(b.0@, s), old(self).lang(b.1, s)),
                ),
            ) by {
                assert forall|k: int| 0 <= k < args@.len() implies #[trigger] before.langs(
                    args@,
                    s,
                )[k] == lang::cat(
                    lang::literal(branches@[k].0@, s),
                    old(self).lang(branches@[k].1, s),
                ) by {
                    assert(before.lang(args@[k], s) == before.langs(args@, s)[k]);
                }
                assert(before.langs(args@, s) =~= branches@.map_values(
                    |b: (Vec<u8>, ExprRef)|
                        lang::cat(lang::literal(b.0@, s), old(self).lang(b.1, s)),
                ));
            }
        }
        r
    }

    /// Makes room for more expressions.
    pub fn reserve(&mut self, size: usize)
        requires
            old(self).wf(),
        ensures
            final(self).wf(),
            final(self).keeps(old(self)),
            final(self).adds_no_lookahead(old(self)),
            forall|e: ExprRef| #[trigger] final(self).valid(e) == old(self).valid(e),
    {
        self.nodes.reserve(size);
        self.nullable.reserve(size);
    }
}

impl Clone for ExprSet {
    fn clone(&self) -> (r: ExprSet)
        ensures
            self.wf() ==> r.wf(),
            forall|e: ExprRef| #[trigger] r.valid(e) == self.valid(e),
            self.wf() ==> forall|e: ExprRef| #[trigger] r.tree(e) == self.tree(e),
            self.wf() ==> r.keeps(self),
    {
        self.copy()
    }
}

} // verus!
