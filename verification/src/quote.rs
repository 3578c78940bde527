//! Escaping of expressions: from an expression to the one of its escaped strings.

use crate::byteset;
use crate::byteset::{
    byteset_256, byteset_clear, byteset_contains, byteset_from_range, byteset_set,
};
use crate::escape;
use crate::escape::{EscapeView, FallbackFormat, FallbackView, StringEscapeOptions};
use crate::expr;
use crate::expr::{get_args, Expr, ExprRef, ExprSet};
use crate::image;
use crate::lang;
use crate::lang::{Reading, Rx};
use crate::number;
use crate::number::{numeral_byte, NUMERAL_CHARS};
use crate::sorting;
use crate::util::{copied, same_refs};
use std::collections::HashMap;
use vstd::prelude::*;

verus! {

broadcast use vstd::std_specs::hash::group_hash_axioms;

/// `w` is read, byte by byte through `s`, as a sequence that is listed for `b`.
spec fn by_sequence(o: EscapeView, b: u8, s: Reading, w: Seq<u8>) -> bool {
    exists|f: Seq<u8>| #[trigger] o.sequences.contains((b, f)) && lang::writes(s, f, w)
}

/// `w` is read, byte by byte through `s`, as the fallback form of `b`.
spec fn by_hex(f: FallbackView, b: u8, s: Reading, w: Seq<u8>) -> bool {
    exists|v: Seq<u8>| #[trigger] escape::hex_form(f, b, v) && lang::writes(s, v, w)
}

/// How `s` writes what the grammar writes.
pub open spec fn through(o: EscapeView, s: Reading) -> Reading {
    lang::compose(s, escape::reading(o))
}

proof fn lemma_through_escaped(o: EscapeView, s: Reading, b: u8, w: Seq<u8>)
    requires
        o.must_escape.contains(b),
    ensures
        through(o, s)(b, w) == (by_sequence(o, b, s, w) || (o.fallback matches Some(f)
            && escape::covers(f, b) && by_hex(f, b, s, w))),
{
    let esc = escape::reading(o);
    if through(o, s)(b, w) {
        let f = choose|f: Seq<u8>| #[trigger] esc(b, f) && lang::writes(s, f, w);
        if !o.sequences.contains((b, f)) {
            assert(escape::hex_form(o.fallback->0, b, f));
        }
    }
    if by_sequence(o, b, s, w) {
        let f = choose|f: Seq<u8>| #[trigger]
            o.sequences.contains((b, f)) && lang::writes(s, f, w);
        assert(esc(b, f));
    }
    if o.fallback matches Some(f) && escape::covers(f, b) && by_hex(f, b, s, w) {
        let v = choose|v: Seq<u8>| #[trigger]
            escape::hex_form(o.fallback->0, b, v) && lang::writes(s, v, w);
        assert(esc(b, v));
    }
}

proof fn lemma_through_literal(o: EscapeView, s: Reading, b: u8, w: Seq<u8>)
    requires
        !o.must_escape.contains(b),
    ensures
        through(o, s)(b, w) == s(b, w),
{
    let esc = escape::reading(o);
    lang::literal_one(b, s);
    assert(lang::literal(seq![b], s)(w) == lang::one_of(set![b], s)(w));
    assert(lang::one_of(set![b], s)(w) == s(b, w)) by {
        assert(set![b].contains(b));
    }
    if s(b, w) {
        assert(esc(b, seq![b]));
    }
}

/// The bytes that are hex digits of the value.
spec fn hex_digits(n: int) -> Set<u8> {
    Set::new(|c: u8| escape::is_hex(c, n))
}

/// Matches a single hex digit, in either case.
fn mk_hex_digit(exprset: &mut ExprSet, nibble: u8) -> (r: ExprRef)
    requires
        old(exprset).wf(),
        nibble < 16,
    ensures
        final(exprset).wf(),
        final(exprset).keeps(old(exprset)),
        final(exprset).adds_no_lookahead(old(exprset)),
        final(exprset).valid(r),
        forall|s: Reading| #[trigger]
            final(exprset).lang(r, s) == lang::one_of(hex_digits(nibble as int), s),
{
    if nibble < 10 {
        proof {
            assert(hex_digits(nibble as int) =~= set![(0x30 + nibble) as u8]);
        }
        exprset.mk_byte(0x30 + nibble)
    } else {
        let mut bs: Vec<u32> = byteset_256();
        byteset_set(&mut bs, 0x37 + nibble);
        byteset_set(&mut bs, 0x57 + nibble);
        proof {
            assert(hex_digits(nibble as int) =~= byteset::byteset(bs@));
        }
        exprset.mk_byte_set(bs.as_slice())
    }
}

/// A form is its prefix, two digits and its suffix, one after another.
proof fn lemma_form_literal(p: Seq<u8>, h: u8, l: u8, x: Seq<u8>, s: Reading)
    ensures
        lang::literal(p + seq![h, l] + x, s) == lang::cat(
            lang::literal(p, s),
            lang::cat(
                lang::one_of(set![h], s),
                lang::cat(lang::one_of(set![l], s), lang::literal(x, s)),
            ),
        ),
{
    assert(p + seq![h, l] + x =~= p + (seq![h] + (seq![l] + x)));
    lang::literal_cons(l, x, s);
    lang::literal_cons(h, seq![l] + x, s);
    lang::literal_concat(p, seq![h] + (seq![l] + x), s);
}

proof fn lemma_by_hex(f: FallbackView, b: u8, s: Reading, w: Seq<u8>)
    ensures
        by_hex(f, b, s, w) == lang::cat(
            lang::literal(f.prefix, s),
            lang::cat(
                lang::one_of(hex_digits(b as int / 16), s),
                lang::cat(
                    lang::one_of(hex_digits(b as int % 16), s),
                    lang::literal(f.suffix, s),
                ),
            ),
        )(w),
{
    let high = hex_digits(b as int / 16);
    let low = hex_digits(b as int % 16);
    let p = lang::literal(f.prefix, s);
    let hs = lang::one_of(high, s);
    let ls = lang::one_of(low, s);
    let x = lang::literal(f.suffix, s);
    if by_hex(f, b, s, w) {
        let v = choose|v: Seq<u8>| #[trigger]
            escape::hex_form(f, b, v) && lang::writes(s, v, w);
        let (h, l) = choose|h: u8, l: u8|
            #[trigger] escape::is_hex(h, b as int / 16) && #[trigger] escape::is_hex(
                l,
                b as int % 16,
            ) && v == f.prefix + seq![h, l] + f.suffix;
        lemma_form_literal(f.prefix, h, l, f.suffix, s);
        let h1 = lang::one_of(set![h], s);
        let l1 = lang::one_of(set![l], s);
        assert(lang::literal(v, s)(w));
        let i = lang::cat_split(p, lang::cat(h1, lang::cat(l1, x)), w);
        let w1 = w.skip(i);
        let j = lang::cat_split(h1, lang::cat(l1, x), w1);
        let w2 = w1.skip(j);
        let k = lang::cat_split(l1, x, w2);
        assert(high.contains(h) && s(h, w1.take(j)));
        assert(hs(w1.take(j)));
        assert(low.contains(l) && s(l, w2.take(k)));
        assert(ls(w2.take(k)));
        lang::cat_intro(ls, x, w2.take(k), w2.skip(k));
        lang::cat_intro(hs, lang::cat(ls, x), w1.take(j), w2);
        lang::cat_intro(p, lang::cat(hs, lang::cat(ls, x)), w.take(i), w1);
    }
    if lang::cat(p, lang::cat(hs, lang::cat(ls, x)))(w) {
        let i = lang::cat_split(p, lang::cat(hs, lang::cat(ls, x)), w);
        let w1 = w.skip(i);
        let j = lang::cat_split(hs, lang::cat(ls, x), w1);
        let w2 = w1.skip(j);
        let k = lang::cat_split(ls, x, w2);
        let h = choose|c: u8| #[trigger] high.contains(c) && s(c, w1.take(j));
        let l = choose|c: u8| #[trigger] low.contains(c) && s(c, w2.take(k));
        let h1 = lang::one_of(set![h], s);
        let l1 = lang::one_of(set![l], s);
        assert(set![h].contains(h));
        assert(set![l].contains(l));
        assert(h1(w1.take(j)));
        assert(l1(w2.take(k)));
        lang::cat_intro(l1, x, w2.take(k), w2.skip(k));
        lang::cat_intro(h1, lang::cat(l1, x), w1.take(j), w2);
        lang::cat_intro(p, lang::cat(h1, lang::cat(l1, x)), w.take(i), w1);
        lemma_form_literal(f.prefix, h, l, f.suffix, s);
        let v = f.prefix + seq![h, l] + f.suffix;
        assert(lang::literal(v, s)(w));
        assert(escape::is_hex(h, b as int / 16) && escape::is_hex(l, b as int % 16));
        assert(escape::hex_form(f, b, v));
    }
}

/// Matches the byte in the fallback format: prefix, two hex digits in either case, suffix.
fn mk_fallback_hex(exprset: &mut ExprSet, fb: &FallbackFormat, b: u8) -> (r: ExprRef)
    requires
        old(exprset).wf(),
    ensures
        final(exprset).wf(),
        final(exprset).keeps(old(exprset)),
        final(exprset).adds_no_lookahead(old(exprset)),
        final(exprset).valid(r),
        forall|s: Reading, w: Seq<u8>| #[trigger]
            final(exprset).lang(r, s)(w) == by_hex(fb@, b, s, w),
{
    let prefix = exprset.mk_byte_literal(fb.prefix.as_slice());
    let ghost g1 = *exprset;
    let high = mk_hex_digit(exprset, b / 16);
    let ghost g2 = *exprset;
    let low = mk_hex_digit(exprset, b % 16);
    let ghost g3 = *exprset;
    let suffix = exprset.mk_byte_literal(fb.suffix.as_slice());
    let parts: Vec<ExprRef> = vec![prefix, high, low, suffix];
    let ghost built = *exprset;
    let r = exprset.mk_concat_vec(parts.as_slice());
    proof {
        assert forall|s: Reading, w: Seq<u8>| #[trigger]
            exprset.lang(r, s)(w) == by_hex(fb@, b, s, w) by {
            lemma_by_hex(fb@, b, s, w);
            let ls = built.langs(parts@, s);
            assert(ls.len() == 4);
            assert(g2.tree(prefix) == g1.tree(prefix) && g3.tree(prefix) == g2.tree(prefix));
            assert(g3.tree(high) == g2.tree(high));
            assert(ls[0] == g1.lang(prefix, s));
            assert(ls[1] == g2.lang(high, s));
            assert(ls[2] == g3.lang(low, s));
            assert(ls[3] == built.lang(suffix, s));
            reveal_with_fuel(lang::cat_all, 5);
            let l1 = ls.skip(1);
            let l2 = l1.skip(1);
            let l3 = l2.skip(1);
            assert(l1[0] == ls[1] && l2[0] == ls[2] && l3[0] == ls[3]);
            lang::cat_epsilon_right(ls[3]);
            assert(l3.skip(1).len() == 0);
            assert(lang::cat_all(l3) == ls[3]);
            assert(lang::cat_all(l2) == lang::cat(ls[2], ls[3]));
            assert(lang::cat_all(l1) == lang::cat(ls[1], lang::cat(ls[2], ls[3])));
            assert(lang::cat_all(ls) == lang::cat(
                ls[0],
                lang::cat(ls[1], lang::cat(ls[2], ls[3])),
            ));
        }
    }
    r
}

/// `entry` is the place of the byte among the first `n` sequences, where it has one.
spec fn is_index(sequences: Seq<(u8, Seq<u8>)>, n: int, b: u8, entry: Option<usize>) -> bool {
    match entry {
        Some(k) => k < n && sequences[k as int].0 == b,
        None => forall|k: int| 0 <= k < n ==> (#[trigger] sequences[k]).0 != b,
    }
}

/// An escape grammar in normal form, with what is looked up for each byte.
pub(crate) struct Quoter {
    options: StringEscapeOptions,
    escape_idx: Vec<Option<usize>>,
    must_escape: Vec<bool>,
}

impl Quoter {
    /// The grammar.
    pub closed spec fn grammar(&self) -> EscapeView {
        self.options@
    }

    /// The tables agree with the grammar.
    pub closed spec fn wf(&self) -> bool {
        &&& sorting::strictly_sorted_by_first(self.options@.sequences)
        &&& self.escape_idx@.len() == 256
        &&& self.must_escape@.len() == 256
        &&& forall|b: u8| #[trigger]
            self.options@.must_escape.contains(b) <==> self.must_escape@[b as int]
        &&& forall|b: u8|
            #![trigger self.escape_idx@[b as int]]
            is_index(
                self.options@.sequences,
                self.options@.sequences.len() as int,
                b,
                self.escape_idx@[b as int],
            )
    }

    /// Builds the tables.
    pub(crate) fn new(options: StringEscapeOptions) -> (r: Quoter)
        requires
            sorting::strictly_sorted_by_first(options@.sequences),
        ensures
            r.wf(),
            r.grammar() == options@,
    {
        let ghost o = options@;
        let mut escape_idx: Vec<Option<usize>> = Vec::new();
        let mut must_escape: Vec<bool> = Vec::new();
        let mut n: usize = 0;
        while n < 256
            invariant
                n <= 256,
                escape_idx@.len() == n,
                must_escape@.len() == n,
                forall|k: int| 0 <= k < n ==> #[trigger] escape_idx@[k] is None,
                forall|k: int| 0 <= k < n ==> !#[trigger] must_escape@[k],
            decreases 256 - n,
        {
            escape_idx.push(None);
            must_escape.push(false);
            n = n + 1;
        }
        let mut i: usize = 0;
        while i < options.escape_sequences.len()
            invariant
                o == options@,
                i <= o.sequences.len(),
                escape_idx@.len() == 256,
                sorting::strictly_sorted_by_first(o.sequences),
                forall|b: u8|
                    #![trigger escape_idx@[b as int]]
                    is_index(o.sequences, i as int, b, escape_idx@[b as int]),
            decreases o.sequences.len() - i,
        {
            let ghost before = escape_idx@;
            let b: u8 = options.escape_sequences[i].0;
            escape_idx.set(b as usize, Some(i));
            proof {
                assert(o.sequences[i as int].0 == b);
                assert forall|c: u8|
                    #![trigger escape_idx@[c as int]]
                    is_index(o.sequences, i + 1, c, escape_idx@[c as int]) by {
                    if c != b {
                        assert(escape_idx@[c as int] == before[c as int]);
                    }
                }
            }
            i = i + 1;
        }
        let mut j: usize = 0;
        while j < options.must_escape.len()
            invariant
                o == options@,
                j <= o.must_escape.len(),
                must_escape@.len() == 256,
                forall|b: u8|
                    #![trigger must_escape@[b as int]]
                    must_escape@[b as int] <==> exists|k: int|
                        0 <= k < j && #[trigger] o.must_escape[k] == b,
            decreases o.must_escape.len() - j,
        {
            let ghost before = must_escape@;
            let b: u8 = options.must_escape[j];
            must_escape.set(b as usize, true);
            proof {
                assert forall|c: u8|
                    #![trigger must_escape@[c as int]]
                    must_escape@[c as int] <==> exists|k: int|
                        0 <= k < j + 1 && #[trigger] o.must_escape[k] == c by {
                    assert(o.must_escape[j as int] == b);
                    if c != b {
                        assert(must_escape@[c as int] == before[c as int]);
                    }
                }
            }
            j = j + 1;
        }
        proof {
            assert forall|b: u8| #[trigger]
                o.must_escape.contains(b) <==> must_escape@[b as int] by {
                if must_escape@[b as int] {
                    let k = choose|k: int| 0 <= k < j && #[trigger] o.must_escape[k] == b;
                    assert(o.must_escape[k] == b);
                }
                if o.must_escape.contains(b) {
                    let k = o.must_escape.index_of(b);
                    assert(o.must_escape[k] == b);
                }
            }
        }
        Quoter { options, escape_idx, must_escape }
    }

    /// Appends to `alts` the ways in which the grammar writes a byte that it escapes.
    fn push_forms(&self, exprset: &mut ExprSet, alts: &mut Vec<ExprRef>, b: u8)
        requires
            self.wf(),
            self.grammar().must_escape.contains(b),
            old(exprset).wf(),
            old(exprset).all_valid(old(alts)@),
        ensures
            final(exprset).wf(),
            final(exprset).keeps(old(exprset)),
            final(exprset).adds_no_lookahead(old(exprset)),
            final(exprset).all_valid(final(alts)@),
            forall|s: Reading, w: Seq<u8>| #[trigger]
                lang::union(final(exprset).langs(final(alts)@, s))(w) == (lang::union(
                    old(exprset).langs(old(alts)@, s),
                )(w) || through(self.grammar(), s)(b, w)),
    {
        let ghost o = self.grammar();
        let ghost e0 = *exprset;
        let ghost a0 = alts@;
        match self.escape_idx[b as usize] {
            Some(i) => {
                proof {
                    self.lemma_index(b);
                }
                let sequence: &Vec<u8> = &self.options.escape_sequences[i].1;
                let r = exprset.mk_byte_literal(sequence.as_slice());
                alts.push(r);
                proof {
                    assert forall|s: Reading, w: Seq<u8>| #[trigger]
                        lang::union(exprset.langs(alts@, s))(w) == (lang::union(
                            e0.langs(a0, s),
                        )(w) || by_sequence(o, b, s, w)) by {
                        exprset.lemma_langs_kept(&e0, a0, s);
                        exprset.lemma_union_push(a0, r, s, w);
                        assert(exprset.lang(r, s) == lang::literal(sequence@, s));
                        assert(o.sequences[i as int] == (b, sequence@));
                        assert(o.sequences.contains((b, sequence@)));
                        assert(exprset.lang(r, s)(w) == by_sequence(o, b, s, w)) by {
                            if by_sequence(o, b, s, w) {
                                let f = choose|f: Seq<u8>| #[trigger]
                                    o.sequences.contains((b, f)) && lang::writes(s, f, w);
                                assert(f == sequence@);
                            }
                        }
                    }
                }
            },
            None => {
                proof {
                    self.lemma_index(b);
                }
            },
        }
        let ghost e1 = *exprset;
        let ghost a1 = alts@;
        proof {
            assert(e1.keeps(&e0));
            assert(e1.all_valid(a1)) by {
                assert forall|k: int| 0 <= k < a1.len() implies e1.valid(#[trigger] a1[k]) by {
                    if k < a0.len() {
                        assert(a1[k] == a0[k]);
                        assert(e0.valid(a0[k]));
                    }
                }
            }
            assert forall|s: Reading, w: Seq<u8>| #[trigger]
                lang::union(e1.langs(a1, s))(w) == (lang::union(e0.langs(a0, s))(w)
                    || by_sequence(o, b, s, w)) by {}
        }
        match &self.options.fallback {
            Some(fb) => {
                if fb.covers_byte(b) {
                    let r = mk_fallback_hex(exprset, fb, b);
                    alts.push(r);
                    proof {
                        assert forall|s: Reading, w: Seq<u8>| #[trigger]
                            lang::union(exprset.langs(alts@, s))(w) == (lang::union(
                                e0.langs(a0, s),
                            )(w) || through(o, s)(b, w)) by {
                            exprset.lemma_langs_kept(&e1, a1, s);
                            exprset.lemma_union_push(a1, r, s, w);
                            lemma_through_escaped(o, s, b, w);
                            assert(lang::union(e1.langs(a1, s))(w) == (lang::union(
                                e0.langs(a0, s),
                            )(w) || by_sequence(o, b, s, w)));
                            assert(exprset.lang(r, s)(w) == by_hex(fb@, b, s, w));
                        }
                        assert forall|k: int|
                            0 <= k < alts@.len() implies exprset.valid(#[trigger] alts@[k]) by {
                            if k < a1.len() {
                                assert(alts@[k] == a1[k]);
                                assert(e1.valid(a1[k]));
                            }
                        }
                    }
                    return ;
                }
            },
            None => {},
        }
        proof {
            assert forall|s: Reading, w: Seq<u8>| #[trigger]
                lang::union(exprset.langs(alts@, s))(w) == (lang::union(e0.langs(a0, s))(w)
                    || through(o, s)(b, w)) by {
                lemma_through_escaped(o, s, b, w);
            }
        }
    }

    /// The sequence of a byte stands at its index.
    proof fn lemma_index(&self, b: u8)
        requires
            self.wf(),
        ensures
            match self.escape_idx@[b as int] {
                Some(i) => i < self.options@.sequences.len() && forall|v: Seq<u8>| #[trigger]
                    self.options@.sequences.contains((b, v))
                        <==> self.options@.sequences[i as int] == (b, v),
                None => forall|v: Seq<u8>| !#[trigger] self.options@.sequences.contains((b, v)),
            },
    {
        let seqs = self.options@.sequences;
        let entry = self.escape_idx@[b as int];
        assert(is_index(seqs, seqs.len() as int, b, entry));
        assert forall|v: Seq<u8>| #[trigger] seqs.contains((b, v)) implies entry is Some
            && seqs[entry->0 as int] == (b, v) by {
            let k = seqs.index_of((b, v));
            assert(seqs[k].0 == b);
        }
        if entry is Some {
            assert forall|v: Seq<u8>|
                seqs[entry->0 as int] == (b, v) implies #[trigger] seqs.contains((b, v)) by {
                assert(seqs[entry->0 as int] == (b, v));
            }
        }
    }
}

/// `w` is written for one of the first `n` bytes that the grammar escapes and that the set holds.
spec fn among(o: EscapeView, set: Set<u8>, n: int, s: Reading, w: Seq<u8>) -> bool {
    exists|k: int|
        0 <= k < n && set.contains(#[trigger] o.must_escape[k]) && through(o, s)(
            o.must_escape[k],
            w,
        )
}

/// The bytes of the set that are not among the first `n` that the grammar escapes.
spec fn without(o: EscapeView, set: Set<u8>, n: int) -> Set<u8> {
    Set::new(|b: u8| set.contains(b) && !o.must_escape.take(n).contains(b))
}

impl Quoter {
    /// Whether the grammar escapes the byte.
    fn escapes(&self, b: u8) -> (r: bool)
        requires
            self.wf(),
        ensures
            r == self.grammar().must_escape.contains(b),
    {
        self.must_escape[b as usize]
    }

    /// Matches what the grammar writes for one byte of the set.
    fn quote_byteset(&self, exprset: &mut ExprSet, bs: Vec<u32>) -> (r: ExprRef)
        requires
            self.wf(),
            old(exprset).wf(),
            bs@.len() == byteset::BYTESET_WORDS,
        ensures
            final(exprset).wf(),
            final(exprset).keeps(old(exprset)),
            final(exprset).adds_no_lookahead(old(exprset)),
            final(exprset).valid(r),
            forall|s: Reading| #[trigger]
                final(exprset).lang(r, s) == lang::one_of(
                    byteset::byteset(bs@),
                    through(self.grammar(), s),
                ),
    {
        let ghost o = self.grammar();
        let ghost set = byteset::byteset(bs@);
        let mut alts: Vec<ExprRef> = Vec::new();
        let mut passthrough: Vec<u32> = bs;
        let mut i: usize = 0;
        proof {
            assert(without(o, set, 0) =~= set);
        }
        while i < self.options.must_escape.len()
            invariant
                self.wf(),
                o == self.grammar(),
                i <= o.must_escape.len(),
                exprset.wf(),
                exprset.keeps(old(exprset)),
                exprset.adds_no_lookahead(old(exprset)),
                exprset.all_valid(alts@),
                passthrough@.len() == byteset::BYTESET_WORDS,
                byteset::byteset(passthrough@) == without(o, set, i as int),
                forall|s: Reading, w: Seq<u8>| #[trigger]
                    lang::union(exprset.langs(alts@, s))(w) == among(o, set, i as int, s, w),
            decreases o.must_escape.len() - i,
        {
            let ghost e0 = *exprset;
            let ghost a0 = alts@;
            let b: u8 = self.options.must_escape[i];
            let ghost t = o.must_escape.take(i as int);
            let ghost u = o.must_escape.take(i + 1);
            proof {
                assert(o.must_escape[i as int] == b);
                assert(o.must_escape.contains(b));
                assert(u =~= t.push(b));
                assert forall|c: u8| #[trigger] u.contains(c) <==> t.contains(c) || c == b by {
                    if u.contains(c) && c != b {
                        assert(t[u.index_of(c)] == c);
                    }
                    if t.contains(c) {
                        assert(u[t.index_of(c)] == c);
                    }
                    assert(u[i as int] == b);
                }
            }
            if byteset_contains(passthrough.as_slice(), b) {
                self.push_forms(exprset, &mut alts, b);
                byteset_clear(&mut passthrough, b);
                proof {
                    assert(byteset::byteset(passthrough@) =~= without(o, set, i + 1));
                    assert forall|s: Reading, w: Seq<u8>| #[trigger]
                        lang::union(exprset.langs(alts@, s))(w) == among(o, set, i + 1, s, w) by {
                        assert(lang::union(e0.langs(a0, s))(w) == among(o, set, i as int, s, w));
                        assert(without(o, set, i as int).contains(b));
                        if through(o, s)(b, w) {
                            assert(set.contains(o.must_escape[i as int]));
                        }
                    }
                }
            } else {
                proof {
                    assert(!without(o, set, i as int).contains(b));
                    assert(byteset::byteset(passthrough@) =~= without(o, set, i + 1));
                    assert forall|s: Reading, w: Seq<u8>| #[trigger]
                        lang::union(exprset.langs(alts@, s))(w) == among(o, set, i + 1, s, w) by {
                        assert(lang::union(e0.langs(a0, s))(w) == among(o, set, i as int, s, w));
                        if set.contains(b) {
                            assert(t.contains(b));
                            let k = t.index_of(b);
                            assert(o.must_escape[k] == b);
                        }
                    }
                }
            }
            i = i + 1;
        }
        let ghost e1 = *exprset;
        let ghost a1 = alts@;
        let rest = exprset.mk_byte_set(passthrough.as_slice());
        alts.push(rest);
        let ghost e2 = *exprset;
        proof {
            assert forall|k: int| 0 <= k < alts@.len() implies exprset.valid(
                #[trigger] alts@[k],
            ) by {
                if k < a1.len() {
                    assert(alts@[k] == a1[k]);
                    assert(e1.valid(a1[k]));
                }
            }
        }
        let r = exprset.mk_or(alts.as_slice());
        proof {
            assert forall|s: Reading| #[trigger]
                exprset.lang(r, s) == lang::one_of(set, through(o, s)) by {
                let target = lang::one_of(set, through(o, s));
                let pass = without(o, set, o.must_escape.len() as int);
                assert forall|w: Seq<u8>| #[trigger]
                    lang::union(e2.langs(alts@, s))(w) == target(w) by {
                    e2.lemma_langs_kept(&e1, a1, s);
                    e2.lemma_union_push(a1, rest, s, w);
                    assert(lang::union(e1.langs(a1, s))(w) == among(
                        o,
                        set,
                        o.must_escape.len() as int,
                        s,
                        w,
                    ));
                    assert(e2.lang(rest, s)(w) == lang::one_of(pass, s)(w));
                    self.lemma_byteset(set, s, w);
                }
                assert(lang::union(e2.langs(alts@, s)) =~= target);
            }
        }
        r
    }

    /// A byte of the set is escaped or stands for itself.
    proof fn lemma_byteset(&self, set: Set<u8>, s: Reading, w: Seq<u8>)
        ensures
            lang::one_of(set, through(self.grammar(), s))(w) == (among(
                self.grammar(),
                set,
                self.grammar().must_escape.len() as int,
                s,
                w,
            ) || lang::one_of(
                without(self.grammar(), set, self.grammar().must_escape.len() as int),
                s,
            )(w)),
    {
        let o = self.grammar();
        let n = o.must_escape.len() as int;
        let pass = without(o, set, n);
        assert(o.must_escape.take(n) =~= o.must_escape);
        if lang::one_of(set, through(o, s))(w) {
            let b = choose|b: u8| #[trigger] set.contains(b) && through(o, s)(b, w);
            if o.must_escape.contains(b) {
                assert(o.must_escape[o.must_escape.index_of(b)] == b);
            } else {
                lemma_through_literal(o, s, b, w);
                assert(pass.contains(b));
            }
        }
        if among(o, set, n, s, w) {
            let k = choose|k: int|
                0 <= k < n && set.contains(#[trigger] o.must_escape[k]) && through(o, s)(
                    o.must_escape[k],
                    w,
                );
            assert(set.contains(o.must_escape[k]));
        }
        if lang::one_of(pass, s)(w) {
            let b = choose|b: u8| #[trigger] pass.contains(b) && s(b, w);
            lemma_through_literal(o, s, b, w);
            assert(set.contains(b));
        }
    }
}

/// Bytes that stand for themselves are written as they are.
proof fn lemma_literal_unescaped(o: EscapeView, u: Seq<u8>, s: Reading)
    requires
        forall|k: int| 0 <= k < u.len() ==> !o.must_escape.contains(#[trigger] u[k]),
    ensures
        lang::literal(u, through(o, s)) == lang::literal(u, s),
    decreases u.len(),
{
    let e = through(o, s);
    if u.len() == 0 {
        assert(u =~= Seq::empty());
        lang::literal_empty(e);
        lang::literal_empty(s);
    } else {
        let rest = u.skip(1);
        assert forall|k: int| 0 <= k < rest.len() implies !o.must_escape.contains(
            #[trigger] rest[k],
        ) by {
            assert(rest[k] == u[k + 1]);
        }
        lemma_literal_unescaped(o, rest, s);
        assert(u =~= seq![u[0]] + rest);
        lang::literal_cons(u[0], rest, e);
        lang::literal_cons(u[0], rest, s);
        let a = lang::one_of(set![u[0]], e);
        let b = lang::one_of(set![u[0]], s);
        assert forall|w: Seq<u8>| #[trigger] a(w) == b(w) by {
            lemma_through_literal(o, s, u[0], w);
            assert(set![u[0]].contains(u[0]));
        }
        assert(a =~= b);
    }
}

/// The bytes that the grammar escapes.
pub open spec fn escaped_bytes(o: EscapeView) -> Set<u8> {
    Set::new(|b: u8| o.must_escape.contains(b))
}

/// None of the bytes occurs in the string.
pub open spec fn avoids(literal: Seq<u8>, bytes: Set<u8>) -> bool {
    forall|k: int| 0 <= k < literal.len() ==> !bytes.contains(#[trigger] literal[k])
}

/// None of the bytes occurs in the expression. In a complement, and in an intersection of nothing,
/// every byte does.
pub open spec fn untouched(rx: Rx, bytes: Set<u8>) -> bool
    decreases rx,
{
    match rx {
        Rx::EmptyString => true,
        Rx::NoMatch => true,
        Rx::ByteSet(set) => set.disjoint(bytes),
        Rx::ByteConcat(literal, tail) => avoids(literal, bytes) && untouched(*tail, bytes),
        Rx::RemainderIs { divisor: _, remainder: _, scale: _, fractional_part: _, forms } => {
            &&& forms.len() == 0 ==> forall|k: int|
                0 <= k < number::NUMERAL_CHARS ==> !bytes.contains(
                    #[trigger] number::numeral_char(k),
                )
            &&& all_untouched(forms, bytes)
        },
        Rx::Lookahead(e, _) => untouched(*e, bytes),
        Rx::Not(e) => bytes == Set::<u8>::empty() && untouched(*e, bytes),
        Rx::Repeat(e, _, _) => untouched(*e, bytes),
        Rx::Concat(a, b) => untouched(*a, bytes) && untouched(*b, bytes),
        Rx::Or(es) => all_untouched(es, bytes),
        Rx::And(es) => (es.len() == 0 ==> bytes == Set::<u8>::empty()) && all_untouched(es, bytes),
    }
}

/// None of the bytes occurs in the expressions.
pub open spec fn all_untouched(es: Seq<Rx>, bytes: Set<u8>) -> bool
    decreases es,
{
    forall|k: int| 0 <= k < es.len() ==> untouched(#[trigger] es[k], bytes)
}

/// What does not occur in an expression does not occur in its parts.
proof fn lemma_untouched_parts(set: &ExprSet, n: Expr, bytes: Set<u8>, k: int)
    requires
        untouched(set.rx(n), bytes),
        0 <= k < expr::args(n).len(),
    ensures
        untouched(set.tree(expr::args(n)[k]), bytes),
{
    match n {
        Expr::RemainderIs { divisor: _, remainder: _, scale: _, fractional_part: _, forms } => {
            assert(all_untouched(set.trees(forms@), bytes));
            assert(set.trees(forms@)[k] == set.tree(forms@[k]));
        },
        Expr::ByteConcat(_, a) | Expr::Lookahead(a, _) | Expr::Not(a) | Expr::Repeat(a, _, _) => {
            assert(expr::args(n)[k] == a);
            assert(untouched(set.tree(a), bytes));
        },
        Expr::Concat(a, b) => {
            assert(untouched(set.tree(a), bytes) && untouched(set.tree(b), bytes));
            assert(k == 0 || k == 1);
        },
        Expr::Or(v) => {
            assert(all_untouched(set.trees(v@), bytes));
            assert(set.trees(v@)[k] == set.tree(v@[k]));
        },
        Expr::And(v) => {
            assert(all_untouched(set.trees(v@), bytes));
            assert(set.trees(v@)[k] == set.tree(v@[k]));
        },
        _ => {},
    }
}

/// `r` is the escaped form of `e`: itself, where `e` has no byte that is escaped, and itself or a
/// fresh lookahead, where `e` is one.
pub open spec fn is_escape(set: &ExprSet, o: EscapeView, e: ExprRef, r: ExprRef) -> bool {
    &&& set.valid(e)
    &&& set.valid(r)
    &&& forall|s: Reading| #[trigger] set.lang(r, s) == set.lang(e, through(o, s))
    &&& untouched(set.tree(e), escaped_bytes(o)) ==> r == e
    &&& set.tree(e) is Lookahead ==> r == e || lang::fresh_lookahead(set.tree(r))
}

/// Each of `r` is the escaped form of its fellow of `v`.
pub open spec fn are_escapes(
    set: &ExprSet,
    o: EscapeView,
    v: Seq<ExprRef>,
    r: Seq<ExprRef>,
) -> bool {
    &&& r.len() == v.len()
    &&& forall|k: int| 0 <= k < v.len() ==> is_escape(set, o, v[k], #[trigger] r[k])
}

/// Escaped forms stay what they are while the set grows.
pub proof fn lemma_is_escape_kept(
    after: &ExprSet,
    before: &ExprSet,
    o: EscapeView,
    e: ExprRef,
    r: ExprRef,
)
    requires
        after.keeps(before),
        is_escape(before, o, e, r),
    ensures
        is_escape(after, o, e, r),
{
    assert(before.valid(e) && before.valid(r));
    assert(after.tree(e) == before.tree(e) && after.tree(r) == before.tree(r));
    assert forall|s: Reading| #[trigger] after.lang(r, s) == after.lang(e, through(o, s)) by {
        assert(before.lang(r, s) == before.lang(e, through(o, s)));
    }
}

proof fn lemma_escaped_langs(
    set: &ExprSet,
    o: EscapeView,
    v: Seq<ExprRef>,
    r: Seq<ExprRef>,
    s: Reading,
)
    requires
        are_escapes(set, o, v, r),
    ensures
        set.langs(r, s) == set.langs(v, through(o, s)),
{
    assert forall|k: int| 0 <= k < v.len() implies #[trigger] set.langs(r, s)[k] == set.langs(
        v,
        through(o, s),
    )[k] by {
        assert(is_escape(set, o, v[k], r[k]));
        assert(set.lang(r[k], s) == set.lang(v[k], through(o, s)));
    }
    assert(set.langs(r, s) =~= set.langs(v, through(o, s)));
}

impl Quoter {
    /// Matches what the grammar writes for the byte.
    fn quote_byte(&self, exprset: &mut ExprSet, b: u8) -> (r: ExprRef)
        requires
            self.wf(),
            old(exprset).wf(),
        ensures
            final(exprset).wf(),
            final(exprset).keeps(old(exprset)),
            final(exprset).adds_no_lookahead(old(exprset)),
            final(exprset).valid(r),
            forall|s: Reading| #[trigger]
                final(exprset).lang(r, s) == lang::one_of(set![b], through(self.grammar(), s)),
    {
        let bs: Vec<u32> = byteset_from_range(b, b);
        proof {
            assert(byteset::byteset(bs@) =~= set![b]);
        }
        self.quote_byteset(exprset, bs)
    }

    /// Matches what the grammar writes for the bytes, followed by a string of `tail`.
    fn quote_bytes(&self, exprset: &mut ExprSet, bytes: &[u8], tail: ExprRef) -> (r: ExprRef)
        requires
            self.wf(),
            old(exprset).wf(),
            old(exprset).valid(tail),
        ensures
            final(exprset).wf(),
            final(exprset).keeps(old(exprset)),
            final(exprset).adds_no_lookahead(old(exprset)),
            final(exprset).valid(r),
            forall|s: Reading| #[trigger]
                final(exprset).lang(r, s) == lang::cat(
                    lang::literal(bytes@, through(self.grammar(), s)),
                    old(exprset).lang(tail, s),
                ),
    {
        let ghost o = self.grammar();
        let ghost e0 = *exprset;
        let mut r: ExprRef = tail;
        let mut idx: usize = bytes.len();
        proof {
            assert forall|s: Reading| #[trigger]
                exprset.lang(r, s) == lang::cat(
                lang::literal(bytes@.skip(idx as int), through(o, s)),
                e0.lang(tail, s),
            ) by {
                assert(bytes@.skip(idx as int) =~= Seq::empty());
                lang::literal_empty(through(o, s));
                lang::cat_epsilon_left(e0.lang(tail, s));
            }
        }
        while idx > 0
            invariant
                self.wf(),
                o == self.grammar(),
                idx <= bytes@.len(),
                exprset.wf(),
                exprset.keeps(&e0),
                exprset.adds_no_lookahead(&e0),
                exprset.valid(r),
                forall|s: Reading| #[trigger]
                    exprset.lang(r, s) == lang::cat(
                        lang::literal(bytes@.skip(idx as int), through(o, s)),
                        e0.lang(tail, s),
                    ),
            decreases idx,
        {
            let ghost before = *exprset;
            let ghost rest = bytes@.skip(idx as int);
            let ghost t = r;
            if self.escapes(bytes[idx - 1]) {
                let b: u8 = bytes[idx - 1];
                let q = self.quote_byte(exprset, b);
                let ghost mid = *exprset;
                r = exprset.mk_concat(q, r);
                idx = idx - 1;
                proof {
                    assert forall|s: Reading| #[trigger]
                        exprset.lang(r, s) == lang::cat(
                        lang::literal(bytes@.skip(idx as int), through(o, s)),
                        e0.lang(tail, s),
                    ) by {
                        let e = through(o, s);
                        assert(mid.tree(t) == before.tree(t));
                        assert(before.lang(t, s) == lang::cat(
                            lang::literal(rest, e),
                            e0.lang(tail, s),
                        ));
                        assert(bytes@.skip(idx as int) =~= seq![b] + rest);
                        lang::literal_cons(b, rest, e);
                        assert(mid.lang(q, s) == lang::one_of(set![b], e));
                        lang::cat_assoc(
                            lang::one_of(set![b], e),
                            lang::literal(rest, e),
                            e0.lang(tail, s),
                        );
                    }
                }
            } else {
                let end: usize = idx;
                idx = idx - 1;
                while idx > 0 && !self.escapes(bytes[idx - 1])
                    invariant
                        self.wf(),
                        o == self.grammar(),
                        idx < end <= bytes@.len(),
                        forall|k: int|
                            idx <= k < end ==> !o.must_escape.contains(#[trigger] bytes@[k]),
                    decreases idx,
                {
                    idx = idx - 1;
                }
                let run: &[u8] = vstd::slice::slice_subrange(bytes, idx, end);
                r = exprset.mk_byte_concat(run, r);
                proof {
                    assert forall|s: Reading| #[trigger]
                        exprset.lang(r, s) == lang::cat(
                        lang::literal(bytes@.skip(idx as int), through(o, s)),
                        e0.lang(tail, s),
                    ) by {
                        let e = through(o, s);
                        assert(before.lang(t, s) == lang::cat(
                            lang::literal(rest, e),
                            e0.lang(tail, s),
                        ));
                        assert forall|k: int| 0 <= k < run@.len() implies !o.must_escape.contains(
                            #[trigger] run@[k],
                        ) by {
                            assert(run@[k] == bytes@[k + idx]);
                        }
                        lemma_literal_unescaped(o, run@, s);
                        assert(bytes@.skip(idx as int) =~= run@ + rest);
                        lang::literal_concat(run@, rest, e);
                        lang::cat_assoc(
                            lang::literal(run@, e),
                            lang::literal(rest, e),
                            e0.lang(tail, s),
                        );
                    }
                }
            }
        }
        assert(bytes@.skip(0) =~= bytes@);
        r
    }
}

impl Quoter {
    /// Whether the grammar escapes a byte of the set.
    fn escapes_any(&self, bs: &[u32]) -> (r: bool)
        requires
            self.wf(),
            bs@.len() == byteset::BYTESET_WORDS,
        ensures
            r == exists|b: u8| #[trigger]
                byteset::byteset(bs@).contains(b) && self.grammar().must_escape.contains(b),
    {
        let mut i: usize = 0;
        while i < self.options.must_escape.len()
            invariant
                i <= self.options@.must_escape.len(),
                bs@.len() == byteset::BYTESET_WORDS,
                forall|k: int|
                    0 <= k < i ==> !byteset::byteset(bs@).contains(
                        #[trigger] self.options@.must_escape[k],
                    ),
            decreases self.options@.must_escape.len() - i,
        {
            if byteset_contains(bs, self.options.must_escape[i]) {
                assert(self.grammar().must_escape.contains(self.options@.must_escape[i as int]));
                return true;
            }
            i = i + 1;
        }
        proof {
            assert forall|b: u8| #[trigger]
                byteset::byteset(bs@).contains(b) implies !self.grammar().must_escape.contains(
                b,
            ) by {
                if self.options@.must_escape.contains(b) {
                    let k = self.options@.must_escape.index_of(b);
                    assert(self.options@.must_escape[k] == b);
                }
            }
        }
        false
    }

    /// Whether the grammar escapes one of the bytes.
    fn escapes_some(&self, bytes: &[u8]) -> (r: bool)
        requires
            self.wf(),
        ensures
            r == exists|k: int|
                0 <= k < bytes@.len() && self.grammar().must_escape.contains(
                    #[trigger] bytes@[k],
                ),
    {
        let mut i: usize = 0;
        while i < bytes.len()
            invariant
                self.wf(),
                i <= bytes@.len(),
                forall|k: int|
                    0 <= k < i ==> !self.grammar().must_escape.contains(#[trigger] bytes@[k]),
            decreases bytes@.len() - i,
        {
            if self.escapes(bytes[i]) {
                assert(self.grammar().must_escape.contains(bytes@[i as int]));
                return true;
            }
            i = i + 1;
        }
        false
    }

    /// The escaped form of an expression, built from those of its parts.
    fn escape_node(&self, exprset: &mut ExprSet, e: ExprRef, parts: &[ExprRef]) -> (r: ExprRef)
        requires
            self.wf(),
            old(exprset).wf(),
            old(exprset).valid(e),
            are_escapes(
                old(exprset),
                self.grammar(),
                expr::args(old(exprset).node(e)),
                parts@,
            ),
        ensures
            final(exprset).wf(),
            final(exprset).keeps(old(exprset)),
            !(old(exprset).tree(e) is Lookahead) ==> final(exprset).adds_no_lookahead(old(exprset)),
            is_escape(final(exprset), self.grammar(), e, r),
    {
        let ghost o = self.grammar();
        let ghost e0 = *exprset;
        let node: &Expr = exprset.get(e);
        let ghost n = *node;
        proof {
            assert(e0.tree(e) == e0.rx(n));
            assert(expr::args(n) == expr::args(e0.node(e)));
            assert forall|k: int| 0 <= k < parts@.len() implies e0.valid(#[trigger] parts@[k]) by {
                assert(is_escape(&e0, o, expr::args(n)[k], parts@[k]));
            }
            assert forall|s: Reading| e0.langs(parts@, s) == #[trigger] e0.langs(
                expr::args(n),
                through(o, s),
            ) by {
                lemma_escaped_langs(&e0, o, expr::args(n), parts@, s);
            }
            if untouched(e0.tree(e), escaped_bytes(o)) {
                assert forall|k: int| 0 <= k < parts@.len() implies #[trigger] parts@[k]
                    == expr::args(n)[k] by {
                    lemma_untouched_parts(&e0, n, escaped_bytes(o), k);
                    assert(is_escape(&e0, o, expr::args(n)[k], parts@[k]));
                }
                assert(parts@ =~= expr::args(n));
            }
        }
        match node {
            Expr::EmptyString => e,
            Expr::NoMatch => e,
            Expr::RemainderIs { divisor, remainder, scale, fractional_part, forms } => {
                let (d, m, k, f): (u32, u32, u32, bool) = (
                    *divisor,
                    *remainder,
                    *scale,
                    *fractional_part,
                );
                let forms: Vec<ExprRef> = copied(forms.as_slice());
                self.escape_numeral(exprset, e, d, m, k, f, forms, parts)
            },
            Expr::ByteSet(bs) => {
                let bs: Vec<u32> = copied(bs.as_slice());
                if self.escapes_any(bs.as_slice()) {
                    proof {
                        let set = byteset::byteset(bs@);
                        let b = choose|b: u8| #[trigger]
                            set.contains(b) && o.must_escape.contains(b);
                        assert(escaped_bytes(o).contains(b));
                        assert(!set.disjoint(escaped_bytes(o)));
                    }
                    let r = self.quote_byteset(exprset, bs);
                    assert(exprset.tree(e) == e0.tree(e));
                    r
                } else {
                    proof {
                        lemma_unescaped_set(o, byteset::byteset(bs@));
                    }
                    e
                }
            },
            Expr::Byte(b) => {
                let b: u8 = *b;
                if self.escapes(b) {
                    let r = self.quote_byte(exprset, b);
                    assert(exprset.tree(e) == e0.tree(e));
                    assert(set![b].contains(b) && escaped_bytes(o).contains(b));
                    r
                } else {
                    proof {
                        lemma_unescaped_set(o, set![b]);
                    }
                    e
                }
            },
            Expr::ByteConcat(bytes, tail) => {
                let bytes: Vec<u8> = copied(bytes.as_slice());
                let tail: ExprRef = *tail;
                proof {
                    assert(expr::args(n)[0] == tail);
                    assert(is_escape(&e0, o, tail, parts@[0]));
                }
                let r: ExprRef = if self.escapes_some(bytes.as_slice()) {
                    proof {
                        let k = choose|k: int|
                            0 <= k < bytes@.len() && o.must_escape.contains(#[trigger] bytes@[k]);
                        assert(escaped_bytes(o).contains(bytes@[k]));
                        assert(!avoids(bytes@, escaped_bytes(o)));
                    }
                    self.quote_bytes(exprset, bytes.as_slice(), parts[0])
                } else {
                    proof {
                        assert forall|s: Reading| #[trigger]
                            lang::literal(bytes@, through(o, s)) == lang::literal(bytes@, s) by {
                            lemma_literal_unescaped(o, bytes@, s);
                        }
                    }
                    if parts[0] == tail {
                        e
                    } else {
                        exprset.mk_byte_concat(bytes.as_slice(), parts[0])
                    }
                };
                proof {
                    assert(exprset.tree(e) == e0.tree(e));
                    assert forall|s: Reading| #[trigger]
                        exprset.lang(r, s) == exprset.lang(e, through(o, s)) by {
                        assert(e0.lang(parts@[0], s) == e0.lang(tail, through(o, s)));
                        assert(lang::literal(bytes@, through(o, s)) == lang::literal(
                            bytes@,
                            through(o, s),
                        ));
                        assert(exprset.lang(r, s) == lang::cat(
                            lang::literal(bytes@, through(o, s)),
                            e0.lang(parts@[0], s),
                        ));
                    }
                }
                r
            },
            Expr::Lookahead(a, _) => {
                let a: ExprRef = *a;
                proof {
                    assert(expr::args(n)[0] == a);
                    assert(is_escape(&e0, o, a, parts@[0]));
                }
                let r: ExprRef = if parts[0] == a {
                    e
                } else {
                    exprset.mk_lookahead(parts[0], 0)
                };
                proof {
                    assert(exprset.tree(e) == e0.tree(e));
                    assert forall|s: Reading| #[trigger]
                        exprset.lang(r, s) == exprset.lang(e, through(o, s)) by {
                        assert(e0.lang(parts@[0], s) == e0.lang(a, through(o, s)));
                    }
                }
                r
            },
            Expr::Not(a) => {
                let a: ExprRef = *a;
                proof {
                    assert(expr::args(n)[0] == a);
                    assert(is_escape(&e0, o, a, parts@[0]));
                }
                if self.options.must_escape.len() == 0 && parts[0] == a {
                    proof {
                        assert forall|s: Reading| #[trigger]
                            e0.lang(e, s) == e0.lang(e, through(o, s)) by {
                            lemma_nothing_escaped(o, s);
                        }
                    }
                    return e;
                }
                proof {
                    if o.must_escape.len() > 0 {
                        assert(escaped_bytes(o).contains(o.must_escape[0]));
                    }
                }
                let rest: ExprRef = exprset.mk_not(parts[0]);
                let ghost e1 = *exprset;
                let all: ExprRef = self.mk_writings(exprset);
                let ghost e2 = *exprset;
                let both: Vec<ExprRef> = vec![all, rest];
                proof {
                    assert(e2.tree(rest) == e1.tree(rest));
                    assert forall|k: int| 0 <= k < both@.len() implies e2.valid(
                        #[trigger] both@[k],
                    ) by {
                        assert(k == 0 || k == 1);
                    }
                }
                let r: ExprRef = exprset.mk_and(both.as_slice());
                proof {
                    assert(e1.tree(e) == e0.tree(e) && e2.tree(e) == e1.tree(e));
                    assert(exprset.tree(e) == e2.tree(e));
                    assert forall|s: Reading| #[trigger]
                        exprset.lang(r, s) == exprset.lang(e, through(o, s)) by {
                        let l = exprset.lang(r, s);
                        let m = exprset.lang(e, through(o, s));
                        let ls = e2.langs(both@, s);
                        assert(ls[0] == e2.lang(all, s) && ls[1] == e2.lang(rest, s));
                        assert(e0.lang(parts@[0], s) == e0.lang(a, through(o, s)));
                        assert forall|w: Seq<u8>| #[trigger] l(w) == m(w) by {
                            written_through(o, s, w);
                            assert(e2.lang(all, s)(w) == lang::written(through(o, s), w));
                            assert(e1.lang(rest, s) == lang::complement(
                                e0.lang(parts@[0], s),
                                s,
                            ));
                            assert(e2.lang(rest, s)(w) == (lang::written(s, w) && !e0.lang(
                                parts@[0],
                                s,
                            )(w)));
                            if l(w) {
                                assert(ls[0](w) && ls[1](w));
                            }
                            if m(w) {
                                assert forall|k: int| 0 <= k < ls.len() implies (#[trigger] ls[k])(
                                    w,
                                ) by {
                                    assert(k == 0 || k == 1);
                                }
                            }
                        }
                        assert(l =~= m);
                    }
                }
                r
            },
            Expr::Repeat(a, min, max) => {
                let (a, min, max): (ExprRef, u32, u32) = (*a, *min, *max);
                proof {
                    assert(expr::args(n)[0] == a);
                    assert(is_escape(&e0, o, a, parts@[0]));
                }
                let r: ExprRef = if parts[0] == a {
                    e
                } else {
                    exprset.mk_repeat(parts[0], min, max)
                };
                proof {
                    assert(exprset.tree(e) == e0.tree(e));
                    assert forall|s: Reading| #[trigger]
                        exprset.lang(r, s) == exprset.lang(e, through(o, s)) by {
                        assert(e0.lang(parts@[0], s) == e0.lang(a, through(o, s)));
                    }
                }
                r
            },
            Expr::Concat(a, b) => {
                let (a, b): (ExprRef, ExprRef) = (*a, *b);
                proof {
                    assert(expr::args(n)[0] == a);
                    assert(expr::args(n)[1] == b);
                    assert(is_escape(&e0, o, a, parts@[0]));
                    assert(is_escape(&e0, o, b, parts@[1]));
                }
                let r: ExprRef = if parts[0] == a && parts[1] == b {
                    e
                } else {
                    exprset.mk_concat(parts[0], parts[1])
                };
                proof {
                    assert(exprset.tree(e) == e0.tree(e));
                    assert forall|s: Reading| #[trigger]
                        exprset.lang(r, s) == exprset.lang(e, through(o, s)) by {
                        assert(e0.lang(parts@[0], s) == e0.lang(a, through(o, s)));
                        assert(e0.lang(parts@[1], s) == e0.lang(b, through(o, s)));
                    }
                }
                r
            },
            Expr::Or(v) => {
                let same: bool = same_refs(v.as_slice(), parts);
                let r: ExprRef = if same {
                    e
                } else {
                    exprset.mk_or(parts)
                };
                proof {
                    assert(exprset.tree(e) == e0.tree(e));
                    assert forall|s: Reading| #[trigger]
                        exprset.lang(r, s) == exprset.lang(e, through(o, s)) by {
                        lemma_or(&e0, expr::args(n), through(o, s));
                        lemma_or(&e0, expr::args(n), s);
                        assert(e0.langs(parts@, s) == e0.langs(expr::args(n), through(o, s)));
                    }
                }
                r
            },
            Expr::And(v) => {
                if v.len() == 0 {
                    if self.options.must_escape.len() == 0 {
                        proof {
                            assert forall|s: Reading| #[trigger]
                                e0.lang(e, s) == e0.lang(e, through(o, s)) by {
                                lemma_nothing_escaped(o, s);
                            }
                        }
                        return e;
                    }
                    proof {
                        assert(escaped_bytes(o).contains(o.must_escape[0]));
                    }
                    let r: ExprRef = self.mk_writings(exprset);
                    proof {
                        assert(exprset.tree(e) == e0.tree(e));
                        assert forall|s: Reading| #[trigger]
                            exprset.lang(r, s) == exprset.lang(e, through(o, s)) by {
                            assert(exprset.lang(r, s) =~= exprset.lang(e, through(o, s)));
                        }
                    }
                    return r;
                }
                let same: bool = same_refs(v.as_slice(), parts);
                let ghost first = v@[0];
                let r: ExprRef = if same {
                    e
                } else {
                    exprset.mk_and(parts)
                };
                proof {
                    assert(exprset.tree(e) == e0.tree(e));
                    assert forall|s: Reading| #[trigger]
                        exprset.lang(r, s) == exprset.lang(e, through(o, s)) by {
                        let l = exprset.lang(r, s);
                        let m = exprset.lang(e, through(o, s));
                        let ls = e0.langs(parts@, s);
                        lemma_and(&e0, expr::args(n), through(o, s));
                        lemma_and(&e0, expr::args(n), s);
                        assert(ls == e0.langs(expr::args(n), through(o, s)));
                        assert(ls[0] == e0.lang(first, through(o, s)));
                        assert forall|w: Seq<u8>| #[trigger] l(w) == m(w) by {
                            written_through(o, s, w);
                            assert(l(w) == lang::intersection(ls, s)(w));
                            assert(m(w) == lang::intersection(ls, through(o, s))(w));
                            if l(w) {
                                assert(ls[0](w));
                                image::language_written(e0.tree(first), through(o, s), w);
                            }
                        }
                        assert(l =~= m);
                    }
                }
                r
            },
        }
    }

    /// Matches the writings of all strings.
    fn mk_writings(&self, exprset: &mut ExprSet) -> (r: ExprRef)
        requires
            self.wf(),
            old(exprset).wf(),
        ensures
            final(exprset).wf(),
            final(exprset).keeps(old(exprset)),
            final(exprset).adds_no_lookahead(old(exprset)),
            final(exprset).valid(r),
            forall|s: Reading, w: Seq<u8>| #[trigger]
                final(exprset).lang(r, s)(w) == lang::written(through(self.grammar(), s), w),
    {
        let bytes: Vec<u32> = byteset_from_range(0, 0xFF);
        assert(byteset::byteset(bytes@) =~= Set::full());
        let one: ExprRef = self.quote_byteset(exprset, bytes);
        let ghost e1 = *exprset;
        let r: ExprRef = exprset.mk_repeat(one, 0, u32::MAX);
        proof {
            assert forall|s: Reading, w: Seq<u8>| #[trigger]
                exprset.lang(r, s)(w) == lang::written(through(self.grammar(), s), w) by {
                image::written_bytes(through(self.grammar(), s));
                assert(e1.lang(one, s) == lang::one_of(
                    Set::full(),
                    through(self.grammar(), s),
                ));
            }
        }
        r
    }

    /// Whether the grammar escapes a character of numerals.
    fn escapes_numerals(&self) -> (r: bool)
        requires
            self.wf(),
        ensures
            r == exists|k: int|
                0 <= k < number::NUMERAL_CHARS && self.grammar().must_escape.contains(
                    #[trigger] number::numeral_char(k),
                ),
    {
        let mut k: usize = 0;
        while k < NUMERAL_CHARS
            invariant
                self.wf(),
                k <= NUMERAL_CHARS,
                forall|j: int|
                    0 <= j < k ==> !self.grammar().must_escape.contains(
                        #[trigger] number::numeral_char(j),
                    ),
            decreases NUMERAL_CHARS - k,
        {
            if self.escapes(numeral_byte(k)) {
                assert(self.grammar().must_escape.contains(number::numeral_char(k as int)));
                return true;
            }
            k = k + 1;
        }
        false
    }

    /// The expressions of the writings of the characters of numerals.
    fn mk_numeral_forms(&self, exprset: &mut ExprSet) -> (r: Vec<ExprRef>)
        requires
            self.wf(),
            old(exprset).wf(),
        ensures
            final(exprset).wf(),
            final(exprset).keeps(old(exprset)),
            final(exprset).adds_no_lookahead(old(exprset)),
            final(exprset).all_valid(r@),
            r@.len() == number::NUMERAL_CHARS,
            forall|s: Reading| #[trigger]
                final(exprset).langs(r@, s) == lang::numeral_langs(through(self.grammar(), s)),
    {
        let ghost o = self.grammar();
        let mut r: Vec<ExprRef> = Vec::new();
        let mut k: usize = 0;
        while k < NUMERAL_CHARS
            invariant
                self.wf(),
                o == self.grammar(),
                k <= NUMERAL_CHARS,
                r@.len() == k,
                exprset.wf(),
                exprset.keeps(old(exprset)),
                exprset.adds_no_lookahead(old(exprset)),
                exprset.all_valid(r@),
                forall|j: int, s: Reading|
                    0 <= j < k ==> #[trigger] exprset.lang(r@[j], s) == lang::one_of(
                        set![number::numeral_char(j)],
                        through(o, s),
                    ),
            decreases NUMERAL_CHARS - k,
        {
            let ghost before = *exprset;
            let ghost r0 = r@;
            let form: ExprRef = self.quote_byte(exprset, numeral_byte(k));
            r.push(form);
            proof {
                assert forall|j: int| 0 <= j < r@.len() implies exprset.valid(#[trigger] r@[j]) by {
                    if j < k {
                        assert(r@[j] == r0[j] && before.valid(r0[j]));
                    }
                }
                assert forall|j: int, s: Reading| 0 <= j < k + 1 implies #[trigger] exprset.lang(
                    r@[j],
                    s,
                ) == lang::one_of(set![number::numeral_char(j)], through(o, s)) by {
                    if j < k {
                        assert(r@[j] == r0[j] && before.valid(r0[j]));
                        assert(exprset.tree(r0[j]) == before.tree(r0[j]));
                        assert(before.lang(r0[j], s) == lang::one_of(
                            set![number::numeral_char(j)],
                            through(o, s),
                        ));
                    }
                }
            }
            k = k + 1;
        }
        proof {
            assert forall|s: Reading| #[trigger]
                exprset.langs(r@, s) == lang::numeral_langs(through(o, s)) by {
                assert forall|j: int| 0 <= j < r@.len() implies #[trigger] exprset.langs(r@, s)[j]
                    == lang::numeral_langs(through(o, s))[j] by {
                    assert(exprset.lang(r@[j], s) == lang::one_of(
                        set![number::numeral_char(j)],
                        through(o, s),
                    ));
                }
                assert(exprset.langs(r@, s) =~= lang::numeral_langs(through(o, s)));
            }
        }
        r
    }

    /// The escaped form of a numeral, built from those of the forms of its characters.
    fn escape_numeral(
        &self,
        exprset: &mut ExprSet,
        e: ExprRef,
        divisor: u32,
        remainder: u32,
        scale: u32,
        fractional_part: bool,
        forms: Vec<ExprRef>,
        parts: &[ExprRef],
    ) -> (r: ExprRef)
        requires
            self.wf(),
            old(exprset).wf(),
            old(exprset).valid(e),
            0 < divisor,
            remainder <= divisor,
            forms@.len() == 0 || forms@.len() == number::NUMERAL_CHARS,
            old(exprset).tree(e) == (Rx::RemainderIs {
                divisor: divisor as nat,
                remainder: remainder as nat,
                scale: scale as nat,
                fractional_part,
                forms: old(exprset).trees(forms@),
            }),
            are_escapes(old(exprset), self.grammar(), forms@, parts@),
        ensures
            final(exprset).wf(),
            final(exprset).keeps(old(exprset)),
            final(exprset).adds_no_lookahead(old(exprset)),
            is_escape(final(exprset), self.grammar(), e, r),
    {
        let ghost o = self.grammar();
        let ghost e0 = *exprset;
        let ghost ts = e0.trees(forms@);
        proof {
            assert forall|s: Reading, w: Seq<u8>| #[trigger]
                e0.lang(e, s)(w) == number::spelled(
                divisor as nat,
                remainder as nat,
                scale as nat,
                fractional_part,
                lang::form_langs(ts, s),
                w,
            ) by {
                lang::language_numeral(
                    divisor as nat,
                    remainder as nat,
                    scale as nat,
                    fractional_part,
                    ts,
                    s,
                    w,
                );
            }
        }
        if forms.len() == 0 {
            if !self.escapes_numerals() {
                proof {
                    assert forall|s: Reading| #[trigger]
                        e0.lang(e, s) == e0.lang(e, through(o, s)) by {
                        lang::own_forms(ts, s);
                        lang::own_forms(ts, through(o, s));
                        let x = lang::numeral_langs(s);
                        let y = lang::numeral_langs(through(o, s));
                        assert forall|k: int| 0 <= k < x.len() implies #[trigger] x[k] == y[k] by {
                            lemma_unescaped_set(o, set![number::numeral_char(k)]);
                        }
                        assert(x =~= y);
                        assert(e0.lang(e, s) =~= e0.lang(e, through(o, s)));
                    }
                }
                return e;
            }
            proof {
                let k = choose|k: int|
                    0 <= k < number::NUMERAL_CHARS && o.must_escape.contains(
                        #[trigger] number::numeral_char(k),
                    );
                assert(escaped_bytes(o).contains(number::numeral_char(k)));
                assert(!untouched(e0.tree(e), escaped_bytes(o)));
            }
            let forms: Vec<ExprRef> = self.mk_numeral_forms(exprset);
            let ghost e1 = *exprset;
            let ghost v = forms@;
            let r: ExprRef = exprset.mk_spelled_remainder(
                divisor,
                remainder,
                scale,
                fractional_part,
                forms,
            );
            proof {
                assert(e1.tree(e) == e0.tree(e) && exprset.tree(e) == e1.tree(e));
                assert forall|s: Reading| #[trigger]
                    exprset.lang(r, s) == exprset.lang(e, through(o, s)) by {
                    lang::own_forms(ts, through(o, s));
                    lang::own_forms(e1.trees(v), s);
                    assert(lang::languages(e1.trees(v), s) =~= e1.langs(v, s));
                    assert(e1.langs(v, s) == lang::numeral_langs(through(o, s)));
                    assert(lang::form_langs(e1.trees(v), s) == lang::form_langs(
                        ts,
                        through(o, s),
                    ));
                    assert forall|w: Seq<u8>| #[trigger]
                        exprset.lang(r, s)(w) == exprset.lang(e, through(o, s))(w) by {
                        assert(e0.lang(e, through(o, s))(w) == number::spelled(
                            divisor as nat,
                            remainder as nat,
                            scale as nat,
                            fractional_part,
                            lang::form_langs(ts, through(o, s)),
                            w,
                        ));
                    }
                    assert(exprset.lang(r, s) =~= exprset.lang(e, through(o, s)));
                }
            }
            return r;
        }
        let same: bool = same_refs(forms.as_slice(), parts);
        proof {
            if untouched(e0.tree(e), escaped_bytes(o)) {
                assert(all_untouched(ts, escaped_bytes(o)));
                assert forall|k: int| 0 <= k < parts@.len() implies #[trigger] parts@[k]
                    == forms@[k] by {
                    assert(ts[k] == e0.tree(forms@[k]));
                    assert(is_escape(&e0, o, forms@[k], parts@[k]));
                }
                assert(parts@ =~= forms@);
            }
            assert forall|s: Reading| #[trigger]
                lang::form_langs(e0.trees(parts@), s) == lang::form_langs(ts, through(o, s)) by {
                lang::own_forms(e0.trees(parts@), s);
                lang::own_forms(ts, through(o, s));
                lemma_escaped_langs(&e0, o, forms@, parts@, s);
                assert(lang::languages(e0.trees(parts@), s) =~= e0.langs(parts@, s));
                assert(lang::languages(ts, through(o, s)) =~= e0.langs(forms@, through(o, s)));
            }
            assert forall|k: int| 0 <= k < parts@.len() implies e0.valid(#[trigger] parts@[k]) by {
                assert(is_escape(&e0, o, forms@[k], parts@[k]));
            }
        }
        let r: ExprRef = if same {
            e
        } else {
            exprset.mk_spelled_remainder(
                divisor,
                remainder,
                scale,
                fractional_part,
                copied(parts),
            )
        };
        proof {
            assert(exprset.tree(e) == e0.tree(e));
            assert forall|s: Reading| #[trigger]
                exprset.lang(r, s) == exprset.lang(e, through(o, s)) by {
                assert(lang::form_langs(e0.trees(parts@), s) == lang::form_langs(
                    ts,
                    through(o, s),
                ));
                assert forall|w: Seq<u8>| #[trigger]
                    exprset.lang(r, s)(w) == exprset.lang(e, through(o, s))(w) by {
                    assert(e0.lang(e, through(o, s))(w) == number::spelled(
                        divisor as nat,
                        remainder as nat,
                        scale as nat,
                        fractional_part,
                        lang::form_langs(ts, through(o, s)),
                        w,
                    ));
                    assert(e0.lang(e, s)(w) == number::spelled(
                        divisor as nat,
                        remainder as nat,
                        scale as nat,
                        fractional_part,
                        lang::form_langs(ts, s),
                        w,
                    ));
                }
                assert(exprset.lang(r, s) =~= exprset.lang(e, through(o, s)));
            }
        }
        r
    }
}

/// What writes through the grammar writes.
pub proof fn written_through(o: EscapeView, s: Reading, w: Seq<u8>)
    ensures
        lang::written(through(o, s), w) ==> lang::written(s, w),
{
    if lang::written(through(o, s), w) {
        let u = choose|u: Seq<u8>| #[trigger] lang::writes(through(o, s), u, w);
        image::writes_compose(s, escape::reading(o), u, w);
    }
}

/// A grammar that escapes nothing changes nothing.
proof fn lemma_nothing_escaped(o: EscapeView, s: Reading)
    requires
        o.must_escape.len() == 0,
    ensures
        through(o, s) == s,
{
    assert forall|b: u8, w: Seq<u8>| #[trigger] through(o, s)(b, w) == s(b, w) by {
        lemma_through_literal(o, s, b, w);
    }
    assert(through(o, s) =~= s);
}

proof fn lemma_or(set: &ExprSet, v: Seq<ExprRef>, s: Reading)
    ensures
        lang::language(Rx::Or(set.trees(v)), s) == lang::union(set.langs(v, s)),
{
    lang::language_or(set.trees(v), s);
    assert(lang::languages(set.trees(v), s) =~= set.langs(v, s));
}

proof fn lemma_and(set: &ExprSet, v: Seq<ExprRef>, s: Reading)
    ensures
        lang::language(Rx::And(set.trees(v)), s) == lang::intersection(set.langs(v, s), s),
{
    lang::language_and(set.trees(v), s);
    assert(lang::languages(set.trees(v), s) =~= set.langs(v, s));
}

/// A set of bytes that stand for themselves is written as it is.
proof fn lemma_unescaped_set(o: EscapeView, set: Set<u8>)
    requires
        forall|b: u8| #[trigger] set.contains(b) ==> !o.must_escape.contains(b),
    ensures
        forall|s: Reading| #[trigger] lang::one_of(set, s) == lang::one_of(set, through(o, s)),
{
    assert forall|s: Reading| #[trigger] lang::one_of(set, s) == lang::one_of(
        set,
        through(o, s),
    ) by {
        let a = lang::one_of(set, s);
        let b = lang::one_of(set, through(o, s));
        assert forall|w: Seq<u8>| #[trigger] a(w) == b(w) by {
            if a(w) {
                let c = choose|c: u8| #[trigger] set.contains(c) && s(c, w);
                lemma_through_literal(o, s, c, w);
            }
            if b(w) {
                let c = choose|c: u8| #[trigger] set.contains(c) && through(o, s)(c, w);
                lemma_through_literal(o, s, c, w);
            }
        }
        assert(a =~= b);
    }
}

/// All that is remembered is an escaped form.
pub open spec fn cache_ok(set: &ExprSet, o: EscapeView, cache: Map<usize, ExprRef>) -> bool {
    forall|id: usize| #[trigger]
        cache.contains_key(id) ==> is_escape(set, o, ExprRef { id }, cache[id])
}

/// What is remembered stays right while the set grows.
pub proof fn lemma_cache_kept(
    after: &ExprSet,
    before: &ExprSet,
    o: EscapeView,
    cache: Map<usize, ExprRef>,
)
    requires
        after.keeps(before),
        cache_ok(before, o, cache),
    ensures
        cache_ok(after, o, cache),
{
    assert forall|id: usize| #[trigger] cache.contains_key(id) implies is_escape(
        after,
        o,
        ExprRef { id },
        cache[id],
    ) by {
        lemma_is_escape_kept(after, before, o, ExprRef { id }, cache[id]);
    }
}

/// All parts of the expression are marked.
spec fn parts_marked(set: &ExprSet, marks: Seq<bool>, id: usize) -> bool {
    forall|k: int|
        0 <= k < expr::args(set.node(ExprRef { id })).len() ==> {
            let a = #[trigger] expr::args(set.node(ExprRef { id }))[k];
            a.id < id && marks[a.id as int]
        }
}

impl Quoter {
    /// Marks the expressions that have to be escaped before `e` can be.
    fn mark(&self, exprset: &ExprSet, cache: &HashMap<usize, ExprRef>, e: ExprRef) -> (r: Vec<bool>)
        requires
            exprset.wf(),
            exprset.valid(e),
        ensures
            r@.len() == e.id + 1,
            r@[e.id as int],
            forall|id: usize|
                #![trigger r@[id as int]]
                id <= e.id && r@[id as int] && !cache@.contains_key(id) ==> parts_marked(
                    exprset,
                    r@,
                    id,
                ),
    {
        let mut marks: Vec<bool> = Vec::new();
        let mut n: usize = 0;
        while n < e.id
            invariant
                n <= e.id,
                marks@.len() == n,
            decreases e.id - n,
        {
            marks.push(false);
            n = n + 1;
        }
        marks.push(true);
        let mut left: usize = marks.len();
        while left > 0
            invariant
                exprset.wf(),
                exprset.valid(e),
                left <= e.id + 1,
                marks@.len() == e.id + 1,
                marks@[e.id as int],
                forall|id: usize|
                    #![trigger marks@[id as int]]
                    left <= id <= e.id && marks@[id as int] && !cache@.contains_key(id)
                        ==> parts_marked(exprset, marks@, id),
            decreases left,
        {
            left = left - 1;
            let ghost before = marks@;
            let here: ExprRef = ExprRef { id: left };
            proof {
                exprset.lemma_valid_below(e, here);
            }
            if marks[left] && !cache.contains_key(&left) {
                let parts: Vec<ExprRef> = get_args(exprset.get(here));
                proof {
                    exprset.lemma_args_below(here);
                }
                let mut k: usize = 0;
                while k < parts.len()
                    invariant
                        k <= parts@.len(),
                        left <= e.id,
                        marks@.len() == e.id + 1,
                        before.len() == e.id + 1,
                        parts@ == expr::args(exprset.node(here)),
                        here.id == left,
                        forall|j: int| 0 <= j < parts@.len() ==> (#[trigger] parts@[j]).id < left,
                        forall|j: int| 0 <= j < marks@.len() && before[j] ==> #[trigger] marks@[j],
                        forall|j: int| left <= j < marks@.len() ==> marks@[j] == #[trigger] before[j],
                        forall|j: int|
                            0 <= j < k ==> marks@[(#[trigger] parts@[j]).id as int],
                    decreases parts@.len() - k,
                {
                    marks.set(parts[k].id, true);
                    k = k + 1;
                }
                assert(parts_marked(exprset, marks@, left));
            }
            proof {
                assert forall|id: usize|
                    #![trigger marks@[id as int]]
                    left <= id && id <= e.id && marks@[id as int] && !cache@.contains_key(
                        id,
                    ) implies parts_marked(exprset, marks@, id) by {
                    assert(marks@[id as int] == before[id as int]);
                    if left < id {
                        assert(parts_marked(exprset, before, id));
                        exprset.lemma_valid_below(e, ExprRef { id });
                        exprset.lemma_args_below(ExprRef { id });
                        let a = expr::args(exprset.node(ExprRef { id }));
                        assert forall|j: int| 0 <= j < a.len() implies {
                            let x = #[trigger] a[j];
                            x.id < id && marks@[x.id as int]
                        } by {
                            assert(before[a[j].id as int]);
                        }
                    }
                }
            }
        }
        marks
    }

    /// The escaped form of an expression.
    pub(crate) fn escape_expr(
        &self,
        exprset: &mut ExprSet,
        cache: &mut HashMap<usize, ExprRef>,
        e: ExprRef,
    ) -> (r: ExprRef)
        requires
            self.wf(),
            old(exprset).wf(),
            old(exprset).valid(e),
            cache_ok(old(exprset), self.grammar(), old(cache)@),
        ensures
            final(exprset).wf(),
            final(exprset).keeps(old(exprset)),
            old(exprset).unmarked() ==> final(exprset).unmarked(),
            cache_ok(final(exprset), self.grammar(), final(cache)@),
            is_escape(final(exprset), self.grammar(), e, r),
            final(cache)@.contains_key(e.id),
            final(cache)@[e.id] == r,
            forall|id: usize| #[trigger]
                old(cache)@.contains_key(id) ==> final(cache)@.contains_key(id)
                    && final(cache)@[id] == old(cache)@[id],
    {
        let ghost o = self.grammar();
        let ghost e0 = *exprset;
        let ghost c0 = cache@;
        let marks: Vec<bool> = self.mark(exprset, cache, e);
        let mut done: usize = 0;
        while done < marks.len()
            invariant
                self.wf(),
                o == self.grammar(),
                e0.wf(),
                e0.valid(e),
                done <= marks@.len(),
                marks@.len() == e.id + 1,
                exprset.wf(),
                exprset.keeps(&e0),
                e0.unmarked() ==> exprset.unmarked(),
                cache_ok(exprset, o, cache@),
                forall|id: usize| #[trigger]
                    c0.contains_key(id) ==> cache@.contains_key(id) && cache@[id] == c0[id],
                forall|id: usize|
                    #![trigger marks@[id as int]]
                    id <= e.id && marks@[id as int] && !c0.contains_key(id) ==> parts_marked(
                        &e0,
                        marks@,
                        id,
                    ),
                forall|id: usize|
                    #![trigger marks@[id as int]]
                    id < done && marks@[id as int] ==> cache@.contains_key(id),
            decreases marks@.len() - done,
        {
            if marks[done] && !cache.contains_key(&done) {
                let here: ExprRef = ExprRef { id: done };
                let ghost before = *exprset;
                proof {
                    e0.lemma_valid_below(e, here);
                    assert(e0.valid(here));
                    assert(exprset.valid(here));
                    assert(exprset.tree(here) == e0.tree(here));
                    assert(exprset.node(here)@ == e0.node(here)@);
                    assert(parts_marked(&e0, marks@, done));
                }
                let args: Vec<ExprRef> = get_args(exprset.get(here));
                let mut parts: Vec<ExprRef> = Vec::new();
                let mut k: usize = 0;
                while k < args.len()
                    invariant
                        k <= args@.len(),
                        parts@.len() == k,
                        here.id == done,
                        args@ == expr::args(e0.node(here)),
                        parts_marked(&e0, marks@, done),
                        marks@.len() == e.id + 1,
                        done < marks@.len(),
                        cache_ok(exprset, o, cache@),
                        forall|id: usize|
                            #![trigger marks@[id as int]]
                            id < done && marks@[id as int] ==> cache@.contains_key(id),
                        forall|j: int|
                            0 <= j < k ==> is_escape(exprset, o, args@[j], #[trigger] parts@[j]),
                    decreases args@.len() - k,
                {
                    let a: ExprRef = args[k];
                    proof {
                        assert(expr::args(e0.node(ExprRef { id: done }))[k as int] == a);
                        assert(a.id < done && marks@[a.id as int]);
                        assert(ExprRef { id: a.id } == a);
                    }
                    match cache.get(&a.id) {
                        Some(p) => {
                            parts.push(*p);
                        },
                        None => {
                            assert(false);
                        },
                    }
                    k = k + 1;
                }
                let r: ExprRef = self.escape_node(exprset, here, parts.as_slice());
                proof {
                    lemma_cache_kept(exprset, &before, o, cache@);
                }
                let ghost c = cache@;
                cache.insert(done, r);
                proof {
                    assert forall|id: usize| #[trigger]
                        cache@.contains_key(id) implies is_escape(
                        exprset,
                        o,
                        ExprRef { id },
                        cache@[id],
                    ) by {
                        if id != done {
                            assert(c.contains_key(id));
                        }
                    }
                }
            }
            done = done + 1;
        }
        match cache.get(&e.id) {
            Some(r) => {
                assert(ExprRef { id: e.id } == e);
                *r
            },
            None => {
                assert(marks@[e.id as int]);
                assert(false);
                e
            },
        }
    }
}

} // verus!
