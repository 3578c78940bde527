//! Building of expressions.

use crate::ast::{Ast, Head, RegexAst};
use crate::byteset::BYTESET_WORDS;
use crate::error::Error;
use crate::escape;
use crate::escape::{same_options, EscapeView, StringEscapeOptions};
use crate::expr::{ExprRef, ExprSet};
use crate::image;
use crate::json_quote;
use crate::json_quote::{is_escape_name_byte, JsonQuoteOptions, JsonQuoteView};
use crate::lang;
use crate::lang::{Lang, Reading};
use crate::normal_form;
use crate::number;
use crate::pattern;
use crate::pattern::mk_look_free;
use crate::quote;
use crate::quote::Quoter;
use crate::regex;
use crate::regex::Regex;
use crate::semantics;
use crate::sorting;
use crate::syntax;
use crate::syntax::{copied_pattern, parse_pattern, same_pattern, ParserFlags, Pattern, Syntax};
use crate::unfold;
use crate::unfold::unfold_pattern;
use std::collections::HashMap;
use vstd::prelude::*;

verus! {

broadcast use vstd::std_specs::hash::group_hash_axioms;

/// What was escaped under some options.
struct EscapeCache {
    options: StringEscapeOptions,
    forms: HashMap<usize, ExprRef>,
}

/// What was built of a pattern that was spelled out.
struct BuiltPattern {
    pattern: Pattern,
    expr: ExprRef,
}

/// Builds expressions.
pub struct RegexBuilder {
    flags: ParserFlags,
    exprset: ExprSet,
    string_escape_caches: Vec<EscapeCache>,
    patterns: Vec<BuiltPattern>,
}

/// The expression is that of the pattern.
spec fn pattern_built(set: &ExprSet, t: Syntax, e: ExprRef) -> bool {
    &&& set.valid(e)
    &&& forall|s: Reading| #[trigger] set.lang(e, s) == pattern::meaning(t, s)
    &&& pattern::is_stop_capture(t) ==> lang::fresh_lookahead(set.tree(e))
    &&& pattern::stops_match(t) ==> set.clear(e)
}

proof fn lemma_pattern_kept(after: &ExprSet, before: &ExprSet, t: Syntax, e: ExprRef)
    requires
        after.keeps(before),
        pattern_built(before, t, e),
    ensures
        pattern_built(after, t, e),
{
    assert(before.valid(e));
    assert(after.tree(e) == before.tree(e));
    assert forall|s: Reading| #[trigger] after.lang(e, s) == pattern::meaning(t, s) by {
        assert(before.lang(e, s) == pattern::meaning(t, s));
    }
}

impl RegexBuilder {
    /// The expressions that were built.
    pub closed spec fn set(&self) -> ExprSet {
        self.exprset
    }

    /// How patterns are parsed.
    pub closed spec fn parser_flags(&self) -> ParserFlags {
        self.flags
    }

    /// The expressions are well formed, and what is remembered is right.
    pub closed spec fn wf(&self) -> bool {
        &&& self.exprset.wf()
        &&& forall|k: int|
            0 <= k < self.string_escape_caches@.len() ==> quote::cache_ok(
                &self.exprset,
                (#[trigger] self.string_escape_caches@[k]).options@,
                self.string_escape_caches@[k].forms@,
            )
        &&& forall|i: int, j: int|
            0 <= i < j < self.string_escape_caches@.len() ==> (
            #[trigger] self.string_escape_caches@[i]).options@ != (
            #[trigger] self.string_escape_caches@[j]).options@
        &&& self.patterns_ok()
    }

    /// What is known of patterns is right, and each is known once.
    spec fn patterns_ok(&self) -> bool {
        &&& forall|k: int|
            0 <= k < self.patterns@.len() ==> pattern_built(
                &self.exprset,
                (#[trigger] self.patterns@[k]).pattern@,
                self.patterns@[k].expr,
            )
        &&& forall|i: int, j: int|
            0 <= i < j < self.patterns@.len() ==> (#[trigger] self.patterns@[i]).pattern@ != (
            #[trigger] self.patterns@[j]).pattern@
    }

    /// The builder knows that `e` is the expression of a pattern that is spelled out.
    pub closed spec fn knows(&self, t: Syntax, e: ExprRef) -> bool {
        exists|k: int|
            0 <= k < self.patterns@.len() && (#[trigger] self.patterns@[k]).pattern@ == t
                && self.patterns@[k].expr == e
    }

    /// The builder knows that `r` is the escaped form of `e` under the grammar.
    pub closed spec fn remembers(&self, o: EscapeView, e: ExprRef, r: ExprRef) -> bool {
        exists|k: int|
            0 <= k < self.string_escape_caches@.len() && escape::normalized(
                (#[trigger] self.string_escape_caches@[k]).options@,
                o,
            ) && self.string_escape_caches@[k].forms@.contains_key(e.id)
                && self.string_escape_caches@[k].forms@[e.id] == r
    }

    /// The builder after more was built.
    pub open spec fn grown(&self, before: &RegexBuilder) -> bool {
        &&& self.wf()
        &&& self.set().keeps(&before.set())
        &&& self.parser_flags() == before.parser_flags()
        &&& forall|o: EscapeView, e: ExprRef, r: ExprRef| #[trigger]
            before.remembers(o, e, r) ==> self.remembers(o, e, r)
        &&& forall|t: Syntax, e: ExprRef| #[trigger] before.knows(t, e) ==> self.knows(t, e)
    }

    /// All that was remembered still is, and nothing else.
    pub open spec fn recalls(&self, before: &RegexBuilder) -> bool {
        &&& forall|o: EscapeView, e: ExprRef, r: ExprRef| #[trigger]
            self.remembers(o, e, r) == before.remembers(o, e, r)
        &&& forall|t: Syntax, e: ExprRef| #[trigger] self.knows(t, e) == before.knows(t, e)
    }

    /// Nothing is remembered under this grammar in normal form.
    spec fn knows_nothing(&self, n: EscapeView) -> bool {
        forall|k: int|
            0 <= k < self.string_escape_caches@.len() ==> (
            #[trigger] self.string_escape_caches@[k]).options@ != n
    }

    /// Grammars that differ at most in order, in repetition and in how ranges are spelled share what
    /// is remembered.
    pub proof fn equivalent_share_forms(
        &self,
        x: EscapeView,
        y: EscapeView,
        e: ExprRef,
        r: ExprRef,
    )
        requires
            normal_form::equivalent(x, y),
            exists|n: EscapeView| #[trigger] escape::normalized(n, y),
            self.remembers(x, e, r),
        ensures
            self.remembers(y, e, r),
    {
        let caches = self.string_escape_caches@;
        let n = choose|n: EscapeView| #[trigger] escape::normalized(n, y);
        let k = choose|k: int|
            0 <= k < caches.len() && escape::normalized((#[trigger] caches[k]).options@, x)
                && caches[k].forms@.contains_key(e.id) && caches[k].forms@[e.id] == r;
        normal_form::equivalent_normalize_alike(x, y, caches[k].options@, n);
        assert(escape::normalized(caches[k].options@, y));
    }

    /// A pattern that is spelled out has one expression.
    pub proof fn known_once(&self, t: Syntax, a: ExprRef, b: ExprRef)
        requires
            self.wf(),
            self.knows(t, a),
            self.knows(t, b),
        ensures
            a == b,
    {
        let ps = self.patterns@;
        let i = choose|k: int|
            0 <= k < ps.len() && (#[trigger] ps[k]).pattern@ == t && ps[k].expr == a;
        let j = choose|k: int|
            0 <= k < ps.len() && (#[trigger] ps[k]).pattern@ == t && ps[k].expr == b;
        assert(i == j);
    }

    proof fn lemma_grown(&self, before: &RegexBuilder)
        requires
            before.wf(),
            self.exprset.wf(),
            self.exprset.keeps(&before.exprset),
            self.string_escape_caches == before.string_escape_caches,
            self.patterns == before.patterns,
            self.flags == before.flags,
        ensures
            self.grown(before),
    {
        assert forall|k: int| 0 <= k < self.patterns@.len() implies pattern_built(
            &self.exprset,
            (#[trigger] self.patterns@[k]).pattern@,
            self.patterns@[k].expr,
        ) by {
            lemma_pattern_kept(
                &self.exprset,
                &before.exprset,
                self.patterns@[k].pattern@,
                self.patterns@[k].expr,
            );
        }
        assert forall|k: int| 0 <= k < self.string_escape_caches@.len() implies quote::cache_ok(
            &self.exprset,
            (#[trigger] self.string_escape_caches@[k]).options@,
            self.string_escape_caches@[k].forms@,
        ) by {
            quote::lemma_cache_kept(
                &self.exprset,
                &before.exprset,
                self.string_escape_caches@[k].options@,
                self.string_escape_caches@[k].forms@,
            );
        }
    }

    /// A builder of no expressions but the constant ones.
    pub fn new() -> (r: RegexBuilder)
        ensures
            r.wf(),
            r.parser_flags() == syntax::default_flags(),
            forall|e: ExprRef| #[trigger] r.set().valid(e) <==> e.id < 2,
    {
        RegexBuilder {
            flags: ParserFlags {
                unicode: true,
                utf8: true,
                ignore_whitespace: false,
                case_insensitive: false,
                dot_matches_new_line: false,
            },
            exprset: ExprSet::new(),
            string_escape_caches: Vec::new(),
            patterns: Vec::new(),
        }
    }

    /// The expressions that were built.
    pub fn exprset(&self) -> (r: &ExprSet)
        ensures
            *r == self.set(),
            self.wf() ==> r.wf(),
    {
        &self.exprset
    }

    /// The expressions that were built.
    pub fn into_exprset(self) -> (r: ExprSet)
        ensures
            r == self.set(),
            self.wf() ==> r.wf(),
    {
        self.exprset
    }

    /// Makes room for more expressions.
    pub fn reserve(&mut self, size: usize)
        requires
            old(self).wf(),
        ensures
            final(self).grown(old(self)),
            forall|e: ExprRef| #[trigger] final(self).set().valid(e) == old(self).set().valid(e),
    {
        self.exprset.reserve(size);
        proof {
            self.lemma_grown(old(self));
        }
    }

    /// The first byte that the options have to escape and cannot.
    fn first_unrepresentable(options: &StringEscapeOptions) -> (r: Option<u8>)
        requires
            sorting::strictly_sorted(options@.must_escape),
        ensures
            match r {
                Some(b) => escape::unrepresentable(options@, b) && forall|c: u8|
                    c < b ==> !#[trigger] escape::unrepresentable(options@, c),
                None => forall|c: u8| !#[trigger] escape::unrepresentable(options@, c),
            },
    {
        let ghost o = options@;
        match &options.fallback {
            None => None,
            Some(f) => {
                if f.valid_byte_ranges.is_none() {
                    return None;
                }
                let mut i: usize = 0;
                while i < options.must_escape.len()
                    invariant
                        o == options@,
                        i <= o.must_escape.len(),
                        o.fallback == Some(f@),
                        f@.ranges is Some,
                        sorting::strictly_sorted(o.must_escape),
                        forall|k: int|
                            0 <= k < i ==> !escape::unrepresentable(o, #[trigger] o.must_escape[k]),
                    decreases o.must_escape.len() - i,
                {
                    let b: u8 = options.must_escape[i];
                    assert(o.must_escape[i as int] == b);
                    if !f.covers_byte(b) && !Self::has_sequence(options, b) {
                        proof {
                            assert forall|c: u8| c < b implies !#[trigger] escape::unrepresentable(
                                o,
                                c,
                            ) by {
                                if o.must_escape.contains(c) {
                                    let k = o.must_escape.index_of(c);
                                    assert(o.must_escape[k] == c);
                                    assert(k < i);
                                }
                            }
                        }
                        return Some(b);
                    }
                    i = i + 1;
                }
                proof {
                    assert forall|c: u8| !#[trigger] escape::unrepresentable(o, c) by {
                        if o.must_escape.contains(c) {
                            let k = o.must_escape.index_of(c);
                            assert(o.must_escape[k] == c);
                        }
                    }
                }
                None
            },
        }
    }

    /// Whether the byte has an escape sequence.
    fn has_sequence(options: &StringEscapeOptions, b: u8) -> (r: bool)
        ensures
            r == sorting::has_key(options@.sequences, b),
    {
        let mut i: usize = 0;
        while i < options.escape_sequences.len()
            invariant
                i <= options.escape_sequences@.len(),
                forall|k: int| 0 <= k < i ==> (#[trigger] options@.sequences[k]).0 != b,
            decreases options.escape_sequences@.len() - i,
        {
            if options.escape_sequences[i].0 == b {
                assert(options@.sequences[i as int].0 == b);
                return true;
            }
            i = i + 1;
        }
        false
    }

    /// What is remembered of escaping under these options.
    fn take_cache(&mut self, options: &StringEscapeOptions) -> (r: HashMap<usize, ExprRef>)
        requires
            old(self).wf(),
        ensures
            final(self).wf(),
            final(self).set() == old(self).set(),
            final(self).parser_flags() == old(self).parser_flags(),
            quote::cache_ok(&old(self).set(), options@, r@),
            final(self).knows_nothing(options@),
            final(self).patterns == old(self).patterns,
            forall|o: EscapeView, e: ExprRef, x: ExprRef| #[trigger]
                old(self).remembers(o, e, x) ==> final(self).remembers(o, e, x) || (
                escape::normalized(options@, o) && r@.contains_key(e.id) && r@[e.id] == x),
    {
        let mut k: usize = 0;
        while k < self.string_escape_caches.len()
            invariant
                k <= self.string_escape_caches@.len(),
                *self == *old(self),
                old(self).wf(),
                forall|n: int|
                    0 <= n < k ==> (#[trigger] self.string_escape_caches@[n]).options@ != options@,
            decreases self.string_escape_caches@.len() - k,
        {
            if same_options(&self.string_escape_caches[k].options, options) {
                let ghost before = self.string_escape_caches@;
                let cache: EscapeCache = self.string_escape_caches.remove(k);
                proof {
                    assert forall|n: int|
                        0 <= n < self.string_escape_caches@.len() implies quote::cache_ok(
                        &self.exprset,
                        (#[trigger] self.string_escape_caches@[n]).options@,
                        self.string_escape_caches@[n].forms@,
                    ) by {
                        assert(self.string_escape_caches@[n] == before[if n < k {
                            n
                        } else {
                            n + 1
                        }]);
                    }
                    assert(before[k as int] == cache);
                    let caches = self.string_escape_caches@;
                    assert forall|n: int| 0 <= n < caches.len() implies (
                    #[trigger] caches[n]).options@ != options@ by {
                        assert(caches[n] == before[if n < k {
                            n
                        } else {
                            n + 1
                        }]);
                        assert(before[k as int].options@ == options@);
                    }
                    assert forall|i: int, j: int| 0 <= i < j < caches.len() implies (
                    #[trigger] caches[i]).options@ != (#[trigger] caches[j]).options@ by {
                        assert(caches[i] == before[if i < k {
                            i
                        } else {
                            i + 1
                        }]);
                        assert(caches[j] == before[if j < k {
                            j
                        } else {
                            j + 1
                        }]);
                    }
                    assert forall|o: EscapeView, e: ExprRef, x: ExprRef| #[trigger]
                        old(self).remembers(o, e, x) implies self.remembers(o, e, x) || (
                    escape::normalized(options@, o) && cache.forms@.contains_key(e.id)
                        && cache.forms@[e.id] == x) by {
                        let m = choose|m: int|
                            0 <= m < before.len() && escape::normalized(
                                (#[trigger] before[m]).options@,
                                o,
                            ) && before[m].forms@.contains_key(e.id) && before[m].forms@[e.id] == x;
                        if m != k {
                            let here = if m < k {
                                m
                            } else {
                                m - 1
                            };
                            assert(caches[here] == before[m]);
                        }
                    }
                }
                return cache.forms;
            }
            k = k + 1;
        }
        HashMap::new()
    }

    /// Transform a regex for string-literal escaping.
    ///
    /// Given regex R, produces R' such that strings matching R', when unescaped according to the
    /// given grammar, yield strings matching R. Where R has no byte that has to be escaped, R' is R.
    /// Escaping R again under the same grammar, in whatever order it is listed, gives R' again.
    pub fn string_escape(&mut self, e: ExprRef, options: &StringEscapeOptions) -> (r: Result<
        ExprRef,
        Error,
    >)
        requires
            old(self).wf(),
            old(self).set().valid(e),
        ensures
            final(self).grown(old(self)),
            match r {
                Ok(r) => {
                    &&& escape::usable(options@)
                    &&& final(self).set().valid(r)
                    &&& forall|s: Reading| #[trigger]
                        final(self).set().lang(r, s) == old(self).set().lang(
                            e,
                            quote::through(options@, s),
                        )
                    &&& quote::untouched(
                        old(self).set().tree(e),
                        quote::escaped_bytes(options@),
                    ) ==> r == e
                    &&& final(self).remembers(options@, e, r)
                    &&& forall|x: ExprRef| #[trigger]
                        old(self).remembers(options@, e, x) ==> r == x
                    &&& old(self).set().tree(e) is Lookahead ==> r == e
                        || lang::fresh_lookahead(final(self).set().tree(r))
                    &&& old(self).set().unmarked() ==> final(self).set().unmarked()
                },
                Err(e) => escape::is_escape_error(options@, e) && *final(self) == *old(self),
            },
    {
        let ghost o = options@;
        let mut options: StringEscapeOptions = options.clone();
        match options.normalize() {
            Err(e) => {
                proof {
                    self.lemma_grown(old(self));
                }
                return Err(e);
            },
            Ok(()) => {},
        }
        let ghost n = options@;
        proof {
            escape::normalized_reading(n, o);
        }
        match Self::first_unrepresentable(&options) {
            Some(b) => {
                proof {
                    self.lemma_grown(old(self));
                }
                return Err(Error::UnrepresentableByte(b));
            },
            None => {},
        }
        let mut forms: HashMap<usize, ExprRef> = self.take_cache(&options);
        let ghost taken = *self;
        let ghost found = forms@;
        let quoter: Quoter = Quoter::new(options.clone());
        let r: ExprRef = quoter.escape_expr(&mut self.exprset, &mut forms, e);
        proof {
            self.lemma_grown(&taken);
        }
        let ghost caches = self.string_escape_caches@;
        let ghost known = forms@;
        self.string_escape_caches.push(EscapeCache { options, forms });
        proof {
            assert forall|k: int| 0 <= k < self.string_escape_caches@.len() implies quote::cache_ok(
                &self.exprset,
                (#[trigger] self.string_escape_caches@[k]).options@,
                self.string_escape_caches@[k].forms@,
            ) by {
                if k < caches.len() {
                    assert(self.string_escape_caches@[k] == caches[k]);
                }
            }
            assert(self.exprset.tree(e) == old(self).exprset.tree(e));
            let after = self.string_escape_caches@;
            assert(after[caches.len() as int].options@ == n);
            assert forall|i: int, j: int| 0 <= i < j < after.len() implies (
            #[trigger] after[i]).options@ != (#[trigger] after[j]).options@ by {
                assert(after[i] == caches[i]);
                if j < caches.len() {
                    assert(after[j] == caches[j]);
                }
            }
            assert(self.remembers(o, e, r));
            assert forall|p: EscapeView, a: ExprRef, x: ExprRef| #[trigger]
                old(self).remembers(p, a, x) implies self.remembers(p, a, x) by {
                if taken.remembers(p, a, x) {
                    let k = choose|k: int|
                        0 <= k < caches.len() && escape::normalized(
                            (#[trigger] caches[k]).options@,
                            p,
                        ) && caches[k].forms@.contains_key(a.id) && caches[k].forms@[a.id] == x;
                    assert(after[k] == caches[k]);
                } else {
                    assert(known.contains_key(a.id) && known[a.id] == x);
                    assert(after[caches.len() as int].forms@ == known);
                }
            }
            assert forall|x: ExprRef| #[trigger] old(self).remembers(o, e, x) implies r == x by {
                if taken.remembers(o, e, x) {
                    let k = choose|k: int|
                        0 <= k < caches.len() && escape::normalized(
                            (#[trigger] caches[k]).options@,
                            o,
                        ) && caches[k].forms@.contains_key(e.id) && caches[k].forms@[e.id] == x;
                    normal_form::normal_form_unique(o, caches[k].options@, n);
                }
                assert(found.contains_key(e.id) && found[e.id] == x);
            }
            assert(quote::escaped_bytes(n) =~= quote::escaped_bytes(o)) by {
                assert forall|b: u8| n.must_escape.contains(b) == #[trigger] o.must_escape.contains(
                    b,
                ) by {}
            }
            assert forall|s: Reading| #[trigger]
                self.set().lang(r, s) == old(self).set().lang(e, quote::through(o, s)) by {
                assert(self.exprset.lang(r, s) == self.exprset.lang(e, quote::through(n, s)));
                assert(quote::through(n, s) == quote::through(o, s));
            }
        }
        Ok(r)
    }
}

impl Default for RegexBuilder {
    fn default() -> (r: RegexBuilder)
        ensures
            r.wf(),
            r.parser_flags() == syntax::default_flags(),
            forall|e: ExprRef| #[trigger] r.set().valid(e) <==> e.id < 2,
    {
        RegexBuilder::new()
    }
}

impl RegexBuilder {
    /// Transform a regex for JSON string quoting.
    ///
    /// Escapes it as [`RegexBuilder::string_escape`] does, under the grammar that the options stand
    /// for, and puts it in double quotes unless in raw mode.
    pub fn json_quote(&mut self, e: ExprRef, options: &JsonQuoteOptions) -> (r: Result<
        ExprRef,
        Error,
    >)
        requires
            old(self).wf(),
            old(self).set().valid(e),
        ensures
            final(self).grown(old(self)),
            match r {
                Ok(r) => {
                    &&& semantics::names_valid(options@)
                    &&& final(self).set().valid(r)
                    &&& forall|s: Reading| #[trigger]
                        final(self).set().lang(r, s) == semantics::quoted(
                            options@,
                            old(self).set().lang(
                                e,
                                quote::through(json_quote::escape_view(options@), s),
                            ),
                            s,
                        )
                    &&& options@.raw_mode ==> {
                        let o = json_quote::escape_view(options@);
                        &&& final(self).remembers(o, e, r)
                        &&& forall|x: ExprRef| #[trigger] old(self).remembers(o, e, x) ==> r == x
                        &&& old(self).set().tree(e) is Lookahead ==> r == e
                            || lang::fresh_lookahead(final(self).set().tree(r))
                    }
                    &&& old(self).set().unmarked() ==> final(self).set().unmarked()
                },
                Err(e) => semantics::is_quote_error(options@, e) && *final(self) == *old(self),
            },
    {
        let ghost o = options@;
        let bytes: &[u8] = options.allowed_escapes.as_str().as_bytes();
        let mut i: usize = 0;
        while i < bytes.len()
            invariant
                *self == *old(self),
                old(self).wf(),
                i <= bytes@.len(),
                o == options@,
                bytes@ == vstd::utf8::encode_utf8(o.allowed_escapes),
                forall|k: int| 0 <= k < i ==> json_quote::is_escape_name(#[trigger] bytes@[k]),
            decreases bytes@.len() - i,
        {
            if !is_escape_name_byte(bytes[i]) {
                proof {
                    self.lemma_grown(old(self));
                    assert(bytes@[i as int] == bytes@[i as int]);
                }
                return Err(Error::InvalidAllowedEscape(bytes[i]));
            }
            i = i + 1;
        }
        proof {
            assert(semantics::names_valid(o)) by {
                assert forall|b: u8| #[trigger]
                    json_quote::allowed(o, b) implies json_quote::is_escape_name(b) by {
                    assert(bytes@[bytes@.index_of(b)] == b);
                }
            }
        }
        let escapes: StringEscapeOptions = options.to_string_escape_options();
        match self.string_escape(e, &escapes) {
            Err(error) => {
                proof {
                    json_quote::quote_options_usable(o);
                    escape::escape_error_unusable(escapes@, error);
                }
                Err(error)
            },
            Ok(inner) => {
                if options.raw_mode {
                    return Ok(inner);
                }
                let ghost b1 = *self;
                let quote = self.exprset.mk_byte('"' as u8);
                let ghost s2 = self.exprset;
                let parts: Vec<ExprRef> = vec![quote, inner, quote];
                let r = self.exprset.mk_concat_vec(parts.as_slice());
                proof {
                    self.lemma_grown(&b1);
                    assert(s2.tree(inner) == b1.exprset.tree(inner));
                    assert forall|s: Reading| #[trigger]
                        self.set().lang(r, s) == semantics::quoted(
                        o,
                        old(self).set().lang(
                            e,
                            quote::through(json_quote::escape_view(o), s),
                        ),
                        s,
                    ) by {
                        let ls = s2.langs(parts@, s);
                        let l1 = ls.skip(1);
                        let l2 = l1.skip(1);
                        reveal_with_fuel(lang::cat_all, 4);
                        assert(ls.len() == 3 && l2.skip(1).len() == 0);
                        assert(ls[0] == s2.lang(quote, s));
                        assert(l1[0] == s2.lang(inner, s));
                        assert(l2[0] == s2.lang(quote, s));
                        lang::cat_epsilon_right(l2[0]);
                        assert(lang::cat_all(l2) == l2[0]);
                        assert(lang::cat_all(l1) == lang::cat(l1[0], l2[0]));
                        assert(s2.lang(inner, s) == b1.set().lang(inner, s));
                    }
                }
                Ok(r)
            },
        }
    }

    /// The expression of a pattern, which has to match a whole text.
    pub fn mk_regex(&mut self, s: &str) -> (r: Result<ExprRef, Error>)
        requires
            old(self).wf(),
        ensures
            final(self).grown(old(self)),
            !semantics::pattern_marks(old(self).parser_flags(), s@)
                ==> final(self).set().adds_no_lookahead(&old(self).set()),
            match r {
                Ok(e) => {
                    &&& semantics::pattern_ok(old(self).parser_flags(), s@)
                    &&& final(self).set().valid(e)
                    &&& forall|m: Reading| #[trigger]
                        final(self).set().lang(e, m) == semantics::pattern_lang(
                            old(self).parser_flags(),
                            s@,
                            false,
                            m,
                        )
                    &&& syntax::parsed(old(self).parser_flags(), s@) matches Ok(t)
                    &&& !pattern::has_stop(t) || pattern::stops_match(unfold::plain_form(t, false))
                        ==> final(self).set().clear(e)
                    &&& final(self).knows(unfold::plain_form(t, false), e)
                    &&& forall|x: ExprRef| #[trigger]
                        old(self).knows(unfold::plain_form(t, false), x) ==> e == x
                    &&& pattern::is_stop_capture(t) ==> lang::fresh_lookahead(
                        final(self).set().tree(e),
                    )
                },
                Err(e) => semantics::is_pattern_error(old(self).parser_flags(), s@, e),
            },
    {
        self.mk_parsed(s, false)
    }

    /// The expression of a pattern that has to match somewhere in a text.
    pub fn mk_regex_for_serach(&mut self, s: &str) -> (r: Result<ExprRef, Error>)
        requires
            old(self).wf(),
        ensures
            final(self).grown(old(self)),
            !semantics::pattern_marks(old(self).parser_flags(), s@)
                ==> final(self).set().adds_no_lookahead(&old(self).set()),
            match r {
                Ok(e) => {
                    &&& semantics::pattern_ok(old(self).parser_flags(), s@)
                    &&& final(self).set().valid(e)
                    &&& forall|m: Reading| #[trigger]
                        final(self).set().lang(e, m) == semantics::pattern_lang(
                            old(self).parser_flags(),
                            s@,
                            true,
                            m,
                        )
                    &&& syntax::parsed(old(self).parser_flags(), s@) matches Ok(t)
                    &&& !pattern::has_stop(t) || pattern::stops_match(unfold::plain_form(t, true))
                        ==> final(self).set().clear(e)
                    &&& final(self).knows(unfold::plain_form(t, true), e)
                    &&& forall|x: ExprRef| #[trigger]
                        old(self).knows(unfold::plain_form(t, true), x) ==> e == x
                },
                Err(e) => semantics::is_pattern_error(old(self).parser_flags(), s@, e),
            },
    {
        self.mk_parsed(s, true)
    }

    fn mk_parsed(&mut self, s: &str, search: bool) -> (r: Result<ExprRef, Error>)
        requires
            old(self).wf(),
        ensures
            final(self).grown(old(self)),
            !semantics::pattern_marks(old(self).parser_flags(), s@)
                ==> final(self).set().adds_no_lookahead(&old(self).set()),
            match r {
                Ok(e) => {
                    &&& semantics::pattern_ok(old(self).parser_flags(), s@)
                    &&& final(self).set().valid(e)
                    &&& forall|m: Reading| #[trigger]
                        final(self).set().lang(e, m) == semantics::pattern_lang(
                            old(self).parser_flags(),
                            s@,
                            search,
                            m,
                        )
                    &&& syntax::parsed(old(self).parser_flags(), s@) matches Ok(t)
                    &&& !pattern::has_stop(t) || pattern::stops_match(unfold::plain_form(t, search))
                        ==> final(self).set().clear(e)
                    &&& final(self).knows(unfold::plain_form(t, search), e)
                    &&& forall|x: ExprRef| #[trigger]
                        old(self).knows(unfold::plain_form(t, search), x) ==> e == x
                    &&& pattern::is_stop_capture(t) && !search ==> lang::fresh_lookahead(
                        final(self).set().tree(e),
                    )
                },
                Err(e) => semantics::is_pattern_error(old(self).parser_flags(), s@, e),
            },
    {
        match parse_pattern(self.flags, s) {
            Err(t) => {
                proof {
                    self.lemma_grown(old(self));
                }
                Err(Error::Syntax(t))
            },
            Ok(p) => {
                let r = self.mk_pattern(&p, search);
                proof {
                    if r is Ok {
                        let e = r->Ok_0;
                        assert forall|m: Reading| #[trigger]
                            self.set().lang(e, m) == semantics::pattern_lang(
                            old(self).parser_flags(),
                            s@,
                            search,
                            m,
                        ) by {
                            let l = semantics::pattern_lang(
                                old(self).parser_flags(),
                                s@,
                                search,
                                m,
                            );
                            assert forall|w: Seq<u8>| #[trigger] self.set().lang(e, m)(w) == l(
                                w,
                            ) by {
                                assert(self.set().lang(e, m)(w) == pattern::accepts(
                                    p@,
                                    search,
                                    m,
                                    w,
                                ));
                            }
                            assert(self.set().lang(e, m) =~= l);
                        }
                    }
                }
                r
            },
        }
    }

    /// The expression of a parsed pattern. Without `search` the pattern has to match a whole text;
    /// for a search it has to match somewhere in it. Patterns that are the same when spelled out have
    /// the same expression.
    pub fn mk_pattern(&mut self, pattern: &Pattern, search: bool) -> (r: Result<ExprRef, Error>)
        requires
            old(self).wf(),
        ensures
            final(self).grown(old(self)),
            !pattern::has_stop(pattern@) ==> final(self).set().adds_no_lookahead(&old(self).set()),
            match r {
                Ok(e) => {
                    &&& pattern::placed(pattern@, true, true)
                    &&& final(self).set().valid(e)
                    &&& forall|s: Reading, w: Seq<u8>| #[trigger]
                        final(self).set().lang(e, s)(w) == pattern::accepts(pattern@, search, s, w)
                    &&& pattern::is_stop_capture(pattern@) && !search ==> lang::fresh_lookahead(
                        final(self).set().tree(e),
                    )
                    &&& !pattern::has_stop(pattern@) || pattern::stops_match(
                        unfold::plain_form(pattern@, search),
                    ) ==> final(self).set().clear(e)
                    &&& final(self).knows(unfold::plain_form(pattern@, search), e)
                    &&& forall|x: ExprRef| #[trigger]
                        old(self).knows(unfold::plain_form(pattern@, search), x) ==> e == x
                },
                Err(Error::MisplacedAnchor) => !pattern::placed(pattern@, true, true),
                Err(_) => false,
            },
    {
        let ghost t = pattern@;
        let ghost f = unfold::plain_form(t, search);
        proof {
            self.lemma_grown(old(self));
        }
        let form: Pattern = match unfold_pattern(pattern, search) {
            Err(e) => {
                return Err(e);
            },
            Ok(form) => form,
        };
        proof {
            unfold::unfolded_means(t, true, true, search, lang::plain());
            if !pattern::has_stop(t) {
                pattern::no_stops_match(f);
            }
            assert forall|s: Reading, w: Seq<u8>| #[trigger]
                pattern::meaning(f, s)(w) == pattern::accepts(t, search, s, w) by {
                unfold::unfolded_means(t, true, true, search, s);
                pattern::placed_lang_accepts(t, search, s, w);
            }
        }
        let mut k: usize = 0;
        while k < self.patterns.len()
            invariant
                *self == *old(self),
                old(self).wf(),
                self.grown(old(self)),
                k <= self.patterns@.len(),
                form@ == f,
                f == unfold::plain_form(t, search),
                t == pattern@,
                pattern::placed(t, true, true),
                pattern::is_stop_capture(t) && !search ==> pattern::is_stop_capture(f),
                !pattern::has_stop(t) ==> pattern::stops_match(f),
                forall|s: Reading, w: Seq<u8>| #[trigger]
                    pattern::meaning(f, s)(w) == pattern::accepts(t, search, s, w),
                forall|n: int| 0 <= n < k ==> (#[trigger] self.patterns@[n]).pattern@ != f,
            decreases self.patterns@.len() - k,
        {
            if same_pattern(&self.patterns[k].pattern, &form) {
                let e: ExprRef = self.patterns[k].expr;
                proof {
                    assert(pattern_built(&self.exprset, self.patterns@[k as int].pattern@, e));
                    assert forall|x: ExprRef| #[trigger] self.knows(f, x) implies e == x by {
                        let n = choose|n: int|
                            0 <= n < self.patterns@.len() && (
                            #[trigger] self.patterns@[n]).pattern@ == f && self.patterns@[n].expr
                                == x;
                        assert(n == k);
                    }
                    assert forall|s: Reading, w: Seq<u8>| #[trigger]
                        self.set().lang(e, s)(w) == pattern::accepts(t, search, s, w) by {
                        assert(self.exprset.lang(e, s) == pattern::meaning(f, s));
                    }
                }
                return Ok(e);
            }
            k = k + 1;
        }
        let e: ExprRef = mk_look_free(&mut self.exprset, &form);
        proof {
            self.lemma_grown(old(self));
        }
        let ghost mid = *self;
        self.patterns.push(BuiltPattern { pattern: form, expr: e });
        proof {
            let ps = self.patterns@;
            let before = mid.patterns@;
            assert(ps[before.len() as int].pattern@ == f && ps[before.len() as int].expr == e);
            assert forall|n: int| 0 <= n < ps.len() implies pattern_built(
                &self.exprset,
                (#[trigger] ps[n]).pattern@,
                ps[n].expr,
            ) by {
                if n < before.len() {
                    assert(ps[n] == before[n]);
                }
            }
            assert forall|i: int, j: int| 0 <= i < j < ps.len() implies (
            #[trigger] ps[i]).pattern@ != (#[trigger] ps[j]).pattern@ by {
                assert(ps[i] == before[i]);
                if j < before.len() {
                    assert(ps[j] == before[j]);
                }
            }
            assert forall|u: Syntax, x: ExprRef| #[trigger] mid.knows(u, x) implies self.knows(
                u,
                x,
            ) by {
                let n = choose|n: int|
                    0 <= n < before.len() && (#[trigger] before[n]).pattern@ == u && before[n].expr
                        == x;
                assert(ps[n] == before[n]);
            }
            assert forall|o: EscapeView, a: ExprRef, x: ExprRef| #[trigger]
                mid.remembers(o, a, x) implies self.remembers(o, a, x) by {}
            assert(self.knows(f, e));
            assert forall|s: Reading, w: Seq<u8>| #[trigger]
                self.set().lang(e, s)(w) == pattern::accepts(t, search, s, w) by {
                assert(self.exprset.lang(e, s) == pattern::meaning(f, s));
            }
        }
        Ok(e)
    }

    /// Whether the expression matches the empty string.
    pub fn is_nullable(&self, r: ExprRef) -> (n: bool)
        requires
            self.wf(),
            self.set().valid(r),
        ensures
            n == self.set().lang(r, lang::plain())(Seq::empty()),
    {
        self.exprset.is_nullable(r)
    }

    /// Matches a byte string of one of the branches, followed by what its expression matches.
    pub fn mk_prefix_tree(&mut self, branches: Vec<(Vec<u8>, ExprRef)>) -> (r: Result<
        ExprRef,
        Error,
    >)
        requires
            old(self).wf(),
            forall|k: int|
                0 <= k < branches@.len() ==> old(self).set().valid((#[trigger] branches@[k]).1),
        ensures
            final(self).grown(old(self)),
            r matches Ok(e) && final(self).set().valid(e) && forall|s: Reading| #[trigger]
                final(self).set().lang(e, s) == lang::union(
                    branches@.map_values(
                        |b: (Vec<u8>, ExprRef)|
                            lang::cat(lang::literal(b.0@, s), old(self).set().lang(b.1, s)),
                    ),
                ),
            (forall|k: int|
                0 <= k < branches@.len() ==> old(self).set().clear((#[trigger] branches@[k]).1))
                ==> final(self).set().clear(r->Ok_0),
    {
        let r = self.exprset.mk_prefix_tree(branches);
        proof {
            self.lemma_grown(old(self));
        }
        Ok(r)
    }
}

/// Each expression is that of its regex.
spec fn are_built(
    set: &ExprSet,
    flags: ParserFlags,
    base: ExprSet,
    args: Seq<Ast>,
    built: Seq<ExprRef>,
) -> bool {
    &&& built.len() <= args.len()
    &&& set.all_valid(built)
    &&& forall|k: int, s: Reading|
        0 <= k < built.len() ==> #[trigger] set.lang(built[k], s) == semantics::ast_lang(
            flags,
            base,
            args[k],
            s,
        )
    &&& forall|k: int|
        0 <= k < built.len() && semantics::is_lookahead(flags, args[k]) ==> lang::fresh_lookahead(
            set.tree(#[trigger] built[k]),
        )
    &&& forall|k: int|
        0 <= k < built.len() && semantics::is_clear(flags, args[k]) ==> set.clear(
            #[trigger] built[k],
        )
}

proof fn lemma_built_kept(
    after: &ExprSet,
    before: &ExprSet,
    flags: ParserFlags,
    args: Seq<Ast>,
    built: Seq<ExprRef>,
)
    requires
        after.keeps(before),
        are_built(before, flags, *before, args, built),
        forall|k: int|
            0 <= k < built.len() ==> !semantics::fails(flags, *before, #[trigger] args[k]),
    ensures
        are_built(after, flags, *after, args, built),
        forall|k: int|
            0 <= k < built.len() ==> !semantics::fails(flags, *after, #[trigger] args[k]),
{
    assert forall|k: int| 0 <= k < built.len() implies after.valid(#[trigger] built[k])
        && after.tree(built[k]) == before.tree(built[k]) by {
        assert(before.valid(built[k]));
    }
    assert forall|k: int| 0 <= k < built.len() implies !semantics::fails(
        flags,
        *after,
        #[trigger] args[k],
    ) by {
        semantics::buildable_kept(flags, *after, *before, args[k]);
    }
    assert forall|k: int, s: Reading| 0 <= k < built.len() implies #[trigger] after.lang(
        built[k],
        s,
    ) == semantics::ast_lang(flags, *after, args[k], s) by {
        assert(before.valid(built[k]));
        assert(!semantics::fails(flags, *before, args[k]));
        assert(before.lang(built[k], s) == semantics::ast_lang(flags, *before, args[k], s));
        semantics::ast_lang_kept(flags, *after, *before, args[k], s);
    }
}

/// The languages of the expressions are those of the regexes.
proof fn lemma_built_langs(
    set: &ExprSet,
    flags: ParserFlags,
    base: ExprSet,
    args: Seq<Ast>,
    built: Seq<ExprRef>,
    s: Reading,
)
    requires
        are_built(set, flags, base, args, built),
        built.len() == args.len(),
    ensures
        set.langs(built, s) == semantics::ast_langs(flags, base, args, s),
{
    let a = set.langs(built, s);
    let b = semantics::ast_langs(flags, base, args, s);
    assert forall|k: int| 0 <= k < a.len() implies #[trigger] a[k] == b[k] by {
        assert(set.lang(built[k], s) == semantics::ast_lang(flags, base, args[k], s));
    }
    assert(a =~= b);
}

impl RegexBuilder {
    /// Builds a regex.
    ///
    /// A reference has to be one of the expressions that were built before it is reached, here or
    /// earlier.
    pub fn mk(&mut self, ast: &RegexAst) -> (r: Result<ExprRef, Error>)
        requires
            old(self).wf(),
        ensures
            final(self).grown(old(self)),
            match r {
                Ok(e) => {
                    &&& !semantics::fails(old(self).parser_flags(), final(self).set(), ast@)
                    &&& final(self).set().valid(e)
                    &&& forall|s: Reading| #[trigger]
                        final(self).set().lang(e, s) == semantics::ast_lang(
                            old(self).parser_flags(),
                            final(self).set(),
                            ast@,
                            s,
                        )
                    &&& semantics::is_lookahead(old(self).parser_flags(), ast@)
                        ==> lang::fresh_lookahead(final(self).set().tree(e))
                    &&& semantics::fixed_ref(ast@) matches Some(x) ==> e == x
                    &&& semantics::is_clear(old(self).parser_flags(), ast@)
                        ==> final(self).set().clear(e)
                    &&& semantics::spelled_out(old(self).parser_flags(), ast@) matches Some(t) ==> {
                        &&& final(self).knows(t, e)
                        &&& forall|x: ExprRef| #[trigger] old(self).knows(t, x) ==> e == x
                    }
                },
                Err(e) => {
                    &&& semantics::fails(old(self).parser_flags(), old(self).set(), ast@)
                    &&& semantics::fails(old(self).parser_flags(), final(self).set(), ast@)
                    &&& semantics::is_ast_error(
                        old(self).parser_flags(),
                        final(self).set(),
                        ast@,
                        e,
                    )
                },
            },
            old(self).set().unmarked() && !semantics::marks(old(self).parser_flags(), ast@)
                ==> final(self).set().unmarked(),
        decreases ast, 1nat,
    {
        let ghost flags = self.parser_flags();
        let args: &[RegexAst] = ast.get_args();
        let mut built: Vec<ExprRef> = Vec::new();
        let mut k: usize = 0;
        proof {
            self.lemma_grown(old(self));
        }
        while k < args.len()
            invariant
                self.grown(old(self)),
                flags == old(self).parser_flags(),
                k <= args@.len(),
                built@.len() == k,
                crate::ast::ast_views(args@) == ast@.args,
                forall|n: int| 0 <= n < args@.len() ==> decreases_to!(ast => #[trigger] args@[n]),
                forall|n: int|
                    0 <= n < k ==> !semantics::fails(flags, self.set(), #[trigger] ast@.args[n]),
                are_built(&self.set(), flags, self.set(), ast@.args, built@),
                old(self).set().unmarked() && !semantics::marks(flags, ast@)
                    ==> self.set().unmarked(),
            decreases args@.len() - k,
        {
            let ghost before = *self;
            let ghost b0 = built@;
            proof {
                assert(ast@.args[k as int] == args@[k as int]@);
                assert(semantics::marks(flags, ast@.args[k as int]) ==> semantics::marks(
                    flags,
                    ast@,
                ));
            }
            match self.mk(&args[k]) {
                Err(e) => {
                    proof {
                        lemma_keeps_trans(&self.set(), &before.set(), &old(self).set());
                        lemma_built_kept(&self.set(), &before.set(), flags, ast@.args, b0);
                        let a = ast@.args[k as int];
                        assert(semantics::is_ast_error(flags, self.set(), a, e));
                        assert(semantics::fails(flags, self.set(), a));
                        if !semantics::fails(flags, old(self).set(), ast@) {
                            assert(!semantics::fails(flags, old(self).set(), a));
                            semantics::buildable_kept(flags, self.set(), old(self).set(), a);
                        }
                    }
                    return Err(e);
                },
                Ok(e) => {
                    built.push(e);
                    proof {
                        lemma_keeps_trans(&self.set(), &before.set(), &old(self).set());
                        lemma_built_kept(&self.set(), &before.set(), flags, ast@.args, b0);
                        assert forall|n: int| 0 <= n < built@.len() implies self.set().valid(
                            #[trigger] built@[n],
                        ) by {
                            if n < b0.len() {
                                assert(built@[n] == b0[n]);
                            }
                        }
                        assert forall|n: int|
                            0 <= n < built@.len() && semantics::is_lookahead(
                                flags,
                                ast@.args[n],
                            ) implies lang::fresh_lookahead(
                                self.set().tree(#[trigger] built@[n]),
                            ) by {
                            if n < b0.len() {
                                assert(built@[n] == b0[n]);
                            }
                        }
                        assert forall|n: int|
                            0 <= n < built@.len() && semantics::is_clear(
                                flags,
                                ast@.args[n],
                            ) implies self.set().clear(#[trigger] built@[n]) by {
                            if n < b0.len() {
                                assert(built@[n] == b0[n]);
                            }
                        }
                        assert forall|n: int, s: Reading|
                            0 <= n < built@.len() implies #[trigger] self.set().lang(built@[n], s)
                            == semantics::ast_lang(flags, self.set(), ast@.args[n], s) by {
                            if n < b0.len() {
                                assert(built@[n] == b0[n]);
                                assert(self.set().lang(b0[n], s) == semantics::ast_lang(
                                    flags,
                                    self.set(),
                                    ast@.args[n],
                                    s,
                                ));
                            }
                        }
                    }
                },
            }
            k = k + 1;
        }
        let ghost mid = *self;
        let r = self.mk_node(ast, built.as_slice());
        proof {
            lemma_keeps_trans(&self.set(), &mid.set(), &old(self).set());
            assert forall|n: int| 0 <= n < ast@.args.len() implies !semantics::fails(
                flags,
                self.set(),
                #[trigger] ast@.args[n],
            ) by {
                semantics::buildable_kept(flags, self.set(), mid.set(), ast@.args[n]);
            }
            if r is Ok {
                assert(!semantics::fails(flags, mid.set(), ast@));
                semantics::buildable_kept(flags, self.set(), mid.set(), ast@);
                assert forall|s: Reading| #[trigger]
                    self.set().lang(r->Ok_0, s) == semantics::ast_lang(
                    flags,
                    self.set(),
                    ast@,
                    s,
                ) by {
                    semantics::ast_lang_kept(flags, self.set(), mid.set(), ast@, s);
                }
            } else {
                assert(semantics::fails(flags, self.set(), ast@));
                if !semantics::fails(flags, old(self).set(), ast@) {
                    semantics::buildable_kept(flags, self.set(), old(self).set(), ast@);
                }
            }
        }
        r
    }

    /// Builds a regex from its parts.
    fn mk_node(&mut self, ast: &RegexAst, args: &[ExprRef]) -> (r: Result<ExprRef, Error>)
        requires
            old(self).wf(),
            args@.len() == ast@.args.len(),
            are_built(
                &old(self).set(),
                old(self).parser_flags(),
                old(self).set(),
                ast@.args,
                args@,
            ),
        ensures
            final(self).grown(old(self)),
            match r {
                Ok(e) => {
                    &&& !semantics::head_fails(old(self).parser_flags(), old(self).set(), ast@.head)
                    &&& final(self).set().valid(e)
                    &&& forall|s: Reading| #[trigger]
                        final(self).set().lang(e, s) == semantics::ast_lang(
                            old(self).parser_flags(),
                            old(self).set(),
                            ast@,
                            s,
                        )
                    &&& semantics::is_lookahead(old(self).parser_flags(), ast@)
                        ==> lang::fresh_lookahead(final(self).set().tree(e))
                    &&& semantics::fixed_ref(ast@) matches Some(x) ==> e == x
                    &&& semantics::is_clear(old(self).parser_flags(), ast@)
                        ==> final(self).set().clear(e)
                    &&& semantics::spelled_out(old(self).parser_flags(), ast@) matches Some(t) ==> {
                        &&& final(self).knows(t, e)
                        &&& forall|x: ExprRef| #[trigger] old(self).knows(t, x) ==> e == x
                    }
                },
                Err(e) => {
                    &&& semantics::head_fails(
                        old(self).parser_flags(),
                        final(self).set(),
                        ast@.head,
                    )
                    &&& semantics::is_head_error(
                        old(self).parser_flags(),
                        final(self).set(),
                        ast@.head,
                        e,
                    )
                },
            },
            old(self).set().unmarked() && !semantics::marks(old(self).parser_flags(), ast@)
                ==> final(self).set().unmarked(),
    {
        let ghost flags = self.parser_flags();
        let ghost b0 = *self;
        let ghost base = self.set();
        proof {
            self.lemma_grown(old(self));
            self.exprset.lemma_constants();
            assert forall|s: Reading|
                b0.exprset.langs(args@, s) == #[trigger] semantics::ast_langs(
                    flags,
                    base,
                    ast@.args,
                    s,
                ) by {
                lemma_built_langs(&b0.exprset, flags, base, ast@.args, args@, s);
            }
        }
        let r: ExprRef = match ast {
            RegexAst::Regex(p) => {
                let r = self.mk_regex(p.as_str());
                proof {
                    lemma_pattern_error(flags, p@);
                }
                return r;
            },
            RegexAst::SearchRegex(p) => {
                let r = self.mk_regex_for_serach(p.as_str());
                proof {
                    lemma_pattern_error(flags, p@);
                }
                return r;
            },
            RegexAst::JsonQuote(_, options) => {
                let r = self.json_quote(args[0], options);
                proof {
                    assert(b0.set().valid(args@[0]));
                    if r is Ok {
                        assert forall|s: Reading| #[trigger]
                            self.set().lang(r->Ok_0, s) == semantics::ast_lang(
                            flags,
                            base,
                            ast@,
                            s,
                        ) by {
                            let m = quote::through(json_quote::escape_view(options@), s);
                            assert(b0.set().lang(args@[0], m) == semantics::ast_lang(
                                flags,
                                base,
                                ast@.args[0],
                                m,
                            ));
                        }
                    } else {
                        lemma_quote_error(options@, r->Err_0);
                    }
                }
                return r;
            },
            RegexAst::StringEscape(_, options) => {
                let r = self.string_escape(args[0], options);
                proof {
                    if r is Ok {
                        assert forall|s: Reading| #[trigger]
                            self.set().lang(r->Ok_0, s) == semantics::ast_lang(
                            flags,
                            base,
                            ast@,
                            s,
                        ) by {
                            let m = quote::through(options@, s);
                            assert(b0.set().lang(args@[0], m) == semantics::ast_lang(
                                flags,
                                base,
                                ast@.args[0],
                                m,
                            ));
                        }
                    } else {
                        escape::escape_error_unusable(options@, r->Err_0);
                    }
                }
                return r;
            },
            RegexAst::ExprRef(r) => {
                if !self.exprset.is_valid(*r) {
                    return Err(Error::InvalidRef);
                }
                *r
            },
            RegexAst::And(_) => self.exprset.mk_and(args),
            RegexAst::Or(_) => self.exprset.mk_or(args),
            RegexAst::Concat(_) => self.exprset.mk_concat_vec(args),
            RegexAst::Not(_) => self.exprset.mk_not(args[0]),
            RegexAst::LookAhead(_) => self.exprset.mk_lookahead(args[0], 0),
            RegexAst::EmptyString => ExprRef::empty_string(),
            RegexAst::NoMatch => ExprRef::no_match(),
            RegexAst::Literal(t) => self.exprset.mk_literal(t.as_str()),
            RegexAst::ByteLiteral(bytes) => self.exprset.mk_byte_literal(bytes.as_slice()),
            RegexAst::Repeat(_, min, max) => self.exprset.mk_repeat(args[0], *min, *max),
            RegexAst::MultipleOf(d, scale) => {
                if *d == 0 {
                    return Err(Error::InvalidMultipleOf);
                }
                self.exprset.mk_remainder_is(*d, *d, *scale, false)
            },
            RegexAst::Byte(b) => self.exprset.mk_byte(*b),
            RegexAst::ByteSet(words) => {
                if words.len() != BYTESET_WORDS {
                    return Err(Error::InvalidByteSetLen);
                }
                self.exprset.mk_byte_set(words.as_slice())
            },
        };
        proof {
            self.lemma_grown(&b0);
            assert forall|s: Reading| #[trigger]
                self.set().lang(r, s) == semantics::ast_lang(flags, base, ast@, s) by {
                semantics::ast_lang_of_list(flags, base, ast@, s);
                assert(b0.exprset.langs(args@, s) == semantics::ast_langs(
                    flags,
                    base,
                    ast@.args,
                    s,
                ));
                if args@.len() > 0 {
                    assert(b0.exprset.lang(args@[0], s) == semantics::ast_lang(
                        flags,
                        base,
                        ast@.args[0],
                        s,
                    ));
                }
                if let Head::MultipleOf(d, scale) = ast@.head {
                    let l = semantics::ast_lang(flags, base, ast@, s);
                    assert forall|w: Seq<u8>| #[trigger] self.set().lang(r, s)(w) == l(w) by {
                        lemma_multiples(d as nat, scale as nat, s, w);
                    }
                    assert(self.set().lang(r, s) =~= l);
                }
            }
        }
        Ok(r)
    }
}

proof fn lemma_keeps_trans(a: &ExprSet, b: &ExprSet, c: &ExprSet)
    requires
        a.keeps(b),
        b.keeps(c),
    ensures
        a.keeps(c),
{
    assert forall|e: ExprRef|
        #![trigger a.tree(e)]
        #![trigger a.valid(e)]
        c.valid(e) implies a.valid(e) && a.tree(e) == c.tree(e) && a.node(e)@ == c.node(e)@ by {
        assert(b.valid(e));
    }
}

/// A pattern is refused with an error if and only if it is not accepted.
proof fn lemma_pattern_error(flags: ParserFlags, p: Seq<char>)
    ensures
        forall|e: Error| #[trigger]
            semantics::is_pattern_error(flags, p, e) ==> !semantics::pattern_ok(flags, p),
{
}

/// Options with an error have a name that is not valid.
proof fn lemma_quote_error(o: JsonQuoteView, e: Error)
    requires
        semantics::is_quote_error(o, e),
    ensures
        !semantics::names_valid(o),
{
    let b = e->InvalidAllowedEscape_0;
    let bytes = vstd::utf8::encode_utf8(o.allowed_escapes);
    let k = choose|k: int|
        #![trigger bytes[k]]
        0 <= k < bytes.len() && bytes[k] == b && !json_quote::is_escape_name(b) && forall|j: int|
            0 <= j < k ==> json_quote::is_escape_name(#[trigger] bytes[j]);
    assert(bytes.contains(b));
    assert(json_quote::allowed(o, b));
}

/// What is spelled from the start of a numeral on is a writing of the numeral of a multiple.
proof fn lemma_multiples(divisor: nat, scale: nat, s: Reading, w: Seq<u8>)
    requires
        divisor > 0,
    ensures
        number::spelled(divisor, divisor, scale, false, lang::numeral_langs(s), w)
            == image::image(number::multiples(divisor, scale), s)(w),
{
    let a = number::multiples(divisor, scale);
    number::spelled_by(divisor, divisor, scale, false, s, w);
    assert forall|u: Seq<u8>| #[trigger] a(u) == number::accepts(
        divisor,
        divisor,
        scale,
        false,
        u,
    ) by {
        number::accepts_iff_multiple(divisor, scale, u);
    }
    if image::image(a, s)(w) {
        let u = choose|u: Seq<u8>| #[trigger] lang::writes(s, u, w) && a(u);
        assert(number::accepts(divisor, divisor, scale, false, u));
    }
    if number::spelled(divisor, divisor, scale, false, lang::numeral_langs(s), w) {
        let u = choose|u: Seq<u8>| #[trigger]
            lang::writes(s, u, w) && number::accepts(divisor, divisor, scale, false, u);
        assert(a(u));
    }
}

/// What is in `small` and not in `big`.
pub open spec fn lang_difference(small: Lang, big: Lang) -> Lang {
    |w: Seq<u8>| small(w) && !big(w)
}

/// Nothing in the pattern is marked as a stop, or what is marked can be seen to match some string.
pub open spec fn stops_are_plain(flags: ParserFlags, s: Seq<char>) -> bool {
    &&& syntax::parsed(flags, s) matches Ok(t)
    &&& !pattern::has_stop(t) || pattern::stops_match(unfold::plain_form(t, false))
}

/// Some string of the language begins so.
pub open spec fn begins(a: Lang, u: Seq<u8>) -> bool {
    exists|w: Seq<u8>| a(#[trigger] (u + w))
}

/// The strings are different, and each of them is how some string of the language begins.
pub open spec fn are_beginnings(a: Lang, us: Seq<Seq<u8>>) -> bool {
    &&& us.no_duplicates()
    &&& forall|k: int| 0 <= k < us.len() ==> begins(a, #[trigger] us[k])
}

/// An expression that outruns the limit and is held by a language: as many strings as the limit
/// tells are how strings of the language begin.
proof fn lemma_beginnings(set: &ExprSet, x: ExprRef, max_fuel: u64, a: Lang) -> (us: Seq<Seq<u8>>)
    requires
        regex::outruns(set, x, max_fuel),
        set.valid(x),
        set.held(x, a),
    ensures
        are_beginnings(a, us),
        us.len() >= max_fuel,
{
    let (more, v, us) = choose|more: ExprSet, v: Seq<ExprRef>, us: Seq<Seq<u8>>|
        #[trigger] regex::derived(&more, x, v, us) && more.wf() && more.keeps(set) && v.len()
            > max_fuel;
    assert(more.tree(x) == set.tree(x));
    more.lemma_held_alike(set, x, a);
    assert forall|k: int| 0 <= k < us.len() && v[k].id != 1 implies begins(
        a,
        #[trigger] us[k],
    ) by {
        regex::lemma_derived(&more, x, v, us, k);
        assert(more.held(v[k], regex::rest_of(a, us[k])));
        let w = more.lemma_held_some(v[k], regex::rest_of(a, us[k]));
        assert(a(us[k] + w));
    }
    if exists|k: int| 0 <= k < v.len() && (#[trigger] v[k]).id == 1 {
        let k = choose|k: int| 0 <= k < v.len() && (#[trigger] v[k]).id == 1;
        let rest = us.remove(k);
        assert forall|j: int| 0 <= j < rest.len() implies begins(a, #[trigger] rest[j]) by {
            let i = if j < k {
                j
            } else {
                j + 1
            };
            assert(rest[j] == us[i] && i != k);
            assert(v[i] != v[k]);
            assert(begins(a, us[i]));
        }
        assert forall|i: int, j: int|
            0 <= i < rest.len() && 0 <= j < rest.len() && i != j implies rest[i] != rest[j] by {
            let i2 = if i < k {
                i
            } else {
                i + 1
            };
            let j2 = if j < k {
                j
            } else {
                j + 1
            };
            assert(us[i2] != us[j2]);
        }
        rest
    } else {
        us
    }
}

/// The error is that of the first of the two patterns that is not accepted.
pub open spec fn is_pair_error(
    flags: ParserFlags,
    small: Seq<char>,
    big: Seq<char>,
    e: Error,
) -> bool {
    ||| semantics::is_pattern_error(flags, small, e)
    ||| semantics::pattern_ok(flags, small) && semantics::is_pattern_error(flags, big, e)
}

impl RegexBuilder {
    /// The expression of what all of the patterns match.
    pub fn mk_regex_and(&mut self, s: &[&str]) -> (r: Result<ExprRef, Error>)
        requires
            old(self).wf(),
        ensures
            final(self).grown(old(self)),
            match r {
                Ok(e) => {
                    &&& forall|k: int|
                        0 <= k < s@.len() ==> semantics::pattern_ok(
                            old(self).parser_flags(),
                            (#[trigger] s@[k])@,
                        )
                    &&& final(self).set().valid(e)
                    &&& forall|m: Reading, w: Seq<u8>| #[trigger]
                        final(self).set().lang(e, m)(w) == (lang::written(m, w) && forall|k: int|
                            0 <= k < s@.len() ==> semantics::pattern_lang(
                                old(self).parser_flags(),
                                (#[trigger] s@[k])@,
                                false,
                                m,
                            )(w))
                },
                Err(e) => exists|k: int|
                    0 <= k < s@.len() && semantics::is_pattern_error(
                        old(self).parser_flags(),
                        (#[trigger] s@[k])@,
                        e,
                    ) && forall|j: int|
                        0 <= j < k ==> semantics::pattern_ok(
                            old(self).parser_flags(),
                            (#[trigger] s@[j])@,
                        ),
            },
    {
        let ghost flags = self.parser_flags();
        let mut args: Vec<ExprRef> = Vec::new();
        let mut k: usize = 0;
        proof {
            self.lemma_grown(old(self));
        }
        while k < s.len()
            invariant
                k <= s@.len(),
                flags == old(self).parser_flags(),
                self.grown(old(self)),
                args@.len() == k,
                self.set().all_valid(args@),
                forall|n: int|
                    0 <= n < k ==> semantics::pattern_ok(flags, (#[trigger] s@[n])@),
                forall|n: int, m: Reading|
                    0 <= n < k ==> #[trigger] self.set().lang(args@[n], m)
                        == semantics::pattern_lang(flags, s@[n]@, false, m),
            decreases s@.len() - k,
        {
            let ghost before = *self;
            let ghost a0 = args@;
            match self.mk_regex(s[k]) {
                Err(e) => {
                    proof {
                        lemma_keeps_trans(&self.set(), &before.set(), &old(self).set());
                        assert(semantics::is_pattern_error(flags, s@[k as int]@, e));
                    }
                    return Err(e);
                },
                Ok(e) => {
                    args.push(e);
                    proof {
                        lemma_keeps_trans(&self.set(), &before.set(), &old(self).set());
                        assert forall|n: int| 0 <= n < args@.len() implies self.set().valid(
                            #[trigger] args@[n],
                        ) by {
                            if n < a0.len() {
                                assert(args@[n] == a0[n]);
                                assert(before.set().valid(a0[n]));
                            }
                        }
                        assert forall|n: int, m: Reading| 0 <= n < k + 1 implies #[trigger] self.set().lang(
                            args@[n],
                            m,
                        ) == semantics::pattern_lang(flags, s@[n]@, false, m) by {
                            if n < a0.len() {
                                assert(args@[n] == a0[n]);
                                assert(before.set().valid(a0[n]));
                                assert(self.set().tree(a0[n]) == before.set().tree(a0[n]));
                                assert(before.set().lang(a0[n], m) == semantics::pattern_lang(
                                    flags,
                                    s@[n]@,
                                    false,
                                    m,
                                ));
                            }
                        }
                    }
                },
            }
            k = k + 1;
        }
        let ghost b1 = *self;
        let r = self.exprset.mk_and(args.as_slice());
        proof {
            self.lemma_grown(&b1);
            lemma_keeps_trans(&self.set(), &b1.set(), &old(self).set());
            assert forall|m: Reading, w: Seq<u8>| #[trigger]
                self.set().lang(r, m)(w) == (lang::written(m, w) && forall|n: int|
                    0 <= n < s@.len() ==> semantics::pattern_lang(
                        flags,
                        (#[trigger] s@[n])@,
                        false,
                        m,
                    )(w)) by {
                let ls = b1.set().langs(args@, m);
                assert(self.set().lang(r, m) == lang::intersection(ls, m));
                if lang::intersection(ls, m)(w) {
                    assert forall|n: int| 0 <= n < s@.len() implies semantics::pattern_lang(
                        flags,
                        (#[trigger] s@[n])@,
                        false,
                        m,
                    )(w) by {
                        assert(ls[n](w));
                        assert(b1.set().lang(args@[n], m) == semantics::pattern_lang(
                            flags,
                            s@[n]@,
                            false,
                            m,
                        ));
                    }
                }
                if forall|n: int|
                    0 <= n < s@.len() ==> semantics::pattern_lang(
                        flags,
                        (#[trigger] s@[n])@,
                        false,
                        m,
                    )(w) {
                    assert forall|n: int| 0 <= n < ls.len() implies (#[trigger] ls[n])(w) by {
                        assert(b1.set().lang(args@[n], m) == semantics::pattern_lang(
                            flags,
                            s@[n]@,
                            false,
                            m,
                        ));
                        assert(semantics::pattern_lang(flags, s@[n]@, false, m)(w));
                    }
                }
            }
        }
        Ok(r)
    }

    /// The expression of what `a` matches and `b` does not.
    fn mk_difference(&mut self, a: ExprRef, b: ExprRef) -> (r: Result<ExprRef, Error>)
        requires
            old(self).wf(),
            old(self).set().valid(a),
            old(self).set().valid(b),
        ensures
            final(self).grown(old(self)),
            r matches Ok(e) && final(self).set().valid(e) && (forall|m: Reading| #[trigger]
                final(self).set().lang(e, m) == lang_difference(
                    old(self).set().lang(a, m),
                    old(self).set().lang(b, m),
                )) && (old(self).set().clear(a) ==> final(self).set().held(
                e,
                old(self).set().lang(a, lang::plain()),
            )),
    {
        let ghost base = self.set();
        let n: ExprRef = self.exprset.mk_not(b);
        let ghost b1 = *self;
        let mut args: Vec<ExprRef> = Vec::new();
        args.push(a);
        args.push(n);
        proof {
            self.lemma_grown(old(self));
            assert(args@ =~= seq![a, n]);
            assert(self.set().tree(a) == base.tree(a));
        }
        let e: ExprRef = self.exprset.mk_and(args.as_slice());
        proof {
            self.lemma_grown(&b1);
            lemma_keeps_trans(&self.set(), &b1.set(), &base);
            assert forall|m: Reading| #[trigger]
                self.set().lang(e, m) == lang_difference(base.lang(a, m), base.lang(b, m)) by {
                let ls = b1.set().langs(args@, m);
                let l = lang::intersection(ls, m);
                let d = lang_difference(base.lang(a, m), base.lang(b, m));
                assert(ls.len() == 2 && ls[0] == base.lang(a, m));
                assert(ls[1] == lang::complement(base.lang(b, m), m));
                assert forall|w: Seq<u8>| #[trigger] l(w) == d(w) by {
                    if l(w) {
                        assert(ls[0](w) && ls[1](w));
                    }
                    if d(w) {
                        image::language_written(base.tree(a), m, w);
                        assert forall|k: int| 0 <= k < ls.len() implies (#[trigger] ls[k])(w) by {
                            assert(k == 0 || k == 1);
                        }
                    }
                }
                assert(l =~= d);
            }
            if base.clear(a) {
                assert(args@[0] == a);
                if a.id == 1 || e.id == 1 {
                    self.set().lemma_held_dead(e, base.lang(a, lang::plain()));
                } else {
                    self.set().lemma_held_guarded(e, base.tree(a));
                }
            }
        }
        Ok(e)
    }

    /// The expression of what the pattern `small` matches and the pattern `big` does not. It matches
    /// nothing if and only if `small` is contained in `big`.
    pub fn mk_contained_in(&mut self, small: &str, big: &str) -> (r: Result<ExprRef, Error>)
        requires
            old(self).wf(),
        ensures
            final(self).grown(old(self)),
            match r {
                Ok(e) => {
                    &&& semantics::pattern_ok(old(self).parser_flags(), small@)
                    &&& semantics::pattern_ok(old(self).parser_flags(), big@)
                    &&& final(self).set().valid(e)
                    &&& forall|m: Reading| #[trigger]
                        final(self).set().lang(e, m) == lang_difference(
                            semantics::pattern_lang(old(self).parser_flags(), small@, false, m),
                            semantics::pattern_lang(old(self).parser_flags(), big@, false, m),
                        )
                    &&& stops_are_plain(old(self).parser_flags(), small@)
                        ==> final(self).set().held(
                        e,
                        semantics::pattern_lang(
                            old(self).parser_flags(),
                            small@,
                            false,
                            lang::plain(),
                        ),
                    )
                },
                Err(e) => is_pair_error(old(self).parser_flags(), small@, big@, e),
            },
    {
        let ghost flags = self.parser_flags();
        let a: ExprRef = match self.mk_regex(small) {
            Err(e) => {
                return Err(e);
            },
            Ok(a) => a,
        };
        let ghost b1 = *self;
        let b: ExprRef = match self.mk_regex(big) {
            Err(e) => {
                proof {
                    lemma_keeps_trans(&self.set(), &b1.set(), &old(self).set());
                }
                return Err(e);
            },
            Ok(b) => b,
        };
        let ghost b2 = *self;
        let r = self.mk_difference(a, b);
        proof {
            lemma_keeps_trans(&b2.set(), &b1.set(), &old(self).set());
            lemma_keeps_trans(&self.set(), &b2.set(), &old(self).set());
            assert(b2.set().tree(a) == b1.set().tree(a));
            assert(b1.set().lang(a, lang::plain()) == semantics::pattern_lang(
                flags,
                small@,
                false,
                lang::plain(),
            ));
            assert forall|m: Reading| #[trigger]
                self.set().lang(r->Ok_0, m) == lang_difference(
                semantics::pattern_lang(flags, small@, false, m),
                semantics::pattern_lang(flags, big@, false, m),
            ) by {
                assert(b1.set().lang(a, m) == semantics::pattern_lang(flags, small@, false, m));
                assert(b2.set().lang(b, m) == semantics::pattern_lang(flags, big@, false, m));
            }
        }
        r
    }

    /// The expression of what the regex `small` matches and the regex `big` does not. It matches
    /// nothing if and only if `small` is contained in `big`.
    pub fn mk_contained_in_ast(&mut self, small: &RegexAst, big: &RegexAst) -> (r: Result<
        ExprRef,
        Error,
    >)
        requires
            old(self).wf(),
        ensures
            final(self).grown(old(self)),
            ({
                let flags = old(self).parser_flags();
                let set = final(self).set();
                match r {
                    Ok(e) => {
                        &&& !semantics::fails(flags, set, small@)
                        &&& !semantics::fails(flags, set, big@)
                        &&& set.valid(e)
                        &&& forall|m: Reading| #[trigger]
                            set.lang(e, m) == lang_difference(
                                semantics::ast_lang(flags, set, small@, m),
                                semantics::ast_lang(flags, set, big@, m),
                            )
                    },
                    Err(e) => {
                        &&& semantics::fails(flags, old(self).set(), small@) || semantics::fails(
                            flags,
                            old(self).set(),
                            big@,
                        )
                        &&& if semantics::fails(flags, set, small@) {
                            semantics::is_ast_error(flags, set, small@, e)
                        } else {
                            semantics::fails(flags, set, big@) && semantics::is_ast_error(
                                flags,
                                set,
                                big@,
                                e,
                            )
                        }
                    },
                }
            }),
    {
        let ghost flags = self.parser_flags();
        let ghost base = self.set();
        let a: ExprRef = match self.mk(small) {
            Err(e) => {
                return Err(e);
            },
            Ok(a) => a,
        };
        let ghost b1 = *self;
        let b: ExprRef = match self.mk(big) {
            Err(e) => {
                proof {
                    lemma_keeps_trans(&self.set(), &b1.set(), &base);
                    semantics::buildable_kept(flags, self.set(), b1.set(), small@);
                    if !semantics::fails(flags, base, big@) {
                        semantics::buildable_kept(flags, b1.set(), base, big@);
                    }
                }
                return Err(e);
            },
            Ok(b) => b,
        };
        let ghost b2 = *self;
        let r = self.mk_difference(a, b);
        proof {
            lemma_keeps_trans(&b2.set(), &b1.set(), &base);
            lemma_keeps_trans(&self.set(), &b2.set(), &base);
            lemma_keeps_trans(&self.set(), &b2.set(), &b1.set());
            assert(b2.set().tree(a) == b1.set().tree(a));
            semantics::buildable_kept(flags, self.set(), b1.set(), small@);
            semantics::buildable_kept(flags, self.set(), b2.set(), big@);
            assert forall|m: Reading| #[trigger]
                self.set().lang(r->Ok_0, m) == lang_difference(
                semantics::ast_lang(flags, self.set(), small@, m),
                semantics::ast_lang(flags, self.set(), big@, m),
            ) by {
                assert(b1.set().lang(a, m) == semantics::ast_lang(flags, b1.set(), small@, m));
                assert(b2.set().lang(b, m) == semantics::ast_lang(flags, b2.set(), big@, m));
                semantics::ast_lang_kept(flags, self.set(), b1.set(), small@, m);
                semantics::ast_lang_kept(flags, self.set(), b2.set(), big@, m);
            }
        }
        r
    }

    /// Whether the pattern `small` is contained in the pattern `big`: all that it matches, `big`
    /// matches too. At most `max_fuel` expressions are looked at to find out; `u64::MAX` means that
    /// there is no limit.
    pub fn is_contained_in(&mut self, small: &str, big: &str, max_fuel: u64) -> (r: Result<
        bool,
        Error,
    >)
        requires
            old(self).wf(),
        ensures
            final(self).grown(old(self)),
            ({
                let flags = old(self).parser_flags();
                let a = semantics::pattern_lang(flags, small@, false, lang::plain());
                let b = semantics::pattern_lang(flags, big@, false, lang::plain());
                let both = semantics::pattern_ok(flags, small@) && semantics::pattern_ok(
                    flags,
                    big@,
                );
                match r {
                    Ok(contained) => both && contained == forall|w: Seq<u8>| #[trigger]
                        a(w) ==> b(w),
                    Err(e) => if both {
                        &&& e is OutOfFuel
                        &&& max_fuel < u64::MAX
                        &&& exists|x: ExprRef| #[trigger]
                            final(self).set().valid(x) && final(self).set().lang(x, lang::plain())
                                == lang_difference(a, b) && regex::outruns(
                                &final(self).set(),
                                x,
                                max_fuel,
                            )
                        &&& stops_are_plain(flags, small@) ==> exists|us: Seq<Seq<u8>>|
                            us.len() >= max_fuel && #[trigger] are_beginnings(a, us)
                        &&& forall|w: Seq<u8>| #[trigger]
                            a(w) && !b(w) ==> max_fuel < regex::strings_up_to(w.len())
                    } else {
                        is_pair_error(flags, small@, big@, e)
                    },
                }
            }),
    {
        let ghost flags = self.parser_flags();
        let ghost a = semantics::pattern_lang(flags, small@, false, lang::plain());
        let ghost b = semantics::pattern_lang(flags, big@, false, lang::plain());
        let e: ExprRef = match self.mk_contained_in(small, big) {
            Err(e) => {
                return Err(e);
            },
            Ok(e) => e,
        };
        proof {
            assert(self.set().lang(e, lang::plain()) == lang_difference(a, b));
        }
        match self.to_regex_limited(e, max_fuel) {
            Err(error) => {
                proof {
                    assert forall|w: Seq<u8>| #[trigger] a(w) && !b(w) implies max_fuel
                        < regex::strings_up_to(w.len()) by {
                        assert(lang_difference(a, b)(w));
                    }
                    if stops_are_plain(flags, small@) {
                        let us = lemma_beginnings(&self.set(), e, max_fuel, a);
                        assert(are_beginnings(a, us));
                    }
                }
                Err(error)
            },
            Ok(rx) => {
                let empty: bool = rx.always_empty();
                proof {
                    let d = lang_difference(a, b);
                    if empty {
                        assert forall|w: Seq<u8>| #[trigger] a(w) implies b(w) by {
                            assert(!d(w));
                        }
                    } else {
                        let w = choose|w: Seq<u8>| #[trigger] d(w);
                        assert(a(w) && !b(w));
                    }
                }
                Ok(empty)
            },
        }
    }

    /// The regex of an expression, of which it is found out whether it matches any string. At most
    /// `max_fuel` expressions are looked at for that; `u64::MAX` means that there is no limit.
    pub fn to_regex_limited(&self, r: ExprRef, max_fuel: u64) -> (x: Result<Regex, Error>)
        requires
            self.wf(),
            self.set().valid(r),
        ensures
            match x {
                Ok(x) => {
                    &&& x.wf()
                    &&& x.language() == self.set().lang(r, lang::plain())
                    &&& self.set().clear(r) ==> x.starts_clear()
                },
                Err(e) => {
                    &&& e is OutOfFuel
                    &&& max_fuel < u64::MAX
                    &&& regex::outruns(&self.set(), r, max_fuel)
                    &&& r.id != 1
                    &&& forall|w: Seq<u8>| #[trigger]
                        self.set().lang(r, lang::plain())(w) ==> max_fuel < regex::strings_up_to(
                            w.len(),
                        )
                },
            },
    {
        let set: ExprSet = self.exprset.clone();
        assert(set.tree(r) == self.exprset.tree(r));
        assert(set.lang(r, lang::plain()) == self.set().lang(r, lang::plain()));
        let ghost copy = set;
        let x: Result<Regex, Error> = Regex::new_with_exprset(set, r, max_fuel);
        proof {
            if x is Err {
                let (more, v, us) = choose|more: ExprSet, v: Seq<ExprRef>, us: Seq<Seq<u8>>|
                    #[trigger] regex::derived(&more, r, v, us) && more.wf() && more.keeps(&copy)
                        && v.len() > max_fuel;
                lemma_keeps_trans(&more, &copy, &self.exprset);
                assert(regex::derived(&more, r, v, us));
            }
        }
        x
    }

    /// The regex of an expression.
    pub fn to_regex(&self, r: ExprRef) -> (x: Regex)
        requires
            self.wf(),
            self.set().valid(r),
        ensures
            x.wf(),
            x.language() == self.set().lang(r, lang::plain()),
            self.set().clear(r) ==> x.starts_clear(),
    {
        self.to_regex_limited(r, u64::MAX).unwrap()
    }

    /// The regex of an expression, of which it is found out whether it matches any string. At most
    /// `max_fuel` expressions are looked at for that; `u64::MAX` means that there is no limit.
    pub fn into_regex_limited(self, r: ExprRef, max_fuel: u64) -> (x: Result<Regex, Error>)
        requires
            self.wf(),
            self.set().valid(r),
        ensures
            match x {
                Ok(x) => {
                    &&& x.wf()
                    &&& x.language() == self.set().lang(r, lang::plain())
                    &&& self.set().clear(r) ==> x.starts_clear()
                },
                Err(e) => {
                    &&& e is OutOfFuel
                    &&& max_fuel < u64::MAX
                    &&& regex::outruns(&self.set(), r, max_fuel)
                    &&& r.id != 1
                    &&& forall|w: Seq<u8>| #[trigger]
                        self.set().lang(r, lang::plain())(w) ==> max_fuel < regex::strings_up_to(
                            w.len(),
                        )
                },
            },
    {
        Regex::new_with_exprset(self.exprset, r, max_fuel)
    }

    /// The regex of an expression.
    pub fn into_regex(self, r: ExprRef) -> (x: Regex)
        requires
            self.wf(),
            self.set().valid(r),
        ensures
            x.wf(),
            x.language() == self.set().lang(r, lang::plain()),
            self.set().clear(r) ==> x.starts_clear(),
    {
        self.into_regex_limited(r, u64::MAX).unwrap()
    }

    /// Enable or disable the Unicode flag (`u`) by default.
    ///
    /// By default this is **enabled**. It may alternatively be selectively disabled in the regular
    /// expression itself via the `u` flag.
    ///
    /// Note that unless `utf8` is disabled (it's enabled by default), a regular expression will
    /// fail to parse if Unicode mode is disabled and a sub-expression could possibly match invalid
    /// UTF-8.
    pub fn unicode(&mut self, unicode: bool) -> (r: &mut RegexBuilder)
        requires
            old(self).wf(),
        ensures
            r.wf(),
            r.set() == old(self).set(),
            r.parser_flags() == (ParserFlags { unicode, ..old(self).parser_flags() }),
            r.recalls(old(self)),
            *final(self) == *final(r),
    {
        self.flags.unicode = unicode;
        self
    }

    /// When disabled, a regular expression may match invalid UTF-8.
    ///
    /// When enabled (the default), an expression is guaranteed, for non-empty matches, to only ever
    /// match valid UTF-8; otherwise it will fail to parse.
    pub fn utf8(&mut self, utf8: bool) -> (r: &mut RegexBuilder)
        requires
            old(self).wf(),
        ensures
            r.wf(),
            r.set() == old(self).set(),
            r.parser_flags() == (ParserFlags { utf8, ..old(self).parser_flags() }),
            r.recalls(old(self)),
            *final(self) == *final(r),
    {
        self.flags.utf8 = utf8;
        self
    }

    /// Enable verbose mode in the regular expression.
    ///
    /// When enabled, verbose mode permits insignificant whitespace in many places in the regular
    /// expression, as well as comments. Comments are started using `#` and continue until the end
    /// of the line.
    ///
    /// By default, this is disabled. It may be selectively enabled in the regular expression by
    /// using the `x` flag regardless of this setting.
    pub fn ignore_whitespace(&mut self, ignore_whitespace: bool) -> (r: &mut RegexBuilder)
        requires
            old(self).wf(),
        ensures
            r.wf(),
            r.set() == old(self).set(),
            r.parser_flags() == (ParserFlags { ignore_whitespace, ..old(self).parser_flags() }),
            r.recalls(old(self)),
            *final(self) == *final(r),
    {
        self.flags.ignore_whitespace = ignore_whitespace;
        self
    }

    /// Enable or disable the case insensitive flag by default.
    ///
    /// By default this is disabled. It may alternatively be selectively enabled in the regular
    /// expression itself via the `i` flag.
    pub fn case_insensitive(&mut self, case_insensitive: bool) -> (r: &mut RegexBuilder)
        requires
            old(self).wf(),
        ensures
            r.wf(),
            r.set() == old(self).set(),
            r.parser_flags() == (ParserFlags { case_insensitive, ..old(self).parser_flags() }),
            r.recalls(old(self)),
            *final(self) == *final(r),
    {
        self.flags.case_insensitive = case_insensitive;
        self
    }

    /// Enable or disable the "dot matches any character" flag by default.
    ///
    /// By default this is disabled. It may alternatively be selectively enabled in the regular
    /// expression itself via the `s` flag.
    pub fn dot_matches_new_line(&mut self, dot_matches_new_line: bool) -> (r: &mut RegexBuilder)
        requires
            old(self).wf(),
        ensures
            r.wf(),
            r.set() == old(self).set(),
            r.parser_flags() == (ParserFlags { dot_matches_new_line, ..old(self).parser_flags() }),
            r.recalls(old(self)),
            *final(self) == *final(r),
    {
        self.flags.dot_matches_new_line = dot_matches_new_line;
        self
    }
}

impl Clone for RegexBuilder {
    fn clone(&self) -> (r: RegexBuilder)
        ensures
            self.wf() ==> r.grown(self),
            self.wf() ==> forall|e: ExprRef| #[trigger] r.set().valid(e) == self.set().valid(e),
            r.recalls(self),
            r.parser_flags() == self.parser_flags(),
    {
        let mut caches: Vec<EscapeCache> = Vec::new();
        let mut i: usize = 0;
        while i < self.string_escape_caches.len()
            invariant
                i <= self.string_escape_caches@.len(),
                caches@.len() == i,
                forall|k: int|
                    0 <= k < i ==> (#[trigger] caches@[k]).options@
                        == self.string_escape_caches@[k].options@ && caches@[k].forms@
                        == self.string_escape_caches@[k].forms@,
            decreases self.string_escape_caches@.len() - i,
        {
            let cache: &EscapeCache = &self.string_escape_caches[i];
            caches.push(
                EscapeCache { options: cache.options.clone(), forms: cache.forms.clone() },
            );
            i = i + 1;
        }
        let mut patterns: Vec<BuiltPattern> = Vec::new();
        let mut j: usize = 0;
        while j < self.patterns.len()
            invariant
                j <= self.patterns@.len(),
                patterns@.len() == j,
                forall|k: int|
                    0 <= k < j ==> (#[trigger] patterns@[k]).pattern@ == self.patterns@[k].pattern@
                        && patterns@[k].expr == self.patterns@[k].expr,
            decreases self.patterns@.len() - j,
        {
            let built: &BuiltPattern = &self.patterns[j];
            patterns.push(
                BuiltPattern { pattern: copied_pattern(&built.pattern), expr: built.expr },
            );
            j = j + 1;
        }
        let r: RegexBuilder = RegexBuilder {
            flags: self.flags,
            exprset: self.exprset.clone(),
            string_escape_caches: caches,
            patterns,
        };
        proof {
            let a = self.string_escape_caches@;
            let b = r.string_escape_caches@;
            assert forall|o: EscapeView, e: ExprRef, x: ExprRef| #[trigger]
                r.remembers(o, e, x) == self.remembers(o, e, x) by {
                if r.remembers(o, e, x) {
                    let k = choose|k: int|
                        0 <= k < b.len() && escape::normalized((#[trigger] b[k]).options@, o)
                            && b[k].forms@.contains_key(e.id) && b[k].forms@[e.id] == x;
                    assert(a[k].options@ == b[k].options@);
                }
                if self.remembers(o, e, x) {
                    let k = choose|k: int|
                        0 <= k < a.len() && escape::normalized((#[trigger] a[k]).options@, o)
                            && a[k].forms@.contains_key(e.id) && a[k].forms@[e.id] == x;
                    assert(a[k].options@ == b[k].options@);
                }
            }
            let p = self.patterns@;
            let q = r.patterns@;
            assert forall|t: Syntax, e: ExprRef| #[trigger] r.knows(t, e) == self.knows(t, e) by {
                if r.knows(t, e) {
                    let k = choose|k: int|
                        0 <= k < q.len() && (#[trigger] q[k]).pattern@ == t && q[k].expr == e;
                    assert(p[k].pattern@ == q[k].pattern@);
                }
                if self.knows(t, e) {
                    let k = choose|k: int|
                        0 <= k < p.len() && (#[trigger] p[k]).pattern@ == t && p[k].expr == e;
                    assert(p[k].pattern@ == q[k].pattern@);
                }
            }
            if self.wf() {
                assert forall|k: int| 0 <= k < b.len() implies quote::cache_ok(
                    &r.exprset,
                    (#[trigger] b[k]).options@,
                    b[k].forms@,
                ) by {
                    assert(a[k].options@ == b[k].options@);
                    quote::lemma_cache_kept(&r.exprset, &self.exprset, a[k].options@, a[k].forms@);
                }
                assert forall|m: int, n: int| 0 <= m < n < b.len() implies (
                #[trigger] b[m]).options@ != (#[trigger] b[n]).options@ by {
                    assert(a[m].options@ != a[n].options@);
                }
                assert forall|k: int| 0 <= k < q.len() implies pattern_built(
                    &r.exprset,
                    (#[trigger] q[k]).pattern@,
                    q[k].expr,
                ) by {
                    assert(p[k].pattern@ == q[k].pattern@);
                    lemma_pattern_kept(&r.exprset, &self.exprset, p[k].pattern@, p[k].expr);
                }
                assert forall|m: int, n: int| 0 <= m < n < q.len() implies (
                #[trigger] q[m]).pattern@ != (#[trigger] q[n]).pattern@ by {
                    assert(p[m].pattern@ != p[n].pattern@);
                }
            }
        }
        r
    }
}

} // verus!
