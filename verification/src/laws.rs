//! What holds of regexes, whatever they are.

use crate::ast;
use crate::ast::{Ast, Head};
use crate::builder::RegexBuilder;
use crate::byteset;
use crate::decoding;
use crate::escape;
use crate::escape::EscapeView;
use crate::expr;
use crate::expr::{ExprRef, ExprSet};
use crate::image;
use crate::json_quote;
use crate::json_quote::JsonQuoteView;
use crate::lang;
use crate::lang::{Lang, Reading, Rx};
use crate::number;
use crate::pattern;
use crate::quote;
use crate::semantics;
use crate::syntax;
use crate::syntax::{KindView, ParserFlags, Syntax};
use crate::unfold;
use vstd::prelude::*;

verus! {

/// The regex is built from bytes and patterns by concatenation, alternation, repetition, lookahead
/// and escaping.
pub open spec fn simple(a: Ast) -> bool
    decreases a,
{
    &&& !(a.head is And || a.head is Not || a.head is MultipleOf || a.head is ExprRef)
    &&& forall|k: int| 0 <= k < a.args.len() ==> simple(#[trigger] a.args[k])
}

/// The regex neither escapes nor refers to what was built before.
pub open spec fn flat(a: Ast) -> bool
    decreases a,
{
    &&& !(a.head is JsonQuote || a.head is StringEscape || a.head is ExprRef)
    &&& forall|k: int| 0 <= k < a.args.len() ==> flat(#[trigger] a.args[k])
}

/// Under the reading, the expression matches the writings of what it matches plainly.
pub open spec fn escapes_wholly(set: ExprSet, r: ExprRef, s: Reading) -> bool {
    set.lang(r, s) == image::image(set.lang(r, lang::plain()), s)
}

/// The reading suits the regex: where the regex has an intersection or a complement, written
/// strings can be read in one way only.
pub open spec fn escapable(set: ExprSet, s: Reading, a: Ast) -> bool
    decreases a,
{
    match a.head {
        Head::Not => {
            &&& decoding::decodes_uniquely(s)
            &&& forall|k: int| 0 <= k < a.args.len() ==> escapable(set, s, #[trigger] a.args[k])
        },
        Head::And => {
            &&& decoding::decodes_uniquely(s)
            &&& forall|k: int| 0 <= k < a.args.len() ==> escapable(set, s, #[trigger] a.args[k])
        },
        Head::ExprRef(r) => escapes_wholly(set, r, s),
        Head::JsonQuote(q) => forall|k: int|
            0 <= k < a.args.len() ==> escapable(
                set,
                quote::through(json_quote::escape_view(q), s),
                #[trigger] a.args[k],
            ) && escapable(set, escape::reading(json_quote::escape_view(q)), a.args[k]),
        Head::StringEscape(o) => forall|k: int|
            0 <= k < a.args.len() ==> escapable(set, quote::through(o, s), #[trigger] a.args[k])
                && escapable(set, escape::reading(o), a.args[k]),
        _ => forall|k: int| 0 <= k < a.args.len() ==> escapable(set, s, #[trigger] a.args[k]),
    }
}

/// Every reading suits a simple regex.
pub proof fn simple_escapable(set: ExprSet, s: Reading, a: Ast)
    requires
        simple(a),
    ensures
        escapable(set, s, a),
    decreases a,
{
    match a.head {
        Head::JsonQuote(q) => {
            let o = json_quote::escape_view(q);
            assert forall|k: int| 0 <= k < a.args.len() implies escapable(
                set,
                quote::through(o, s),
                #[trigger] a.args[k],
            ) && escapable(set, escape::reading(o), a.args[k]) by {
                simple_escapable(set, quote::through(o, s), a.args[k]);
                simple_escapable(set, escape::reading(o), a.args[k]);
            }
        },
        Head::StringEscape(o) => {
            assert forall|k: int| 0 <= k < a.args.len() implies escapable(
                set,
                quote::through(o, s),
                #[trigger] a.args[k],
            ) && escapable(set, escape::reading(o), a.args[k]) by {
                simple_escapable(set, quote::through(o, s), a.args[k]);
                simple_escapable(set, escape::reading(o), a.args[k]);
            }
        },
        _ => {
            assert forall|k: int| 0 <= k < a.args.len() implies escapable(
                set,
                s,
                #[trigger] a.args[k],
            ) by {
                simple_escapable(set, s, a.args[k]);
            }
        },
    }
}

/// A reading under which written strings can be read in one way only suits every flat regex, also
/// one with intersections, complements and numerals.
pub proof fn flat_escapable(set: ExprSet, s: Reading, a: Ast)
    requires
        flat(a),
        decoding::decodes_uniquely(s),
    ensures
        escapable(set, s, a),
    decreases a,
{
    assert forall|k: int| 0 <= k < a.args.len() implies escapable(set, s, #[trigger] a.args[k]) by {
        flat_escapable(set, s, a.args[k]);
    }
}

/// A pattern that is accepted matches, under any reading, the image of what it matches.
pub proof fn lemma_pattern_image(flags: ParserFlags, p: Seq<char>, search: bool, s: Reading)
    requires
        semantics::pattern_ok(flags, p),
    ensures
        semantics::pattern_lang(flags, p, search, s) == image::image(
            semantics::pattern_lang(flags, p, search, lang::plain()),
            s,
        ),
{
    let t = syntax::parsed(flags, p)->Ok_0;
    lemma_pattern_placed(flags, p, search, s);
    lemma_pattern_placed(flags, p, search, lang::plain());
    image::image_placed(t, true, true, search, s);
}

proof fn lemma_pattern_placed(flags: ParserFlags, p: Seq<char>, search: bool, s: Reading)
    requires
        semantics::pattern_ok(flags, p),
    ensures
        semantics::pattern_lang(flags, p, search, s) == pattern::placed_lang(
            syntax::parsed(flags, p)->Ok_0,
            true,
            true,
            search,
            s,
        ),
{
    let t = syntax::parsed(flags, p)->Ok_0;
    let l = semantics::pattern_lang(flags, p, search, s);
    let r = pattern::placed_lang(t, true, true, search, s);
    assert forall|w: Seq<u8>| #[trigger] l(w) == r(w) by {
        pattern::placed_lang_accepts(t, search, s, w);
    }
    assert(l =~= r);
}

/// Writing, by `s`, what a grammar writes of a regex is reading the regex through both.
proof fn lemma_inner_image(flags: ParserFlags, set: ExprSet, a: Ast, o: EscapeView, s: Reading)
    requires
        !semantics::fails(flags, set, a),
        escapable(set, quote::through(o, s), a),
        escapable(set, escape::reading(o), a),
    ensures
        semantics::ast_lang(flags, set, a, quote::through(o, s)) == image::image(
            semantics::ast_lang(flags, set, a, quote::through(o, lang::plain())),
            s,
        ),
    decreases a, 1nat,
{
    let r = escape::reading(o);
    lang::compose_plain(r);
    escapable_image(flags, set, a, quote::through(o, s));
    escapable_image(flags, set, a, r);
    image::image_compose(semantics::ast_lang(flags, set, a, lang::plain()), s, r);
}

/// Where digits and the point are written as themselves only, as in JSON, URLs and XML, the
/// numerals of multiples are written as they are.
pub proof fn numerals_kept(flags: ParserFlags, set: ExprSet, d: u32, scale: u32, s: Reading)
    requires
        d > 0,
        image::numerals_plain(s),
    ensures
        semantics::ast_lang(
            flags,
            set,
            (Ast { head: Head::MultipleOf(d, scale), args: seq![] }),
            s,
        ) == number::multiples(d as nat, scale as nat),
{
    image::image_multiples(d as nat, scale as nat, s);
}

/// Written plainly, a language is itself.
proof fn lemma_image_plain(a: Lang)
    ensures
        image::image(a, lang::plain()) == a,
{
    let l = image::image(a, lang::plain());
    assert forall|v: Seq<u8>| #[trigger] l(v) == a(v) by {
        lang::writes_plain(v, v);
        if l(v) {
            let u = choose|u: Seq<u8>| #[trigger] lang::writes(lang::plain(), u, v) && a(u);
            lang::writes_plain(u, v);
        }
        if a(v) {
            assert(lang::writes(lang::plain(), v, v));
        }
    }
    assert(l =~= a);
}

/// Under a reading that suits it, a regex matches the writings of what it matches plainly, and
/// nothing else.
pub proof fn escapable_image(flags: ParserFlags, set: ExprSet, a: Ast, s: Reading)
    requires
        !semantics::fails(flags, set, a),
        escapable(set, s, a),
    ensures
        semantics::ast_lang(flags, set, a, s) == image::image(
            semantics::ast_lang(flags, set, a, lang::plain()),
            s,
        ),
    decreases a, 0nat,
{
    let p = lang::plain();
    let l = semantics::ast_lang(flags, set, a, s);
    let m = semantics::ast_lang(flags, set, a, p);
    let i = image::image(m, s);
    image::image_none(s);
    assert forall|k: int| 0 <= k < a.args.len() implies !semantics::fails(
        flags,
        set,
        #[trigger] a.args[k],
    ) by {}
    match a.head {
        Head::Not => {
            if a.args.len() > 0 {
                let x = semantics::ast_lang(flags, set, a.args[0], s);
                let y = semantics::ast_lang(flags, set, a.args[0], p);
                escapable_image(flags, set, a.args[0], s);
                assert(l == lang::complement(x, s));
                assert(m == lang::complement(y, p));
                assert forall|v: Seq<u8>| #[trigger] l(v) == i(v) by {
                    if l(v) {
                        let u = choose|u: Seq<u8>| #[trigger] lang::writes(s, u, v);
                        lang::written_plain(u);
                        assert(!image::image(y, s)(v));
                        assert(m(u));
                    }
                    if i(v) {
                        let u = choose|u: Seq<u8>| #[trigger] lang::writes(s, u, v) && m(u);
                        if x(v) {
                            let z = choose|z: Seq<u8>| #[trigger] lang::writes(s, z, v) && y(z);
                            assert(z == u);
                        }
                    }
                }
                assert(l =~= i);
            }
        },
        Head::And => {
            assert forall|k: int, u: Seq<u8>, v: Seq<u8>|
                0 <= k < a.args.len() && lang::writes(s, u, v) implies #[trigger] lang::writes(
                s,
                u,
                v,
            ) && semantics::ast_lang(flags, set, #[trigger] a.args[k], s)(v)
                == semantics::ast_lang(flags, set, a.args[k], p)(u) by {
                escapable_image(flags, set, a.args[k], s);
                lemma_decided(semantics::ast_lang(flags, set, a.args[k], p), s, u, v);
            }
            assert forall|v: Seq<u8>| #[trigger] l(v) == i(v) by {
                if l(v) {
                    let u = choose|u: Seq<u8>| #[trigger] lang::writes(s, u, v);
                    lang::written_plain(u);
                    assert(m(u));
                }
                if i(v) {
                    let u = choose|u: Seq<u8>| #[trigger] lang::writes(s, u, v) && m(u);
                    assert(lang::written(s, v));
                }
            }
            assert(l =~= i);
        },
        Head::Or => {
            assert forall|k: int| 0 <= k < a.args.len() implies semantics::ast_lang(
                flags,
                set,
                #[trigger] a.args[k],
                s,
            ) == image::image(semantics::ast_lang(flags, set, a.args[k], p), s) by {
                escapable_image(flags, set, a.args[k], s);
            }
            assert forall|v: Seq<u8>| #[trigger] l(v) == i(v) by {
                if l(v) {
                    let k = choose|k: int|
                        0 <= k < a.args.len() && semantics::ast_lang(
                            flags,
                            set,
                            #[trigger] a.args[k],
                            s,
                        )(v);
                    let mk = semantics::ast_lang(flags, set, a.args[k], p);
                    let u = choose|u: Seq<u8>| #[trigger] lang::writes(s, u, v) && mk(u);
                    assert(m(u));
                }
                if i(v) {
                    let u = choose|u: Seq<u8>| #[trigger] lang::writes(s, u, v) && m(u);
                    let k = choose|k: int|
                        0 <= k < a.args.len() && semantics::ast_lang(
                            flags,
                            set,
                            #[trigger] a.args[k],
                            p,
                        )(u);
                    assert(image::image(semantics::ast_lang(flags, set, a.args[k], p), s)(v));
                }
            }
            assert(l =~= i);
        },
        Head::Concat => {
            lemma_concat_image(flags, set, a.args, 0, s);
        },
        Head::LookAhead => {
            if a.args.len() > 0 {
                escapable_image(flags, set, a.args[0], s);
            }
        },
        Head::Repeat(min, max) => {
            if a.args.len() > 0 {
                escapable_image(flags, set, a.args[0], s);
                image::image_repeat(
                    semantics::ast_lang(flags, set, a.args[0], p),
                    min as nat,
                    expr::max_bound(max),
                    s,
                );
            }
        },
        Head::JsonQuote(o) => {
            if a.args.len() > 0 {
                let e = json_quote::escape_view(o);
                lemma_inner_image(flags, set, a.args[0], e, s);
                let inner = semantics::ast_lang(flags, set, a.args[0], quote::through(e, p));
                let mark = lang::one_of(set!['"' as u8], p);
                image::image_one_of(set!['"' as u8], s);
                image::image_cat(inner, mark, s);
                image::image_cat(mark, lang::cat(inner, mark), s);
            }
        },
        Head::StringEscape(o) => {
            if a.args.len() > 0 {
                lemma_inner_image(flags, set, a.args[0], o, s);
            }
        },
        Head::MultipleOf(d, scale) => {
            lemma_image_plain(number::multiples(d as nat, scale as nat));
        },
        Head::EmptyString => {
            image::image_epsilon(s);
        },
        Head::NoMatch => {},
        Head::Regex(t) => {
            lemma_pattern_image(flags, t, false, s);
        },
        Head::SearchRegex(t) => {
            lemma_pattern_image(flags, t, true, s);
        },
        Head::Literal(t) => {
            image::image_literal(vstd::utf8::encode_utf8(t), s);
        },
        Head::ByteLiteral(bytes) => {
            image::image_literal(bytes, s);
        },
        Head::Byte(b) => {
            image::image_one_of(set![b], s);
        },
        Head::ByteSet(words) => {
            image::image_one_of(byteset::byteset(words), s);
        },
        Head::ExprRef(_) => {},
    }
}

proof fn lemma_concat_image(flags: ParserFlags, set: ExprSet, args: Seq<Ast>, k: nat, s: Reading)
    requires
        forall|k: int|
            0 <= k < args.len() ==> !semantics::fails(flags, set, #[trigger] args[k]) && escapable(
                set,
                s,
                args[k],
            ),
    ensures
        semantics::concat_lang(flags, set, args, k, s) == image::image(
            semantics::concat_lang(flags, set, args, k, lang::plain()),
            s,
        ),
    decreases args, args.len() - k,
{
    if k < args.len() {
        escapable_image(flags, set, args[k as int], s);
        lemma_concat_image(flags, set, args, k + 1, s);
        image::image_cat(
            semantics::ast_lang(flags, set, args[k as int], lang::plain()),
            semantics::concat_lang(flags, set, args, k + 1, lang::plain()),
            s,
        );
    } else {
        image::image_epsilon(s);
    }
}

/// Where strings that are written can be read in one way only, a writing of a string is one of a
/// string of the language if and only if the language has the string.
proof fn lemma_decided(a: Lang, s: Reading, u: Seq<u8>, v: Seq<u8>)
    requires
        decoding::decodes_uniquely(s),
        lang::writes(s, u, v),
    ensures
        image::image(a, s)(v) == a(u),
{
    if image::image(a, s)(v) {
        let x = choose|x: Seq<u8>| #[trigger] lang::writes(s, x, v) && a(x);
        assert(x == u);
    }
}

/// The regex of the escaped strings of a regex.
pub open spec fn escaped(a: Ast, o: EscapeView) -> Ast {
    Ast { head: Head::StringEscape(o), args: seq![a] }
}

/// The regex of the quoted strings of a regex.
pub open spec fn json_quoted(a: Ast, q: JsonQuoteView) -> Ast {
    Ast { head: Head::JsonQuote(q), args: seq![a] }
}

/// The regex of the strings that a regex does not match.
pub open spec fn negated(a: Ast) -> Ast {
    Ast { head: Head::Not, args: seq![a] }
}

/// What it is to be a writing.
proof fn lemma_image(l: Lang, s: Reading, v: Seq<u8>)
    ensures
        image::image(l, s)(v) <==> exists|u: Seq<u8>| #[trigger] lang::writes(s, u, v) && l(u),
{
}

/// The text in double quotes, unless in raw mode.
pub open spec fn in_quotes(q: JsonQuoteView, x: Seq<u8>) -> Seq<u8> {
    if q.raw_mode {
        x
    } else {
        seq!['"' as u8] + x + seq!['"' as u8]
    }
}

/// The language of an escaped regex is that of the regex, read through the escape grammar.
proof fn lemma_escaped_lang(flags: ParserFlags, set: ExprSet, a: Ast, o: EscapeView, s: Reading)
    ensures
        semantics::ast_lang(flags, set, escaped(a, o), s) == semantics::ast_lang(
            flags,
            set,
            a,
            quote::through(o, s),
        ),
{
    assert(escaped(a, o).args[0] == a);
}

/// The language of a quoted regex is that of the regex, read through the escape grammar, in quotes.
proof fn lemma_quoted_lang(flags: ParserFlags, set: ExprSet, a: Ast, q: JsonQuoteView, s: Reading)
    ensures
        semantics::ast_lang(flags, set, json_quoted(a, q), s) == semantics::quoted(
            q,
            semantics::ast_lang(
                flags,
                set,
                a,
                quote::through(json_quote::escape_view(q), s),
            ),
            s,
        ),
{
    assert(json_quoted(a, q).args[0] == a);
}

/// What it is to be a quoted writing.
proof fn lemma_quoted_image(q: JsonQuoteView, l: Lang, r: Reading, v: Seq<u8>)
    ensures
        semantics::quoted(q, image::image(l, r), lang::plain())(v) <==> exists|
            u: Seq<u8>,
            x: Seq<u8>,
        | #[trigger] lang::writes(r, u, x) && l(u) && v == in_quotes(q, x),
{
    let p = lang::plain();
    let inner = image::image(l, r);
    let mark = lang::one_of(set!['"' as u8], p);
    let c = seq!['"' as u8];
    assert(mark(c)) by {
        assert(set!['"' as u8].contains('"' as u8) && p('"' as u8, c));
    }
    if !q.raw_mode {
        let tail = lang::cat(inner, mark);
        if lang::cat(mark, tail)(v) {
            let i = lang::cat_split(mark, tail, v);
            let j = lang::cat_split(inner, mark, v.skip(i));
            let x = v.skip(i).take(j);
            let u = choose|u: Seq<u8>| #[trigger] lang::writes(r, u, x) && l(u);
            assert(v.take(i) == c);
            assert(v.skip(i).skip(j) == c);
            assert(v =~= c + x + c);
        }
        if exists|u: Seq<u8>, x: Seq<u8>| #[trigger]
            lang::writes(r, u, x) && l(u) && v == c + x + c {
            let (u, x) = choose|u: Seq<u8>, x: Seq<u8>| #[trigger]
                lang::writes(r, u, x) && l(u) && v == c + x + c;
            assert(inner(x));
            lang::cat_intro(inner, mark, x, c);
            lang::cat_intro(mark, tail, c, x + c);
            assert(v =~= c + (x + c));
        }
    }
}

/// An escaped regex matches a string if and only if it is an escaped form of a string that the
/// regex matches.
pub proof fn escaped_matches(
    flags: ParserFlags,
    set: ExprSet,
    a: Ast,
    o: EscapeView,
    v: Seq<u8>,
)
    requires
        !semantics::fails(flags, set, a),
        escapable(set, escape::reading(o), a),
    ensures
        semantics::ast_lang(flags, set, escaped(a, o), lang::plain())(v) <==> exists|u: Seq<u8>|
            #[trigger] lang::writes(escape::reading(o), u, v) && semantics::ast_lang(
                flags,
                set,
                a,
                lang::plain(),
            )(u),
{
    let r = escape::reading(o);
    lang::compose_plain(r);
    escapable_image(flags, set, a, r);
    lemma_escaped_lang(flags, set, a, o, lang::plain());
    lemma_image(semantics::ast_lang(flags, set, a, lang::plain()), r, v);
}

/// Where the escape grammar can be read in one way only, an escaped regex matches an escaped form of
/// a string if and only if the regex matches the string.
pub proof fn escaped_decides(
    flags: ParserFlags,
    set: ExprSet,
    a: Ast,
    o: EscapeView,
    u: Seq<u8>,
    v: Seq<u8>,
)
    requires
        !semantics::fails(flags, set, a),
        escapable(set, escape::reading(o), a),
        decoding::decodes_uniquely(escape::reading(o)),
        lang::writes(escape::reading(o), u, v),
    ensures
        semantics::ast_lang(flags, set, escaped(a, o), lang::plain())(v) == semantics::ast_lang(
            flags,
            set,
            a,
            lang::plain(),
        )(u),
{
    let r = escape::reading(o);
    lang::compose_plain(r);
    escapable_image(flags, set, a, r);
    lemma_decided(semantics::ast_lang(flags, set, a, lang::plain()), r, u, v);
    lemma_escaped_lang(flags, set, a, o, lang::plain());
}

/// A JSON-quoted regex matches a string if and only if it is an escaped form of a string that the
/// regex matches, in double quotes unless in raw mode.
pub proof fn json_quoted_matches(
    flags: ParserFlags,
    set: ExprSet,
    a: Ast,
    q: JsonQuoteView,
    v: Seq<u8>,
)
    requires
        !semantics::fails(flags, set, a),
        escapable(set, escape::reading(json_quote::escape_view(q)), a),
    ensures
        semantics::ast_lang(flags, set, json_quoted(a, q), lang::plain())(v) <==> exists|
            u: Seq<u8>,
            x: Seq<u8>,
        | #[trigger]
            lang::writes(escape::reading(json_quote::escape_view(q)), u, x)
                && semantics::ast_lang(flags, set, a, lang::plain())(u) && v == in_quotes(q, x),
{
    let r = escape::reading(json_quote::escape_view(q));
    lang::compose_plain(r);
    escapable_image(flags, set, a, r);
    lemma_quoted_lang(flags, set, a, q, lang::plain());
    lemma_quoted_image(q, semantics::ast_lang(flags, set, a, lang::plain()), r, v);
}

/// Escaping what is escaped already is escaping by both grammars, one after the other.
pub proof fn escaped_twice(
    flags: ParserFlags,
    set: ExprSet,
    a: Ast,
    first: EscapeView,
    second: EscapeView,
    v: Seq<u8>,
)
    requires
        !semantics::fails(flags, set, a),
        escapable(set, escape::reading(first), a),
        escapable(set, quote::through(first, escape::reading(second)), a),
    ensures
        semantics::ast_lang(flags, set, escaped(escaped(a, first), second), lang::plain())(v)
            <==> exists|x: Seq<u8>| #[trigger]
            lang::writes(escape::reading(second), x, v) && semantics::ast_lang(
                flags,
                set,
                escaped(a, first),
                lang::plain(),
            )(x),
{
    let r = escape::reading(second);
    lang::compose_plain(r);
    lemma_escaped_lang(flags, set, escaped(a, first), second, lang::plain());
    lemma_escaped_lang(flags, set, a, first, r);
    lemma_escaped_lang(flags, set, a, first, lang::plain());
    lemma_inner_image(flags, set, a, first, r);
    lemma_image(semantics::ast_lang(flags, set, escaped(a, first), lang::plain()), r, v);
}

/// JSON quoting in raw mode is escaping by the grammar that its options stand for.
pub proof fn json_quoted_raw(flags: ParserFlags, set: ExprSet, a: Ast, q: JsonQuoteView, s: Reading)
    requires
        q.raw_mode,
    ensures
        semantics::ast_lang(flags, set, json_quoted(a, q), s) == semantics::ast_lang(
            flags,
            set,
            escaped(a, json_quote::escape_view(q)),
            s,
        ),
{
    lemma_quoted_lang(flags, set, a, q, s);
    lemma_escaped_lang(flags, set, a, json_quote::escape_view(q), s);
}

/// What a builder knows as the escaped form of an expression is what escaping gives from there on,
/// however much is built in between: once `known` was given, by [`RegexBuilder::string_escape`] or,
/// in raw mode, by [`RegexBuilder::json_quote`], either of them gives it again under the grammar.
pub proof fn escaped_form_stays(
    after: RegexBuilder,
    later: RegexBuilder,
    o: EscapeView,
    e: ExprRef,
    known: ExprRef,
    again: ExprRef,
)
    requires
        after.remembers(o, e, known),
        later.grown(&after),
        forall|x: ExprRef| #[trigger] later.remembers(o, e, x) ==> again == x,
    ensures
        again == known,
{
    assert(later.remembers(o, e, known));
}

/// Patterns that are the same when spelled out have one expression, however much is built in between:
/// once `known` was given for one of them, by [`RegexBuilder::mk_regex`] or
/// [`RegexBuilder::mk_regex_for_serach`], either of them gives it for the other.
pub proof fn one_form_one_expression(
    after: RegexBuilder,
    later: RegexBuilder,
    t: Syntax,
    search_t: bool,
    u: Syntax,
    search_u: bool,
    known: ExprRef,
    again: ExprRef,
)
    requires
        unfold::plain_form(t, search_t) == unfold::plain_form(u, search_u),
        after.knows(unfold::plain_form(t, search_t), known),
        later.grown(&after),
        forall|x: ExprRef| #[trigger]
            later.knows(unfold::plain_form(u, search_u), x) ==> again == x,
    ensures
        again == known,
{
    assert(later.knows(unfold::plain_form(u, search_u), known));
}

/// A search for a pattern without anchors, and the pattern with any text before and after it, are one
/// expression of a builder.
pub proof fn search_is_surrounded_pattern(
    builder: RegexBuilder,
    t: Syntax,
    found: ExprRef,
    surrounded: ExprRef,
)
    requires
        builder.wf(),
        pattern::look_free(t),
        builder.knows(unfold::plain_form(t, true), found),
        builder.knows(
            unfold::plain_form(
                Syntax {
                    kind: KindView::Concat,
                    subs: seq![unfold::anything(), t, unfold::anything()],
                },
                false,
            ),
            surrounded,
        ),
    ensures
        found == surrounded,
{
    unfold::search_form(t);
    builder.known_once(unfold::plain_form(t, true), found, surrounded);
}

/// The reading suits the expression: where the expression has an intersection or a complement,
/// written strings can be read in one way only.
pub open spec fn rx_escapable(rx: Rx, s: Reading) -> bool
    decreases rx,
{
    match rx {
        Rx::EmptyString => true,
        Rx::NoMatch => true,
        Rx::ByteSet(_) => true,
        Rx::ByteConcat(_, tail) => rx_escapable(*tail, s),
        Rx::RemainderIs { divisor: _, remainder: _, scale: _, fractional_part: _, forms } => {
            forall|k: int| 0 <= k < forms.len() ==> rx_escapable(#[trigger] forms[k], s)
        },
        Rx::Lookahead(e, _) => rx_escapable(*e, s),
        Rx::Not(e) => decoding::decodes_uniquely(s) && rx_escapable(*e, s),
        Rx::Repeat(e, _, _) => rx_escapable(*e, s),
        Rx::Concat(a, b) => rx_escapable(*a, s) && rx_escapable(*b, s),
        Rx::Or(es) => forall|i: int| 0 <= i < es.len() ==> rx_escapable(#[trigger] es[i], s),
        Rx::And(es) => {
            &&& decoding::decodes_uniquely(s)
            &&& forall|i: int| 0 <= i < es.len() ==> rx_escapable(#[trigger] es[i], s)
        },
    }
}

/// A reading under which written strings can be read in one way only suits every expression, also
/// one with intersections, complements and numerals.
pub proof fn decoded_escapable(rx: Rx, s: Reading)
    requires
        decoding::decodes_uniquely(s),
    ensures
        rx_escapable(rx, s),
    decreases rx,
{
    match rx {
        Rx::ByteConcat(_, tail) => {
            decoded_escapable(*tail, s);
        },
        Rx::RemainderIs { divisor: _, remainder: _, scale: _, fractional_part: _, forms } => {
            assert forall|k: int| 0 <= k < forms.len() implies rx_escapable(
                #[trigger] forms[k],
                s,
            ) by {
                decoded_escapable(forms[k], s);
            }
        },
        Rx::Lookahead(e, _) => {
            decoded_escapable(*e, s);
        },
        Rx::Not(e) => {
            decoded_escapable(*e, s);
        },
        Rx::Repeat(e, _, _) => {
            decoded_escapable(*e, s);
        },
        Rx::Concat(a, b) => {
            decoded_escapable(*a, s);
            decoded_escapable(*b, s);
        },
        Rx::Or(es) => {
            assert forall|i: int| 0 <= i < es.len() implies rx_escapable(#[trigger] es[i], s) by {
                decoded_escapable(es[i], s);
            }
        },
        Rx::And(es) => {
            assert forall|i: int| 0 <= i < es.len() implies rx_escapable(#[trigger] es[i], s) by {
                decoded_escapable(es[i], s);
            }
        },
        _ => {},
    }
}

/// Under a reading that suits it, an expression matches the writings of what it matches plainly,
/// and nothing else.
pub proof fn rx_escapable_image(rx: Rx, s: Reading)
    requires
        rx_escapable(rx, s),
    ensures
        lang::language(rx, s) == image::image(lang::language(rx, lang::plain()), s),
    decreases rx,
{
    let p = lang::plain();
    let l = lang::language(rx, s);
    let m = lang::language(rx, p);
    let i = image::image(m, s);
    match rx {
        Rx::EmptyString => {
            image::image_epsilon(s);
        },
        Rx::NoMatch => {
            image::image_none(s);
        },
        Rx::ByteSet(set) => {
            image::image_one_of(set, s);
        },
        Rx::ByteConcat(bytes, tail) => {
            rx_escapable_image(*tail, s);
            image::image_literal(bytes, s);
            image::image_cat(lang::literal(bytes, p), lang::language(*tail, p), s);
        },
        Rx::RemainderIs { divisor, remainder, scale, fractional_part, forms } => {
            let x = lang::form_langs(forms, s);
            let y = lang::form_langs(forms, p);
            assert forall|k: int| 0 <= k < number::NUMERAL_CHARS implies #[trigger] x[k]
                == image::image(y[k], s) by {
                if k < forms.len() {
                    rx_escapable_image(forms[k], s);
                } else if forms.len() == 0 {
                    image::image_one_of(set![number::numeral_char(k)], s);
                } else {
                    image::image_none(s);
                }
            }
            assert forall|v: Seq<u8>| #[trigger] l(v) == i(v) by {
                lang::language_numeral(divisor, remainder, scale, fractional_part, forms, s, v);
                image::spelled_of_images(divisor, remainder, scale, fractional_part, y, x, s, v);
                assert forall|u: Seq<u8>| #[trigger] m(u) == number::spelled(
                    divisor,
                    remainder,
                    scale,
                    fractional_part,
                    y,
                    u,
                ) by {
                    lang::language_numeral(divisor, remainder, scale, fractional_part, forms, p, u);
                }
                if l(v) {
                    let u = choose|u: Seq<u8>| #[trigger]
                        lang::writes(s, u, v) && number::spelled(
                            divisor,
                            remainder,
                            scale,
                            fractional_part,
                            y,
                            u,
                        );
                    assert(m(u));
                }
                if i(v) {
                    let u = choose|u: Seq<u8>| #[trigger] lang::writes(s, u, v) && m(u);
                    assert(number::spelled(divisor, remainder, scale, fractional_part, y, u));
                }
            }
            assert(l =~= i);
        },
        Rx::Lookahead(e, _) => {
            rx_escapable_image(*e, s);
        },
        Rx::Not(e) => {
            let x = lang::language(*e, s);
            let y = lang::language(*e, p);
            rx_escapable_image(*e, s);
            assert forall|v: Seq<u8>| #[trigger] l(v) == i(v) by {
                if l(v) {
                    let u = choose|u: Seq<u8>| #[trigger] lang::writes(s, u, v);
                    lang::written_plain(u);
                    assert(!image::image(y, s)(v));
                    assert(m(u));
                }
                if i(v) {
                    let u = choose|u: Seq<u8>| #[trigger] lang::writes(s, u, v) && m(u);
                    lemma_decided(y, s, u, v);
                }
            }
            assert(l =~= i);
        },
        Rx::Repeat(e, min, max) => {
            rx_escapable_image(*e, s);
            image::image_repeat(lang::language(*e, p), min, max, s);
        },
        Rx::Concat(a, b) => {
            rx_escapable_image(*a, s);
            rx_escapable_image(*b, s);
            image::image_cat(lang::language(*a, p), lang::language(*b, p), s);
        },
        Rx::Or(es) => {
            assert forall|k: int| 0 <= k < es.len() implies lang::language(#[trigger] es[k], s)
                == image::image(lang::language(es[k], p), s) by {
                rx_escapable_image(es[k], s);
            }
            assert forall|v: Seq<u8>| #[trigger] l(v) == i(v) by {
                if l(v) {
                    let k = choose|k: int|
                        0 <= k < es.len() && lang::language(#[trigger] es[k], s)(v);
                    let mk = lang::language(es[k], p);
                    let u = choose|u: Seq<u8>| #[trigger] lang::writes(s, u, v) && mk(u);
                    assert(m(u));
                }
                if i(v) {
                    let u = choose|u: Seq<u8>| #[trigger] lang::writes(s, u, v) && m(u);
                    let k = choose|k: int|
                        0 <= k < es.len() && lang::language(#[trigger] es[k], p)(u);
                    assert(image::image(lang::language(es[k], p), s)(v));
                }
            }
            assert(l =~= i);
        },
        Rx::And(es) => {
            assert forall|k: int, u: Seq<u8>, v: Seq<u8>|
                0 <= k < es.len() && lang::writes(s, u, v) implies #[trigger] lang::writes(s, u, v)
                && lang::language(#[trigger] es[k], s)(v) == lang::language(es[k], p)(u) by {
                rx_escapable_image(es[k], s);
                lemma_decided(lang::language(es[k], p), s, u, v);
            }
            assert forall|v: Seq<u8>| #[trigger] l(v) == i(v) by {
                if l(v) {
                    let u = choose|u: Seq<u8>| #[trigger] lang::writes(s, u, v);
                    lang::written_plain(u);
                    assert(m(u));
                }
                if i(v) {
                    let u = choose|u: Seq<u8>| #[trigger] lang::writes(s, u, v) && m(u);
                    assert(lang::written(s, v));
                }
            }
            assert(l =~= i);
        },
    }
}

/// The escaped form `r` of an expression `e` matches a string if and only if it is an escaped form
/// of a string that `e` matches.
pub proof fn string_escape_matches(
    before: ExprSet,
    e: ExprRef,
    o: EscapeView,
    after: ExprSet,
    r: ExprRef,
    v: Seq<u8>,
)
    requires
        rx_escapable(before.tree(e), escape::reading(o)),
        forall|s: Reading| #[trigger] after.lang(r, s) == before.lang(e, quote::through(o, s)),
    ensures
        after.lang(r, lang::plain())(v) <==> exists|u: Seq<u8>| #[trigger]
            lang::writes(escape::reading(o), u, v) && before.lang(e, lang::plain())(u),
{
    let d = escape::reading(o);
    lang::compose_plain(d);
    rx_escapable_image(before.tree(e), d);
    assert(after.lang(r, lang::plain()) == before.lang(e, d));
    lemma_image(before.lang(e, lang::plain()), d, v);
}

/// Where the escape grammar can be read in one way only, the escaped form `r` of an expression `e`
/// matches an escaped form of a string if and only if `e` matches the string.
pub proof fn string_escape_decides(
    before: ExprSet,
    e: ExprRef,
    o: EscapeView,
    after: ExprSet,
    r: ExprRef,
    u: Seq<u8>,
    v: Seq<u8>,
)
    requires
        rx_escapable(before.tree(e), escape::reading(o)),
        decoding::decodes_uniquely(escape::reading(o)),
        lang::writes(escape::reading(o), u, v),
        forall|s: Reading| #[trigger] after.lang(r, s) == before.lang(e, quote::through(o, s)),
    ensures
        after.lang(r, lang::plain())(v) == before.lang(e, lang::plain())(u),
{
    let d = escape::reading(o);
    lang::compose_plain(d);
    rx_escapable_image(before.tree(e), d);
    lemma_decided(before.lang(e, lang::plain()), d, u, v);
    assert(after.lang(r, lang::plain()) == before.lang(e, d));
}

/// What was built from a simple regex can be escaped as the regex can: its escaped form matches the
/// escaped forms of what it matches.
pub proof fn built_escapes_wholly(
    flags: ParserFlags,
    before: ExprSet,
    a: Ast,
    after: ExprSet,
    r: ExprRef,
    s: Reading,
)
    requires
        !semantics::fails(flags, before, a),
        simple(a),
        forall|m: Reading| #[trigger]
            after.lang(r, m) == semantics::ast_lang(flags, before, a, m),
    ensures
        escapes_wholly(after, r, s),
{
    simple_escapable(before, s, a);
    escapable_image(flags, before, a, s);
}

/// The concatenation of no regexes matches the empty string only, and their alternation nothing.
pub proof fn empty_lists(flags: ParserFlags, set: ExprSet, s: Reading)
    ensures
        semantics::ast_lang(flags, set, (Ast { head: Head::Concat, args: seq![] }), s)
            == semantics::ast_lang(flags, set, (Ast { head: Head::EmptyString, args: seq![] }), s),
        semantics::ast_lang(flags, set, (Ast { head: Head::Or, args: seq![] }), s)
            == semantics::ast_lang(flags, set, (Ast { head: Head::NoMatch, args: seq![] }), s),
{
    let l = semantics::ast_lang(flags, set, (Ast { head: Head::Or, args: seq![] }), s);
    assert(l =~= lang::none());
    assert(semantics::concat_lang(flags, set, seq![], 0, s) == lang::epsilon());
}

/// A pattern without anchors matches what it means. To search for it adds any text before and
/// after.
pub proof fn search_surrounds(flags: ParserFlags, p: Seq<char>, s: Reading)
    requires
        syntax::parsed(flags, p) matches Ok(t) && pattern::look_free(t),
    ensures
        semantics::pattern_ok(flags, p),
        semantics::pattern_lang(flags, p, false, s) == pattern::meaning(
            syntax::parsed(flags, p)->Ok_0,
            s,
        ),
        semantics::pattern_lang(flags, p, true, s) == lang::cat(
            pattern::any_text(s),
            lang::cat(semantics::pattern_lang(flags, p, false, s), pattern::any_text(s)),
        ),
{
    let t = syntax::parsed(flags, p)->Ok_0;
    let m = pattern::meaning(t, s);
    assert(pattern::placed(t, true, true));
    lemma_pattern_placed(flags, p, false, s);
    lemma_pattern_placed(flags, p, true, s);
    lang::cat_epsilon_right(m);
    lang::cat_epsilon_left(m);
}

/// What stands in no gap stands in one that any text may fill.
proof fn lemma_gap_opens(open: bool, s: Reading, w: Seq<u8>)
    requires
        pattern::gap_lang(false, s)(w),
    ensures
        pattern::gap_lang(open, s)(w),
{
    lang::repeat_at_empty(pattern::chars(seq![('\0', '\u{10FFFF}')], s), 0, None);
    assert(w =~= seq![]);
}

proof fn lemma_search_placed(t: Syntax, at_start: bool, at_end: bool, s: Reading, w: Seq<u8>)
    requires
        pattern::placed_lang(t, at_start, at_end, false, s)(w),
    ensures
        pattern::placed_lang(t, at_start, at_end, true, s)(w),
    decreases t, 0nat,
{
    if pattern::look_free(t) {
        let m = pattern::meaning(t, s);
        let none = pattern::gap_lang(false, s);
        let left = pattern::gap_lang(at_start, s);
        let right = pattern::gap_lang(at_end, s);
        let i = lang::cat_split(none, lang::cat(m, none), w);
        let rest = w.skip(i);
        let j = lang::cat_split(m, none, rest);
        lemma_gap_opens(at_start, s, w.take(i));
        lemma_gap_opens(at_end, s, rest.skip(j));
        lang::cat_intro(m, right, rest.take(j), rest.skip(j));
        lang::cat_intro(left, lang::cat(m, right), w.take(i), rest);
    } else {
        match t.kind {
            KindView::Start => {
                lemma_gap_opens(at_end, s, w);
            },
            KindView::End => {
                lemma_gap_opens(at_start, s, w);
            },
            KindView::Capture(_) => {
                lemma_search_placed(t.subs[0], at_start, at_end, s, w);
            },
            KindView::Concat => {
                lemma_search_placed_from(t.subs, 0, at_start, at_end, s, w);
            },
            KindView::Alternation => {
                let k = choose|k: int|
                    0 <= k < t.subs.len() && pattern::placed_lang(
                        #[trigger] t.subs[k],
                        at_start,
                        at_end,
                        false,
                        s,
                    )(w);
                lemma_search_placed(t.subs[k], at_start, at_end, s, w);
            },
            _ => {},
        }
    }
}

proof fn lemma_search_placed_from(
    ts: Seq<Syntax>,
    k: nat,
    at_start: bool,
    at_end: bool,
    s: Reading,
    w: Seq<u8>,
)
    requires
        pattern::placed_from(ts, k, at_start, at_end, false, s)(w),
    ensures
        pattern::placed_from(ts, k, at_start, at_end, true, s)(w),
    decreases ts, ts.len() - k,
{
    if k < ts.len() {
        let first = at_start && k == 0;
        let last = at_end && k + 1 == ts.len();
        let i = lang::cat_split(
            pattern::placed_lang(ts[k as int], first, last, false, s),
            pattern::placed_from(ts, k + 1, at_start, at_end, false, s),
            w,
        );
        lemma_search_placed(ts[k as int], first, last, s, w.take(i));
        lemma_search_placed_from(ts, k + 1, at_start, at_end, s, w.skip(i));
        lang::cat_intro(
            pattern::placed_lang(ts[k as int], first, last, true, s),
            pattern::placed_from(ts, k + 1, at_start, at_end, true, s),
            w.take(i),
            w.skip(i),
        );
    }
}

/// What a pattern matches, a search for it finds.
pub proof fn search_finds_matches(flags: ParserFlags, p: Seq<char>, s: Reading, w: Seq<u8>)
    requires
        semantics::pattern_ok(flags, p),
        semantics::pattern_lang(flags, p, false, s)(w),
    ensures
        semantics::pattern_lang(flags, p, true, s)(w),
{
    lemma_pattern_placed(flags, p, false, s);
    lemma_pattern_placed(flags, p, true, s);
    lemma_search_placed(syntax::parsed(flags, p)->Ok_0, true, true, s, w);
}

/// All that a regex matches under a reading is a writing of some string, also where the regex has
/// complements.
pub proof fn ast_lang_written(flags: ParserFlags, set: ExprSet, a: Ast, s: Reading, w: Seq<u8>)
    requires
        !semantics::fails(flags, set, a),
        semantics::ast_lang(flags, set, a, s)(w),
    ensures
        lang::written(s, w),
    decreases a, 0nat,
{
    let p = lang::plain();
    assert forall|k: int| 0 <= k < a.args.len() implies !semantics::fails(
        flags,
        set,
        #[trigger] a.args[k],
    ) by {}
    match a.head {
        Head::Not => {},
        Head::And => {},
        Head::Or => {
            let k = choose|k: int|
                0 <= k < a.args.len() && semantics::ast_lang(flags, set, #[trigger] a.args[k], s)(
                    w,
                );
            ast_lang_written(flags, set, a.args[k], s, w);
        },
        Head::Concat => {
            lemma_concat_written(flags, set, a.args, 0, s, w);
        },
        Head::LookAhead => {
            ast_lang_written(flags, set, a.args[0], s, w);
        },
        Head::Repeat(min, max) => {
            let l = semantics::ast_lang(flags, set, a.args[0], s);
            let k = choose|k: nat|
                lang::in_bounds(k, min as nat, expr::max_bound(max)) && #[trigger] lang::power(
                    l,
                    k,
                )(w);
            lemma_power_written(flags, set, a, k, s, w);
        },
        Head::JsonQuote(q) => {
            let o = json_quote::escape_view(q);
            let t = quote::through(o, s);
            let l = semantics::ast_lang(flags, set, a.args[0], t);
            let mark = lang::one_of(set!['"' as u8], s);
            if q.raw_mode {
                ast_lang_written(flags, set, a.args[0], t, w);
                quote::written_through(o, s, w);
            } else {
                let i = lang::cat_split(mark, lang::cat(l, mark), w);
                let rest = w.skip(i);
                let j = lang::cat_split(l, mark, rest);
                ast_lang_written(flags, set, a.args[0], t, rest.take(j));
                quote::written_through(o, s, rest.take(j));
                image::language_written(Rx::ByteSet(set!['"' as u8]), s, w.take(i));
                image::language_written(Rx::ByteSet(set!['"' as u8]), s, rest.skip(j));
                image::written_join(s, rest.take(j), rest.skip(j));
                image::written_join(s, w.take(i), rest);
            }
        },
        Head::StringEscape(o) => {
            ast_lang_written(flags, set, a.args[0], quote::through(o, s), w);
            quote::written_through(o, s, w);
        },
        Head::MultipleOf(d, scale) => {
            let m = number::multiples(d as nat, scale as nat);
            lemma_image(m, s, w);
        },
        Head::EmptyString => {
            image::language_written(Rx::EmptyString, s, w);
        },
        Head::NoMatch => {},
        Head::Regex(t) => {
            lemma_pattern_image(flags, t, false, s);
            lemma_image(semantics::pattern_lang(flags, t, false, p), s, w);
        },
        Head::SearchRegex(t) => {
            lemma_pattern_image(flags, t, true, s);
            lemma_image(semantics::pattern_lang(flags, t, true, p), s, w);
        },
        Head::Literal(t) => {
            assert(lang::writes(s, vstd::utf8::encode_utf8(t), w));
        },
        Head::ByteLiteral(bytes) => {
            assert(lang::writes(s, bytes, w));
        },
        Head::Byte(b) => {
            image::language_written(Rx::ByteSet(set![b]), s, w);
        },
        Head::ByteSet(words) => {
            image::language_written(Rx::ByteSet(byteset::byteset(words)), s, w);
        },
        Head::ExprRef(r) => {
            image::language_written(set.tree(r), s, w);
        },
    }
}

proof fn lemma_concat_written(
    flags: ParserFlags,
    set: ExprSet,
    args: Seq<Ast>,
    k: nat,
    s: Reading,
    w: Seq<u8>,
)
    requires
        forall|k: int| 0 <= k < args.len() ==> !semantics::fails(flags, set, #[trigger] args[k]),
        semantics::concat_lang(flags, set, args, k, s)(w),
    ensures
        lang::written(s, w),
    decreases args, args.len() - k,
{
    if k < args.len() {
        let l = semantics::ast_lang(flags, set, args[k as int], s);
        let i = lang::cat_split(l, semantics::concat_lang(flags, set, args, k + 1, s), w);
        ast_lang_written(flags, set, args[k as int], s, w.take(i));
        lemma_concat_written(flags, set, args, k + 1, s, w.skip(i));
        image::written_join(s, w.take(i), w.skip(i));
    } else {
        image::language_written(Rx::EmptyString, s, w);
    }
}

proof fn lemma_power_written(
    flags: ParserFlags,
    set: ExprSet,
    a: Ast,
    k: nat,
    s: Reading,
    w: Seq<u8>,
)
    requires
        a.args.len() > 0,
        !semantics::fails(flags, set, a.args[0]),
        lang::power(semantics::ast_lang(flags, set, a.args[0], s), k)(w),
    ensures
        lang::written(s, w),
    decreases a.args, k,
{
    let l = semantics::ast_lang(flags, set, a.args[0], s);
    if k > 0 {
        let i = lang::cat_split(l, lang::power(l, (k - 1) as nat), w);
        ast_lang_written(flags, set, a.args[0], s, w.take(i));
        lemma_power_written(flags, set, a, (k - 1) as nat, s, w.skip(i));
        image::written_join(s, w.take(i), w.skip(i));
    } else {
        image::language_written(Rx::EmptyString, s, w);
    }
}

/// What a regex matches is contained in what another matches if and only if their difference
/// matches nothing.
pub proof fn difference_empty(flags: ParserFlags, set: ExprSet, small: Ast, big: Ast, s: Reading)
    requires
        !semantics::fails(flags, set, small),
    ensures
        (forall|w: Seq<u8>|
            !#[trigger] semantics::ast_lang(flags, set, ast::difference(small, big), s)(w))
            <==> (forall|w: Seq<u8>| #[trigger]
            semantics::ast_lang(flags, set, small, s)(w) ==> semantics::ast_lang(
                flags,
                set,
                big,
                s,
            )(w)),
{
    let d = ast::difference(small, big);
    let ld = semantics::ast_lang(flags, set, d, s);
    let ls = semantics::ast_lang(flags, set, small, s);
    let lb = semantics::ast_lang(flags, set, big, s);
    assert(d.args[0] == small);
    assert(d.args[1] == negated(big));
    assert(negated(big).args[0] == big);
    let ln = semantics::ast_lang(flags, set, negated(big), s);
    assert(ln == lang::complement(lb, s));
    assert forall|w: Seq<u8>| #[trigger] ld(w) == (ls(w) && !lb(w)) by {
        if ld(w) {
            assert(semantics::ast_lang(flags, set, d.args[0], s)(w));
            assert(semantics::ast_lang(flags, set, d.args[1], s)(w));
        }
        if ls(w) && !lb(w) {
            ast_lang_written(flags, set, small, s, w);
            assert forall|k: int| 0 <= k < d.args.len() implies semantics::ast_lang(
                flags,
                set,
                #[trigger] d.args[k],
                s,
            )(w) by {
                assert(k == 0 || k == 1);
            }
        }
    }
    if forall|w: Seq<u8>| !#[trigger] ld(w) {
        assert forall|w: Seq<u8>| #[trigger] ls(w) implies lb(w) by {
            assert(!ld(w));
        }
    }
}

} // verus!
