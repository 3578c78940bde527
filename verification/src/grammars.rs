//! Which bytes the escape grammars escape, and what they write for them, byte by byte.

use crate::ast::RegexAst;
use crate::error::Error;
use crate::escape;
use crate::escape::{EscapeView, FallbackFormat, FallbackView, StringEscapeOptions};
use crate::expr::ExprSet;
use crate::json_quote;
use crate::json_quote::{JsonQuoteOptions, JsonQuoteView};
use crate::lang;
use crate::lang::{Lang, Reading};
use crate::quote;
use crate::semantics;
use crate::sorting;
use crate::syntax::ParserFlags;
use vstd::prelude::*;

verus! {

/// What options hold is what they are made of.
pub proof fn options_hold(o: StringEscapeOptions, f: FallbackFormat, q: JsonQuoteOptions)
    ensures
        o@.sequences.len() == o.escape_sequences@.len(),
        forall|k: int|
            0 <= k < o.escape_sequences@.len() ==> o@.sequences[k] == (
                (#[trigger] o.escape_sequences@[k]).0,
                o.escape_sequences@[k].1@,
            ),
        o.fallback is None <==> o@.fallback is None,
        o.fallback matches Some(g) ==> o@.fallback == Some(g@),
        o@.must_escape == o.must_escape@,
        f@.prefix == f.prefix@,
        f@.suffix == f.suffix@,
        f.valid_byte_ranges is None <==> f@.ranges is None,
        f.valid_byte_ranges matches Some(ranges) ==> f@.ranges == Some(ranges@),
        q@.allowed_escapes == q.allowed_escapes@,
        q@.raw_mode == q.raw_mode,
{
}

/// A fallback without ranges is for all bytes, and one with ranges for the bytes of these.
pub proof fn fallback_covers(f: FallbackView, b: u8)
    ensures
        f.ranges is None ==> escape::covers(f, b),
        f.ranges matches Some(ranges) ==> (escape::covers(f, b) <==> exists|k: int|
            0 <= k < ranges.len() && (#[trigger] ranges[k]).0 <= b <= ranges[k].1),
{
}

/// How a grammar writes a byte. One that has not to be escaped is written as itself. One that has to
/// be is written as its sequence, or, where the fallback covers it, as the prefix, two hex digits in
/// either case, the high one first, and the suffix.
pub proof fn byte_written(o: EscapeView, b: u8, v: Seq<u8>)
    ensures
        !o.must_escape.contains(b) ==> (escape::reading(o)(b, v) <==> v == seq![b]),
        o.must_escape.contains(b) ==> (escape::reading(o)(b, v) <==> o.sequences.contains((b, v)) || (
        o.fallback matches Some(f) && escape::covers(f, b) && exists|high: u8, low: u8|
            v == f.prefix + seq![high, low] + f.suffix && #[trigger] hex_value(high) == Some(
                b as int / 16,
            ) && #[trigger] hex_value(low) == Some(b as int % 16))),
{
    if o.must_escape.contains(b) {
        if let Some(f) = o.fallback {
            assert forall|c: u8, n: int| 0 <= n < 16 implies (#[trigger] escape::is_hex(c, n)
                <==> hex_value(c) == Some(n)) by {}
            if escape::hex_form(f, b, v) {
                let (high, low) = choose|high: u8, low: u8|
                    #[trigger] escape::is_hex(high, b as int / 16) && #[trigger] escape::is_hex(
                        low,
                        b as int % 16,
                    ) && v == f.prefix + seq![high, low] + f.suffix;
                assert(hex_value(high) == Some(b as int / 16));
                assert(hex_value(low) == Some(b as int % 16));
            }
            if exists|high: u8, low: u8|
                v == f.prefix + seq![high, low] + f.suffix && #[trigger] hex_value(high) == Some(
                    b as int / 16,
                ) && #[trigger] hex_value(low) == Some(b as int % 16) {
                let (high, low) = choose|high: u8, low: u8|
                    v == f.prefix + seq![high, low] + f.suffix && #[trigger] hex_value(high)
                        == Some(b as int / 16) && #[trigger] hex_value(low) == Some(b as int % 16);
                assert(escape::is_hex(high, b as int / 16));
                assert(escape::is_hex(low, b as int % 16));
            }
        }
    }
}

/// The value of a hex digit, in upper or lower case.
pub open spec fn hex_value(c: u8) -> Option<int> {
    if 0x30 <= c <= 0x39 {
        Some(c - 0x30)
    } else if 0x41 <= c <= 0x46 {
        Some(c - 0x37)
    } else if 0x61 <= c <= 0x66 {
        Some(c - 0x57)
    } else {
        None
    }
}

/// The byte is one that JSON strings escape.
pub open spec fn json_escapes(b: u8) -> bool {
    b < 0x20 || b == 0x22 || b == 0x5C || b == 0x7F
}

/// What JSON quoting options stand for: each of the five named escapes is there if it is allowed, for
/// its own byte and as a backslash and its name; the backslash and the quote are always escaped; and
/// `u` allows `\u00` with two hex digits for all bytes of ASCII. The bytes that have to be escaped are
/// the control characters, the quote, the backslash and DEL.
pub proof fn quote_grammar(o: JsonQuoteView, b: u8, v: Seq<u8>)
    ensures
        json_quote::escape_view(o).sequences.contains((b, v)) <==> {
            ||| b == 0x08 && v == seq![0x5Cu8, 0x62] && json_quote::allowed(o, 0x62)
            ||| b == 0x0C && v == seq![0x5Cu8, 0x66] && json_quote::allowed(o, 0x66)
            ||| b == 0x0A && v == seq![0x5Cu8, 0x6E] && json_quote::allowed(o, 0x6E)
            ||| b == 0x0D && v == seq![0x5Cu8, 0x72] && json_quote::allowed(o, 0x72)
            ||| b == 0x09 && v == seq![0x5Cu8, 0x74] && json_quote::allowed(o, 0x74)
            ||| b == 0x5C && v == seq![0x5Cu8, 0x5C]
            ||| b == 0x22 && v == seq![0x5Cu8, 0x22]
        },
        json_quote::escape_view(o).must_escape.contains(b) <==> json_escapes(b),
        json_quote::escape_view(o).fallback is Some <==> json_quote::allowed(o, 0x75),
        json_quote::escape_view(o).fallback matches Some(f) ==> f.prefix == seq![
            0x5Cu8,
            0x75,
            0x30,
            0x30,
        ] && f.suffix.len() == 0 && (escape::covers(f, b) <==> b <= 0x7F),
        json_quote::allowed(o, b) <==> vstd::utf8::encode_utf8(o.allowed_escapes).contains(b),
{
    let e = json_quote::escape_view(o);
    let s = e.sequences;
    lemma_json_bytes(b);
    lemma_json_fallback(b);
    reveal_strlit("\\\\");
    reveal_strlit("\\\"");
    assert(crate::text::ascii("\\\\"@) =~= seq![0x5Cu8, 0x5C]);
    assert(crate::text::ascii("\\\""@) =~= seq![0x5Cu8, 0x22]);
    let bb = json_quote::optional_sequence(o, 0x62, 0x08);
    let ff = json_quote::optional_sequence(o, 0x66, 0x0C);
    let nn = json_quote::optional_sequence(o, 0x6E, 0x0A);
    let rr = json_quote::optional_sequence(o, 0x72, 0x0D);
    let tt = json_quote::optional_sequence(o, 0x74, 0x09);
    let last = seq![(0x5Cu8, seq![0x5Cu8, 0x5C]), (0x22u8, seq![0x5Cu8, 0x22])];
    assert(s =~= bb + ff + nn + rr + tt + last);
    let x = (b, v);
    lemma_in_join(bb + ff + nn + rr + tt, last, x);
    lemma_in_join(bb + ff + nn + rr, tt, x);
    lemma_in_join(bb + ff + nn, rr, x);
    lemma_in_join(bb + ff, nn, x);
    lemma_in_join(bb, ff, x);
    lemma_in_optional(o, 0x62, 0x08, x);
    lemma_in_optional(o, 0x66, 0x0C, x);
    lemma_in_optional(o, 0x6E, 0x0A, x);
    lemma_in_optional(o, 0x72, 0x0D, x);
    lemma_in_optional(o, 0x74, 0x09, x);
    assert(last.contains(x) <==> x == last[0] || x == last[1]) by {
        if last.contains(x) {
            let i = last.index_of(x);
            assert(i == 0 || i == 1);
        }
    }
}

/// The place of an escaped byte in the list of JSON's sequences.
pub open spec fn json_rank(b: u8) -> int {
    if b == 0x08 {
        0
    } else if b == 0x0C {
        1
    } else if b == 0x0A {
        2
    } else if b == 0x0D {
        3
    } else if b == 0x09 {
        4
    } else if b == 0x5C {
        5
    } else {
        6
    }
}

/// The sequences of JSON stand in one order, each byte once, and so do the bytes that have to be
/// escaped: the control characters in theirs, then the backslash, the quote and DEL.
pub proof fn json_order(o: JsonQuoteView)
    ensures
        forall|i: int, j: int|
            0 <= i < j < json_quote::escape_view(o).sequences.len() ==> json_rank(
                (#[trigger] json_quote::escape_view(o).sequences[i]).0,
            ) < json_rank((#[trigger] json_quote::escape_view(o).sequences[j]).0),
        forall|i: int, j: int|
            0 <= i < j < escape::json_view().sequences.len() ==> json_rank(
                (#[trigger] escape::json_view().sequences[i]).0,
            ) < json_rank((#[trigger] escape::json_view().sequences[j]).0),
        json_quote::escape_view(o).must_escape == escape::json_view().must_escape,
        escape::json_view().must_escape.len() == 35,
        forall|i: int| 0 <= i < 32 ==> (#[trigger] escape::json_view().must_escape[i]) == i,
        escape::json_view().must_escape[32] == 0x5C,
        escape::json_view().must_escape[33] == 0x22,
        escape::json_view().must_escape[34] == 0x7F,
{
    let bb = json_quote::optional_sequence(o, 0x62, 0x08);
    let ff = json_quote::optional_sequence(o, 0x66, 0x0C);
    let nn = json_quote::optional_sequence(o, 0x6E, 0x0A);
    let rr = json_quote::optional_sequence(o, 0x72, 0x0D);
    let tt = json_quote::optional_sequence(o, 0x74, 0x09);
    let s = json_quote::escape_view(o).sequences;
    assert(s.len() == bb.len() + ff.len() + nn.len() + rr.len() + tt.len() + 2);
}

proof fn lemma_in_join<T>(a: Seq<T>, c: Seq<T>, x: T)
    ensures
        (a + c).contains(x) <==> a.contains(x) || c.contains(x),
{
    let s = a + c;
    if s.contains(x) {
        let i = s.index_of(x);
        if i < a.len() {
            assert(a[i] == x);
        } else {
            assert(c[i - a.len()] == x);
        }
    }
    if a.contains(x) {
        assert(s[a.index_of(x)] == x);
    }
    if c.contains(x) {
        assert(s[a.len() + c.index_of(x)] == x);
    }
}

proof fn lemma_in_optional(o: JsonQuoteView, name: u8, byte: u8, x: (u8, Seq<u8>))
    ensures
        json_quote::optional_sequence(o, name, byte).contains(x) <==> json_quote::allowed(o, name)
            && x == (byte, seq![0x5Cu8, name]),
{
    let s = json_quote::optional_sequence(o, name, byte);
    if json_quote::allowed(o, name) {
        assert(s[0] == (byte, seq![0x5Cu8, name]));
    }
}

proof fn lemma_json_bytes(b: u8)
    ensures
        escape::json_must_escape().contains(b) <==> json_escapes(b),
{
    let s = escape::json_must_escape();
    assert(s.len() == 35);
    assert(s[32] == 0x5C && s[33] == 0x22 && s[34] == 0x7F);
    if s.contains(b) {
        let i = s.index_of(b);
        if i < 32 {
            assert(s[i] == i as u8);
        }
    }
    if b < 0x20 {
        assert(s[b as int] == b);
    }
}

proof fn lemma_json_fallback(b: u8)
    ensures
        escape::json_fallback().prefix == seq![0x5Cu8, 0x75, 0x30, 0x30],
        escape::json_fallback().suffix.len() == 0,
        escape::covers(escape::json_fallback(), b) <==> b <= 0x7F,
{
    reveal_strlit("\\u00");
    assert(escape::json_fallback().prefix =~= seq![0x5Cu8, 0x75, 0x30, 0x30]);
    let ranges = escape::json_fallback().ranges->0;
    if b <= 0x7F {
        assert(ranges[0].0 <= b <= ranges[0].1);
        assert(escape::in_ranges(ranges, b));
    }
}

/// The bytes that name an escape: `"`, `\`, `b`, `f`, `n`, `r`, `t` and `u`.
pub proof fn escape_names(b: u8)
    ensures
        json_quote::is_escape_name(b) <==> b == 0x22 || b == 0x5C || b == 0x62 || b == 0x66 || b
            == 0x6E || b == 0x72 || b == 0x74 || b == 0x75,
{
    reveal_strlit("\"\\bfnrtu");
    let names = crate::text::ascii("\"\\bfnrtu"@);
    assert(names =~= seq![0x22u8, 0x5C, 0x62, 0x66, 0x6E, 0x72, 0x74, 0x75]);
    assert(names[0] == 0x22 && names[1] == 0x5C && names[2] == 0x62 && names[3] == 0x66 && names[4]
        == 0x6E && names[5] == 0x72 && names[6] == 0x74 && names[7] == 0x75);
}

/// The grammar of JSON strings has all seven named escapes, escapes the control characters, the quote,
/// the backslash and DEL, and falls back to `\u00` with two hex digits for all bytes of ASCII.
pub proof fn json_grammar(b: u8, v: Seq<u8>)
    ensures
        escape::json_view().sequences.contains((b, v)) <==> {
            ||| b == 0x08 && v == seq![0x5Cu8, 0x62]
            ||| b == 0x0C && v == seq![0x5Cu8, 0x66]
            ||| b == 0x0A && v == seq![0x5Cu8, 0x6E]
            ||| b == 0x0D && v == seq![0x5Cu8, 0x72]
            ||| b == 0x09 && v == seq![0x5Cu8, 0x74]
            ||| b == 0x5C && v == seq![0x5Cu8, 0x5C]
            ||| b == 0x22 && v == seq![0x5Cu8, 0x22]
        },
        escape::json_view().must_escape.contains(b) <==> json_escapes(b),
        escape::json_view().fallback matches Some(f) && f.prefix == seq![0x5Cu8, 0x75, 0x30, 0x30]
            && f.suffix.len() == 0 && (escape::covers(f, b) <==> b <= 0x7F),
{
    lemma_json_bytes(b);
    lemma_json_fallback(b);
    reveal_strlit("\\b");
    reveal_strlit("\\f");
    reveal_strlit("\\n");
    reveal_strlit("\\r");
    reveal_strlit("\\t");
    reveal_strlit("\\\\");
    reveal_strlit("\\\"");
    let s = escape::json_view().sequences;
    assert(s =~~= seq![
        (0x08u8, seq![0x5Cu8, 0x62]),
        (0x0Cu8, seq![0x5Cu8, 0x66]),
        (0x0Au8, seq![0x5Cu8, 0x6E]),
        (0x0Du8, seq![0x5Cu8, 0x72]),
        (0x09u8, seq![0x5Cu8, 0x74]),
        (0x5Cu8, seq![0x5Cu8, 0x5C]),
        (0x22u8, seq![0x5Cu8, 0x22]),
    ]);
    if s.contains((b, v)) {
        let i = s.index_of((b, v));
        assert(i == 0 || i == 1 || i == 2 || i == 3 || i == 4 || i == 5 || i == 6);
    }
    assert(s.contains(s[0]) && s.contains(s[1]) && s.contains(s[2]) && s.contains(s[3])
        && s.contains(s[4]) && s.contains(s[5]) && s.contains(s[6]));
}

/// URLs keep letters, digits, `-`, `.`, `_` and `~`, and write all other bytes as `%` with two hex
/// digits.
pub proof fn url_grammar(b: u8)
    ensures
        escape::unreserved(b) <==> 0x41 <= b <= 0x5A || 0x61 <= b <= 0x7A || 0x30 <= b <= 0x39 || b
            == 0x2D || b == 0x2E || b == 0x5F || b == 0x7E,
        escape::url_fallback().prefix == seq![0x25u8],
        escape::url_fallback().suffix.len() == 0,
        escape::covers(escape::url_fallback(), b),
{
    reveal_strlit("%");
    assert(escape::url_fallback().prefix =~= seq![0x25u8]);
}

/// XML has named entities for `&`, `<`, `>`, `"` and `'`, and escapes these and TAB, LF and CR. It
/// falls back to `&#x`, two hex digits and `;`, for the bytes that are characters of XML.
pub proof fn xml_grammar(b: u8, v: Seq<u8>)
    ensures
        escape::xml_view().sequences.contains((b, v)) <==> {
            ||| b == 0x26 && v == seq![0x26u8, 0x61, 0x6D, 0x70, 0x3B]
            ||| b == 0x3C && v == seq![0x26u8, 0x6C, 0x74, 0x3B]
            ||| b == 0x3E && v == seq![0x26u8, 0x67, 0x74, 0x3B]
            ||| b == 0x22 && v == seq![0x26u8, 0x71, 0x75, 0x6F, 0x74, 0x3B]
            ||| b == 0x27 && v == seq![0x26u8, 0x61, 0x70, 0x6F, 0x73, 0x3B]
        },
        escape::xml_view().must_escape.contains(b) <==> b == 0x09 || b == 0x0A || b == 0x0D || b
            == 0x26 || b == 0x3C || b == 0x3E || b == 0x22 || b == 0x27,
        escape::xml_view().fallback matches Some(f) && f.prefix == seq![0x26u8, 0x23, 0x78]
            && f.suffix == seq![0x3Bu8] && (escape::covers(f, b) <==> b == 0x09 || b == 0x0A || b
            == 0x0D || 0x20 <= b),
{
    reveal_strlit("&amp;");
    reveal_strlit("&lt;");
    reveal_strlit("&gt;");
    reveal_strlit("&quot;");
    reveal_strlit("&apos;");
    reveal_strlit("&#x");
    reveal_strlit(";");
    let x = escape::xml_view();
    let s = x.sequences;
    assert(s =~~= seq![
        (0x26u8, seq![0x26u8, 0x61, 0x6D, 0x70, 0x3B]),
        (0x3Cu8, seq![0x26u8, 0x6C, 0x74, 0x3B]),
        (0x3Eu8, seq![0x26u8, 0x67, 0x74, 0x3B]),
        (0x22u8, seq![0x26u8, 0x71, 0x75, 0x6F, 0x74, 0x3B]),
        (0x27u8, seq![0x26u8, 0x61, 0x70, 0x6F, 0x73, 0x3B]),
    ]);
    if s.contains((b, v)) {
        let i = s.index_of((b, v));
        assert(i == 0 || i == 1 || i == 2 || i == 3 || i == 4);
    }
    assert(s.contains(s[0]) && s.contains(s[1]) && s.contains(s[2]) && s.contains(s[3])
        && s.contains(s[4]));
    let m = x.must_escape;
    assert(m.len() == 8);
    assert(m[0] == 0x09 && m[1] == 0x0A && m[2] == 0x0D && m[3] == 0x26 && m[4] == 0x3C && m[5]
        == 0x3E && m[6] == 0x22 && m[7] == 0x27);
    let f = x.fallback->0;
    assert(f.prefix =~= seq![0x26u8, 0x23, 0x78]);
    assert(f.suffix =~= seq![0x3Bu8]);
    let ranges = f.ranges->0;
    assert(ranges[0].0 == 0x09 && ranges[0].1 == 0x0A && ranges[1].0 == 0x0D && ranges[1].1 == 0x0D
        && ranges[2].0 == 0x20 && ranges[2].1 == 0xFF && ranges.len() == 3);
}

/// What is escaped is read through the grammar: under the plain reading each byte is written as the
/// grammar writes it.
pub proof fn read_through(o: EscapeView, b: u8, v: Seq<u8>)
    ensures
        quote::through(o, lang::plain())(b, v) <==> escape::reading(o)(b, v),
{
    lang::compose_plain(escape::reading(o));
}

/// Read through a grammar and then another, a byte is written as a writing, by the second, of what
/// the first writes.
pub proof fn read_through_two(o: EscapeView, s: Reading, b: u8, v: Seq<u8>)
    ensures
        quote::through(o, s)(b, v) <==> exists|x: Seq<u8>| #[trigger]
            escape::reading(o)(b, x) && lang::writes(s, x, v),
{
}

/// An escaped regex matches what the regex matches when each byte is read through the grammar.
pub proof fn escape_matches(
    flags: ParserFlags,
    set: ExprSet,
    a: RegexAst,
    o: StringEscapeOptions,
    s: Reading,
    w: Seq<u8>,
)
    ensures
        semantics::ast_lang(flags, set, RegexAst::StringEscape(Box::new(a), o)@, s)(w)
            <==> semantics::ast_lang(flags, set, a@, quote::through(o@, s))(w),
{
}

/// A JSON-quoted regex matches what the regex matches when each byte is read through the grammar of
/// the options, without quotes in raw mode, and else between two of them.
pub proof fn quote_matches(
    flags: ParserFlags,
    set: ExprSet,
    a: RegexAst,
    o: JsonQuoteOptions,
    w: Seq<u8>,
)
    ensures
        o.raw_mode ==> (semantics::ast_lang(
            flags,
            set,
            RegexAst::JsonQuote(Box::new(a), o)@,
            lang::plain(),
        )(w) <==> semantics::ast_lang(
            flags,
            set,
            a@,
            quote::through(json_quote::escape_view(o@), lang::plain()),
        )(w)),
        !o.raw_mode ==> (semantics::ast_lang(
            flags,
            set,
            RegexAst::JsonQuote(Box::new(a), o)@,
            lang::plain(),
        )(w) <==> w.len() >= 2 && w[0] == 0x22 && w[w.len() - 1] == 0x22 && semantics::ast_lang(
            flags,
            set,
            a@,
            quote::through(json_quote::escape_view(o@), lang::plain()),
        )(w.subrange(1, w.len() - 1))),
{
    let p = lang::plain();
    let inner = semantics::ast_lang(
        flags,
        set,
        a@,
        quote::through(json_quote::escape_view(o@), p),
    );
    let mark = lang::one_of(set![0x22u8], p);
    if !o.raw_mode {
        let l = semantics::quoted(o@, inner, p);
        if l(w) {
            let i = lang::cat_split(mark, lang::cat(inner, mark), w);
            crate::strings::lemma_one_of(set![0x22u8], w.take(i));
            let rest = w.skip(i);
            let j = lang::cat_split(inner, mark, rest);
            crate::strings::lemma_one_of(set![0x22u8], rest.skip(j));
            assert(i == 1 && j == rest.len() - 1);
            assert(w.take(1)[0] == w[0]);
            assert(rest.skip(j)[0] == w[w.len() - 1]);
            assert(rest.take(j) =~= w.subrange(1, w.len() - 1));
        }
        if w.len() >= 2 && w[0] == 0x22 && w[w.len() - 1] == 0x22 && inner(
            w.subrange(1, w.len() - 1),
        ) {
            let x = w.subrange(1, w.len() - 1);
            let q = seq![0x22u8];
            crate::strings::lemma_one_of(set![0x22u8], q);
            lang::cat_intro(inner, mark, x, q);
            lang::cat_intro(mark, lang::cat(inner, mark), q, x + q);
            assert(w =~= q + (x + q));
        }
    }
}

/// When options can be used: no byte has two different sequences, no range starts after its end, and
/// where the fallback has ranges, each byte that has to be escaped lies in one of them or has a
/// sequence.
pub proof fn options_usable(o: EscapeView)
    ensures
        escape::usable(o) <==> {
            &&& forall|b: u8, v: Seq<u8>, w: Seq<u8>|
                #[trigger] o.sequences.contains((b, v)) && #[trigger] o.sequences.contains((b, w))
                    ==> v == w
            &&& o.fallback matches Some(f) ==> f.ranges matches Some(ranges) ==> forall|k: int|
                0 <= k < ranges.len() ==> (#[trigger] ranges[k]).0 <= ranges[k].1
            &&& o.fallback matches Some(f) ==> f.ranges is Some ==> forall|b: u8|
                #[trigger] o.must_escape.contains(b) && !escape::covers(f, b) ==> exists|v: Seq<u8>|
                    #[trigger] o.sequences.contains((b, v))
        },
{
    let s = o.sequences;
    assert forall|b: u8| #[trigger] sorting::has_key(s, b) <==> exists|v: Seq<u8>|
        #[trigger] s.contains((b, v)) by {
        if sorting::has_key(s, b) {
            let i = choose|i: int| 0 <= i < s.len() && (#[trigger] s[i]).0 == b;
            assert(s.contains((b, s[i].1)));
        }
        if exists|v: Seq<u8>| #[trigger] s.contains((b, v)) {
            let v = choose|v: Seq<u8>| #[trigger] s.contains((b, v));
            assert(s[s.index_of((b, v))].0 == b);
        }
    }
    if escape::usable(o) {
        assert forall|b: u8, v: Seq<u8>, w: Seq<u8>|
            #[trigger] s.contains((b, v)) && #[trigger] s.contains((b, w)) implies v == w by {
            assert(!escape::conflict(s, b));
        }
        if let Some(f) = o.fallback {
            if f.ranges is Some {
                assert forall|b: u8|
                    #[trigger] o.must_escape.contains(b) && !escape::covers(f, b) implies exists|
                    v: Seq<u8>,
                |
                    #[trigger] s.contains((b, v)) by {
                    assert(!escape::unrepresentable(o, b));
                    assert(sorting::has_key(s, b));
                }
            }
        }
    }
}

/// What an error of options says is so, and of what comes first: a byte with two sequences, and none
/// below it; or, where there is none, a range of the fallback that starts after its end, and none that
/// starts below it; or, where there is none either, a byte that has to be escaped, lies in no range and
/// has no sequence, and none below it.
pub proof fn options_refused(o: EscapeView, e: Error)
    requires
        escape::is_escape_error(o, e),
    ensures
        !escape::usable(o),
        match e {
            Error::ConflictingEscapeSequences(b) => {
                &&& two_sequences(o, b)
                &&& forall|c: u8| c < b ==> !#[trigger] two_sequences(o, c)
            },
            Error::InvalidByteRange(lo, hi) => {
                &&& hi < lo
                &&& forall|b: u8| !#[trigger] two_sequences(o, b)
                &&& o.fallback matches Some(f) && f.ranges matches Some(ranges) && ranges.contains(
                    (lo, hi),
                ) && forall|k: int|
                    0 <= k < ranges.len() && (#[trigger] ranges[k]).1 < ranges[k].0 ==> lo
                        <= ranges[k].0
            },
            Error::UnrepresentableByte(b) => {
                &&& forall|c: u8| !#[trigger] two_sequences(o, c)
                &&& no_form(o, b)
                &&& forall|c: u8| c < b ==> !#[trigger] no_form(o, c)
            },
            _ => false,
        },
{
    escape::escape_error_unusable(o, e);
    let s = o.sequences;
    assert forall|b: u8| #[trigger] two_sequences(o, b) == escape::conflict(s, b) by {
        if escape::conflict(s, b) {
            let (v, w) = choose|v: Seq<u8>, w: Seq<u8>|
                v != w && #[trigger] s.contains((b, v)) && #[trigger] s.contains((b, w));
            let i = s.index_of((b, v));
            let j = s.index_of((b, w));
            assert(s[i].0 == b && s[j].0 == b && s[i].1 != s[j].1);
        }
        if two_sequences(o, b) {
            let (i, j) = choose|i: int, j: int|
                0 <= i < s.len() && 0 <= j < s.len() && (#[trigger] s[i]).0 == b && (
                #[trigger] s[j]).0 == b && s[i].1 != s[j].1;
            assert(s.contains((b, s[i].1)) && s.contains((b, s[j].1)));
        }
    }
    assert forall|b: u8| #[trigger] no_form(o, b) == escape::unrepresentable(o, b) by {}
    match e {
        Error::ConflictingEscapeSequences(b) => {
            assert(escape::conflict(s, b));
            assert forall|c: u8| c < b implies !#[trigger] two_sequences(o, c) by {
                assert(!escape::conflict(s, c));
            }
        },
        Error::InvalidByteRange(lo, hi) => {
            assert forall|c: u8| !#[trigger] two_sequences(o, c) by {
                assert(!escape::conflict(s, c));
            }
            let ranges = o.fallback->0.ranges->0;
            let sorted = choose|sorted: Seq<(u8, u8)>| #[trigger]
                sorting::is_stable_sort(sorted, ranges) && escape::is_first_invalid(
                    sorted,
                    lo,
                    hi,
                );
            let i = choose|i: int|
                #![trigger sorted[i]]
                0 <= i < sorted.len() && sorted[i] == (lo, hi) && hi < lo && forall|j: int|
                    0 <= j < i ==> (#[trigger] sorted[j]).0 <= sorted[j].1;
            assert(sorted.contains(sorted[i]));
            escape::lemma_sort_contains(sorted, ranges, sorted[i]);
            assert forall|k: int|
                0 <= k < ranges.len() && (#[trigger] ranges[k]).1 < ranges[k].0 implies lo
                <= ranges[k].0 by {
                assert(ranges.contains(ranges[k]));
                escape::lemma_sort_contains(sorted, ranges, ranges[k]);
                let j = sorted.index_of(ranges[k]);
                assert(j >= i) by {
                    if j < i {
                        assert(sorted[j].0 <= sorted[j].1);
                    }
                }
                assert(sorted[i].0 <= sorted[j].0);
            }
        },
        Error::UnrepresentableByte(b) => {
            assert forall|c: u8| !#[trigger] two_sequences(o, c) by {
                assert(!escape::conflict(s, c));
            }
            assert(no_form(o, b));
            assert forall|c: u8| c < b implies !#[trigger] no_form(o, c) by {
                assert(!escape::unrepresentable(o, c));
            }
        },
        _ => {},
    }
}

/// Two different sequences are given for the byte.
pub open spec fn two_sequences(o: EscapeView, b: u8) -> bool {
    exists|i: int, j: int|
        0 <= i < o.sequences.len() && 0 <= j < o.sequences.len() && (#[trigger] o.sequences[i]).0
            == b && (#[trigger] o.sequences[j]).0 == b && o.sequences[i].1 != o.sequences[j].1
}

/// The byte has to be escaped, the fallback has ranges and none of them holds it, and it has no
/// sequence.
pub open spec fn no_form(o: EscapeView, b: u8) -> bool {
    &&& o.must_escape.contains(b)
    &&& o.fallback matches Some(f) && f.ranges matches Some(ranges) && forall|k: int|
        0 <= k < ranges.len() ==> !((#[trigger] ranges[k]).0 <= b <= ranges[k].1)
    &&& forall|k: int| 0 <= k < o.sequences.len() ==> (#[trigger] o.sequences[k]).0 != b
}

/// The normal form of options has the same sequences and the same bytes to escape, each once and in
/// increasing order, and the same fallback, but for ranges that hold the same bytes, increase and do
/// not touch, and are left out where they hold every byte.
pub proof fn normal_form_holds(n: EscapeView, o: EscapeView)
    requires
        escape::normalized(n, o),
    ensures
        forall|i: int, j: int|
            0 <= i < j < n.sequences.len() ==> (#[trigger] n.sequences[i]).0 < (
            #[trigger] n.sequences[j]).0,
        forall|x: (u8, Seq<u8>)| #[trigger] n.sequences.contains(x) <==> o.sequences.contains(x),
        forall|i: int, j: int|
            0 <= i < j < n.must_escape.len() ==> #[trigger] n.must_escape[i]
                < #[trigger] n.must_escape[j],
        forall|b: u8| #[trigger] n.must_escape.contains(b) <==> o.must_escape.contains(b),
        n.fallback is Some <==> o.fallback is Some,
        n.fallback matches Some(f) ==> f.prefix == o.fallback->0.prefix && f.suffix
            == o.fallback->0.suffix && forall|b: u8| #[trigger]
            escape::covers(f, b) <==> escape::covers(o.fallback->0, b),
        n.fallback matches Some(f) ==> f.ranges matches Some(ranges) ==> {
            &&& forall|i: int| 0 <= i < ranges.len() ==> (#[trigger] ranges[i]).0 <= ranges[i].1
            &&& forall|i: int, j: int|
                0 <= i < j < ranges.len() ==> (#[trigger] ranges[i]).1 + 1 < (#[trigger] ranges[j]).0
            &&& exists|b: u8| !#[trigger] escape::covers(f, b)
        },
{
    if let Some(f) = n.fallback {
        if let Some(ranges) = f.ranges {
            let b = choose|b: u8| !#[trigger] escape::in_ranges(ranges, b);
            assert(!escape::covers(f, b));
        }
    }
}

/// The allowed escapes are refused for the first byte among them that names no escape, and only where
/// there is one.
pub proof fn escapes_refused(o: JsonQuoteView, e: Error)
    ensures
        semantics::names_valid(o) <==> forall|k: int|
            0 <= k < vstd::utf8::encode_utf8(o.allowed_escapes).len() ==> json_quote::is_escape_name(
                #[trigger] vstd::utf8::encode_utf8(o.allowed_escapes)[k],
            ),
        semantics::is_quote_error(o, e) ==> (e matches Error::InvalidAllowedEscape(b) && exists|k: int|
            0 <= k < vstd::utf8::encode_utf8(o.allowed_escapes).len()
                && #[trigger] vstd::utf8::encode_utf8(o.allowed_escapes)[k] == b
                && !json_quote::is_escape_name(b) && forall|j: int|
                0 <= j < k ==> json_quote::is_escape_name(
                    #[trigger] vstd::utf8::encode_utf8(o.allowed_escapes)[j],
                )),
{
    let bytes = vstd::utf8::encode_utf8(o.allowed_escapes);
    if semantics::names_valid(o) {
        assert forall|k: int| 0 <= k < bytes.len() implies json_quote::is_escape_name(
            #[trigger] bytes[k],
        ) by {
            assert(bytes.contains(bytes[k]));
            assert(json_quote::allowed(o, bytes[k]));
        }
    }
}

/// Under any reading, a quoted string is a string, and in other than raw mode a writing of the quote
/// before it and one after it.
pub proof fn quoted_strings(o: JsonQuoteView, inner: Lang, s: Reading, w: Seq<u8>)
    ensures
        o.raw_mode ==> (semantics::quoted(o, inner, s)(w) <==> inner(w)),
        !o.raw_mode ==> (semantics::quoted(o, inner, s)(w) <==> exists|x: Seq<u8>, y: Seq<u8>, z: Seq<
            u8,
        >| w == #[trigger] (x + y + z) && s(0x22, x) && inner(y) && s(0x22, z)),
{
    if !o.raw_mode {
        let mark = lang::one_of(set![0x22u8], s);
        let tail = lang::cat(inner, mark);
        assert(set![0x22u8].contains(0x22u8));
        if semantics::quoted(o, inner, s)(w) {
            let i = lang::cat_split(mark, tail, w);
            let rest = w.skip(i);
            let j = lang::cat_split(inner, mark, rest);
            let (x, y, z) = (w.take(i), rest.take(j), rest.skip(j));
            assert(w =~= x + y + z);
        }
        assert forall|x: Seq<u8>, y: Seq<u8>, z: Seq<u8>|
            w == #[trigger] (x + y + z) && s(0x22, x) && inner(y) && s(
                0x22,
                z,
            ) implies semantics::quoted(o, inner, s)(w) by {
            assert(mark(x) && mark(z));
            lang::cat_intro(inner, mark, y, z);
            lang::cat_intro(mark, tail, x, y + z);
            assert(w =~= x + (y + z));
        }
    }
}

/// A list that is sorted by its bytes has the entries of the list, and their bytes do not decrease.
pub proof fn stable_sort<T>(sorted: Seq<(u8, T)>, s: Seq<(u8, T)>, x: (u8, T))
    requires
        sorting::is_stable_sort(sorted, s),
    ensures
        forall|i: int, j: int|
            0 <= i < j < sorted.len() ==> (#[trigger] sorted[i]).0 <= (#[trigger] sorted[j]).0,
        sorted.contains(x) <==> s.contains(x),
{
    escape::lemma_sort_contains(sorted, s, x);
}

} // verus!
