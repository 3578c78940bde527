//! Escaped strings tell what they were escaped from.

use crate::escape;
use crate::escape::{EscapeView, FallbackView};
use crate::image;
use crate::json_quote;
use crate::json_quote::JsonQuoteView;
use crate::lang;
use crate::lang::Reading;
use crate::number;
use crate::sorting;
use vstd::prelude::*;

verus! {

/// `w` starts with `v`.
pub open spec fn starts_with(w: Seq<u8>, v: Seq<u8>) -> bool {
    v.len() <= w.len() && w.take(v.len() as int) == v
}

/// No writing of a byte is empty, or starts a different writing, of that byte or of another.
pub open spec fn prefix_free(r: Reading) -> bool {
    &&& forall|b: u8, v: Seq<u8>| #[trigger] r(b, v) ==> v.len() > 0
    &&& forall|b: u8, v: Seq<u8>, c: u8, w: Seq<u8>| #[trigger]
        r(b, v) && #[trigger] r(c, w) && starts_with(w, v) ==> b == c && v == w
}

/// No string writes two different strings.
pub open spec fn decodes_uniquely(r: Reading) -> bool {
    forall|x: Seq<u8>, y: Seq<u8>, v: Seq<u8>| #[trigger]
        lang::writes(r, x, v) && #[trigger] lang::writes(r, y, v) ==> x == y
}

proof fn lemma_same_source(r: Reading, x: Seq<u8>, y: Seq<u8>, v: Seq<u8>)
    requires
        prefix_free(r),
        lang::writes(r, x, v),
        lang::writes(r, y, v),
    ensures
        x == y,
    decreases x.len(),
{
    if x.len() > 0 {
        assert(x =~= seq![x[0]] + x.skip(1));
        let i = image::writes_split(r, seq![x[0]], x.skip(1), v);
        image::writes_byte(r, x[0], v.take(i));
        if y.len() > 0 {
            assert(y =~= seq![y[0]] + y.skip(1));
            let j = image::writes_split(r, seq![y[0]], y.skip(1), v);
            image::writes_byte(r, y[0], v.take(j));
            if i <= j {
                assert(v.take(j).take(i) =~= v.take(i));
                assert(starts_with(v.take(j), v.take(i)));
            } else {
                assert(v.take(i).take(j) =~= v.take(j));
                assert(starts_with(v.take(i), v.take(j)));
            }
            assert(v.take(i) == v.take(j));
            assert(v.take(i).len() == v.take(j).len());
            lemma_same_source(r, x.skip(1), y.skip(1), v.skip(i));
        }
    } else if y.len() > 0 {
        assert(y =~= seq![y[0]] + y.skip(1));
        let j = image::writes_split(r, seq![y[0]], y.skip(1), v);
        image::writes_byte(r, y[0], v.take(j));
    } else {
        assert(x =~= y);
    }
}

/// Where no writing of a byte starts another, what is written can be read in one way only.
pub proof fn prefix_free_decodes(r: Reading)
    requires
        prefix_free(r),
    ensures
        decodes_uniquely(r),
{
    assert forall|x: Seq<u8>, y: Seq<u8>, v: Seq<u8>| #[trigger]
        lang::writes(r, x, v) && #[trigger] lang::writes(r, y, v) implies x == y by {
        lemma_same_source(r, x, y, v);
    }
}

/// All escapes of the grammar start with the byte `mark`, which is escaped itself, and none starts
/// another.
pub open spec fn self_delimiting(o: EscapeView, mark: u8) -> bool {
    &&& o.must_escape.contains(mark)
    &&& forall|i: int|
        0 <= i < o.sequences.len() ==> (#[trigger] o.sequences[i]).1.len() > 0
            && o.sequences[i].1[0] == mark
    &&& forall|i: int, j: int|
        0 <= i < o.sequences.len() && 0 <= j < o.sequences.len() && starts_with(
            (#[trigger] o.sequences[j]).1,
            (#[trigger] o.sequences[i]).1,
        ) ==> o.sequences[i] == o.sequences[j]
    &&& o.fallback matches Some(f) ==> {
        &&& f.prefix.len() > 0 && f.prefix[0] == mark
        &&& forall|i: int|
            0 <= i < o.sequences.len() ==> !starts_with(
                (#[trigger] o.sequences[i]).1,
                f.prefix,
            ) && !starts_with(f.prefix, o.sequences[i].1)
    }
}

/// Fallback forms of one length: the two hex digits tell the byte.
proof fn lemma_hex_forms(f: FallbackView, b: u8, v: Seq<u8>, c: u8, w: Seq<u8>)
    requires
        escape::hex_form(f, b, v),
        escape::hex_form(f, c, w),
        starts_with(w, v),
    ensures
        b == c,
        v == w,
{
    let (h1, l1) = choose|high: u8, low: u8|
        #[trigger] escape::is_hex(high, b as int / 16) && #[trigger] escape::is_hex(
            low,
            b as int % 16,
        ) && v == f.prefix + seq![high, low] + f.suffix;
    let (h2, l2) = choose|high: u8, low: u8|
        #[trigger] escape::is_hex(high, c as int / 16) && #[trigger] escape::is_hex(
            low,
            c as int % 16,
        ) && w == f.prefix + seq![high, low] + f.suffix;
    let p = f.prefix.len() as int;
    assert(v.len() == w.len());
    assert(w.take(v.len() as int) =~= w);
    assert(v[p] == h1 && w[p] == h2);
    assert(v[p + 1] == l1 && w[p + 1] == l2);
    assert(b as int / 16 < 16 && c as int / 16 < 16);
    assert(b as int / 16 == c as int / 16);
    assert(b as int % 16 == c as int % 16);
}

/// A fallback form starts with the prefix.
proof fn lemma_hex_prefix(f: FallbackView, b: u8, v: Seq<u8>)
    requires
        escape::hex_form(f, b, v),
    ensures
        v.len() > f.prefix.len(),
        v.take(f.prefix.len() as int) == f.prefix,
        f.prefix.len() > 0 ==> v[0] == f.prefix[0],
{
    let (high, low) = choose|high: u8, low: u8|
        #[trigger] escape::is_hex(high, b as int / 16) && #[trigger] escape::is_hex(
            low,
            b as int % 16,
        ) && v == f.prefix + seq![high, low] + f.suffix;
    assert(v.take(f.prefix.len() as int) =~= f.prefix);
}

/// Neither of a sequence and a fallback form starts the other, if that holds of the prefix.
proof fn lemma_sequence_and_hex(f: FallbackView, v: Seq<u8>, c: u8, w: Seq<u8>)
    requires
        escape::hex_form(f, c, w),
        !starts_with(v, f.prefix),
        !starts_with(f.prefix, v),
    ensures
        !starts_with(w, v),
        !starts_with(v, w),
{
    lemma_hex_prefix(f, c, w);
    let p = f.prefix.len() as int;
    if starts_with(w, v) {
        if v.len() <= p {
            assert(f.prefix.take(v.len() as int) =~= w.take(v.len() as int));
        } else {
            assert(v.take(p) =~= w.take(p));
        }
    }
    if starts_with(v, w) {
        assert(v.take(p) =~= w.take(p));
    }
}

/// A grammar whose escapes share a first byte that is escaped itself, and none of whose escapes
/// starts another, can be read in one way only.
pub proof fn self_delimiting_decodes(o: EscapeView, mark: u8)
    requires
        self_delimiting(o, mark),
    ensures
        prefix_free(escape::reading(o)),
        decodes_uniquely(escape::reading(o)),
{
    let r = escape::reading(o);
    assert forall|b: u8, v: Seq<u8>| #[trigger] r(b, v) implies v.len() > 0 && (
    o.must_escape.contains(b) ==> v[0] == mark) by {
        if o.must_escape.contains(b) {
            if o.sequences.contains((b, v)) {
                assert(o.sequences[o.sequences.index_of((b, v))].1 == v);
            } else {
                lemma_hex_prefix(o.fallback->0, b, v);
            }
        }
    }
    assert forall|b: u8, v: Seq<u8>, c: u8, w: Seq<u8>| #[trigger]
        r(b, v) && #[trigger] r(c, w) && starts_with(w, v) implies b == c && v == w by {
        assert(w.take(v.len() as int)[0] == v[0]);
        assert(w[0] == v[0]);
        if !o.must_escape.contains(b) {
            assert(v[0] == b);
            assert(!o.must_escape.contains(c));
        } else {
            assert(v[0] == mark);
            assert(o.must_escape.contains(c));
            if o.sequences.contains((b, v)) {
                let i = o.sequences.index_of((b, v));
                assert(o.sequences[i] == (b, v));
                if o.sequences.contains((c, w)) {
                    let j = o.sequences.index_of((c, w));
                    assert(o.sequences[j] == (c, w));
                    assert(starts_with(o.sequences[j].1, o.sequences[i].1));
                } else {
                    lemma_sequence_and_hex(o.fallback->0, v, c, w);
                }
            } else if o.sequences.contains((c, w)) {
                let j = o.sequences.index_of((c, w));
                assert(o.sequences[j] == (c, w));
                lemma_sequence_and_hex(o.fallback->0, w, b, v);
            } else {
                lemma_hex_forms(o.fallback->0, b, v, c, w);
            }
        }
    }
    prefix_free_decodes(r);
}

/// A string with no byte that has to be escaped is written as itself, and only so.
pub proof fn plain_bytes_pass(o: EscapeView, u: Seq<u8>, v: Seq<u8>)
    requires
        forall|i: int| 0 <= i < u.len() ==> !o.must_escape.contains(#[trigger] u[i]),
    ensures
        lang::writes(escape::reading(o), u, v) <==> u == v,
    decreases u.len(),
{
    let r = escape::reading(o);
    if u.len() == 0 {
        if v.len() == 0 {
            assert(u =~= v);
        }
    } else {
        let rest = u.skip(1);
        assert(u =~= seq![u[0]] + rest);
        assert forall|i: int| 0 <= i < rest.len() implies !o.must_escape.contains(
            #[trigger] rest[i],
        ) by {
            assert(rest[i] == u[i + 1]);
        }
        if lang::writes(r, u, v) {
            let i = image::writes_split(r, seq![u[0]], rest, v);
            image::writes_byte(r, u[0], v.take(i));
            plain_bytes_pass(o, rest, v.skip(i));
            assert(v =~= u);
        }
        if u == v {
            image::writes_byte(r, u[0], seq![u[0]]);
            plain_bytes_pass(o, rest, rest);
            image::writes_join(r, seq![u[0]], rest, seq![u[0]], rest);
        }
    }
}

/// A string with a byte that has to be escaped, but has neither a sequence nor a fallback form, is
/// not written at all.
pub proof fn formless_bytes_excluded(o: EscapeView, b: u8, u: Seq<u8>, v: Seq<u8>)
    requires
        o.must_escape.contains(b),
        !sorting::has_key(o.sequences, b),
        o.fallback matches Some(f) ==> !escape::covers(f, b),
        u.contains(b),
    ensures
        !lang::writes(escape::reading(o), u, v),
{
    let r = escape::reading(o);
    if lang::writes(r, u, v) {
        let k = u.index_of(b);
        assert(u[k] == b);
        assert(u =~= u.take(k) + u.skip(k));
        let i = image::writes_split(r, u.take(k), u.skip(k), v);
        let w = v.skip(i);
        assert(u.skip(k) =~= seq![b] + u.skip(k + 1));
        let j = image::writes_split(r, seq![b], u.skip(k + 1), w);
        image::writes_byte(r, b, w.take(j));
        if o.sequences.contains((b, w.take(j))) {
            assert(o.sequences[o.sequences.index_of((b, w.take(j)))].0 == b);
        }
    }
}

/// A byte that has to be escaped is written as its sequence and in its fallback form, where it has
/// them, and as nothing else.
pub proof fn all_forms_accepted(o: EscapeView, b: u8, v: Seq<u8>)
    requires
        o.must_escape.contains(b),
    ensures
        lang::writes(escape::reading(o), seq![b], v) <==> o.sequences.contains((b, v)) || (
        o.fallback matches Some(f) && escape::covers(f, b) && escape::hex_form(f, b, v)),
{
    image::writes_byte(escape::reading(o), b, v);
}

/// Where no digit and no point has to be escaped, numerals are written plainly.
pub proof fn numerals_pass(o: EscapeView)
    requires
        forall|b: u8|
            number::is_digit(b) || b == 0x2e ==> !#[trigger] o.must_escape.contains(b),
    ensures
        image::numerals_plain(escape::reading(o)),
{
    let r = escape::reading(o);
    assert forall|c: u8, v: Seq<u8>| number::is_digit(c) || c == 0x2e implies #[trigger] r(c, v)
        == (v == seq![c]) by {
        assert(!o.must_escape.contains(c));
    }
}

proof fn lemma_json_must_escape()
    ensures
        escape::json_must_escape().contains('\\' as u8),
        forall|b: u8|
            number::is_digit(b) || b == 0x2e ==> !#[trigger]
                escape::json_must_escape().contains(b),
{
    let m = escape::json_must_escape();
    assert(m[32] == '\\' as u8);
    assert forall|b: u8| number::is_digit(b) || b == 0x2e implies !#[trigger] m.contains(b) by {
        if m.contains(b) {
            let i = m.index_of(b);
            assert(m[i] == b);
        }
    }
}

/// Escapes of two bytes that start alike are told apart by the second.
proof fn lemma_short_sequences(o: EscapeView)
    requires
        o.must_escape == escape::json_must_escape(),
        o.fallback is None || o.fallback == Some(escape::json_fallback()),
        forall|i: int|
            0 <= i < o.sequences.len() ==> (#[trigger] o.sequences[i]).1.len() == 2
                && o.sequences[i].1[0] == '\\' as u8 && o.sequences[i].1[1] != 'u' as u8,
        forall|i: int, j: int|
            0 <= i < j < o.sequences.len() ==> (#[trigger] o.sequences[i]).1[1] != (
            #[trigger] o.sequences[j]).1[1],
    ensures
        prefix_free(escape::reading(o)),
        decodes_uniquely(escape::reading(o)),
        image::numerals_plain(escape::reading(o)),
{
    lemma_json_must_escape();
    let s = o.sequences;
    assert forall|i: int, j: int|
        0 <= i < s.len() && 0 <= j < s.len() && starts_with(
            (#[trigger] s[j]).1,
            (#[trigger] s[i]).1,
        ) implies s[i] == s[j] by {
        assert(s[j].1.take(2)[1] == s[j].1[1]);
    }
    reveal_strlit("\\u00");
    let p = escape::json_fallback().prefix;
    assert(p.len() == 4 && p[0] == '\\' as u8 && p[1] == 'u' as u8);
    assert forall|i: int| 0 <= i < s.len() implies !starts_with((#[trigger] s[i]).1, p)
        && !starts_with(p, s[i].1) by {
        assert(p.take(2)[1] == p[1]);
    }
    self_delimiting_decodes(o, '\\' as u8);
    numerals_pass(o);
}

/// A string that JSON escaping wrote, with `\u00XX` or without, was written from one string only.
/// Numerals are written plainly.
pub proof fn json_decodes()
    ensures
        prefix_free(escape::reading(escape::json_view())),
        decodes_uniquely(escape::reading(escape::json_view())),
        image::numerals_plain(escape::reading(escape::json_view())),
        prefix_free(escape::reading(EscapeView { fallback: None, ..escape::json_view() })),
        decodes_uniquely(escape::reading(EscapeView { fallback: None, ..escape::json_view() })),
        image::numerals_plain(
            escape::reading(EscapeView { fallback: None, ..escape::json_view() }),
        ),
{
    reveal_strlit("\\b");
    reveal_strlit("\\f");
    reveal_strlit("\\n");
    reveal_strlit("\\r");
    reveal_strlit("\\t");
    reveal_strlit("\\\\");
    reveal_strlit("\\\"");
    let o = escape::json_view();
    assert(o.sequences.len() == 7);
    lemma_short_sequences(o);
    lemma_short_sequences(EscapeView { fallback: None, ..o });
}

/// A string that JSON quoting wrote, whatever escapes are allowed, was written from one string
/// only. Numerals are written plainly.
pub proof fn json_quote_decodes(q: JsonQuoteView)
    ensures
        prefix_free(escape::reading(json_quote::escape_view(q))),
        decodes_uniquely(escape::reading(json_quote::escape_view(q))),
        image::numerals_plain(escape::reading(json_quote::escape_view(q))),
{
    reveal_strlit("\\\\");
    reveal_strlit("\\\"");
    lemma_short_sequences(json_quote::escape_view(q));
}

/// A string that URL encoding wrote was written from one string only. Numerals are written plainly.
pub proof fn url_decodes(o: EscapeView)
    requires
        o.sequences == Seq::<(u8, Seq<u8>)>::empty(),
        o.fallback == Some(escape::url_fallback()),
        forall|b: u8| #[trigger] o.must_escape.contains(b) <==> !escape::unreserved(b),
    ensures
        prefix_free(escape::reading(o)),
        decodes_uniquely(escape::reading(o)),
        image::numerals_plain(escape::reading(o)),
{
    reveal_strlit("%");
    assert(escape::url_fallback().prefix[0] == '%' as u8);
    self_delimiting_decodes(o, '%' as u8);
    numerals_pass(o);
}

/// A string that XML escaping wrote was written from one string only. Numerals are written plainly.
pub proof fn xml_decodes()
    ensures
        prefix_free(escape::reading(escape::xml_view())),
        decodes_uniquely(escape::reading(escape::xml_view())),
        image::numerals_plain(escape::reading(escape::xml_view())),
{
    reveal_strlit("&amp;");
    reveal_strlit("&lt;");
    reveal_strlit("&gt;");
    reveal_strlit("&quot;");
    reveal_strlit("&apos;");
    reveal_strlit("&#x");
    let o = escape::xml_view();
    let s = o.sequences;
    let p = o.fallback->0.prefix;
    assert(o.must_escape[3] == '&' as u8);
    assert(s.len() == 5);
    assert(s[0].1[1] == 'a' as u8 && s[0].1[2] == 'm' as u8);
    assert(s[1].1[1] == 'l' as u8);
    assert(s[2].1[1] == 'g' as u8);
    assert(s[3].1[1] == 'q' as u8);
    assert(s[4].1[1] == 'a' as u8 && s[4].1[2] == 'p' as u8);
    assert(p[1] == '#' as u8 && p.len() == 3);
    assert forall|i: int, j: int|
        0 <= i < s.len() && 0 <= j < s.len() && starts_with(
            (#[trigger] s[j]).1,
            (#[trigger] s[i]).1,
        ) implies s[i] == s[j] by {
        let n = s[i].1.len() as int;
        assert(n >= 4);
        assert(s[j].1.take(n)[1] == s[j].1[1]);
        assert(s[j].1.take(n)[2] == s[j].1[2]);
    }
    assert forall|i: int| 0 <= i < s.len() implies !starts_with((#[trigger] s[i]).1, p)
        && !starts_with(p, s[i].1) by {
        assert(s[i].1.take(3)[1] == s[i].1[1]);
    }
    self_delimiting_decodes(o, '&' as u8);
    assert forall|b: u8| number::is_digit(b) || b == 0x2e implies !#[trigger]
        o.must_escape.contains(b) by {
        if o.must_escape.contains(b) {
            let i = o.must_escape.index_of(b);
            assert(o.must_escape[i] == b);
        }
    }
    numerals_pass(o);
}

} // verus!
