//! Quoting of JSON strings.

use crate::escape;
use crate::escape::{
    json_fallback_format, json_must_escape_bytes, EscapeView, FallbackFormat, StringEscapeOptions,
};
use crate::text;
use crate::text::ascii_bytes;
use vstd::prelude::*;

verus! {

/// Options for JSON string quoting.
///
/// Backslash and double-quote escaping are always enabled regardless of `allowed_escapes`.
#[derive(Debug, PartialEq, Eq, Hash)]
pub struct JsonQuoteOptions {
    /// Which escape forms to allow (each char enables one):
    /// `n`, `r`, `b`, `t`, `f` — single-char control escapes;
    /// `u` — `\u00XX` fallback for any must-escape byte ≤ 0x7F;
    /// `\`, `"` — accepted but have no effect (always enabled).
    pub allowed_escapes: String,
    /// When true, the wrapping `"..."` delimiters are omitted.
    pub raw_mode: bool,
}

/// What a [`JsonQuoteOptions`] holds.
#[verifier::ext_equal]
pub struct JsonQuoteView {
    pub allowed_escapes: Seq<char>,
    pub raw_mode: bool,
}

impl View for JsonQuoteOptions {
    type V = JsonQuoteView;

    open spec fn view(&self) -> JsonQuoteView {
        JsonQuoteView { allowed_escapes: self.allowed_escapes@, raw_mode: self.raw_mode }
    }
}

impl Clone for JsonQuoteOptions {
    fn clone(&self) -> (r: JsonQuoteOptions)
        ensures
            r@ == self@,
    {
        JsonQuoteOptions {
            allowed_escapes: self.allowed_escapes.clone(),
            raw_mode: self.raw_mode,
        }
    }
}

/// Whether the escape that the byte names is allowed.
pub open spec fn allowed(o: JsonQuoteView, b: u8) -> bool {
    vstd::utf8::encode_utf8(o.allowed_escapes).contains(b)
}

/// Whether the byte names a kind of escape.
pub open spec fn is_escape_name(b: u8) -> bool {
    text::ascii("\"\\bfnrtu"@).contains(b)
}

/// The escape sequence of `byte`, where its name is allowed.
pub open spec fn optional_sequence(o: JsonQuoteView, name: u8, byte: u8) -> Seq<(u8, Seq<u8>)> {
    if allowed(o, name) {
        seq![(byte, seq!['\\' as u8, name])]
    } else {
        seq![]
    }
}

/// The escape grammar that the options stand for.
pub open spec fn escape_view(o: JsonQuoteView) -> EscapeView {
    EscapeView {
        sequences: optional_sequence(o, 'b' as u8, 0x08) + optional_sequence(o, 'f' as u8, 0x0C)
            + optional_sequence(o, 'n' as u8, '\n' as u8) + optional_sequence(
            o,
            'r' as u8,
            '\r' as u8,
        ) + optional_sequence(o, 't' as u8, '\t' as u8) + seq![
            ('\\' as u8, text::ascii("\\\\"@)),
            ('"' as u8, text::ascii("\\\""@)),
        ],
        fallback: if allowed(o, 'u' as u8) {
            Some(escape::json_fallback())
        } else {
            None
        },
        must_escape: escape::json_must_escape(),
    }
}

/// Whether the byte names a kind of escape.
pub(crate) fn is_escape_name_byte(b: u8) -> (r: bool)
    ensures
        r == is_escape_name(b),
{
    let names: Vec<u8> = ascii_bytes("\"\\bfnrtu");
    let mut i: usize = 0;
    while i < names.len()
        invariant
            i <= names@.len(),
            names@ == text::ascii("\"\\bfnrtu"@),
            forall|k: int| 0 <= k < i ==> names@[k] != b,
        decreases names@.len() - i,
    {
        if names[i] == b {
            assert(names@[i as int] == b);
            return true;
        }
        i = i + 1;
    }
    false
}

/// The escape grammar of JSON can always be used.
pub proof fn quote_options_usable(o: JsonQuoteView)
    ensures
        escape::usable(escape_view(o)),
{
    let v = escape_view(o);
    let s = v.sequences;
    assert(forall|i: int, j: int|
        0 <= i < j < s.len() ==> (#[trigger] s[i]).0 != (#[trigger] s[j]).0);
    assert forall|c: u8| !#[trigger] escape::conflict(s, c) by {
        if escape::conflict(s, c) {
            let (p, q) = choose|p: Seq<u8>, q: Seq<u8>|
                p != q && #[trigger] s.contains((c, p)) && #[trigger] s.contains((c, q));
            let i = s.index_of((c, p));
            let j = s.index_of((c, q));
            assert(s[i].0 == s[j].0);
        }
    }
    assert forall|c: u8| !#[trigger] escape::unrepresentable(v, c) by {
        if v.must_escape.contains(c) && v.fallback is Some {
            let ranges = v.fallback->0.ranges->0;
            let k = v.must_escape.index_of(c);
            assert(v.must_escape[k] == c);
            assert(c <= 0x7F);
            assert(ranges[0].0 <= c <= ranges[0].1);
            assert(escape::in_ranges(ranges, c));
        }
    }
}

/// With all escapes allowed, the options stand for the escape grammar of JSON; without `u`, for the
/// one without fallback.
pub proof fn quote_options_grammar(raw_mode: bool)
    ensures
        escape_view(JsonQuoteView { allowed_escapes: "nrbtf\\\"u"@, raw_mode })
            == escape::json_view(),
        escape_view(JsonQuoteView { allowed_escapes: "nrbtf\\\""@, raw_mode }) == (EscapeView {
            fallback: None,
            ..escape::json_view()
        }),
{
    reveal_strlit("nrbtf\\\"u");
    reveal_strlit("nrbtf\\\"");
    reveal_strlit("\\b");
    reveal_strlit("\\f");
    reveal_strlit("\\n");
    reveal_strlit("\\r");
    reveal_strlit("\\t");
    let all = JsonQuoteView { allowed_escapes: "nrbtf\\\"u"@, raw_mode };
    let some = JsonQuoteView { allowed_escapes: "nrbtf\\\""@, raw_mode };
    vstd::utf8::is_ascii_chars_encode_utf8(all.allowed_escapes);
    vstd::utf8::is_ascii_chars_encode_utf8(some.allowed_escapes);
    let x = vstd::utf8::encode_utf8(all.allowed_escapes);
    let y = vstd::utf8::encode_utf8(some.allowed_escapes);
    assert(x[0] == 'n' as u8 && x[1] == 'r' as u8 && x[2] == 'b' as u8 && x[3] == 't' as u8 && x[4]
        == 'f' as u8 && x[7] == 'u' as u8);
    assert(y[0] == 'n' as u8 && y[1] == 'r' as u8 && y[2] == 'b' as u8 && y[3] == 't' as u8 && y[4]
        == 'f' as u8);
    assert(!y.contains('u' as u8)) by {
        if y.contains('u' as u8) {
            let i = y.index_of('u' as u8);
            assert(y[i] == some.allowed_escapes[i] as u8);
        }
    }
    assert(escape_view(all).sequences =~~= escape::json_view().sequences);
    assert(escape_view(some).sequences =~~= escape::json_view().sequences);
}

impl JsonQuoteOptions {
    /// No delimiters, and no `\uXXXX`.
    pub fn no_unicode_raw() -> (r: JsonQuoteOptions)
        ensures
            r@ == (JsonQuoteView { allowed_escapes: "nrbtf\\\""@, raw_mode: true }),
    {
        JsonQuoteOptions { allowed_escapes: "nrbtf\\\"".to_string(), raw_mode: true }
    }

    /// No delimiters, and `\uXXXX` allowed.
    pub fn with_unicode_raw() -> (r: JsonQuoteOptions)
        ensures
            r@ == (JsonQuoteView { allowed_escapes: "nrbtf\\\"u"@, raw_mode: true }),
    {
        JsonQuoteOptions { allowed_escapes: "nrbtf\\\"u".to_string(), raw_mode: true }
    }

    /// Delimiters, and `\uXXXX` allowed.
    pub fn regular() -> (r: JsonQuoteOptions)
        ensures
            r@ == (JsonQuoteView { allowed_escapes: "nrbtf\\\"u"@, raw_mode: false }),
    {
        JsonQuoteOptions { allowed_escapes: "nrbtf\\\"u".to_string(), raw_mode: false }
    }

    /// Whether the escape that the byte names is allowed.
    pub fn is_allowed(&self, b: u8) -> (r: bool)
        ensures
            r == allowed(self@, b),
    {
        let bytes: &[u8] = self.allowed_escapes.as_str().as_bytes();
        let mut i: usize = 0;
        while i < bytes.len()
            invariant
                i <= bytes@.len(),
                bytes@ == vstd::utf8::encode_utf8(self@.allowed_escapes),
                forall|k: int| 0 <= k < i ==> bytes@[k] != b,
            decreases bytes@.len() - i,
        {
            if bytes[i] == b {
                assert(bytes@[i as int] == b);
                return true;
            }
            i = i + 1;
        }
        false
    }

    /// Appends the escape sequence of `byte`, where its name is allowed.
    fn push_sequence(&self, v: &mut Vec<(u8, Vec<u8>)>, name: u8, byte: u8)
        ensures
            escape::sequences_view(final(v)@) == escape::sequences_view(old(v)@)
                + optional_sequence(self@, name, byte),
    {
        if self.is_allowed(name) {
            let sequence: Vec<u8> = vec!['\\' as u8, name];
            assert(sequence@ =~= seq!['\\' as u8, name]);
            v.push((byte, sequence));
        }
        assert(escape::sequences_view(v@) =~= escape::sequences_view(old(v)@) + optional_sequence(
            self@,
            name,
            byte,
        ));
    }

    /// Convert to [`StringEscapeOptions`].
    ///
    /// The `\\` and `"` entries in `allowed_escapes` are ignored; backslash and double-quote
    /// escaping are always enabled in the result. Characters that name no escape are ignored too.
    pub fn to_string_escape_options(&self) -> (r: StringEscapeOptions)
        ensures
            r@ == escape_view(self@),
    {
        let mut escape_sequences: Vec<(u8, Vec<u8>)> = Vec::new();
        assert(escape::sequences_view(escape_sequences@) =~= seq![]);
        self.push_sequence(&mut escape_sequences, 'b' as u8, 0x08);
        self.push_sequence(&mut escape_sequences, 'f' as u8, 0x0C);
        self.push_sequence(&mut escape_sequences, 'n' as u8, '\n' as u8);
        self.push_sequence(&mut escape_sequences, 'r' as u8, '\r' as u8);
        self.push_sequence(&mut escape_sequences, 't' as u8, '\t' as u8);
        let ghost named = escape::sequences_view(escape_sequences@);
        escape_sequences.push(('\\' as u8, ascii_bytes("\\\\")));
        escape_sequences.push(('"' as u8, ascii_bytes("\\\"")));
        proof {
            assert(escape::sequences_view(escape_sequences@) =~= named + seq![
                ('\\' as u8, text::ascii("\\\\"@)),
                ('"' as u8, text::ascii("\\\""@)),
            ]);
            assert(escape::sequences_view(escape_sequences@) =~= escape_view(self@).sequences);
        }
        let fallback: Option<FallbackFormat> = if self.is_allowed('u' as u8) {
            Some(json_fallback_format())
        } else {
            None
        };
        StringEscapeOptions { escape_sequences, fallback, must_escape: json_must_escape_bytes() }
    }
}

} // verus!
