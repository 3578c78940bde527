//! How regexes, options and errors are written, letter by letter.

use crate::ast;
use crate::ast::{Ast, Head, RegexAst};
use crate::error::Error;
use crate::escape::{EscapeView, FallbackView, StringEscapeOptions};
use crate::expr;
use crate::expr::{Expr, ExprRef, ExprSet};
use crate::json_quote::{JsonQuoteOptions, JsonQuoteView};
use crate::pp;
use crate::render;
use crate::render::{Event, Piece};
use crate::text;
use vstd::prelude::*;

verus! {

/// A number below ten is one digit; any other is what its tens are, and one digit more. The digits of
/// zero to nine follow each other.
pub proof fn decimal_digits(n: nat)
    ensures
        n < 10 ==> text::decimal(n) == seq![(0x30 + n) as char],
        n >= 10 ==> text::decimal(n) == text::decimal(n / 10) + seq![(0x30 + n % 10) as char],
{
    if n >= 10 {
        assert(text::decimal(n) =~= text::decimal(n / 10) + seq![(0x30 + n % 10) as char]);
    }
}

/// A byte is two hex digits, the high one first, with letters in upper case.
pub proof fn hex_digits(b: u8)
    ensures
        text::hex2(b).len() == 2,
        b / 16 < 10 ==> text::hex2(b)[0] as u32 == 0x30 + b / 16,
        b / 16 >= 10 ==> text::hex2(b)[0] as u32 == 0x41 + (b / 16 - 10),
        b % 16 < 10 ==> text::hex2(b)[1] as u32 == 0x30 + b % 16,
        b % 16 >= 10 ==> text::hex2(b)[1] as u32 == 0x41 + (b % 16 - 10),
{
}

/// The names of regexes.
pub proof fn tags(a: RegexAst)
    ensures
        a is And ==> ast::tag_text(a@.head) == "And"@,
        a is Or ==> ast::tag_text(a@.head) == "Or"@,
        a is Concat ==> ast::tag_text(a@.head) == "Concat"@,
        a is LookAhead ==> ast::tag_text(a@.head) == "LookAhead"@,
        a is Not ==> ast::tag_text(a@.head) == "Not"@,
        a is EmptyString ==> ast::tag_text(a@.head) == "EmptyString"@,
        a is NoMatch ==> ast::tag_text(a@.head) == "NoMatch"@,
        a is Regex ==> ast::tag_text(a@.head) == "Regex"@,
        a is SearchRegex ==> ast::tag_text(a@.head) == "SearchRegex"@,
        a is Literal ==> ast::tag_text(a@.head) == "Literal"@,
        a is ByteLiteral ==> ast::tag_text(a@.head) == "ByteLiteral"@,
        a is ExprRef ==> ast::tag_text(a@.head) == "ExprRef"@,
        a is Repeat ==> ast::tag_text(a@.head) == "Repeat"@,
        a is Byte ==> ast::tag_text(a@.head) == "Byte"@,
        a is ByteSet ==> ast::tag_text(a@.head) == "ByteSet"@,
        a is MultipleOf ==> ast::tag_text(a@.head) == "MultipleOf"@,
        a is JsonQuote ==> ast::tag_text(a@.head) == "JsonQuote"@,
        a is StringEscape ==> ast::tag_text(a@.head) == "StringEscape"@,
{
}

proof fn lemma_texts_of(args: Seq<Ast>, k: nat)
    requires
        k <= args.len(),
    ensures
        render::ast_texts(args, k) == args.skip(k as int).map_values(
            |a: Ast| render::ast_text(a),
        ).flatten(),
    decreases args.len() - k,
{
    let f = |a: Ast| render::ast_text(a);
    let rest = args.skip(k as int).map_values(f);
    if k < args.len() {
        lemma_texts_of(args, k + 1);
        assert(rest.drop_first() =~= args.skip(k as int + 1).map_values(f));
        assert(rest.first() == render::ast_text(args[k as int]));
    } else {
        assert(rest =~= seq![]);
    }
}

proof fn lemma_one_part(a: RegexAst)
    ensures
        render::ast_texts(seq![a@], 0) == render::ast_text(a@),
{
    let args = seq![a@];
    assert(render::ast_texts(args, 1) =~= seq![]);
    assert(render::ast_texts(args, 0) =~= render::ast_text(a@));
}

/// The text of a repetition: its bounds in braces, the lower one first, and the text of its part.
pub proof fn repeat_text(a: RegexAst, min: u32, max: u32)
    ensures
        render::ast_text(RegexAst::Repeat(Box::new(a), min, max)@) == " (Repeat{"@ + text::decimal(
            min as nat,
        ) + ","@ + text::decimal(max as nat) + "} "@ + render::ast_text(a@) + ")"@,
{
    let x = RegexAst::Repeat(Box::new(a), min, max);
    render::text_of_parts(x@);
    lemma_one_part(a);
    reveal_strlit(" (");
    reveal_strlit("Repeat");
    reveal_strlit("{");
    reveal_strlit(" (Repeat{");
    assert(" ("@ + "Repeat"@ + "{"@ =~= " (Repeat{"@);
    assert(render::ast_text(x@) =~= " ("@ + "Repeat"@ + "{"@ + text::decimal(min as nat) + ","@
        + text::decimal(max as nat) + "} "@ + render::ast_text(a@) + ")"@);
}

/// The text of a regex of one part and nothing else: its name and the text of the part.
pub proof fn unary_text(a: RegexAst)
    ensures
        render::ast_text(RegexAst::Not(Box::new(a))@) == " (Not"@ + render::ast_text(a@) + ")"@,
        render::ast_text(RegexAst::LookAhead(Box::new(a))@) == " (LookAhead"@ + render::ast_text(a@)
            + ")"@,
{
    let x = RegexAst::Not(Box::new(a));
    let y = RegexAst::LookAhead(Box::new(a));
    render::text_of_parts(x@);
    render::text_of_parts(y@);
    lemma_one_part(a);
    reveal_strlit(" (");
    reveal_strlit("Not");
    reveal_strlit("LookAhead");
    reveal_strlit(" (Not");
    reveal_strlit(" (LookAhead");
    assert(" ("@ + "Not"@ =~= " (Not"@);
    assert(" ("@ + "LookAhead"@ =~= " (LookAhead"@);
    assert(render::ast_text(x@) =~= " ("@ + "Not"@ + render::ast_text(a@) + ")"@);
    assert(render::ast_text(y@) =~= " ("@ + "LookAhead"@ + render::ast_text(a@) + ")"@);
}

/// The text of a list of regexes: its name and the texts of the parts, in order.
pub proof fn list_texts(v: Vec<RegexAst>)
    ensures
        render::ast_text(RegexAst::And(v)@) == " (And"@ + v@.map_values(
            |a: RegexAst| render::ast_text(a@),
        ).flatten() + ")"@,
        render::ast_text(RegexAst::Or(v)@) == " (Or"@ + v@.map_values(
            |a: RegexAst| render::ast_text(a@),
        ).flatten() + ")"@,
        render::ast_text(RegexAst::Concat(v)@) == " (Concat"@ + v@.map_values(
            |a: RegexAst| render::ast_text(a@),
        ).flatten() + ")"@,
{
    let parts = v@.map_values(|a: RegexAst| render::ast_text(a@));
    let f = |a: Ast| render::ast_text(a);
    let x = RegexAst::And(v)@;
    let y = RegexAst::Or(v)@;
    let z = RegexAst::Concat(v)@;
    render::text_of_parts(x);
    render::text_of_parts(y);
    render::text_of_parts(z);
    lemma_texts_of(x.args, 0);
    lemma_texts_of(y.args, 0);
    lemma_texts_of(z.args, 0);
    assert(x.args.skip(0).map_values(f) =~= parts);
    assert(y.args.skip(0).map_values(f) =~= parts);
    assert(z.args.skip(0).map_values(f) =~= parts);
    reveal_strlit(" (");
    reveal_strlit("And");
    reveal_strlit("Or");
    reveal_strlit("Concat");
    reveal_strlit(" (And");
    reveal_strlit(" (Or");
    reveal_strlit(" (Concat");
    assert(" ("@ + "And"@ =~= " (And"@);
    assert(" ("@ + "Or"@ =~= " (Or"@);
    assert(" ("@ + "Concat"@ =~= " (Concat"@);
    assert(render::ast_text(x) =~= " ("@ + "And"@ + parts.flatten() + ")"@);
    assert(render::ast_text(y) =~= " ("@ + "Or"@ + parts.flatten() + ")"@);
    assert(render::ast_text(z) =~= " ("@ + "Concat"@ + parts.flatten() + ")"@);
}

/// The texts of regexes without parts.
pub proof fn atom_texts(a: RegexAst)
    ensures
        a is EmptyString ==> render::ast_text(a@) == " (EmptyString)"@,
        a is NoMatch ==> render::ast_text(a@) == " (NoMatch)"@,
        a matches RegexAst::Regex(p) ==> render::ast_text(a@) == " (Regex "@ + pp::pattern_text(p@)
            + ")"@,
        a matches RegexAst::SearchRegex(p) ==> render::ast_text(a@) == " (SearchRegex "@
            + pp::pattern_text(p@) + ")"@,
        a matches RegexAst::Literal(t) ==> render::ast_text(a@) == " (Literal "@ + pp::debug_text(
            t@,
        ) + ")"@,
        a matches RegexAst::ByteLiteral(b) ==> render::ast_text(a@) == " (ByteLiteral "@
            + pp::debug_text(pp::lossy_text(b@)) + ")"@,
        a matches RegexAst::Byte(b) ==> render::ast_text(a@) == " (Byte "@ + pp::byte_text(b)
            + ")"@,
        a matches RegexAst::ByteSet(words) ==> words@.len() == 8 ==> render::ast_text(a@)
            == " (ByteSet "@ + pp::byteset_text(crate::byteset::byteset(words@)) + ")"@,
        a matches RegexAst::ByteSet(words) ==> words@.len() != 8 ==> render::ast_text(a@)
            == " (ByteSet invalid byteset len: "@ + text::decimal(words@.len()) + ")"@,
        a matches RegexAst::ExprRef(r) ==> render::ast_text(a@) == " (ExprRef "@ + text::decimal(
            r.id as nat,
        ) + ")"@,
        a matches RegexAst::MultipleOf(d, scale) ==> scale == 0 ==> render::ast_text(a@)
            == " (MultipleOf % "@ + text::decimal(d as nat) + " == 0 )"@,
        a matches RegexAst::MultipleOf(d, scale) ==> scale != 0 ==> render::ast_text(a@)
            == " (MultipleOf % "@ + text::decimal(d as nat) + "x10^-"@ + text::decimal(scale as nat)
            + " == 0)"@,
{
    render::text_of_parts(a@);
    reveal_strlit(" (");
    reveal_strlit(")");
    reveal_strlit(" ");
    match a {
        RegexAst::EmptyString => {
            reveal_strlit("EmptyString");
            reveal_strlit(" (EmptyString)");
            assert(render::ast_text(a@) =~= " (EmptyString)"@);
        },
        RegexAst::NoMatch => {
            reveal_strlit("NoMatch");
            reveal_strlit(" (NoMatch)");
            assert(render::ast_text(a@) =~= " (NoMatch)"@);
        },
        RegexAst::Regex(p) => {
            reveal_strlit("Regex");
            reveal_strlit(" (Regex ");
            assert(render::ast_text(a@) =~= " (Regex "@ + pp::pattern_text(p@) + ")"@);
        },
        RegexAst::SearchRegex(p) => {
            reveal_strlit("SearchRegex");
            reveal_strlit(" (SearchRegex ");
            assert(render::ast_text(a@) =~= " (SearchRegex "@ + pp::pattern_text(p@) + ")"@);
        },
        RegexAst::Literal(t) => {
            reveal_strlit("Literal");
            reveal_strlit(" (Literal ");
            assert(render::ast_text(a@) =~= " (Literal "@ + pp::debug_text(t@) + ")"@);
        },
        RegexAst::ByteLiteral(b) => {
            reveal_strlit("ByteLiteral");
            reveal_strlit(" (ByteLiteral ");
            assert(render::ast_text(a@) =~= " (ByteLiteral "@ + pp::debug_text(pp::lossy_text(b@))
                + ")"@);
        },
        RegexAst::Byte(b) => {
            reveal_strlit("Byte");
            reveal_strlit(" (Byte ");
            assert(render::ast_text(a@) =~= " (Byte "@ + pp::byte_text(b) + ")"@);
        },
        RegexAst::ByteSet(words) => {
            reveal_strlit("ByteSet");
            reveal_strlit(" (ByteSet ");
            reveal_strlit("invalid byteset len: ");
            reveal_strlit(" (ByteSet invalid byteset len: ");
            if words@.len() == 8 {
                assert(render::ast_text(a@) =~= " (ByteSet "@ + pp::byteset_text(
                    crate::byteset::byteset(words@),
                ) + ")"@);
            } else {
                assert(render::ast_text(a@) =~= " (ByteSet invalid byteset len: "@ + text::decimal(
                    words@.len(),
                ) + ")"@);
            }
        },
        RegexAst::ExprRef(r) => {
            reveal_strlit("ExprRef");
            reveal_strlit(" (ExprRef ");
            assert(render::ast_text(a@) =~= " (ExprRef "@ + text::decimal(r.id as nat) + ")"@);
        },
        RegexAst::MultipleOf(d, scale) => {
            reveal_strlit("MultipleOf");
            reveal_strlit(" % ");
            reveal_strlit(" (MultipleOf % ");
            reveal_strlit(" == 0 ");
            reveal_strlit(" == 0 )");
            reveal_strlit(" == 0");
            reveal_strlit(" == 0)");
            if scale == 0 {
                assert(render::ast_text(a@) =~= " (MultipleOf % "@ + text::decimal(d as nat)
                    + " == 0 )"@);
            } else {
                assert(render::ast_text(a@) =~= " (MultipleOf % "@ + text::decimal(d as nat)
                    + "x10^-"@ + text::decimal(scale as nat) + " == 0)"@);
            }
        },
        _ => {},
    }
}

/// The text of an escaped regex: the options as they are shown while debugging, and the part.
pub proof fn escape_text(a: RegexAst, o: StringEscapeOptions)
    ensures
        render::ast_text(RegexAst::StringEscape(Box::new(a), o)@) == " (StringEscape "@
            + pp::escape_text(o@) + render::ast_text(a@) + ")"@,
{
    let x = RegexAst::StringEscape(Box::new(a), o)@;
    render::text_of_parts(x);
    lemma_one_part(a);
    assert(x.args =~= seq![a@]);
    lemma_escape_name();
    lemma_regroup(" ("@ + "StringEscape"@, " "@, pp::escape_text(o@), render::ast_text(a@), ")"@);
}

/// The text of a JSON-quoted regex: the options as they are shown while debugging, and the part.
pub proof fn quote_text(a: RegexAst, q: JsonQuoteOptions)
    ensures
        render::ast_text(RegexAst::JsonQuote(Box::new(a), q)@) == " (JsonQuote "@ + pp::quote_text(
            q@,
        ) + render::ast_text(a@) + ")"@,
{
    let x = RegexAst::JsonQuote(Box::new(a), q)@;
    render::text_of_parts(x);
    lemma_one_part(a);
    assert(x.args =~= seq![a@]);
    lemma_escape_name();
    lemma_regroup(" ("@ + "JsonQuote"@, " "@, pp::quote_text(q@), render::ast_text(a@), ")"@);
}

proof fn lemma_escape_name()
    ensures
        " ("@ + "StringEscape"@ + " "@ == " (StringEscape "@,
        " ("@ + "JsonQuote"@ + " "@ == " (JsonQuote "@,
{
    reveal_strlit(" (");
    reveal_strlit(" ");
    reveal_strlit("StringEscape");
    reveal_strlit("JsonQuote");
    reveal_strlit(" (StringEscape ");
    reveal_strlit(" (JsonQuote ");
    assert(" ("@ + "StringEscape"@ + " "@ =~= " (StringEscape "@);
    assert(" ("@ + "JsonQuote"@ + " "@ =~= " (JsonQuote "@);
}

proof fn lemma_regroup(a: Seq<char>, b: Seq<char>, c: Seq<char>, d: Seq<char>, e: Seq<char>)
    ensures
        a + (b + c) + d + e == a + b + c + d + e,
{
    assert(a + (b + c) =~= a + b + c);
}

/// JSON quoting options as they are shown while debugging.
pub proof fn quote_options_text(o: JsonQuoteView)
    ensures
        o.raw_mode ==> pp::quote_text(o) == "JsonQuoteOptions { allowed_escapes: "@ + pp::debug_text(
            o.allowed_escapes,
        ) + ", raw_mode: true }"@,
        !o.raw_mode ==> pp::quote_text(o) == "JsonQuoteOptions { allowed_escapes: "@
            + pp::debug_text(o.allowed_escapes) + ", raw_mode: false }"@,
{
    reveal_strlit(", raw_mode: ");
    reveal_strlit("true");
    reveal_strlit("false");
    reveal_strlit(" }");
    reveal_strlit(", raw_mode: true }");
    reveal_strlit(", raw_mode: false }");
    if o.raw_mode {
        assert(pp::quote_text(o) =~= "JsonQuoteOptions { allowed_escapes: "@ + pp::debug_text(
            o.allowed_escapes,
        ) + ", raw_mode: true }"@);
    } else {
        assert(pp::quote_text(o) =~= "JsonQuoteOptions { allowed_escapes: "@ + pp::debug_text(
            o.allowed_escapes,
        ) + ", raw_mode: false }"@);
    }
}

/// A list as it is shown while debugging: in square brackets, with a comma and a space between items.
pub proof fn debug_lists(items: Seq<Seq<char>>, x: Seq<char>)
    ensures
        pp::list_text(seq![]) == "[]"@,
        pp::list_text(seq![x]) == "["@ + x + "]"@,
        items.len() > 0 ==> pp::list_text(items.push(x)) == pp::list_text(items).drop_last() + ", "@
            + x + "]"@,
{
    reveal_strlit("[");
    reveal_strlit("]");
    reveal_strlit("[]");
    let none = Seq::<Seq<char>>::empty();
    assert(pp::list_text(none) =~= "[]"@);
    if items.len() > 0 {
        let more = items.push(x);
        assert(more.drop_last() =~= items);
        assert(pp::list_text(items).drop_last() =~= "["@ + pp::joined(items));
        assert(pp::list_text(more) =~= pp::list_text(items).drop_last() + ", "@ + x + "]"@);
    }
}

/// Escape options as they are shown while debugging: lists of numbers, of pairs and of ranges.
pub proof fn escape_options_text(o: EscapeView, f: FallbackView, bytes: Seq<u8>)
    ensures
        pp::numbers_text(bytes) == pp::list_text(
            Seq::new(bytes.len(), |k: int| text::decimal(bytes[k] as nat)),
        ),
        pp::escape_text(o) == "StringEscapeOptions { escape_sequences: "@ + pp::list_text(
            Seq::new(
                o.sequences.len(),
                |k: int|
                    "("@ + text::decimal(o.sequences[k].0 as nat) + ", "@ + pp::numbers_text(
                        o.sequences[k].1,
                    ) + ")"@,
            ),
        ) + ", fallback: "@ + (match o.fallback {
            Some(g) => "Some("@ + pp::fallback_text(g) + ")"@,
            None => "None"@,
        }) + ", must_escape: "@ + pp::numbers_text(o.must_escape) + " }"@,
        pp::fallback_text(f) == "FallbackFormat { prefix: "@ + pp::numbers_text(f.prefix)
            + ", suffix: "@ + pp::numbers_text(f.suffix) + ", valid_byte_ranges: "@ + (match f.ranges {
            Some(ranges) => "Some("@ + pp::list_text(
                Seq::new(
                    ranges.len(),
                    |k: int|
                        "("@ + text::decimal(ranges[k].0 as nat) + ", "@ + text::decimal(
                            ranges[k].1 as nat,
                        ) + ")"@,
                ),
            ) + ")"@,
            None => "None"@,
        }) + " }"@,
{
    assert(bytes.map_values(|b: u8| text::decimal(b as nat)) =~= Seq::new(
        bytes.len(),
        |k: int| text::decimal(bytes[k] as nat),
    ));
    assert(o.sequences.map_values(|s: (u8, Seq<u8>)| pp::sequence_text(s)) =~= Seq::new(
        o.sequences.len(),
        |k: int|
            "("@ + text::decimal(o.sequences[k].0 as nat) + ", "@ + pp::numbers_text(
                o.sequences[k].1,
            ) + ")"@,
    ));
    if let Some(ranges) = f.ranges {
        assert(ranges.map_values(|r: (u8, u8)| pp::range_text(r)) =~= Seq::new(
            ranges.len(),
            |k: int|
                "("@ + text::decimal(ranges[k].0 as nat) + ", "@ + text::decimal(
                    ranges[k].1 as nat,
                ) + ")"@,
        ));
    }
}

/// How a pattern is written: between slashes, and in there character by character. A backslash is kept
/// for the next character, which it stands before, unless that is written with one anyway.
pub proof fn pattern_letters(s: Seq<char>, c: char, escaped: bool)
    ensures
        pp::pattern_text(s) == "/"@ + pp::pattern_rest(s, false) + "/"@,
        pp::pattern_rest(seq![], false) == Seq::<char>::empty(),
        pp::pattern_rest(seq![], true) == "\\\\"@,
        c == '\\' && !escaped ==> pp::pattern_rest(seq![c] + s, escaped) == pp::pattern_rest(
            s,
            true,
        ),
        c == '/' ==> pp::pattern_rest(seq![c] + s, escaped) == "\\/"@ + pp::pattern_rest(s, false),
        c == '\n' ==> pp::pattern_rest(seq![c] + s, escaped) == "\\n"@ + pp::pattern_rest(s, false),
        c == '\r' ==> pp::pattern_rest(seq![c] + s, escaped) == "\\r"@ + pp::pattern_rest(s, false),
        c == '\t' ==> pp::pattern_rest(seq![c] + s, escaped) == "\\t"@ + pp::pattern_rest(s, false),
        (c as u32) < 0x20 && c != '\n' && c != '\r' && c != '\t' ==> pp::pattern_rest(
            seq![c] + s,
            escaped,
        ) == "\\x"@ + text::hex2(c as u8) + pp::pattern_rest(s, false),
        (c as u32) >= 0x20 && c != '/' && escaped ==> pp::pattern_rest(seq![c] + s, escaped)
            == seq!['\\', c] + pp::pattern_rest(s, false),
        (c as u32) >= 0x20 && c != '/' && c != '\\' && !escaped ==> pp::pattern_rest(
            seq![c] + s,
            escaped,
        ) == seq![c] + pp::pattern_rest(s, false),
{
    let t = seq![c] + s;
    assert(t.skip(1) =~= s);
    assert(t[0] == c);
}

/// What errors say.
pub proof fn error_texts(e: Error)
    ensures
        e matches Error::ConflictingEscapeSequences(b) ==> e.text()
            == "conflicting escape_sequences for byte 0x"@ + text::hex2(b),
        e matches Error::InvalidByteRange(lo, hi) ==> e.text()
            == "invalid valid_byte_ranges entry: start 0x"@ + text::hex2(lo) + " > end 0x"@
            + text::hex2(hi),
        e matches Error::UnrepresentableByte(b) ==> e.text() == "fallback cannot represent byte 0x"@
            + text::hex2(b)
            + " (outside valid_byte_ranges); add an explicit escape_sequence for it"@,
        e matches Error::InvalidAllowedEscape(b) ==> e.text()
            == "invalid escape character in allowed_escapes: "@ + seq![b as char],
        e is InvalidRef ==> e.text() == "invalid ref"@,
        e is InvalidMultipleOf ==> e.text() == "invalid multiple of"@,
        e is InvalidByteSetLen ==> e.text() == "invalid byteset len"@,
        e matches Error::Syntax(t) ==> e.text() == t@,
        e is MisplacedAnchor ==> e.text()
            == "anchors are only supported at the start and end of regex"@,
        e is OutOfFuel ==> e.text() == "maximum fuel exhausted"@,
{
    if let Error::InvalidAllowedEscape(b) = e {
        assert(e.text() =~= "invalid escape character in allowed_escapes: "@ + seq![b as char]);
    }
}

/// The steps of writing a regex: its start, the steps of its parts in order, and its end.
pub proof fn steps_of(a: Ast)
    ensures
        render::events(a) == seq![Event::Open(a)] + a.args.map_values(
            |b: Ast| render::events(b),
        ).flatten() + seq![Event::Close],
{
    lemma_steps_of(a.args, 0);
    assert(a.args.skip(0) =~= a.args);
}

proof fn lemma_steps_of(args: Seq<Ast>, k: nat)
    requires
        k <= args.len(),
    ensures
        render::events_from(args, k) == args.skip(k as int).map_values(
            |b: Ast| render::events(b),
        ).flatten(),
    decreases args.len() - k,
{
    let f = |b: Ast| render::events(b);
    let rest = args.skip(k as int).map_values(f);
    if k < args.len() {
        lemma_steps_of(args, k + 1);
        assert(rest.drop_first() =~= args.skip(k as int + 1).map_values(f));
        assert(rest.first() == render::events(args[k as int]));
    } else {
        assert(rest =~= seq![]);
    }
}

/// What the first `k` steps write.
spec fn first_text(steps: Seq<Event>, k: int) -> Seq<char> {
    render::full_text(steps.take(k))
}

proof fn lemma_first_text(steps: Seq<Event>, k: int)
    requires
        0 < k <= steps.len(),
    ensures
        first_text(steps, k) == render::event_text(steps[0]) + first_text(steps.skip(1), k - 1),
{
    assert(steps.take(k).skip(1) =~= steps.skip(1).take(k - 1));
    assert(steps.take(k)[0] == steps[0]);
}

proof fn lemma_cut(dst: Seq<char>, steps: Seq<Event>, max_len: usize) -> (k: int)
    ensures
        0 <= k <= steps.len(),
        forall|j: int|
            0 <= j < k ==> vstd::utf8::encode_utf8(dst + #[trigger] first_text(steps, j)).len()
                < max_len,
        k == steps.len() ==> render::render(None, dst, steps, max_len) == dst + first_text(
            steps,
            k,
        ),
        k < steps.len() ==> vstd::utf8::encode_utf8(dst + first_text(steps, k)).len() >= max_len
            && render::render(None, dst, steps, max_len) == dst + first_text(steps, k) + "..."@,
    decreases steps.len(),
{
    assert(steps.take(0) =~= seq![]);
    assert(dst + first_text(steps, 0) =~= dst);
    if steps.len() == 0 || render::size(dst) >= max_len {
        0
    } else {
        let first = render::event_text(steps[0]);
        let rest = steps.skip(1);
        if let Event::Open(a) = steps[0] {
            assert(dst + " ("@ + ast::tag_text(a.head) + render::detail_text(None, a.head, 0)
                =~= dst + first);
        }
        let k = lemma_cut(dst + first, rest, max_len);
        lemma_first_text(steps, k + 1);
        assert((dst + first) + first_text(rest, k) =~= dst + first_text(steps, k + 1));
        assert forall|j: int| 0 <= j < k + 1 implies vstd::utf8::encode_utf8(
            dst + #[trigger] first_text(steps, j),
        ).len() < max_len by {
            if j > 0 {
                lemma_first_text(steps, j);
                assert((dst + first) + first_text(rest, j - 1) =~= dst + first_text(steps, j));
            }
        }
        k + 1
    }
}

/// Where the text of a regex is cut: before the first step at which the whole text takes `max_len`
/// bytes or more, with three points in place of the rest. Where there is no such step, nothing is cut.
pub proof fn cut_at_first(dst: Seq<char>, a: Ast, max_len: usize) -> (k: int)
    ensures
        0 <= k <= render::events(a).len(),
        forall|j: int|
            0 <= j < k ==> vstd::utf8::encode_utf8(
                dst + render::full_text(#[trigger] render::events(a).take(j)),
            ).len() < max_len,
        k == render::events(a).len() ==> render::render(None, dst, render::events(a), max_len)
            == dst + render::ast_text(a),
        k < render::events(a).len() ==> vstd::utf8::encode_utf8(
            dst + render::full_text(render::events(a).take(k)),
        ).len() >= max_len && render::render(None, dst, render::events(a), max_len) == dst
            + render::full_text(render::events(a).take(k)) + "..."@,
{
    let steps = render::events(a);
    let k = lemma_cut(dst, steps, max_len);
    assert(steps.take(steps.len() as int) =~= steps);
    assert forall|j: int| 0 <= j < k implies vstd::utf8::encode_utf8(
        dst + render::full_text(#[trigger] steps.take(j)),
    ).len() < max_len by {
        assert(first_text(steps, j) == render::full_text(steps.take(j)));
    }
    k
}

/// What a step writes: a bracket and the name with its details, or a closing bracket. The texts of
/// steps follow each other.
pub proof fn step_texts(a: Ast, step: Event, steps: Seq<Event>)
    ensures
        render::full_text(seq![]) == Seq::<char>::empty(),
        render::full_text(seq![step] + steps) == render::event_text(step) + render::full_text(steps),
        render::event_text(Event::Close) == ")"@,
        render::event_text(Event::Open(a)) == " ("@ + ast::tag_text(a.head) + render::detail_text(
            None,
            a.head,
            0,
        ),
{
    assert((seq![step] + steps).skip(1) =~= steps);
    let none = Seq::<Event>::empty();
    assert(render::full_text(none) =~= seq![]);
}

/// A regex without references is written the same with a set of expressions as without one.
pub proof fn set_does_not_matter(
    set: ExprSet,
    dst: Seq<char>,
    steps: Seq<Event>,
    max_len: usize,
)
    requires
        forall|k: int|
            0 <= k < steps.len() ==> (#[trigger] steps[k] matches Event::Open(a) ==> !(
            a.head is ExprRef)),
    ensures
        render::render(Some(set), dst, steps, max_len) == render::render(None, dst, steps, max_len),
    decreases steps.len(),
{
    if steps.len() > 0 && render::size(dst) < max_len {
        let rest = steps.skip(1);
        assert forall|k: int|
            0 <= k < rest.len() implies (#[trigger] rest[k] matches Event::Open(a) ==> !(
        a.head is ExprRef)) by {
            assert(rest[k] == steps[k + 1]);
        }
        let next = match steps[0] {
            Event::Close => dst + ")"@,
            Event::Open(a) => {
                let named = dst + " ("@ + ast::tag_text(a.head);
                named + render::detail_text(None, a.head, 0)
            },
        };
        if let Event::Open(a) = steps[0] {
            let named = dst + " ("@ + ast::tag_text(a.head);
            assert(render::detail_text(Some(set), a.head, render::room_after(named, max_len))
                == render::detail_text(None, a.head, 0));
            assert(render::detail_text(None, a.head, render::room_after(named, max_len))
                == render::detail_text(None, a.head, 0));
        }
        set_does_not_matter(set, next, rest, max_len);
    }
}

/// A reference is written, where there is a set, with the text of its expression, cut at what is left
/// of the length after the name.
pub proof fn reference_text(set: ExprSet, dst: Seq<char>, r: ExprRef, max_len: usize)
    requires
        vstd::utf8::encode_utf8(dst).len() < max_len,
    ensures
        ({
            let named = dst + " (ExprRef"@;
            let used = vstd::utf8::encode_utf8(named).len();
            let room = if used <= max_len {
                (max_len - used) as usize
            } else {
                0usize
            };
            let written = named + " "@ + render::expr_text(set, r, room);
            let steps = render::events(RegexAst::ExprRef(r)@);
            if vstd::utf8::encode_utf8(written).len() < max_len {
                render::render(Some(set), dst, steps, max_len) == written + ")"@
            } else {
                render::render(Some(set), dst, steps, max_len) == written + "..."@
            }
        }),
{
    let a = RegexAst::ExprRef(r)@;
    let steps = render::events(a);
    reveal_strlit(" (");
    reveal_strlit("ExprRef");
    reveal_strlit(" (ExprRef");
    let named = dst + " (ExprRef"@;
    assert(dst + " ("@ + "ExprRef"@ =~= named);
    let room = render::room_after(named, max_len);
    let written = named + " "@ + render::expr_text(set, r, room);
    assert(named + (" "@ + render::expr_text(set, r, room)) =~= written);
    assert(a.args.len() == 0);
    assert(render::events_from(a.args, 0) =~= seq![]);
    assert(steps =~= seq![Event::Open(a), Event::Close]);
    assert(steps.skip(1) =~= seq![Event::Close]);
    assert(steps.skip(1).skip(1) =~= seq![]);
    assert(render::render(Some(set), dst, steps, max_len) == render::render(
        Some(set),
        written,
        steps.skip(1),
        max_len,
    ));
    if render::size(written) < max_len {
        assert(render::render(Some(set), written, steps.skip(1), max_len) == render::render(
            Some(set),
            written + ")"@,
            steps.skip(1).skip(1),
            max_len,
        ));
    }
}

/// How a regex is written, step by step: three points where the text takes `max_len` bytes or more, and
/// else what the step writes. Only a reference is written otherwise where there is a set.
pub proof fn writing_steps(
    set: Option<ExprSet>,
    dst: Seq<char>,
    step: Event,
    steps: Seq<Event>,
    max_len: usize,
)
    ensures
        render::render(set, dst, seq![], max_len) == dst,
        vstd::utf8::encode_utf8(dst).len() >= max_len ==> render::render(
            set,
            dst,
            seq![step] + steps,
            max_len,
        ) == dst + "..."@,
        vstd::utf8::encode_utf8(dst).len() < max_len && !(step matches Event::Open(a) && a.head is ExprRef
            && set is Some) ==> render::render(set, dst, seq![step] + steps, max_len)
            == render::render(set, dst + render::event_text(step), steps, max_len),
        vstd::utf8::encode_utf8(dst).len() < max_len ==> (step matches Event::Open(a) ==> (
        a.head matches Head::ExprRef(r) ==> (set matches Some(x) ==> ({
            let named = dst + " (ExprRef"@;
            let used = vstd::utf8::encode_utf8(named).len();
            let room = if used <= max_len {
                (max_len - used) as usize
            } else {
                0usize
            };
            render::render(set, dst, seq![step] + steps, max_len) == render::render(
                set,
                named + " "@ + render::expr_text(x, r, room),
                steps,
                max_len,
            )
        })))),
{
    let all = seq![step] + steps;
    assert(all.skip(1) =~= steps);
    assert(all[0] == step);
    if let Event::Open(a) = step {
        let named = dst + " ("@ + ast::tag_text(a.head);
        let room = render::room_after(named, max_len);
        if a.head is ExprRef && set is Some {
            let r = a.head->ExprRef_0;
            let x = set->0;
            reveal_strlit(" (");
            reveal_strlit("ExprRef");
            reveal_strlit(" (ExprRef");
            assert(named =~= dst + " (ExprRef"@);
            assert(named + (" "@ + render::expr_text(x, r, room)) =~= named + " "@
                + render::expr_text(x, r, room));
        } else {
            assert(render::detail_text(set, a.head, room) == render::detail_text(None, a.head, 0));
            assert(named + render::detail_text(None, a.head, 0) =~= dst + render::event_text(step));
        }
    }
}

/// A byte is written as itself where it is visible and no hyphen, closing bracket or backslash, and
/// else with two hex digits. The texts of bytes follow each other.
pub proof fn byte_letters(b: u8, bytes: Seq<u8>)
    ensures
        0x21 <= b <= 0x7E && b != 0x2D && b != 0x5D && b != 0x5C ==> pp::byte_text(b)
            == seq![b as char],
        b < 0x21 || b > 0x7E || b == 0x2D || b == 0x5D || b == 0x5C ==> pp::byte_text(b)
            == "\\x"@ + text::hex2(b),
        pp::bytes_text(seq![]) == Seq::<char>::empty(),
        pp::bytes_text(bytes.push(b)) == pp::bytes_text(bytes) + pp::byte_text(b),
{
    let more = bytes.push(b);
    assert(more.drop_last() =~= bytes);
    assert(more.last() == b);
    let none = Seq::<u8>::empty();
    assert(pp::bytes_text(none) =~= seq![]);
}

/// The run holds each byte from its first to its last, and neither of its neighbours is in the set.
spec fn is_run(set: Set<u8>, r: (u8, u8)) -> bool {
    &&& r.0 <= r.1
    &&& forall|b: u8| r.0 <= b <= r.1 ==> #[trigger] set.contains(b)
    &&& r.1 < 255 ==> !set.contains((r.1 + 1) as u8)
}

/// How a run is written: its first byte, and, where that is another one, a hyphen and its last.
pub open spec fn run_text(r: (u8, u8)) -> Seq<char> {
    if r.0 == r.1 {
        pp::byte_text(r.0)
    } else {
        pp::byte_text(r.0) + "-"@ + pp::byte_text(r.1)
    }
}

proof fn lemma_run_ends(set: Set<u8>, b: u8)
    requires
        set.contains(b),
    ensures
        is_run(set, (b, pp::run_end(set, b))),
    decreases 255 - b,
{
    if b < 255 && set.contains((b + 1) as u8) {
        lemma_run_ends(set, (b + 1) as u8);
    }
}

proof fn lemma_runs_of(set: Set<u8>, n: int) -> (runs: Seq<(u8, u8)>)
    requires
        0 <= n <= 256,
    ensures
        pp::runs_text(set, n) == runs.map_values(|r: (u8, u8)| run_text(r)).flatten(),
        forall|k: int| 0 <= k < runs.len() ==> is_run(set, #[trigger] runs[k]) && n <= runs[k].0,
        forall|j: int, k: int|
            0 <= j < k < runs.len() ==> (#[trigger] runs[j]).1 + 1 < (#[trigger] runs[k]).0,
        forall|b: u8| #[trigger]
            set.contains(b) && n <= b ==> exists|k: int|
                0 <= k < runs.len() && (#[trigger] runs[k]).0 <= b <= runs[k].1,
    decreases 256 - n,
{
    let f = |r: (u8, u8)| run_text(r);
    if n > 255 {
        let none = Seq::<(u8, u8)>::empty();
        assert(none.map_values(f) =~= seq![]);
        none
    } else if !set.contains(n as u8) {
        lemma_runs_of(set, n + 1)
    } else {
        lemma_run_ends(set, n as u8);
        let end = pp::run_end(set, n as u8);
        let rest = lemma_runs_of(set, end + 1);
        let first = (n as u8, end);
        let runs = seq![first] + rest;
        assert(runs.map_values(f).drop_first() =~= rest.map_values(f));
        assert(runs.map_values(f).first() == run_text(first));
        assert forall|k: int| 0 <= k < runs.len() implies is_run(set, #[trigger] runs[k]) && n
            <= runs[k].0 by {
            if k > 0 {
                assert(runs[k] == rest[k - 1]);
            }
        }
        assert forall|j: int, k: int| 0 <= j < k < runs.len() implies (#[trigger] runs[j]).1 + 1
            < (#[trigger] runs[k]).0 by {
            assert(runs[k] == rest[k - 1]);
            if j > 0 {
                assert(runs[j] == rest[j - 1]);
            } else {
                assert(set.contains(rest[k - 1].0));
            }
        }
        assert forall|b: u8| #[trigger] set.contains(b) && n <= b implies exists|k: int|
            0 <= k < runs.len() && (#[trigger] runs[k]).0 <= b <= runs[k].1 by {
            if b <= end {
                assert(runs[0] == first);
            } else {
                let k = choose|k: int|
                    0 <= k < rest.len() && (#[trigger] rest[k]).0 <= b <= rest[k].1;
                assert(runs[k + 1] == rest[k]);
            }
        }
        runs
    }
}

/// A set of bytes is written, in square brackets, as its runs: they hold the bytes of the set and no
/// others, there is a gap between each two, and they stand in order.
pub proof fn byteset_letters(set: Set<u8>) -> (runs: Seq<(u8, u8)>)
    ensures
        pp::byteset_text(set) == "["@ + runs.map_values(|r: (u8, u8)| run_text(r)).flatten() + "]"@,
        forall|k: int| 0 <= k < runs.len() ==> (#[trigger] runs[k]).0 <= runs[k].1,
        forall|j: int, k: int|
            0 <= j < k < runs.len() ==> (#[trigger] runs[j]).1 + 1 < (#[trigger] runs[k]).0,
        forall|b: u8| #[trigger]
            set.contains(b) <==> exists|k: int|
                0 <= k < runs.len() && (#[trigger] runs[k]).0 <= b <= runs[k].1,
{
    let runs = lemma_runs_of(set, 0);
    assert forall|b: u8|
        exists|k: int| 0 <= k < runs.len() && (#[trigger] runs[k]).0 <= b <= runs[k].1 implies
        #[trigger] set.contains(b) by {
        let k = choose|k: int| 0 <= k < runs.len() && (#[trigger] runs[k]).0 <= b <= runs[k].1;
        assert(is_run(set, runs[k]));
    }
    assert forall|k: int| 0 <= k < runs.len() implies (#[trigger] runs[k]).0 <= runs[k].1 by {
        assert(is_run(set, runs[k]));
    }
    runs
}

/// How a run is written.
pub proof fn run_letters(lo: u8, hi: u8)
    ensures
        run_text((lo, lo)) == pp::byte_text(lo),
        lo != hi ==> run_text((lo, hi)) == pp::byte_text(lo) + "-"@ + pp::byte_text(hi),
{
}

/// What stands at the start of the text of an expression: its name and what it holds besides parts.
pub proof fn expression_names(e: Expr)
    ensures
        e is EmptyString ==> render::expr_head_text(e) == "EmptyString"@,
        e is NoMatch ==> render::expr_head_text(e) == "NoMatch"@,
        e is Not ==> render::expr_head_text(e) == "Not"@,
        e is Concat ==> render::expr_head_text(e) == "Concat"@,
        e is Or ==> render::expr_head_text(e) == "Or"@,
        e is And ==> render::expr_head_text(e) == "And"@,
        e matches Expr::Byte(b) ==> render::expr_head_text(e) == "Byte "@ + pp::byte_text(b),
        e matches Expr::ByteSet(words) ==> render::expr_head_text(e) == "ByteSet "@
            + pp::byteset_text(crate::byteset::byteset(words@)),
        e matches Expr::ByteConcat(bytes, a) ==> render::expr_head_text(e) == "ByteConcat "@
            + pp::bytes_text(bytes@),
        e matches Expr::Lookahead(a, n) ==> render::expr_head_text(e) == "Lookahead "@
            + text::decimal(n as nat),
        e matches Expr::Repeat(a, min, max) ==> render::expr_head_text(e) == "Repeat{"@
            + text::decimal(min as nat) + ","@ + text::decimal(max as nat) + "}"@,
{
}

/// The parts of an expression, in order.
pub proof fn expression_parts(e: Expr)
    ensures
        e is EmptyString || e is NoMatch || e is Byte || e is ByteSet ==> expr::args(e).len() == 0,
        e matches Expr::ByteConcat(bytes, a) ==> expr::args(e) == seq![a],
        e matches Expr::Lookahead(a, n) ==> expr::args(e) == seq![a],
        e matches Expr::Not(a) ==> expr::args(e) == seq![a],
        e matches Expr::Repeat(a, min, max) ==> expr::args(e) == seq![a],
        e matches Expr::Concat(a, b) ==> expr::args(e) == seq![a, b],
        e matches Expr::Or(v) ==> expr::args(e) == v@,
        e matches Expr::And(v) ==> expr::args(e) == v@,
        e is RemainderIs ==> expr::args(e) == e->forms@,
{
}

/// How an expression is written, step by step: a bracket and what stands at its start, or a closing
/// bracket, and three points where the text takes `max_len` bytes or more.
pub proof fn expression_steps(
    set: ExprSet,
    dst: Seq<char>,
    e: ExprRef,
    steps: Seq<Piece>,
    max_len: usize,
)
    requires
        set.valid(e),
    ensures
        render::expr_text(set, e, max_len) == render::render_pieces(
            set,
            seq![],
            render::expr_pieces(set, e),
            max_len,
        ),
        render::render_pieces(set, dst, seq![], max_len) == dst,
        vstd::utf8::encode_utf8(dst).len() >= max_len && steps.len() > 0 ==> render::render_pieces(
            set,
            dst,
            steps,
            max_len,
        ) == dst + "..."@,
        vstd::utf8::encode_utf8(dst).len() < max_len ==> render::render_pieces(
            set,
            dst,
            seq![Piece::Close] + steps,
            max_len,
        ) == render::render_pieces(set, dst + ")"@, steps, max_len),
        vstd::utf8::encode_utf8(dst).len() < max_len ==> render::render_pieces(
            set,
            dst,
            seq![Piece::Open(e)] + steps,
            max_len,
        ) == render::render_pieces(
            set,
            dst + " ("@ + render::expr_head_text(set.node(e)),
            steps,
            max_len,
        ),
{
    let close = seq![Piece::Close] + steps;
    let open = seq![Piece::Open(e)] + steps;
    assert(close.skip(1) =~= steps && open.skip(1) =~= steps);
    assert(close[0] == Piece::Close && open[0] == Piece::Open(e));
    let head = render::expr_head_text(set.node(e));
    assert(dst + (" ("@ + head) =~= dst + " ("@ + head);
}

} // verus!
