//! Texts of bytes, patterns and options.

use crate::byteset;
use crate::byteset::byteset_contains;
use crate::escape::{EscapeView, FallbackFormat, FallbackView, StringEscapeOptions};
use crate::json_quote::{JsonQuoteOptions, JsonQuoteView};
use crate::text;
use crate::text::{push_decimal, push_hex2};
use vstd::prelude::*;

verus! {

/// How `Debug` of `str` writes a text: in double quotes, with escapes.
pub uninterp spec fn debug_text(s: Seq<char>) -> Seq<char>;

/// `Debug` of `str`. The text is that of [`debug_text`].
#[verifier::external_body]
pub(crate) fn debug_string(s: &str) -> (r: String)
    ensures
        r@ == debug_text(s@),
{
    format!("{:?}", s)
}

/// The text that `String::from_utf8_lossy` makes of bytes.
pub uninterp spec fn lossy_text(bytes: Seq<u8>) -> Seq<char>;

/// `String::from_utf8_lossy`. The text is that of [`lossy_text`]; of valid UTF-8 it is the text
/// that the bytes encode.
#[verifier::external_body]
pub(crate) fn lossy_string(bytes: &[u8]) -> (r: String)
    ensures
        r@ == lossy_text(bytes@),
        vstd::utf8::valid_utf8(bytes@) ==> vstd::utf8::encode_utf8(r@) == bytes@,
{
    String::from_utf8_lossy(bytes).into_owned()
}

/// The byte is a visible ASCII character that means nothing else in the text of a set of bytes.
pub open spec fn stands_for_itself(b: u8) -> bool {
    0x21 <= b <= 0x7E && b != '-' as u8 && b != ']' as u8 && b != '\\' as u8
}

/// The text of a byte: itself, or else its hex digits.
pub open spec fn byte_text(b: u8) -> Seq<char> {
    if stands_for_itself(b) {
        seq![b as char]
    } else {
        "\\x"@ + text::hex2(b)
    }
}

/// Appends the text of a byte.
fn push_byte(dst: &mut String, b: u8)
    ensures
        final(dst)@ == old(dst)@ + byte_text(b),
{
    if 0x21 <= b && b <= 0x7E && b != '-' as u8 && b != ']' as u8 && b != '\\' as u8 {
        dst.push(b as char);
    } else {
        dst.push_str("\\x");
        push_hex2(dst, b);
    }
    assert(dst@ =~= old(dst)@ + byte_text(b));
}

/// The text of a byte.
pub fn byte_to_string(b: u8) -> (r: String)
    ensures
        r@ == byte_text(b),
{
    let mut r: String = String::new();
    push_byte(&mut r, b);
    assert(r@ =~= byte_text(b));
    r
}

/// The texts of bytes, one after another.
pub open spec fn bytes_text(bytes: Seq<u8>) -> Seq<char>
    decreases bytes.len(),
{
    if bytes.len() == 0 {
        seq![]
    } else {
        bytes_text(bytes.drop_last()) + byte_text(bytes.last())
    }
}

/// Appends the texts of bytes.
pub(crate) fn push_bytes(dst: &mut String, bytes: &[u8])
    ensures
        final(dst)@ == old(dst)@ + bytes_text(bytes@),
{
    let mut i: usize = 0;
    assert(bytes@.take(0) =~= seq![]);
    while i < bytes.len()
        invariant
            i <= bytes@.len(),
            dst@ == old(dst)@ + bytes_text(bytes@.take(i as int)),
        decreases bytes@.len() - i,
    {
        push_byte(dst, bytes[i]);
        proof {
            let t = bytes@.take(i + 1);
            assert(t.drop_last() =~= bytes@.take(i as int));
            assert(dst@ =~= old(dst)@ + bytes_text(t));
        }
        i = i + 1;
    }
    assert(bytes@.take(i as int) =~= bytes@);
}

/// The last byte of the run of the set that starts at `b`.
pub open spec fn run_end(set: Set<u8>, b: u8) -> u8
    decreases 255 - b,
{
    if b < 255 && set.contains((b + 1) as u8) {
        run_end(set, (b + 1) as u8)
    } else {
        b
    }
}

proof fn lemma_run_end(set: Set<u8>, b: u8)
    ensures
        b <= run_end(set, b),
    decreases 255 - b,
{
    if b < 255 && set.contains((b + 1) as u8) {
        lemma_run_end(set, (b + 1) as u8);
    }
}

/// The runs of the set from `n` on: the first and last byte of each.
pub open spec fn runs_text(set: Set<u8>, n: int) -> Seq<char>
    decreases 256 - n,
    via runs_text_decreases
{
    if n < 0 || n > 255 {
        seq![]
    } else if !set.contains(n as u8) {
        runs_text(set, n + 1)
    } else {
        let end = run_end(set, n as u8);
        let run = if end == n {
            byte_text(n as u8)
        } else {
            byte_text(n as u8) + "-"@ + byte_text(end)
        };
        run + runs_text(set, end + 1)
    }
}

#[via_fn]
proof fn runs_text_decreases(set: Set<u8>, n: int) {
    if 0 <= n <= 255 {
        lemma_run_end(set, n as u8);
    }
}

/// The text of a set of bytes: its runs, in square brackets.
pub open spec fn byteset_text(set: Set<u8>) -> Seq<char> {
    "["@ + runs_text(set, 0) + "]"@
}

/// The text of a set of bytes.
pub fn byteset_to_string(words: &[u32]) -> (r: String)
    requires
        words@.len() == byteset::BYTESET_WORDS,
    ensures
        r@ == byteset_text(byteset::byteset(words@)),
{
    let ghost set = byteset::byteset(words@);
    let mut r: String = String::new();
    r.push_str("[");
    let mut n: u16 = 0;
    proof {
        assert(r@ + runs_text(set, 0) =~= "["@ + runs_text(set, 0));
    }
    while n < 256
        invariant
            n <= 256,
            words@.len() == byteset::BYTESET_WORDS,
            set == byteset::byteset(words@),
            r@ + runs_text(set, n as int) == "["@ + runs_text(set, 0),
        decreases 256 - n,
    {
        let b: u8 = n as u8;
        if byteset_contains(words, b) {
            let mut end: u8 = b;
            while end < 255 && byteset_contains(words, end + 1)
                invariant
                    b <= end,
                    words@.len() == byteset::BYTESET_WORDS,
                    set == byteset::byteset(words@),
                    run_end(set, b) == run_end(set, end),
                decreases 255 - end,
            {
                end = end + 1;
            }
            let ghost before = r@;
            push_byte(&mut r, b);
            if end != b {
                r.push_str("-");
                push_byte(&mut r, end);
            }
            proof {
                assert(end == run_end(set, b));
                assert(r@ + runs_text(set, end + 1) =~= before + runs_text(set, n as int));
            }
            n = end as u16 + 1;
        } else {
            n = n + 1;
        }
    }
    let ghost body = r@;
    r.push_str("]");
    proof {
        assert(body + runs_text(set, 256) =~= body);
        assert(r@ =~= byteset_text(set));
    }
    r
}

/// What is written of a character of a pattern.
pub open spec fn pattern_char_text(c: char, escaped: bool) -> Seq<char> {
    if c == '/' {
        "\\/"@
    } else if c == '\n' {
        "\\n"@
    } else if c == '\r' {
        "\\r"@
    } else if c == '\t' {
        "\\t"@
    } else if (c as u32) < 0x20 {
        "\\x"@ + text::hex2(c as u8)
    } else if escaped {
        seq!['\\', c]
    } else {
        seq![c]
    }
}

/// What is written of a pattern after `escaped`, which says whether a backslash was just read.
pub open spec fn pattern_rest(s: Seq<char>, escaped: bool) -> Seq<char>
    decreases s.len(),
{
    if s.len() == 0 {
        if escaped {
            "\\\\"@
        } else {
            seq![]
        }
    } else if s[0] == '\\' && !escaped {
        pattern_rest(s.skip(1), true)
    } else {
        pattern_char_text(s[0], escaped) + pattern_rest(s.skip(1), false)
    }
}

/// A pattern between slashes, on one line.
pub open spec fn pattern_text(s: Seq<char>) -> Seq<char> {
    "/"@ + pattern_rest(s, false) + "/"@
}

/// Appends what is written of a character of a pattern.
fn push_pattern_char(dst: &mut String, c: char, escaped: bool)
    ensures
        final(dst)@ == old(dst)@ + pattern_char_text(c, escaped),
{
    if c == '/' {
        dst.push_str("\\/");
    } else if c == '\n' {
        dst.push_str("\\n");
    } else if c == '\r' {
        dst.push_str("\\r");
    } else if c == '\t' {
        dst.push_str("\\t");
    } else if (c as u32) < 0x20 {
        dst.push_str("\\x");
        push_hex2(dst, c as u8);
    } else {
        if escaped {
            dst.push('\\');
        }
        dst.push(c);
    }
    assert(dst@ =~= old(dst)@ + pattern_char_text(c, escaped));
}

/// Appends a pattern, between slashes and on one line.
pub(crate) fn write_regex(dst: &mut String, regex: &str)
    ensures
        final(dst)@ == old(dst)@ + pattern_text(regex@),
{
    dst.push_str("/");
    let n: usize = regex.unicode_len();
    let mut escaped: bool = false;
    let mut i: usize = 0;
    proof {
        assert(regex@.skip(0) =~= regex@);
    }
    while i < n
        invariant
            i <= n,
            n == regex@.len(),
            dst@ + pattern_rest(regex@.skip(i as int), escaped) == old(dst)@ + "/"@ + pattern_rest(
                regex@,
                false,
            ),
        decreases n - i,
    {
        let c: char = regex.get_char(i);
        let ghost rest = regex@.skip(i as int);
        proof {
            assert(rest[0] == c);
            assert(rest.skip(1) =~= regex@.skip(i + 1));
        }
        if c == '\\' && !escaped {
            escaped = true;
        } else {
            let ghost before = dst@;
            push_pattern_char(dst, c, escaped);
            proof {
                assert(dst@ + pattern_rest(rest.skip(1), false) =~= before + pattern_rest(
                    rest,
                    escaped,
                ));
            }
            escaped = false;
        }
        i = i + 1;
    }
    let ghost body = dst@;
    if escaped {
        dst.push_str("\\\\");
    }
    proof {
        assert(regex@.skip(n as int).len() == 0);
        assert(dst@ =~= body + pattern_rest(regex@.skip(n as int), escaped));
    }
    dst.push_str("/");
    assert(dst@ =~= old(dst)@ + pattern_text(regex@));
}

/// Texts, with a comma and a space between them.
pub open spec fn joined(items: Seq<Seq<char>>) -> Seq<char>
    decreases items.len(),
{
    if items.len() == 0 {
        seq![]
    } else if items.len() == 1 {
        items[0]
    } else {
        joined(items.drop_last()) + ", "@ + items.last()
    }
}

/// A list of texts, in square brackets.
pub open spec fn list_text(items: Seq<Seq<char>>) -> Seq<char> {
    "["@ + joined(items) + "]"@
}

/// The texts of strings.
pub open spec fn texts(items: Seq<String>) -> Seq<Seq<char>> {
    items.map_values(|t: String| t@)
}

/// Appends a list of texts, in square brackets.
fn push_list(dst: &mut String, items: &[String])
    ensures
        final(dst)@ == old(dst)@ + list_text(texts(items@)),
{
    dst.push_str("[");
    let mut i: usize = 0;
    while i < items.len()
        invariant
            i <= items@.len(),
            dst@ == old(dst)@ + "["@ + joined(texts(items@).take(i as int)),
        decreases items@.len() - i,
    {
        let ghost before = dst@;
        if i > 0 {
            dst.push_str(", ");
        }
        dst.push_str(items[i].as_str());
        proof {
            let t = texts(items@).take(i + 1);
            assert(t.drop_last() =~= texts(items@).take(i as int));
            assert(t.last() == items@[i as int]@);
            assert(dst@ =~= old(dst)@ + "["@ + joined(t));
        }
        i = i + 1;
    }
    dst.push_str("]");
    proof {
        assert(texts(items@).take(i as int) =~= texts(items@));
        assert(dst@ =~= old(dst)@ + list_text(texts(items@)));
    }
}

/// Bytes as numbers, in a list.
pub open spec fn numbers_text(bytes: Seq<u8>) -> Seq<char> {
    list_text(bytes.map_values(|b: u8| text::decimal(b as nat)))
}

/// Appends bytes as numbers, in a list.
fn push_numbers(dst: &mut String, bytes: &[u8])
    ensures
        final(dst)@ == old(dst)@ + numbers_text(bytes@),
{
    let mut items: Vec<String> = Vec::new();
    let mut i: usize = 0;
    while i < bytes.len()
        invariant
            i <= bytes@.len(),
            items@.len() == i,
            forall|k: int| 0 <= k < i ==> (#[trigger] items@[k])@ == text::decimal(bytes@[k] as nat),
        decreases bytes@.len() - i,
    {
        let mut item: String = String::new();
        push_decimal(&mut item, bytes[i] as u64);
        assert(item@ =~= text::decimal(bytes@[i as int] as nat));
        items.push(item);
        i = i + 1;
    }
    assert(texts(items@) =~= bytes@.map_values(|b: u8| text::decimal(b as nat)));
    push_list(dst, items.as_slice());
}

/// A pair of numbers.
pub open spec fn range_text(r: (u8, u8)) -> Seq<char> {
    "("@ + text::decimal(r.0 as nat) + ", "@ + text::decimal(r.1 as nat) + ")"@
}

/// A byte and its escape sequence.
pub open spec fn sequence_text(s: (u8, Seq<u8>)) -> Seq<char> {
    "("@ + text::decimal(s.0 as nat) + ", "@ + numbers_text(s.1) + ")"@
}

/// Appends ranges, in a list.
fn push_ranges(dst: &mut String, ranges: &[(u8, u8)])
    ensures
        final(dst)@ == old(dst)@ + list_text(ranges@.map_values(|r: (u8, u8)| range_text(r))),
{
    let mut items: Vec<String> = Vec::new();
    let mut i: usize = 0;
    while i < ranges.len()
        invariant
            i <= ranges@.len(),
            items@.len() == i,
            forall|k: int| 0 <= k < i ==> (#[trigger] items@[k])@ == range_text(ranges@[k]),
        decreases ranges@.len() - i,
    {
        let mut item: String = String::new();
        item.push_str("(");
        push_decimal(&mut item, ranges[i].0 as u64);
        item.push_str(", ");
        push_decimal(&mut item, ranges[i].1 as u64);
        item.push_str(")");
        assert(item@ =~= range_text(ranges@[i as int]));
        items.push(item);
        i = i + 1;
    }
    assert(texts(items@) =~= ranges@.map_values(|r: (u8, u8)| range_text(r)));
    push_list(dst, items.as_slice());
}

/// Appends escape sequences, in a list.
fn push_sequences(dst: &mut String, sequences: &[(u8, Vec<u8>)])
    ensures
        final(dst)@ == old(dst)@ + list_text(
            crate::escape::sequences_view(sequences@).map_values(
                |s: (u8, Seq<u8>)| sequence_text(s),
            ),
        ),
{
    let ghost v = crate::escape::sequences_view(sequences@);
    let mut items: Vec<String> = Vec::new();
    let mut i: usize = 0;
    while i < sequences.len()
        invariant
            i <= sequences@.len(),
            v == crate::escape::sequences_view(sequences@),
            items@.len() == i,
            forall|k: int| 0 <= k < i ==> (#[trigger] items@[k])@ == sequence_text(v[k]),
        decreases sequences@.len() - i,
    {
        let mut item: String = String::new();
        item.push_str("(");
        push_decimal(&mut item, sequences[i].0 as u64);
        item.push_str(", ");
        push_numbers(&mut item, sequences[i].1.as_slice());
        item.push_str(")");
        assert(item@ =~= sequence_text(v[i as int]));
        items.push(item);
        i = i + 1;
    }
    assert(texts(items@) =~= v.map_values(|s: (u8, Seq<u8>)| sequence_text(s)));
    push_list(dst, items.as_slice());
}

/// The text of a fallback format.
pub open spec fn fallback_text(f: FallbackView) -> Seq<char> {
    "FallbackFormat { prefix: "@ + numbers_text(f.prefix) + ", suffix: "@ + numbers_text(f.suffix)
        + ", valid_byte_ranges: "@ + (match f.ranges {
        Some(ranges) => "Some("@ + list_text(ranges.map_values(|r: (u8, u8)| range_text(r))) + ")"@,
        None => "None"@,
    }) + " }"@
}

/// Appends the text of a fallback format.
fn push_fallback(dst: &mut String, f: &FallbackFormat)
    ensures
        final(dst)@ == old(dst)@ + fallback_text(f@),
{
    dst.push_str("FallbackFormat { prefix: ");
    push_numbers(dst, f.prefix.as_slice());
    dst.push_str(", suffix: ");
    push_numbers(dst, f.suffix.as_slice());
    dst.push_str(", valid_byte_ranges: ");
    match &f.valid_byte_ranges {
        Some(ranges) => {
            dst.push_str("Some(");
            push_ranges(dst, ranges.as_slice());
            dst.push_str(")");
        },
        None => {
            dst.push_str("None");
        },
    }
    dst.push_str(" }");
    assert(dst@ =~= old(dst)@ + fallback_text(f@));
}

/// The text of escape options.
pub open spec fn escape_text(o: EscapeView) -> Seq<char> {
    "StringEscapeOptions { escape_sequences: "@ + list_text(
        o.sequences.map_values(|s: (u8, Seq<u8>)| sequence_text(s)),
    ) + ", fallback: "@ + (match o.fallback {
        Some(f) => "Some("@ + fallback_text(f) + ")"@,
        None => "None"@,
    }) + ", must_escape: "@ + numbers_text(o.must_escape) + " }"@
}

/// Appends the text of escape options.
pub(crate) fn push_escape(dst: &mut String, o: &StringEscapeOptions)
    ensures
        final(dst)@ == old(dst)@ + escape_text(o@),
{
    dst.push_str("StringEscapeOptions { escape_sequences: ");
    push_sequences(dst, o.escape_sequences.as_slice());
    dst.push_str(", fallback: ");
    match &o.fallback {
        Some(f) => {
            dst.push_str("Some(");
            push_fallback(dst, f);
            dst.push_str(")");
        },
        None => {
            dst.push_str("None");
        },
    }
    dst.push_str(", must_escape: ");
    push_numbers(dst, o.must_escape.as_slice());
    dst.push_str(" }");
    assert(dst@ =~= old(dst)@ + escape_text(o@));
}

/// The text of JSON quoting options.
pub open spec fn quote_text(o: JsonQuoteView) -> Seq<char> {
    let raw_mode = if o.raw_mode {
        "true"@
    } else {
        "false"@
    };
    "JsonQuoteOptions { allowed_escapes: "@ + debug_text(o.allowed_escapes) + ", raw_mode: "@
        + raw_mode + " }"@
}

/// Appends the text of JSON quoting options.
pub(crate) fn push_quote(dst: &mut String, o: &JsonQuoteOptions)
    ensures
        final(dst)@ == old(dst)@ + quote_text(o@),
{
    dst.push_str("JsonQuoteOptions { allowed_escapes: ");
    let escapes: String = debug_string(o.allowed_escapes.as_str());
    dst.push_str(escapes.as_str());
    dst.push_str(", raw_mode: ");
    if o.raw_mode {
        dst.push_str("true");
    } else {
        dst.push_str("false");
    }
    dst.push_str(" }");
    assert(dst@ =~= old(dst)@ + quote_text(o@));
}

} // verus!
