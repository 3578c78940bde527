use derivre::{
    Error, FallbackFormat, JsonQuoteOptions, RegexBuilder, StringEscapeOptions,
};

fn fallback(prefix: &[u8], suffix: &[u8], ranges: Option<Vec<(u8, u8)>>) -> FallbackFormat {
    FallbackFormat {
        prefix: prefix.to_vec(),
        suffix: suffix.to_vec(),
        valid_byte_ranges: ranges,
    }
}

fn ranges_of(options: &StringEscapeOptions) -> Vec<(u8, u8)> {
    options
        .fallback
        .as_ref()
        .unwrap()
        .valid_byte_ranges
        .clone()
        .unwrap()
}

fn with_ranges(ranges: Vec<(u8, u8)>) -> StringEscapeOptions {
    StringEscapeOptions {
        escape_sequences: vec![],
        fallback: Some(fallback(b"\\x", b"", Some(ranges))),
        must_escape: vec![],
    }
}

#[test]
fn fallback_covers_bytes_of_its_ranges() {
    let all = fallback(b"%", b"", None);
    assert!(all.covers_byte(0x00));
    assert!(all.covers_byte(0xFF));

    let some = fallback(b"%", b"", Some(vec![(0x09, 0x0A), (0x20, 0xFF)]));
    assert!(!some.covers_byte(0x08));
    assert!(some.covers_byte(0x09));
    assert!(some.covers_byte(0x0A));
    assert!(!some.covers_byte(0x0B));
    assert!(!some.covers_byte(0x1F));
    assert!(some.covers_byte(0x20));
    assert!(some.covers_byte(0xFF));

    let none = fallback(b"%", b"", Some(vec![]));
    assert!(!none.covers_byte(0x00));
}

#[test]
fn normalize_sorts_and_dedups() {
    let mut options = StringEscapeOptions {
        escape_sequences: vec![
            (b'z', b"\\z".to_vec()),
            (b'a', b"\\a".to_vec()),
            (b'z', b"\\z".to_vec()),
        ],
        fallback: None,
        must_escape: vec![b'z', b'b', b'a', b'b', b'z'],
    };
    options.normalize().unwrap();
    assert_eq!(
        options.escape_sequences,
        vec![(b'a', b"\\a".to_vec()), (b'z', b"\\z".to_vec())]
    );
    assert_eq!(options.must_escape, vec![b'a', b'b', b'z']);
    assert_eq!(options.fallback, None);
}

#[test]
fn normalize_merges_ranges() {
    let mut options = with_ranges(vec![(0x30, 0x40), (0x10, 0x1F), (0x20, 0x2E), (0x35, 0x38)]);
    options.normalize().unwrap();
    assert_eq!(ranges_of(&options), vec![(0x10, 0x2E), (0x30, 0x40)]);

    let mut options = with_ranges(vec![(0xF0, 0xFF), (0x00, 0xFE)]);
    options.normalize().unwrap();
    assert_eq!(options.fallback.unwrap().valid_byte_ranges, None);

    let mut options = with_ranges(vec![(0xFF, 0xFF), (0xFF, 0xFF), (0x00, 0x00)]);
    options.normalize().unwrap();
    assert_eq!(ranges_of(&options), vec![(0x00, 0x00), (0xFF, 0xFF)]);
}

#[test]
fn normalize_again_changes_nothing() {
    for mut options in [
        StringEscapeOptions::json(),
        StringEscapeOptions::json_raw(),
        StringEscapeOptions::url_percent_encoding(),
        StringEscapeOptions::xml(),
    ] {
        options.normalize().unwrap();
        let once = options.clone();
        options.normalize().unwrap();
        assert_eq!(options, once);
    }
}

#[test]
fn equivalent_options_normalize_alike() {
    let mut a = StringEscapeOptions {
        escape_sequences: vec![(b'b', b"\\b".to_vec()), (b'a', b"\\a".to_vec())],
        fallback: Some(fallback(b"&#x", b";", Some(vec![(0x40, 0x7F), (0x20, 0x3F)]))),
        must_escape: vec![b'b', b'a', b'c'],
    };
    let mut b = StringEscapeOptions {
        escape_sequences: vec![
            (b'a', b"\\a".to_vec()),
            (b'a', b"\\a".to_vec()),
            (b'b', b"\\b".to_vec()),
        ],
        fallback: Some(fallback(b"&#x", b";", Some(vec![(0x20, 0x7F), (0x30, 0x50)]))),
        must_escape: vec![b'c', b'a', b'a', b'b'],
    };
    assert_ne!(a, b);
    a.normalize().unwrap();
    b.normalize().unwrap();
    assert_eq!(a, b);
}

#[test]
fn conflicting_sequences_are_refused() {
    let mut options = StringEscapeOptions {
        escape_sequences: vec![
            (b'z', b"\\z".to_vec()),
            (b'\n', b"\\n".to_vec()),
            (b'z', b"zz".to_vec()),
            (b'\n', b"\\N".to_vec()),
        ],
        fallback: None,
        must_escape: vec![b'\n'],
    };
    let e = options.normalize().unwrap_err();
    assert!(matches!(e, Error::ConflictingEscapeSequences(0x0A)));
    assert_eq!(e.message(), "conflicting escape_sequences for byte 0x0A");
}

#[test]
fn reversed_ranges_are_refused() {
    let mut options = with_ranges(vec![(0xF0, 0x0F), (0x05, 0x04), (0x00, 0x10)]);
    let e = options.normalize().unwrap_err();
    assert!(matches!(e, Error::InvalidByteRange(0x05, 0x04)));
    assert_eq!(
        e.message(),
        "invalid valid_byte_ranges entry: start 0x05 > end 0x04"
    );
}

#[test]
fn bytes_outside_the_ranges_are_refused() {
    let mut b = RegexBuilder::new();
    let e = b.mk_regex("a").unwrap();
    let mut options = with_ranges(vec![(0x00, 0x7F)]);
    options.must_escape = vec![0xE0, 0x7F, 0x9A];
    let err = b.string_escape(e, &options).unwrap_err();
    assert!(matches!(err, Error::UnrepresentableByte(0x9A)));
    assert_eq!(
        err.message(),
        "fallback cannot represent byte 0x9A (outside valid_byte_ranges); \
         add an explicit escape_sequence for it"
    );

    // an explicit sequence is enough
    options.escape_sequences = vec![(0x9A, b"\\9".to_vec()), (0xE0, b"\\e".to_vec())];
    assert!(b.string_escape(e, &options).is_ok());
}

#[test]
fn json_options() {
    let options = StringEscapeOptions::json();
    assert_eq!(
        options.escape_sequences,
        vec![
            (0x08, b"\\b".to_vec()),
            (0x0C, b"\\f".to_vec()),
            (b'\n', b"\\n".to_vec()),
            (b'\r', b"\\r".to_vec()),
            (b'\t', b"\\t".to_vec()),
            (b'\\', b"\\\\".to_vec()),
            (b'"', b"\\\"".to_vec()),
        ]
    );
    assert_eq!(
        options.fallback,
        Some(fallback(b"\\u00", b"", Some(vec![(0x00, 0x7F)])))
    );
    let mut escaped: Vec<u8> = (0x00..=0x1F).collect();
    escaped.extend([b'\\', b'"', 0x7F]);
    assert_eq!(options.must_escape, escaped);

    let raw = StringEscapeOptions::json_raw();
    assert_eq!(raw.fallback, None);
    assert_eq!(raw.escape_sequences, options.escape_sequences);
    assert_eq!(raw.must_escape, options.must_escape);
}

#[test]
fn url_options() {
    let options = StringEscapeOptions::url_percent_encoding();
    assert!(options.escape_sequences.is_empty());
    assert_eq!(options.fallback, Some(fallback(b"%", b"", None)));
    assert_eq!(options.must_escape.len(), 256 - 26 - 26 - 10 - 4);
    for b in 0x00..=0xFFu8 {
        let plain = b.is_ascii_alphanumeric() || b"-._~".contains(&b);
        assert_eq!(options.must_escape.contains(&b), !plain);
    }
}

#[test]
fn xml_options() {
    let options = StringEscapeOptions::xml();
    assert_eq!(
        options.escape_sequences,
        vec![
            (b'&', b"&amp;".to_vec()),
            (b'<', b"&lt;".to_vec()),
            (b'>', b"&gt;".to_vec()),
            (b'"', b"&quot;".to_vec()),
            (b'\'', b"&apos;".to_vec()),
        ]
    );
    assert_eq!(
        options.fallback,
        Some(fallback(
            b"&#x",
            b";",
            Some(vec![(0x09, 0x0A), (0x0D, 0x0D), (0x20, 0xFF)])
        ))
    );
    assert_eq!(
        options.must_escape,
        vec![0x09, 0x0A, 0x0D, b'&', b'<', b'>', b'"', b'\'']
    );
}

#[test]
fn json_quote_options() {
    let options = JsonQuoteOptions::no_unicode_raw();
    assert_eq!(options.allowed_escapes, "nrbtf\\\"");
    assert!(options.raw_mode);
    assert!(!options.is_allowed(b'u'));
    assert!(options.is_allowed(b'n'));
    assert!(!options.is_allowed(b'x'));

    let options = JsonQuoteOptions::with_unicode_raw();
    assert_eq!(options.allowed_escapes, "nrbtf\\\"u");
    assert!(options.raw_mode);
    assert!(options.is_allowed(b'u'));

    let options = JsonQuoteOptions::regular();
    assert_eq!(options.allowed_escapes, "nrbtf\\\"u");
    assert!(!options.raw_mode);
}

#[test]
fn json_quote_options_stand_for_grammars() {
    assert_eq!(
        JsonQuoteOptions::with_unicode_raw().to_string_escape_options(),
        StringEscapeOptions::json()
    );
    assert_eq!(
        JsonQuoteOptions::regular().to_string_escape_options(),
        StringEscapeOptions::json()
    );
    assert_eq!(
        JsonQuoteOptions::no_unicode_raw().to_string_escape_options(),
        StringEscapeOptions::json_raw()
    );

    // what names no escape is ignored; backslash and quote are always escaped
    let options = JsonQuoteOptions {
        allowed_escapes: "xnź".to_string(),
        raw_mode: true,
    }
    .to_string_escape_options();
    assert_eq!(
        options.escape_sequences,
        vec![
            (b'\n', b"\\n".to_vec()),
            (b'\\', b"\\\\".to_vec()),
            (b'"', b"\\\"".to_vec()),
        ]
    );
    assert_eq!(options.fallback, None);
}

#[test]
fn unknown_json_escapes_are_refused() {
    let mut b = RegexBuilder::new();
    let e = b.mk_regex("a").unwrap();
    let options = JsonQuoteOptions {
        allowed_escapes: "nqz".to_string(),
        raw_mode: true,
    };
    let err = b.json_quote(e, &options).unwrap_err();
    assert!(matches!(err, Error::InvalidAllowedEscape(b'q')));
    assert_eq!(
        err.message(),
        "invalid escape character in allowed_escapes: q"
    );

    // the first byte of a character outside of ASCII, as a character of its own
    let options = JsonQuoteOptions {
        allowed_escapes: "é".to_string(),
        raw_mode: true,
    };
    let err = b.json_quote(e, &options).unwrap_err();
    assert!(matches!(err, Error::InvalidAllowedEscape(0xC3)));
    assert_eq!(
        err.message(),
        "invalid escape character in allowed_escapes: \u{C3}"
    );
}

#[test]
fn ranges_of_all_bytes_are_left_out() {
    let mut listed = with_ranges(vec![(0x00, 0xFF)]);
    let mut left_out = with_ranges(vec![]);
    left_out.fallback = Some(fallback(b"\\x", b"", None));
    assert_ne!(listed, left_out);
    listed.normalize().unwrap();
    left_out.normalize().unwrap();
    assert_eq!(listed, left_out);

    let mut all_but_one = with_ranges(vec![(0x00, 0x41), (0x43, 0xFF)]);
    all_but_one.normalize().unwrap();
    assert_eq!(ranges_of(&all_but_one), vec![(0x00, 0x41), (0x43, 0xFF)]);
}

#[test]
fn grammars_that_cover_all_bytes_share_their_escapes() {
    let mut b = RegexBuilder::new();
    let e = b.mk_regex("a+").unwrap();
    let mut one = with_ranges(vec![(0x00, 0x7F), (0x80, 0xFF)]);
    one.must_escape = vec![b'a'];
    let mut two = one.clone();
    two.fallback = Some(fallback(b"\\x", b"", None));
    let r = b.string_escape(e, &one).unwrap();
    assert_eq!(b.string_escape(e, &two).unwrap(), r);
}
