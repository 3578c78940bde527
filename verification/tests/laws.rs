use derivre::{
    FallbackFormat, JsonQuoteOptions, Regex, RegexAst, RegexBuilder, StringEscapeOptions,
};

fn regex(s: &str) -> RegexAst {
    RegexAst::Regex(s.to_string())
}

fn escaped(ast: RegexAst, options: &StringEscapeOptions) -> RegexAst {
    RegexAst::StringEscape(Box::new(ast), options.clone())
}

fn build(ast: &RegexAst) -> Regex {
    let mut b = RegexBuilder::new();
    let e = b.mk(ast).unwrap();
    b.into_regex(e)
}

fn hex(n: u8, upper: bool) -> Vec<u8> {
    let s = if upper {
        format!("{:02X}", n)
    } else {
        format!("{:02x}", n)
    };
    s.into_bytes()
}

/// The ways to write a byte.
fn forms(options: &StringEscapeOptions, b: u8) -> Vec<Vec<u8>> {
    if !options.must_escape.contains(&b) {
        return vec![vec![b]];
    }
    let mut r = vec![];
    for (byte, sequence) in &options.escape_sequences {
        if *byte == b {
            r.push(sequence.clone());
        }
    }
    if let Some(f) = &options.fallback {
        if f.covers_byte(b) {
            for upper in [true, false] {
                let mut form = f.prefix.clone();
                form.extend(hex(b, upper));
                form.extend(&f.suffix);
                r.push(form);
            }
        }
    }
    r
}

/// The ways to write a string.
fn writings(options: &StringEscapeOptions, s: &[u8]) -> Vec<Vec<u8>> {
    let mut r = vec![vec![]];
    for b in s {
        let mut next = vec![];
        for head in &r {
            for form in forms(options, *b) {
                let mut w: Vec<u8> = head.clone();
                w.extend(form);
                next.push(w);
            }
        }
        r = next;
    }
    r
}

fn grammars() -> Vec<StringEscapeOptions> {
    vec![
        StringEscapeOptions::json(),
        StringEscapeOptions::json_raw(),
        StringEscapeOptions::url_percent_encoding(),
        StringEscapeOptions::xml(),
    ]
}

fn samples() -> Vec<&'static str> {
    vec![
        "", "a", "ab", "\n", "a\n", "\"", "\\", "&", "<b>", "a&b", "%", "é", "\u{1}", "\u{7f}",
        "a'b", "\\n", "b", "\t\r",
    ]
}

#[test]
fn escaped_regex_matches_the_escaped_forms() {
    for options in grammars() {
        for pattern in ["(.|\n)*", "[a-m\\n&\\\\]*", "a&b|é|<b>", "\\\\n?", "[^a]", "a*\n"] {
            let mut plain = build(&regex(pattern));
            let mut rx = build(&escaped(regex(pattern), &options));
            for s in samples() {
                let matched = plain.is_match(s);
                for w in writings(&options, s.as_bytes()) {
                    assert_eq!(rx.is_match_bytes(&w), matched, "{} {:?} {:?}", pattern, s, w);
                }
            }
        }
    }
}

#[test]
fn escaped_regex_matches_nothing_else() {
    let mut rx = build(&escaped(regex("(.|\n)*"), &StringEscapeOptions::json()));
    for s in ["\\", "\"", "\n", "\\x", "\\u00", "\\u0080", "\\u00G0", "\\u0", "\u{7f}", "a\\"] {
        assert!(!rx.is_match(s), "{:?}", s);
    }
    let mut rx = build(&escaped(regex("(.|\n)*"), &StringEscapeOptions::xml()));
    for s in ["&", "<", "&lt", "&#x3C", "&foo;", "\n", "&#x0B;", "&#xG0;"] {
        assert!(!rx.is_match(s), "{:?}", s);
    }
    for s in ["&lt;", "&#x3C;", "&#x3c;", "&#x0A;", "lt;", ""] {
        assert!(rx.is_match(s), "{:?}", s);
    }
}

#[test]
fn complements_are_decided_on_escaped_forms() {
    let options = StringEscapeOptions::json();
    let ast = RegexAst::And(vec![
        RegexAst::Not(Box::new(regex("a|\n|é"))),
        RegexAst::Or(vec![
            RegexAst::Not(Box::new(regex("[ab]*"))),
            regex("b\\\\?"),
        ]),
    ]);
    let mut plain = build(&ast);
    let mut rx = build(&escaped(ast, &options));
    for s in samples() {
        let matched = plain.is_match(s);
        for w in writings(&options, s.as_bytes()) {
            assert_eq!(rx.is_match_bytes(&w), matched, "{:?} {:?}", s, w);
        }
    }
}

#[test]
fn complements_in_an_intersection_match_nothing_else() {
    let options = StringEscapeOptions::json();
    let ast = RegexAst::And(vec![regex("[\\n-z]*"), RegexAst::Not(Box::new(regex("a*")))]);
    let mut rx = build(&escaped(ast, &options));
    for s in ["\\n", "\\u000A", "b\\\\", "\\\""] {
        assert!(rx.is_match(s), "{:?}", s);
    }
    for s in ["\n", "", "aa", "\\", "\"", "\\x"] {
        assert!(!rx.is_match(s), "{:?}", s);
    }
}

#[test]
fn complements_match_escaped_forms_only() {
    let options = StringEscapeOptions::json();
    let mut rx = build(&escaped(RegexAst::Not(Box::new(regex("a"))), &options));
    for s in ["", "aa", "b", "\\n", "\\u000A", "\\\\"] {
        assert!(rx.is_match(s), "{:?}", s);
    }
    for s in ["a", "\n", "\\", "\\x", "\"", "\\u00"] {
        assert!(!rx.is_match(s), "{:?}", s);
    }
}

#[test]
fn complements_in_a_sequence_are_decided() {
    let options = StringEscapeOptions::json();
    let ast = RegexAst::Concat(vec![
        RegexAst::Not(Box::new(RegexAst::Literal("a".to_string()))),
        RegexAst::Literal("b".to_string()),
    ]);
    let mut plain = build(&ast);
    let mut rx = build(&escaped(ast, &options));
    for s in ["\u{8}", "ab", "b", "bb", "\nb", "\\b", "a"] {
        let matched = plain.is_match(s);
        for w in writings(&options, s.as_bytes()) {
            assert_eq!(rx.is_match_bytes(&w), matched, "{:?} {:?}", s, w);
        }
    }
    assert!(!rx.is_match("\\b"));
}

#[test]
fn complements_are_escaped_twice() {
    let options = StringEscapeOptions::json();
    let once = escaped(RegexAst::Not(Box::new(regex("\n"))), &options);
    let mut inner = build(&once);
    let mut outer = build(&escaped(once, &options));
    for s in ["", "\\n", "\\t", "\n", "\\", "x"] {
        let matched = inner.is_match(s);
        for w in writings(&options, s.as_bytes()) {
            assert_eq!(outer.is_match_bytes(&w), matched, "{:?} {:?}", s, w);
        }
    }
}

#[test]
fn intersection_of_nothing_matches_escaped_forms_only() {
    let mut rx = build(&escaped(RegexAst::And(vec![]), &StringEscapeOptions::json()));
    assert!(rx.is_match(""));
    assert!(rx.is_match("a\\nb"));
    assert!(!rx.is_match("\n"));
    assert!(!rx.is_match("\\"));
}

#[test]
fn numerals_are_escaped_by_the_grammar() {
    let options = StringEscapeOptions {
        escape_sequences: vec![(b'.', b"%.".to_vec())],
        fallback: Some(FallbackFormat {
            prefix: b"%x".to_vec(),
            suffix: b";".to_vec(),
            valid_byte_ranges: None,
        }),
        must_escape: vec![b'%', b'.', b'3', b'5'],
    };
    let ast = RegexAst::MultipleOf(15, 1);
    let mut plain = build(&ast);
    let mut rx = build(&escaped(ast.clone(), &options));
    for s in ["3", "1.5", "4.50", "6", "30", "5", "2", "", "1.25", "3.0"] {
        let matched = plain.is_match(s);
        for w in writings(&options, s.as_bytes()) {
            assert_eq!(rx.is_match_bytes(&w), matched, "{:?} {:?}", s, w);
        }
    }
    for s in ["3", "1.5", "%33;", "%x33", "%x36;", "1%.%x35"] {
        assert!(!rx.is_match(s), "{:?}", s);
    }
    assert!(rx.is_match("1%.%x35;"));
    assert!(rx.is_match("6"));

    let twice = escaped(escaped(ast, &options), &StringEscapeOptions::url_percent_encoding());
    let mut rx = build(&twice);
    assert!(rx.is_match("%25x33%3B"));
    assert!(rx.is_match("6"));
    assert!(!rx.is_match("%x33;"));
}

#[test]
fn escapes_tell_what_they_escape() {
    for options in grammars() {
        let all: Vec<(u8, Vec<u8>)> = (0x00..=0xFFu8)
            .flat_map(|b| forms(&options, b).into_iter().map(move |v| (b, v)))
            .collect();
        for (b, v) in &all {
            assert!(!v.is_empty());
            for (c, w) in &all {
                if w.starts_with(v) {
                    assert_eq!((b, v), (c, w));
                }
            }
        }
    }
}

#[test]
fn quoted_regex_matches_the_quoted_forms() {
    let quoted = |options: JsonQuoteOptions| {
        build(&RegexAst::JsonQuote(Box::new(regex("[A-Z\\n]+")), options))
    };
    let mut raw = quoted(JsonQuoteOptions::no_unicode_raw());
    for s in ["A", "A\\nB", "\\n\\n"] {
        assert!(raw.is_match(s), "{:?}", s);
    }
    for s in ["", "\n", "a", "\\u000a", "\"A\"", "n"] {
        assert!(!raw.is_match(s), "{:?}", s);
    }
    let mut regular = quoted(JsonQuoteOptions::regular());
    for s in ["\"A\"", "\"A\\nB\"", "\"\\u000a\"", "\"\\u000A\""] {
        assert!(regular.is_match(s), "{:?}", s);
    }
    for s in ["A", "\"\"", "\"A", "A\"", "\"\n\"", "\"a\"", "\"A\"\""] {
        assert!(!regular.is_match(s), "{:?}", s);
    }
}

#[test]
fn raw_quoting_is_escaping() {
    let mut b = RegexBuilder::new();
    let e = b.mk_regex("(.|\n)*").unwrap();
    let quoted = b
        .json_quote(e, &JsonQuoteOptions::with_unicode_raw())
        .unwrap();
    let escaped = b.string_escape(e, &StringEscapeOptions::json()).unwrap();
    assert_eq!(quoted, escaped);
    let quoted = b.json_quote(e, &JsonQuoteOptions::no_unicode_raw()).unwrap();
    let escaped = b.string_escape(e, &StringEscapeOptions::json_raw()).unwrap();
    assert_eq!(quoted, escaped);
}

#[test]
fn escaping_twice() {
    let json = StringEscapeOptions::json();
    let url = StringEscapeOptions::url_percent_encoding();
    let mut once = build(&escaped(regex("[a\\n]+"), &json));
    let mut twice = build(&escaped(escaped(regex("[a\\n]+"), &json), &url));
    for s in ["a", "a\\n", "\\n\\u000a", "n", "\n", ""] {
        for w in writings(&url, s.as_bytes()) {
            assert_eq!(twice.is_match_bytes(&w), once.is_match(s), "{:?}", w);
        }
    }
    assert!(twice.is_match("a%5Cn"));
    assert!(twice.is_match("%5cu000a"));
    assert!(!twice.is_match("a\\n"));
    assert!(!twice.is_match("%0A"));
}

#[test]
fn fallback_of_the_documentation() {
    let options = StringEscapeOptions {
        escape_sequences: vec![],
        fallback: Some(FallbackFormat {
            prefix: b"\\u00".to_vec(),
            suffix: vec![],
            valid_byte_ranges: Some(vec![(0x00, 0x7F)]),
        }),
        must_escape: vec![0x1F],
    };
    let mut rx = build(&escaped(RegexAst::Byte(0x1F), &options));
    assert!(rx.is_match("\\u001F"));
    assert!(rx.is_match("\\u001f"));
    assert!(!rx.is_match("\u{1f}"));

    let mut b = RegexBuilder::new();
    let e = b.mk_regex("a").unwrap();
    let mut high = options;
    high.must_escape = vec![0x80];
    assert!(b.string_escape(e, &high).is_err());
}

#[test]
fn tail_after_escaped_bytes_is_kept() {
    let json = StringEscapeOptions::json();
    let ast = RegexAst::Concat(vec![
        RegexAst::Literal("a\nb".to_string()),
        regex("[c\n]*"),
        RegexAst::Literal("\"".to_string()),
    ]);
    let mut rx = build(&escaped(ast, &json));
    assert!(rx.is_match("a\\nbc\\u000Ac\\\""));
    assert!(rx.is_match("a\\nb\\\""));
    assert!(!rx.is_match("a\\nb"));
    assert!(!rx.is_match("a\\nbc\n\\\""));
}

#[test]
fn empty_lists_are_the_constants() {
    let mut b = RegexBuilder::new();
    let concat = b.mk(&RegexAst::Concat(vec![])).unwrap();
    let empty = b.mk(&RegexAst::EmptyString).unwrap();
    assert_eq!(concat, empty);
    let or = b.mk(&RegexAst::Or(vec![])).unwrap();
    let none = b.mk(&RegexAst::NoMatch).unwrap();
    assert_eq!(or, none);
}

#[test]
fn search_finds_what_is_matched() {
    for pattern in ["foo", "^foo", "foo$", "^foo$", "^$|foo", "a*", "(^a|b$)"] {
        let mut whole = build(&regex(pattern));
        let mut search = build(&RegexAst::SearchRegex(pattern.to_string()));
        for s in ["", "foo", "a", "b", "ab", "fo", "xfoox"] {
            assert!(!whole.is_match(s) || search.is_match(s), "{} {}", pattern, s);
        }
    }
    let mut search = build(&RegexAst::SearchRegex("o+".to_string()));
    assert!(search.is_match("x\noo\ny"));
    assert!(!search.is_match("x\ny"));
}

#[test]
fn normalizing_keeps_the_meaning() {
    let options = StringEscapeOptions {
        escape_sequences: vec![
            (b'q', b"@q".to_vec()),
            (b'@', b"@@".to_vec()),
            (b'q', b"@q".to_vec()),
        ],
        fallback: Some(FallbackFormat {
            prefix: b"@x".to_vec(),
            suffix: b".".to_vec(),
            valid_byte_ranges: Some(vec![(b'n', b'z'), (b'a', b'f'), (b'b', b'm')]),
        }),
        must_escape: vec![b'q', b'@', b'a', b'q'],
    };
    let mut normal = options.clone();
    normal.normalize().unwrap();
    assert_ne!(normal, options);
    let mut b = RegexBuilder::new();
    let e = b.mk_regex("[a-z@]*").unwrap();
    let x = b.string_escape(e, &options).unwrap();
    let y = b.string_escape(e, &normal).unwrap();
    assert_eq!(x, y);
    let mut rx = b.to_regex(x);
    for s in ["@q", "@@", "@x61.", "@x71.", "b"] {
        assert!(rx.is_match(s), "{:?}", s);
    }
    for s in ["q", "@", "a", "@x40.", "@x62."] {
        assert!(!rx.is_match(s), "{:?}", s);
    }

    // refused before and after
    let mut refused = options;
    refused.must_escape.push(b'!');
    assert!(b.string_escape(e, &refused).is_err());
    refused.normalize().unwrap();
    assert!(b.string_escape(e, &refused).is_err());
}

#[test]
fn every_choice_of_json_escapes_can_be_used() {
    let names = ['n', 'r', 'b', 't', 'f', '\\', '"', 'u'];
    let mut b = RegexBuilder::new();
    let e = b.mk_regex("[\\x00-\\x7f]").unwrap();
    for choice in 0..256u32 {
        let allowed_escapes: String = names
            .iter()
            .enumerate()
            .filter(|(i, _)| choice & (1 << i) != 0)
            .map(|(_, c)| *c)
            .collect();
        let options = JsonQuoteOptions {
            allowed_escapes,
            raw_mode: true,
        };
        let r = b.json_quote(e, &options).unwrap();
        let mut rx = b.to_regex(r);
        for (name, form) in [('n', "\\n"), ('r', "\\r"), ('u', "\\u0001"), ('t', "\\t")] {
            assert_eq!(
                rx.is_match(form),
                options.allowed_escapes.contains(name),
                "{:?} {}",
                options,
                form
            );
        }
        // always there
        assert!(rx.is_match("\\\\"));
        assert!(rx.is_match("\\\""));
    }
}

#[test]
fn numerals_may_be_written_as_nothing() {
    let options = StringEscapeOptions {
        escape_sequences: vec![(b'5', vec![])],
        fallback: None,
        must_escape: vec![b'5'],
    };
    let mut fives = build(&escaped(RegexAst::MultipleOf(5, 0), &options));
    for s in ["", "0", "10", "1", "2", "37", "100"] {
        assert!(fives.is_match(s), "{:?}", s);
    }
    for s in ["5", "15", "x", "1x"] {
        assert!(!fives.is_match(s), "{:?}", s);
    }
    let mut sixes = build(&escaped(RegexAst::MultipleOf(6, 0), &options));
    for s in ["0", "2", "4", "6", "8", "12", "02"] {
        assert!(sixes.is_match(s), "{:?}", s);
    }
    for s in ["", "1", "3", "7", "9", "54", "21"] {
        assert!(!sixes.is_match(s), "{:?}", s);
    }
    // 51555 and 555555 are multiples of 7
    let mut sevens = build(&escaped(RegexAst::MultipleOf(7, 0), &options));
    for s in ["", "1", "3", "6", "7"] {
        assert!(sevens.is_match(s), "{:?}", s);
    }
    assert!(!sevens.is_match("5"));
}
