use derivre::{
    ExprRef, FallbackFormat, JsonQuoteOptions, RegexAst, RegexBuilder, StringEscapeOptions,
};

fn text(ast: &RegexAst) -> String {
    ast.to_debug_string()
}

fn regex(s: &str) -> RegexAst {
    RegexAst::Regex(s.to_string())
}

fn byte_set(bytes: &[u8]) -> Vec<u32> {
    let mut words = vec![0u32; 8];
    for b in bytes {
        words[*b as usize / 32] |= 1 << (*b % 32);
    }
    words
}

#[test]
fn tags() {
    let a = || Box::new(RegexAst::EmptyString);
    let all = vec![
        (RegexAst::And(vec![]), "And"),
        (RegexAst::Or(vec![]), "Or"),
        (RegexAst::Concat(vec![]), "Concat"),
        (RegexAst::LookAhead(a()), "LookAhead"),
        (RegexAst::Not(a()), "Not"),
        (RegexAst::EmptyString, "EmptyString"),
        (RegexAst::NoMatch, "NoMatch"),
        (regex("a"), "Regex"),
        (RegexAst::SearchRegex("a".to_string()), "SearchRegex"),
        (RegexAst::Literal("a".to_string()), "Literal"),
        (RegexAst::ByteLiteral(vec![1]), "ByteLiteral"),
        (RegexAst::ExprRef(ExprRef::no_match()), "ExprRef"),
        (RegexAst::Repeat(a(), 1, 2), "Repeat"),
        (RegexAst::Byte(7), "Byte"),
        (RegexAst::ByteSet(vec![]), "ByteSet"),
        (RegexAst::MultipleOf(2, 0), "MultipleOf"),
        (
            RegexAst::JsonQuote(a(), JsonQuoteOptions::regular()),
            "JsonQuote",
        ),
        (
            RegexAst::StringEscape(a(), StringEscapeOptions::json()),
            "StringEscape",
        ),
    ];
    for (ast, tag) in &all {
        assert_eq!(ast.tag(), *tag);
    }
}

#[test]
fn parts() {
    let ast = RegexAst::Or(vec![RegexAst::Byte(1), RegexAst::NoMatch]);
    assert_eq!(ast.get_args().len(), 2);
    assert_eq!(ast.get_args()[0].tag(), "Byte");
    assert_eq!(ast.get_args()[1].tag(), "NoMatch");

    let ast = RegexAst::Repeat(Box::new(RegexAst::Byte(1)), 1, 2);
    assert_eq!(ast.get_args().len(), 1);
    assert_eq!(ast.get_args()[0].tag(), "Byte");

    assert_eq!(RegexAst::Byte(1).get_args().len(), 0);
}

#[test]
fn lists_nest() {
    let ast = RegexAst::And(vec![
        RegexAst::Concat(vec![RegexAst::EmptyString, RegexAst::NoMatch]),
        RegexAst::Not(Box::new(RegexAst::LookAhead(Box::new(RegexAst::Or(vec![]))))),
    ]);
    assert_eq!(
        text(&ast),
        " (And (Concat (EmptyString) (NoMatch)) (Not (LookAhead (Or))))"
    );
}

#[test]
fn leaves() {
    assert_eq!(
        text(&RegexAst::Literal("a\"\n\u{1}é".to_string())),
        " (Literal \"a\\\"\\n\\u{1}é\")"
    );
    assert_eq!(
        text(&RegexAst::ByteLiteral(vec![b'a', 0xFF, b'\t'])),
        " (ByteLiteral \"a\u{FFFD}\\t\")"
    );
    assert_eq!(
        text(&RegexAst::Repeat(Box::new(RegexAst::EmptyString), 3, u32::MAX)),
        " (Repeat{3,4294967295}  (EmptyString))"
    );
    assert_eq!(text(&RegexAst::MultipleOf(7, 0)), " (MultipleOf % 7 == 0 )");
    assert_eq!(
        text(&RegexAst::MultipleOf(7, 12)),
        " (MultipleOf % 7x10^-12 == 0)"
    );
    assert_eq!(
        text(&RegexAst::ExprRef(ExprRef::no_match())),
        " (ExprRef 1)"
    );
    assert_eq!(
        text(&RegexAst::ByteSet(vec![0, 0, 1])),
        " (ByteSet invalid byteset len: 3)"
    );
    assert_eq!(text(&RegexAst::Byte(b'a')), " (Byte a)");
    assert_eq!(text(&RegexAst::ByteSet(byte_set(b"abcx"))), " (ByteSet [a-cx])");
}

#[test]
fn patterns() {
    assert_eq!(text(&regex("a/b")), " (Regex /a\\/b/)");
    assert_eq!(text(&regex("\\d+")), " (Regex /\\d+/)");
    assert_eq!(text(&regex("a\n\r\t\u{1}z")), " (Regex /a\\n\\r\\t\\x01z/)");
    assert_eq!(text(&regex("\\/")), " (Regex /\\//)");
    assert_eq!(text(&regex("\\\\")), " (Regex /\\\\/)");
    assert_eq!(text(&regex("\\\n")), " (Regex /\\n/)");
    assert_eq!(text(&regex("a\\")), " (Regex /a\\\\/)");
    assert_eq!(
        text(&RegexAst::SearchRegex("źó".to_string())),
        " (SearchRegex /źó/)"
    );
}

#[test]
fn options_are_written_as_they_are_debugged() {
    let quote = JsonQuoteOptions {
        allowed_escapes: "n\"\\".to_string(),
        raw_mode: false,
    };
    assert_eq!(
        text(&RegexAst::JsonQuote(
            Box::new(RegexAst::EmptyString),
            quote.clone()
        )),
        format!(" (JsonQuote {:?} (EmptyString))", quote)
    );
    for escape in [
        StringEscapeOptions::xml(),
        StringEscapeOptions {
            escape_sequences: vec![],
            fallback: None,
            must_escape: vec![],
        },
        StringEscapeOptions {
            escape_sequences: vec![(1, vec![]), (2, vec![3])],
            fallback: Some(FallbackFormat {
                prefix: vec![],
                suffix: vec![9],
                valid_byte_ranges: None,
            }),
            must_escape: vec![0, 255],
        },
        StringEscapeOptions {
            escape_sequences: vec![],
            fallback: Some(FallbackFormat {
                prefix: vec![10],
                suffix: vec![],
                valid_byte_ranges: Some(vec![]),
            }),
            must_escape: vec![7],
        },
    ] {
        let ast = RegexAst::StringEscape(Box::new(RegexAst::EmptyString), escape.clone());
        let mut s = String::new();
        ast.write_to_str(&mut s, 100_000, None);
        assert_eq!(s, format!(" (StringEscape {:?} (EmptyString))", escape));
    }
}

#[test]
fn long_texts_are_cut() {
    let ast = RegexAst::Or(vec![RegexAst::EmptyString; 100]);
    let s = text(&ast);
    assert!(s.starts_with(" (Or (EmptyString) (EmptyString)"));
    assert!(s.ends_with("..."));
    assert!(s.len() >= 512 && s.len() < 512 + 20);

    let mut s = "abc".to_string();
    RegexAst::And(vec![RegexAst::NoMatch]).write_to_str(&mut s, 10, None);
    assert_eq!(s, "abc (And (NoMatch...");
    let mut s = "abc".to_string();
    RegexAst::NoMatch.write_to_str(&mut s, 3, None);
    assert_eq!(s, "abc...");
}

#[test]
fn references_are_written_from_their_set() {
    let mut b = RegexBuilder::new();
    let e = b.mk(&RegexAst::Literal("hello".to_string())).unwrap();
    let ast = RegexAst::ExprRef(e);
    let mut s = String::new();
    ast.write_to_str(&mut s, 1000, Some(b.exprset()));
    assert_eq!(
        s,
        format!(
            " (ExprRef {})",
            b.exprset()
                .expr_to_string_max_len(e, 1000 - " (ExprRef".len())
        )
    );
    let mut s = String::new();
    ast.write_to_str(&mut s, 1000, None);
    assert_eq!(s, format!(" (ExprRef {})", e.as_usize()));
}

#[test]
fn different_expressions_have_different_texts() {
    let mut b = RegexBuilder::new();
    let mut refs = vec![ExprRef::empty_string(), ExprRef::no_match()];
    for pattern in [
        "a", "ab", "a|b", "[ab]", "[a-c]", "[+-/]", "[+\\-/]", "\\x00a", "\\\\x00a", "\\)", "\\]",
        "\\(", "\\ ", "a*", "a+", "a{2,3}", "a{23}", "(?P<stop>a)", "(a|bc)*", "x(a|bc)*", "a b",
        "\\[\\]", "[\\]\\[]", "\\\\", "-", "\\--",
    ] {
        refs.push(b.mk_regex(pattern).unwrap());
    }
    for ast in [
        RegexAst::MultipleOf(3, 0),
        RegexAst::MultipleOf(30, 0),
        RegexAst::MultipleOf(3, 1),
        RegexAst::Not(Box::new(regex("a"))),
        RegexAst::And(vec![regex("a*"), regex("[ab]")]),
    ] {
        refs.push(b.mk(&ast).unwrap());
    }
    let texts: Vec<String> = refs.iter().map(|e| b.exprset().expr_to_string(*e)).collect();
    for i in 0..refs.len() {
        for j in 0..refs.len() {
            assert_eq!(refs[i] == refs[j], texts[i] == texts[j], "{} {}", texts[i], texts[j]);
        }
    }
    let e = b.mk_regex("[+\\-]").unwrap();
    assert_eq!(b.exprset().expr_to_string(e), " (ByteSet [+\\x2D])");
}

#[test]
fn lists_are_the_texts_of_their_parts() {
    let parts = vec![
        RegexAst::EmptyString,
        RegexAst::Or(vec![regex("a"), RegexAst::Byte(b'b')]),
        RegexAst::NoMatch,
    ];
    let inner: String = parts.iter().map(text).collect();
    assert_eq!(text(&RegexAst::And(parts.clone())), format!(" (And{})", inner));
    assert_eq!(text(&RegexAst::Or(parts.clone())), format!(" (Or{})", inner));
    assert_eq!(text(&RegexAst::Concat(parts)), format!(" (Concat{})", inner));
}

#[test]
fn cut_texts_start_the_whole_text() {
    let ast = RegexAst::Concat(vec![
        RegexAst::Or(vec![RegexAst::NoMatch, RegexAst::EmptyString]),
        RegexAst::And(vec![]),
    ]);
    let mut whole = String::new();
    ast.write_to_str(&mut whole, 1000, None);
    for max_len in 0..whole.len() + 3 {
        let mut s = String::new();
        ast.write_to_str(&mut s, max_len, None);
        if s != whole {
            assert!(s.ends_with("..."), "{}", s);
            let start = &s[..s.len() - 3];
            assert!(start.len() >= max_len && start.len() < whole.len());
            assert!(whole.starts_with(start), "{}", s);
        } else {
            assert!(whole.len() <= max_len || max_len + 1 == whole.len());
        }
    }
}
