use derivre::{
    Error, ExprRef, JsonQuoteOptions, Regex, RegexAst, RegexBuilder, StringEscapeOptions,
};

fn regex(s: &str) -> RegexAst {
    RegexAst::Regex(s.to_string())
}

fn literal(s: &str) -> RegexAst {
    RegexAst::Literal(s.to_string())
}

fn build(ast: &RegexAst) -> Regex {
    let mut b = RegexBuilder::new();
    let e = b.mk(ast).unwrap();
    b.into_regex(e)
}

fn check(ast: &RegexAst, yes: &[&str], no: &[&str]) {
    let mut rx = build(ast);
    for s in yes {
        assert!(rx.is_match(s), "{:?}", s);
    }
    for s in no {
        assert!(!rx.is_match(s), "{:?}", s);
    }
}

#[test]
fn boolean_operations() {
    let ab = regex("[a-m]+");
    let bc = regex("[h-z]+");
    check(
        &RegexAst::And(vec![ab.clone(), bc.clone()]),
        &["h", "hm", "ijkl"],
        &["", "a", "z", "hz"],
    );
    check(
        &RegexAst::Or(vec![ab.clone(), bc.clone()]),
        &["a", "z", "hm"],
        &["", "az"],
    );
    check(
        &RegexAst::Not(Box::new(ab.clone())),
        &["", "z", "az", "źó"],
        &["a", "hm"],
    );
    check(
        &RegexAst::Not(Box::new(RegexAst::Not(Box::new(ab)))),
        &["a", "hm"],
        &["", "z"],
    );
    check(&RegexAst::And(vec![]), &["", "a"], &[]);
    check(&RegexAst::Or(vec![]), &[], &["", "a"]);
}

#[test]
fn sequences_and_repetitions() {
    check(
        &RegexAst::Concat(vec![literal("a"), regex("b*"), literal("c")]),
        &["ac", "abc", "abbbc"],
        &["", "a", "abcb"],
    );
    check(&RegexAst::Concat(vec![]), &[""], &["a"]);
    let ab = || Box::new(literal("ab"));
    check(
        &RegexAst::Repeat(ab(), 2, 3),
        &["abab", "ababab"],
        &["", "ab", "abababab", "aba"],
    );
    check(
        &RegexAst::Repeat(ab(), 1, u32::MAX),
        &["ab", "abababababababab"],
        &["", "a"],
    );
    check(&RegexAst::Repeat(ab(), 0, 0), &[""], &["ab"]);
    check(&RegexAst::Repeat(ab(), 3, 2), &[], &["", "ab", "abab", "ababab"]);
    check(&RegexAst::LookAhead(ab()), &["ab"], &["", "a"]);
}

#[test]
fn leaves_match_themselves() {
    check(&RegexAst::EmptyString, &[""], &["a"]);
    check(&RegexAst::NoMatch, &[], &["", "a"]);
    check(&literal("a.b"), &["a.b"], &["axb", ""]);
    check(&literal(""), &[""], &["a"]);
    check(&literal("źó"), &["źó"], &["ź"]);
    check(&RegexAst::ByteLiteral(b"ab".to_vec()), &["ab"], &["a"]);
    check(&RegexAst::Byte(b'x'), &["x"], &["", "xx", "y"]);

    let mut rx = build(&RegexAst::ByteLiteral(vec![0xFF, 0x00]));
    assert!(rx.is_match_bytes(&[0xFF, 0x00]));
    assert!(!rx.is_match_bytes(&[0xFF]));

    let mut words = vec![0u32; 8];
    words[0xFE / 32] |= 1 << (0xFE % 32);
    words[0] |= 1;
    let mut rx = build(&RegexAst::ByteSet(words));
    assert!(rx.is_match_bytes(&[0xFE]));
    assert!(rx.is_match_bytes(&[0x00]));
    assert!(!rx.is_match_bytes(&[0xFF]));
    assert!(!rx.is_match_bytes(&[]));
    assert!(!rx.is_match_bytes(&[0x00, 0x00]));
}

#[test]
fn patterns_are_anchored() {
    check(&regex("foo"), &["foo"], &["afoo", "fooa"]);
    check(&regex("^foo$"), &["foo"], &["afoo", "fooa"]);
    check(
        &RegexAst::SearchRegex("foo".to_string()),
        &["foo", "afoo", "foob", "\nfoo\n"],
        &["fo", ""],
    );
    check(
        &RegexAst::SearchRegex("^foo$".to_string()),
        &["foo"],
        &["afoo", "fooa"],
    );
}

#[test]
fn references() {
    let mut b = RegexBuilder::new();
    let a = b.mk_regex("[ab]").unwrap();
    let e = b
        .mk(&RegexAst::Concat(vec![
            RegexAst::ExprRef(a),
            RegexAst::ExprRef(a),
        ]))
        .unwrap();
    let mut rx = b.to_regex(e);
    assert!(rx.is_match("ab"));
    assert!(!rx.is_match("a"));

    let mut other = RegexBuilder::new();
    let err = other.mk(&RegexAst::ExprRef(e)).unwrap_err();
    assert!(matches!(err, Error::InvalidRef));
    assert_eq!(err.message(), "invalid ref");

    // in every set
    let empty = other
        .mk(&RegexAst::ExprRef(ExprRef::empty_string()))
        .unwrap();
    assert!(other.is_nullable(empty));
    let none = other.mk(&RegexAst::ExprRef(ExprRef::no_match())).unwrap();
    assert!(!other.is_nullable(none));
}

#[test]
fn byte_sets_of_wrong_length_are_refused() {
    let mut b = RegexBuilder::new();
    for n in [0, 7, 9] {
        let err = b.mk(&RegexAst::ByteSet(vec![0; n])).unwrap_err();
        assert!(matches!(err, Error::InvalidByteSetLen));
        assert_eq!(err.message(), "invalid byteset len");
    }
}

#[test]
fn wrong_syntax_is_refused() {
    let mut b = RegexBuilder::new();
    let err = b.mk_regex("a(").unwrap_err();
    assert!(matches!(err, Error::Syntax(_)));
    assert!(err.message().contains("unclosed group"));
    assert!(b.mk_regex_for_serach("[").is_err());
    assert!(b.mk(&regex("a{2,1}")).is_err());
    assert!(Regex::new("*").is_err());
}

#[test]
fn misplaced_anchors_are_refused() {
    let mut b = RegexBuilder::new();
    for s in ["a^b", "a$b", "(a^)b", "\\ba", "(^a)*"] {
        let err = b.mk_regex(s).unwrap_err();
        assert!(matches!(err, Error::MisplacedAnchor), "{}", s);
        assert_eq!(
            err.message(),
            "anchors are only supported at the start and end of regex"
        );
        assert!(b.mk_regex_for_serach(s).is_err());
    }
    for s in ["^ab$", "^a|b$", "(^a|b$)", "^", "$", "^$"] {
        assert!(b.mk_regex(s).is_ok(), "{}", s);
    }
}

#[test]
fn first_error_of_the_parts_is_returned() {
    let mut b = RegexBuilder::new();
    let err = b
        .mk(&RegexAst::Concat(vec![
            RegexAst::Or(vec![literal("a"), RegexAst::MultipleOf(0, 0)]),
            RegexAst::ByteSet(vec![]),
        ]))
        .unwrap_err();
    assert!(matches!(err, Error::InvalidMultipleOf));

    // a part before the whole
    let options = JsonQuoteOptions {
        allowed_escapes: "!".to_string(),
        raw_mode: true,
    };
    let err = b
        .mk(&RegexAst::JsonQuote(
            Box::new(RegexAst::ByteSet(vec![])),
            options.clone(),
        ))
        .unwrap_err();
    assert!(matches!(err, Error::InvalidByteSetLen));
    let err = b
        .mk(&RegexAst::JsonQuote(Box::new(literal("a")), options))
        .unwrap_err();
    assert!(matches!(err, Error::InvalidAllowedEscape(b'!')));

    let mut escape = StringEscapeOptions::json();
    escape.escape_sequences.push((0x08, b"?".to_vec()));
    let err = b
        .mk(&RegexAst::StringEscape(Box::new(literal("a")), escape))
        .unwrap_err();
    assert!(matches!(err, Error::ConflictingEscapeSequences(0x08)));
}

#[test]
fn several_patterns_at_once() {
    let mut b = RegexBuilder::new();
    let e = b.mk_regex_and(&["[a-z]+", ".*x.*", ".{3}"]).unwrap();
    let mut rx = b.to_regex(e);
    assert!(rx.is_match("axb"));
    assert!(rx.is_match("xxx"));
    assert!(!rx.is_match("ax"));
    assert!(!rx.is_match("abc"));
    assert!(!rx.is_match("1x1"));

    let e = b.mk_regex_and(&[]).unwrap();
    let mut rx = b.to_regex(e);
    assert!(rx.is_match(""));
    assert!(rx.is_match("a"));

    assert!(matches!(
        b.mk_regex_and(&["a", "("]).unwrap_err(),
        Error::Syntax(_)
    ));
}

#[test]
fn containment() {
    let mut b = RegexBuilder::new();
    let fuel = 10_000;
    assert!(b.is_contained_in("abc", "a.*", fuel).unwrap());
    assert!(b.is_contained_in("[ab]+", "[a-c]*", fuel).unwrap());
    assert!(!b.is_contained_in("[a-c]*", "[ab]+", fuel).unwrap());
    assert!(b.is_contained_in("a|b", "b|a", fuel).unwrap());
    assert!(!b.is_contained_in(".", "[^\\n\\r]", fuel).unwrap());
    assert!(b.is_contained_in("[^\\n\\r]", ".", fuel).unwrap());

    assert!(matches!(
        b.is_contained_in("(", "a", fuel).unwrap_err(),
        Error::Syntax(_)
    ));
    assert!(matches!(
        b.is_contained_in("a", "a^b", fuel).unwrap_err(),
        Error::MisplacedAnchor
    ));
}

#[test]
fn containment_can_run_out_of_fuel() {
    let mut b = RegexBuilder::new();
    let err = b.is_contained_in("[a-z]{20}", "[a-y]{20}", 3).unwrap_err();
    assert!(matches!(err, Error::OutOfFuel));
    assert_eq!(err.message(), "maximum fuel exhausted");
    assert!(!b.is_contained_in("[a-z]{20}", "[a-y]{20}", 1000).unwrap());
}

#[test]
fn difference_is_empty_where_contained() {
    let mut b = RegexBuilder::new();
    let e = b.mk_contained_in("a+", "a*").unwrap();
    let rx = b.to_regex_limited(e, 1000).unwrap();
    assert!(rx.always_empty());

    let e = b.mk_contained_in("a*", "a+").unwrap();
    let mut rx = b.clone().into_regex_limited(e, 1000).unwrap();
    assert!(!rx.always_empty());
    assert!(rx.is_match(""));
    assert!(!rx.is_match("a"));

    let e = b
        .mk_contained_in_ast(&literal("x"), &regex("[w-z]"))
        .unwrap();
    let rx = b.to_regex_limited(e, 1000).unwrap();
    assert!(rx.always_empty());

    check(
        &regex("[a-d]").contained_in(&regex("[c-f]")),
        &["a", "b"],
        &["c", "d", "e", ""],
    );
}

#[test]
fn prefix_trees() {
    let mut b = RegexBuilder::new();
    let x = b.mk_regex("x*").unwrap();
    let y = b.mk_regex("y").unwrap();
    let e = b
        .mk_prefix_tree(vec![
            (b"foo".to_vec(), x),
            (b"far".to_vec(), y),
            (b"foo".to_vec(), y),
            (b"fo".to_vec(), ExprRef::empty_string()),
            (b"".to_vec(), y),
        ])
        .unwrap();
    let mut rx = b.to_regex(e);
    for s in ["foo", "fooxx", "fary", "fooy", "fo", "y"] {
        assert!(rx.is_match(s), "{}", s);
    }
    for s in ["", "far", "f", "fooxy", "farx", "x"] {
        assert!(!rx.is_match(s), "{}", s);
    }
    let none = b.mk_prefix_tree(vec![]).unwrap();
    let mut rx = b.to_regex(none);
    assert!(!rx.is_match(""));
}

#[test]
fn flags_reach_the_parser() {
    let mut b = RegexBuilder::new();
    b.case_insensitive(true);
    let e = b.mk_regex("aB").unwrap();
    assert!(b.to_regex(e).is_match("Ab"));
    b.case_insensitive(false);
    let e = b.mk_regex("aB").unwrap();
    assert!(!b.to_regex(e).is_match("Ab"));

    let mut b = RegexBuilder::new();
    b.dot_matches_new_line(true).ignore_whitespace(true);
    let e = b.mk_regex("a . b # any").unwrap();
    assert!(b.to_regex(e).is_match("a\nb"));
    assert!(!b.to_regex(e).is_match("a . b # any"));

    let mut b = RegexBuilder::new();
    assert!(b.mk_regex("(?-u)\\xFF").is_err());
    b.unicode(false);
    assert!(b.mk_regex("\\xFF").is_err());
    b.utf8(false);
    let e = b.mk_regex("\\xFF|[\\x80-\\x81]").unwrap();
    let mut rx = b.to_regex(e);
    assert!(rx.is_match_bytes(&[0xFF]));
    assert!(rx.is_match_bytes(&[0x80]));
    assert!(!rx.is_match_bytes(&[0x82]));
    assert!(!rx.is_match("ÿ"));
}

#[test]
fn nullable_expressions() {
    let mut b = RegexBuilder::default();
    for (s, nullable) in [("a*", true), ("a", false), ("a?b?", true), ("a|", true), ("a+", false)] {
        let e = b.mk_regex(s).unwrap();
        assert_eq!(b.is_nullable(e), nullable, "{}", s);
    }
    let e = b
        .mk(&RegexAst::Not(Box::new(regex("a+"))))
        .unwrap();
    assert!(b.is_nullable(e));
}

#[test]
fn what_was_built_stays() {
    let mut b = RegexBuilder::new();
    b.reserve(100);
    let e = b.mk_regex("a[bc]").unwrap();
    let before = b.exprset().len();
    let again = b.mk_regex("a[bc]").unwrap();
    assert_eq!(e, again);
    assert_eq!(b.exprset().len(), before);
    let _ = b.mk_regex("zzz").unwrap();
    let copy = b.clone();
    assert!(copy.to_regex(e).is_match("ac"));
    let set = b.into_exprset();
    assert!(set.is_valid(e));
    assert!(Regex::new_with_exprset(set, e, u64::MAX)
        .unwrap()
        .is_match("ab"));
}

#[test]
fn states_follow_the_text() {
    let mut rx = Regex::new("a[bc]*d").unwrap();
    let s = rx.initial_state();
    assert!(!rx.is_accepting(s));
    let a = rx.transition(s, b'a');
    let d = rx.transition_bytes(a, b"bcbd");
    assert!(rx.is_accepting(d));
    assert!(!d.is_dead());
    let dead = rx.transition(d, b'd');
    assert!(dead.is_dead());
    assert!(!rx.is_accepting(dead));
    assert_eq!(rx.transition_bytes(s, b"a"), a);
    assert_eq!(rx.transition_bytes(s, b""), s);
}

#[test]
fn classes_of_every_width_are_encoded() {
    let mut rx = Regex::new("[\u{7e}-\u{82}\u{7fe}-\u{801}\u{fffe}-\u{10001}]").unwrap();
    for c in [
        '\u{7e}', '\u{7f}', '\u{80}', '\u{82}', '\u{7fe}', '\u{7ff}', '\u{800}', '\u{801}',
        '\u{fffe}', '\u{ffff}', '\u{10000}', '\u{10001}',
    ] {
        assert!(rx.is_match(&c.to_string()), "{:?}", c);
    }
    for c in [
        '\u{7d}', '\u{83}', '\u{7fd}', '\u{802}', '\u{fffd}', '\u{10002}',
    ] {
        assert!(!rx.is_match(&c.to_string()), "{:?}", c);
    }
}

#[test]
fn emptiness_is_known_of_what_is_built_without_a_limit() {
    let mut b = RegexBuilder::new();
    let e = b.mk_contained_in("[ab]{3}", "[a-c]*").unwrap();
    assert!(b.to_regex(e).always_empty());
    assert!(b.clone().into_regex(e).always_empty());
    let e = b.mk_contained_in("[a-c]{3}", "[ab]*").unwrap();
    assert!(!b.to_regex(e).always_empty());
    assert!(!b.into_regex(e).always_empty());
}

#[test]
fn fixed_regexes_have_fixed_references() {
    let mut b = RegexBuilder::new();
    let e = b.mk_regex("a[bc]").unwrap();
    assert_eq!(b.mk(&RegexAst::ExprRef(e)).unwrap(), e);
    let empty = b.mk(&RegexAst::EmptyString).unwrap();
    assert_eq!(empty, ExprRef::empty_string());
    assert_eq!(b.mk(&RegexAst::Concat(vec![])).unwrap(), empty);
    let none = b.mk(&RegexAst::NoMatch).unwrap();
    assert_eq!(none, ExprRef::no_match());
    assert_eq!(b.mk(&RegexAst::Or(vec![])).unwrap(), none);
}

#[test]
fn refused_options_leave_the_builder_as_it_was() {
    let mut b = RegexBuilder::new();
    let e = b.mk_regex("a\\n").unwrap();
    let before = b.exprset().len();
    let bad = StringEscapeOptions {
        escape_sequences: vec![(b'n', b"x".to_vec()), (b'n', b"y".to_vec())],
        fallback: None,
        must_escape: vec![b'n'],
    };
    assert!(b.string_escape(e, &bad).is_err());
    let bad = JsonQuoteOptions {
        allowed_escapes: "?".to_string(),
        raw_mode: false,
    };
    assert!(b.json_quote(e, &bad).is_err());
    assert_eq!(b.exprset().len(), before);
}

#[test]
fn references_may_be_built_on_the_way() {
    // the literal is built before the reference to it is reached
    let mut b = RegexBuilder::new();
    let mut probe = RegexBuilder::new();
    let inner = probe.mk(&RegexAst::Byte(b'a')).unwrap();
    let ast = RegexAst::Concat(vec![RegexAst::Byte(b'a'), RegexAst::ExprRef(inner)]);
    let e = b.mk(&ast).unwrap();
    let mut rx = b.to_regex(e);
    assert!(rx.is_match("aa"));
    assert!(!rx.is_match("a"));

    let mut b = RegexBuilder::new();
    let ast = RegexAst::Concat(vec![RegexAst::ExprRef(inner), RegexAst::Byte(b'a')]);
    assert!(matches!(b.mk(&ast), Err(Error::InvalidRef)));

    let mut b = RegexBuilder::new();
    let e = b
        .mk_contained_in_ast(&RegexAst::Byte(b'a'), &RegexAst::ExprRef(inner))
        .unwrap();
    assert!(b.to_regex(e).always_empty());
    let mut b = RegexBuilder::new();
    let r = b.mk_contained_in_ast(&RegexAst::ExprRef(inner), &RegexAst::Byte(b'a'));
    assert!(matches!(r, Err(Error::InvalidRef)));
}

#[test]
fn untouched_expressions_are_their_own_escapes() {
    let json = StringEscapeOptions::json();
    let mut b = RegexBuilder::new();
    for pattern in ["abc", "a*(b|c)[d-z]{2,5}", "(?P<stop>x)y", "[0-9]+"] {
        let e = b.mk_regex(pattern).unwrap();
        assert_eq!(b.string_escape(e, &json).unwrap(), e, "{}", pattern);
    }
    let e = b.mk(&RegexAst::MultipleOf(3, 0)).unwrap();
    assert_eq!(b.string_escape(e, &json).unwrap(), e);
    let e = b.mk_regex("a\n").unwrap();
    assert_ne!(b.string_escape(e, &json).unwrap(), e);
    let nothing = StringEscapeOptions {
        escape_sequences: vec![],
        fallback: None,
        must_escape: vec![],
    };
    assert_eq!(b.string_escape(e, &nothing).unwrap(), e);
    let e = b.mk(&RegexAst::Not(Box::new(regex("a")))).unwrap();
    assert_eq!(b.string_escape(e, &nothing).unwrap(), e);
}

#[test]
fn raw_quoting_gives_the_escaped_form() {
    let options = JsonQuoteOptions::with_unicode_raw();
    let mut b = RegexBuilder::new();
    let e = b.mk_regex("a\\n|\\\\x+").unwrap();
    let quoted = b.json_quote(e, &options).unwrap();
    let _ = b.mk_regex("something else\n").unwrap();
    let mut escapes = options.to_string_escape_options();
    assert_eq!(b.string_escape(e, &escapes).unwrap(), quoted);
    escapes.escape_sequences.reverse();
    escapes.must_escape.reverse();
    assert_eq!(b.string_escape(e, &escapes).unwrap(), quoted);
    assert_eq!(b.json_quote(e, &options).unwrap(), quoted);
}

#[test]
fn lookaheads_stay_marked() {
    let marked = |b: &RegexBuilder, e: ExprRef| {
        let t = b.exprset().expr_to_string(e);
        t.starts_with(" (Lookahead 0")
    };
    let mut b = RegexBuilder::new();
    let e = b.mk_regex("(?P<other>a\n)").unwrap();
    assert!(!b.exprset().expr_to_string(e).contains("Lookahead"));
    let e = b.mk_regex("(?P<stop>a\n)").unwrap();
    assert!(marked(&b, e));
    let r = b.string_escape(e, &StringEscapeOptions::json()).unwrap();
    assert_ne!(r, e);
    assert!(marked(&b, r));
    let raw = JsonQuoteOptions::with_unicode_raw();
    let r = b.json_quote(e, &raw).unwrap();
    assert!(marked(&b, r));
    let r = b
        .mk(&RegexAst::JsonQuote(Box::new(regex("(?P<stop>a\n)")), raw))
        .unwrap();
    assert!(marked(&b, r));
    let e = b
        .mk(&RegexAst::LookAhead(Box::new(literal("\n"))))
        .unwrap();
    assert!(marked(&b, e));
    let r = b.string_escape(e, &StringEscapeOptions::json()).unwrap();
    assert!(marked(&b, r));
}

#[test]
fn lookaheads_start_with_no_offset() {
    let mut b = RegexBuilder::new();
    let json = StringEscapeOptions::json();
    let e = b
        .mk(&RegexAst::LookAhead(Box::new(RegexAst::Byte(b'\n'))))
        .unwrap();
    assert!(b
        .exprset()
        .expr_to_string(e)
        .starts_with(" (Lookahead 0"));
    let q = b.string_escape(e, &json).unwrap();
    assert_ne!(q, e);
    assert!(b
        .exprset()
        .expr_to_string(q)
        .starts_with(" (Lookahead 0"));
}

#[test]
fn searches_are_the_patterns_with_any_text_around() {
    let mut b = RegexBuilder::new();
    let pairs = [
        ("foo", ".*foo.*"),
        ("^foo", "foo.*"),
        ("foo$", ".*foo"),
        ("^hello$", "hello"),
        ("^$|foo", "|.*foo.*"),
        ("^$|^foo$", "|foo"),
        ("(^$)|(foo$)", "|.*foo"),
        ("baz|qux", ".*(baz|qux).*"),
        ("a(b(c)d)e", ".*abcde.*"),
    ];
    for (search, whole) in pairs {
        let found = b.mk_regex_for_serach(search).unwrap();
        let _ = b.mk_regex("something[0-9]else").unwrap();
        let whole = format!("(?s:{})", whole);
        assert_eq!(b.mk_regex(&whole).unwrap(), found, "{}", search);
        assert_eq!(b.mk(&regex(&whole)).unwrap(), found, "{}", search);
        assert_eq!(
            b.mk(&RegexAst::SearchRegex(search.to_string())).unwrap(),
            found,
            "{}",
            search
        );
    }
    let before = b.exprset().len();
    for (search, _) in pairs {
        let _ = b.mk_regex_for_serach(search).unwrap();
    }
    assert_eq!(b.exprset().len(), before);
}

#[test]
fn a_copy_knows_what_the_builder_knew() {
    let json = StringEscapeOptions::json();
    let mut b = RegexBuilder::new();
    let e = b.mk_regex("[ab\\n]+x").unwrap();
    let q = b.string_escape(e, &json).unwrap();
    let s = b.mk_regex_for_serach("a|b").unwrap();
    let mut copy = b.clone();
    assert_eq!(copy.exprset().len(), b.exprset().len());
    for x in [e, q, s] {
        assert_eq!(
            copy.exprset().expr_to_string(x),
            b.exprset().expr_to_string(x)
        );
    }
    assert_eq!(copy.string_escape(e, &json).unwrap(), q);
    assert_eq!(copy.mk_regex("[ab\\n]+x").unwrap(), e);
    assert_eq!(copy.mk_regex_for_serach("a|b").unwrap(), s);
    assert_eq!(copy.exprset().len(), b.exprset().len());

    // what is added to the copy is not added to the builder
    let added = copy.mk_regex("something else").unwrap();
    assert!(copy.exprset().is_valid(added));
    assert!(!b.exprset().is_valid(added));
}

#[test]
fn flags_leave_what_is_known() {
    let json = StringEscapeOptions::json();
    let mut b = RegexBuilder::new();
    let e = b.mk_regex("a\\n").unwrap();
    let q = b.string_escape(e, &json).unwrap();
    b.case_insensitive(true)
        .ignore_whitespace(true)
        .dot_matches_new_line(true)
        .unicode(true)
        .utf8(true);
    assert_eq!(b.string_escape(e, &json).unwrap(), q);
    assert_ne!(b.mk_regex("a\\n").unwrap(), e);
    b.case_insensitive(false);
    assert_eq!(b.mk_regex("a \\n").unwrap(), e);
}

#[test]
fn dead_states_are_those_without_a_match_ahead() {
    let mut rx = Regex::new("(ab|ac)d|[x-z]{2}").unwrap();
    let s = rx.initial_state();
    assert!(!s.is_dead());
    for b in 0..=255u8 {
        let alive = b == b'a' || (b'x'..=b'z').contains(&b);
        assert_eq!(rx.transition(s, b).is_dead(), !alive, "{}", b);
        let alive = b == b'd';
        assert_eq!(rx.transition_bytes(s, &[b'a', b'b', b]).is_dead(), !alive, "{}", b);
    }
    let dead = rx.transition(s, b'q');
    assert!(rx.transition(dead, b'a').is_dead());
    assert!(rx.transition_bytes(dead, b"abd").is_dead());
    assert!(rx.transition_bytes(s, b"abdd").is_dead());

    let mut rx = Regex::new("[ab]*(?P<stop>xx)").unwrap();
    let s = rx.initial_state();
    assert!(!rx.transition_bytes(s, b"abx").is_dead());
    assert!(rx.transition_bytes(s, b"abq").is_dead());
    assert!(rx.transition_bytes(s, b"xa").is_dead());
    assert!(rx.transition_bytes(s, b"xxx").is_dead());

    let never = RegexAst::Repeat(Box::new(RegexAst::Byte(b'a')), 3, 2);
    let rx = build(&never);
    assert!(rx.initial_state().is_dead());
    assert!(rx.always_empty());
    let rx = build(&RegexAst::Concat(vec![literal("a"), RegexAst::NoMatch]));
    assert!(rx.initial_state().is_dead());
    let rx = build(&RegexAst::ByteSet(vec![0; 8]));
    assert!(rx.initial_state().is_dead());
}
