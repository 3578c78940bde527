//! What regexes mean.

use crate::ast::{Ast, Head};
use crate::byteset;
use crate::error::Error;
use crate::escape;
use crate::expr;
use crate::expr::{ExprRef, ExprSet};
use crate::image;
use crate::json_quote;
use crate::json_quote::JsonQuoteView;
use crate::lang;
use crate::lang::{Lang, Reading};
use crate::number;
use crate::pattern;
use crate::quote;
use crate::syntax;
use crate::syntax::{ParserFlags, Syntax};
use crate::unfold;
use vstd::prelude::*;

verus! {

/// Whether the pattern parses, with its anchors at its start and end.
pub open spec fn pattern_ok(flags: ParserFlags, p: Seq<char>) -> bool {
    syntax::parsed(flags, p) matches Ok(t) && pattern::placed(t, true, true)
}

/// The error says why the pattern is not accepted.
pub open spec fn is_pattern_error(flags: ParserFlags, p: Seq<char>, e: Error) -> bool {
    match syntax::parsed(flags, p) {
        Err(t) => e matches Error::Syntax(said) && said@ == t,
        Ok(t) => !pattern::placed(t, true, true) && e is MisplacedAnchor,
    }
}

/// The language of a pattern that is accepted.
pub open spec fn pattern_lang(flags: ParserFlags, p: Seq<char>, search: bool, s: Reading) -> Lang {
    |w: Seq<u8>|
        syntax::parsed(flags, p) matches Ok(t) && pattern::accepts(t, search, s, w)
}

/// All bytes of the allowed escapes name a kind of escape.
pub open spec fn names_valid(o: JsonQuoteView) -> bool {
    forall|b: u8| #[trigger] json_quote::allowed(o, b) ==> json_quote::is_escape_name(b)
}

/// The byte is the first of the allowed escapes that names no kind of escape.
pub open spec fn is_first_invalid_name(o: JsonQuoteView, b: u8) -> bool {
    let bytes = vstd::utf8::encode_utf8(o.allowed_escapes);
    exists|k: int|
        #![trigger bytes[k]]
        0 <= k < bytes.len() && bytes[k] == b && !json_quote::is_escape_name(b) && forall|j: int|
            0 <= j < k ==> json_quote::is_escape_name(#[trigger] bytes[j])
}

/// The error says why the options cannot be used.
pub open spec fn is_quote_error(o: JsonQuoteView, e: Error) -> bool {
    e matches Error::InvalidAllowedEscape(b) && is_first_invalid_name(o, b)
}

/// A string of `inner`, in double quotes unless in raw mode.
pub open spec fn quoted(o: JsonQuoteView, inner: Lang, s: Reading) -> Lang {
    if o.raw_mode {
        inner
    } else {
        let quote = lang::one_of(set!['"' as u8], s);
        lang::cat(quote, lang::cat(inner, quote))
    }
}

/// What stands at the top of a regex cannot be built, where `set` holds what was built before.
pub open spec fn head_fails(flags: ParserFlags, set: ExprSet, head: Head) -> bool {
    match head {
        Head::Regex(p) => !pattern_ok(flags, p),
        Head::SearchRegex(p) => !pattern_ok(flags, p),
        Head::JsonQuote(o) => !names_valid(o),
        Head::StringEscape(o) => !escape::usable(o),
        Head::ExprRef(r) => !set.valid(r),
        Head::MultipleOf(d, _) => d == 0,
        Head::ByteSet(words) => words.len() != byteset::BYTESET_WORDS,
        _ => false,
    }
}

/// The error says why what stands at the top of a regex cannot be built.
pub open spec fn is_head_error(flags: ParserFlags, set: ExprSet, head: Head, e: Error) -> bool {
    match head {
        Head::Regex(p) => is_pattern_error(flags, p, e),
        Head::SearchRegex(p) => is_pattern_error(flags, p, e),
        Head::JsonQuote(o) => is_quote_error(o, e),
        Head::StringEscape(o) => escape::is_escape_error(o, e),
        Head::ExprRef(r) => !set.valid(r) && e is InvalidRef,
        Head::MultipleOf(d, _) => d == 0 && e is InvalidMultipleOf,
        Head::ByteSet(words) => words.len() != byteset::BYTESET_WORDS && e is InvalidByteSetLen,
        _ => false,
    }
}

/// The regex cannot be built: it, or a part of it, is refused.
pub open spec fn fails(flags: ParserFlags, set: ExprSet, a: Ast) -> bool
    decreases a,
{
    ||| head_fails(flags, set, a.head)
    ||| exists|k: int| 0 <= k < a.args.len() && fails(flags, set, #[trigger] a.args[k])
}

/// The error is that of the first part that cannot be built, or, where all can, that of the regex
/// itself.
pub open spec fn is_ast_error(flags: ParserFlags, set: ExprSet, a: Ast, e: Error) -> bool
    decreases a,
{
    ||| {
        &&& forall|j: int| 0 <= j < a.args.len() ==> !fails(flags, set, #[trigger] a.args[j])
        &&& is_head_error(flags, set, a.head, e)
    }
    ||| exists|k: int|
        0 <= k < a.args.len() && is_ast_error(flags, set, #[trigger] a.args[k], e) && forall|j: int|
            0 <= j < k ==> !fails(flags, set, #[trigger] a.args[j])
}

/// The pattern has a capture that is named `stop`.
pub open spec fn pattern_marks(flags: ParserFlags, p: Seq<char>) -> bool {
    syntax::parsed(flags, p) matches Ok(t) && pattern::has_stop(t)
}

/// The regex is a lookahead: one of its own, a pattern that is a capture named `stop`, or the
/// escaped form of such a regex.
pub open spec fn is_lookahead(flags: ParserFlags, a: Ast) -> bool
    decreases a,
{
    match a.head {
        Head::LookAhead => true,
        Head::Regex(p) => syntax::parsed(flags, p) matches Ok(t) && pattern::is_stop_capture(t),
        Head::StringEscape(_) => a.args.len() > 0 && is_lookahead(flags, a.args[0]),
        Head::JsonQuote(q) => q.raw_mode && a.args.len() > 0 && is_lookahead(flags, a.args[0]),
        _ => false,
    }
}

/// The regex asks for a lookahead, by itself or in a pattern.
pub open spec fn marks(flags: ParserFlags, a: Ast) -> bool
    decreases a,
{
    ||| a.head is LookAhead
    ||| a.head matches Head::Regex(p) && pattern_marks(flags, p)
    ||| a.head matches Head::SearchRegex(p) && pattern_marks(flags, p)
    ||| exists|k: int| 0 <= k < a.args.len() && marks(flags, #[trigger] a.args[k])
}

/// The regex is built of bytes and patterns alone, by alternation, concatenation and repetition, and
/// asks for no lookahead.
pub open spec fn is_clear(flags: ParserFlags, a: Ast) -> bool
    decreases a,
{
    &&& match a.head {
        Head::Or | Head::Concat | Head::Repeat(_, _) | Head::EmptyString | Head::NoMatch => true,
        Head::Literal(_) | Head::ByteLiteral(_) | Head::Byte(_) | Head::ByteSet(_) => true,
        Head::Regex(p) | Head::SearchRegex(p) => !pattern_marks(flags, p),
        _ => false,
    }
    &&& forall|k: int| 0 <= k < a.args.len() ==> is_clear(flags, #[trigger] a.args[k])
}

/// The pattern, spelled out, of a regex that is one.
pub open spec fn spelled_out(flags: ParserFlags, a: Ast) -> Option<Syntax> {
    match a.head {
        Head::Regex(p) => match syntax::parsed(flags, p) {
            Ok(t) => Some(unfold::plain_form(t, false)),
            Err(_) => None,
        },
        Head::SearchRegex(p) => match syntax::parsed(flags, p) {
            Ok(t) => Some(unfold::plain_form(t, true)),
            Err(_) => None,
        },
        _ => None,
    }
}

/// The language of a regex that can be built, where `set` holds what was built before.
pub open spec fn ast_lang(flags: ParserFlags, set: ExprSet, a: Ast, s: Reading) -> Lang
    decreases a, 0nat,
{
    match a.head {
        Head::And => |w: Seq<u8>|
            lang::written(s, w) && forall|k: int|
                0 <= k < a.args.len() ==> ast_lang(flags, set, #[trigger] a.args[k], s)(w),
        Head::Or => |w: Seq<u8>|
            exists|k: int|
                0 <= k < a.args.len() && ast_lang(flags, set, #[trigger] a.args[k], s)(w),
        Head::Concat => concat_lang(flags, set, a.args, 0, s),
        Head::LookAhead => if a.args.len() > 0 {
            ast_lang(flags, set, a.args[0], s)
        } else {
            lang::none()
        },
        Head::Not => if a.args.len() > 0 {
            lang::complement(ast_lang(flags, set, a.args[0], s), s)
        } else {
            lang::none()
        },
        Head::Repeat(min, max) => if a.args.len() > 0 {
            lang::repeat(ast_lang(flags, set, a.args[0], s), min as nat, expr::max_bound(max))
        } else {
            lang::none()
        },
        Head::JsonQuote(o) => if a.args.len() > 0 {
            quoted(
                o,
                ast_lang(flags, set, a.args[0], quote::through(json_quote::escape_view(o), s)),
                s,
            )
        } else {
            lang::none()
        },
        Head::StringEscape(o) => if a.args.len() > 0 {
            ast_lang(flags, set, a.args[0], quote::through(o, s))
        } else {
            lang::none()
        },
        Head::MultipleOf(d, scale) => image::image(number::multiples(d as nat, scale as nat), s),
        Head::EmptyString => lang::epsilon(),
        Head::NoMatch => lang::none(),
        Head::Regex(p) => pattern_lang(flags, p, false, s),
        Head::SearchRegex(p) => pattern_lang(flags, p, true, s),
        Head::Literal(t) => lang::literal(vstd::utf8::encode_utf8(t), s),
        Head::ByteLiteral(bytes) => lang::literal(bytes, s),
        Head::Byte(b) => lang::one_of(set![b], s),
        Head::ByteSet(words) => lang::one_of(byteset::byteset(words), s),
        Head::ExprRef(r) => set.lang(r, s),
    }
}

/// The language of the regexes from the `k`-th on, one after another.
pub open spec fn concat_lang(
    flags: ParserFlags,
    set: ExprSet,
    args: Seq<Ast>,
    k: nat,
    s: Reading,
) -> Lang
    decreases args, args.len() - k,
{
    if k < args.len() {
        lang::cat(
            ast_lang(flags, set, args[k as int], s),
            concat_lang(flags, set, args, k + 1, s),
        )
    } else {
        lang::epsilon()
    }
}

/// The expression of a regex that is the same in every set: a reference stands for itself, and the
/// empty string and nothing have their places.
pub open spec fn fixed_ref(a: Ast) -> Option<ExprRef> {
    match a.head {
        Head::ExprRef(r) => Some(r),
        Head::EmptyString => Some(ExprRef { id: 0 }),
        Head::NoMatch => Some(ExprRef { id: 1 }),
        Head::Concat => if a.args.len() == 0 {
            Some(ExprRef { id: 0 })
        } else {
            None
        },
        Head::Or => if a.args.len() == 0 {
            Some(ExprRef { id: 1 })
        } else {
            None
        },
        _ => None,
    }
}

/// The languages of several regexes.
pub open spec fn ast_langs(flags: ParserFlags, set: ExprSet, args: Seq<Ast>, s: Reading) -> Seq<Lang> {
    args.map_values(|a: Ast| ast_lang(flags, set, a, s))
}

proof fn lemma_concat_from(flags: ParserFlags, set: ExprSet, args: Seq<Ast>, k: nat, s: Reading)
    requires
        k <= args.len(),
    ensures
        concat_lang(flags, set, args, k, s) == lang::cat_all(
            ast_langs(flags, set, args, s).skip(k as int),
        ),
    decreases args.len() - k,
{
    let ls = ast_langs(flags, set, args, s);
    if k < args.len() {
        lemma_concat_from(flags, set, args, k + 1, s);
        assert(ls.skip(k as int).skip(1) =~= ls.skip((k + 1) as int));
        assert(ls.skip(k as int)[0] == ast_lang(flags, set, args[k as int], s));
    }
}

/// What can be built can be built when more was built before.
pub proof fn buildable_kept(flags: ParserFlags, after: ExprSet, before: ExprSet, a: Ast)
    requires
        after.keeps(&before),
        !fails(flags, before, a),
    ensures
        !fails(flags, after, a),
    decreases a,
{
    if let Head::ExprRef(r) = a.head {
        assert(before.valid(r));
        assert(after.valid(r));
    }
    assert forall|k: int| 0 <= k < a.args.len() implies !fails(
        flags,
        after,
        #[trigger] a.args[k],
    ) by {
        buildable_kept(flags, after, before, a.args[k]);
    }
}

/// The language of a regex that can be built stays the same when more is built.
pub proof fn ast_lang_kept(
    flags: ParserFlags,
    after: ExprSet,
    before: ExprSet,
    a: Ast,
    s: Reading,
)
    requires
        after.keeps(&before),
        !fails(flags, before, a),
    ensures
        ast_lang(flags, after, a, s) == ast_lang(flags, before, a, s),
    decreases a, 0nat,
{
    let l = ast_lang(flags, after, a, s);
    let m = ast_lang(flags, before, a, s);
    assert forall|k: int| 0 <= k < a.args.len() implies !fails(
        flags,
        before,
        #[trigger] a.args[k],
    ) by {}
    match a.head {
        Head::And => {
            assert forall|k: int| 0 <= k < a.args.len() implies ast_lang(
                flags,
                after,
                #[trigger] a.args[k],
                s,
            ) == ast_lang(flags, before, a.args[k], s) by {
                ast_lang_kept(flags, after, before, a.args[k], s);
            }
            assert(l =~= m);
        },
        Head::Or => {
            assert forall|k: int| 0 <= k < a.args.len() implies ast_lang(
                flags,
                after,
                #[trigger] a.args[k],
                s,
            ) == ast_lang(flags, before, a.args[k], s) by {
                ast_lang_kept(flags, after, before, a.args[k], s);
            }
            assert(l =~= m);
        },
        Head::Concat => {
            lemma_concat_kept(flags, after, before, a.args, 0, s);
        },
        Head::JsonQuote(q) => {
            if a.args.len() > 0 {
                let o = json_quote::escape_view(q);
                ast_lang_kept(flags, after, before, a.args[0], quote::through(o, s));
            }
        },
        Head::StringEscape(o) => {
            if a.args.len() > 0 {
                ast_lang_kept(flags, after, before, a.args[0], quote::through(o, s));
            }
        },
        Head::ExprRef(r) => {
            assert(before.valid(r));
            assert(after.tree(r) == before.tree(r));
        },
        _ => {
            if a.args.len() > 0 {
                ast_lang_kept(flags, after, before, a.args[0], s);
            }
        },
    }
}

proof fn lemma_concat_kept(
    flags: ParserFlags,
    after: ExprSet,
    before: ExprSet,
    args: Seq<Ast>,
    k: nat,
    s: Reading,
)
    requires
        after.keeps(&before),
        forall|j: int| 0 <= j < args.len() ==> !fails(flags, before, #[trigger] args[j]),
    ensures
        concat_lang(flags, after, args, k, s) == concat_lang(flags, before, args, k, s),
    decreases args, args.len() - k,
{
    if k < args.len() {
        ast_lang_kept(flags, after, before, args[k as int], s);
        lemma_concat_kept(flags, after, before, args, k + 1, s);
    }
}

/// The language of a list of regexes is that of the operation on their languages.
pub proof fn ast_lang_of_list(flags: ParserFlags, set: ExprSet, a: Ast, s: Reading)
    ensures
        a.head is And ==> ast_lang(flags, set, a, s) == lang::intersection(
            ast_langs(flags, set, a.args, s),
            s,
        ),
        a.head is Or ==> ast_lang(flags, set, a, s) == lang::union(
            ast_langs(flags, set, a.args, s),
        ),
        a.head is Concat ==> ast_lang(flags, set, a, s) == lang::cat_all(
            ast_langs(flags, set, a.args, s),
        ),
{
    let l = ast_lang(flags, set, a, s);
    let ls = ast_langs(flags, set, a.args, s);
    if a.head is And {
        let r = lang::intersection(ls, s);
        assert forall|w: Seq<u8>| #[trigger] l(w) == r(w) by {
            if l(w) {
                assert forall|k: int| 0 <= k < ls.len() implies (#[trigger] ls[k])(w) by {
                    assert(ast_lang(flags, set, a.args[k], s)(w));
                }
            }
            if r(w) {
                assert forall|k: int| 0 <= k < a.args.len() implies ast_lang(
                    flags,
                    set,
                    #[trigger] a.args[k],
                    s,
                )(w) by {
                    assert(ls[k](w));
                }
            }
        }
        assert(l =~= r);
    }
    if a.head is Or {
        let r = lang::union(ls);
        assert forall|w: Seq<u8>| #[trigger] l(w) == r(w) by {
            if l(w) {
                let k = choose|k: int|
                    0 <= k < a.args.len() && ast_lang(flags, set, #[trigger] a.args[k], s)(w);
                assert(ls[k](w));
            }
            if r(w) {
                let k = choose|k: int| 0 <= k < ls.len() && (#[trigger] ls[k])(w);
                assert(ast_lang(flags, set, a.args[k], s)(w));
            }
        }
        assert(l =~= r);
    }
    if a.head is Concat {
        lemma_concat_from(flags, set, a.args, 0, s);
        assert(ls.skip(0) =~= ls);
    }
}

} // verus!
