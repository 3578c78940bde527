//! Regexes as they are asked for.

use crate::escape::{EscapeView, StringEscapeOptions};
use crate::expr::ExprRef;
use crate::json_quote::{JsonQuoteOptions, JsonQuoteView};
use crate::util::copied;
use vstd::prelude::*;

verus! {

/// `core::slice::from_ref` makes a slice of the one value.
pub assume_specification<T>[ core::slice::from_ref::<T> ](s: &T) -> (r: &[T])
    ensures
        r@ == seq![*s],
;

/// A regex to be built.
pub enum RegexAst {
    /// Intersection of the regexes
    And(Vec<RegexAst>),
    /// Union of the regexes
    Or(Vec<RegexAst>),
    /// Concatenation of the regexes
    Concat(Vec<RegexAst>),
    /// Matches the regex; should be at the end of the main regex.
    /// The expression keeps the mark of the lookahead; [`crate::Regex`] has no way to ask which part
    /// of a matched text the lookahead took, so the length of that part cannot be recovered from it.
    LookAhead(Box<RegexAst>),
    /// Matches everything the regex doesn't match.
    /// Can lead to invalid utf8.
    Not(Box<RegexAst>),
    /// Repeat the regex at least min times, at most max times
    /// u32::MAX means infinity
    Repeat(Box<RegexAst>, u32, u32),
    /// MultipleOf(d, s) matches if the input, interpreted as decimal ASCII number, is a multiple of
    /// d*10^-s. EmptyString is not included.
    MultipleOf(u32, u32),
    /// Matches the empty string. Same as Concat([]).
    EmptyString,
    /// Matches nothing. Same as Or([]).
    NoMatch,
    /// A pattern in the syntax of the regex_syntax crate.
    /// This assumes the regex is implicitly anchored.
    /// It allows ^$ only at the beginning and end of the regex.
    Regex(String),
    /// A pattern in the syntax of the regex_syntax crate that is not assumed to be anchored.
    /// This will add (.*) to the beginning and end of the regex if it doesn't already have
    /// anchors.
    SearchRegex(String),
    /// Matches this string only
    Literal(String),
    /// Matches this string of bytes only. Can lead to invalid utf8.
    ByteLiteral(Vec<u8>),
    /// Matches this byte only. If byte is not in 0..127, it may lead to invalid utf8.
    Byte(u8),
    /// Matches any byte in the set, expressed as bitset.
    /// Can lead to invalid utf8 if the set is not a subset of 0..127
    ByteSet(Vec<u32>),
    /// Quote the regex as a JSON string.
    /// For example, `[A-Z\n]+` becomes `([A-Z]|\\n)+`.
    JsonQuote(Box<RegexAst>, JsonQuoteOptions),
    /// Escape the regex as a string literal using configurable escape options.
    ///
    /// Transforms a regex R into R' such that strings matching R', when unescaped according to the
    /// given [`StringEscapeOptions`], produce strings matching R.
    StringEscape(Box<RegexAst>, StringEscapeOptions),
    /// Reference previously built regex
    ExprRef(ExprRef),
}

/// What stands at the top of a regex.
pub enum Head {
    And,
    Or,
    Concat,
    LookAhead,
    Not,
    Repeat(u32, u32),
    MultipleOf(u32, u32),
    EmptyString,
    NoMatch,
    Regex(Seq<char>),
    SearchRegex(Seq<char>),
    Literal(Seq<char>),
    ByteLiteral(Seq<u8>),
    Byte(u8),
    ByteSet(Seq<u32>),
    JsonQuote(JsonQuoteView),
    StringEscape(EscapeView),
    ExprRef(ExprRef),
}

/// What a [`RegexAst`] holds: what stands at its top, and its parts.
pub struct Ast {
    pub head: Head,
    pub args: Seq<Ast>,
}

/// What a [`RegexAst`] holds.
pub open spec fn ast_view(a: RegexAst) -> Ast
    decreases a,
{
    match a {
        RegexAst::And(v) => Ast {
            head: Head::And,
            args: Seq::new(
                v@.len(),
                |i: int|
                    if 0 <= i < v@.len() {
                        ast_view(v@[i])
                    } else {
                        arbitrary()
                    },
            ),
        },
        RegexAst::Or(v) => Ast {
            head: Head::Or,
            args: Seq::new(
                v@.len(),
                |i: int|
                    if 0 <= i < v@.len() {
                        ast_view(v@[i])
                    } else {
                        arbitrary()
                    },
            ),
        },
        RegexAst::Concat(v) => Ast {
            head: Head::Concat,
            args: Seq::new(
                v@.len(),
                |i: int|
                    if 0 <= i < v@.len() {
                        ast_view(v@[i])
                    } else {
                        arbitrary()
                    },
            ),
        },
        RegexAst::LookAhead(b) => Ast { head: Head::LookAhead, args: seq![ast_view(*b)] },
        RegexAst::Not(b) => Ast { head: Head::Not, args: seq![ast_view(*b)] },
        RegexAst::Repeat(b, min, max) => Ast {
            head: Head::Repeat(min, max),
            args: seq![ast_view(*b)],
        },
        RegexAst::MultipleOf(d, s) => Ast { head: Head::MultipleOf(d, s), args: seq![] },
        RegexAst::EmptyString => Ast { head: Head::EmptyString, args: seq![] },
        RegexAst::NoMatch => Ast { head: Head::NoMatch, args: seq![] },
        RegexAst::Regex(s) => Ast { head: Head::Regex(s@), args: seq![] },
        RegexAst::SearchRegex(s) => Ast { head: Head::SearchRegex(s@), args: seq![] },
        RegexAst::Literal(s) => Ast { head: Head::Literal(s@), args: seq![] },
        RegexAst::ByteLiteral(s) => Ast { head: Head::ByteLiteral(s@), args: seq![] },
        RegexAst::Byte(b) => Ast { head: Head::Byte(b), args: seq![] },
        RegexAst::ByteSet(bs) => Ast { head: Head::ByteSet(bs@), args: seq![] },
        RegexAst::JsonQuote(b, o) => Ast { head: Head::JsonQuote(o@), args: seq![ast_view(*b)] },
        RegexAst::StringEscape(b, o) => Ast {
            head: Head::StringEscape(o@),
            args: seq![ast_view(*b)],
        },
        RegexAst::ExprRef(r) => Ast { head: Head::ExprRef(r), args: seq![] },
    }
}

impl View for RegexAst {
    type V = Ast;

    open spec fn view(&self) -> Ast {
        ast_view(*self)
    }
}

/// What several [`RegexAst`] hold.
pub open spec fn ast_views(v: Seq<RegexAst>) -> Seq<Ast> {
    v.map_values(|a: RegexAst| a@)
}

proof fn lemma_list_view(a: RegexAst)
    ensures
        a matches RegexAst::And(v) ==> a@ == (Ast { head: Head::And, args: ast_views(v@) }),
        a matches RegexAst::Or(v) ==> a@ == (Ast { head: Head::Or, args: ast_views(v@) }),
        a matches RegexAst::Concat(v) ==> a@ == (Ast { head: Head::Concat, args: ast_views(v@) }),
{
    match a {
        RegexAst::And(v) => {
            assert(a@.args =~= ast_views(v@));
        },
        RegexAst::Or(v) => {
            assert(a@.args =~= ast_views(v@));
        },
        RegexAst::Concat(v) => {
            assert(a@.args =~= ast_views(v@));
        },
        _ => {},
    }
}

/// The name of what stands at the top of a regex.
pub open spec fn tag_text(head: Head) -> Seq<char> {
    match head {
        Head::And => "And"@,
        Head::Or => "Or"@,
        Head::Concat => "Concat"@,
        Head::LookAhead => "LookAhead"@,
        Head::Not => "Not"@,
        Head::EmptyString => "EmptyString"@,
        Head::NoMatch => "NoMatch"@,
        Head::Regex(_) => "Regex"@,
        Head::SearchRegex(_) => "SearchRegex"@,
        Head::Literal(_) => "Literal"@,
        Head::ByteLiteral(_) => "ByteLiteral"@,
        Head::ExprRef(_) => "ExprRef"@,
        Head::Repeat(_, _) => "Repeat"@,
        Head::Byte(_) => "Byte"@,
        Head::ByteSet(_) => "ByteSet"@,
        Head::MultipleOf(_, _) => "MultipleOf"@,
        Head::JsonQuote(_) => "JsonQuote"@,
        Head::StringEscape(_) => "StringEscape"@,
    }
}

fn cloned_asts(v: &Vec<RegexAst>) -> (r: Vec<RegexAst>)
    ensures
        ast_views(r@) == ast_views(v@),
    decreases v,
{
    let mut r: Vec<RegexAst> = Vec::new();
    let mut i: usize = 0;
    while i < v.len()
        invariant
            i <= v@.len(),
            r@.len() == i,
            forall|k: int| 0 <= k < i ==> (#[trigger] r@[k])@ == v@[k]@,
        decreases v@.len() - i,
    {
        proof {
            assert(decreases_to!(v => v@));
            assert(decreases_to!(v@ => v@[i as int]));
        }
        let a: RegexAst = v[i].clone();
        r.push(a);
        i = i + 1;
    }
    assert(ast_views(r@) =~= ast_views(v@));
    r
}

impl Clone for RegexAst {
    fn clone(&self) -> (r: RegexAst)
        ensures
            r@ == self@,
        decreases self,
    {
        let r: RegexAst = match self {
            RegexAst::And(v) => RegexAst::And(cloned_asts(v)),
            RegexAst::Or(v) => RegexAst::Or(cloned_asts(v)),
            RegexAst::Concat(v) => RegexAst::Concat(cloned_asts(v)),
            RegexAst::LookAhead(b) => RegexAst::LookAhead(Box::new((**b).clone())),
            RegexAst::Not(b) => RegexAst::Not(Box::new((**b).clone())),
            RegexAst::Repeat(b, min, max) => RegexAst::Repeat(
                Box::new((**b).clone()),
                *min,
                *max,
            ),
            RegexAst::MultipleOf(d, s) => RegexAst::MultipleOf(*d, *s),
            RegexAst::EmptyString => RegexAst::EmptyString,
            RegexAst::NoMatch => RegexAst::NoMatch,
            RegexAst::Regex(s) => RegexAst::Regex(s.clone()),
            RegexAst::SearchRegex(s) => RegexAst::SearchRegex(s.clone()),
            RegexAst::Literal(s) => RegexAst::Literal(s.clone()),
            RegexAst::ByteLiteral(s) => RegexAst::ByteLiteral(copied(s.as_slice())),
            RegexAst::Byte(b) => RegexAst::Byte(*b),
            RegexAst::ByteSet(bs) => RegexAst::ByteSet(copied(bs.as_slice())),
            RegexAst::JsonQuote(b, o) => RegexAst::JsonQuote(Box::new((**b).clone()), o.clone()),
            RegexAst::StringEscape(b, o) => RegexAst::StringEscape(
                Box::new((**b).clone()),
                o.clone(),
            ),
            RegexAst::ExprRef(e) => RegexAst::ExprRef(*e),
        };
        proof {
            lemma_list_view(*self);
            lemma_list_view(r);
        }
        r
    }
}

/// What matches what `small` matches and `big` does not.
pub open spec fn difference(small: Ast, big: Ast) -> Ast {
    Ast {
        head: Head::And,
        args: seq![small, Ast { head: Head::Not, args: seq![big] }],
    }
}

impl RegexAst {
    /// Regex is empty iff self ⊆ big
    pub fn contained_in(&self, big: &RegexAst) -> (r: RegexAst)
        ensures
            r@ == difference(self@, big@),
    {
        let small: RegexAst = self.clone();
        let rest: RegexAst = RegexAst::Not(Box::new(big.clone()));
        let ghost g = rest;
        let args: Vec<RegexAst> = vec![small, rest];
        let r: RegexAst = RegexAst::And(args);
        proof {
            lemma_list_view(r);
            assert(g@.args =~= seq![big@]);
            assert(ast_views(args@) =~= difference(self@, big@).args);
        }
        r
    }

    /// The parts of the regex.
    pub fn get_args(&self) -> (r: &[RegexAst])
        ensures
            ast_views(r@) == self@.args,
            forall|k: int| 0 <= k < r@.len() ==> decreases_to!(self => #[trigger] r@[k]),
    {
        proof {
            lemma_list_view(*self);
        }
        let r: &[RegexAst] = match self {
            RegexAst::And(asts) | RegexAst::Or(asts) | RegexAst::Concat(asts) => asts.as_slice(),
            RegexAst::LookAhead(ast)
            | RegexAst::Not(ast)
            | RegexAst::Repeat(ast, _, _)
            | RegexAst::JsonQuote(ast, _)
            | RegexAst::StringEscape(ast, _) => core::slice::from_ref(&**ast),
            RegexAst::EmptyString
            | RegexAst::MultipleOf(_, _)
            | RegexAst::NoMatch
            | RegexAst::Regex(_)
            | RegexAst::SearchRegex(_)
            | RegexAst::Literal(_)
            | RegexAst::ByteLiteral(_)
            | RegexAst::ExprRef(_)
            | RegexAst::Byte(_)
            | RegexAst::ByteSet(_) => &[],
        };
        assert(ast_views(r@) =~= self@.args);
        r
    }

    /// The name of what stands at the top of the regex.
    pub fn tag(&self) -> (r: &'static str)
        ensures
            r@ == tag_text(self@.head),
    {
        match self {
            RegexAst::And(_) => "And",
            RegexAst::Or(_) => "Or",
            RegexAst::Concat(_) => "Concat",
            RegexAst::LookAhead(_) => "LookAhead",
            RegexAst::Not(_) => "Not",
            RegexAst::EmptyString => "EmptyString",
            RegexAst::NoMatch => "NoMatch",
            RegexAst::Regex(_) => "Regex",
            RegexAst::SearchRegex(_) => "SearchRegex",
            RegexAst::Literal(_) => "Literal",
            RegexAst::ByteLiteral(_) => "ByteLiteral",
            RegexAst::ExprRef(_) => "ExprRef",
            RegexAst::Repeat(_, _, _) => "Repeat",
            RegexAst::Byte(_) => "Byte",
            RegexAst::ByteSet(_) => "ByteSet",
            RegexAst::MultipleOf(_, _) => "MultipleOf",
            RegexAst::JsonQuote(_, _) => "JsonQuote",
            RegexAst::StringEscape(_, _) => "StringEscape",
        }
    }
}

} // verus!
