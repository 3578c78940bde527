//! Texts of expressions and regexes.

use crate::ast;
use crate::ast::{Ast, Head, RegexAst};
use crate::byteset;
use crate::byteset::BYTESET_WORDS;
use crate::expr;
use crate::expr::{get_args, Expr, ExprRef, ExprSet};
use crate::pp;
use crate::pp::{
    byte_to_string, byteset_to_string, debug_string, lossy_string, push_bytes, push_escape,
    push_quote, write_regex,
};
use crate::text;
use crate::text::push_decimal;
use vstd::prelude::*;

verus! {

/// How many bytes a text takes.
pub open spec fn size(t: Seq<char>) -> nat {
    vstd::utf8::encode_utf8(t).len()
}

/// A step of writing an expression: its start, or the end of one.
pub enum Piece {
    Open(ExprRef),
    Close,
}

/// The steps of writing an expression.
pub open spec fn expr_pieces(set: ExprSet, e: ExprRef) -> Seq<Piece>
    decreases e.id, 1int, 0int,
{
    if set.valid(e) {
        seq![Piece::Open(e)] + pieces_from(set, expr::args(set.node(e)), 0, e.id as int) + seq![
            Piece::Close,
        ]
    } else {
        seq![Piece::Open(e), Piece::Close]
    }
}

/// The steps of writing the expressions from the `k`-th on, which lie below `bound`.
pub open spec fn pieces_from(set: ExprSet, v: Seq<ExprRef>, k: nat, bound: int) -> Seq<Piece>
    decreases bound, 0int, v.len() - k,
{
    if k < v.len() && 0 <= v[k as int].id < bound {
        expr_pieces(set, v[k as int]) + pieces_from(set, v, k + 1, bound)
    } else {
        seq![]
    }
}

/// The name of an expression, and what it holds besides its parts.
pub open spec fn expr_head_text(e: Expr) -> Seq<char> {
    match e {
        Expr::EmptyString => "EmptyString"@,
        Expr::NoMatch => "NoMatch"@,
        Expr::Byte(b) => "Byte "@ + pp::byte_text(b),
        Expr::ByteSet(words) => "ByteSet "@ + pp::byteset_text(byteset::byteset(words@)),
        Expr::ByteConcat(bytes, _) => "ByteConcat "@ + pp::bytes_text(bytes@),
        Expr::RemainderIs { divisor, remainder, scale, fractional_part, forms: _ } => "RemainderIs "@
            + text::decimal(divisor as nat) + " "@ + text::decimal(remainder as nat) + " "@
            + text::decimal(scale as nat) + (if fractional_part {
            " fractional"@
        } else {
            ""@
        }),
        Expr::Lookahead(_, offset) => "Lookahead "@ + text::decimal(offset as nat),
        Expr::Not(_) => "Not"@,
        Expr::Repeat(_, min, max) => "Repeat{"@ + text::decimal(min as nat) + ","@ + text::decimal(
            max as nat,
        ) + "}"@,
        Expr::Concat(_, _) => "Concat"@,
        Expr::Or(_) => "Or"@,
        Expr::And(_) => "And"@,
    }
}

/// What the steps add to a text, until it takes `max_len` bytes.
pub open spec fn render_pieces(
    set: ExprSet,
    dst: Seq<char>,
    pieces: Seq<Piece>,
    max_len: usize,
) -> Seq<char>
    decreases pieces.len(),
{
    if pieces.len() == 0 {
        dst
    } else if size(dst) >= max_len {
        dst + "..."@
    } else {
        render_pieces(set, dst + piece_text(set, pieces[0]), pieces.skip(1), max_len)
    }
}

/// What a step adds to a text.
pub open spec fn piece_text(set: ExprSet, piece: Piece) -> Seq<char> {
    match piece {
        Piece::Close => ")"@,
        Piece::Open(e) => " ("@ + if set.valid(e) {
            expr_head_text(set.node(e))
        } else {
            "?"@
        },
    }
}

/// What the steps add to a text that is not cut.
pub open spec fn pieces_text(set: ExprSet, pieces: Seq<Piece>) -> Seq<char>
    decreases pieces.len(),
{
    if pieces.len() == 0 {
        seq![]
    } else {
        piece_text(set, pieces[0]) + pieces_text(set, pieces.skip(1))
    }
}

/// The whole text of an expression.
pub open spec fn whole_text(set: ExprSet, e: ExprRef) -> Seq<char> {
    pieces_text(set, expr_pieces(set, e))
}

/// A text that has room is not cut.
proof fn lemma_pieces_fit(set: ExprSet, dst: Seq<char>, pieces: Seq<Piece>, max_len: usize)
    requires
        size(dst + pieces_text(set, pieces)) <= max_len,
    ensures
        render_pieces(set, dst, pieces, max_len) == dst + pieces_text(set, pieces),
    decreases pieces.len(),
{
    if pieces.len() == 0 {
        assert(dst + pieces_text(set, pieces) =~= dst);
    } else {
        let added = piece_text(set, pieces[0]);
        let rest = pieces_text(set, pieces.skip(1));
        reveal_strlit(")");
        reveal_strlit(" (");
        lemma_size_join(dst, added + rest);
        lemma_size_join(added, rest);
        assert(added =~= seq![added[0]] + added.skip(1));
        lemma_size_join(seq![added[0]], added.skip(1));
        lemma_size_ascii(seq![added[0]]);
        assert(dst + added + rest =~= dst + (added + rest));
        lemma_pieces_fit(set, dst + added, pieces.skip(1), max_len);
    }
}

/// A text that takes at most `max_len` bytes is written whole.
pub proof fn whole_text_fits(set: ExprSet, e: ExprRef, max_len: usize)
    requires
        size(whole_text(set, e)) <= max_len,
    ensures
        expr_text(set, e, max_len) == whole_text(set, e),
{
    let pieces = expr_pieces(set, e);
    assert(seq![] + pieces_text(set, pieces) =~= pieces_text(set, pieces));
    lemma_pieces_fit(set, seq![], pieces, max_len);
}

/// The text of an expression.
pub open spec fn expr_text(set: ExprSet, e: ExprRef, max_len: usize) -> Seq<char> {
    render_pieces(set, seq![], expr_pieces(set, e), max_len)
}

/// The steps that are left to do, the last of `todo` first.
spec fn pending_pieces(set: ExprSet, todo: Seq<Option<ExprRef>>) -> Seq<Piece>
    decreases todo.len(),
{
    if todo.len() == 0 {
        seq![]
    } else {
        (match todo.last() {
            Some(e) => expr_pieces(set, e),
            None => seq![Piece::Close],
        }) + pending_pieces(set, todo.drop_last())
    }
}

/// Appends the name of an expression, and what it holds besides its parts.
fn push_expr_head(dst: &mut String, e: &Expr)
    requires
        *e matches Expr::ByteSet(words) ==> words@.len() == BYTESET_WORDS,
    ensures
        final(dst)@ == old(dst)@ + expr_head_text(*e),
{
    match e {
        Expr::EmptyString => dst.push_str("EmptyString"),
        Expr::NoMatch => dst.push_str("NoMatch"),
        Expr::Byte(b) => {
            dst.push_str("Byte ");
            let t: String = byte_to_string(*b);
            dst.push_str(t.as_str());
        },
        Expr::ByteSet(words) => {
            dst.push_str("ByteSet ");
            let t: String = byteset_to_string(words.as_slice());
            dst.push_str(t.as_str());
        },
        Expr::ByteConcat(bytes, _) => {
            dst.push_str("ByteConcat ");
            push_bytes(dst, bytes.as_slice());
        },
        Expr::RemainderIs { divisor, remainder, scale, fractional_part, forms: _ } => {
            dst.push_str("RemainderIs ");
            push_decimal(dst, *divisor as u64);
            dst.push_str(" ");
            push_decimal(dst, *remainder as u64);
            dst.push_str(" ");
            push_decimal(dst, *scale as u64);
            if *fractional_part {
                dst.push_str(" fractional");
            } else {
                dst.push_str("");
            }
        },
        Expr::Lookahead(_, offset) => {
            dst.push_str("Lookahead ");
            push_decimal(dst, *offset as u64);
        },
        Expr::Not(_) => dst.push_str("Not"),
        Expr::Repeat(_, min, max) => {
            dst.push_str("Repeat{");
            push_decimal(dst, *min as u64);
            dst.push_str(",");
            push_decimal(dst, *max as u64);
            dst.push_str("}");
        },
        Expr::Concat(_, _) => dst.push_str("Concat"),
        Expr::Or(_) => dst.push_str("Or"),
        Expr::And(_) => dst.push_str("And"),
    }
    assert(dst@ =~= old(dst)@ + expr_head_text(*e));
}

impl ExprSet {
    /// The text of an expression, cut where it takes `max_len` bytes.
    pub fn expr_to_string_max_len(&self, e: ExprRef, max_len: usize) -> (r: String)
        requires
            self.wf(),
        ensures
            r@ == expr_text(*self, e, max_len),
    {
        let mut dst: String = String::new();
        let mut todo: Vec<Option<ExprRef>> = vec![Some(e)];
        proof {
            assert(todo@.last() == Some(e) && todo@.drop_last().len() == 0);
            assert(pending_pieces(*self, todo@.drop_last()) =~= seq![]);
            assert(pending_pieces(*self, todo@) =~= expr_pieces(*self, e));
            assert(dst@ =~= seq![]);
        }
        while todo.len() > 0
            invariant
                self.wf(),
                render_pieces(*self, dst@, pending_pieces(*self, todo@), max_len) == expr_text(
                    *self,
                    e,
                    max_len,
                ),
            decreases pending_pieces(*self, todo@).len(),
        {
            let ghost before = todo@;
            let ghost rest = before.drop_last();
            let ghost pieces = pending_pieces(*self, before);
            let ghost d0 = dst@;
            let next: Option<Option<ExprRef>> = todo.pop();
            proof {
                assert(todo@ =~= rest);
            }
            if dst.as_str().as_bytes().len() >= max_len {
                dst.push_str("...");
                proof {
                    match before.last() {
                        Some(x) => {
                            assert(expr_pieces(*self, x).len() > 0);
                        },
                        None => {},
                    }
                }
                return dst;
            }
            match next {
                Some(Some(x)) => {
                    dst.push_str(" (");
                    todo.push(None);
                    proof {
                        assert(todo@.drop_last() =~= rest);
                    }
                    if self.is_valid(x) {
                        let node: &Expr = self.get(x);
                        push_expr_head(&mut dst, node);
                        let args: Vec<ExprRef> = get_args(node);
                        let ghost tail = seq![Piece::Close] + pending_pieces(*self, rest);
                        proof {
                            self.lemma_args_below(x);
                            assert(pending_pieces(*self, todo@) =~= pieces_from(
                                *self,
                                args@,
                                args@.len(),
                                x.id as int,
                            ) + tail);
                        }
                        let mut k: usize = args.len();
                        while k > 0
                            invariant
                                k <= args@.len(),
                                forall|n: int|
                                    0 <= n < args@.len() ==> (#[trigger] args@[n]).id < x.id,
                                pending_pieces(*self, todo@) == pieces_from(
                                    *self,
                                    args@,
                                    k as nat,
                                    x.id as int,
                                ) + tail,
                            decreases k,
                        {
                            k = k - 1;
                            let ghost t0 = todo@;
                            todo.push(Some(args[k]));
                            proof {
                                assert(todo@.drop_last() =~= t0);
                                assert(args@[k as int].id < x.id);
                                assert(pending_pieces(*self, todo@) =~= pieces_from(
                                    *self,
                                    args@,
                                    k as nat,
                                    x.id as int,
                                ) + tail);
                            }
                        }
                        proof {
                            assert(dst@ =~= d0 + (" ("@ + expr_head_text(self.node(x))));
                            assert(pieces.skip(1) =~= pending_pieces(*self, todo@));
                        }
                    } else {
                        dst.push_str("?");
                        proof {
                            assert(dst@ =~= d0 + (" ("@ + "?"@));
                            assert(pieces.skip(1) =~= pending_pieces(*self, todo@));
                        }
                    }
                },
                _ => {
                    dst.push_str(")");
                    proof {
                        assert(pieces.skip(1) =~= pending_pieces(*self, todo@));
                    }
                },
            }
        }
        dst
    }

    /// The text of an expression.
    pub fn expr_to_string(&self, e: ExprRef) -> (r: String)
        requires
            self.wf(),
        ensures
            r@ == expr_text(*self, e, usize::MAX),
    {
        self.expr_to_string_max_len(e, usize::MAX)
    }
}

/// A step of writing a regex: its start, or the end of one.
pub enum Event {
    Open(Ast),
    Close,
}

/// The steps of writing a regex.
pub open spec fn events(a: Ast) -> Seq<Event>
    decreases a, 0nat,
{
    seq![Event::Open(a)] + events_from(a.args, 0) + seq![Event::Close]
}

/// The steps of writing the regexes from the `k`-th on.
pub open spec fn events_from(args: Seq<Ast>, k: nat) -> Seq<Event>
    decreases args, args.len() - k,
{
    if k < args.len() {
        events(args[k as int]) + events_from(args, k + 1)
    } else {
        seq![]
    }
}

/// What is written of what stands at the top of a regex, after its name. `room` is what is left of
/// the length.
pub open spec fn detail_text(set: Option<ExprSet>, head: Head, room: usize) -> Seq<char> {
    match head {
        Head::And | Head::Or | Head::Concat | Head::LookAhead | Head::Not => seq![],
        Head::EmptyString | Head::NoMatch => seq![],
        Head::Byte(b) => " "@ + pp::byte_text(b),
        Head::ByteSet(words) => " "@ + if words.len() == BYTESET_WORDS {
            pp::byteset_text(byteset::byteset(words))
        } else {
            "invalid byteset len: "@ + text::decimal(words.len())
        },
        Head::SearchRegex(p) => " "@ + pp::pattern_text(p),
        Head::Regex(p) => " "@ + pp::pattern_text(p),
        Head::Literal(t) => " "@ + pp::debug_text(t),
        Head::ByteLiteral(bytes) => " "@ + pp::debug_text(pp::lossy_text(bytes)),
        Head::ExprRef(r) => " "@ + match set {
            Some(set) => expr_text(set, r, room),
            None => text::decimal(r.id as nat),
        },
        Head::Repeat(min, max) => "{"@ + text::decimal(min as nat) + ","@ + text::decimal(
            max as nat,
        ) + "} "@,
        Head::MultipleOf(d, scale) => if scale == 0 {
            " % "@ + text::decimal(d as nat) + " == 0 "@
        } else {
            " % "@ + text::decimal(d as nat) + "x10^-"@ + text::decimal(scale as nat) + " == 0"@
        },
        Head::JsonQuote(o) => " "@ + pp::quote_text(o),
        Head::StringEscape(o) => " "@ + pp::escape_text(o),
    }
}

/// What is left of the length after a text.
pub open spec fn room_after(t: Seq<char>, max_len: usize) -> usize {
    if size(t) <= max_len {
        (max_len - size(t)) as usize
    } else {
        0
    }
}

/// What the steps add to a text, until it takes `max_len` bytes.
pub open spec fn render(
    set: Option<ExprSet>,
    dst: Seq<char>,
    steps: Seq<Event>,
    max_len: usize,
) -> Seq<char>
    decreases steps.len(),
{
    if steps.len() == 0 {
        dst
    } else if size(dst) >= max_len {
        dst + "..."@
    } else {
        let next = match steps[0] {
            Event::Close => dst + ")"@,
            Event::Open(a) => {
                let named = dst + " ("@ + ast::tag_text(a.head);
                named + detail_text(set, a.head, room_after(named, max_len))
            },
        };
        render(set, next, steps.skip(1), max_len)
    }
}

/// What was written before stays: the text of a regex is appended to it.
pub proof fn render_appends(
    set: Option<ExprSet>,
    dst: Seq<char>,
    steps: Seq<Event>,
    max_len: usize,
)
    ensures
        dst.len() <= render(set, dst, steps, max_len).len(),
        render(set, dst, steps, max_len).take(dst.len() as int) == dst,
    decreases steps.len(),
{
    let r = render(set, dst, steps, max_len);
    if steps.len() == 0 || size(dst) >= max_len {
        assert(r.take(dst.len() as int) =~= dst);
    } else {
        let next = match steps[0] {
            Event::Close => dst + ")"@,
            Event::Open(a) => {
                let named = dst + " ("@ + ast::tag_text(a.head);
                named + detail_text(set, a.head, room_after(named, max_len))
            },
        };
        render_appends(set, next, steps.skip(1), max_len);
        assert(next.take(dst.len() as int) =~= dst);
        assert(r.take(dst.len() as int) =~= r.take(next.len() as int).take(dst.len() as int));
    }
}

/// The text of one step, where references are written by their number.
pub open spec fn event_text(step: Event) -> Seq<char> {
    match step {
        Event::Close => ")"@,
        Event::Open(a) => " ("@ + ast::tag_text(a.head) + detail_text(None, a.head, 0),
    }
}

/// The whole text of several steps.
pub open spec fn full_text(steps: Seq<Event>) -> Seq<char>
    decreases steps.len(),
{
    if steps.len() == 0 {
        seq![]
    } else {
        event_text(steps[0]) + full_text(steps.skip(1))
    }
}

/// The whole text of a regex.
pub open spec fn ast_text(a: Ast) -> Seq<char> {
    full_text(events(a))
}

/// The whole texts of the regexes from the `k`-th on, one after another.
pub open spec fn ast_texts(args: Seq<Ast>, k: nat) -> Seq<char>
    decreases args.len() - k,
{
    if k < args.len() {
        ast_text(args[k as int]) + ast_texts(args, k + 1)
    } else {
        seq![]
    }
}

proof fn lemma_size_join(a: Seq<char>, b: Seq<char>)
    ensures
        size(a + b) == size(a) + size(b),
    decreases a.len(),
{
    if a.len() == 0 {
        assert(a + b =~= b);
    } else {
        lemma_size_join(a.drop_first(), b);
        assert((a + b).drop_first() =~= a.drop_first() + b);
    }
}

proof fn lemma_size_ascii(t: Seq<char>)
    requires
        vstd::utf8::is_ascii_chars(t),
    ensures
        size(t) == t.len(),
{
    vstd::utf8::is_ascii_chars_encode_utf8(t);
}

proof fn lemma_full_join(a: Seq<Event>, b: Seq<Event>)
    ensures
        full_text(a + b) == full_text(a) + full_text(b),
    decreases a.len(),
{
    if a.len() == 0 {
        assert(a + b =~= b);
        assert(full_text(a) + full_text(b) =~= full_text(b));
    } else {
        lemma_full_join(a.skip(1), b);
        assert((a + b).skip(1) =~= a.skip(1) + b);
        assert(full_text(a + b) =~= full_text(a) + full_text(b));
    }
}

proof fn lemma_parts_text(args: Seq<Ast>, k: nat)
    ensures
        full_text(events_from(args, k)) == ast_texts(args, k),
    decreases args.len() - k,
{
    if k < args.len() {
        lemma_parts_text(args, k + 1);
        lemma_full_join(events(args[k as int]), events_from(args, k + 1));
    }
}

/// The text of a regex is its name with its details, followed by the texts of its parts, in
/// brackets.
pub proof fn text_of_parts(a: Ast)
    ensures
        ast_text(a) == " ("@ + ast::tag_text(a.head) + detail_text(None, a.head, 0) + ast_texts(
            a.args,
            0,
        ) + ")"@,
{
    let open = seq![Event::Open(a)];
    let close = seq![Event::Close];
    let parts = events_from(a.args, 0);
    lemma_full_join(open + parts, close);
    lemma_full_join(open, parts);
    lemma_parts_text(a.args, 0);
    assert(open.skip(1) =~= seq![]);
    assert(close.skip(1) =~= seq![]);
    assert(full_text(open.skip(1)) =~= seq![]);
    assert(full_text(open) =~= event_text(open[0]));
    assert(full_text(close) =~= ")"@);
}

/// Every step writes something.
proof fn lemma_event_size(step: Event)
    ensures
        size(event_text(step)) > 0,
        step is Close ==> size(event_text(step)) == 1,
{
    reveal_strlit(")");
    reveal_strlit(" (");
    lemma_size_ascii(")"@);
    lemma_size_ascii(" ("@);
    if let Event::Open(a) = step {
        lemma_size_join(" ("@ + ast::tag_text(a.head), detail_text(None, a.head, 0));
        lemma_size_join(" ("@, ast::tag_text(a.head));
    }
}

/// The text `p` starts `full` and is not all of it.
pub open spec fn proper_prefix(p: Seq<char>, full: Seq<char>) -> bool {
    p.len() < full.len() && full.take(p.len() as int) == p
}

proof fn lemma_render_text(dst: Seq<char>, steps: Seq<Event>, max_len: usize)
    requires
        steps.len() > 0 ==> steps.last() is Close,
    ensures
        size(dst) + size(full_text(steps)) <= max_len ==> render(None, dst, steps, max_len) == dst
            + full_text(steps),
        steps.len() > 0 && size(dst) + size(full_text(steps)) > max_len ==> exists|p: Seq<char>| #[trigger]
            proper_prefix(p, full_text(steps)) && size(dst) + size(p) >= max_len && render(
                None,
                dst,
                steps,
                max_len,
            ) == dst + p + "..."@,
    decreases steps.len(),
{
    let full = full_text(steps);
    let r = render(None, dst, steps, max_len);
    if steps.len() == 0 {
        assert(dst + full =~= dst);
    } else {
        let first = event_text(steps[0]);
        let rest = steps.skip(1);
        lemma_event_size(steps[0]);
        lemma_size_join(first, full_text(rest));
        lemma_size_join(dst, first);
        if size(dst) >= max_len {
            let p = Seq::<char>::empty();
            assert(first.len() > 0) by {
                if first.len() == 0 {
                    assert(first =~= seq![]);
                }
            }
            assert(full.take(0) =~= p);
            assert(proper_prefix(p, full));
            assert(dst + p + "..."@ =~= dst + "..."@);
        } else {
            assert(r == render(None, dst + first, rest, max_len)) by {
                if let Event::Open(a) = steps[0] {
                    assert(dst + " ("@ + ast::tag_text(a.head) + detail_text(None, a.head, 0)
                        =~= dst + first);
                }
            }
            assert(rest.len() > 0 ==> rest.last() == steps.last());
            lemma_render_text(dst + first, rest, max_len);
            assert((dst + first) + full_text(rest) =~= dst + full);
            if size(dst) + size(full) > max_len {
                if rest.len() == 0 {
                    assert(steps[0] == steps.last());
                    assert(full_text(rest) =~= seq![]);
                } else {
                    let q = choose|q: Seq<char>| #[trigger]
                        proper_prefix(q, full_text(rest)) && size(dst + first) + size(q) >= max_len
                            && r == dst + first + q + "..."@;
                    let p = first + q;
                    lemma_size_join(first, q);
                    assert(full.take(p.len() as int) =~= first + full_text(rest).take(
                        q.len() as int,
                    ));
                    assert(proper_prefix(p, full));
                    assert(dst + p + "..."@ =~= dst + first + q + "..."@);
                }
            }
        }
    }
}

/// Where the whole text of a regex fits, it is appended. Where it does not, a part of it is, which
/// fills the length, and three points.
pub proof fn text_is_cut(dst: Seq<char>, a: Ast, max_len: usize)
    ensures
        size(dst) + size(ast_text(a)) <= max_len ==> render(None, dst, events(a), max_len) == dst
            + ast_text(a),
        size(dst) + size(ast_text(a)) > max_len ==> exists|p: Seq<char>| #[trigger]
            proper_prefix(p, ast_text(a)) && size(dst) + size(p) >= max_len && render(
                None,
                dst,
                events(a),
                max_len,
            ) == dst + p + "..."@,
{
    assert(events(a).last() is Close);
    lemma_render_text(dst, events(a), max_len);
}

/// The steps that are left to do, the last of `todo` first.
spec fn pending(todo: Seq<Option<&RegexAst>>) -> Seq<Event>
    decreases todo.len(),
{
    if todo.len() == 0 {
        seq![]
    } else {
        (match todo.last() {
            Some(a) => events(a@),
            None => seq![Event::Close],
        }) + pending(todo.drop_last())
    }
}

/// The set of expressions, where there is one.
pub open spec fn set_of(exprset: Option<&ExprSet>) -> Option<ExprSet> {
    match exprset {
        Some(set) => Some(*set),
        None => None,
    }
}

impl RegexAst {
    /// Appends what is written of the top of the regex, after its name.
    fn push_detail(&self, dst: &mut String, max_len: usize, exprset: Option<&ExprSet>)
        requires
            exprset matches Some(set) ==> set.wf(),
        ensures
            final(dst)@ == old(dst)@ + detail_text(
                set_of(exprset),
                self@.head,
                room_after(old(dst)@, max_len),
            ),
    {
        let used: usize = dst.as_str().as_bytes().len();
        match self {
            RegexAst::And(_)
            | RegexAst::Or(_)
            | RegexAst::Concat(_)
            | RegexAst::LookAhead(_)
            | RegexAst::Not(_)
            | RegexAst::EmptyString
            | RegexAst::NoMatch => {},
            RegexAst::Byte(b) => {
                dst.push_str(" ");
                let t: String = byte_to_string(*b);
                dst.push_str(t.as_str());
            },
            RegexAst::ByteSet(words) => {
                dst.push_str(" ");
                if words.len() == BYTESET_WORDS {
                    let t: String = byteset_to_string(words.as_slice());
                    dst.push_str(t.as_str());
                } else {
                    dst.push_str("invalid byteset len: ");
                    push_decimal(dst, words.len() as u64);
                }
            },
            RegexAst::SearchRegex(p) => {
                dst.push_str(" ");
                write_regex(dst, p.as_str());
            },
            RegexAst::Regex(p) => {
                dst.push_str(" ");
                write_regex(dst, p.as_str());
            },
            RegexAst::Literal(s) => {
                dst.push_str(" ");
                let t: String = debug_string(s.as_str());
                dst.push_str(t.as_str());
            },
            RegexAst::ByteLiteral(bytes) => {
                dst.push_str(" ");
                let s: String = lossy_string(bytes.as_slice());
                let t: String = debug_string(s.as_str());
                dst.push_str(t.as_str());
            },
            RegexAst::ExprRef(r) => {
                dst.push_str(" ");
                match exprset {
                    Some(set) => {
                        let room: usize = if used <= max_len {
                            max_len - used
                        } else {
                            0
                        };
                        let t: String = set.expr_to_string_max_len(*r, room);
                        dst.push_str(t.as_str());
                    },
                    None => {
                        push_decimal(dst, r.id as u64);
                    },
                }
            },
            RegexAst::Repeat(_, min, max) => {
                dst.push_str("{");
                push_decimal(dst, *min as u64);
                dst.push_str(",");
                push_decimal(dst, *max as u64);
                dst.push_str("} ");
            },
            RegexAst::MultipleOf(d, scale) => {
                dst.push_str(" % ");
                push_decimal(dst, *d as u64);
                if *scale == 0 {
                    dst.push_str(" == 0 ");
                } else {
                    dst.push_str("x10^-");
                    push_decimal(dst, *scale as u64);
                    dst.push_str(" == 0");
                }
            },
            RegexAst::JsonQuote(_, o) => {
                dst.push_str(" ");
                push_quote(dst, o);
            },
            RegexAst::StringEscape(_, o) => {
                dst.push_str(" ");
                push_escape(dst, o);
            },
        }
        assert(dst@ =~= old(dst)@ + detail_text(
            set_of(exprset),
            self@.head,
            room_after(old(dst)@, max_len),
        ));
    }

    /// Appends the text of the regex, cut where all takes `max_len` bytes. References are written
    /// with the expressions they stand for, where these are given.
    pub fn write_to_str(&self, dst: &mut String, max_len: usize, exprset: Option<&ExprSet>)
        requires
            exprset matches Some(set) ==> set.wf(),
        ensures
            final(dst)@ == render(set_of(exprset), old(dst)@, events(self@), max_len),
    {
        let ghost set = set_of(exprset);
        let ghost target = render(set, dst@, events(self@), max_len);
        let mut todo: Vec<Option<&RegexAst>> = vec![Some(self)];
        proof {
            assert(todo@.last() == Some(self) && todo@.drop_last().len() == 0);
            assert(pending(todo@.drop_last()) =~= seq![]);
            assert(pending(todo@) =~= events(self@));
        }
        while todo.len() > 0
            invariant
                exprset matches Some(set) ==> set.wf(),
                set == set_of(exprset),
                target == render(set, old(dst)@, events(self@), max_len),
                render(set, dst@, pending(todo@), max_len) == target,
            decreases pending(todo@).len(),
        {
            let ghost before = todo@;
            let ghost rest = before.drop_last();
            let ghost steps = pending(before);
            let ghost d0 = dst@;
            let next: Option<Option<&RegexAst>> = todo.pop();
            proof {
                assert(todo@ =~= rest);
            }
            if dst.as_str().as_bytes().len() >= max_len {
                dst.push_str("...");
                proof {
                    match before.last() {
                        Some(x) => {
                            assert(events(x@).len() > 0);
                        },
                        None => {},
                    }
                }
                return ;
            }
            match next {
                Some(Some(x)) => {
                    dst.push_str(" (");
                    dst.push_str(x.tag());
                    x.push_detail(dst, max_len, exprset);
                    todo.push(None);
                    let args: &[RegexAst] = x.get_args();
                    let ghost parts = x@.args;
                    let ghost tail = seq![Event::Close] + pending(rest);
                    proof {
                        assert(todo@.drop_last() =~= rest);
                        assert(parts.len() == args@.len());
                        assert(pending(todo@) =~= events_from(parts, parts.len()) + tail);
                    }
                    let mut k: usize = args.len();
                    while k > 0
                        invariant
                            k <= args@.len(),
                            parts == ast::ast_views(args@),
                            pending(todo@) == events_from(parts, k as nat) + tail,
                        decreases k,
                    {
                        k = k - 1;
                        let ghost t0 = todo@;
                        todo.push(Some(&args[k]));
                        proof {
                            assert(todo@.drop_last() =~= t0);
                            assert(parts[k as int] == args@[k as int]@);
                            assert(pending(todo@) =~= events_from(parts, k as nat) + tail);
                        }
                    }
                    proof {
                        let named = d0 + " ("@ + ast::tag_text(x@.head);
                        assert(dst@ == named + detail_text(
                            set,
                            x@.head,
                            room_after(named, max_len),
                        ));
                        assert(steps[0] == Event::Open(x@));
                        assert(steps.skip(1) =~= pending(todo@));
                    }
                },
                _ => {
                    dst.push_str(")");
                    proof {
                        assert(steps[0] == Event::Close);
                        assert(steps.skip(1) =~= pending(todo@));
                    }
                },
            }
        }
    }

    /// The text of the regex, as it is shown while debugging.
    pub fn to_debug_string(&self) -> (r: String)
        ensures
            r@ == render(None, seq![], events(self@), 512),
    {
        let mut r: String = String::new();
        assert(r@ =~= seq![]);
        self.write_to_str(&mut r, 512, None);
        r
    }
}

} // verus!
