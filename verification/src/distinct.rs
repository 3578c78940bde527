//! Texts tell expressions apart.

use crate::byteset;
use crate::expr;
use crate::expr::{Expr, ExprRef, ExprSet};
use crate::pp;
use crate::render;
use crate::render::Piece;
use crate::text;
use vstd::prelude::*;

verus! {

/// What follows the same start is the same.
proof fn lemma_strip(p: Seq<char>, x: Seq<char>, y: Seq<char>)
    requires
        p + x == p + y,
    ensures
        x == y,
{
    assert((p + x).skip(p.len() as int) =~= x);
    assert((p + y).skip(p.len() as int) =~= y);
}

/// The character is a decimal digit.
spec fn is_decimal(c: char) -> bool {
    '0' <= c <= '9'
}

proof fn lemma_decimal_digits(n: nat)
    ensures
        text::decimal(n).len() > 0,
        forall|i: int| 0 <= i < text::decimal(n).len() ==> is_decimal(#[trigger] text::decimal(n)[i]),
    decreases n,
{
    if n >= 10 {
        lemma_decimal_digits(n / 10);
        let d = text::decimal(n);
        assert forall|i: int| 0 <= i < d.len() implies is_decimal(#[trigger] d[i]) by {
            if i < d.len() - 1 {
                assert(d[i] == text::decimal(n / 10)[i]);
            }
        }
    }
}

/// Numbers with the same digits are the same.
proof fn lemma_decimal_unique(n: nat, m: nat)
    requires
        text::decimal(n) == text::decimal(m),
    ensures
        n == m,
    decreases n,
{
    let d = text::decimal(n);
    assert(d.last() == (0x30 + n % 10) as char);
    assert(d.last() == (0x30 + m % 10) as char);
    assert(n % 10 == m % 10);
    if n >= 10 {
        lemma_decimal_digits(n / 10);
        assert(d.len() > 1);
        assert(m >= 10);
        assert(d.drop_last() =~= text::decimal(n / 10));
        assert(d.drop_last() =~= text::decimal(m / 10));
        lemma_decimal_unique(n / 10, m / 10);
    } else {
        if m >= 10 {
            lemma_decimal_digits(m / 10);
            assert(d.len() > 1);
        }
    }
}

/// A number that something other than a digit follows can be read in one way only.
proof fn lemma_decimal(n: nat, m: nat, x: Seq<char>, y: Seq<char>)
    requires
        text::decimal(n) + x == text::decimal(m) + y,
        x.len() > 0 && !is_decimal(x[0]),
        y.len() > 0 && !is_decimal(y[0]),
    ensures
        n == m,
        x == y,
{
    let p = text::decimal(n);
    let q = text::decimal(m);
    lemma_decimal_digits(n);
    lemma_decimal_digits(m);
    if p.len() < q.len() {
        assert((p + x)[p.len() as int] == x[0]);
        assert((q + y)[p.len() as int] == q[p.len() as int]);
    }
    if q.len() < p.len() {
        assert((q + y)[q.len() as int] == y[0]);
        assert((p + x)[q.len() as int] == p[q.len() as int]);
    }
    assert(p =~= q) by {
        assert forall|i: int| 0 <= i < p.len() implies p[i] == q[i] by {
            assert((p + x)[i] == p[i] && (q + y)[i] == q[i]);
        }
    }
    lemma_decimal_unique(n, m);
    lemma_strip(p, x, y);
}

/// The text of a byte can be read in one way only.
proof fn lemma_byte(b: u8, c: u8, x: Seq<char>, y: Seq<char>)
    requires
        pp::byte_text(b) + x == pp::byte_text(c) + y,
    ensures
        b == c,
        x == y,
{
    reveal_strlit("\\x");
    let p = pp::byte_text(b);
    let q = pp::byte_text(c);
    let l = p + x;
    let r = q + y;
    assert(l[0] == p[0] && r[0] == q[0]);
    if !pp::stands_for_itself(b) && !pp::stands_for_itself(c) {
        assert(p[2] == text::hex_char((b / 16) as nat) && p[3] == text::hex_char((b % 16) as nat));
        assert(q[2] == text::hex_char((c / 16) as nat) && q[3] == text::hex_char((c % 16) as nat));
        assert(l[2] == p[2] && r[2] == q[2] && l[3] == p[3] && r[3] == q[3]);
        assert(b / 16 == c / 16 && b % 16 == c % 16);
    }
    assert(b == c);
    lemma_strip(p, x, y);
}

/// The text of a byte starts with no space, no hyphen and no closing bracket.
proof fn lemma_byte_start(b: u8)
    ensures
        pp::byte_text(b).len() > 0,
        pp::byte_text(b)[0] != ' ',
        pp::byte_text(b)[0] != '-',
        pp::byte_text(b)[0] != ']',
{
    reveal_strlit("\\x");
}

proof fn lemma_bytes_front(bytes: Seq<u8>)
    requires
        bytes.len() > 0,
    ensures
        pp::bytes_text(bytes) == pp::byte_text(bytes[0]) + pp::bytes_text(bytes.skip(1)),
    decreases bytes.len(),
{
    let rest = bytes.skip(1);
    if bytes.len() == 1 {
        assert(bytes.drop_last().len() == 0 && bytes.last() == bytes[0]);
        assert(pp::bytes_text(bytes.drop_last()) =~= seq![]);
        assert(pp::bytes_text(rest) =~= seq![]);
        assert(pp::bytes_text(bytes) =~= pp::byte_text(bytes[0]) + pp::bytes_text(rest));
    } else {
        let front = bytes.drop_last();
        lemma_bytes_front(front);
        assert(front.skip(1) =~= rest.drop_last());
        assert(pp::bytes_text(bytes) =~= pp::byte_text(bytes[0]) + pp::bytes_text(rest));
    }
}

/// Bytes that a space follows can be read in one way only.
proof fn lemma_bytes(a: Seq<u8>, b: Seq<u8>, x: Seq<char>, y: Seq<char>)
    requires
        pp::bytes_text(a) + x == pp::bytes_text(b) + y,
        x.len() > 0 && x[0] == ' ',
        y.len() > 0 && y[0] == ' ',
    ensures
        a == b,
        x == y,
    decreases a.len(),
{
    let l = pp::bytes_text(a) + x;
    let r = pp::bytes_text(b) + y;
    if a.len() > 0 {
        lemma_bytes_front(a);
        lemma_byte_start(a[0]);
        assert(l[0] == pp::byte_text(a[0])[0]);
    } else {
        assert(l[0] == x[0]);
    }
    if b.len() > 0 {
        lemma_bytes_front(b);
        lemma_byte_start(b[0]);
        assert(r[0] == pp::byte_text(b[0])[0]);
    } else {
        assert(r[0] == y[0]);
    }
    if a.len() > 0 && b.len() > 0 {
        let u = pp::bytes_text(a.skip(1)) + x;
        let v = pp::bytes_text(b.skip(1)) + y;
        assert(l =~= pp::byte_text(a[0]) + u);
        assert(r =~= pp::byte_text(b[0]) + v);
        lemma_byte(a[0], b[0], u, v);
        lemma_bytes(a.skip(1), b.skip(1), x, y);
        assert(a =~= seq![a[0]] + a.skip(1));
        assert(b =~= seq![b[0]] + b.skip(1));
    } else {
        assert(a =~= b);
        lemma_strip(pp::bytes_text(a), x, y);
    }
}

/// A run holds all bytes from its first to its last.
proof fn lemma_run(set: Set<u8>, b: u8)
    requires
        set.contains(b),
    ensures
        b <= pp::run_end(set, b),
        forall|c: u8| b <= c <= pp::run_end(set, b) ==> #[trigger] set.contains(c),
    decreases 255 - b,
{
    if b < 255 && set.contains((b + 1) as u8) {
        lemma_run(set, (b + 1) as u8);
        assert forall|c: u8| b <= c <= pp::run_end(set, b) implies #[trigger] set.contains(c) by {
            if c != b {
                assert((b + 1) as u8 <= c);
            }
        }
    }
}

/// The text of runs starts with that of a byte of one of them, where there is any.
proof fn lemma_runs_start(set: Set<u8>, n: int) -> (r: (u8, Seq<char>))
    requires
        0 <= n <= 256,
    ensures
        pp::runs_text(set, n).len() > 0 ==> n <= r.0 && pp::runs_text(set, n) == pp::byte_text(r.0)
            + r.1,
    decreases 256 - n,
{
    if n > 255 {
        (0, seq![])
    } else if !set.contains(n as u8) {
        lemma_runs_start(set, n + 1)
    } else {
        let b = n as u8;
        let end = pp::run_end(set, b);
        if end == b {
            (b, pp::runs_text(set, end + 1))
        } else {
            let rest = "-"@ + pp::byte_text(end) + pp::runs_text(set, end + 1);
            assert(pp::runs_text(set, n) =~= pp::byte_text(b) + rest);
            (b, rest)
        }
    }
}

/// What follows the runs starts with no hyphen, and neither do the runs.
proof fn lemma_runs_head(set: Set<u8>, n: int, x: Seq<char>)
    requires
        0 <= n <= 256,
        x.len() > 0 && x[0] == ']',
    ensures
        (pp::runs_text(set, n) + x)[0] != '-',
{
    let t = pp::runs_text(set, n);
    let r = lemma_runs_start(set, n);
    if t.len() > 0 {
        lemma_byte_start(r.0);
        assert((t + x)[0] == pp::byte_text(r.0)[0]);
    } else {
        assert((t + x)[0] == x[0]);
    }
}

/// A byte at which one set has a run, and the other has not.
proof fn lemma_runs_apart(a: Set<u8>, b: Set<u8>, n: int, x: Seq<char>, y: Seq<char>)
    requires
        0 <= n <= 255,
        a.contains(n as u8),
        !b.contains(n as u8),
        x.len() > 0 && x[0] == ']',
        y.len() > 0 && y[0] == ']',
    ensures
        pp::runs_text(a, n) + x != pp::runs_text(b, n) + y,
{
    let l = pp::runs_text(a, n) + x;
    let r = pp::runs_text(b, n) + y;
    let c = n as u8;
    let p = lemma_runs_start(a, n);
    let end = pp::run_end(a, c);
    lemma_byte_start(c);
    let rest = if end == c {
        pp::runs_text(a, end + 1)
    } else {
        "-"@ + pp::byte_text(end) + pp::runs_text(a, end + 1)
    };
    assert(pp::runs_text(a, n) =~= pp::byte_text(c) + rest);
    assert(l =~= pp::byte_text(c) + (rest + x));
    let q = lemma_runs_start(b, n + 1);
    assert(pp::runs_text(b, n) == pp::runs_text(b, n + 1));
    if l == r {
        if pp::runs_text(b, n).len() > 0 {
            assert(r =~= pp::byte_text(q.0) + (q.1 + y));
            lemma_byte(c, q.0, rest + x, q.1 + y);
        } else {
            assert(r[0] == y[0]);
            assert(l[0] == pp::byte_text(c)[0]);
        }
    }
}

/// Runs that a closing bracket follows can be read in one way only.
proof fn lemma_runs(a: Set<u8>, b: Set<u8>, n: int, x: Seq<char>, y: Seq<char>)
    requires
        0 <= n <= 256,
        pp::runs_text(a, n) + x == pp::runs_text(b, n) + y,
        x.len() > 0 && x[0] == ']',
        y.len() > 0 && y[0] == ']',
    ensures
        x == y,
        forall|c: u8| n <= c ==> #[trigger] a.contains(c) == b.contains(c),
    decreases 256 - n,
{
    let l = pp::runs_text(a, n) + x;
    let r = pp::runs_text(b, n) + y;
    if n > 255 {
        assert(l =~= x && r =~= y);
    } else {
        let c = n as u8;
        if a.contains(c) && !b.contains(c) {
            lemma_runs_apart(a, b, n, x, y);
        }
        if b.contains(c) && !a.contains(c) {
            lemma_runs_apart(b, a, n, y, x);
        }
        if !a.contains(c) {
            lemma_runs(a, b, n + 1, x, y);
        } else {
            reveal_strlit("-");
            let ea = pp::run_end(a, c);
            let eb = pp::run_end(b, c);
            lemma_run(a, c);
            lemma_run(b, c);
            let u = pp::runs_text(a, ea + 1) + x;
            let v = pp::runs_text(b, eb + 1) + y;
            let ua = if ea == c {
                u
            } else {
                "-"@ + (pp::byte_text(ea) + u)
            };
            let vb = if eb == c {
                v
            } else {
                "-"@ + (pp::byte_text(eb) + v)
            };
            assert(l =~= pp::byte_text(c) + ua);
            assert(r =~= pp::byte_text(c) + vb);
            lemma_strip(pp::byte_text(c), ua, vb);
            lemma_runs_head(a, ea + 1, x);
            lemma_runs_head(b, eb + 1, y);
            if ea != c {
                assert(ua[0] == '-');
            }
            if eb != c {
                assert(vb[0] == '-');
            }
            if ea != c {
                lemma_strip("-"@, pp::byte_text(ea) + u, pp::byte_text(eb) + v);
                lemma_byte(ea, eb, u, v);
            }
            lemma_runs(a, b, ea + 1, x, y);
            assert forall|d: u8| n <= d implies #[trigger] a.contains(d) == b.contains(d) by {
                if d <= ea {
                    assert(b.contains(d));
                }
            }
        }
    }
}

/// The words agree in a bit.
spec fn same_bit(x: u32, y: u32, i: u32) -> bool {
    (x & (1u32 << i) != 0) == (y & (1u32 << i) != 0)
}

/// Words with the same bits are the same.
proof fn lemma_bits(x: u32, y: u32)
    by (bit_vector)
    requires
        same_bit(x, y, 0),
        same_bit(x, y, 1),
        same_bit(x, y, 2),
        same_bit(x, y, 3),
        same_bit(x, y, 4),
        same_bit(x, y, 5),
        same_bit(x, y, 6),
        same_bit(x, y, 7),
        same_bit(x, y, 8),
        same_bit(x, y, 9),
        same_bit(x, y, 10),
        same_bit(x, y, 11),
        same_bit(x, y, 12),
        same_bit(x, y, 13),
        same_bit(x, y, 14),
        same_bit(x, y, 15),
        same_bit(x, y, 16),
        same_bit(x, y, 17),
        same_bit(x, y, 18),
        same_bit(x, y, 19),
        same_bit(x, y, 20),
        same_bit(x, y, 21),
        same_bit(x, y, 22),
        same_bit(x, y, 23),
        same_bit(x, y, 24),
        same_bit(x, y, 25),
        same_bit(x, y, 26),
        same_bit(x, y, 27),
        same_bit(x, y, 28),
        same_bit(x, y, 29),
        same_bit(x, y, 30),
        same_bit(x, y, 31),
    ensures
        x == y,
{
}

/// Words that hold the same set of bytes are the same.
proof fn lemma_words(x: Seq<u32>, y: Seq<u32>)
    requires
        x.len() == byteset::BYTESET_WORDS,
        y.len() == byteset::BYTESET_WORDS,
        forall|b: u8| #[trigger] byteset::byteset(x).contains(b) == byteset::byteset(y).contains(b),
    ensures
        x == y,
{
    assert forall|k: int| 0 <= k < x.len() implies x[k] == y[k] by {
        assert forall|i: u32| i < 32 implies #[trigger] same_bit(x[k], y[k], i) by {
            let b = (32 * k + i) as u8;
            assert(b / 32 == k && b % 32 == i);
            assert(byteset::byteset(x).contains(b) == byteset::has_byte(x, b));
            assert(byteset::byteset(y).contains(b) == byteset::has_byte(y, b));
        }
        lemma_bits(x[k], y[k]);
    }
    assert(x =~= y);
}

/// The expressions agree in all but their parts.
spec fn alike(a: Expr, b: Expr) -> bool {
    match (a, b) {
        (Expr::EmptyString, Expr::EmptyString) => true,
        (Expr::NoMatch, Expr::NoMatch) => true,
        (Expr::Byte(x), Expr::Byte(y)) => x == y,
        (Expr::ByteSet(x), Expr::ByteSet(y)) => x@ == y@,
        (Expr::ByteConcat(x, _), Expr::ByteConcat(y, _)) => x@ == y@,
        (
            Expr::RemainderIs {
                divisor: d1,
                remainder: r1,
                scale: s1,
                fractional_part: f1,
                forms: _,
            },
            Expr::RemainderIs {
                divisor: d2,
                remainder: r2,
                scale: s2,
                fractional_part: f2,
                forms: _,
            },
        ) => d1 == d2 && r1 == r2 && s1 == s2 && f1 == f2,
        (Expr::Lookahead(_, n), Expr::Lookahead(_, m)) => n == m,
        (Expr::Not(_), Expr::Not(_)) => true,
        (Expr::Repeat(_, m1, n1), Expr::Repeat(_, m2, n2)) => m1 == m2 && n1 == n2,
        (Expr::Concat(_, _), Expr::Concat(_, _)) => true,
        (Expr::Or(_), Expr::Or(_)) => true,
        (Expr::And(_), Expr::And(_)) => true,
        _ => false,
    }
}

/// The expressions are of the same kind.
spec fn same_kind(a: Expr, b: Expr) -> bool {
    match (a, b) {
        (Expr::EmptyString, Expr::EmptyString) => true,
        (Expr::NoMatch, Expr::NoMatch) => true,
        (Expr::Byte(_), Expr::Byte(_)) => true,
        (Expr::ByteSet(_), Expr::ByteSet(_)) => true,
        (Expr::ByteConcat(_, _), Expr::ByteConcat(_, _)) => true,
        (
            Expr::RemainderIs {
                divisor: _,
                remainder: _,
                scale: _,
                fractional_part: _,
                forms: _,
            },
            Expr::RemainderIs {
                divisor: _,
                remainder: _,
                scale: _,
                fractional_part: _,
                forms: _,
            },
        ) => true,
        (Expr::Lookahead(_, _), Expr::Lookahead(_, _)) => true,
        (Expr::Not(_), Expr::Not(_)) => true,
        (Expr::Repeat(_, _, _), Expr::Repeat(_, _, _)) => true,
        (Expr::Concat(_, _), Expr::Concat(_, _)) => true,
        (Expr::Or(_), Expr::Or(_)) => true,
        (Expr::And(_), Expr::And(_)) => true,
        _ => false,
    }
}

/// The characters by which the name of an expression is told from other names: the first, and one
/// further on where names start alike.
spec fn sign(e: Expr) -> (char, int, char) {
    match e {
        Expr::EmptyString => ('E', 0, 'E'),
        Expr::NoMatch => ('N', 2, 'M'),
        Expr::Byte(_) => ('B', 4, ' '),
        Expr::ByteSet(_) => ('B', 4, 'S'),
        Expr::ByteConcat(_, _) => ('B', 4, 'C'),
        Expr::RemainderIs {
            divisor: _,
            remainder: _,
            scale: _,
            fractional_part: _,
            forms: _,
        } => ('R', 2, 'm'),
        Expr::Lookahead(_, _) => ('L', 0, 'L'),
        Expr::Not(_) => ('N', 2, 't'),
        Expr::Repeat(_, _, _) => ('R', 2, 'p'),
        Expr::Concat(_, _) => ('C', 0, 'C'),
        Expr::Or(_) => ('O', 0, 'O'),
        Expr::And(_) => ('A', 0, 'A'),
    }
}

proof fn lemma_sign(e: Expr, x: Seq<char>)
    ensures
        (render::expr_head_text(e) + x)[0] == sign(e).0,
        (render::expr_head_text(e) + x)[sign(e).1] == sign(e).2,
{
    reveal_strlit("EmptyString");
    reveal_strlit("NoMatch");
    reveal_strlit("Byte ");
    reveal_strlit("ByteSet ");
    reveal_strlit("ByteConcat ");
    reveal_strlit("RemainderIs ");
    reveal_strlit("Lookahead ");
    reveal_strlit("Not");
    reveal_strlit("Repeat{");
    reveal_strlit("Concat");
    reveal_strlit("Or");
    reveal_strlit("And");
}

/// What may follow the name of an expression: its first part, or its end.
spec fn follows(x: Seq<char>) -> bool {
    ||| x.len() > 0 && x[0] == ')'
    ||| x.len() > 1 && x[0] == ' ' && x[1] == '('
}

/// How a numeral says that it is past the point.
spec fn fraction_text(fraction: bool) -> Seq<char> {
    if fraction {
        " fractional"@
    } else {
        ""@
    }
}

/// What a numeral holds.
spec fn numeral_text(divisor: nat, remainder: nat, scale: nat, fraction: bool) -> Seq<char> {
    text::decimal(divisor) + " "@ + text::decimal(remainder) + " "@ + text::decimal(scale)
        + fraction_text(fraction)
}

proof fn lemma_numeral_text(
    divisor: nat,
    remainder: nat,
    scale: nat,
    fraction: bool,
    x: Seq<char>,
)
    ensures
        numeral_text(divisor, remainder, scale, fraction) + x == text::decimal(divisor) + (" "@ + (
        text::decimal(remainder) + (" "@ + (text::decimal(scale) + (fraction_text(fraction)
            + x))))),
{
    let d = text::decimal(divisor);
    let r = text::decimal(remainder);
    let s = text::decimal(scale);
    let f = fraction_text(fraction);
    lemma_assoc(d + " "@ + r + " "@ + s, f, x);
    lemma_assoc(d + " "@ + r + " "@, s, f + x);
    lemma_assoc(d + " "@ + r, " "@, s + (f + x));
    lemma_assoc(d + " "@, r, " "@ + (s + (f + x)));
    lemma_assoc(d, " "@, r + (" "@ + (s + (f + x))));
}

proof fn lemma_assoc(a: Seq<char>, b: Seq<char>, c: Seq<char>)
    ensures
        a + b + c == a + (b + c),
{
    assert(a + b + c =~= a + (b + c));
}

proof fn lemma_numeral_head(
    d1: nat,
    r1: nat,
    s1: nat,
    f1: bool,
    d2: nat,
    r2: nat,
    s2: nat,
    f2: bool,
    x: Seq<char>,
    y: Seq<char>,
)
    requires
        follows(x),
        follows(y),
        numeral_text(d1, r1, s1, f1) + x == numeral_text(d2, r2, s2, f2) + y,
    ensures
        d1 == d2,
        r1 == r2,
        s1 == s2,
        f1 == f2,
        x == y,
{
    reveal_strlit(" ");
    reveal_strlit("");
    reveal_strlit(" fractional");
    let p = fraction_text(f1) + x;
    let q = fraction_text(f2) + y;
    let u = text::decimal(s1) + p;
    let v = text::decimal(s2) + q;
    let a = text::decimal(r1) + (" "@ + u);
    let b = text::decimal(r2) + (" "@ + v);
    lemma_numeral_text(d1, r1, s1, f1, x);
    lemma_numeral_text(d2, r2, s2, f2, y);
    lemma_decimal(d1, d2, " "@ + a, " "@ + b);
    lemma_strip(" "@, a, b);
    lemma_decimal(r1, r2, " "@ + u, " "@ + v);
    lemma_strip(" "@, u, v);
    assert(p.len() > 0 && !is_decimal(p[0])) by {
        if !f1 {
            assert(p =~= x);
        }
    }
    assert(q.len() > 0 && !is_decimal(q[0])) by {
        if !f2 {
            assert(q =~= y);
        }
    }
    lemma_decimal(s1, s2, p, q);
    if f1 != f2 {
        if f1 {
            assert(q =~= y);
            assert(p[0] == ' ' && p[1] == 'f');
        } else {
            assert(p =~= x);
            assert(q[0] == ' ' && q[1] == 'f');
        }
    }
    if f1 {
        lemma_strip(" fractional"@, x, y);
    } else {
        assert(p =~= x && q =~= y);
    }
}

/// Names tell kinds apart.
proof fn lemma_kind(a: Expr, b: Expr, x: Seq<char>, y: Seq<char>)
    requires
        render::expr_head_text(a) + x == render::expr_head_text(b) + y,
    ensures
        same_kind(a, b),
{
    lemma_sign(a, x);
    lemma_sign(b, y);
}

proof fn lemma_set_head(a: Set<u8>, b: Set<u8>, x: Seq<char>, y: Seq<char>)
    requires
        pp::byteset_text(a) + x == pp::byteset_text(b) + y,
    ensures
        forall|c: u8| #[trigger] a.contains(c) == b.contains(c),
        x == y,
{
    reveal_strlit("[");
    reveal_strlit("]");
    let u = pp::runs_text(a, 0) + ("]"@ + x);
    let v = pp::runs_text(b, 0) + ("]"@ + y);
    assert(pp::byteset_text(a) + x =~= "["@ + u);
    assert(pp::byteset_text(b) + y =~= "["@ + v);
    lemma_strip("["@, u, v);
    lemma_runs(a, b, 0, "]"@ + x, "]"@ + y);
    lemma_strip("]"@, x, y);
}

proof fn lemma_bounds_head(m1: nat, n1: nat, m2: nat, n2: nat, x: Seq<char>, y: Seq<char>)
    requires
        text::decimal(m1) + ","@ + text::decimal(n1) + "}"@ + x == text::decimal(m2) + ","@
            + text::decimal(n2) + "}"@ + y,
    ensures
        m1 == m2,
        n1 == n2,
        x == y,
{
    reveal_strlit(",");
    reveal_strlit("}");
    let p = text::decimal(n1) + ("}"@ + x);
    let q = text::decimal(n2) + ("}"@ + y);
    assert(text::decimal(m1) + ","@ + text::decimal(n1) + "}"@ + x =~= text::decimal(m1) + (","@
        + p));
    assert(text::decimal(m2) + ","@ + text::decimal(n2) + "}"@ + y =~= text::decimal(m2) + (","@
        + q));
    lemma_decimal(m1, m2, ","@ + p, ","@ + q);
    lemma_strip(","@, p, q);
    lemma_decimal(n1, n2, "}"@ + x, "}"@ + y);
    lemma_strip("}"@, x, y);
}

/// What stands between the name of an expression and its parts.
spec fn held_text(e: Expr) -> Seq<char> {
    match e {
        Expr::Byte(b) => pp::byte_text(b),
        Expr::ByteSet(words) => pp::byteset_text(byteset::byteset(words@)),
        Expr::ByteConcat(bytes, _) => pp::bytes_text(bytes@),
        Expr::RemainderIs { divisor, remainder, scale, fractional_part, forms: _ } => numeral_text(
            divisor as nat,
            remainder as nat,
            scale as nat,
            fractional_part,
        ),
        Expr::Lookahead(_, offset) => text::decimal(offset as nat),
        Expr::Repeat(_, min, max) => text::decimal(min as nat) + ","@ + text::decimal(max as nat)
            + "}"@,
        _ => seq![],
    }
}

/// The name of an expression.
spec fn name_text(e: Expr) -> Seq<char> {
    match e {
        Expr::EmptyString => "EmptyString"@,
        Expr::NoMatch => "NoMatch"@,
        Expr::Byte(_) => "Byte "@,
        Expr::ByteSet(_) => "ByteSet "@,
        Expr::ByteConcat(_, _) => "ByteConcat "@,
        Expr::RemainderIs {
            divisor: _,
            remainder: _,
            scale: _,
            fractional_part: _,
            forms: _,
        } => "RemainderIs "@,
        Expr::Lookahead(_, _) => "Lookahead "@,
        Expr::Not(_) => "Not"@,
        Expr::Repeat(_, _, _) => "Repeat{"@,
        Expr::Concat(_, _) => "Concat"@,
        Expr::Or(_) => "Or"@,
        Expr::And(_) => "And"@,
    }
}

proof fn lemma_head_text(e: Expr, x: Seq<char>)
    ensures
        render::expr_head_text(e) + x == name_text(e) + (held_text(e) + x),
{
    assert(render::expr_head_text(e) =~= name_text(e) + held_text(e));
    lemma_assoc(name_text(e), held_text(e), x);
}

/// The name of an expression, with what it holds besides its parts, can be read in one way only.
proof fn lemma_head(a: Expr, b: Expr, x: Seq<char>, y: Seq<char>)
    requires
        render::expr_head_text(a) + x == render::expr_head_text(b) + y,
        follows(x),
        follows(y),
        a is ByteConcat ==> x[0] == ' ',
        b is ByteConcat ==> y[0] == ' ',
        a matches Expr::ByteSet(w) ==> w@.len() == byteset::BYTESET_WORDS,
        b matches Expr::ByteSet(w) ==> w@.len() == byteset::BYTESET_WORDS,
    ensures
        alike(a, b),
        x == y,
{
    lemma_kind(a, b, x, y);
    lemma_head_text(a, x);
    lemma_head_text(b, y);
    assert(name_text(a) == name_text(b));
    lemma_strip(name_text(a), held_text(a) + x, held_text(b) + y);
    match (a, b) {
        (Expr::Byte(b1), Expr::Byte(b2)) => {
            lemma_byte(b1, b2, x, y);
        },
        (Expr::ByteSet(w1), Expr::ByteSet(w2)) => {
            lemma_set_head(byteset::byteset(w1@), byteset::byteset(w2@), x, y);
            lemma_words(w1@, w2@);
        },
        (Expr::ByteConcat(b1, _), Expr::ByteConcat(b2, _)) => {
            lemma_bytes(b1@, b2@, x, y);
        },
        (
            Expr::RemainderIs {
                divisor: d1,
                remainder: r1,
                scale: s1,
                fractional_part: f1,
                forms: _,
            },
            Expr::RemainderIs {
                divisor: d2,
                remainder: r2,
                scale: s2,
                fractional_part: f2,
                forms: _,
            },
        ) => {
            lemma_numeral_head(
                d1 as nat,
                r1 as nat,
                s1 as nat,
                f1,
                d2 as nat,
                r2 as nat,
                s2 as nat,
                f2,
                x,
                y,
            );
        },
        (Expr::Lookahead(_, n1), Expr::Lookahead(_, n2)) => {
            lemma_decimal(n1 as nat, n2 as nat, x, y);
        },
        (Expr::Repeat(_, m1, n1), Expr::Repeat(_, m2, n2)) => {
            lemma_bounds_head(m1 as nat, n1 as nat, m2 as nat, n2 as nat, x, y);
        },
        _ => {
            lemma_strip(held_text(a), x, y);
        },
    }
}

proof fn lemma_pieces_join(set: ExprSet, a: Seq<Piece>, b: Seq<Piece>)
    ensures
        render::pieces_text(set, a + b) == render::pieces_text(set, a) + render::pieces_text(set, b),
    decreases a.len(),
{
    if a.len() == 0 {
        assert(a + b =~= b);
        assert(render::pieces_text(set, a) + render::pieces_text(set, b) =~= render::pieces_text(
            set,
            b,
        ));
    } else {
        lemma_pieces_join(set, a.skip(1), b);
        assert((a + b).skip(1) =~= a.skip(1) + b);
        lemma_assoc(
            render::piece_text(set, a[0]),
            render::pieces_text(set, a.skip(1)),
            render::pieces_text(set, b),
        );
    }
}

/// The whole text of the expressions from the `k`-th on.
spec fn parts_text(set: ExprSet, v: Seq<ExprRef>, k: nat, bound: int) -> Seq<char> {
    render::pieces_text(set, render::pieces_from(set, v, k, bound))
}

/// The text of an expression: its name and what it holds, and then its parts.
proof fn lemma_whole(set: ExprSet, e: ExprRef, x: Seq<char>)
    requires
        set.valid(e),
    ensures
        render::whole_text(set, e) + x == " ("@ + (render::expr_head_text(set.node(e)) + (parts_text(
            set,
            expr::args(set.node(e)),
            0,
            e.id as int,
        ) + (")"@ + x))),
{
    let args = expr::args(set.node(e));
    let parts = render::pieces_from(set, args, 0, e.id as int);
    let open = seq![Piece::Open(e)];
    let close = seq![Piece::Close];
    let head = render::expr_head_text(set.node(e));
    lemma_pieces_join(set, open + parts, close);
    lemma_pieces_join(set, open, parts);
    assert(open.skip(1).len() == 0 && close.skip(1).len() == 0);
    assert(render::pieces_text(set, open.skip(1)) =~= seq![]);
    assert(render::pieces_text(set, close.skip(1)) =~= seq![]);
    assert(render::pieces_text(set, open) =~= " ("@ + head);
    assert(render::pieces_text(set, close) =~= ")"@);
    let body = render::pieces_text(set, parts);
    lemma_assoc(" ("@ + head + body, ")"@, x);
    lemma_assoc(" ("@ + head, body, ")"@ + x);
    lemma_assoc(" ("@, head, body + (")"@ + x));
}

/// The text of parts is that of the first and that of the others.
proof fn lemma_parts_front(set: ExprSet, v: Seq<ExprRef>, k: nat, bound: int, x: Seq<char>)
    requires
        k < v.len(),
        v[k as int].id < bound,
    ensures
        parts_text(set, v, k, bound) + x == render::whole_text(set, v[k as int]) + (parts_text(
            set,
            v,
            k + 1,
            bound,
        ) + x),
{
    lemma_pieces_join(
        set,
        render::expr_pieces(set, v[k as int]),
        render::pieces_from(set, v, k + 1, bound),
    );
    lemma_assoc(
        render::whole_text(set, v[k as int]),
        parts_text(set, v, k + 1, bound),
        x,
    );
}

/// Parts start with a space and an opening bracket; where there are none, the end comes.
proof fn lemma_parts_start(set: ExprSet, v: Seq<ExprRef>, k: nat, bound: int, x: Seq<char>)
    requires
        k <= v.len(),
        forall|i: int| 0 <= i < v.len() ==> (#[trigger] v[i]).id < bound && set.valid(v[i]),
    ensures
        follows(parts_text(set, v, k, bound) + (")"@ + x)),
        k < v.len() ==> (parts_text(set, v, k, bound) + (")"@ + x))[0] == ' ',
        k == v.len() ==> parts_text(set, v, k, bound) + (")"@ + x) == ")"@ + x,
        (")"@ + x)[0] == ')',
{
    reveal_strlit(")");
    reveal_strlit(" (");
    if k < v.len() {
        lemma_parts_front(set, v, k, bound, ")"@ + x);
        lemma_whole(set, v[k as int], parts_text(set, v, k + 1, bound) + (")"@ + x));
    } else {
        assert(parts_text(set, v, k, bound) + (")"@ + x) =~= ")"@ + x);
    }
}

/// The whole text of an expression can be read in one way only.
proof fn lemma_unique(set: ExprSet, a: ExprRef, b: ExprRef, x: Seq<char>, y: Seq<char>)
    requires
        set.wf(),
        set.valid(a),
        set.valid(b),
        render::whole_text(set, a) + x == render::whole_text(set, b) + y,
    ensures
        a == b,
        x == y,
    decreases a.id, 1int, 0int,
{
    let m = set.node(a);
    let n = set.node(b);
    let u = parts_text(set, expr::args(m), 0, a.id as int) + (")"@ + x);
    let v = parts_text(set, expr::args(n), 0, b.id as int) + (")"@ + y);
    lemma_whole(set, a, x);
    lemma_whole(set, b, y);
    lemma_strip(" ("@, render::expr_head_text(m) + u, render::expr_head_text(n) + v);
    set.lemma_args_valid(a);
    set.lemma_args_valid(b);
    lemma_parts_start(set, expr::args(m), 0, a.id as int, x);
    lemma_parts_start(set, expr::args(n), 0, b.id as int, y);
    lemma_head(m, n, u, v);
    lemma_parts_unique(
        set,
        expr::args(m),
        a.id as int,
        expr::args(n),
        b.id as int,
        0,
        x,
        y,
    );
    assert(expr::args(m) =~= expr::args(n));
    lemma_alike(m, n);
    set.lemma_no_twins(a, b);
}

/// Expressions that agree in their parts and in all else are the same.
proof fn lemma_alike(a: Expr, b: Expr)
    requires
        alike(a, b),
        expr::args(a) == expr::args(b),
    ensures
        expr::same_node(a, b),
{
    match (a, b) {
        (Expr::ByteConcat(_, c), Expr::ByteConcat(_, d)) => {
            assert(expr::args(a)[0] == c && expr::args(b)[0] == d);
        },
        (Expr::Lookahead(c, _), Expr::Lookahead(d, _)) => {
            assert(expr::args(a)[0] == c && expr::args(b)[0] == d);
        },
        (Expr::Not(c), Expr::Not(d)) => {
            assert(expr::args(a)[0] == c && expr::args(b)[0] == d);
        },
        (Expr::Repeat(c, _, _), Expr::Repeat(d, _, _)) => {
            assert(expr::args(a)[0] == c && expr::args(b)[0] == d);
        },
        (Expr::Concat(c1, d1), Expr::Concat(c2, d2)) => {
            assert(expr::args(a)[0] == c1 && expr::args(b)[0] == c2);
            assert(expr::args(a)[1] == d1 && expr::args(b)[1] == d2);
        },
        _ => {},
    }
}

/// The whole text of parts, up to the end of the expression, can be read in one way only.
proof fn lemma_parts_unique(
    set: ExprSet,
    v: Seq<ExprRef>,
    bound: int,
    w: Seq<ExprRef>,
    other: int,
    k: nat,
    x: Seq<char>,
    y: Seq<char>,
)
    requires
        set.wf(),
        k <= v.len(),
        k <= w.len(),
        forall|i: int| 0 <= i < v.len() ==> (#[trigger] v[i]).id < bound && set.valid(v[i]),
        forall|i: int| 0 <= i < w.len() ==> (#[trigger] w[i]).id < other && set.valid(w[i]),
        forall|i: int| 0 <= i < k ==> #[trigger] v[i] == w[i],
        parts_text(set, v, k, bound) + (")"@ + x) == parts_text(set, w, k, other) + (")"@ + y),
    ensures
        v == w,
        x == y,
    decreases bound, 0int, v.len() - k,
{
    lemma_parts_start(set, v, k, bound, x);
    lemma_parts_start(set, w, k, other, y);
    if k < v.len() && k < w.len() {
        lemma_parts_front(set, v, k, bound, ")"@ + x);
        lemma_parts_front(set, w, k, other, ")"@ + y);
        lemma_unique(
            set,
            v[k as int],
            w[k as int],
            parts_text(set, v, k + 1, bound) + (")"@ + x),
            parts_text(set, w, k + 1, other) + (")"@ + y),
        );
        lemma_parts_unique(set, v, bound, w, other, k + 1, x, y);
    } else {
        assert(k == v.len() && k == w.len());
        lemma_strip(")"@, x, y);
        assert(v =~= w);
    }
}

/// Different expressions of a set have different texts, where these are not cut.
pub proof fn texts_differ(set: ExprSet, a: ExprRef, b: ExprRef, max_len: usize)
    requires
        set.wf(),
        set.valid(a),
        set.valid(b),
        a != b,
        render::size(render::whole_text(set, a)) <= max_len,
        render::size(render::whole_text(set, b)) <= max_len,
    ensures
        render::expr_text(set, a, max_len) != render::expr_text(set, b, max_len),
{
    let s = render::whole_text(set, a);
    let t = render::whole_text(set, b);
    render::whole_text_fits(set, a, max_len);
    render::whole_text_fits(set, b, max_len);
    if s == t {
        assert(s + seq![] == t + seq![]);
        lemma_unique(set, a, b, seq![], seq![]);
    }
}

} // verus!
