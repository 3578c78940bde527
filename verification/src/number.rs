//! Decimal numerals, read digit by digit, and what they are multiples of.

use crate::lang;
use crate::lang::{Lang, Reading};
use vstd::prelude::*;

verus! {

/// Ten to the power `n`.
pub open spec fn pow10(n: nat) -> nat
    decreases n,
{
    if n == 0 {
        1
    } else {
        10 * pow10((n - 1) as nat)
    }
}

/// Whether the byte is an ASCII digit.
pub open spec fn is_digit(c: u8) -> bool {
    0x30 <= c <= 0x39
}

/// The value of an ASCII digit.
pub open spec fn digit(c: u8) -> nat {
    (c - 0x30) as nat
}

/// Whether `w`, read after what led to `remainder`, completes a numeral that is a multiple of
/// `divisor` times ten to the power `-scale`.
///
/// What was read so far has the value `remainder` modulo `divisor`, and `remainder == divisor`
/// where no digit was read yet. Once the point was read (`fractional_part`), `scale` counts the
/// digits that may still follow before all others have to be zero.
pub open spec fn accepts(
    divisor: nat,
    remainder: nat,
    scale: nat,
    fractional_part: bool,
    w: Seq<u8>,
) -> bool
    decreases w.len(),
{
    if w.len() == 0 {
        remainder != divisor && (remainder * pow10(scale)) % divisor == 0
    } else {
        match step(divisor, remainder, scale, fractional_part, w[0]) {
            Some((r, k, f)) => accepts(divisor, r, k, f, w.skip(1)),
            None => false,
        }
    }
}

/// The remainder, the scale and whether the point was read, after one more byte.
pub open spec fn step(
    divisor: nat,
    remainder: nat,
    scale: nat,
    fractional_part: bool,
    c: u8,
) -> Option<(nat, nat, bool)> {
    if is_digit(c) {
        let next = (remainder * 10 + digit(c)) % divisor;
        if !fractional_part {
            Some((next, scale, false))
        } else if scale > 0 {
            Some((next, (scale - 1) as nat, true))
        } else if digit(c) == 0 {
            Some((remainder % divisor, 0, true))
        } else {
            None
        }
    } else if c == 0x2e && !fractional_part {
        Some((remainder, scale, true))
    } else {
        None
    }
}

/// How many characters numerals are made of: the digits and the point.
pub const NUMERAL_CHARS: usize = 11;

/// The characters of numerals: the digits, and then the point.
pub open spec fn numeral_char(k: int) -> u8 {
    if k < 10 {
        (0x30 + k) as u8
    } else {
        0x2e
    }
}

/// The characters of numerals: the digits, and then the point.
pub fn numeral_byte(k: usize) -> (r: u8)
    requires
        k < NUMERAL_CHARS,
    ensures
        r == numeral_char(k as int),
{
    if k < 10 {
        0x30 + k as u8
    } else {
        0x2e
    }
}

/// The reading of numerals whose characters are written in strings of `forms`: `forms[k]` holds the
/// writings of the `k`-th character.
pub open spec fn form_reading(forms: Seq<Lang>) -> Reading {
    |c: u8, v: Seq<u8>|
        exists|k: int|
            0 <= k < NUMERAL_CHARS && numeral_char(k) == c && (#[trigger] forms[k])(v)
}

/// Whether `w` is made of strings of `forms` that stand for the characters of a text which completes
/// a numeral as [`accepts`] says.
pub open spec fn spelled(
    divisor: nat,
    remainder: nat,
    scale: nat,
    fractional_part: bool,
    forms: Seq<Lang>,
    w: Seq<u8>,
) -> bool {
    exists|u: Seq<u8>| #[trigger]
        lang::writes(form_reading(forms), u, w) && accepts(
            divisor,
            remainder,
            scale,
            fractional_part,
            u,
        )
}

/// A byte of numerals is one of their characters.
pub proof fn numeral_index(c: u8) -> (k: int)
    requires
        is_digit(c) || c == 0x2e,
    ensures
        0 <= k < NUMERAL_CHARS,
        numeral_char(k) == c,
{
    if is_digit(c) {
        c - 0x30
    } else {
        10
    }
}

/// What completes a numeral has only digits and points.
pub proof fn accepted_bytes(
    divisor: nat,
    remainder: nat,
    scale: nat,
    fractional_part: bool,
    w: Seq<u8>,
)
    requires
        accepts(divisor, remainder, scale, fractional_part, w),
    ensures
        forall|i: int| 0 <= i < w.len() ==> is_digit(#[trigger] w[i]) || w[i] == 0x2e,
    decreases w.len(),
{
    if w.len() > 0 {
        let (r, k, f) = step(divisor, remainder, scale, fractional_part, w[0])->0;
        accepted_bytes(divisor, r, k, f, w.skip(1));
        assert forall|i: int| 0 <= i < w.len() implies is_digit(#[trigger] w[i]) || w[i] == 0x2e by {
            if i > 0 {
                assert(w.skip(1)[i - 1] == w[i]);
            }
        }
    }
}

/// Where the characters of numerals are written as `s` writes them, so are the numerals.
pub proof fn spelled_by(
    divisor: nat,
    remainder: nat,
    scale: nat,
    fractional_part: bool,
    s: Reading,
    w: Seq<u8>,
)
    ensures
        spelled(divisor, remainder, scale, fractional_part, lang::numeral_langs(s), w) == exists|
            u: Seq<u8>,
        | #[trigger]
            lang::writes(s, u, w) && accepts(divisor, remainder, scale, fractional_part, u),
{
    let forms = lang::numeral_langs(s);
    let r = form_reading(forms);
    assert forall|u: Seq<u8>|
        accepts(divisor, remainder, scale, fractional_part, u) implies #[trigger] lang::writes(
        r,
        u,
        w,
    ) == lang::writes(s, u, w) by {
        accepted_bytes(divisor, remainder, scale, fractional_part, u);
        assert forall|i: int, v: Seq<u8>| 0 <= i < u.len() implies #[trigger] r(u[i], v) == s(
            u[i],
            v,
        ) by {
            let c = u[i];
            let n = numeral_index(c);
            assert(set![c].contains(c));
            if s(c, v) {
                assert(forms[n](v));
            }
            if r(c, v) {
                let k = choose|k: int|
                    0 <= k < NUMERAL_CHARS && numeral_char(k) == c && (#[trigger] forms[k])(v);
                let b = choose|b: u8| #[trigger] set![numeral_char(k)].contains(b) && s(b, v);
                assert(b == c);
            }
        }
        lang::writes_alike(r, s, u, w);
    }
    if spelled(divisor, remainder, scale, fractional_part, forms, w) {
        let u = choose|u: Seq<u8>| #[trigger]
            lang::writes(r, u, w) && accepts(divisor, remainder, scale, fractional_part, u);
        assert(lang::writes(s, u, w));
    }
    if exists|u: Seq<u8>| #[trigger]
        lang::writes(s, u, w) && accepts(divisor, remainder, scale, fractional_part, u) {
        let u = choose|u: Seq<u8>| #[trigger]
            lang::writes(s, u, w) && accepts(divisor, remainder, scale, fractional_part, u);
        assert(lang::writes(r, u, w));
    }
}

/// Written plainly, what is spelled is what is accepted.
pub proof fn spelled_plainly(
    divisor: nat,
    remainder: nat,
    scale: nat,
    fractional_part: bool,
    w: Seq<u8>,
)
    ensures
        spelled(
            divisor,
            remainder,
            scale,
            fractional_part,
            lang::numeral_langs(lang::plain()),
            w,
        ) == accepts(divisor, remainder, scale, fractional_part, w),
{
    let p = lang::plain();
    spelled_by(divisor, remainder, scale, fractional_part, p, w);
    lang::writes_plain(w, w);
    if exists|u: Seq<u8>| #[trigger]
        lang::writes(p, u, w) && accepts(divisor, remainder, scale, fractional_part, u) {
        let u = choose|u: Seq<u8>| #[trigger]
            lang::writes(p, u, w) && accepts(divisor, remainder, scale, fractional_part, u);
        lang::writes_plain(u, w);
    }
    if accepts(divisor, remainder, scale, fractional_part, w) {
        assert(lang::writes(p, w, w));
    }
}

/// The state of reading a numeral: the remainder, the scale and whether the point was read.
pub type State = (nat, nat, bool);

/// The state after some bytes.
pub open spec fn run(divisor: nat, q: State, u: Seq<u8>) -> Option<State>
    decreases u.len(),
{
    if u.len() == 0 {
        Some(q)
    } else {
        match step(divisor, q.0, q.1, q.2, u[0]) {
            Some(next) => run(divisor, next, u.skip(1)),
            None => None,
        }
    }
}

/// In this state the numeral is that of a multiple.
pub open spec fn ends(divisor: nat, q: State) -> bool {
    q.0 != divisor && (q.0 * pow10(q.1)) % divisor == 0
}

/// Bytes are accepted if they lead to the end.
pub proof fn accepts_runs(divisor: nat, q: State, u: Seq<u8>)
    ensures
        accepts(divisor, q.0, q.1, q.2, u) == (run(divisor, q, u) matches Some(x) && ends(
            divisor,
            x,
        )),
    decreases u.len(),
{
    if u.len() > 0 {
        if let Some(next) = step(divisor, q.0, q.1, q.2, u[0]) {
            accepts_runs(divisor, next, u.skip(1));
        }
    }
}

/// To read bytes is to read some and then the others.
pub proof fn run_join(divisor: nat, q: State, u: Seq<u8>, v: Seq<u8>)
    ensures
        run(divisor, q, u + v) == match run(divisor, q, u) {
            Some(x) => run(divisor, x, v),
            None => None,
        },
    decreases u.len(),
{
    if u.len() == 0 {
        assert(u + v =~= v);
    } else {
        assert((u + v).skip(1) =~= u.skip(1) + v);
        if let Some(next) = step(divisor, q.0, q.1, q.2, u[0]) {
            run_join(divisor, next, u.skip(1), v);
        }
    }
}

/// All bytes are characters of numerals that `silent` marks.
pub open spec fn all_silent(silent: Seq<bool>, u: Seq<u8>) -> bool {
    forall|i: int| 0 <= i < u.len() ==> is_silent(silent, #[trigger] u[i])
}

/// The byte is a character of numerals that `silent` marks.
pub open spec fn is_silent(silent: Seq<bool>, c: u8) -> bool {
    exists|k: int| 0 <= k < NUMERAL_CHARS && numeral_char(k) == c && #[trigger] silent[k]
}

/// Characters that `silent` marks lead from one state to the other.
pub open spec fn reaches(divisor: nat, silent: Seq<bool>, q: State, x: State) -> bool {
    exists|u: Seq<u8>| all_silent(silent, u) && #[trigger] run(divisor, q, u) == Some(x)
}

/// The state of reading a numeral, as the code holds it.
pub open spec fn state(q: (u32, u32, bool)) -> State {
    (q.0 as nat, q.1 as nat, q.2)
}

/// A number of its own for each state whose remainder is at most `divisor` and whose scale is at
/// most `scale`.
spec fn state_number(scale: nat, q: (u32, u32, bool)) -> int {
    (q.0 * (scale + 1) + q.1) * 2 + if q.2 {
        1int
    } else {
        0int
    }
}

proof fn lemma_state_number(divisor: nat, scale: nat, q: (u32, u32, bool))
    requires
        q.0 <= divisor,
        q.1 <= scale,
    ensures
        0 <= state_number(scale, q) < (divisor + 1) * (scale + 1) * 2,
{
    let n = (scale + 1) as int;
    assert(q.0 * n + q.1 < (divisor + 1) * n && 0 <= q.0 * n) by (nonlinear_arith)
        requires
            0 <= q.0 <= divisor,
            0 <= q.1 < n,
    ;
}

proof fn lemma_state_number_unique(scale: nat, q: (u32, u32, bool), x: (u32, u32, bool))
    requires
        q.1 <= scale,
        x.1 <= scale,
        state_number(scale, q) == state_number(scale, x),
    ensures
        q == x,
{
    let n = (scale + 1) as int;
    let a = q.0 * n + q.1;
    let b = x.0 * n + x.1;
    assert(a == b && q.2 == x.2);
    vstd::arithmetic::div_mod::lemma_fundamental_div_mod_converse(a, n, q.0 as int, q.1 as int);
    vstd::arithmetic::div_mod::lemma_fundamental_div_mod_converse(b, n, x.0 as int, x.1 as int);
}

/// There are only so many states.
proof fn lemma_states_bounded(divisor: nat, scale: nat, seen: Seq<(u32, u32, bool)>)
    requires
        seen.no_duplicates(),
        forall|i: int| 0 <= i < seen.len() ==> (#[trigger] seen[i]).0 <= divisor && seen[i].1 <= scale,
    ensures
        seen.len() <= (divisor + 1) * (scale + 1) * 2,
{
    let bound = ((divisor + 1) * (scale + 1) * 2) as int;
    let numbers = seen.map_values(|q: (u32, u32, bool)| state_number(scale, q));
    assert forall|i: int, j: int| 0 <= i < j < numbers.len() implies numbers[i] != numbers[j] by {
        if numbers[i] == numbers[j] {
            lemma_state_number_unique(scale, seen[i], seen[j]);
        }
    }
    numbers.unique_seq_to_set();
    let all = vstd::set_lib::set_int_range(0, bound);
    lemma_state_number(divisor, scale, (0, 0, false));
    vstd::set_lib::lemma_int_range(0, bound);
    assert(numbers.to_set().subset_of(all)) by {
        assert forall|x: int| #[trigger] numbers.to_set().contains(x) implies all.contains(x) by {
            let i = numbers.index_of(x);
            assert(numbers[i] == x);
            lemma_state_number(divisor, scale, seen[i]);
        }
    }
    vstd::set_lib::lemma_len_subset(numbers.to_set(), all);
}

/// Whether the state is among the others.
fn has_state(seen: &[(u32, u32, bool)], q: (u32, u32, bool)) -> (r: bool)
    ensures
        r == seen@.contains(q),
{
    let mut i: usize = 0;
    while i < seen.len()
        invariant
            i <= seen@.len(),
            forall|j: int| 0 <= j < i ==> seen@[j] != q,
        decreases seen@.len() - i,
    {
        let x: (u32, u32, bool) = seen[i];
        if x.0 == q.0 && x.1 == q.1 && x.2 == q.2 {
            assert(seen@[i as int] == q);
            return true;
        }
        i = i + 1;
    }
    false
}

/// `seen` holds the state to which each marked character among the first `n` leads from `q`.
spec fn closed_at(
    divisor: nat,
    silent: Seq<bool>,
    seen: Seq<(u32, u32, bool)>,
    q: (u32, u32, bool),
    n: int,
) -> bool {
    forall|k: int|
        0 <= k < n && #[trigger] silent[k] ==> (step(
            divisor,
            q.0 as nat,
            q.1 as nat,
            q.2,
            numeral_char(k),
        ) matches Some(x) ==> holds_state(seen, x))
}

/// `seen` holds the state.
pub open spec fn holds_state(seen: Seq<(u32, u32, bool)>, x: State) -> bool {
    exists|i: int| 0 <= i < seen.len() && state(#[trigger] seen[i]) == x
}

proof fn lemma_closed(
    divisor: nat,
    silent: Seq<bool>,
    seen: Seq<(u32, u32, bool)>,
    q: State,
    u: Seq<u8>,
)
    requires
        forall|i: int|
            0 <= i < seen.len() ==> closed_at(
                divisor,
                silent,
                seen,
                #[trigger] seen[i],
                NUMERAL_CHARS as int,
            ),
        holds_state(seen, q),
        all_silent(silent, u),
        run(divisor, q, u) is Some,
    ensures
        holds_state(seen, run(divisor, q, u)->0),
    decreases u.len(),
{
    if u.len() > 0 {
        let i = choose|i: int| 0 <= i < seen.len() && state(#[trigger] seen[i]) == q;
        assert(is_silent(silent, u[0]));
        let k = choose|k: int|
            0 <= k < NUMERAL_CHARS && numeral_char(k) == u[0] && #[trigger] silent[k];
        assert(closed_at(divisor, silent, seen, seen[i], NUMERAL_CHARS as int));
        let next = step(divisor, q.0, q.1, q.2, u[0])->0;
        assert(holds_state(seen, next));
        assert forall|j: int| 0 <= j < u.skip(1).len() implies is_silent(
            silent,
            #[trigger] u.skip(1)[j],
        ) by {
            assert(u.skip(1)[j] == u[j + 1]);
        }
        lemma_closed(divisor, silent, seen, next, u.skip(1));
    }
}

/// The states to which characters that `silent` marks lead.
#[verifier::loop_isolation(false)]
pub fn reachable(divisor: u32, q: (u32, u32, bool), silent: &[bool]) -> (r: Vec<(u32, u32, bool)>)
    requires
        0 < divisor,
        q.0 <= divisor,
        silent@.len() == NUMERAL_CHARS,
    ensures
        forall|i: int| 0 <= i < r@.len() ==> (#[trigger] r@[i]).0 <= divisor,
        forall|x: State| #[trigger]
            holds_state(r@, x) <==> reaches(divisor as nat, silent@, state(q), x),
{
    let ghost d = divisor as nat;
    let ghost bound = (d + 1) * (q.1 + 1) * 2;
    let mut seen: Vec<(u32, u32, bool)> = vec![q];
    let mut i: usize = 0;
    proof {
        assert(seen@ =~= seq![q]);
        assert(run(d, state(q), Seq::empty()) == Some(state(q)));
        assert(all_silent(silent@, Seq::empty()));
        assert(seen@[0] == q);
        lemma_states_bounded(d, q.1 as nat, seen@);
    }
    while i < seen.len()
        invariant
            i <= seen@.len() <= bound,
            seen@.len() > 0 && seen@[0] == q,
            seen@.no_duplicates(),
            forall|j: int|
                0 <= j < seen@.len() ==> (#[trigger] seen@[j]).0 <= divisor && seen@[j].1 <= q.1
                    && reaches(d, silent@, state(q), state(seen@[j])),
            forall|j: int|
                0 <= j < i ==> closed_at(
                    d,
                    silent@,
                    seen@,
                    #[trigger] seen@[j],
                    NUMERAL_CHARS as int,
                ),
        decreases bound - i,
    {
        let here: (u32, u32, bool) = seen[i];
        let mut k: usize = 0;
        while k < NUMERAL_CHARS
            invariant
                k <= NUMERAL_CHARS,
                i < seen@.len() <= bound,
                seen@[i as int] == here,
                seen@.len() > 0 && seen@[0] == q,
                seen@.no_duplicates(),
                forall|j: int|
                    0 <= j < seen@.len() ==> (#[trigger] seen@[j]).0 <= divisor && seen@[j].1 <= q.1
                        && reaches(d, silent@, state(q), state(seen@[j])),
                forall|j: int|
                    0 <= j < i ==> closed_at(
                        d,
                        silent@,
                        seen@,
                        #[trigger] seen@[j],
                        NUMERAL_CHARS as int,
                    ),
                closed_at(d, silent@, seen@, here, k as int),
            decreases NUMERAL_CHARS - k,
        {
            let ghost before = seen@;
            if silent[k] {
                if let Some(next) = read_digit(divisor, here.0, here.1, here.2, numeral_byte(k)) {
                    if !has_state(seen.as_slice(), next) {
                        seen.push(next);
                        proof {
                            lemma_reaches_more(d, silent@, state(q), state(here), k as int);
                            assert forall|a: int, b: int|
                                0 <= a < b < seen@.len() implies seen@[a] != seen@[b] by {
                                if b == before.len() {
                                    assert(before[a] == seen@[a]);
                                    assert(before.contains(before[a]));
                                }
                            }
                            assert(seen@.no_duplicates());
                            assert(seen@[before.len() as int] == next);
                            lemma_states_bounded(d, q.1 as nat, seen@);
                        }
                    } else {
                        proof {
                            let a = before.index_of(next);
                            assert(seen@[a] == next);
                        }
                    }
                    assert(holds_state(seen@, state(next)));
                }
            }
            proof {
                assert forall|x: State| #[trigger] holds_state(before, x) implies holds_state(
                    seen@,
                    x,
                ) by {
                    let a = choose|a: int| 0 <= a < before.len() && state(#[trigger] before[a]) == x;
                    assert(seen@[a] == before[a]);
                }
                assert forall|j: int| 0 <= j < i implies closed_at(
                    d,
                    silent@,
                    seen@,
                    #[trigger] seen@[j],
                    NUMERAL_CHARS as int,
                ) by {
                    assert(seen@[j] == before[j]);
                    assert(closed_at(d, silent@, before, before[j], NUMERAL_CHARS as int));
                }
                assert(closed_at(d, silent@, seen@, here, k + 1));
            }
            k = k + 1;
        }
        i = i + 1;
    }
    proof {
        assert forall|x: State| #[trigger]
            holds_state(seen@, x) <==> reaches(d, silent@, state(q), x) by {
            if holds_state(seen@, x) {
                let a = choose|a: int| 0 <= a < seen@.len() && state(#[trigger] seen@[a]) == x;
                assert(reaches(d, silent@, state(q), state(seen@[a])));
            }
            if reaches(d, silent@, state(q), x) {
                let u = choose|u: Seq<u8>|
                    all_silent(silent@, u) && #[trigger] run(d, state(q), u) == Some(x);
                assert(holds_state(seen@, state(q)));
                lemma_closed(d, silent@, seen@, state(q), u);
            }
        }
    }
    seen
}

/// `silent` marks the characters that may be written as nothing.
pub open spec fn marks_silent(forms: Seq<Lang>, silent: Seq<bool>) -> bool {
    forall|k: int| 0 <= k < NUMERAL_CHARS ==> #[trigger] silent[k] == forms[k](Seq::empty())
}

/// What is written as nothing is made of what may be.
pub proof fn silent_writes(forms: Seq<Lang>, silent: Seq<bool>, u: Seq<u8>)
    requires
        marks_silent(forms, silent),
    ensures
        lang::writes(form_reading(forms), u, Seq::empty()) == all_silent(silent, u),
    decreases u.len(),
{
    let r = form_reading(forms);
    let e = Seq::<u8>::empty();
    if u.len() > 0 {
        let rest = u.skip(1);
        silent_writes(forms, silent, rest);
        assert(e.take(0) =~= e && e.skip(0) =~= e);
        assert(r(u[0], e) == is_silent(silent, u[0])) by {
            if r(u[0], e) {
                let k = choose|k: int|
                    0 <= k < NUMERAL_CHARS && numeral_char(k) == u[0] && (#[trigger] forms[k])(e);
                assert(silent[k]);
            }
            if is_silent(silent, u[0]) {
                let k = choose|k: int|
                    0 <= k < NUMERAL_CHARS && numeral_char(k) == u[0] && #[trigger] silent[k];
                assert(forms[k](e));
            }
        }
        if lang::writes(r, u, e) {
            let i = choose|i: int|
                #![trigger e.take(i)]
                0 <= i <= e.len() && r(u[0], e.take(i)) && lang::writes(r, rest, e.skip(i));
            assert(i == 0);
            assert forall|j: int| 0 <= j < u.len() implies is_silent(silent, #[trigger] u[j]) by {
                if j > 0 {
                    assert(rest[j - 1] == u[j]);
                }
            }
        }
        if all_silent(silent, u) {
            assert(is_silent(silent, u[0]));
            assert forall|j: int| 0 <= j < rest.len() implies is_silent(
                silent,
                #[trigger] rest[j],
            ) by {
                assert(rest[j] == u[j + 1]);
            }
            assert(r(u[0], e.take(0)));
        }
    }
}

/// Nothing is spelled where characters that may be written as nothing lead to the end.
pub proof fn spelled_as_nothing(divisor: nat, q: State, forms: Seq<Lang>, silent: Seq<bool>)
    requires
        marks_silent(forms, silent),
    ensures
        spelled(divisor, q.0, q.1, q.2, forms, Seq::empty()) == exists|x: State| #[trigger]
            reaches(divisor, silent, q, x) && ends(divisor, x),
{
    let r = form_reading(forms);
    let e = Seq::<u8>::empty();
    if spelled(divisor, q.0, q.1, q.2, forms, e) {
        let u = choose|u: Seq<u8>| #[trigger]
            lang::writes(r, u, e) && accepts(divisor, q.0, q.1, q.2, u);
        silent_writes(forms, silent, u);
        accepts_runs(divisor, q, u);
        assert(reaches(divisor, silent, q, run(divisor, q, u)->0));
    }
    if exists|x: State| #[trigger] reaches(divisor, silent, q, x) && ends(divisor, x) {
        let x = choose|x: State| #[trigger] reaches(divisor, silent, q, x) && ends(divisor, x);
        let u = choose|u: Seq<u8>| all_silent(silent, u) && #[trigger] run(divisor, q, u) == Some(x);
        silent_writes(forms, silent, u);
        accepts_runs(divisor, q, u);
        assert(lang::writes(r, u, e));
    }
}

/// Whether characters that `silent` marks lead to the end.
pub fn ends_silently(divisor: u32, q: (u32, u32, bool), silent: &[bool]) -> (r: bool)
    requires
        0 < divisor,
        q.0 <= divisor,
        silent@.len() == NUMERAL_CHARS,
    ensures
        r == exists|x: State| #[trigger]
            reaches(divisor as nat, silent@, state(q), x) && ends(divisor as nat, x),
{
    let ghost d = divisor as nat;
    let states: Vec<(u32, u32, bool)> = reachable(divisor, q, silent);
    let mut i: usize = 0;
    while i < states.len()
        invariant
            0 < divisor,
            d == divisor,
            i <= states@.len(),
            forall|j: int| 0 <= j < i ==> !ends(d, state(#[trigger] states@[j])),
            forall|x: State| #[trigger]
                holds_state(states@, x) <==> reaches(d, silent@, state(q), x),
        decreases states@.len() - i,
    {
        let x: (u32, u32, bool) = states[i];
        if x.0 != divisor && scaled_remainder(divisor, x.0, x.1) == 0 {
            proof {
                assert(state(states@[i as int]) == state(x));
                assert(holds_state(states@, state(x)));
                assert(ends(d, state(x)));
            }
            return true;
        }
        i = i + 1;
    }
    proof {
        if exists|x: State| #[trigger] reaches(d, silent@, state(q), x) && ends(d, x) {
            let x = choose|x: State| #[trigger] reaches(d, silent@, state(q), x) && ends(d, x);
            assert(holds_state(states@, x));
        }
    }
    false
}

/// One more marked character leads on.
proof fn lemma_reaches_more(divisor: nat, silent: Seq<bool>, q: State, x: State, k: int)
    requires
        reaches(divisor, silent, q, x),
        0 <= k < NUMERAL_CHARS,
        silent[k],
    ensures
        step(divisor, x.0, x.1, x.2, numeral_char(k)) matches Some(next) ==> reaches(
            divisor,
            silent,
            q,
            next,
        ),
{
    let c = numeral_char(k);
    if let Some(next) = step(divisor, x.0, x.1, x.2, c) {
        let u = choose|u: Seq<u8>| all_silent(silent, u) && #[trigger] run(divisor, q, u) == Some(x);
        let v = u + seq![c];
        run_join(divisor, q, u, seq![c]);
        assert(seq![c].skip(1).len() == 0);
        assert(run(divisor, next, seq![c].skip(1)) == Some(next));
        assert(run(divisor, x, seq![c]) == Some(next));
        assert forall|i: int| 0 <= i < v.len() implies is_silent(silent, #[trigger] v[i]) by {
            if i < u.len() {
                assert(v[i] == u[i]);
            } else {
                assert(v[i] == c);
            }
        }
        assert(run(divisor, q, v) == Some(next));
    }
}

/// The remainder of `remainder` times ten to the power `scale`.
pub fn scaled_remainder(divisor: u32, remainder: u32, scale: u32) -> (r: u32)
    requires
        divisor > 0,
    ensures
        r == (remainder * pow10(scale as nat)) % (divisor as int),
{
    let mut x: u32 = remainder % divisor;
    let mut i: u32 = 0;
    assert(pow10(0) == 1);
    while i < scale && x != 0
        invariant
            divisor > 0,
            i <= scale,
            x < divisor,
            x == (remainder * pow10(i as nat)) % (divisor as int),
        decreases scale - i,
    {
        let y: u64 = (x as u64 * 10) % (divisor as u64);
        proof {
            let p = remainder * pow10(i as nat);
            vstd::arithmetic::div_mod::lemma_mul_mod_noop_left(p, 10, divisor as int);
            assert(remainder * (10 * pow10(i as nat)) == p * 10) by (nonlinear_arith)
                requires
                    p == remainder * pow10(i as nat),
            ;
        }
        x = y as u32;
        i = i + 1;
    }
    proof {
        if x == 0 {
            lemma_multiple_scales(divisor as nat, remainder as nat, i as nat, scale as nat);
        }
    }
    x
}

/// What is divisible after some digits were appended stays so when zeros follow.
proof fn lemma_multiple_scales(divisor: nat, remainder: nat, i: nat, k: nat)
    requires
        divisor > 0,
        i <= k,
        (remainder * pow10(i)) % divisor == 0,
    ensures
        (remainder * pow10(k)) % divisor == 0,
    decreases k,
{
    if i < k {
        lemma_multiple_scales(divisor, remainder, i, (k - 1) as nat);
        let p = (remainder * pow10((k - 1) as nat)) as int;
        vstd::arithmetic::div_mod::lemma_mul_mod_noop_left(p, 10, divisor as int);
        vstd::arithmetic::div_mod::lemma_small_mod(0, divisor);
        assert(remainder * (10 * pow10((k - 1) as nat)) == p * 10) by (nonlinear_arith)
            requires
                p == remainder * pow10((k - 1) as nat),
        ;
    }
}

/// One step of reading a numeral.
pub fn read_digit(divisor: u32, remainder: u32, scale: u32, fractional_part: bool, c: u8) -> (r:
    Option<(u32, u32, bool)>)
    requires
        0 < divisor,
        remainder <= divisor,
    ensures
        match r {
            Some((x, k, f)) => x <= divisor && step(
                divisor as nat,
                remainder as nat,
                scale as nat,
                fractional_part,
                c,
            ) == Some((x as nat, k as nat, f)),
            None => step(divisor as nat, remainder as nat, scale as nat, fractional_part, c) is None,
        },
{
    if 0x30 <= c && c <= 0x39 {
        let v: u64 = (c - 0x30) as u64;
        let next: u32 = ((remainder as u64 * 10 + v) % (divisor as u64)) as u32;
        if !fractional_part {
            Some((next, scale, false))
        } else if scale > 0 {
            Some((next, scale - 1, true))
        } else if v == 0 {
            Some((remainder % divisor, 0, true))
        } else {
            None
        }
    } else if c == 0x2e && !fractional_part {
        Some((remainder, scale, true))
    } else {
        None
    }
}

/// All bytes are ASCII digits.
pub open spec fn all_digits(w: Seq<u8>) -> bool {
    forall|i: int| 0 <= i < w.len() ==> is_digit(#[trigger] w[i])
}

/// The value of ASCII digits, the highest first.
pub open spec fn decimal_value(w: Seq<u8>) -> nat
    decreases w.len(),
{
    if w.len() == 0 {
        0
    } else {
        digit(w[0]) * pow10((w.len() - 1) as nat) + decimal_value(w.skip(1))
    }
}

/// The number of the digits `whole` before the point and `fraction` after it, times ten to the
/// power `scale`, is a whole multiple of `divisor`.
pub open spec fn divides(divisor: nat, scale: nat, whole: Seq<u8>, fraction: Seq<u8>) -> bool {
    &&& all_digits(whole)
    &&& all_digits(fraction)
    &&& whole.len() + fraction.len() > 0
    &&& ((decimal_value(whole) * pow10(fraction.len()) + decimal_value(fraction)) * pow10(scale)) % (
    divisor * pow10(fraction.len())) == 0
}

/// Whether the text is a decimal numeral, with or without a point, whose value is a multiple of
/// `divisor` times ten to the power `-scale`.
pub open spec fn is_multiple(divisor: nat, scale: nat, w: Seq<u8>) -> bool {
    ||| divides(divisor, scale, w, seq![])
    ||| exists|p: int|
        #![trigger w[p]]
        0 <= p < w.len() && w[p] == 0x2e && divides(divisor, scale, w.take(p), w.skip(p + 1))
}

/// The numerals of multiples.
pub open spec fn multiples(divisor: nat, scale: nat) -> Lang {
    |w: Seq<u8>| is_multiple(divisor, scale, w)
}

proof fn lemma_pow10_positive(n: nat)
    ensures
        pow10(n) > 0,
    decreases n,
{
    if n > 0 {
        lemma_pow10_positive((n - 1) as nat);
    }
}

proof fn lemma_value_bound(w: Seq<u8>)
    requires
        all_digits(w),
    ensures
        decimal_value(w) < pow10(w.len()),
    decreases w.len(),
{
    if w.len() > 0 {
        let rest = w.skip(1);
        assert forall|i: int| 0 <= i < rest.len() implies is_digit(#[trigger] rest[i]) by {
            assert(rest[i] == w[i + 1]);
        }
        lemma_value_bound(rest);
        assert(is_digit(w[0]));
        let p = pow10(rest.len());
        assert(digit(w[0]) * p <= 9 * p) by (nonlinear_arith)
            requires
                digit(w[0]) <= 9,
        ;
    }
}

/// What was read so far is the number `v`, and `w` follows it.
spec fn continued(v: nat, w: Seq<u8>) -> nat {
    v * pow10(w.len()) + decimal_value(w)
}

/// Reading one digit more.
proof fn lemma_continued(v: nat, w: Seq<u8>)
    requires
        w.len() > 0,
    ensures
        continued(v, w) == continued(v * 10 + digit(w[0]), w.skip(1)),
{
    let p = pow10((w.len() - 1) as nat);
    let d = digit(w[0]);
    assert(pow10(w.len()) == 10 * p);
    assert(v * (10 * p) + d * p == (v * 10 + d) * p) by (nonlinear_arith);
}

/// `r` is what is remembered of the number `v`, of which at least one digit was read if `some`.
spec fn remembers(divisor: nat, r: nat, v: nat, some: bool) -> bool {
    if some {
        r == v % divisor
    } else {
        r == divisor && v == 0
    }
}

proof fn lemma_remembers_next(divisor: nat, r: nat, v: nat, some: bool, d: nat)
    requires
        divisor > 0,
        remembers(divisor, r, v, some),
    ensures
        remembers(divisor, (r * 10 + d) % divisor, v * 10 + d, true),
{
    let n = divisor as int;
    if some {
        vstd::arithmetic::div_mod::lemma_mul_mod_noop_left(v as int, 10, n);
        vstd::arithmetic::div_mod::lemma_add_mod_noop((r * 10) as int, d as int, n);
        vstd::arithmetic::div_mod::lemma_add_mod_noop((v * 10) as int, d as int, n);
    } else {
        vstd::arithmetic::div_mod::lemma_mod_multiples_vanish(10, d as int, n);
        assert(n * 10 + d == r * 10 + d);
    }
}

/// At the end of a numeral.
proof fn lemma_end(divisor: nat, r: nat, v: nat, some: bool, k: nat)
    requires
        divisor > 0,
        remembers(divisor, r, v, some),
    ensures
        (r != divisor && (r * pow10(k)) % divisor == 0) == (some && (v * pow10(k)) % divisor == 0),
{
    if some {
        vstd::arithmetic::div_mod::lemma_mul_mod_noop_left(
            v as int,
            pow10(k) as int,
            divisor as int,
        );
        vstd::arithmetic::div_mod::lemma_mod_bound(v as int, divisor as int);
    }
}

/// A common factor does not matter to divisibility.
proof fn lemma_common_factor(x: nat, d: nat, c: nat)
    requires
        d > 0,
        c > 0,
    ensures
        ((c * x) % (c * d) == 0) == (x % d == 0),
{
    vstd::arithmetic::div_mod::lemma_truncate_middle(x as int, c as int, d as int);
    assert(c * d > 0) by (nonlinear_arith)
        requires
            c > 0,
            d > 0,
    ;
    let m = x % d;
    assert(c * m == 0 <==> m == 0) by (nonlinear_arith)
        requires
            c > 0,
    ;
}

/// Where no digit counts any more, only zeros may follow.
proof fn lemma_zeros(v: nat, d: nat, low: nat, p: nat)
    requires
        d > 0,
        low < p,
    ensures
        ((v * p + low) % (d * p) == 0) == (low == 0 && v % d == 0),
{
    assert(d * p > 0) by (nonlinear_arith)
        requires
            d > 0,
            p > 0,
    ;
    let x = v * p + low;
    if x % (d * p) == 0 {
        let q = x / (d * p);
        vstd::arithmetic::div_mod::lemma_fundamental_div_mod(x as int, (d * p) as int);
        assert(x == (d * q) * p) by (nonlinear_arith)
            requires
                x == (d * p) * q,
        ;
        vstd::arithmetic::div_mod::lemma_fundamental_div_mod_converse(
            x as int,
            p as int,
            v as int,
            low as int,
        );
        vstd::arithmetic::div_mod::lemma_fundamental_div_mod_converse(
            x as int,
            p as int,
            (d * q) as int,
            0,
        );
        assert(v == d * q);
        vstd::arithmetic::div_mod::lemma_mod_multiples_basic(q as int, d as int);
        assert(q * d == d * q) by (nonlinear_arith);
    }
    if low == 0 && v % d == 0 {
        lemma_common_factor(v, d, p);
        assert(p * v == v * p && p * d == d * p) by (nonlinear_arith);
    }
}

/// After the point.
proof fn lemma_accepts_fraction(
    divisor: nat,
    r: nat,
    v: nat,
    some: bool,
    k: nat,
    w: Seq<u8>,
)
    requires
        divisor > 0,
        remembers(divisor, r, v, some),
    ensures
        accepts(divisor, r, k, true, w) == (all_digits(w) && (some || w.len() > 0) && (continued(v, w)
            * pow10(k)) % (divisor * pow10(w.len())) == 0),
    decreases w.len(),
{
    if w.len() == 0 {
        lemma_end(divisor, r, v, some, k);
        let one = pow10(0);
        assert(one == 1);
        assert(v * one == v && divisor * one == divisor) by (nonlinear_arith)
            requires
                one == 1,
        ;
        assert(continued(v, w) == v);
    } else {
        let rest = w.skip(1);
        let d = digit(w[0]);
        let p = pow10(rest.len());
        lemma_pow10_positive(rest.len());
        assert(all_digits(w) == (is_digit(w[0]) && all_digits(rest))) by {
            if is_digit(w[0]) && all_digits(rest) {
                assert forall|i: int| 0 <= i < w.len() implies is_digit(#[trigger] w[i]) by {
                    if i > 0 {
                        assert(w[i] == rest[i - 1]);
                    }
                }
            }
            if all_digits(w) {
                assert forall|i: int| 0 <= i < rest.len() implies is_digit(#[trigger] rest[i]) by {
                    assert(rest[i] == w[i + 1]);
                }
            }
        }
        if is_digit(w[0]) {
            lemma_continued(v, w);
            let x = continued(v, w);
            assert(pow10(w.len()) == 10 * p);
            if k > 0 {
                let next = (r * 10 + d) % divisor;
                lemma_remembers_next(divisor, r, v, some, d);
                lemma_accepts_fraction(divisor, next, v * 10 + d, true, (k - 1) as nat, rest);
                let y = x * pow10((k - 1) as nat);
                assert(x * (10 * pow10((k - 1) as nat)) == 10 * y) by (nonlinear_arith)
                    requires
                        y == x * pow10((k - 1) as nat),
                ;
                assert(divisor * (10 * p) == 10 * (divisor * p)) by (nonlinear_arith);
                assert(divisor * p > 0) by (nonlinear_arith)
                    requires
                        divisor > 0,
                        p > 0,
                ;
                lemma_common_factor(y, divisor * p, 10);
            } else if all_digits(rest) {
                lemma_value_bound(rest);
                let one = pow10(0);
                assert(one == 1);
                assert(x * one == x) by (nonlinear_arith)
                    requires
                        one == 1,
                ;
                let low = decimal_value(rest);
                let high = d * p + low;
                assert(high < 10 * p) by (nonlinear_arith)
                    requires
                        high == d * p + low,
                        low < p,
                        d <= 9,
                ;
                assert(x == v * (10 * p) + high);
                lemma_zeros(v, divisor, high, 10 * p);
                assert(high == 0 <==> d == 0 && low == 0) by (nonlinear_arith)
                    requires
                        high == d * p + low,
                        p > 0,
                ;
                if d == 0 {
                    assert(remembers(divisor, r % divisor, v, true)) by {
                        if some {
                            vstd::arithmetic::div_mod::lemma_mod_twice(v as int, divisor as int);
                        } else {
                            vstd::arithmetic::div_mod::lemma_mod_self_0(divisor as int);
                            vstd::arithmetic::div_mod::lemma_small_mod(0, divisor);
                        }
                    }
                    lemma_accepts_fraction(divisor, r % divisor, v, true, 0, rest);
                    lemma_zeros(v, divisor, low, p);
                    let y = continued(v, rest);
                    assert(y * one == y) by (nonlinear_arith)
                        requires
                            one == 1,
                    ;
                }
            } else if d == 0 {
                assert(remembers(divisor, r % divisor, v, true)) by {
                    if some {
                        vstd::arithmetic::div_mod::lemma_mod_twice(v as int, divisor as int);
                    } else {
                        vstd::arithmetic::div_mod::lemma_mod_self_0(divisor as int);
                        vstd::arithmetic::div_mod::lemma_small_mod(0, divisor);
                    }
                }
                lemma_accepts_fraction(divisor, r % divisor, v, true, 0, rest);
            }
        }
    }
}

/// As [`divides`], where the digits follow the number `v`, of which at least one digit was read if
/// `some`.
spec fn divides_after(
    divisor: nat,
    v: nat,
    some: bool,
    scale: nat,
    whole: Seq<u8>,
    fraction: Seq<u8>,
) -> bool {
    &&& all_digits(whole)
    &&& all_digits(fraction)
    &&& some || whole.len() + fraction.len() > 0
    &&& (continued(continued(v, whole), fraction) * pow10(scale)) % (divisor * pow10(
        fraction.len(),
    )) == 0
}

/// As [`is_multiple`], where the text follows the number `v`.
spec fn is_multiple_after(divisor: nat, v: nat, some: bool, scale: nat, w: Seq<u8>) -> bool {
    ||| divides_after(divisor, v, some, scale, w, seq![])
    ||| exists|p: int|
        #![trigger w[p]]
        0 <= p < w.len() && w[p] == 0x2e && divides_after(
            divisor,
            v,
            some,
            scale,
            w.take(p),
            w.skip(p + 1),
        )
}

/// A number that is followed by nothing is itself.
proof fn lemma_continued_empty(v: nat, w: Seq<u8>)
    requires
        w.len() == 0,
    ensures
        continued(v, w) == v,
{
    let one = pow10(0);
    assert(one == 1);
    assert(v * one == v) by (nonlinear_arith)
        requires
            one == 1,
    ;
}

/// A digit that was read belongs to the number.
proof fn lemma_divides_after_digit(
    divisor: nat,
    v: nat,
    some: bool,
    scale: nat,
    whole: Seq<u8>,
    fraction: Seq<u8>,
)
    requires
        whole.len() > 0,
        is_digit(whole[0]),
    ensures
        divides_after(divisor, v, some, scale, whole, fraction) == divides_after(
            divisor,
            v * 10 + digit(whole[0]),
            true,
            scale,
            whole.skip(1),
            fraction,
        ),
{
    let rest = whole.skip(1);
    lemma_continued(v, whole);
    if all_digits(rest) {
        assert forall|i: int| 0 <= i < whole.len() implies is_digit(#[trigger] whole[i]) by {
            if i > 0 {
                assert(whole[i] == rest[i - 1]);
            }
        }
    }
    if all_digits(whole) {
        assert forall|i: int| 0 <= i < rest.len() implies is_digit(#[trigger] rest[i]) by {
            assert(rest[i] == whole[i + 1]);
        }
    }
}

/// Before the point.
proof fn lemma_accepts_whole(
    divisor: nat,
    r: nat,
    v: nat,
    some: bool,
    scale: nat,
    w: Seq<u8>,
)
    requires
        divisor > 0,
        remembers(divisor, r, v, some),
    ensures
        accepts(divisor, r, scale, false, w) == is_multiple_after(divisor, v, some, scale, w),
    decreases w.len(),
{
    let none = Seq::<u8>::empty();
    if w.len() == 0 {
        lemma_end(divisor, r, v, some, scale);
        lemma_continued_empty(v, w);
        lemma_continued_empty(continued(v, w), none);
        let one = pow10(0);
        assert(divisor * one == divisor) by (nonlinear_arith)
            requires
                one == 1,
        ;
    } else {
        let rest = w.skip(1);
        if is_digit(w[0]) {
            let d = digit(w[0]);
            let u = v * 10 + d;
            lemma_remembers_next(divisor, r, v, some, d);
            lemma_accepts_whole(divisor, (r * 10 + d) % divisor, u, true, scale, rest);
            lemma_divides_after_digit(divisor, v, some, scale, w, none);
            assert forall|p: int|
                0 < p < w.len() implies w[p] == #[trigger] rest[p - 1] && divides_after(
                divisor,
                v,
                some,
                scale,
                w.take(p),
                w.skip(p + 1),
            ) == divides_after(
                divisor,
                u,
                true,
                scale,
                rest.take(p - 1),
                rest.skip(p),
            ) by {
                lemma_divides_after_digit(divisor, v, some, scale, w.take(p), w.skip(p + 1));
                assert(w.take(p).skip(1) =~= rest.take(p - 1));
                assert(w.skip(p + 1) =~= rest.skip(p));
            }
            if is_multiple_after(divisor, v, some, scale, w) && !divides_after(
                divisor,
                v,
                some,
                scale,
                w,
                none,
            ) {
                let p = choose|p: int|
                    #![trigger w[p]]
                    0 <= p < w.len() && w[p] == 0x2e && divides_after(
                        divisor,
                        v,
                        some,
                        scale,
                        w.take(p),
                        w.skip(p + 1),
                    );
                assert(rest[p - 1] == 0x2e);
                assert(rest.skip(p - 1 + 1) =~= rest.skip(p));
            }
            if is_multiple_after(divisor, u, true, scale, rest) && !divides_after(
                divisor,
                u,
                true,
                scale,
                rest,
                none,
            ) {
                let q = choose|q: int|
                    #![trigger rest[q]]
                    0 <= q < rest.len() && rest[q] == 0x2e && divides_after(
                        divisor,
                        u,
                        true,
                        scale,
                        rest.take(q),
                        rest.skip(q + 1),
                    );
                assert(rest[(q + 1) - 1] == w[q + 1]);
                assert(w[q + 1] == 0x2e);
            }
        } else {
            assert(!all_digits(w)) by {
                assert(!is_digit(w[0]));
            }
            assert forall|p: int| 0 < p < w.len() implies !all_digits(#[trigger] w.take(p)) by {
                assert(!is_digit(w.take(p)[0]));
            }
            if w[0] == 0x2e {
                lemma_accepts_fraction(divisor, r, v, some, scale, rest);
                lemma_continued_empty(v, w.take(0));
                assert(w.skip(0int + 1) =~= rest);
                assert(divides_after(divisor, v, some, scale, w.take(0), w.skip(1)) == accepts(
                    divisor,
                    r,
                    scale,
                    true,
                    rest,
                ));
            }
        }
    }
}

/// What is read digit by digit is accepted if and only if it is a numeral of a multiple.
pub proof fn accepts_iff_multiple(divisor: nat, scale: nat, w: Seq<u8>)
    requires
        divisor > 0,
    ensures
        accepts(divisor, divisor, scale, false, w) == is_multiple(divisor, scale, w),
{
    lemma_accepts_whole(divisor, divisor, 0, false, scale, w);
    assert forall|whole: Seq<u8>, fraction: Seq<u8>| #[trigger]
        divides_after(divisor, 0, false, scale, whole, fraction) == divides(
            divisor,
            scale,
            whole,
            fraction,
        ) by {
        let p = pow10(whole.len());
        assert(0 * p == 0) by (nonlinear_arith);
        assert(continued(0, whole) == decimal_value(whole));
    }
    if is_multiple_after(divisor, 0, false, scale, w) && !divides_after(
        divisor,
        0,
        false,
        scale,
        w,
        seq![],
    ) {
        let p = choose|p: int|
            #![trigger w[p]]
            0 <= p < w.len() && w[p] == 0x2e && divides_after(
                divisor,
                0,
                false,
                scale,
                w.take(p),
                w.skip(p + 1),
            );
        assert(divides(divisor, scale, w.take(p), w.skip(p + 1)));
    }
    if is_multiple(divisor, scale, w) && !divides(divisor, scale, w, seq![]) {
        let p = choose|p: int|
            #![trigger w[p]]
            0 <= p < w.len() && w[p] == 0x2e && divides(
                divisor,
                scale,
                w.take(p),
                w.skip(p + 1),
            );
        assert(divides_after(divisor, 0, false, scale, w.take(p), w.skip(p + 1)));
    }
}

/// The empty string is no numeral of a multiple.
pub proof fn empty_is_no_multiple(divisor: nat, scale: nat)
    ensures
        !is_multiple(divisor, scale, seq![]),
{
}

} // verus!
