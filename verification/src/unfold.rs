//! Patterns spelled out: without conditions on their surroundings, without captures but those that
//! make a lookahead, and without concatenations in concatenations.

use crate::error::Error;
use crate::lang;
use crate::lang::{Lang, Reading};
use crate::pattern;
use crate::pattern::{is_look_free, is_stop};
use crate::syntax;
use crate::syntax::{copied_kind, copied_pattern, copied_patterns, Kind, KindView, Pattern, Syntax};
use vstd::prelude::*;

verus! {

/// What matches the empty string.
pub open spec fn nothing() -> Syntax {
    Syntax { kind: KindView::Empty, subs: seq![] }
}

/// What matches any text.
pub open spec fn anything() -> Syntax {
    Syntax {
        kind: KindView::Repetition(0, None),
        subs: seq![Syntax { kind: KindView::Chars(seq![('\0', '\u{10FFFF}')]), subs: seq![] }],
    }
}

/// What may stand beside a pattern: any text where `open`, and else nothing.
pub open spec fn gap(open: bool) -> Syntax {
    if open {
        anything()
    } else {
        nothing()
    }
}

/// The patterns that a pattern is a concatenation of.
pub open spec fn links(t: Syntax) -> Seq<Syntax> {
    match t.kind {
        KindView::Empty => seq![],
        KindView::Concat => t.subs,
        _ => seq![t],
    }
}

/// The concatenation of patterns.
pub open spec fn chain(v: Seq<Syntax>) -> Syntax {
    if v.len() == 0 {
        nothing()
    } else if v.len() == 1 {
        v[0]
    } else {
        Syntax { kind: KindView::Concat, subs: v }
    }
}

/// A pattern without captures but those that make a lookahead, and without concatenations in
/// concatenations.
pub open spec fn tidied(t: Syntax) -> Syntax
    decreases t, 0nat,
{
    match t.kind {
        KindView::Repetition(_, _) => if t.subs.len() > 0 {
            Syntax { kind: t.kind, subs: seq![tidied(t.subs[0])] }
        } else {
            t
        },
        KindView::Capture(_) => if t.subs.len() == 0 {
            t
        } else if pattern::is_stop_capture(t) {
            Syntax { kind: t.kind, subs: seq![tidied(t.subs[0])] }
        } else {
            tidied(t.subs[0])
        },
        KindView::Concat => chain(tidied_links(t.subs, 0)),
        KindView::Alternation => Syntax { kind: t.kind, subs: tidied_all(t.subs, 0) },
        _ => t,
    }
}

/// What the patterns from the `k`-th on, tidied, are concatenations of.
pub open spec fn tidied_links(ts: Seq<Syntax>, k: nat) -> Seq<Syntax>
    decreases ts, ts.len() - k,
{
    if k < ts.len() {
        links(tidied(ts[k as int])) + tidied_links(ts, k + 1)
    } else {
        seq![]
    }
}

/// The patterns from the `k`-th on, tidied.
pub open spec fn tidied_all(ts: Seq<Syntax>, k: nat) -> Seq<Syntax>
    decreases ts, ts.len() - k,
{
    if k < ts.len() {
        seq![tidied(ts[k as int])] + tidied_all(ts, k + 1)
    } else {
        seq![]
    }
}

/// A pattern that stands at the start of the text, at its end, at both or at neither, spelled out.
/// For a search, any text may stand before and after it there.
pub open spec fn unfolded(t: Syntax, at_start: bool, at_end: bool, search: bool) -> Syntax
    decreases t, 0nat,
{
    if pattern::look_free(t) {
        chain(links(gap(at_start && search)) + links(tidied(t)) + links(gap(at_end && search)))
    } else {
        match t.kind {
            KindView::Start => gap(at_end && search),
            KindView::End => gap(at_start && search),
            KindView::Capture(_) => if t.subs.len() == 0 {
                t
            } else if pattern::is_stop_capture(t) {
                Syntax { kind: t.kind, subs: seq![unfolded(t.subs[0], at_start, at_end, search)] }
            } else {
                unfolded(t.subs[0], at_start, at_end, search)
            },
            KindView::Concat => chain(unfolded_links(t.subs, 0, at_start, at_end, search)),
            KindView::Alternation => Syntax {
                kind: t.kind,
                subs: unfolded_all(t.subs, 0, at_start, at_end, search),
            },
            _ => t,
        }
    }
}

/// What the patterns from the `k`-th on of a concatenation, spelled out, are concatenations of.
pub open spec fn unfolded_links(
    ts: Seq<Syntax>,
    k: nat,
    at_start: bool,
    at_end: bool,
    search: bool,
) -> Seq<Syntax>
    decreases ts, ts.len() - k,
{
    if k < ts.len() {
        links(
            unfolded(ts[k as int], at_start && k == 0, at_end && k + 1 == ts.len(), search),
        ) + unfolded_links(ts, k + 1, at_start, at_end, search)
    } else {
        seq![]
    }
}

/// The patterns from the `k`-th on, spelled out.
pub open spec fn unfolded_all(
    ts: Seq<Syntax>,
    k: nat,
    at_start: bool,
    at_end: bool,
    search: bool,
) -> Seq<Syntax>
    decreases ts, ts.len() - k,
{
    if k < ts.len() {
        seq![unfolded(ts[k as int], at_start, at_end, search)] + unfolded_all(
            ts,
            k + 1,
            at_start,
            at_end,
            search,
        )
    } else {
        seq![]
    }
}

/// A pattern, spelled out: as it matches a whole text, or, for a search, as it is found in one.
pub open spec fn plain_form(t: Syntax, search: bool) -> Syntax {
    unfolded(t, true, true, search)
}

/// The patterns hold no condition on the surroundings of a match.
spec fn all_look_free(v: Seq<Syntax>) -> bool {
    forall|k: int| 0 <= k < v.len() ==> pattern::look_free(#[trigger] v[k])
}

/// One of the patterns has a capture that is named `stop`.
spec fn some_stop(v: Seq<Syntax>) -> bool {
    exists|k: int| 0 <= k < v.len() && pattern::has_stop(#[trigger] v[k])
}

/// One pattern after another.
spec fn row(v: Seq<Syntax>, s: Reading) -> Lang {
    pattern::meaning_from(v, 0, s)
}

proof fn lemma_meaning_skip(v: Seq<Syntax>, w: Seq<Syntax>, j: nat, k: nat, s: Reading)
    requires
        v.skip(j as int) == w.skip(k as int),
        j <= v.len(),
        k <= w.len(),
    ensures
        pattern::meaning_from(v, j, s) == pattern::meaning_from(w, k, s),
    decreases v.len() - j,
{
    assert(v.skip(j as int).len() == v.len() - j && w.skip(k as int).len() == w.len() - k);
    if j < v.len() {
        assert(v.skip(j as int)[0] == v[j as int] && w.skip(k as int)[0] == w[k as int]);
        assert(v.skip(j as int).skip(1) =~= v.skip(j as int + 1));
        assert(w.skip(k as int).skip(1) =~= w.skip(k as int + 1));
        lemma_meaning_skip(v, w, j + 1, k + 1, s);
    }
}

proof fn lemma_row_front(t: Syntax, v: Seq<Syntax>, s: Reading)
    ensures
        row(seq![t] + v, s) == lang::cat(pattern::meaning(t, s), row(v, s)),
{
    let w = seq![t] + v;
    assert(w.skip(1) =~= v.skip(0));
    lemma_meaning_skip(w, v, 1, 0, s);
}

proof fn lemma_row_join(v: Seq<Syntax>, w: Seq<Syntax>, s: Reading)
    ensures
        row(v + w, s) == lang::cat(row(v, s), row(w, s)),
    decreases v.len(),
{
    if v.len() == 0 {
        assert(v + w =~= w);
        lang::cat_epsilon_left(row(w, s));
    } else {
        let rest = v.skip(1);
        assert(v =~= seq![v[0]] + rest);
        assert(v + w =~= seq![v[0]] + (rest + w));
        lemma_row_front(v[0], rest, s);
        lemma_row_front(v[0], rest + w, s);
        lemma_row_join(rest, w, s);
        lang::cat_assoc(pattern::meaning(v[0], s), row(rest, s), row(w, s));
    }
}

/// A concatenation means what its patterns mean, one after another.
proof fn lemma_chain(v: Seq<Syntax>, s: Reading)
    ensures
        pattern::meaning(chain(v), s) == row(v, s),
        all_look_free(v) ==> pattern::look_free(chain(v)),
        !some_stop(v) ==> !pattern::has_stop(chain(v)),
{
    if v.len() == 1 {
        assert(pattern::meaning_from(v, 1, s) == lang::epsilon());
        lang::cat_epsilon_right(pattern::meaning(v[0], s));
    }
    if v.len() > 1 {
        let t = chain(v);
        assert(t.subs == v);
        if !some_stop(v) && pattern::has_stop(t) {
            let k = choose|k: int| 0 <= k < t.subs.len() && pattern::has_stop(#[trigger] t.subs[k]);
            assert(some_stop(v));
        }
    }
}

/// What a pattern is a concatenation of means what the pattern means.
proof fn lemma_links(t: Syntax, s: Reading)
    ensures
        row(links(t), s) == pattern::meaning(t, s),
        pattern::look_free(t) ==> all_look_free(links(t)),
        !pattern::has_stop(t) ==> !some_stop(links(t)),
{
    match t.kind {
        KindView::Empty => {},
        KindView::Concat => {
            if !pattern::has_stop(t) && some_stop(links(t)) {
                let k = choose|k: int|
                    0 <= k < t.subs.len() && pattern::has_stop(#[trigger] t.subs[k]);
                assert(pattern::has_stop(t));
            }
        },
        _ => {
            let v = seq![t];
            assert(v[0] == t);
            assert(pattern::meaning_from(v, 1, s) == lang::epsilon());
            lang::cat_epsilon_right(pattern::meaning(t, s));
        },
    }
}

proof fn lemma_stop_join(v: Seq<Syntax>, w: Seq<Syntax>)
    ensures
        all_look_free(v) && all_look_free(w) ==> all_look_free(v + w),
        !some_stop(v) && !some_stop(w) ==> !some_stop(v + w),
{
    let all = v + w;
    if all_look_free(v) && all_look_free(w) {
        assert forall|k: int| 0 <= k < all.len() implies pattern::look_free(#[trigger] all[k]) by {
            if k < v.len() {
                assert(all[k] == v[k]);
            } else {
                assert(all[k] == w[k - v.len()]);
            }
        }
    }
    if some_stop(all) {
        let k = choose|k: int| 0 <= k < all.len() && pattern::has_stop(#[trigger] all[k]);
        if k < v.len() {
            assert(all[k] == v[k]);
        } else {
            assert(all[k] == w[k - v.len()]);
        }
    }
}

/// A pattern with one part means what the part makes of it.
proof fn lemma_one_part(kind: KindView, t: Syntax)
    requires
        kind is Repetition || kind is Capture,
    ensures
        pattern::look_free(t) ==> pattern::look_free(Syntax { kind, subs: seq![t] }),
        !pattern::has_stop(t) && !(kind matches KindView::Capture(n) && n == Some("stop"@))
            ==> !pattern::has_stop(Syntax { kind, subs: seq![t] }),
{
    let r = Syntax { kind, subs: seq![t] };
    assert(r.subs[0] == t);
    if pattern::has_stop(r) && !pattern::is_stop_capture(r) {
        let k = choose|k: int| 0 <= k < r.subs.len() && pattern::has_stop(#[trigger] r.subs[k]);
        assert(k == 0);
    }
}

/// To tidy a pattern changes nothing of what it matches.
proof fn lemma_tidied(t: Syntax, s: Reading)
    requires
        pattern::look_free(t),
    ensures
        pattern::meaning(tidied(t), s) == pattern::meaning(t, s),
        pattern::look_free(tidied(t)),
        !pattern::has_stop(t) ==> !pattern::has_stop(tidied(t)),
        pattern::is_stop_capture(t) ==> pattern::is_stop_capture(tidied(t)),
    decreases t, 0nat,
{
    match t.kind {
        KindView::Repetition(_, _) => {
            if t.subs.len() > 0 {
                assert(pattern::look_free(t.subs[0]));
                lemma_tidied(t.subs[0], s);
                lemma_one_part(t.kind, tidied(t.subs[0]));
                if pattern::has_stop(t.subs[0]) {
                    assert(pattern::has_stop(t));
                }
            }
        },
        KindView::Capture(_) => {
            if t.subs.len() > 0 {
                assert(pattern::look_free(t.subs[0]));
                lemma_tidied(t.subs[0], s);
                lemma_one_part(t.kind, tidied(t.subs[0]));
                if pattern::has_stop(t.subs[0]) {
                    assert(pattern::has_stop(t));
                }
            }
        },
        KindView::Concat => {
            lemma_tidied_links(t.subs, 0, s);
            lemma_chain(tidied_links(t.subs, 0), s);
            if some_stop(tidied_links(t.subs, 0)) {
                let k = choose|k: int|
                    0 <= k < t.subs.len() && pattern::has_stop(#[trigger] t.subs[k]);
                assert(pattern::has_stop(t));
            }
        },
        KindView::Alternation => {
            let r = tidied(t);
            let l = pattern::meaning(r, s);
            let m = pattern::meaning(t, s);
            lemma_tidied_all(t.subs, 0, s);
            assert forall|w: Seq<u8>| #[trigger] l(w) == m(w) by {
                if l(w) {
                    let k = choose|k: int|
                        0 <= k < r.subs.len() && pattern::meaning(#[trigger] r.subs[k], s)(w);
                    assert(pattern::meaning(t.subs[k], s)(w));
                }
                if m(w) {
                    let k = choose|k: int|
                        0 <= k < t.subs.len() && pattern::meaning(#[trigger] t.subs[k], s)(w);
                    assert(pattern::meaning(r.subs[k], s)(w));
                }
            }
            assert(l =~= m);
            if pattern::has_stop(r) {
                let k = choose|k: int|
                    0 <= k < r.subs.len() && pattern::has_stop(#[trigger] r.subs[k]);
                assert(pattern::has_stop(t.subs[k]));
            }
        },
        _ => {},
    }
}

proof fn lemma_tidied_links(ts: Seq<Syntax>, k: nat, s: Reading)
    requires
        all_look_free(ts),
    ensures
        row(tidied_links(ts, k), s) == pattern::meaning_from(ts, k, s),
        all_look_free(tidied_links(ts, k)),
        !some_stop(ts) ==> !some_stop(tidied_links(ts, k)),
    decreases ts, ts.len() - k,
{
    if k < ts.len() {
        let t = ts[k as int];
        let v = links(tidied(t));
        let w = tidied_links(ts, k + 1);
        lemma_tidied(t, s);
        lemma_links(tidied(t), s);
        lemma_tidied_links(ts, k + 1, s);
        lemma_row_join(v, w, s);
        lemma_stop_join(v, w);
        if pattern::has_stop(t) {
            assert(some_stop(ts));
        }
    }
}

proof fn lemma_tidied_all(ts: Seq<Syntax>, k: nat, s: Reading)
    requires
        all_look_free(ts),
        k <= ts.len(),
    ensures
        tidied_all(ts, k).len() == ts.len() - k,
        forall|j: int|
            0 <= j < ts.len() - k ==> {
                let r = #[trigger] tidied_all(ts, k)[j];
                &&& pattern::meaning(r, s) == pattern::meaning(ts[j + k], s)
                &&& pattern::look_free(r)
                &&& pattern::has_stop(r) ==> pattern::has_stop(ts[j + k])
            },
    decreases ts, ts.len() - k,
{
    if k < ts.len() {
        let all = tidied_all(ts, k);
        let rest = tidied_all(ts, k + 1);
        lemma_tidied(ts[k as int], s);
        lemma_tidied_all(ts, k + 1, s);
        assert forall|j: int| 0 <= j < ts.len() - k implies {
            let r = #[trigger] all[j];
            &&& pattern::meaning(r, s) == pattern::meaning(ts[j + k], s)
            &&& pattern::look_free(r)
            &&& pattern::has_stop(r) ==> pattern::has_stop(ts[j + k])
        } by {
            if j > 0 {
                assert(all[j] == rest[j - 1]);
                assert(ts[(j - 1) + (k + 1)] == ts[j + k]);
            }
        }
    }
}

proof fn lemma_gap(open: bool, s: Reading)
    ensures
        pattern::meaning(gap(open), s) == pattern::gap_lang(open, s),
        pattern::look_free(gap(open)),
        !pattern::has_stop(gap(open)),
{
    let c = anything().subs[0];
    assert(pattern::meaning(c, s) == pattern::chars(seq![('\0', '\u{10FFFF}')], s));
    assert(pattern::look_free(c) && !pattern::has_stop(c));
}

/// Spelled out, a pattern matches what it matched, and holds no condition any more.
pub proof fn unfolded_means(t: Syntax, at_start: bool, at_end: bool, search: bool, s: Reading)
    requires
        pattern::placed(t, at_start, at_end),
    ensures
        pattern::meaning(unfolded(t, at_start, at_end, search), s) == pattern::placed_lang(
            t,
            at_start,
            at_end,
            search,
            s,
        ),
        pattern::look_free(unfolded(t, at_start, at_end, search)),
        !pattern::has_stop(t) ==> !pattern::has_stop(unfolded(t, at_start, at_end, search)),
        pattern::is_stop_capture(t) && !search ==> pattern::is_stop_capture(
            unfolded(t, at_start, at_end, search),
        ),
    decreases t, 0nat,
{
    let left = at_start && search;
    let right = at_end && search;
    let r = unfolded(t, at_start, at_end, search);
    lemma_gap(left, s);
    lemma_gap(right, s);
    if pattern::look_free(t) {
        let x = links(gap(left));
        let y = links(tidied(t));
        let z = links(gap(right));
        lemma_tidied(t, s);
        lemma_links(gap(left), s);
        lemma_links(tidied(t), s);
        lemma_links(gap(right), s);
        lemma_row_join(x + y, z, s);
        lemma_row_join(x, y, s);
        lemma_stop_join(x, y);
        lemma_stop_join(x + y, z);
        lemma_chain(x + y + z, s);
        lang::cat_assoc(row(x, s), row(y, s), row(z, s));
        if pattern::is_stop_capture(t) && !search {
            assert(y =~= seq![tidied(t)]);
            assert(x + y + z =~= y);
        }
    } else {
        match t.kind {
            KindView::Start => {},
            KindView::End => {},
            KindView::Capture(_) => {
                unfolded_means(t.subs[0], at_start, at_end, search, s);
                lemma_one_part(t.kind, unfolded(t.subs[0], at_start, at_end, search));
                if pattern::has_stop(t.subs[0]) {
                    assert(pattern::has_stop(t));
                }
            },
            KindView::Concat => {
                lemma_unfolded_links(t.subs, 0, at_start, at_end, search, s);
                lemma_chain(unfolded_links(t.subs, 0, at_start, at_end, search), s);
                if some_stop(t.subs) {
                    let k = choose|k: int|
                        0 <= k < t.subs.len() && pattern::has_stop(#[trigger] t.subs[k]);
                    assert(pattern::has_stop(t));
                }
            },
            KindView::Alternation => {
                let l = pattern::meaning(r, s);
                let m = pattern::placed_lang(t, at_start, at_end, search, s);
                lemma_unfolded_all(t.subs, 0, at_start, at_end, search, s);
                assert forall|w: Seq<u8>| #[trigger] l(w) == m(w) by {
                    if l(w) {
                        let k = choose|k: int|
                            0 <= k < r.subs.len() && pattern::meaning(#[trigger] r.subs[k], s)(w);
                        assert(pattern::placed_lang(t.subs[k], at_start, at_end, search, s)(w));
                    }
                    if m(w) {
                        let k = choose|k: int|
                            0 <= k < t.subs.len() && pattern::placed_lang(
                                #[trigger] t.subs[k],
                                at_start,
                                at_end,
                                search,
                                s,
                            )(w);
                        assert(pattern::meaning(r.subs[k], s)(w));
                    }
                }
                assert(l =~= m);
                if pattern::has_stop(r) {
                    let k = choose|k: int|
                        0 <= k < r.subs.len() && pattern::has_stop(#[trigger] r.subs[k]);
                    assert(pattern::has_stop(t.subs[k]));
                }
            },
            _ => {},
        }
    }
}

proof fn lemma_unfolded_links(
    ts: Seq<Syntax>,
    k: nat,
    at_start: bool,
    at_end: bool,
    search: bool,
    s: Reading,
)
    requires
        forall|n: int|
            0 <= n < ts.len() ==> pattern::placed(
                #[trigger] ts[n],
                at_start && n == 0,
                at_end && n == ts.len() - 1,
            ),
    ensures
        row(unfolded_links(ts, k, at_start, at_end, search), s) == pattern::placed_from(
            ts,
            k,
            at_start,
            at_end,
            search,
            s,
        ),
        all_look_free(unfolded_links(ts, k, at_start, at_end, search)),
        !some_stop(ts) ==> !some_stop(unfolded_links(ts, k, at_start, at_end, search)),
    decreases ts, ts.len() - k,
{
    if k < ts.len() {
        let t = ts[k as int];
        let first = at_start && k == 0;
        let last = at_end && k + 1 == ts.len();
        let u = unfolded(t, first, last, search);
        let w = unfolded_links(ts, k + 1, at_start, at_end, search);
        assert(pattern::placed(t, first, last));
        unfolded_means(t, first, last, search, s);
        lemma_links(u, s);
        lemma_unfolded_links(ts, k + 1, at_start, at_end, search, s);
        lemma_row_join(links(u), w, s);
        lemma_stop_join(links(u), w);
        if pattern::has_stop(t) {
            assert(some_stop(ts));
        }
    }
}

proof fn lemma_unfolded_all(
    ts: Seq<Syntax>,
    k: nat,
    at_start: bool,
    at_end: bool,
    search: bool,
    s: Reading,
)
    requires
        forall|n: int| 0 <= n < ts.len() ==> pattern::placed(#[trigger] ts[n], at_start, at_end),
        k <= ts.len(),
    ensures
        unfolded_all(ts, k, at_start, at_end, search).len() == ts.len() - k,
        forall|j: int|
            0 <= j < ts.len() - k ==> {
                let r = #[trigger] unfolded_all(ts, k, at_start, at_end, search)[j];
                &&& pattern::meaning(r, s) == pattern::placed_lang(
                    ts[j + k],
                    at_start,
                    at_end,
                    search,
                    s,
                )
                &&& pattern::look_free(r)
                &&& pattern::has_stop(r) ==> pattern::has_stop(ts[j + k])
            },
    decreases ts, ts.len() - k,
{
    if k < ts.len() {
        let all = unfolded_all(ts, k, at_start, at_end, search);
        let rest = unfolded_all(ts, k + 1, at_start, at_end, search);
        unfolded_means(ts[k as int], at_start, at_end, search, s);
        lemma_unfolded_all(ts, k + 1, at_start, at_end, search, s);
        assert forall|j: int| 0 <= j < ts.len() - k implies {
            let r = #[trigger] all[j];
            &&& pattern::meaning(r, s) == pattern::placed_lang(
                ts[j + k],
                at_start,
                at_end,
                search,
                s,
            )
            &&& pattern::look_free(r)
            &&& pattern::has_stop(r) ==> pattern::has_stop(ts[j + k])
        } by {
            if j > 0 {
                assert(all[j] == rest[j - 1]);
                assert(ts[(j - 1) + (k + 1)] == ts[j + k]);
            }
        }
    }
}

/// Whether conditions on the surroundings stand only where they can be met.
fn is_placed(h: &Pattern, at_start: bool, at_end: bool) -> (r: bool)
    ensures
        r == pattern::placed(h@, at_start, at_end),
    decreases h@,
{
    let ghost t = h@;
    proof {
        syntax::pattern_parts(*h);
    }
    if is_look_free(h) {
        return true;
    }
    match &h.kind {
        Kind::Start => at_start,
        Kind::End => at_end,
        Kind::Capture(_) => {
            if h.subs.len() == 0 {
                return false;
            }
            proof {
                assert(decreases_to!(t => t.subs[0]));
            }
            is_placed(&h.subs[0], at_start, at_end)
        },
        Kind::Concat => {
            let parts: &[Pattern] = h.subs.as_slice();
            let mut k: usize = 0;
            while k < parts.len()
                invariant
                    k <= parts@.len(),
                    t == h@,
                    !pattern::look_free(t) && t.kind is Concat,
                    parts@.len() == t.subs.len(),
                    forall|n: int| 0 <= n < parts@.len() ==> (#[trigger] parts@[n])@ == t.subs[n],
                    forall|n: int|
                        0 <= n < k ==> pattern::placed(
                            #[trigger] t.subs[n],
                            at_start && n == 0,
                            at_end && n == t.subs.len() - 1,
                        ),
                decreases parts@.len() - k,
            {
                proof {
                    assert(decreases_to!(t => t.subs[k as int]));
                }
                if !is_placed(&parts[k], at_start && k == 0, at_end && k == parts.len() - 1) {
                    proof {
                        assert(!pattern::placed(
                            t.subs[k as int],
                            at_start && k == 0,
                            at_end && k == t.subs.len() - 1,
                        ));
                    }
                    return false;
                }
                k = k + 1;
            }
            true
        },
        Kind::Alternation => {
            let parts: &[Pattern] = h.subs.as_slice();
            let mut k: usize = 0;
            while k < parts.len()
                invariant
                    k <= parts@.len(),
                    t == h@,
                    !pattern::look_free(t) && t.kind is Alternation,
                    parts@.len() == t.subs.len(),
                    forall|n: int| 0 <= n < parts@.len() ==> (#[trigger] parts@[n])@ == t.subs[n],
                    forall|n: int|
                        0 <= n < k ==> pattern::placed(#[trigger] t.subs[n], at_start, at_end),
                decreases parts@.len() - k,
            {
                proof {
                    assert(decreases_to!(t => t.subs[k as int]));
                }
                if !is_placed(&parts[k], at_start, at_end) {
                    proof {
                        assert(!pattern::placed(t.subs[k as int], at_start, at_end));
                    }
                    return false;
                }
                k = k + 1;
            }
            true
        },
        _ => false,
    }
}

/// What matches any text where `open`, and else the empty string.
fn mk_gap(open: bool) -> (r: Pattern)
    ensures
        r@ == gap(open),
{
    let r: Pattern = if open {
        let ranges: Vec<(char, char)> = vec![('\0', '\u{10FFFF}')];
        proof {
            assert(ranges@ =~= seq![('\0', '\u{10FFFF}')]);
        }
        let one: Pattern = Pattern { kind: Kind::Chars(ranges), subs: Vec::new() };
        proof {
            syntax::pattern_views(one);
            assert(one@.subs =~= anything().subs[0].subs);
        }
        Pattern { kind: Kind::Repetition(0, None), subs: vec![one] }
    } else {
        Pattern { kind: Kind::Empty, subs: Vec::new() }
    };
    proof {
        syntax::pattern_views(r);
        assert(r@.subs =~= gap(open).subs);
    }
    r
}

/// Appends the patterns that a pattern is a concatenation of.
fn push_links(dst: &mut Vec<Pattern>, p: Pattern)
    ensures
        syntax::views(final(dst)@) == syntax::views(old(dst)@) + links(p@),
{
    let ghost before = dst@;
    proof {
        syntax::pattern_views(p);
    }
    match &p.kind {
        Kind::Empty => {},
        Kind::Concat => {
            let mut more: Vec<Pattern> = copied_patterns(p.subs.as_slice());
            let ghost tail = more@;
            dst.append(&mut more);
            proof {
                assert(dst@ =~= before + tail);
                assert(syntax::views(dst@) =~= syntax::views(before) + syntax::views(tail));
            }
            return ;
        },
        _ => {
            dst.push(p);
            proof {
                assert(syntax::views(dst@) =~= syntax::views(before) + seq![p@]);
            }
            return ;
        },
    }
    assert(syntax::views(dst@) =~= syntax::views(before) + links(p@));
}

/// The concatenation of patterns.
fn mk_chain(v: Vec<Pattern>) -> (r: Pattern)
    ensures
        r@ == chain(syntax::views(v@)),
{
    let ghost vs = syntax::views(v@);
    if v.len() == 0 {
        return mk_gap(false);
    }
    if v.len() == 1 {
        let r: Pattern = copied_pattern(&v[0]);
        assert(vs[0] == v@[0]@);
        return r;
    }
    let r: Pattern = Pattern { kind: Kind::Concat, subs: v };
    proof {
        syntax::pattern_views(r);
    }
    r
}

/// A pattern with one part.
fn mk_one_part(h: &Pattern, part: Pattern) -> (r: Pattern)
    ensures
        r@.kind == h@.kind,
        r@.subs == seq![part@],
{
    let r: Pattern = Pattern { kind: copied_kind(&h.kind), subs: vec![part] };
    proof {
        syntax::pattern_views(r);
        syntax::pattern_views(*h);
        assert(r@.subs =~= seq![part@]);
    }
    r
}

/// Drops the captures that make no lookahead, and concatenations in concatenations.
fn tidy(h: &Pattern) -> (r: Pattern)
    ensures
        r@ == tidied(h@),
    decreases h@,
{
    let ghost t = h@;
    proof {
        syntax::pattern_parts(*h);
        syntax::pattern_views(*h);
    }
    match &h.kind {
        Kind::Repetition(_, _) => {
            if h.subs.len() == 0 {
                return copied_pattern(h);
            }
            proof {
                assert(decreases_to!(t => t.subs[0]));
            }
            let part: Pattern = tidy(&h.subs[0]);
            mk_one_part(h, part)
        },
        Kind::Capture(name) => {
            if h.subs.len() == 0 {
                return copied_pattern(h);
            }
            proof {
                assert(decreases_to!(t => t.subs[0]));
            }
            let part: Pattern = tidy(&h.subs[0]);
            if is_stop(name) {
                mk_one_part(h, part)
            } else {
                part
            }
        },
        Kind::Concat => {
            let parts: &[Pattern] = h.subs.as_slice();
            let mut v: Vec<Pattern> = Vec::new();
            let mut k: usize = 0;
            assert(syntax::views(v@) + tidied_links(t.subs, 0) =~= tidied_links(t.subs, 0));
            while k < parts.len()
                invariant
                    k <= parts@.len(),
                    t == h@,
                    parts@.len() == t.subs.len(),
                    forall|n: int| 0 <= n < parts@.len() ==> (#[trigger] parts@[n])@ == t.subs[n],
                    syntax::views(v@) + tidied_links(t.subs, k as nat) == tidied_links(t.subs, 0),
                decreases parts@.len() - k,
            {
                let ghost before = syntax::views(v@);
                proof {
                    assert(decreases_to!(t => t.subs[k as int]));
                }
                let part: Pattern = tidy(&parts[k]);
                let ghost more = links(part@);
                push_links(&mut v, part);
                proof {
                    let rest = tidied_links(t.subs, (k + 1) as nat);
                    assert(before + more + rest =~= before + (more + rest));
                }
                k = k + 1;
            }
            assert(syntax::views(v@) + tidied_links(t.subs, k as nat) =~= syntax::views(v@));
            mk_chain(v)
        },
        Kind::Alternation => {
            let parts: &[Pattern] = h.subs.as_slice();
            let mut v: Vec<Pattern> = Vec::new();
            let mut k: usize = 0;
            assert(syntax::views(v@) + tidied_all(t.subs, 0) =~= tidied_all(t.subs, 0));
            while k < parts.len()
                invariant
                    k <= parts@.len(),
                    t == h@,
                    parts@.len() == t.subs.len(),
                    forall|n: int| 0 <= n < parts@.len() ==> (#[trigger] parts@[n])@ == t.subs[n],
                    syntax::views(v@) + tidied_all(t.subs, k as nat) == tidied_all(t.subs, 0),
                decreases parts@.len() - k,
            {
                let ghost before = v@;
                proof {
                    assert(decreases_to!(t => t.subs[k as int]));
                }
                let part: Pattern = tidy(&parts[k]);
                let ghost one = seq![part@];
                v.push(part);
                proof {
                    let rest = tidied_all(t.subs, (k + 1) as nat);
                    assert(syntax::views(v@) =~= syntax::views(before) + one);
                    assert(syntax::views(before) + one + rest =~= syntax::views(before) + (one
                        + rest));
                }
                k = k + 1;
            }
            assert(syntax::views(v@) + tidied_all(t.subs, k as nat) =~= syntax::views(v@));
            let r: Pattern = Pattern { kind: Kind::Alternation, subs: v };
            proof {
                syntax::pattern_views(r);
            }
            r
        },
        _ => copied_pattern(h),
    }
}

/// Spells a pattern out.
fn unfold(h: &Pattern, at_start: bool, at_end: bool, search: bool) -> (r: Pattern)
    ensures
        r@ == unfolded(h@, at_start, at_end, search),
    decreases h@,
{
    let ghost t = h@;
    proof {
        syntax::pattern_parts(*h);
        syntax::pattern_views(*h);
    }
    if is_look_free(h) {
        let mut v: Vec<Pattern> = Vec::new();
        push_links(&mut v, mk_gap(at_start && search));
        push_links(&mut v, tidy(h));
        push_links(&mut v, mk_gap(at_end && search));
        proof {
            assert(syntax::views(Seq::<Pattern>::empty()) + links(gap(at_start && search)) =~= links(
                gap(at_start && search),
            ));
        }
        return mk_chain(v);
    }
    match &h.kind {
        Kind::Start => mk_gap(at_end && search),
        Kind::End => mk_gap(at_start && search),
        Kind::Capture(name) => {
            if h.subs.len() == 0 {
                return copied_pattern(h);
            }
            proof {
                assert(decreases_to!(t => t.subs[0]));
            }
            let part: Pattern = unfold(&h.subs[0], at_start, at_end, search);
            if is_stop(name) {
                mk_one_part(h, part)
            } else {
                part
            }
        },
        Kind::Concat => {
            let parts: &[Pattern] = h.subs.as_slice();
            let mut v: Vec<Pattern> = Vec::new();
            let mut k: usize = 0;
            proof {
                let all = unfolded_links(t.subs, 0, at_start, at_end, search);
                assert(syntax::views(v@) + all =~= all);
            }
            while k < parts.len()
                invariant
                    k <= parts@.len(),
                    t == h@,
                    parts@.len() == t.subs.len(),
                    forall|n: int| 0 <= n < parts@.len() ==> (#[trigger] parts@[n])@ == t.subs[n],
                    syntax::views(v@) + unfolded_links(t.subs, k as nat, at_start, at_end, search)
                        == unfolded_links(t.subs, 0, at_start, at_end, search),
                decreases parts@.len() - k,
            {
                let ghost before = syntax::views(v@);
                proof {
                    assert(decreases_to!(t => t.subs[k as int]));
                }
                let part: Pattern = unfold(
                    &parts[k],
                    at_start && k == 0,
                    at_end && k == parts.len() - 1,
                    search,
                );
                let ghost more = links(part@);
                push_links(&mut v, part);
                proof {
                    let rest = unfolded_links(t.subs, (k + 1) as nat, at_start, at_end, search);
                    assert(before + more + rest =~= before + (more + rest));
                }
                k = k + 1;
            }
            proof {
                let none = unfolded_links(t.subs, k as nat, at_start, at_end, search);
                assert(syntax::views(v@) + none =~= syntax::views(v@));
            }
            mk_chain(v)
        },
        Kind::Alternation => {
            let parts: &[Pattern] = h.subs.as_slice();
            let mut v: Vec<Pattern> = Vec::new();
            let mut k: usize = 0;
            proof {
                let all = unfolded_all(t.subs, 0, at_start, at_end, search);
                assert(syntax::views(v@) + all =~= all);
            }
            while k < parts.len()
                invariant
                    k <= parts@.len(),
                    t == h@,
                    parts@.len() == t.subs.len(),
                    forall|n: int| 0 <= n < parts@.len() ==> (#[trigger] parts@[n])@ == t.subs[n],
                    syntax::views(v@) + unfolded_all(t.subs, k as nat, at_start, at_end, search)
                        == unfolded_all(t.subs, 0, at_start, at_end, search),
                decreases parts@.len() - k,
            {
                let ghost before = v@;
                proof {
                    assert(decreases_to!(t => t.subs[k as int]));
                }
                let part: Pattern = unfold(&parts[k], at_start, at_end, search);
                let ghost one = seq![part@];
                v.push(part);
                proof {
                    let rest = unfolded_all(t.subs, (k + 1) as nat, at_start, at_end, search);
                    assert(syntax::views(v@) =~= syntax::views(before) + one);
                    assert(syntax::views(before) + one + rest =~= syntax::views(before) + (one
                        + rest));
                }
                k = k + 1;
            }
            proof {
                let none = unfolded_all(t.subs, k as nat, at_start, at_end, search);
                assert(syntax::views(v@) + none =~= syntax::views(v@));
            }
            let r: Pattern = Pattern { kind: Kind::Alternation, subs: v };
            proof {
                syntax::pattern_views(r);
            }
            r
        },
        _ => copied_pattern(h),
    }
}

/// Spells a parsed pattern out. Without `search` the pattern has to match a whole text; for a search
/// it has to match somewhere in it.
pub fn unfold_pattern(pattern: &Pattern, search: bool) -> (r: Result<Pattern, Error>)
    ensures
        match r {
            Ok(p) => pattern::placed(pattern@, true, true) && p@ == plain_form(pattern@, search),
            Err(Error::MisplacedAnchor) => !pattern::placed(pattern@, true, true),
            Err(_) => false,
        },
{
    if is_placed(pattern, true, true) {
        Ok(unfold(pattern, true, true, search))
    } else {
        Err(Error::MisplacedAnchor)
    }
}

proof fn lemma_tidied_anything()
    ensures
        tidied(anything()) == anything(),
{
    let a = anything();
    let c = a.subs[0];
    assert(tidied(c) == c);
    assert(tidied(a).subs =~= a.subs);
}

/// To search for a pattern without conditions on its surroundings is to match any text, the pattern
/// and any text: spelled out, the two are the same.
pub proof fn search_form(t: Syntax)
    requires
        pattern::look_free(t),
    ensures
        plain_form(t, true) == plain_form(
            Syntax { kind: KindView::Concat, subs: seq![anything(), t, anything()] },
            false,
        ),
{
    let a = anything();
    let u = Syntax { kind: KindView::Concat, subs: seq![a, t, a] };
    let v = links(a) + links(tidied(t)) + links(a);
    lemma_gap(true, lang::plain());
    assert(pattern::look_free(u)) by {
        assert forall|k: int| 0 <= k < u.subs.len() implies pattern::look_free(
            #[trigger] u.subs[k],
        ) by {
            assert(k == 0 || k == 1 || k == 2);
        }
    }
    lemma_tidied_anything();
    assert(tidied_links(u.subs, 3) =~= seq![]);
    assert(tidied_links(u.subs, 2) =~= links(a));
    assert(tidied_links(u.subs, 1) =~= links(tidied(t)) + links(a));
    assert(tidied_links(u.subs, 0) =~= v);
    assert(v.len() >= 2);
    assert(links(chain(v)) == v);
    assert(links(gap(false)) + v + links(gap(false)) =~= v);
}

/// None of the patterns is a concatenation.
spec fn all_links(v: Seq<Syntax>) -> bool {
    forall|k: int|
        0 <= k < v.len() ==> !((#[trigger] v[k]).kind is Concat) && !(v[k].kind is Empty)
}

proof fn lemma_chain_links(v: Seq<Syntax>)
    requires
        all_links(v),
    ensures
        links(chain(v)) == v,
{
    assert(links(chain(v)) =~= v);
}

/// What a tidied pattern is a concatenation of is not split further.
proof fn lemma_tidied_split(t: Syntax)
    ensures
        all_links(links(tidied(t))),
    decreases t, 0nat,
{
    match t.kind {
        KindView::Capture(_) => {
            if t.subs.len() > 0 && !pattern::is_stop_capture(t) {
                lemma_tidied_split(t.subs[0]);
            }
        },
        KindView::Concat => {
            lemma_tidied_all_split(t.subs, 0);
            lemma_chain_links(tidied_links(t.subs, 0));
        },
        _ => {},
    }
}

proof fn lemma_tidied_all_split(ts: Seq<Syntax>, k: nat)
    ensures
        all_links(tidied_links(ts, k)),
    decreases ts, ts.len() - k,
{
    if k < ts.len() {
        lemma_tidied_split(ts[k as int]);
        lemma_tidied_all_split(ts, k + 1);
    }
}

/// To search for a pattern that has to stand at the start of the text is to match the pattern and
/// any text.
pub proof fn search_form_at_start(t: Syntax)
    requires
        pattern::look_free(t),
    ensures
        plain_form(
            Syntax {
                kind: KindView::Concat,
                subs: seq![Syntax { kind: KindView::Start, subs: seq![] }, t],
            },
            true,
        ) == plain_form(
            Syntax { kind: KindView::Concat, subs: seq![t, anything()] },
            false,
        ),
{
    let a = anything();
    let start = Syntax { kind: KindView::Start, subs: seq![] };
    let x = Syntax { kind: KindView::Concat, subs: seq![start, t] };
    let y = Syntax { kind: KindView::Concat, subs: seq![t, a] };
    let v = links(tidied(t)) + seq![a];
    lemma_gap(true, lang::plain());
    assert(!pattern::look_free(x)) by {
        assert(x.subs[0] == start && !pattern::look_free(start));
    }
    assert(pattern::look_free(y)) by {
        assert forall|k: int| 0 <= k < y.subs.len() implies pattern::look_free(
            #[trigger] y.subs[k],
        ) by {
            assert(k == 0 || k == 1);
        }
    }
    lemma_tidied_anything();
    lemma_tidied_split(t);
    lemma_chain_links(v);
    assert(links(gap(false)) + links(tidied(t)) + links(a) =~= v);
    assert(unfolded(start, true, false, true) == nothing());
    assert(unfolded(t, false, true, true) == chain(v));
    assert(unfolded_links(x.subs, 2, true, true, true) =~= seq![]);
    assert(unfolded_links(x.subs, 1, true, true, true) =~= v);
    assert(unfolded_links(x.subs, 0, true, true, true) =~= v);
    assert(tidied_links(y.subs, 2) =~= seq![]);
    assert(tidied_links(y.subs, 1) =~= seq![a]);
    assert(tidied_links(y.subs, 0) =~= v);
    assert(links(gap(false)) + v + links(gap(false)) =~= v);
}

/// To search for a pattern that has to stand at the end of the text is to match any text and the
/// pattern.
pub proof fn search_form_at_end(t: Syntax)
    requires
        pattern::look_free(t),
    ensures
        plain_form(
            Syntax {
                kind: KindView::Concat,
                subs: seq![t, Syntax { kind: KindView::End, subs: seq![] }],
            },
            true,
        ) == plain_form(
            Syntax { kind: KindView::Concat, subs: seq![anything(), t] },
            false,
        ),
{
    let a = anything();
    let end = Syntax { kind: KindView::End, subs: seq![] };
    let x = Syntax { kind: KindView::Concat, subs: seq![t, end] };
    let y = Syntax { kind: KindView::Concat, subs: seq![a, t] };
    let v = seq![a] + links(tidied(t));
    lemma_gap(true, lang::plain());
    assert(!pattern::look_free(x)) by {
        assert(x.subs[1] == end && !pattern::look_free(end));
    }
    assert(pattern::look_free(y)) by {
        assert forall|k: int| 0 <= k < y.subs.len() implies pattern::look_free(
            #[trigger] y.subs[k],
        ) by {
            assert(k == 0 || k == 1);
        }
    }
    lemma_tidied_anything();
    lemma_tidied_split(t);
    lemma_chain_links(v);
    assert(links(a) + links(tidied(t)) + links(gap(false)) =~= v);
    assert(unfolded(end, false, true, true) == nothing());
    assert(unfolded(t, true, false, true) == chain(v));
    assert(unfolded_links(x.subs, 2, true, true, true) =~= seq![]);
    assert(unfolded_links(x.subs, 1, true, true, true) =~= seq![]);
    assert(unfolded_links(x.subs, 0, true, true, true) =~= v);
    assert(tidied_links(y.subs, 2) =~= seq![]);
    assert(tidied_links(y.subs, 1) =~= links(tidied(t)));
    assert(tidied_links(y.subs, 0) =~= v);
    assert(links(gap(false)) + v + links(gap(false)) =~= v);
}

/// To search for a pattern that has to fill the text is to match the pattern.
pub proof fn search_form_at_both(t: Syntax)
    requires
        pattern::look_free(t),
    ensures
        plain_form(
            Syntax {
                kind: KindView::Concat,
                subs: seq![
                    Syntax { kind: KindView::Start, subs: seq![] },
                    t,
                    Syntax { kind: KindView::End, subs: seq![] },
                ],
            },
            true,
        ) == plain_form(t, false),
{
    let start = Syntax { kind: KindView::Start, subs: seq![] };
    let end = Syntax { kind: KindView::End, subs: seq![] };
    let x = Syntax { kind: KindView::Concat, subs: seq![start, t, end] };
    let v = links(tidied(t));
    assert(!pattern::look_free(x)) by {
        assert(x.subs[0] == start && !pattern::look_free(start));
    }
    lemma_tidied_split(t);
    lemma_chain_links(v);
    assert(links(gap(false)) + v + links(gap(false)) =~= v);
    assert(unfolded(start, true, false, true) == nothing());
    assert(unfolded(t, false, false, true) == chain(v));
    assert(unfolded(end, false, true, true) == nothing());
    assert(unfolded_links(x.subs, 3, true, true, true) =~= seq![]);
    assert(unfolded_links(x.subs, 2, true, true, true) =~= seq![]);
    assert(unfolded_links(x.subs, 1, true, true, true) =~= v);
    assert(unfolded_links(x.subs, 0, true, true, true) =~= v);
}

} // verus!
