//! Equivalent escape grammars have one normal form.

use crate::escape;
use crate::escape::{EscapeView, FallbackView};
use crate::sorting;
use vstd::prelude::*;

verus! {

/// The two lists hold the same entries.
pub open spec fn same_members<T>(x: Seq<T>, y: Seq<T>) -> bool {
    forall|t: T|
        #![trigger x.contains(t)]
        #![trigger y.contains(t)]
        x.contains(t) <==> y.contains(t)
}

/// The two lists of ranges cover the same bytes.
pub open spec fn same_cover(x: Seq<(u8, u8)>, y: Seq<(u8, u8)>) -> bool {
    forall|b: u8|
        #![trigger escape::in_ranges(x, b)]
        #![trigger escape::in_ranges(y, b)]
        escape::in_ranges(x, b) <==> escape::in_ranges(y, b)
}

/// The two fallbacks write the same bytes in the same form.
pub open spec fn same_fallback(x: Option<FallbackView>, y: Option<FallbackView>) -> bool {
    match (x, y) {
        (Some(f), Some(g)) => {
            &&& f.prefix == g.prefix
            &&& f.suffix == g.suffix
            &&& forall|b: u8|
                #![trigger escape::covers(f, b)]
                #![trigger escape::covers(g, b)]
                escape::covers(f, b) <==> escape::covers(g, b)
        },
        (None, None) => true,
        _ => false,
    }
}

/// The two grammars differ at most in order, in repetition and in how ranges are spelled.
pub open spec fn equivalent(x: EscapeView, y: EscapeView) -> bool {
    &&& same_members(x.sequences, y.sequences)
    &&& same_members(x.must_escape, y.must_escape)
    &&& same_fallback(x.fallback, y.fallback)
}

proof fn lemma_sorted_bytes_unique(x: Seq<u8>, y: Seq<u8>)
    requires
        sorting::strictly_sorted(x),
        sorting::strictly_sorted(y),
        same_members(x, y),
    ensures
        x == y,
    decreases x.len(),
{
    if x.len() == 0 {
        if y.len() > 0 {
            assert(y.contains(y[0]));
        }
        assert(x =~= y);
    } else if y.len() == 0 {
        assert(x.contains(x[0]));
    } else {
        let a = x.last();
        let b = y.last();
        assert(x.contains(a) && y.contains(b));
        assert(y[y.index_of(a)] == a && x[x.index_of(b)] == b);
        assert(a == b);
        let p = x.drop_last();
        let q = y.drop_last();
        assert forall|t: u8| #[trigger] p.contains(t) <==> q.contains(t) by {
            if p.contains(t) {
                let i = p.index_of(t);
                assert(x[i] == t && t < a);
                assert(x.contains(t));
                assert(q[y.index_of(t)] == t);
            }
            if q.contains(t) {
                let i = q.index_of(t);
                assert(y[i] == t && t < b);
                assert(y.contains(t));
                assert(p[x.index_of(t)] == t);
            }
        }
        lemma_sorted_bytes_unique(p, q);
        assert(x =~= p.push(a));
        assert(y =~= q.push(b));
    }
}

proof fn lemma_sorted_entries_unique(x: Seq<(u8, Seq<u8>)>, y: Seq<(u8, Seq<u8>)>)
    requires
        sorting::strictly_sorted_by_first(x),
        sorting::strictly_sorted_by_first(y),
        same_members(x, y),
    ensures
        x == y,
    decreases x.len(),
{
    if x.len() == 0 {
        if y.len() > 0 {
            assert(y.contains(y[0]));
        }
        assert(x =~= y);
    } else if y.len() == 0 {
        assert(x.contains(x[0]));
    } else {
        let a = x.last();
        let b = y.last();
        assert(x.contains(a) && y.contains(b));
        assert(y[y.index_of(a)] == a && x[x.index_of(b)] == b);
        assert(a == b);
        let p = x.drop_last();
        let q = y.drop_last();
        assert forall|t: (u8, Seq<u8>)| #[trigger] p.contains(t) <==> q.contains(t) by {
            if p.contains(t) {
                let i = p.index_of(t);
                assert(x[i] == t && t.0 < a.0);
                assert(x.contains(t));
                assert(q[y.index_of(t)] == t);
            }
            if q.contains(t) {
                let i = q.index_of(t);
                assert(y[i] == t && t.0 < b.0);
                assert(y.contains(t));
                assert(p[x.index_of(t)] == t);
            }
        }
        lemma_sorted_entries_unique(p, q);
        assert(x =~= p.push(a));
        assert(y =~= q.push(b));
    }
}

/// The last of canonical ranges ends with the last byte that is covered, and starts where the bytes
/// before it stop being covered.
proof fn lemma_last_range(x: Seq<(u8, u8)>)
    requires
        escape::canonical(x),
        x.len() > 0,
    ensures
        forall|b: u8| x.last().0 <= b <= x.last().1 ==> #[trigger] escape::in_ranges(x, b),
        forall|b: u8| #[trigger] escape::in_ranges(x, b) ==> b <= x.last().1,
        forall|b: u8| b + 1 == x.last().0 ==> !#[trigger] escape::in_ranges(x, b),
        forall|b: u8| #[trigger]
            escape::in_ranges(x.drop_last(), b) <==> escape::in_ranges(x, b) && b < x.last().0,
{
    let n = x.len() - 1;
    let p = x.drop_last();
    assert forall|b: u8| x.last().0 <= b <= x.last().1 implies #[trigger] escape::in_ranges(
        x,
        b,
    ) by {
        assert(x[n].0 <= b <= x[n].1);
    }
    assert forall|b: u8| #[trigger] escape::in_ranges(x, b) implies b <= x.last().1 && b + 1
        != x.last().0 by {
        let i = choose|i: int| 0 <= i < x.len() && (#[trigger] x[i]).0 <= b <= x[i].1;
        if i < n {
            assert(x[i].1 + 1 < x[n].0);
            assert(x[n].0 <= x[n].1);
        }
    }
    assert forall|b: u8| #[trigger] escape::in_ranges(p, b) <==> escape::in_ranges(x, b) && b
        < x.last().0 by {
        if escape::in_ranges(p, b) {
            let i = choose|i: int| 0 <= i < p.len() && (#[trigger] p[i]).0 <= b <= p[i].1;
            assert(x[i].0 <= b <= x[i].1);
            assert(x[i].1 + 1 < x[n].0);
        }
        if escape::in_ranges(x, b) && b < x.last().0 {
            let i = choose|i: int| 0 <= i < x.len() && (#[trigger] x[i]).0 <= b <= x[i].1;
            assert(p[i] == x[i]);
        }
    }
}

proof fn lemma_canonical_unique(x: Seq<(u8, u8)>, y: Seq<(u8, u8)>)
    requires
        escape::canonical(x),
        escape::canonical(y),
        same_cover(x, y),
    ensures
        x == y,
    decreases x.len(),
{
    if x.len() == 0 {
        if y.len() > 0 {
            assert(escape::in_ranges(y, y[0].0)) by {
                assert(y[0].0 <= y[0].1);
            }
            assert(escape::in_ranges(x, y[0].0));
        }
        assert(x =~= y);
    } else if y.len() == 0 {
        assert(escape::in_ranges(x, x[0].0)) by {
            assert(x[0].0 <= x[0].1);
        }
        assert(escape::in_ranges(y, x[0].0));
    } else {
        let a = x.last();
        let c = y.last();
        assert(a.0 <= a.1 && c.0 <= c.1);
        lemma_last_range(x);
        lemma_last_range(y);
        assert(escape::in_ranges(x, a.1) && escape::in_ranges(y, c.1));
        assert(escape::in_ranges(y, a.1) && escape::in_ranges(x, c.1));
        assert(a.1 == c.1);
        if a.0 < c.0 {
            let b = (c.0 - 1) as u8;
            assert(escape::in_ranges(x, b));
            assert(escape::in_ranges(y, b));
        }
        if c.0 < a.0 {
            let b = (a.0 - 1) as u8;
            assert(escape::in_ranges(y, b));
            assert(escape::in_ranges(x, b));
        }
        assert(a == c);
        let p = x.drop_last();
        let q = y.drop_last();
        assert(same_cover(p, q));
        lemma_canonical_unique(p, q);
        assert(x =~= p.push(a));
        assert(y =~= q.push(c));
    }
}

/// Fallbacks that cover the same bytes and spell their ranges in the canonical way spell them alike.
proof fn lemma_ranges_unique(f: FallbackView, g: FallbackView)
    requires
        escape::ranges_canonical(f),
        escape::ranges_canonical(g),
        forall|b: u8| #[trigger] escape::covers(f, b) <==> escape::covers(g, b),
    ensures
        f.ranges == g.ranges,
{
    match (f.ranges, g.ranges) {
        (Some(x), Some(y)) => {
            assert forall|b: u8| escape::in_ranges(x, b) <==> escape::in_ranges(y, b) by {
                assert(escape::covers(f, b) <==> escape::covers(g, b));
            }
            lemma_canonical_unique(x, y);
        },
        (Some(x), None) => {
            let b = choose|b: u8| !#[trigger] escape::in_ranges(x, b);
            assert(escape::covers(f, b) <==> escape::covers(g, b));
        },
        (None, Some(y)) => {
            let b = choose|b: u8| !#[trigger] escape::in_ranges(y, b);
            assert(escape::covers(f, b) <==> escape::covers(g, b));
        },
        (None, None) => {},
    }
}

/// Grammars that differ at most in order, in repetition and in how ranges are spelled have the same
/// normal form.
pub proof fn equivalent_normalize_alike(x: EscapeView, y: EscapeView, n: EscapeView, m: EscapeView)
    requires
        equivalent(x, y),
        escape::normalized(n, x),
        escape::normalized(m, y),
    ensures
        n == m,
{
    lemma_sorted_entries_unique(n.sequences, m.sequences);
    lemma_sorted_bytes_unique(n.must_escape, m.must_escape);
    if n.fallback is Some {
        let f = n.fallback->0;
        let g = m.fallback->0;
        assert forall|b: u8| #[trigger] escape::covers(f, b) <==> escape::covers(g, b) by {
            assert(escape::covers(x.fallback->0, b) <==> escape::covers(y.fallback->0, b));
        }
        lemma_ranges_unique(f, g);
    }
    assert(n.fallback == m.fallback);
}

/// Ranges that cover every byte may be left out: the normal form is the same.
pub proof fn full_ranges_left_out(
    x: EscapeView,
    f: FallbackView,
    ranges: Seq<(u8, u8)>,
    n: EscapeView,
    m: EscapeView,
)
    requires
        forall|b: u8| #[trigger] escape::in_ranges(ranges, b),
        escape::normalized(
            n,
            EscapeView { fallback: Some(FallbackView { ranges: Some(ranges), ..f }), ..x },
        ),
        escape::normalized(
            m,
            EscapeView { fallback: Some(FallbackView { ranges: None, ..f }), ..x },
        ),
    ensures
        n == m,
{
    equivalent_normalize_alike(
        EscapeView { fallback: Some(FallbackView { ranges: Some(ranges), ..f }), ..x },
        EscapeView { fallback: Some(FallbackView { ranges: None, ..f }), ..x },
        n,
        m,
    );
}

/// A grammar has at most one normal form.
pub proof fn normal_form_unique(x: EscapeView, n: EscapeView, m: EscapeView)
    requires
        escape::normalized(n, x),
        escape::normalized(m, x),
    ensures
        n == m,
{
    equivalent_normalize_alike(x, x, n, m);
}

/// A normal form is its own normal form: to normalize again changes nothing.
pub proof fn normal_form_stable(x: EscapeView, n: EscapeView, m: EscapeView)
    requires
        escape::normalized(n, x),
    ensures
        escape::normalized(n, n),
        escape::normalized(m, n) ==> m == n,
{
    if escape::normalized(m, n) {
        normal_form_unique(n, n, m);
    }
}

/// A grammar whose ranges are valid can be used if and only if its normal form can.
pub proof fn normal_form_usable(x: EscapeView, n: EscapeView)
    requires
        escape::normalized(n, x),
        escape::ranges_valid(x),
    ensures
        escape::usable(n) == escape::usable(x),
{
    escape::normalized_reading(n, x);
    assert forall|b: u8| escape::conflict(n.sequences, b) == #[trigger] escape::conflict(
        x.sequences,
        b,
    ) by {
        if escape::conflict(n.sequences, b) {
            let (p, q) = choose|p: Seq<u8>, q: Seq<u8>|
                p != q && #[trigger] n.sequences.contains((b, p)) && #[trigger]
                    n.sequences.contains((b, q));
            assert(x.sequences.contains((b, p)) && x.sequences.contains((b, q)));
        }
        if escape::conflict(x.sequences, b) {
            let (p, q) = choose|p: Seq<u8>, q: Seq<u8>|
                p != q && #[trigger] x.sequences.contains((b, p)) && #[trigger]
                    x.sequences.contains((b, q));
            assert(n.sequences.contains((b, p)) && n.sequences.contains((b, q)));
        }
    }
    if escape::usable(n) {
        assert forall|b: u8| !#[trigger] escape::conflict(x.sequences, b) by {
            assert(!escape::conflict(n.sequences, b));
        }
        assert forall|b: u8| !#[trigger] escape::unrepresentable(x, b) by {
            assert(!escape::unrepresentable(n, b));
        }
    }
    if escape::usable(x) {
        assert forall|b: u8| !#[trigger] escape::conflict(n.sequences, b) by {
            assert(!escape::conflict(x.sequences, b));
        }
        assert forall|b: u8| !#[trigger] escape::unrepresentable(n, b) by {
            assert(!escape::unrepresentable(x, b));
        }
    }
}

} // verus!
