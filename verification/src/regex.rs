//! Matching.

use crate::builder::RegexBuilder;
use crate::derivative;
use crate::derivative::derivative;
use crate::error::Error;
use crate::expr::{ExprRef, ExprSet};
use crate::lang;
use crate::lang::Lang;
use crate::pattern;
use crate::semantics;
use crate::syntax;
use crate::unfold;
use std::collections::HashMap;
use vstd::prelude::*;

verus! {

broadcast use vstd::std_specs::hash::group_hash_axioms;

/// The language of no string has none.
pub open spec fn is_empty(a: Lang) -> bool {
    forall|w: Seq<u8>| !#[trigger] a(w)
}

/// The strings that may follow `u`.
pub open spec fn rest_of(a: Lang, u: Seq<u8>) -> Lang {
    |w: Seq<u8>| a(u + w)
}

/// How many byte strings are no longer than `n`.
pub open spec fn strings_up_to(n: nat) -> nat
    decreases n,
{
    if n == 0 {
        1
    } else {
        1 + 256 * strings_up_to((n - 1) as nat)
    }
}

proof fn lemma_strings_monotonic(a: nat, b: nat)
    requires
        a <= b,
    ensures
        strings_up_to(a) <= strings_up_to(b),
    decreases b,
{
    if a < b {
        lemma_strings_monotonic(a, (b - 1) as nat);
    }
}

/// A regex to match texts with.
#[derive(Debug)]
pub struct Regex {
    set: ExprSet,
    root: ExprRef,
    table: HashMap<u64, ExprRef>,
    empty: bool,
}

/// A place in the course of matching a text.
#[derive(Clone, Copy, Debug, PartialEq, Eq, Hash, Structural)]
pub struct StateID {
    e: ExprRef,
}

impl StateID {
    /// Whether it is seen that no text leads from here to a match.
    pub closed spec fn dead(&self) -> bool {
        self.e.id == 1
    }

    /// Whether it is seen that no text leads from here to a match.
    pub fn is_dead(&self) -> (r: bool)
        ensures
            r == self.dead(),
    {
        self.e.id == 1
    }
}

/// Some place of the list holds what follows the byte after the `k`-th.
spec fn leads(set: &ExprSet, v: Seq<ExprRef>, k: int, b: u8) -> bool {
    exists|m: int| 0 <= m < v.len() && derivative::is_after(set, v[k], b, #[trigger] v[m])
}

/// One of the first `end` places holds what may follow `u`.
spec fn reaches(set: &ExprSet, v: Seq<ExprRef>, end: int, a: Lang, u: Seq<u8>) -> bool {
    exists|k: int|
        0 <= k < end && set.lang(#[trigger] v[k], lang::plain()) == rest_of(a, u)
}

/// The expression matches what may follow some string.
spec fn stems(set: &ExprSet, e: ExprRef, a: Lang) -> bool {
    exists|u: Seq<u8>| set.lang(e, lang::plain()) == #[trigger] rest_of(a, u)
}

/// `us[k]` is the string of an earlier place and one byte, and `v[k]` is what follows the byte after
/// the expression at that place, which is `i` and the byte less than `c`, or before `i`.
pub open spec fn comes_after(
    set: &ExprSet,
    v: Seq<ExprRef>,
    us: Seq<Seq<u8>>,
    k: int,
    i: int,
    c: int,
) -> bool {
    exists|j: int, b: u8|
        0 <= j < k && (j < i || j == i && b < c) && us[k] == us[j].push(b)
            && #[trigger] derivative::is_after(set, v[j], b, v[k])
}

/// The strings are different, the first is empty, and each other one leads from the first expression
/// to the one at its place.
pub open spec fn spelling(
    set: &ExprSet,
    v: Seq<ExprRef>,
    us: Seq<Seq<u8>>,
    i: int,
    c: int,
) -> bool {
    &&& us.len() == v.len()
    &&& us.len() > 0
    &&& us[0] == Seq::<u8>::empty()
    &&& us.no_duplicates()
    &&& forall|k: int| 0 < k < v.len() ==> #[trigger] comes_after(set, v, us, k, i, c)
}

/// The list holds different expressions, `root` first, each of which is what follows some byte after
/// an earlier one, and none of which matches the empty string. Different strings lead to them.
pub open spec fn derived(set: &ExprSet, root: ExprRef, v: Seq<ExprRef>, us: Seq<Seq<u8>>) -> bool {
    &&& v.len() > 0
    &&& v[0] == root
    &&& set.all_valid(v)
    &&& v.no_duplicates()
    &&& spelling(set, v, us, v.len() as int, 0)
    &&& forall|k: int|
        0 <= k < v.len() ==> !set.lang(#[trigger] v[k], lang::plain())(Seq::empty())
}

/// More than `max_fuel` different expressions follow from `root`, byte after byte, before any of them
/// matches the empty string.
pub open spec fn outruns(set: &ExprSet, root: ExprRef, max_fuel: u64) -> bool {
    exists|more: ExprSet, v: Seq<ExprRef>, us: Seq<Seq<u8>>| #[trigger]
        derived(&more, root, v, us) && more.wf() && more.keeps(set) && v.len() > max_fuel
}

/// The expression to which a string leads matches what may follow the string, and what holds the
/// first expression holds, after the string, that one.
pub proof fn lemma_derived(set: &ExprSet, root: ExprRef, v: Seq<ExprRef>, us: Seq<Seq<u8>>, k: int)
    requires
        derived(set, root, v, us),
        0 <= k < v.len(),
    ensures
        set.lang(v[k], lang::plain()) == rest_of(set.lang(root, lang::plain()), us[k]),
        forall|l: Lang| #[trigger] set.held(root, l) ==> set.held(v[k], rest_of(l, us[k])),
    decreases k,
{
    let p = lang::plain();
    if k == 0 {
        assert forall|l: Lang| #[trigger] rest_of(l, us[0]) == l by {
            assert forall|w: Seq<u8>| #[trigger] rest_of(l, us[0])(w) == l(w) by {
                assert(Seq::<u8>::empty() + w =~= w);
            }
            assert(rest_of(l, us[0]) =~= l);
        }
        assert(rest_of(set.lang(root, p), us[0]) == set.lang(root, p));
    } else {
        let n = v.len() as int;
        assert(comes_after(set, v, us, k, n, 0));
        let (j, b) = choose|j: int, b: u8|
            0 <= j < k && (j < n || j == n && b < 0) && us[k] == us[j].push(b)
                && #[trigger] derivative::is_after(set, v[j], b, v[k]);
        lemma_derived(set, root, v, us, j);
        assert forall|l: Lang| derivative::after(#[trigger] rest_of(l, us[j]), b) == rest_of(
            l,
            us[k],
        ) by {
            let r = rest_of(l, us[k]);
            assert forall|w: Seq<u8>| #[trigger]
                derivative::after(rest_of(l, us[j]), b)(w) == r(w) by {
                assert(us[j] + (seq![b] + w) =~= us[j].push(b) + w);
            }
            assert(derivative::after(rest_of(l, us[j]), b) =~= r);
        }
        assert forall|l: Lang| #[trigger] set.held(root, l) implies set.held(
            v[k],
            rest_of(l, us[k]),
        ) by {
            assert(set.held(v[j], rest_of(l, us[j])));
        }
    }
}

/// Some strings spell the list.
spec fn spelled(set: &ExprSet, v: Seq<ExprRef>, i: int, c: int) -> bool {
    exists|us: Seq<Seq<u8>>| #[trigger] spelling(set, v, us, i, c)
}

/// The strings stay what they are while the set grows and more places are looked at.
proof fn lemma_spelling_kept(
    now: &ExprSet,
    before: &ExprSet,
    v: Seq<ExprRef>,
    us: Seq<Seq<u8>>,
    i: int,
    c: int,
    i2: int,
    c2: int,
)
    requires
        now.keeps(before),
        spelling(before, v, us, i, c),
        i < i2 || i == i2 && c <= c2 || c == 256 && i2 == i + 1,
    ensures
        spelling(now, v, us, i2, c2),
{
    assert forall|k: int| 0 < k < v.len() implies #[trigger] comes_after(
        now,
        v,
        us,
        k,
        i2,
        c2,
    ) by {
        assert(comes_after(before, v, us, k, i, c));
        let (j, b) = choose|j: int, b: u8|
            0 <= j < k && (j < i || j == i && b < c) && us[k] == us[j].push(b)
                && #[trigger] derivative::is_after(before, v[j], b, v[k]);
        derivative::lemma_is_after_kept(now, before, v[j], b, v[k]);
    }
}

/// One more expression, to which the next byte leads.
proof fn lemma_spelling_more(
    set: &ExprSet,
    v: Seq<ExprRef>,
    us: Seq<Seq<u8>>,
    i: int,
    b: u8,
    d: ExprRef,
)
    requires
        spelling(set, v, us, i, b as int),
        0 <= i < v.len(),
        derivative::is_after(set, v[i], b, d),
    ensures
        spelling(set, v.push(d), us.push(us[i].push(b)), i, b + 1),
{
    let longer = v.push(d);
    let u = us[i].push(b);
    let more = us.push(u);
    assert forall|k: int| 0 < k < longer.len() implies #[trigger] comes_after(
        set,
        longer,
        more,
        k,
        i,
        b + 1,
    ) by {
        if k < v.len() {
            assert(comes_after(set, v, us, k, i, b as int));
            let (j, x) = choose|j: int, x: u8|
                0 <= j < k && (j < i || j == i && x < b) && us[k] == us[j].push(x)
                    && #[trigger] derivative::is_after(set, v[j], x, v[k]);
            assert(more[k] == more[j].push(x));
            assert(derivative::is_after(set, longer[j], x, longer[k]));
        } else {
            assert(more[k] == more[i].push(b));
            assert(derivative::is_after(set, longer[i], b, longer[k]));
        }
    }
    assert forall|k: int| 0 <= k < us.len() implies #[trigger] us[k] != u by {
        if us[k] == u {
            assert(u.len() > 0);
            assert(k > 0);
            assert(comes_after(set, v, us, k, i, b as int));
            let (j, x) = choose|j: int, x: u8|
                0 <= j < k && (j < i || j == i && x < b) && us[k] == us[j].push(x)
                    && #[trigger] derivative::is_after(set, v[j], x, v[k]);
            assert(u.drop_last() =~= us[i]);
            assert(us[j].push(x).drop_last() =~= us[j]);
            assert(u.last() == b && us[j].push(x).last() == x);
            assert(us[j] == us[i] && x == b);
            assert(j == i);
            assert(false);
        }
    }
    assert forall|j: int, k: int|
        0 <= j < more.len() && 0 <= k < more.len() && j != k implies more[j] != more[k] by {
        if j < us.len() && k < us.len() {
            assert(more[j] == us[j] && more[k] == us[k]);
        } else if j < us.len() {
            assert(us[j] != u);
        } else {
            assert(us[k] != u);
        }
    }
}

/// `seen` tells the place of each expression of the list.
spec fn placed(v: Seq<ExprRef>, seen: Map<usize, usize>) -> bool {
    forall|k: int|
        0 <= k < v.len() ==> seen.contains_key((#[trigger] v[k]).id) && seen[v[k].id] == k
}

/// One more expression, which was not seen yet.
proof fn lemma_placed_more(
    v: Seq<ExprRef>,
    seen: Map<usize, usize>,
    d: ExprRef,
    place: usize,
)
    requires
        placed(v, seen),
        !seen.contains_key(d.id),
        place == v.len(),
    ensures
        placed(v.push(d), seen.insert(d.id, place)),
        v.push(d).no_duplicates(),
{
    let longer = v.push(d);
    let more = seen.insert(d.id, place);
    assert forall|k: int| 0 <= k < longer.len() implies more.contains_key((#[trigger] longer[k]).id)
        && more[longer[k].id] == k by {
        if k < v.len() {
            assert(longer[k] == v[k]);
            assert(seen.contains_key(v[k].id));
        }
    }
    assert forall|j: int, k: int|
        0 <= j < longer.len() && 0 <= k < longer.len() && j != k implies longer[j] != longer[k] by {
        assert(more[longer[j].id] == j && more[longer[k].id] == k);
    }
}

/// The list holds valid expressions that stem from the language and do not match the empty string,
/// and `seen` tells their places.
#[verifier::opaque]
spec fn listed(set: &ExprSet, v: Seq<ExprRef>, seen: Map<usize, usize>, a: Lang) -> bool {
    &&& set.all_valid(v)
    &&& forall|id: usize| #[trigger]
        seen.contains_key(id) ==> seen[id] < v.len() && v[seen[id] as int].id == id
    &&& forall|k: int|
        0 <= k < v.len() ==> stems(set, #[trigger] v[k], a) && !set.lang(v[k], lang::plain())(
            Seq::empty(),
        )
    &&& placed(v, seen)
}

/// The first `i` places lead on within the list, and all strings of length `n` or less lead to
/// one of the first `end`.
#[verifier::opaque]
spec fn explored(set: &ExprSet, v: Seq<ExprRef>, i: int, end: int, n: nat, a: Lang) -> bool {
    &&& forall|k: int, b: u8| 0 <= k < i ==> #[trigger] leads(set, v, k, b)
    &&& forall|u: Seq<u8>| u.len() <= n ==> #[trigger] reaches(set, v, end, a, u)
}

/// What was explored stays so while the set and the list grow.
proof fn lemma_explored_kept(
    now: &ExprSet,
    before: &ExprSet,
    v: Seq<ExprRef>,
    longer: Seq<ExprRef>,
    i: int,
    end: int,
    n: nat,
    a: Lang,
)
    requires
        now.keeps(before),
        before.all_valid(v),
        i <= v.len() <= longer.len(),
        end <= v.len(),
        forall|k: int| 0 <= k < v.len() ==> #[trigger] longer[k] == v[k],
        explored(before, v, i, end, n, a),
    ensures
        explored(now, longer, i, end, n, a),
{
    reveal(explored);
    assert forall|k: int, b: u8| 0 <= k < i implies #[trigger] leads(now, longer, k, b) by {
        lemma_leads_kept(now, before, v, longer, k, b);
    }
    assert forall|u: Seq<u8>| u.len() <= n implies #[trigger] reaches(now, longer, end, a, u) by {
        lemma_reaches_kept(now, before, v, longer, end, a, u);
    }
}

/// One more place leads on within the list.
proof fn lemma_explored_more(
    set: &ExprSet,
    v: Seq<ExprRef>,
    i: int,
    end: int,
    n: nat,
    a: Lang,
)
    requires
        explored(set, v, i, end, n, a),
        forall|b: u8| #[trigger] leads(set, v, i, b),
    ensures
        explored(set, v, i + 1, end, n, a),
{
    reveal(explored);
}

/// No string of length `n` or less is matched.
proof fn lemma_explored_none(
    set: &ExprSet,
    v: Seq<ExprRef>,
    seen: Map<usize, usize>,
    i: int,
    end: int,
    n: nat,
    a: Lang,
    w: Seq<u8>,
)
    requires
        explored(set, v, i, end, n, a),
        listed(set, v, seen, a),
        end <= v.len(),
        w.len() <= n,
    ensures
        !a(w),
{
    reveal(explored);
    reveal(listed);
    assert(reaches(set, v, end, a, w));
    let k = choose|k: int|
        0 <= k < end && set.lang(#[trigger] v[k], lang::plain()) == rest_of(a, w);
    assert(w + Seq::<u8>::empty() =~= w);
    assert(!rest_of(a, w)(Seq::empty()));
}

/// When all places of one length have been looked at, all of the next length are known.
proof fn lemma_next_level(set: &ExprSet, v: Seq<ExprRef>, end: int, n: nat, a: Lang)
    requires
        0 <= end <= v.len(),
        explored(set, v, end, end, n, a),
    ensures
        explored(set, v, end, v.len() as int, n + 1, a),
{
    reveal(explored);
    let p = lang::plain();
    assert forall|u: Seq<u8>| u.len() <= n + 1 implies #[trigger] reaches(
        set,
        v,
        v.len() as int,
        a,
        u,
    ) by {
        if u.len() <= n {
            assert(reaches(set, v, end, a, u));
            let k = choose|k: int| 0 <= k < end && set.lang(#[trigger] v[k], p) == rest_of(a, u);
            assert(set.lang(v[k], p) == rest_of(a, u));
        } else {
            let t = u.drop_last();
            let b = u.last();
            assert(reaches(set, v, end, a, t));
            let k = choose|k: int| 0 <= k < end && set.lang(#[trigger] v[k], p) == rest_of(a, t);
            assert(leads(set, v, k, b));
            let m = choose|m: int|
                0 <= m < v.len() && derivative::is_after(set, v[k], b, #[trigger] v[m]);
            lemma_stems_after(set, v[k], b, v[m], a, t);
            assert(t.push(b) =~= u);
        }
    }
}

/// At the start only the whole language is listed.
proof fn lemma_explored_start(set: &ExprSet, root: ExprRef, seen: Map<usize, usize>, a: Lang)
    requires
        set.valid(root),
        set.lang(root, lang::plain()) == a,
        !a(Seq::empty()),
        seen == Map::<usize, usize>::empty().insert(root.id, 0),
    ensures
        explored(set, seq![root], 0, 1, 0, a),
        listed(set, seq![root], seen, a),
        spelled(set, seq![root], 0, 0),
{
    reveal(explored);
    reveal(listed);
    let v = seq![root];
    assert(spelling(set, v, seq![Seq::<u8>::empty()], 0, 0));
    assert(placed(v, seen));
    assert(rest_of(a, Seq::empty()) =~= a) by {
        assert forall|w: Seq<u8>| #[trigger] rest_of(a, Seq::empty())(w) == a(w) by {
            assert(Seq::<u8>::empty() + w =~= w);
        }
    }
    assert(set.lang(v[0], lang::plain()) == rest_of(a, Seq::empty()));
    assert forall|u: Seq<u8>| u.len() <= 0 implies #[trigger] reaches(set, v, 1, a, u) by {
        assert(u =~= Seq::empty());
        assert(set.lang(v[0], lang::plain()) == rest_of(a, u));
    }
}

proof fn lemma_leads_kept(
    now: &ExprSet,
    before: &ExprSet,
    v: Seq<ExprRef>,
    longer: Seq<ExprRef>,
    k: int,
    b: u8,
)
    requires
        now.keeps(before),
        before.all_valid(v),
        0 <= k < v.len() <= longer.len(),
        forall|i: int| 0 <= i < v.len() ==> #[trigger] longer[i] == v[i],
        leads(before, v, k, b),
    ensures
        leads(now, longer, k, b),
{
    let m = choose|m: int|
        0 <= m < v.len() && derivative::is_after(before, v[k], b, #[trigger] v[m]);
    derivative::lemma_is_after_kept(now, before, v[k], b, v[m]);
    assert(longer[k] == v[k] && longer[m] == v[m]);
    assert(derivative::is_after(now, longer[k], b, longer[m]));
}

proof fn lemma_reaches_kept(
    now: &ExprSet,
    before: &ExprSet,
    v: Seq<ExprRef>,
    longer: Seq<ExprRef>,
    end: int,
    a: Lang,
    u: Seq<u8>,
)
    requires
        now.keeps(before),
        before.all_valid(v),
        end <= v.len() <= longer.len(),
        forall|i: int| 0 <= i < v.len() ==> #[trigger] longer[i] == v[i],
        reaches(before, v, end, a, u),
    ensures
        reaches(now, longer, end, a, u),
{
    let k = choose|k: int|
        0 <= k < end && before.lang(#[trigger] v[k], lang::plain()) == rest_of(a, u);
    assert(before.valid(v[k]));
    assert(now.tree(v[k]) == before.tree(v[k]));
    assert(longer[k] == v[k]);
}

proof fn lemma_stems_kept(now: &ExprSet, before: &ExprSet, e: ExprRef, a: Lang)
    requires
        now.keeps(before),
        before.valid(e),
        stems(before, e, a),
    ensures
        stems(now, e, a),
{
    assert(now.tree(e) == before.tree(e));
}

/// Where every place leads on within the list, and none matches the empty string, none matches
/// any.
proof fn lemma_closed(set: &ExprSet, v: Seq<ExprRef>, k: int, w: Seq<u8>)
    requires
        0 <= k < v.len(),
        forall|i: int, b: u8| 0 <= i < v.len() ==> #[trigger] leads(set, v, i, b),
        forall|i: int|
            0 <= i < v.len() ==> !set.lang(#[trigger] v[i], lang::plain())(Seq::empty()),
    ensures
        !set.lang(v[k], lang::plain())(w),
    decreases w.len(),
{
    if w.len() == 0 {
        assert(w =~= Seq::empty());
        assert(!set.lang(v[k], lang::plain())(Seq::empty()));
    } else {
        let b = w[0];
        let rest = w.skip(1);
        assert(leads(set, v, k, b));
        let m = choose|m: int|
            0 <= m < v.len() && derivative::is_after(set, v[k], b, #[trigger] v[m]);
        lemma_closed(set, v, m, rest);
        assert(w =~= seq![b] + rest);
        assert(set.lang(v[m], lang::plain())(rest) == derivative::after(
            set.lang(v[k], lang::plain()),
            b,
        )(rest));
    }
}

/// What follows a byte stems from what the expression stems from.
proof fn lemma_stems_after(set: &ExprSet, e: ExprRef, b: u8, d: ExprRef, a: Lang, u: Seq<u8>)
    requires
        set.lang(e, lang::plain()) == rest_of(a, u),
        derivative::is_after(set, e, b, d),
    ensures
        set.lang(d, lang::plain()) == rest_of(a, u.push(b)),
{
    let l = set.lang(d, lang::plain());
    let r = rest_of(a, u.push(b));
    assert forall|w: Seq<u8>| #[trigger] l(w) == r(w) by {
        assert(l(w) == rest_of(a, u)(seq![b] + w));
        assert(u + (seq![b] + w) =~= u.push(b) + w);
    }
    assert(l =~= r);
}

impl Regex {
    /// The strings that are matched.
    pub closed spec fn language(&self) -> Lang {
        self.set.lang(self.root, lang::plain())
    }

    /// The expressions are well formed, and what is remembered of them is right.
    spec fn sound(&self) -> bool {
        &&& self.set.wf()
        &&& self.set.valid(self.root)
        &&& derivative::table_ok(&self.set, self.table@)
    }

    /// The expressions are well formed, and what is remembered is right.
    pub closed spec fn wf(&self) -> bool {
        &&& self.sound()
        &&& self.empty == is_empty(self.language())
    }

    /// The regex of a pattern, which has to match a whole text.
    pub fn new(pattern: &str) -> (r: Result<Regex, Error>)
        ensures
            match r {
                Ok(x) => {
                    &&& semantics::pattern_ok(syntax::default_flags(), pattern@)
                    &&& x.wf()
                    &&& x.language() == semantics::pattern_lang(
                        syntax::default_flags(),
                        pattern@,
                        false,
                        lang::plain(),
                    )
                    &&& syntax::parsed(syntax::default_flags(), pattern@) matches Ok(t)
                    &&& !pattern::has_stop(t) || pattern::stops_match(unfold::plain_form(t, false))
                        ==> x.starts_clear()
                },
                Err(e) => semantics::is_pattern_error(syntax::default_flags(), pattern@, e),
            },
    {
        let mut builder: RegexBuilder = RegexBuilder::new();
        match builder.mk_regex(pattern) {
            Err(e) => Err(e),
            Ok(e) => Ok(builder.into_regex(e)),
        }
    }

    /// A regex of an expression, of which it is found out whether it matches any string. At most
    /// `max_fuel` expressions are looked at for that; `u64::MAX` means that there is no limit.
    pub fn new_with_exprset(set: ExprSet, root: ExprRef, max_fuel: u64) -> (r: Result<Regex, Error>)
        requires
            set.wf(),
            set.valid(root),
        ensures
            match r {
                Ok(r) => {
                    &&& r.wf()
                    &&& r.language() == set.lang(root, lang::plain())
                    &&& set.clear(root) ==> r.starts_clear()
                },
                Err(e) => {
                    &&& e is OutOfFuel
                    &&& max_fuel < u64::MAX
                    &&& outruns(&set, root, max_fuel)
                    &&& root.id != 1
                    &&& forall|w: Seq<u8>| #[trigger]
                        set.lang(root, lang::plain())(w) ==> max_fuel < strings_up_to(w.len())
                },
            },
    {
        let mut r: Regex = Regex { set, root, table: HashMap::new(), empty: false };
        match r.find_match(max_fuel) {
            Some(found) => {
                r.empty = !found;
                Ok(r)
            },
            None => Err(Error::OutOfFuel),
        }
    }

    /// Whether any string is matched, where that is found out.
    fn find_match(&mut self, max_fuel: u64) -> (r: Option<bool>)
        requires
            old(self).sound(),
        ensures
            final(self).sound(),
            final(self).language() == old(self).language(),
            old(self).starts_clear() ==> final(self).starts_clear(),
            match r {
                Some(found) => found == !is_empty(old(self).language()),
                None => {
                    &&& max_fuel < u64::MAX
                    &&& outruns(&old(self).set, old(self).root, max_fuel)
                    &&& old(self).root.id != 1
                    &&& forall|w: Seq<u8>| #[trigger]
                        old(self).language()(w) ==> max_fuel < strings_up_to(w.len())
                },
            },
    {
        let ghost a = self.language();
        let ghost p = lang::plain();
        proof {
            self.set.lemma_constants();
        }
        if self.root.id == 1 {
            assert(self.root == ExprRef { id: 1 });
            return Some(false);
        }
        if self.set.is_nullable(self.root) {
            assert(a(Seq::empty()));
            return Some(true);
        }
        if max_fuel == 0 {
            proof {
                let one = seq![self.root];
                assert(derived(&self.set, self.root, one, seq![Seq::<u8>::empty()]));
            }
            return None;
        }
        let mut seen: HashMap<usize, usize> = HashMap::new();
        let mut v: Vec<ExprRef> = Vec::new();
        v.push(self.root);
        seen.insert(self.root.id, 0);
        let mut i: usize = 0;
        let ghost mut n: nat = 0;
        let ghost mut end: int = 1;
        proof {
            assert(v@ =~= seq![self.root]);
            lemma_explored_start(&self.set, self.root, seen@, a);
        }
        while i < v.len()
            invariant
                old(self).starts_clear() ==> self.starts_clear(),
                self.sound(),
                self.language() == a,
                old(self).root.id != 1,
                old(self).language() == a,
                i <= v@.len(),
                v@.len() > 0,
                v@[0] == self.root,
                self.root == old(self).root,
                self.set.keeps(&old(self).set),
                v@.len() <= 1 + 256 * i,
                i <= end <= v@.len(),
                end <= strings_up_to(n),
                listed(&self.set, v@, seen@, a),
                spelled(&self.set, v@, i as int, 0),
                explored(&self.set, v@, i as int, end, n, a),
                v@.len() <= max_fuel,
            decreases max_fuel - i,
        {
            proof {
                if i == end {
                    lemma_next_level(&self.set, v@, end, n, a);
                    n = n + 1;
                    end = v@.len() as int;
                }
            }
            let ghost before = *self;
            let ghost v0 = v@;
            let step: Option<bool> = self.expand(&mut v, &mut seen, i, max_fuel, Ghost(a));
            proof {
                assert(before.set.all_valid(v0)) by {
                    reveal(listed);
                }
                lemma_explored_kept(&self.set, &before.set, v0, v@, i as int, end, n, a);
            }
            proof {
                assert(self.set.tree(self.root) == before.set.tree(self.root));
                assert forall|x: ExprRef|
                    #![trigger self.set.tree(x)]
                    #![trigger self.set.valid(x)]
                    old(self).set.valid(x) implies self.set.valid(x) && self.set.tree(x) == old(
                    self,
                ).set.tree(x) && self.set.node(x)@ == old(self).set.node(x)@ by {
                    assert(before.set.valid(x));
                }
            }
            match step {
                Some(found) => {
                    if found {
                        return Some(true);
                    }
                    proof {
                        assert forall|w: Seq<u8>| #[trigger] a(w) implies max_fuel
                            < strings_up_to(w.len()) by {
                            if w.len() <= n {
                                lemma_explored_none(
                                    &self.set,
                                    v@,
                                    seen@,
                                    i as int,
                                    end,
                                    n,
                                    a,
                                    w,
                                );
                            } else {
                                lemma_strings_monotonic(n + 1, w.len());
                                let m = strings_up_to(n);
                                assert(i + 1 <= end && end <= m);
                                assert(strings_up_to(n + 1) == 1 + 256 * m);
                                assert(max_fuel <= 256 * (i + 1));
                            }
                        }
                    }
                    proof {
                        let (more, longer, us) = choose|
                            more: ExprSet,
                            longer: Seq<ExprRef>,
                            us: Seq<Seq<u8>>,
                        | #[trigger]
                            derived(&more, v@[0], longer, us) && more.wf() && more.keeps(&self.set)
                                && longer.len() > max_fuel;
                        assert forall|x: ExprRef|
                            #![trigger more.tree(x)]
                            #![trigger more.valid(x)]
                            old(self).set.valid(x) implies more.valid(x) && more.tree(x) == old(
                            self,
                        ).set.tree(x) && more.node(x)@ == old(self).set.node(x)@ by {
                            assert(self.set.valid(x));
                        }
                        assert(derived(&more, old(self).root, longer, us));
                    }
                    return None;
                },
                None => {
                    proof {
                        lemma_explored_more(&self.set, v@, i as int, end, n, a);
                    }
                },
            }
            i = i + 1;
        }
        proof {
            reveal(listed);
            reveal(explored);
            assert forall|w: Seq<u8>| !#[trigger] a(w) by {
                lemma_closed(&self.set, v@, 0, w);
            }
        }
        Some(false)
    }

    /// Looks at what may follow the `i`-th place. Tells whether a match was found, or, with `false`,
    /// that there is no room for a new place.
    fn expand(
        &mut self,
        v: &mut Vec<ExprRef>,
        seen: &mut HashMap<usize, usize>,
        i: usize,
        max_fuel: u64,
        a: Ghost<Lang>,
    ) -> (r: Option<bool>)
        requires
            old(self).sound(),
            old(self).language() == a@,
            i < old(v)@.len(),
            old(v)@.len() <= 1 + 256 * i,
            listed(&old(self).set, old(v)@, old(seen)@, a@),
            spelled(&old(self).set, old(v)@, i as int, 0),
            old(v)@.len() <= max_fuel,
        ensures
            final(self).sound(),
            final(self).language() == a@,
            final(self).root == old(self).root,
            final(self).set.keeps(&old(self).set),
            old(v)@.len() <= final(v)@.len() <= max_fuel,
            final(v)@.len() <= 1 + 256 * (i + 1),
            forall|k: int| 0 <= k < old(v)@.len() ==> #[trigger] final(v)@[k] == old(v)@[k],
            listed(&final(self).set, final(v)@, final(seen)@, a@),
            match r {
                None => {
                    &&& forall|b: u8| #[trigger] leads(&final(self).set, final(v)@, i as int, b)
                    &&& spelled(&final(self).set, final(v)@, i + 1, 0)
                },
                Some(true) => !is_empty(a@),
                Some(false) => {
                    &&& max_fuel <= 256 * (i + 1)
                    &&& max_fuel < u64::MAX
                    &&& outruns(&final(self).set, final(v)@[0], max_fuel)
                },
            },
    {
        let ghost p = lang::plain();
        let e: ExprRef = v[i];
        let mut c: u16 = 0;
        proof {
            reveal(listed);
        }
        while c < 256
            invariant
                c <= 256,
                p == lang::plain(),
                self.sound(),
                self.language() == a@,
                self.root == old(self).root,
                self.set.keeps(&old(self).set),
                old(self).set.all_valid(old(v)@),
                i < old(v)@.len() <= v@.len(),
                e == v@[i as int],
                self.set.all_valid(v@),
                v@.len() <= 1 + 256 * i + c,
                forall|k: int| 0 <= k < old(v)@.len() ==> #[trigger] v@[k] == old(v)@[k],
                forall|id: usize| #[trigger]
                    seen@.contains_key(id) ==> seen@[id] < v@.len() && v@[seen@[id] as int].id
                        == id,
                forall|k: int|
                    0 <= k < v@.len() ==> stems(&self.set, #[trigger] v@[k], a@) && !self.set.lang(
                        v@[k],
                        p,
                    )(Seq::empty()),
                forall|b: u8| b < c ==> #[trigger] leads(&self.set, v@, i as int, b),
                placed(v@, seen@),
                spelled(&self.set, v@, i as int, c as int),
                v@.len() <= max_fuel,
            decreases 256 - c,
        {
            let b: u8 = c as u8;
            let ghost before = *self;
            let ghost v0 = v@;
            let ghost us = choose|us: Seq<Seq<u8>>| #[trigger]
                spelling(&self.set, v@, us, i as int, c as int);
            let d: ExprRef = self.after(e, b);
            proof {
                assert forall|k: int| 0 <= k < v0.len() implies stems(
                    &self.set,
                    #[trigger] v0[k],
                    a@,
                ) && !self.set.lang(v0[k], p)(Seq::empty()) by {
                    assert(before.set.valid(v0[k]));
                    lemma_stems_kept(&self.set, &before.set, v0[k], a@);
                    assert(self.set.tree(v0[k]) == before.set.tree(v0[k]));
                }
                assert(self.set.all_valid(v0)) by {
                    assert forall|k: int| 0 <= k < v0.len() implies self.set.valid(
                        #[trigger] v0[k],
                    ) by {
                        assert(before.set.valid(v0[k]));
                    }
                }
                let (m, x) = (i as int, c as int);
                lemma_spelling_kept(&self.set, &before.set, v0, us, m, x, m, x);
                lemma_spelling_kept(&self.set, &before.set, v0, us, m, x, m, x + 1);
            }
            match seen.get(&d.id) {
                Some(m) => {
                    let ghost m = *m as int;
                    proof {
                        assert(v@[m] == d);
                        assert(derivative::is_after(&self.set, v@[i as int], b, v@[m]));
                        assert(leads(&self.set, v@, i as int, b));
                        assert forall|x: u8| x < c + 1 implies #[trigger] leads(
                            &self.set,
                            v@,
                            i as int,
                            x,
                        ) by {
                            if x < c {
                                lemma_leads_kept(
                                    &self.set,
                                    &before.set,
                                    v0,
                                    v@,
                                    i as int,
                                    x,
                                );
                            }
                        }
                    }
                },
                None => {
                    let ghost u = choose|u: Seq<u8>|
                        self.set.lang(e, p) == #[trigger] rest_of(a@, u);
                    proof {
                        assert(stems(&self.set, v@[i as int], a@));
                        lemma_stems_after(&self.set, e, b, d, a@, u);
                    }
                    if self.set.is_nullable(d) {
                        proof {
                            assert(rest_of(a@, u.push(b))(Seq::empty()));
                            assert(a@(u.push(b) + Seq::<u8>::empty()));
                            reveal(listed);
                        }
                        return Some(true);
                    }
                    proof {
                        lemma_placed_more(v0, seen@, d, v.len());
                        lemma_spelling_more(&self.set, v0, us, i as int, b, d);
                    }
                    if max_fuel < u64::MAX && v.len() as u64 >= max_fuel {
                        proof {
                            reveal(listed);
                            let longer = v0.push(d);
                            let more = us.push(us[i as int].push(b));
                            lemma_spelling_kept(
                                &self.set,
                                &self.set,
                                longer,
                                more,
                                i as int,
                                b + 1,
                                longer.len() as int,
                                0,
                            );
                            assert forall|k: int| 0 <= k < longer.len() implies self.set.valid(
                                #[trigger] longer[k],
                            ) && !self.set.lang(longer[k], p)(Seq::empty()) by {
                                if k < v0.len() {
                                    assert(longer[k] == v0[k]);
                                }
                            }
                            assert(derived(&self.set, v@[0], longer, more));
                        }
                        return Some(false);
                    }
                    seen.insert(d.id, v.len());
                    v.push(d);
                    proof {
                        let m = v0.len() as int;
                        assert(v.len() == v@.len());
                        assert(v@[m] == d);
                        assert(stems(&self.set, d, a@));
                        assert forall|k: int| 0 <= k < v@.len() implies stems(
                            &self.set,
                            #[trigger] v@[k],
                            a@,
                        ) && !self.set.lang(v@[k], p)(Seq::empty()) by {
                            if k < m {
                                assert(v@[k] == v0[k]);
                            }
                        }
                        assert forall|k: int| 0 <= k < v@.len() implies self.set.valid(
                            #[trigger] v@[k],
                        ) by {
                            if k < m {
                                assert(v@[k] == v0[k]);
                            }
                        }
                        assert(derivative::is_after(&self.set, v@[i as int], b, v@[m]));
                        assert(leads(&self.set, v@, i as int, b));
                        assert forall|x: u8| x < c + 1 implies #[trigger] leads(
                            &self.set,
                            v@,
                            i as int,
                            x,
                        ) by {
                            if x < c {
                                lemma_leads_kept(
                                    &self.set,
                                    &before.set,
                                    v0,
                                    v@,
                                    i as int,
                                    x,
                                );
                            }
                        }
                    }
                },
            }
            c = c + 1;
        }
        proof {
            let us = choose|us: Seq<Seq<u8>>| #[trigger]
                spelling(&self.set, v@, us, i as int, c as int);
            lemma_spelling_kept(&self.set, &self.set, v@, us, i as int, 256, i + 1, 0);
        }
        None
    }

    /// What may follow the byte in strings of `e`.
    fn after(&mut self, e: ExprRef, b: u8) -> (r: ExprRef)
        requires
            old(self).sound(),
            old(self).set.valid(e),
        ensures
            final(self).sound(),
            final(self).language() == old(self).language(),
            final(self).root == old(self).root,
            final(self).set.keeps(&old(self).set),
            final(self).empty == old(self).empty,
            derivative::is_after(&final(self).set, e, b, r),
    {
        let r = derivative(&mut self.set, &mut self.table, e, b);
        proof {
            assert(self.set.tree(self.root) == old(self).set.tree(self.root));
        }
        r
    }

    /// Whether no string is matched.
    pub fn always_empty(&self) -> (r: bool)
        requires
            self.wf(),
        ensures
            r == is_empty(self.language()),
    {
        self.empty
    }

    /// The state belongs to this regex.
    pub closed spec fn has_state(&self, s: StateID) -> bool {
        self.set.valid(s.e)
    }

    /// The strings that lead from the state to a match.
    pub closed spec fn state_language(&self, s: StateID) -> Lang {
        self.set.lang(s.e, lang::plain())
    }

    /// It can be seen of the state whether any text leads from it to a match.
    pub closed spec fn is_clear(&self, s: StateID) -> bool {
        self.set.clear(s.e)
    }

    /// The state before the first byte is clear.
    pub closed spec fn starts_clear(&self) -> bool {
        self.set.clear(self.root)
    }

    /// All states of `before` are states of this regex, with the same strings to lead to a match.
    pub open spec fn keeps_states(&self, before: &Regex) -> bool {
        forall|s: StateID| #[trigger]
            before.has_state(s) ==> self.has_state(s) && self.state_language(s)
                == before.state_language(s) && (before.is_clear(s) ==> self.is_clear(s))
    }

    /// A clear state is dead just where no text leads from it to a match.
    pub proof fn clear_dead(&self, s: StateID)
        requires
            self.wf(),
            self.has_state(s),
            self.is_clear(s),
        ensures
            s.dead() <==> is_empty(self.state_language(s)),
    {
        self.set.lemma_clear(s.e);
    }

    /// No text leads from a dead state to a match.
    pub proof fn dead_matches_nothing(&self, s: StateID)
        requires
            self.wf(),
            self.has_state(s),
            s.dead(),
        ensures
            is_empty(self.state_language(s)),
    {
        self.set.lemma_constants();
    }

    /// The state before the first byte.
    pub fn initial_state(&self) -> (r: StateID)
        requires
            self.wf(),
        ensures
            self.has_state(r),
            self.state_language(r) == self.language(),
            r.dead() ==> is_empty(self.language()),
            self.starts_clear() ==> self.is_clear(r) && r.dead() == is_empty(self.language()),
    {
        proof {
            self.set.lemma_constants();
            if self.starts_clear() {
                self.set.lemma_clear(self.root);
            }
        }
        StateID { e: self.root }
    }

    /// The state after one more byte.
    pub fn transition(&mut self, s: StateID, b: u8) -> (r: StateID)
        requires
            old(self).wf(),
            old(self).has_state(s),
        ensures
            final(self).wf(),
            final(self).language() == old(self).language(),
            final(self).keeps_states(old(self)),
            final(self).has_state(r),
            final(self).state_language(r) == derivative::after(old(self).state_language(s), b),
            s.dead() ==> r.dead(),
            r.dead() ==> is_empty(final(self).state_language(r)),
            old(self).is_clear(s) ==> final(self).is_clear(r) && r.dead() == is_empty(
                final(self).state_language(r),
            ),
    {
        let e: ExprRef = self.after(s.e, b);
        proof {
            assert forall|x: StateID| #[trigger] old(self).has_state(x) implies self.has_state(x)
                && self.state_language(x) == old(self).state_language(x) by {
                assert(self.set.tree(x.e) == old(self).set.tree(x.e));
            }
            assert(old(self).has_state(s));
            self.set.lemma_constants();
            if self.set.clear(e) {
                self.set.lemma_clear(e);
            }
            if s.dead() {
                old(self).set.lemma_constants();
                assert(is_empty(self.set.lang(e, lang::plain())));
            }
        }
        StateID { e }
    }

    /// The state after some more bytes.
    pub fn transition_bytes(&mut self, s: StateID, bytes: &[u8]) -> (r: StateID)
        requires
            old(self).wf(),
            old(self).has_state(s),
        ensures
            final(self).wf(),
            final(self).language() == old(self).language(),
            final(self).keeps_states(old(self)),
            final(self).has_state(r),
            final(self).state_language(r) == rest_of(old(self).state_language(s), bytes@),
            s.dead() ==> r.dead(),
            r.dead() ==> is_empty(final(self).state_language(r)),
            old(self).is_clear(s) ==> final(self).is_clear(r) && r.dead() == is_empty(
                final(self).state_language(r),
            ),
    {
        let ghost a = self.state_language(s);
        let mut r: StateID = s;
        let mut i: usize = 0;
        proof {
            assert forall|w: Seq<u8>| #[trigger] a(w) == rest_of(a, bytes@.take(0))(w) by {
                assert(bytes@.take(0) + w =~= w);
            }
            assert(a =~= rest_of(a, bytes@.take(0)));
        }
        while i < bytes.len()
            invariant
                i <= bytes@.len(),
                self.wf(),
                self.language() == old(self).language(),
                self.keeps_states(old(self)),
                self.has_state(r),
                s.dead() ==> r.dead(),
                old(self).is_clear(s) ==> self.is_clear(r),
                self.state_language(r) == rest_of(a, bytes@.take(i as int)),
            decreases bytes@.len() - i,
        {
            let ghost before = *self;
            let b: u8 = bytes[i];
            r = self.transition(r, b);
            proof {
                let u = bytes@.take(i as int);
                let v = bytes@.take(i + 1);
                let l = self.state_language(r);
                assert forall|w: Seq<u8>| #[trigger] l(w) == rest_of(a, v)(w) by {
                    assert(u + (seq![b] + w) =~= v + w);
                }
                assert(l =~= rest_of(a, v));
                assert forall|x: StateID| #[trigger] old(self).has_state(x) implies self.has_state(
                    x,
                ) && self.state_language(x) == old(self).state_language(x) by {
                    assert(before.has_state(x));
                }
            }
            i = i + 1;
        }
        proof {
            assert(bytes@.take(i as int) =~= bytes@);
            self.set.lemma_constants();
            if old(self).is_clear(s) {
                self.clear_dead(r);
            }
        }
        r
    }

    /// Whether the text that led to the state is matched.
    pub fn is_accepting(&self, s: StateID) -> (r: bool)
        requires
            self.wf(),
            self.has_state(s),
        ensures
            r == self.state_language(s)(Seq::empty()),
    {
        self.set.is_nullable(s.e)
    }

    /// Whether the byte string is matched.
    pub fn is_match_bytes(&mut self, bytes: &[u8]) -> (r: bool)
        requires
            old(self).wf(),
        ensures
            final(self).wf(),
            final(self).language() == old(self).language(),
            r == old(self).language()(bytes@),
    {
        let s: StateID = self.initial_state();
        let r: StateID = self.transition_bytes(s, bytes);
        assert(bytes@ + Seq::<u8>::empty() =~= bytes@);
        self.is_accepting(r)
    }

    /// Whether the text is matched.
    pub fn is_match(&mut self, text: &str) -> (r: bool)
        requires
            old(self).wf(),
        ensures
            final(self).wf(),
            final(self).language() == old(self).language(),
            r == old(self).language()(vstd::utf8::encode_utf8(text@)),
    {
        self.is_match_bytes(text.as_bytes())
    }
}

} // verus!
