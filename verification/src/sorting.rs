//! Sorting by byte keys.

use vstd::prelude::*;

verus! {

/// The entries under one key, in their order.
pub open spec fn entries<T>(s: Seq<(u8, T)>, key: u8) -> Seq<(u8, T)> {
    s.filter(|p: (u8, T)| p.0 == key)
}

/// The keys do not decrease.
pub open spec fn sorted_by_first<T>(s: Seq<(u8, T)>) -> bool {
    forall|i: int, j: int| 0 <= i < j < s.len() ==> (#[trigger] s[i]).0 <= (#[trigger] s[j]).0
}

/// The keys increase.
pub open spec fn strictly_sorted_by_first<T>(s: Seq<(u8, T)>) -> bool {
    forall|i: int, j: int| 0 <= i < j < s.len() ==> (#[trigger] s[i]).0 < (#[trigger] s[j]).0
}

/// `sorted` is `s` sorted by key, with entries of the same key in their order.
pub open spec fn is_stable_sort<T>(sorted: Seq<(u8, T)>, s: Seq<(u8, T)>) -> bool {
    &&& sorted_by_first(sorted)
    &&& forall|key: u8| #[trigger] entries(sorted, key) == entries(s, key)
}

/// The bytes increase.
pub open spec fn strictly_sorted(s: Seq<u8>) -> bool {
    forall|i: int, j: int| 0 <= i < j < s.len() ==> #[trigger] s[i] < #[trigger] s[j]
}

proof fn lemma_filter_none<T>(s: Seq<(u8, T)>, key: u8)
    requires
        forall|i: int| 0 <= i < s.len() ==> (#[trigger] s[i]).0 != key,
    ensures
        entries(s, key) == Seq::<(u8, T)>::empty(),
    decreases s.len(),
{
    reveal(Seq::filter);
    if s.len() > 0 {
        lemma_filter_none(s.drop_last(), key);
        assert(s.last() == s[s.len() - 1]);
    }
}

/// The entries of a join are those of its parts.
proof fn lemma_entries_join<T>(a: Seq<(u8, T)>, b: Seq<(u8, T)>, key: u8)
    ensures
        entries(a + b, key) == entries(a, key) + entries(b, key),
{
    Seq::filter_distributes_over_add(a, b, |p: (u8, T)| p.0 == key);
}

/// An entry that moves ahead of entries of other keys stays among its own.
proof fn lemma_move<T>(a: Seq<(u8, T)>, b: Seq<(u8, T)>, x: (u8, T), c: Seq<(u8, T)>, key: u8)
    requires
        forall|i: int| 0 <= i < b.len() ==> (#[trigger] b[i]).0 != x.0,
    ensures
        entries(a + b + seq![x] + c, key) == entries(a + seq![x] + b + c, key),
{
    lemma_entries_join(a + b + seq![x], c, key);
    lemma_entries_join(a + b, seq![x], key);
    lemma_entries_join(a, b, key);
    lemma_entries_join(a + seq![x] + b, c, key);
    lemma_entries_join(a + seq![x], b, key);
    lemma_entries_join(a, seq![x], key);
    if key == x.0 {
        lemma_filter_none(b, key);
    } else {
        lemma_filter_none(seq![x], key);
    }
    assert(entries(a, key) + entries(b, key) + entries(seq![x], key) =~= entries(a, key) + entries(
        seq![x],
        key,
    ) + entries(b, key));
}

/// An entry is found among the entries of its key, and nowhere else.
pub proof fn lemma_entries_contain<T>(s: Seq<(u8, T)>, x: (u8, T))
    ensures
        s.contains(x) <==> entries(s, x.0).contains(x),
    decreases s.len(),
{
    reveal(Seq::filter);
    if s.len() > 0 {
        let t = s.drop_last();
        lemma_entries_contain(t, x);
        let e = entries(t, x.0);
        assert(entries(s, x.0) == if s.last().0 == x.0 {
            e.push(s.last())
        } else {
            e
        });
        if s.contains(x) {
            let i = s.index_of(x);
            if i < t.len() {
                assert(t[i] == x);
                let j = e.index_of(x);
                assert(entries(s, x.0)[j] == x);
            } else {
                assert(entries(s, x.0).last() == x);
            }
        }
        if entries(s, x.0).contains(x) {
            let j = entries(s, x.0).index_of(x);
            if j < e.len() {
                assert(e[j] == x);
                let i = t.index_of(x);
                assert(s[i] == x);
            } else {
                assert(s[s.len() - 1] == x);
            }
        }
    }
}

/// Sorts by key. Entries of the same key keep their order.
pub fn sort_by_first<T>(v: &mut Vec<(u8, T)>)
    ensures
        is_stable_sort(final(v)@, old(v)@),
        final(v)@.len() == old(v)@.len(),
{
    let n: usize = v.len();
    let mut i: usize = 0;
    while i < n
        invariant
            i <= n,
            n == v@.len(),
            n == old(v)@.len(),
            sorted_by_first(v@.take(i as int)),
            forall|key: u8| #[trigger] entries(v@, key) == entries(old(v)@, key),
        decreases n - i,
    {
        let ghost before = v@;
        let mut p: usize = i;
        while p > 0 && v[p - 1].0 > v[i].0
            invariant
                p <= i < n,
                n == v@.len(),
                v@ == before,
                forall|k: int| p <= k < i ==> (#[trigger] v@[k]).0 > v@[i as int].0,
            decreases p,
        {
            p = p - 1;
        }
        let x = v.remove(i);
        v.insert(p, x);
        proof {
            let a = before.take(p as int);
            let b = before.subrange(p as int, i as int);
            let c = before.skip(i + 1);
            let x = before[i as int];
            assert(before =~= a + b + seq![x] + c);
            assert(v@ =~= a + seq![x] + b + c);
            assert forall|key: u8| #[trigger] entries(v@, key) == entries(old(v)@, key) by {
                lemma_move(a, b, x, c, key);
                assert(entries(before, key) == entries(old(v)@, key));
            }
            assert forall|k: int, l: int| 0 <= k < l < i + 1 implies (#[trigger] v@.take(
                i + 1,
            )[k]).0 <= (#[trigger] v@.take(i + 1)[l]).0 by {
                let k2 = if k < p {
                    k
                } else {
                    k - 1
                };
                let l2 = if l < p {
                    l
                } else {
                    l - 1
                };
                let s = before.take(i as int);
                if k != p && l != p {
                    assert(s[k2].0 <= s[l2].0);
                } else if k == p {
                    assert(before[l2].0 > x.0);
                } else {
                    assert(k < p);
                    if p > 0 && k < p - 1 {
                        assert(s[k].0 <= s[p - 1].0);
                    }
                    assert(v@[k] == before[k]);
                    assert(before[p - 1].0 <= x.0);
                }
            }
        }
        i = i + 1;
    }
    assert(v@.take(n as int) =~= v@);
}

/// Whether some entry has the key.
pub open spec fn has_key<T>(s: Seq<(u8, T)>, key: u8) -> bool {
    exists|i: int| 0 <= i < s.len() && (#[trigger] s[i]).0 == key
}

/// Keeps the first entry of each key.
pub fn dedup_by_first<T>(v: &mut Vec<(u8, T)>)
    requires
        sorted_by_first(old(v)@),
    ensures
        strictly_sorted_by_first(final(v)@),
        forall|x: (u8, T)| #[trigger] final(v)@.contains(x) ==> old(v)@.contains(x),
        forall|key: u8| #[trigger] has_key(final(v)@, key) <==> has_key(old(v)@, key),
{
    if v.len() == 0 {
        return ;
    }
    let mut i: usize = 1;
    while i < v.len()
        invariant
            1 <= i <= v@.len(),
            sorted_by_first(v@),
            strictly_sorted_by_first(v@.take(i as int)),
            forall|x: (u8, T)| #[trigger] v@.contains(x) ==> old(v)@.contains(x),
            forall|key: u8| #[trigger] has_key(v@, key) <==> has_key(old(v)@, key),
        decreases v@.len() - i,
    {
        let ghost before = v@;
        if v[i].0 == v[i - 1].0 {
            let _again = v.remove(i);
            proof {
                let a = v@;
                assert(forall|k: int|
                    0 <= k < a.len() ==> #[trigger] a[k] == before[if k < i {
                        k
                    } else {
                        k + 1
                    }]);
                assert forall|x: (u8, T)| #[trigger] a.contains(x) implies before.contains(x) by {
                    let k = a.index_of(x);
                    assert(a[k] == x);
                }
                assert forall|key: u8| #[trigger] has_key(a, key) <==> has_key(before, key) by {
                    if has_key(before, key) {
                        let k = choose|k: int|
                            0 <= k < before.len() && (#[trigger] before[k]).0 == key;
                        if k < i {
                            assert(a[k].0 == key);
                        } else if k == i {
                            assert(a[i - 1].0 == key);
                        } else {
                            assert(a[k - 1].0 == key);
                        }
                    }
                    if has_key(a, key) {
                        let k = choose|k: int| 0 <= k < a.len() && (#[trigger] a[k]).0 == key;
                        assert(a[k].0 == key);
                    }
                }
                assert(a.take(i as int) =~= before.take(i as int));
            }
        } else {
            proof {
                let t = v@.take(i + 1);
                let u = v@.take(i as int);
                assert forall|k: int, l: int| 0 <= k < l < t.len() implies (#[trigger] t[k]).0 < (
                #[trigger] t[l]).0 by {
                    assert(v@[i - 1].0 < v@[i as int].0);
                    if l < i {
                        assert(u[k].0 < u[l].0);
                    } else if k < i - 1 {
                        assert(u[k].0 < u[i - 1].0);
                    }
                }
            }
            i = i + 1;
        }
    }
    assert(v@.take(i as int) =~= v@);
}

/// Sorts bytes and drops duplicates.
pub fn sort_dedup_bytes(v: &[u8]) -> (r: Vec<u8>)
    ensures
        strictly_sorted(r@),
        forall|b: u8| #[trigger] r@.contains(b) <==> v@.contains(b),
{
    let mut r: Vec<u8> = Vec::new();
    let mut n: usize = 0;
    while n < v.len()
        invariant
            n <= v@.len(),
            strictly_sorted(r@),
            forall|b: u8| #[trigger] r@.contains(b) <==> v@.take(n as int).contains(b),
        decreases v@.len() - n,
    {
        let x: u8 = v[n];
        let ghost before = r@;
        let ghost t = v@.take(n as int);
        let mut i: usize = r.len();
        while i > 0 && r[i - 1] > x
            invariant
                i <= r@.len(),
                r@ == before,
                forall|k: int| i <= k < r@.len() ==> #[trigger] r@[k] > x,
            decreases i,
        {
            i = i - 1;
        }
        if i > 0 && r[i - 1] == x {
            proof {
                assert(before.contains(x)) by {
                    assert(before[i - 1] == x);
                }
            }
        } else {
            r.insert(i, x);
        }
        proof {
            let u = v@.take(n + 1);
            assert forall|b: u8| u.contains(b) <==> t.contains(b) || b == x by {
                if u.contains(b) {
                    let k = u.index_of(b);
                    if k < n {
                        assert(t[k] == b);
                    }
                }
                if t.contains(b) {
                    assert(u[t.index_of(b)] == b);
                }
                assert(u[n as int] == x);
            }
            assert forall|b: u8| #[trigger] r@.contains(b) <==> u.contains(b) by {
                if r@ != before {
                    if r@.contains(b) && b != x {
                        let k = r@.index_of(b);
                        assert(before[if k < i {
                            k
                        } else {
                            k - 1
                        }] == b);
                    }
                    if before.contains(b) {
                        let k = before.index_of(b);
                        assert(r@[if k < i {
                            k
                        } else {
                            k + 1
                        }] == b);
                    }
                    assert(r@[i as int] == x);
                }
                assert(before.contains(b) <==> t.contains(b));
            }
            if r@ != before {
                assert forall|k: int, l: int| 0 <= k < l < r@.len() implies #[trigger] r@[k]
                    < #[trigger] r@[l] by {
                    let k2 = if k < i {
                        k
                    } else {
                        k - 1
                    };
                    let l2 = if l < i {
                        l
                    } else {
                        l - 1
                    };
                    if k != i && l != i {
                        assert(before[k2] < before[l2]);
                    } else if k == i {
                        assert(before[l2] > x);
                    } else {
                        if k < i - 1 {
                            assert(before[k] < before[i - 1]);
                        }
                        assert(before[i - 1] < x);
                    }
                }
            }
        }
        n = n + 1;
    }
    assert(v@.take(n as int) =~= v@);
    r
}

} // verus!
