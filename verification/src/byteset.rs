//! Sets of bytes, held as 256 bits in eight words.

use vstd::prelude::*;

verus! {

/// How many words hold a set of bytes.
pub const BYTESET_WORDS: usize = 8;

/// Whether the bit of `b` is set in `words`.
pub open spec fn has_byte(words: Seq<u32>, b: u8) -> bool {
    words[(b / 32) as int] & (1u32 << (b % 32) as u32) != 0
}

/// The bytes whose bits are set in `words`.
pub open spec fn byteset(words: Seq<u32>) -> Set<u8> {
    Set::new(|b: u8| has_byte(words, b))
}

/// The empty set.
pub fn byteset_256() -> (r: Vec<u32>)
    ensures
        r@.len() == BYTESET_WORDS,
        byteset(r@) == Set::<u8>::empty(),
{
    let r: Vec<u32> = vec![0u32; BYTESET_WORDS];
    proof {
        assert forall|b: u8| !has_byte(r@, b) by {
            let k = (b % 32) as u32;
            assert(0u32 & (1u32 << k) == 0) by (bit_vector);
        }
        assert(byteset(r@) =~= Set::<u8>::empty());
    }
    r
}

/// Whether the set holds `b`.
pub fn byteset_contains(words: &[u32], b: u8) -> (r: bool)
    requires
        words@.len() == BYTESET_WORDS,
    ensures
        r == byteset(words@).contains(b),
{
    let k: u32 = (b % 32) as u32;
    words[(b / 32) as usize] & (1u32 << k) != 0
}

/// Adds `b` to the set.
pub fn byteset_set(words: &mut Vec<u32>, b: u8)
    requires
        old(words)@.len() == BYTESET_WORDS,
    ensures
        final(words)@.len() == BYTESET_WORDS,
        byteset(final(words)@) == byteset(old(words)@).insert(b),
{
    let i: usize = (b / 32) as usize;
    let k: u32 = (b % 32) as u32;
    let x: u32 = words[i];
    words.set(i, x | (1u32 << k));
    proof {
        assert forall|c: u8| has_byte(words@, c) == (c == b || has_byte(old(words)@, c)) by {
            let j = (c % 32) as u32;
            assert(j < 32 && k < 32 ==> ((x | (1u32 << k)) & (1u32 << j) != 0) == (j == k || x & (1u32
                << j) != 0)) by (bit_vector);
        }
        assert(byteset(words@) =~= byteset(old(words)@).insert(b));
    }
}

/// Takes `b` out of the set.
pub fn byteset_clear(words: &mut Vec<u32>, b: u8)
    requires
        old(words)@.len() == BYTESET_WORDS,
    ensures
        final(words)@.len() == BYTESET_WORDS,
        byteset(final(words)@) == byteset(old(words)@).remove(b),
{
    let i: usize = (b / 32) as usize;
    let k: u32 = (b % 32) as u32;
    let x: u32 = words[i];
    words.set(i, x & !(1u32 << k));
    proof {
        assert forall|c: u8| has_byte(words@, c) == (c != b && has_byte(old(words)@, c)) by {
            let j = (c % 32) as u32;
            assert(j < 32 && k < 32 ==> ((x & !(1u32 << k)) & (1u32 << j) != 0) == (j != k && x & (
            1u32 << j) != 0)) by (bit_vector);
        }
        assert(byteset(words@) =~= byteset(old(words)@).remove(b));
    }
}

/// Adds all bytes of another set.
pub fn byteset_union(words: &mut Vec<u32>, other: &[u32])
    requires
        old(words)@.len() == BYTESET_WORDS,
        other@.len() == BYTESET_WORDS,
    ensures
        final(words)@.len() == BYTESET_WORDS,
        byteset(final(words)@) == byteset(old(words)@).union(byteset(other@)),
{
    let mut i: usize = 0;
    while i < BYTESET_WORDS
        invariant
            i <= BYTESET_WORDS,
            words@.len() == BYTESET_WORDS,
            old(words)@.len() == BYTESET_WORDS,
            other@.len() == BYTESET_WORDS,
            forall|k: int| 0 <= k < i ==> words@[k] == old(words)@[k] | other@[k],
            forall|k: int| i <= k < BYTESET_WORDS ==> words@[k] == old(words)@[k],
        decreases BYTESET_WORDS - i,
    {
        let x: u32 = words[i];
        words.set(i, x | other[i]);
        i = i + 1;
    }
    proof {
        assert forall|c: u8|
            #[trigger] has_byte(words@, c) == (has_byte(old(words)@, c) || has_byte(
            other@,
            c,
        )) by {
            let x = old(words)@[(c / 32) as int];
            let y = other@[(c / 32) as int];
            let j = (c % 32) as u32;
            assert(((x | y) & (1u32 << j) != 0) == (x & (1u32 << j) != 0 || y & (1u32 << j) != 0))
                by (bit_vector);
        }
        assert(byteset(words@) =~= byteset(old(words)@).union(byteset(other@)));
    }
}

/// The bytes from `lo` to `hi`.
pub fn byteset_from_range(lo: u8, hi: u8) -> (r: Vec<u32>)
    ensures
        r@.len() == BYTESET_WORDS,
        byteset(r@) == Set::new(|b: u8| lo <= b <= hi),
{
    let mut r = byteset_256();
    let mut b: u16 = lo as u16;
    while b <= hi as u16
        invariant
            lo <= b <= 256,
            b <= hi + 1 || b == lo,
            r@.len() == BYTESET_WORDS,
            byteset(r@) == Set::new(|c: u8| lo <= c < b),
        decreases 256 - b,
    {
        byteset_set(&mut r, b as u8);
        proof {
            assert(Set::new(|c: u8| lo <= c < b).insert(b as u8) =~= Set::new(
                |c: u8| lo <= c < b + 1,
            ));
        }
        b = b + 1;
    }
    proof {
        assert(Set::new(|c: u8| lo <= c < b) =~= Set::new(|c: u8| lo <= c <= hi));
    }
    r
}

} // verus!
