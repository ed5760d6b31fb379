//! Randomness, kept behind a minimal trusted boundary.
//!
//! Everything the engine wants from chance is a uniformly drawn index below
//! a small bound; the permutations built from it (Fisher-Yates) are verified
//! code.  Nothing is assumed about the values a generator produces.

use vstd::prelude::*;

verus! {

#[verifier::external_type_specification]
#[verifier::external_body]
pub struct ExThreadRng(rand::rngs::ThreadRng);

/// Relies on `rand::thread_rng`: hands out the thread-local generator.
/// Nothing is promised of it.
#[verifier::external_body]
pub(crate) fn new_rng() -> rand::rngs::ThreadRng {
    rand::thread_rng()
}

/// Relies on `rand::Rng::gen_range` over `0..bound`: the result lies in that
/// range, and the call panics only when the range is empty, which the
/// precondition rules out.
#[verifier::external_body]
pub(crate) fn rand_below(rng: &mut rand::rngs::ThreadRng, bound: u8) -> (r: u8)
    requires
        bound >= 1,
    ensures
        r < bound,
{
    rand::Rng::gen_range(rng, 0..bound)
}

/// Exchanging two positions keeps a sequence's length, its members, and the
/// absence of duplicates.
proof fn lemma_swap_entries(s: Seq<u8>, i: int, j: int)
    requires
        0 <= i < s.len(),
        0 <= j < s.len(),
    ensures
        ({
            let s2 = s.update(i, s[j]).update(j, s[i]);
            &&& s2.len() == s.len()
            &&& forall|x: u8| s.contains(x) == s2.contains(x)
            &&& s.no_duplicates() ==> s2.no_duplicates()
        }),
{
    let s2 = s.update(i, s[j]).update(j, s[i]);
    assert forall|x: u8| s.contains(x) == s2.contains(x) by {
        if s.contains(x) {
            let k = choose|k: int| 0 <= k < s.len() && s[k] == x;
            let k2: int = if k == i { j } else if k == j { i } else { k };
            assert(s2[k2] == x);
        }
        if s2.contains(x) {
            let k = choose|k: int| 0 <= k < s2.len() && s2[k] == x;
            let k2: int = if k == i { j } else if k == j { i } else { k };
            assert(s[k2] == x);
        }
    }
    if s.no_duplicates() {
        assert forall|a: int, b: int| 0 <= a < s2.len() && 0 <= b < s2.len() && a != b
            implies s2[a] != s2[b] by {
            let a2: int = if a == i { j } else if a == j { i } else { a };
            let b2: int = if b == i { j } else if b == j { i } else { b };
            assert(s2[a] == s[a2] && s2[b] == s[b2]);
        }
    }
}

/// Permute a sequence of at most 255 entries in place, uniformly at random.
/// The result holds exactly the members of the input, none duplicated anew.
pub(crate) fn shuffle(rng: &mut rand::rngs::ThreadRng, v: &mut Vec<u8>)
    requires
        old(v)@.len() <= 255,
    ensures
        final(v)@.len() == old(v)@.len(),
        forall|x: u8| old(v)@.contains(x) == final(v)@.contains(x),
        old(v)@.no_duplicates() ==> final(v)@.no_duplicates(),
{
    let n = v.len();
    if n == 0 {
        return ;
    }
    for i in 0..(n - 1)
        invariant
            n == v@.len(),
            0 < n <= 255,
            forall|x: u8| old(v)@.contains(x) == v@.contains(x),
            old(v)@.no_duplicates() ==> v@.no_duplicates(),
    {
        let j = i + rand_below(rng, (n - i) as u8) as usize;
        let ghost before = v@;
        let a = v[i];
        let b = v[j];
        v.set(i, b);
        v.set(j, a);
        proof {
            lemma_swap_entries(before, i as int, j as int);
        }
    }
}

} // verus!
