use vstd::prelude::*;
use rand::Rng;

verus! {

/// Draws a number from `0..max` with `rand`'s thread-local generator
/// (`rand::thread_rng` followed by `Rng::gen_range`).
///
/// Trusted: `gen_range` panics on an empty range, so `max` must be positive, and
/// its documentation promises a value inside the range. Which value comes out is
/// chance and is not stated; two calls with the same `max` may differ.
#[verifier::external_body]
pub fn random_range(max: usize) -> (r: usize)
    requires
        max > 0,
    ensures
        r < max,
{
    rand::thread_rng().gen_range(0..max)
}

/// Swapping two positions of a sequence keeps its multiset of elements.
pub proof fn lemma_swap_keeps_multiset<T>(s: Seq<T>, i: int, j: int)
    requires
        0 <= i < s.len(),
        0 <= j < s.len(),
    ensures
        s.update(i, s[j]).update(j, s[i]).to_multiset() =~= s.to_multiset(),
{
    broadcast use vstd::seq_lib::to_multiset_update;

    let s1 = s.update(i, s[j]);
    assert(s1.len() == s.len());
    assert(s1[j] == s[j]);
    let m = s.to_multiset();
    let m1 = m.insert(s[j]).remove(s[i]);
    assert(s1.to_multiset() == m1);
    let m2 = m1.insert(s[i]).remove(s[j]);
    assert(s1.update(j, s[i]).to_multiset() == m2);
    assert(m.count(s[i]) > 0) by {
        vstd::seq_lib::to_multiset_contains(s, s[i]);
    }
    assert forall|v: T| m2.count(v) == m.count(v) by {
        if v == s[i] && v == s[j] {
        } else if v == s[i] {
        } else if v == s[j] {
        } else {
        }
    }
}

/// The sequence with the elements at `i` and `j` exchanged.
pub open spec fn swapped<T>(s: Seq<T>, i: int, j: int) -> Seq<T> {
    s.update(i, s[j]).update(j, s[i])
}

/// Draws for a shuffle of `n` elements: one per position from the last down
/// to the second, the `k`-th drawn below `n - k`.
pub open spec fn valid_draws(draws: Seq<usize>, n: int) -> bool {
    &&& draws.len() == if n > 1 { n - 1 } else { 0 }
    &&& forall|k: int| 0 <= k < draws.len() ==> #[trigger] draws[k] < n - k
}

/// The sequence after the first `k` steps of the shuffle: step `k` exchanges
/// position `n - 1 - k` with position `draws[k]`.
pub open spec fn shuffle_steps<T>(s: Seq<T>, draws: Seq<usize>, k: nat) -> Seq<T>
    decreases k,
{
    if k == 0 {
        s
    } else {
        let prev = shuffle_steps(s, draws, (k - 1) as nat);
        swapped(prev, s.len() - k, draws[k - 1] as int)
    }
}

/// The Fisher–Yates shuffle of `s` with the given draws.
pub open spec fn fisher_yates<T>(s: Seq<T>, draws: Seq<usize>) -> Seq<T> {
    shuffle_steps(s, draws, draws.len())
}

/// Exchanges two elements of the slice with `<[T]>::swap`.
///
/// Trusted: std documents that it swaps the two elements and panics when an
/// index is out of bounds, which `requires` rules out.
#[verifier::external_body]
fn slice_swap<T>(slice: &mut [T], i: usize, j: usize)
    requires
        i < old(slice)@.len(),
        j < old(slice)@.len(),
    ensures
        final(slice)@ == swapped(old(slice)@, i as int, j as int),
{
    slice.swap(i, j);
}

/// Shuffles the slice with the given draws: for each position from the last
/// down to the second, the element there is exchanged with the one at the
/// position drawn for it.
pub fn shuffle_with<T>(slice: &mut [T], draws: &[usize])
    requires
        valid_draws(draws@, old(slice)@.len() as int),
    ensures
        final(slice)@ == fisher_yates(old(slice)@, draws@),
        final(slice)@.to_multiset() == old(slice)@.to_multiset(),
{
    let n = slice.len();
    let mut k: usize = 0;
    while k < draws.len()
        invariant
            n == old(slice)@.len(),
            slice@.len() == n,
            valid_draws(draws@, n as int),
            k <= draws@.len(),
            slice@ == shuffle_steps(old(slice)@, draws@, k as nat),
            slice@.to_multiset() == old(slice)@.to_multiset(),
        decreases draws@.len() - k,
    {
        let i = n - 1 - k;
        let j = draws[k];
        proof {
            lemma_swap_keeps_multiset(slice@, i as int, j as int);
        }
        if i != j {
            slice_swap(slice, i, j);
        } else {
            assert(swapped(slice@, i as int, j as int) =~= slice@);
        }
        k = k + 1;
    }
}

/// Shuffles the slice in place (Fisher–Yates): for each position from the
/// last down to the second, a position is drawn with `random_range` from
/// those up to it and the two elements are exchanged. The draws are chance;
/// the result is the shuffle with some valid draws.
pub fn shuffle<T>(slice: &mut [T])
    ensures
        exists|draws: Seq<usize>|
            valid_draws(draws, old(slice)@.len() as int) && final(slice)@ == #[trigger] fisher_yates(
                old(slice)@,
                draws,
            ),
        final(slice)@.to_multiset() == old(slice)@.to_multiset(),
{
    let n = slice.len();
    let mut draws: Vec<usize> = Vec::new();
    let mut i = n;
    while i > 1
        invariant
            i <= n,
            n == old(slice)@.len(),
            n >= 1 ==> i >= 1,
            draws@.len() == if n > i { n - i } else { 0 },
            forall|k: int| 0 <= k < draws@.len() ==> #[trigger] draws@[k] < n - k,
        decreases i,
    {
        i = i - 1;
        let j = random_range(i + 1);
        draws.push(j);
    }
    assert(valid_draws(draws@, n as int));
    shuffle_with(slice, draws.as_slice());
    assert(slice@ == fisher_yates(old(slice)@, draws@));
}

} // verus!
