//! A small seeded xorshift generator: the same seed always gives the same
//! sequence, so a seed names one puzzle.
use vstd::prelude::*;

verus! {

/// `<[T]>::swap`, which exchanges the elements at two positions of a slice and
/// panics when either position is outside it.
pub assume_specification<Elem>[ <[Elem]>::swap ](slice: &mut [Elem], a: usize, b: usize)
    requires
        a < old(slice)@.len(),
        b < old(slice)@.len(),
    ensures
        final(slice)@ == old(slice)@.update(a as int, old(slice)@[b as int]).update(
            b as int,
            old(slice)@[a as int],
        ),
;

/// One xorshift step on a 64-bit state (shifts 13, 7 and 17).
pub open spec fn xorshift_step(x: u64) -> u64 {
    let a = x ^ (x << 13u64);
    let b = a ^ (a >> 7u64);
    b ^ (b << 17u64)
}

/// The 32-bit output of a state: its upper half.
pub open spec fn output_of(state: u64) -> u32 {
    (state >> 32u64) as u32
}

/// The value `range(upper)` draws once the generator has stepped to `state`.
pub open spec fn range_of(state: u64, upper: int) -> int {
    if upper <= 1 {
        0
    } else {
        (output_of(state) as int) % upper
    }
}

/// Whether `range(upper)` steps the generator at all.
pub open spec fn range_steps(state: u64, upper: int) -> u64 {
    if upper <= 1 {
        state
    } else {
        xorshift_step(state)
    }
}

/// Exchanges the elements at `i` and `j`.
pub open spec fn swap_at<T>(s: Seq<T>, i: int, j: int) -> Seq<T> {
    s.update(i, s[j]).update(j, s[i])
}

/// Fisher–Yates from position `i` down to 1: position `i` is exchanged with a
/// position drawn from `0..=i`, then the prefix below it is shuffled the same way.
/// Gives the shuffled sequence and the generator state afterwards.
pub open spec fn shuffle_from<T>(s: Seq<T>, state: u64, i: int) -> (Seq<T>, u64)
    decreases i,
{
    if i <= 0 {
        (s, state)
    } else {
        let next = range_steps(state, i + 1);
        let j = range_of(next, i + 1);
        shuffle_from(swap_at(s, i, j), next, i - 1)
    }
}

/// The shuffle of a whole sequence.
pub open spec fn shuffled<T>(s: Seq<T>, state: u64) -> (Seq<T>, u64) {
    shuffle_from(s, state, s.len() - 1)
}

/// Exchanging two elements keeps the multiset of elements.
pub proof fn lemma_swap_keeps_multiset<T>(s: Seq<T>, i: int, j: int)
    requires
        0 <= i < s.len(),
        0 <= j < s.len(),
    ensures
        swap_at(s, i, j).to_multiset() == s.to_multiset(),
        swap_at(s, i, j).len() == s.len(),
{
    broadcast use vstd::seq_lib::to_multiset_update;
    broadcast use vstd::multiset::group_multiset_axioms;

    let t = s.update(i, s[j]);
    assert(t.to_multiset() == s.to_multiset().insert(s[j]).remove(s[i]));
    assert(t.update(j, s[i]).to_multiset() == t.to_multiset().insert(s[i]).remove(t[j]));
    if i == j {
        assert(swap_at(s, i, j) =~= s);
    } else {
        broadcast use vstd::seq_lib::to_multiset_contains;
        broadcast use vstd::multiset::group_multiset_properties;

        assert(t[j] == s[j]);
        assert(s.contains(s[i]));
        assert(s.to_multiset().count(s[i]) > 0);
        let m = s.to_multiset();
        assert forall|x: T| #[trigger] swap_at(s, i, j).to_multiset().count(x) == m.count(x) by {
            assert(m.insert(s[j]).count(s[j]) > 0);
        }
        assert(swap_at(s, i, j).to_multiset() =~= s.to_multiset());
    }
}

/// A shuffle only reorders: the result holds the same elements, as often.
pub proof fn lemma_shuffle_is_permutation<T>(s: Seq<T>, state: u64, i: int)
    requires
        i < s.len(),
    ensures
        shuffle_from(s, state, i).0.to_multiset() == s.to_multiset(),
        shuffle_from(s, state, i).0.len() == s.len(),
    decreases i,
{
    if i > 0 {
        let next = range_steps(state, i + 1);
        let j = range_of(next, i + 1);
        lemma_swap_keeps_multiset(s, i, j);
        lemma_shuffle_is_permutation(swap_at(s, i, j), next, i - 1);
    }
}

#[derive(Clone, Debug)]
pub struct Rng {
    state: u64,
}

impl View for Rng {
    type V = u64;

    closed spec fn view(&self) -> u64 {
        self.state
    }
}

impl Rng {
    /// A generator seeded with `seed`; a zero seed is taken as 1, since the
    /// xorshift state must not be zero.
    pub fn new(seed: u64) -> (rng: Self)
        ensures
            rng@ == (if seed == 0 {
                1
            } else {
                seed
            }),
    {
        Rng { state: if seed == 0 { 1 } else { seed } }
    }

    /// Steps the state once and gives its upper half.
    pub fn next_u32(&mut self) -> (value: u32)
        ensures
            final(self)@ == xorshift_step(old(self)@),
            value == output_of(xorshift_step(old(self)@)),
    {
        let mut x = self.state;
        x ^= x << 13u64;
        x ^= x >> 7u64;
        x ^= x << 17u64;
        self.state = x;
        (x >> 32u64) as u32
    }

    /// A value in `0..upper` (0 when `upper` is at most 1, without stepping).
    pub fn range(&mut self, upper: usize) -> (value: usize)
        ensures
            final(self)@ == range_steps(old(self)@, upper as int),
            value == range_of(final(self)@, upper as int),
            upper > 1 ==> value < upper,
            upper <= 1 ==> value == 0,
    {
        if upper <= 1 {
            0
        } else {
            (self.next_u32() as usize) % upper
        }
    }

    /// Shuffles `values` in place (Fisher–Yates, from the back).
    pub fn shuffle<T>(&mut self, values: &mut [T])
        ensures
            (final(values)@, final(self)@) == shuffled(old(values)@, old(self)@),
            final(values)@.to_multiset() == old(values)@.to_multiset(),
            final(values)@.len() == old(values)@.len(),
    {
        let len = values.len();
        let mut i = len;
        proof {
            lemma_shuffle_is_permutation(old(values)@, old(self)@, len - 1);
        }
        while i > 1
            invariant
                1 <= i <= len || (len == 0 && i == 0),
                len == values@.len(),
                shuffled(old(values)@, old(self)@) == shuffle_from(values@, self@, i - 1),
            decreases i,
        {
            let top = i - 1;
            let j = self.range(top + 1);
            values.swap(top, j);
            i = i - 1;
        }
    }
}

} // verus!
