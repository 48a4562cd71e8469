//! Orders that are shuffled from a seed.

use rand::rngs::StdRng;
use rand::seq::SliceRandom;
use rand::SeedableRng;
use vstd::prelude::*;

verus! {

/// `StdRng` of `rand`.
#[verifier::external_type_specification]
#[verifier::external_body]
pub struct ExStdRng(rand::rngs::StdRng);

/// The generator that `StdRng::seed_from_u64` makes of a seed.
pub uninterp spec fn seeded(seed: u64) -> StdRng;

/// What `SliceRandom::shuffle` makes of a list.
pub uninterp spec fn shuffled(list: Seq<usize>, rng: StdRng) -> Seq<usize>;

/// What `SliceRandom::shuffle` of a list of `len` places leaves of the generator.
pub uninterp spec fn advanced(len: nat, rng: StdRng) -> StdRng;

/// A generator, with `seed_from_u64` of `rand`.
///
/// Not proved: that the seed alone decides the generator. It does in the version in use,
/// where it is ChaCha with 12 rounds on words of 32 bits; another version may hold another
/// generator.
#[verifier::external_body]
pub(crate) fn rng_from_seed(seed: u64) -> (rng: StdRng)
    ensures
        rng == seeded(seed),
{
    StdRng::seed_from_u64(seed)
}

/// Shuffles a list in place, with `shuffle` of `rand`.
///
/// Not proved: that the list and the generator alone decide the result, that the
/// length and the generator alone decide how the generator is left, and that the list
/// keeps its members. The function draws as many numbers as the length and the generator
/// ask for, whatever the list holds, and only swaps.
#[verifier::external_body]
pub(crate) fn shuffle(list: &mut Vec<usize>, rng: &mut StdRng)
    ensures
        final(list)@ == shuffled(old(list)@, *old(rng)),
        final(list)@.to_multiset() == old(list)@.to_multiset(),
        *final(rng) == advanced(old(list)@.len(), *old(rng)),
{
    list.shuffle(rng)
}

/// The places 0 to `n`, in order.
pub open spec fn places(n: nat) -> Seq<usize> {
    Seq::new(n, |i: int| i as usize)
}

/// The generator before the shuffle of epoch `epoch`: the first epoch has it fresh from
/// the seed, and each shuffle leaves it advanced.
pub open spec fn rng_before(seed: u64, n: nat, epoch: nat) -> StdRng
    decreases epoch,
{
    if epoch <= 1 {
        seeded(seed)
    } else {
        advanced(n, rng_before(seed, n, (epoch - 1) as nat))
    }
}

/// The order of `n` batches in epoch `epoch`, which counts from 1.
pub open spec fn epoch_order(seed: u64, n: nat, epoch: nat) -> Seq<usize> {
    shuffled(places(n), rng_before(seed, n, epoch))
}

/// The places 0 to `n`, shuffled.
pub(crate) fn shuffled_places(n: usize, rng: &mut StdRng) -> (r: Vec<usize>)
    ensures
        r@ == shuffled(places(n as nat), *old(rng)),
        r@.to_multiset() == places(n as nat).to_multiset(),
        *final(rng) == advanced(n as nat, *old(rng)),
{
    let mut r: Vec<usize> = Vec::with_capacity(n);
    let mut i: usize = 0;
    while i < n
        invariant
            i <= n,
            r@ == places(i as nat),
        decreases n - i,
    {
        r.push(i);
        i += 1;
        assert(places(i as nat) =~= places((i - 1) as nat).push((i - 1) as usize));
    }
    shuffle(&mut r, rng);
    r
}

/// A list with the members of `places(n)` lists each place once.
pub proof fn lemma_shuffled_places(n: nat, order: Seq<usize>)
    requires
        order.to_multiset() == places(n).to_multiset(),
        n <= usize::MAX,
    ensures
        order.len() == n,
        order.no_duplicates(),
        forall|i: int| 0 <= i < n ==> #[trigger] order[i] < n,
        forall|place: int| 0 <= place < n ==> #[trigger] crate::order::lists(order, place),
{
    broadcast use vstd::seq_lib::group_to_multiset_ensures;

    assert(order.len() == order.to_multiset().len());
    assert(places(n).len() == places(n).to_multiset().len());
    places(n).lemma_multiset_has_no_duplicates();
    assert(order.to_multiset().len() == order.len());
    order.lemma_multiset_has_no_duplicates_conv();
    assert forall|i: int| 0 <= i < n implies #[trigger] order[i] < n by {
        assert(order.to_multiset().count(order[i]) > 0) by {
            assert(order.contains(order[i]));
        }
        assert(places(n).contains(order[i]));
    }
    assert forall|place: int| 0 <= place < n implies #[trigger] crate::order::lists(order, place) by {
        assert(places(n)[place] == place as usize);
        assert(places(n).contains(place as usize));
        assert(places(n).to_multiset().count(place as usize) > 0);
        assert(order.contains(place as usize));
        let i = choose|i: int| 0 <= i < order.len() && order[i] == place as usize;
        assert(order[i] == place);
    }
}

/// Epochs go on with the generator where the one before left it: the first has it fresh from
/// the seed, and every shuffle of the places 0 to `n` advances it once.
pub proof fn law_epochs_go_on_with_the_generator(seed: u64, n: nat, epoch: nat)
    requires
        epoch >= 1,
    ensures
        epoch_order(seed, n, 1) == shuffled(Seq::new(n, |i: int| i as usize), seeded(seed)),
        epoch_order(seed, n, epoch) == shuffled(
            Seq::new(n, |i: int| i as usize),
            rng_before(seed, n, epoch),
        ),
        rng_before(seed, n, 1) == seeded(seed),
        rng_before(seed, n, epoch + 1) == advanced(n, rng_before(seed, n, epoch)),
{
}

} // verus!
