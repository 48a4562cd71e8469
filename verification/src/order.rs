//! Stable order: the order in which a stable sort leaves what it sorts.

use vstd::prelude::*;

verus! {

/// What things are sorted by: the first number counts, then the second, then the third.
pub type Key = (u64, u64, u64);

/// Whether key `a` is smaller than key `b`.
pub open spec fn smaller(a: Key, b: Key) -> bool {
    a.0 < b.0 || (a.0 == b.0 && (a.1 < b.1 || (a.1 == b.1 && a.2 < b.2)))
}

/// Whether place `a` comes before place `b`: its key is smaller, or the keys are the same
/// and it stood first.
pub open spec fn precedes(keys: Seq<Key>, a: int, b: int) -> bool {
    smaller(keys[a], keys[b]) || (keys[a] == keys[b] && a < b)
}

/// Whether `order` lists the places of `keys` in stable order. There is one such list.
pub open spec fn stable(keys: Seq<Key>, order: Seq<usize>) -> bool {
    &&& order.len() == keys.len()
    &&& forall|i: int| 0 <= i < order.len() ==> #[trigger] order[i] < keys.len()
    &&& forall|i: int, j: int|
        0 <= i < j < order.len() ==> precedes(keys, #[trigger] order[i] as int, #[trigger] order[j] as int)
}

/// Whether `order` lists `place`.
pub open spec fn lists(order: Seq<usize>, place: int) -> bool {
    exists|i: int| 0 <= i < order.len() && #[trigger] order[i] == place
}

/// How many of the places 0 to `n` satisfy `p`.
pub open spec fn count(n: nat, p: spec_fn(int) -> bool) -> nat {
    Set::new(|i: int| 0 <= i < n && p(i)).len()
}

fn is_smaller(a: Key, b: Key) -> (r: bool)
    ensures
        r == smaller(a, b),
{
    a.0 < b.0 || (a.0 == b.0 && (a.1 < b.1 || (a.1 == b.1 && a.2 < b.2)))
}

/// The stable order of the places `low` to `high`.
pub open spec fn stable_part(keys: Seq<Key>, low: int, high: int, order: Seq<usize>) -> bool {
    &&& order.len() == high - low
    &&& forall|i: int| 0 <= i < order.len() ==> low <= #[trigger] order[i] < high
    &&& forall|i: int, j: int|
        0 <= i < j < order.len() ==> precedes(keys, #[trigger] order[i] as int, #[trigger] order[j] as int)
}

fn merged(keys: &Vec<Key>, low: usize, middle: usize, high: usize, left: Vec<usize>, right: Vec<usize>) -> (r: Vec<usize>)
    requires
        low <= middle <= high <= keys@.len(),
        stable_part(keys@, low as int, middle as int, left@),
        stable_part(keys@, middle as int, high as int, right@),
    ensures
        stable_part(keys@, low as int, high as int, r@),
{
    let mut r: Vec<usize> = Vec::with_capacity(high - low);
    let mut i: usize = 0;
    let mut j: usize = 0;
    while i < left.len() || j < right.len()
        invariant
            low <= middle <= high <= keys@.len(),
            stable_part(keys@, low as int, middle as int, left@),
            stable_part(keys@, middle as int, high as int, right@),
            i <= left@.len(),
            j <= right@.len(),
            r@.len() == i + j,
            forall|k: int| 0 <= k < r@.len() ==> low <= #[trigger] r@[k] < high,
            forall|k: int, l: int|
                0 <= k < l < r@.len() ==> precedes(keys@, #[trigger] r@[k] as int, #[trigger] r@[l] as int),
            forall|k: int, l: int|
                0 <= k < r@.len() && i <= l < left@.len() ==> precedes(
                    keys@,
                    #[trigger] r@[k] as int,
                    #[trigger] left@[l] as int,
                ),
            forall|k: int, l: int|
                0 <= k < r@.len() && j <= l < right@.len() ==> precedes(
                    keys@,
                    #[trigger] r@[k] as int,
                    #[trigger] right@[l] as int,
                ),
        decreases left@.len() + right@.len() - i - j,
    {
        if i < left.len() && (j >= right.len() || !is_smaller(keys[right[j]], keys[left[i]])) {
            proof {
                assert forall|l: int| j <= l < right@.len() implies precedes(
                    keys@,
                    left@[i as int] as int,
                    #[trigger] right@[l] as int,
                ) by {
                    if l > j {
                        assert(precedes(keys@, right@[j as int] as int, right@[l] as int));
                    }
                }
            }
            r.push(left[i]);
            i += 1;
        } else {
            proof {
                assert forall|l: int| i <= l < left@.len() implies precedes(
                    keys@,
                    right@[j as int] as int,
                    #[trigger] left@[l] as int,
                ) by {
                    if l > i {
                        assert(precedes(keys@, left@[i as int] as int, left@[l] as int));
                    }
                }
            }
            r.push(right[j]);
            j += 1;
        }
    }
    r
}

fn sorted_part(keys: &Vec<Key>, low: usize, high: usize) -> (r: Vec<usize>)
    requires
        low <= high <= keys@.len(),
    ensures
        stable_part(keys@, low as int, high as int, r@),
    decreases high - low,
{
    if high - low == 0 {
        Vec::new()
    } else if high - low == 1 {
        let mut r: Vec<usize> = Vec::with_capacity(1);
        r.push(low);
        r
    } else {
        let middle: usize = low + (high - low) / 2;
        let left = sorted_part(keys, low, middle);
        let right = sorted_part(keys, middle, high);
        merged(keys, low, middle, high, left, right)
    }
}

/// The stable order of `keys`: the places as a stable sort leaves them.
pub fn stable_order(keys: &Vec<Key>) -> (r: Vec<usize>)
    ensures
        stable(keys@, r@),
{
    sorted_part(keys, 0, keys.len())
}

/// Whether `order` lists `n` places one before the other.
pub open spec fn listing(n: nat, before: spec_fn(int, int) -> bool, order: Seq<usize>) -> bool {
    &&& order.len() == n
    &&& forall|i: int| 0 <= i < n ==> #[trigger] order[i] < n
    &&& forall|i: int, j: int|
        0 <= i < j < n ==> before(#[trigger] order[i] as int, #[trigger] order[j] as int)
}

/// Whether no two places come before each other.
pub open spec fn one_way(before: spec_fn(int, int) -> bool) -> bool {
    forall|a: int, b: int| #[trigger] before(a, b) ==> !before(b, a)
}

/// A list of `n` places, one before the other, lists no place twice and leaves none out.
pub proof fn lemma_listing_is_a_permutation(n: nat, before: spec_fn(int, int) -> bool, order: Seq<usize>)
    requires
        one_way(before),
        listing(n, before, order),
    ensures
        order.no_duplicates(),
        forall|place: int| 0 <= place < n ==> #[trigger] lists(order, place),
{
    let places = order.map_values(|place: usize| place as int);
    assert forall|i: int, j: int| 0 <= i < j < order.len() implies order[i] != order[j] by {
        assert(before(order[i] as int, order[j] as int));
    }
    assert(places.no_duplicates());
    places.unique_seq_to_set();
    vstd::seq_lib::seq_to_set_is_finite(places);
    vstd::set_lib::lemma_int_range(0, n as int);
    assert(places.to_set().subset_of(vstd::set_lib::set_int_range(0, n as int)));
    vstd::set_lib::lemma_subset_equality(
        places.to_set(),
        vstd::set_lib::set_int_range(0, n as int),
    );
    assert forall|place: int| 0 <= place < n implies #[trigger] lists(order, place) by {
        assert(vstd::set_lib::set_int_range(0, n as int).contains(place));
        assert(places.contains(place));
        let i = choose|i: int| 0 <= i < places.len() && places[i] == place;
        assert(order[i] == place);
    }
}

/// There is one way to list places one before the other.
pub proof fn lemma_listing_is_unique(
    n: nat,
    before: spec_fn(int, int) -> bool,
    a: Seq<usize>,
    b: Seq<usize>,
)
    requires
        one_way(before),
        listing(n, before, a),
        listing(n, before, b),
    ensures
        a == b,
{
    lemma_listing_is_a_permutation(n, before, a);
    lemma_listing_is_a_permutation(n, before, b);
    lemma_common_prefix(n, before, a, b, n as int);
    assert(a.take(n as int) =~= a);
    assert(b.take(n as int) =~= b);
}

proof fn lemma_common_prefix(
    n: nat,
    before: spec_fn(int, int) -> bool,
    a: Seq<usize>,
    b: Seq<usize>,
    m: int,
)
    requires
        one_way(before),
        listing(n, before, a),
        listing(n, before, b),
        forall|place: int| 0 <= place < n ==> #[trigger] lists(a, place),
        forall|place: int| 0 <= place < n ==> #[trigger] lists(b, place),
        0 <= m <= n,
    ensures
        a.take(m) == b.take(m),
    decreases m,
{
    if m > 0 {
        lemma_common_prefix(n, before, a, b, m - 1);
        let x = a[m - 1];
        let y = b[m - 1];
        assert(lists(b, x as int));
        assert(lists(a, y as int));
        let i = choose|i: int| 0 <= i < b.len() && b[i] == x;
        let j = choose|j: int| 0 <= j < a.len() && a[j] == y;
        if i < m - 1 {
            assert(a.take(m - 1)[i] == b.take(m - 1)[i]);
            assert(a[i] == x);
            assert(before(a[i] as int, a[m - 1] as int));
        }
        if j < m - 1 {
            assert(a.take(m - 1)[j] == b.take(m - 1)[j]);
            assert(b[j] == y);
            assert(before(b[j] as int, b[m - 1] as int));
        }
        if x != y {
            assert(before(b[m - 1] as int, b[i] as int));
            assert(before(a[m - 1] as int, a[j] as int));
        }
        assert(a.take(m) =~= a.take(m - 1).push(x));
        assert(b.take(m) =~= b.take(m - 1).push(y));
    }
}

/// A stable order lists no place twice and leaves none out.
pub proof fn law_stable_order_is_a_permutation(keys: Seq<Key>, order: Seq<usize>)
    requires
        stable(keys, order),
    ensures
        order.no_duplicates(),
        forall|place: int| 0 <= place < keys.len() ==> #[trigger] lists(order, place),
{
    lemma_listing_is_a_permutation(keys.len(), |a: int, b: int| precedes(keys, a, b), order);
}

/// There is one stable order.
pub proof fn law_stable_order_is_unique(keys: Seq<Key>, a: Seq<usize>, b: Seq<usize>)
    requires
        stable(keys, a),
        stable(keys, b),
    ensures
        a == b,
{
    lemma_listing_is_unique(keys.len(), |a: int, b: int| precedes(keys, a, b), a, b);
}

/// Where the places that satisfy `p` are those that a stretch of the order lists, there
/// are as many as the stretch is long.
pub proof fn lemma_stretch(keys: Seq<Key>, order: Seq<usize>, a: int, b: int, p: spec_fn(int) -> bool)
    requires
        stable(keys, order),
        0 <= a <= b <= order.len(),
        forall|j: int| 0 <= j < order.len() ==> (p(#[trigger] order[j] as int) <==> a <= j < b),
    ensures
        count(keys.len(), p) == b - a,
{
    law_stable_order_is_a_permutation(keys, order);
    let part = order.subrange(a, b).map_values(|place: usize| place as int);
    let chosen = Set::new(|i: int| 0 <= i < keys.len() && p(i));
    assert(part.no_duplicates());
    part.unique_seq_to_set();
    assert forall|i: int| chosen.contains(i) implies part.to_set().contains(i) by {
        assert(lists(order, i));
        let j = choose|j: int| 0 <= j < order.len() && #[trigger] order[j] == i;
        assert(p(order[j] as int));
        assert(part[j - a] == i);
    }
    assert forall|i: int| part.to_set().contains(i) implies chosen.contains(i) by {
        let j = choose|j: int| 0 <= j < part.len() && part[j] == i;
        assert(order[a + j] == i);
    }
    assert(chosen =~= part.to_set());
}

/// What one more place adds to a count.
pub proof fn lemma_count_one_more(n: nat, p: spec_fn(int) -> bool)
    ensures
        count(0, p) == 0,
        n > 0 ==> count(n, p) == count((n - 1) as nat, p) + if p(n - 1) {
            1nat
        } else {
            0nat
        },
        count(n, p) <= n,
    decreases n,
{
    assert(Set::new(|i: int| 0 <= i < 0 && p(i)) =~= Set::empty());
    if n > 0 {
        let all = Set::new(|i: int| 0 <= i < n && p(i));
        let fewer = Set::new(|i: int| 0 <= i < n - 1 && p(i));
        vstd::set_lib::lemma_int_range(0, n as int);
        vstd::set_lib::lemma_len_subset(all, vstd::set_lib::set_int_range(0, n as int));
        vstd::set_lib::lemma_len_subset(fewer, vstd::set_lib::set_int_range(0, n as int));
        lemma_count_one_more((n - 1) as nat, p);
        if p(n - 1) {
            assert(all =~= fewer.insert(n - 1));
        } else {
            assert(all =~= fewer);
        }
    }
}

/// A count is 0 if and only if there is nothing to count.
pub proof fn lemma_count_some(n: nat, p: spec_fn(int) -> bool)
    ensures
        count(n, p) > 0 <==> exists|i: int| 0 <= i < n && #[trigger] p(i),
    decreases n,
{
    lemma_count_one_more(n, p);
    if n > 0 {
        lemma_count_some((n - 1) as nat, p);
        if p(n - 1) {
        } else if exists|i: int| 0 <= i < n && #[trigger] p(i) {
            let i = choose|i: int| 0 <= i < n && #[trigger] p(i);
            assert(0 <= i < n - 1 && p(i));
        }
    }
}

/// A stable order goes by the keys, the first part before the second and that before the
/// third; places with the same key stay as they stood. It lists each place once.
pub proof fn law_stable_order_goes_by_key(keys: Seq<Key>, order: Seq<usize>, i: int, j: int)
    requires
        stable(keys, order),
        0 <= i < j < order.len(),
    ensures
        order.len() == keys.len(),
        ({
            let a = keys[order[i] as int];
            let b = keys[order[j] as int];
            &&& a.0 <= b.0
            &&& a.0 == b.0 ==> a.1 <= b.1
            &&& a.0 == b.0 && a.1 == b.1 ==> a.2 <= b.2
            &&& a == b ==> order[i] < order[j]
        }),
        order[i] != order[j],
{
    assert(precedes(keys, order[i] as int, order[j] as int));
}

} // verus!
