//! Batches: items laid out in arrays, one column per item and one row per review of
//! their histories.

use crate::dataset::{sort_items_by_review_length, WeightedFSRSItem};
use crate::review::{FSRSItem, FSRSReview};
use crate::single::Single;
use itertools::Itertools;
use vstd::prelude::*;

verus! {

/// The review in row `t` of the column of a history: past its end, a padding review with
/// rating 0.
pub open spec fn cell(history: Seq<FSRSReview>, t: int) -> FSRSReview {
    if t < history.len() {
        history[t]
    } else {
        FSRSReview { rating: 0, delta_t: Single::zero() }
    }
}

/// Whether `rows` is the length of the longest history.
pub open spec fn pads_to(histories: Seq<Seq<FSRSReview>>, rows: nat) -> bool {
    &&& forall|c: int| 0 <= c < histories.len() ==> (#[trigger] histories[c]).len() <= rows
    &&& exists|c: int| 0 <= c < histories.len() && (#[trigger] histories[c]).len() == rows
}

/// The intervals of histories, row by row.
pub open spec fn interval_rows(histories: Seq<Seq<FSRSReview>>, rows: nat) -> Seq<Single> {
    Seq::new(
        rows * histories.len(),
        |k: int|
            cell(histories[k % (histories.len() as int)], k / (histories.len() as int)).delta_t,
    )
}

/// The ratings of histories, row by row.
pub open spec fn rating_rows(histories: Seq<Seq<FSRSReview>>, rows: nat) -> Seq<u32> {
    Seq::new(
        rows * histories.len(),
        |k: int|
            cell(histories[k % (histories.len() as int)], k / (histories.len() as int)).rating,
    )
}

/// The histories of items: all reviews but the last.
pub open spec fn histories(items: Seq<(Single, Seq<FSRSReview>)>) -> Seq<Seq<FSRSReview>> {
    items.map_values(|item: (Single, Seq<FSRSReview>)| item.1.drop_last())
}

/// The intervals before the current reviews of items.
pub open spec fn current_intervals(items: Seq<(Single, Seq<FSRSReview>)>) -> Seq<Single> {
    items.map_values(|item: (Single, Seq<FSRSReview>)| item.1.last().delta_t)
}

/// Whether the current reviews of items were recalled.
pub open spec fn recalled(items: Seq<(Single, Seq<FSRSReview>)>) -> Seq<bool> {
    items.map_values(|item: (Single, Seq<FSRSReview>)| item.1.last().rating != 1)
}

/// The weights of items.
pub open spec fn weights_of(items: Seq<(Single, Seq<FSRSReview>)>) -> Seq<Single> {
    items.map_values(|item: (Single, Seq<FSRSReview>)| item.0)
}

/// Whether every item has a current review.
pub open spec fn all_reviewed(items: Seq<(Single, Seq<FSRSReview>)>) -> bool {
    forall|c: int| 0 <= c < items.len() ==> (#[trigger] items[c]).1.len() > 0
}

/// Whether the rows of `columns` columns can be indexed.
pub open spec fn indexable(histories: Seq<Seq<FSRSReview>>, columns: nat) -> bool {
    forall|c: int|
        0 <= c < histories.len() ==> (#[trigger] histories[c]).len() * columns <= usize::MAX
}

/// The length of the longest history.
fn longest(columns: &Vec<&[FSRSReview]>, Ghost(of): Ghost<Seq<Seq<FSRSReview>>>) -> (r: usize)
    requires
        columns@.len() > 0,
        of.len() == columns@.len(),
        forall|c: int| 0 <= c < columns@.len() ==> (#[trigger] columns@[c])@ == of[c],
    ensures
        pads_to(of, r as nat),
{
    let mut r: usize = columns[0].len();
    let ghost mut at: int = 0;
    let mut c: usize = 1;
    assert(of[at].len() == r);
    while c < columns.len()
        invariant
            1 <= c <= columns@.len(),
            of.len() == columns@.len(),
            forall|d: int| 0 <= d < columns@.len() ==> (#[trigger] columns@[d])@ == of[d],
            forall|d: int| 0 <= d < c ==> (#[trigger] of[d]).len() <= r,
            0 <= at < c,
            of[at].len() == r,
        decreases columns@.len() - c,
    {
        assert(columns@[c as int]@ == of[c as int]);
        if columns[c].len() > r {
            r = columns[c].len();
            proof {
                at = c as int;
            }
        }
        c += 1;
    }
    r
}

/// Lays out histories row by row, padded to `rows` rows.
fn laid_out(columns: &Vec<&[FSRSReview]>, rows: usize, Ghost(of): Ghost<Seq<Seq<FSRSReview>>>) -> (r: (
    Vec<Single>,
    Vec<u32>,
))
    requires
        columns@.len() > 0,
        of.len() == columns@.len(),
        forall|c: int| 0 <= c < columns@.len() ==> (#[trigger] columns@[c])@ == of[c],
        rows * columns@.len() <= usize::MAX,
    ensures
        r.0@ == interval_rows(of, rows as nat),
        r.1@ == rating_rows(of, rows as nat),
{
    let n: usize = columns.len();
    let cells: usize = rows * n;
    let mut intervals: Vec<Single> = Vec::with_capacity(cells);
    let mut ratings: Vec<u32> = Vec::with_capacity(cells);
    let mut k: usize = 0;
    while k < cells
        invariant
            k <= cells,
            cells == rows * n,
            n == columns@.len(),
            n > 0,
            of.len() == columns@.len(),
            forall|c: int| 0 <= c < columns@.len() ==> (#[trigger] columns@[c])@ == of[c],
            intervals@ == interval_rows(of, rows as nat).take(k as int),
            ratings@ == rating_rows(of, rows as nat).take(k as int),
        decreases cells - k,
    {
        let t: usize = k / n;
        let c: usize = k % n;
        assert(columns@[c as int]@ == of[c as int]);
        if t < columns[c].len() {
            intervals.push(columns[c][t].delta_t);
            ratings.push(columns[c][t].rating);
        } else {
            intervals.push(Single::zero());
            ratings.push(0);
        }
        k += 1;
        assert(interval_rows(of, rows as nat).take(k as int) =~= interval_rows(
            of,
            rows as nat,
        ).take(k - 1).push(interval_rows(of, rows as nat)[k - 1]));
        assert(rating_rows(of, rows as nat).take(k as int) =~= rating_rows(of, rows as nat).take(
            k - 1,
        ).push(rating_rows(of, rows as nat)[k - 1]));
    }
    assert(interval_rows(of, rows as nat).take(k as int) =~= interval_rows(of, rows as nat));
    assert(rating_rows(of, rows as nat).take(k as int) =~= rating_rows(of, rows as nat));
    (intervals, ratings)
}

/// Reviews laid out row by row: the review in row `t` of column `c` is in place
/// `t * columns + c`.
#[derive(Debug)]
pub struct Histories {
    /// The number of rows.
    pub rows: usize,
    /// The number of columns.
    pub columns: usize,
    /// The intervals.
    pub intervals: Vec<Single>,
    /// The ratings; 0 is padding.
    pub ratings: Vec<u32>,
}

impl Histories {
    /// Whether these are the histories given.
    pub open spec fn holds(self, histories: Seq<Seq<FSRSReview>>) -> bool {
        &&& self.columns == histories.len()
        &&& pads_to(histories, self.rows as nat)
        &&& self.intervals@ == interval_rows(histories, self.rows as nat)
        &&& self.ratings@ == rating_rows(histories, self.rows as nat)
    }
}

fn histories_of(columns: &Vec<&[FSRSReview]>, Ghost(of): Ghost<Seq<Seq<FSRSReview>>>) -> (r: Histories)
    requires
        columns@.len() > 0,
        of.len() == columns@.len(),
        forall|c: int| 0 <= c < columns@.len() ==> (#[trigger] columns@[c])@ == of[c],
        indexable(of, of.len()),
    ensures
        r.holds(of),
{
    let rows: usize = longest(columns, Ghost(of));
    let (intervals, ratings) = laid_out(columns, rows, Ghost(of));
    Histories { rows, columns: columns.len(), intervals, ratings }
}

/// Lays out all reviews of items, the last ones too.
pub fn items_to_histories(items: &Vec<FSRSItem>) -> (r: Histories)
    requires
        items@.len() > 0,
        indexable(crate::review::views(items@), items@.len()),
    ensures
        r.holds(crate::review::views(items@)),
{
    let mut columns: Vec<&[FSRSReview]> = Vec::with_capacity(items.len());
    let mut c: usize = 0;
    while c < items.len()
        invariant
            c <= items@.len(),
            columns@.len() == c,
            forall|d: int| 0 <= d < c ==> (#[trigger] columns@[d])@ == items@[d]@,
        decreases items@.len() - c,
    {
        columns.push(vstd::slice::slice_subrange(&items[c].reviews, 0, items[c].reviews.len()));
        assert(items@[c as int]@.subrange(0, items@[c as int]@.len() as int) =~= items@[c as int]@);
        c += 1;
    }
    histories_of(&columns, Ghost(crate::review::views(items@)))
}

/// Splits triples into three vectors, with `itertools`' `multiunzip`.
///
/// Not proved: that each vector holds its member of every triple, in order.
#[verifier::external_body]
fn unzipped(triples: Vec<(Single, i64, Single)>) -> (r: (Vec<Single>, Vec<i64>, Vec<Single>))
    ensures
        r.0@ == triples@.map_values(|triple: (Single, i64, Single)| triple.0),
        r.1@ == triples@.map_values(|triple: (Single, i64, Single)| triple.1),
        r.2@ == triples@.map_values(|triple: (Single, i64, Single)| triple.2),
{
    triples.into_iter().multiunzip()
}

/// A batch as a model takes it.
#[derive(Debug)]
pub struct FSRSBatch {
    /// The histories of the items.
    pub historys: Histories,
    /// The intervals before the current reviews.
    pub delta_ts: Vec<Single>,
    /// 1 for a current review that was recalled, 0 for one that was not.
    pub labels: Vec<i64>,
    /// The weights of the items.
    pub weights: Vec<Single>,
}

impl FSRSBatch {
    /// Whether this is the batch of the items given.
    pub open spec fn holds(self, items: Seq<(Single, Seq<FSRSReview>)>) -> bool {
        &&& self.historys.holds(histories(items))
        &&& self.delta_ts@ == current_intervals(items)
        &&& self.labels@ == recalled(items).map_values(
            |yes: bool|
                if yes {
                    1i64
                } else {
                    0i64
                },
        )
        &&& self.weights@ == weights_of(items)
    }
}

/// Makes batches.
#[derive(Clone, Copy, Debug, Default)]
pub struct FSRSBatcher {}

fn columns_of(items: &Vec<WeightedFSRSItem>, from: usize, to: usize) -> (r: Vec<&[FSRSReview]>)
    requires
        from <= to <= items@.len(),
        all_reviewed(crate::dataset::weighted(items@)),
    ensures
        r@.len() == to - from,
        forall|c: int|
            0 <= c < r@.len() ==> (#[trigger] r@[c])@ == histories(
                crate::dataset::weighted(items@).subrange(from as int, to as int),
            )[c],
{
    let ghost all = crate::dataset::weighted(items@);
    let mut columns: Vec<&[FSRSReview]> = Vec::with_capacity(to - from);
    let mut c: usize = from;
    while c < to
        invariant
            from <= c <= to <= items@.len(),
            all == crate::dataset::weighted(items@),
            all_reviewed(all),
            columns@.len() == c - from,
            forall|d: int|
                0 <= d < c - from ==> (#[trigger] columns@[d])@ == histories(
                    all.subrange(from as int, to as int),
                )[d],
        decreases to - c,
    {
        assert(all[c as int].1.len() > 0);
        columns.push(items[c].item.history());
        c += 1;
    }
    columns
}

impl FSRSBatcher {
    /// A batcher.
    pub fn new() -> (r: Self)
        ensures
            r == (FSRSBatcher {  }),
    {
        FSRSBatcher {  }
    }

    /// Makes a batch of one or more items.
    pub fn batch(&self, weighted_items: Vec<WeightedFSRSItem>) -> (r: FSRSBatch)
        requires
            weighted_items@.len() > 0,
            all_reviewed(crate::dataset::weighted(weighted_items@)),
            indexable(
                histories(crate::dataset::weighted(weighted_items@)),
                weighted_items@.len(),
            ),
        ensures
            r.holds(crate::dataset::weighted(weighted_items@)),
            r.labels@.len() == weighted_items@.len(),
            forall|c: int|
                #![trigger r.labels@[c]]
                0 <= c < weighted_items@.len() ==> (r.labels@[c] == 0
                    <==> weighted_items@[c].item@.last().rating == 1) && (r.labels@[c] == 1
                    <==> weighted_items@[c].item@.last().rating != 1),
    {
        let ghost all = crate::dataset::weighted(weighted_items@);
        assert(all.subrange(0, all.len() as int) =~= all);
        let columns = columns_of(&weighted_items, 0, weighted_items.len());
        let historys = histories_of(&columns, Ghost(histories(all)));
        let mut triples: Vec<(Single, i64, Single)> = Vec::with_capacity(weighted_items.len());
        let mut c: usize = 0;
        while c < weighted_items.len()
            invariant
                c <= weighted_items@.len(),
                all == crate::dataset::weighted(weighted_items@),
                all_reviewed(all),
                triples@.len() == c,
                forall|d: int|
                    0 <= d < c ==> #[trigger] triples@[d] == (
                        all[d].1.last().delta_t,
                        if all[d].1.last().rating != 1 {
                            1i64
                        } else {
                            0i64
                        },
                        all[d].0,
                    ),
            decreases weighted_items@.len() - c,
        {
            assert(all[c as int].1.len() > 0);
            let current = *weighted_items[c].item.current();
            let label: i64 = if current.rating == 1 {
                0
            } else {
                1
            };
            triples.push((current.delta_t, label, weighted_items[c].weight));
            c += 1;
        }
        let (delta_ts, labels, weights) = unzipped(triples);
        assert(delta_ts@ =~= current_intervals(all));
        assert(labels@ =~= recalled(all).map_values(
            |yes: bool|
                if yes {
                    1i64
                } else {
                    0i64
                },
        ));
        assert(weights@ =~= weights_of(all));
        FSRSBatch { historys, delta_ts, labels, weights }
    }
}

/// A batch as the analytic loss takes it.
#[derive(Debug)]
pub struct BatchHost {
    /// The number of rows: the length of the longest history.
    pub seq: usize,
    /// The number of columns.
    pub bsz: usize,
    /// The number of items.
    pub real_batch_size: usize,
    /// The intervals of the histories, row by row.
    pub th: Vec<Single>,
    /// The ratings of the histories, row by row; 0 is padding.
    pub rh: Vec<u32>,
    /// The intervals before the current reviews.
    pub dts: Vec<Single>,
    /// 1 for a current review that was recalled, 0 for one that was not.
    pub lbl: Vec<Single>,
    /// The weights of the items.
    pub wts: Vec<Single>,
}

impl BatchHost {
    /// Whether this is the batch of the items given.
    pub open spec fn holds(self, items: Seq<(Single, Seq<FSRSReview>)>) -> bool {
        &&& self.bsz == items.len()
        &&& self.real_batch_size == items.len()
        &&& pads_to(histories(items), self.seq as nat)
        &&& self.th@ == interval_rows(histories(items), self.seq as nat)
        &&& self.rh@ == rating_rows(histories(items), self.seq as nat)
        &&& self.dts@ == current_intervals(items)
        &&& self.lbl@ == recalled(items).map_values(
            |yes: bool|
                if yes {
                    Single::one()
                } else {
                    Single::zero()
                },
        )
        &&& self.wts@ == weights_of(items)
    }
}

fn host_batch(items: &Vec<WeightedFSRSItem>, from: usize, to: usize) -> (r: BatchHost)
    requires
        from < to <= items@.len(),
        all_reviewed(crate::dataset::weighted(items@)),
        indexable(
            histories(crate::dataset::weighted(items@).subrange(from as int, to as int)),
            (to - from) as nat,
        ),
    ensures
        r.holds(crate::dataset::weighted(items@).subrange(from as int, to as int)),
        r.lbl@.len() == to - from,
        forall|c: int|
            #![trigger r.lbl@[c]]
            0 <= c < to - from ==> (r.lbl@[c] == Single::zero()
                <==> items@[from + c].item@.last().rating == 1) && (r.lbl@[c] == Single::one()
                <==> items@[from + c].item@.last().rating != 1),
{
    let ghost all = crate::dataset::weighted(items@);
    let ghost part = all.subrange(from as int, to as int);
    let columns = columns_of(items, from, to);
    let Histories { rows, columns: bsz, intervals, ratings } = histories_of(
        &columns,
        Ghost(histories(part)),
    );
    let mut dts: Vec<Single> = Vec::with_capacity(bsz);
    let mut lbl: Vec<Single> = Vec::with_capacity(bsz);
    let mut wts: Vec<Single> = Vec::with_capacity(bsz);
    let mut c: usize = from;
    while c < to
        invariant
            from <= c <= to <= items@.len(),
            all == crate::dataset::weighted(items@),
            part == all.subrange(from as int, to as int),
            all_reviewed(all),
            dts@.len() == c - from,
            lbl@.len() == c - from,
            wts@.len() == c - from,
            forall|d: int| 0 <= d < c - from ==> #[trigger] dts@[d] == part[d].1.last().delta_t,
            forall|d: int|
                0 <= d < c - from ==> #[trigger] lbl@[d] == if part[d].1.last().rating != 1 {
                    Single::one()
                } else {
                    Single::zero()
                },
            forall|d: int| 0 <= d < c - from ==> #[trigger] wts@[d] == part[d].0,
        decreases to - c,
    {
        assert(all[c as int].1.len() > 0);
        let current = *items[c].item.current();
        dts.push(current.delta_t);
        lbl.push(
            if current.rating == 1 {
                Single::zero()
            } else {
                Single::one()
            },
        );
        wts.push(items[c].weight);
        c += 1;
    }
    assert(dts@ =~= current_intervals(part));
    assert(lbl@ =~= recalled(part).map_values(
        |yes: bool|
            if yes {
                Single::one()
            } else {
                Single::zero()
            },
    ));
    assert(wts@ =~= weights_of(part));
    BatchHost {
        seq: rows,
        bsz,
        real_batch_size: bsz,
        th: intervals,
        rh: ratings,
        dts,
        lbl,
        wts,
    }
}

/// The number of chunks of `size` items that `n` items make up, the last one maybe short.
pub open spec fn chunk_count(n: nat, size: nat) -> nat {
    if size == 0 {
        0
    } else {
        (n + size - 1) as nat / size
    }
}

/// Chunk `k` of `size` items.
pub open spec fn chunk<A>(items: Seq<A>, size: nat, k: int) -> Seq<A> {
    items.subrange(
        k * size,
        if (k + 1) * size < items.len() {
            (k + 1) * size
        } else {
            items.len() as int
        },
    )
}

/// Makes the batches of a training set: the items sorted by the number of their reviews,
/// then cut into chunks.
pub fn build_host_batches(items: Vec<WeightedFSRSItem>, batch_size: usize) -> (r: Vec<BatchHost>)
    requires
        batch_size > 0,
        all_reviewed(crate::dataset::weighted(items@)),
        indexable(
            histories(crate::dataset::weighted(items@)),
            if batch_size < items@.len() {
                batch_size as nat
            } else {
                items@.len()
            },
        ),
    ensures
        r@.len() == chunk_count(items@.len(), batch_size as nat),
        exists|sorted: Seq<(Single, Seq<FSRSReview>)>| #[trigger]
            crate::dataset::sorted_by_length(crate::dataset::weighted(items@), sorted) && forall|
                k: int,
            |
                0 <= k < r@.len() ==> (#[trigger] r@[k]).holds(chunk(sorted, batch_size as nat, k)),
{
    let ghost given = crate::dataset::weighted(items@);
    let sorted_items = sort_items_by_review_length(items);
    let ghost sorted = crate::dataset::weighted(sorted_items@);
    let n: usize = sorted_items.len();
    proof {
        lemma_sorted_keeps(given, sorted, batch_size as nat);
    }
    let mut r: Vec<BatchHost> = Vec::new();
    let mut from: usize = 0;
    proof {
        assert(0 * batch_size == 0);
    }
    while from < n
        invariant
            from <= n,
            n == sorted_items@.len(),
            n == given.len(),
            batch_size > 0,
            sorted == crate::dataset::weighted(sorted_items@),
            all_reviewed(sorted),
            indexable(
                histories(sorted),
                if batch_size < n {
                    batch_size as nat
                } else {
                    n as nat
                },
            ),
            from < n ==> from == r@.len() * batch_size,
            from == n ==> r@.len() == chunk_count(n as nat, batch_size as nat),
            forall|k: int|
                0 <= k < r@.len() ==> (#[trigger] r@[k]).holds(chunk(sorted, batch_size as nat, k)),
        decreases n - from,
    {
        let to: usize = if n - from <= batch_size {
            n
        } else {
            from + batch_size
        };
        let ghost k = r@.len() as int;
        proof {
            let part = sorted.subrange(from as int, to as int);
            assert((k + 1) * batch_size == from + batch_size) by (nonlinear_arith)
                requires
                    from == k * batch_size,
            ;
            assert(part == chunk(sorted, batch_size as nat, k));
            let columns = if batch_size < n {
                batch_size as nat
            } else {
                n as nat
            };
            assert forall|c: int| 0 <= c < histories(part).len() implies (#[trigger] histories(part)[c]).len()
                * ((to - from) as nat) <= usize::MAX by {
                let len = histories(part)[c].len() as int;
                assert(histories(sorted)[from + c] == histories(part)[c]);
                assert(len * (to - from) <= len * columns) by (nonlinear_arith)
                    requires
                        len >= 0,
                        to - from <= columns,
                ;
            }
            if to == n {
                assert(chunk_count(n as nat, batch_size as nat) == k + 1) by {
                    let size = batch_size as int;
                    vstd::arithmetic::div_mod::lemma_fundamental_div_mod_converse(
                        n + size - 1,
                        size,
                        k + 1,
                        n - 1 - from,
                    );
                }
            }
        }
        r.push(host_batch(&sorted_items, from, to));
        from = to;
    }
    r
}

/// Sorting keeps what holds of every item.
proof fn lemma_sorted_keeps(
    given: Seq<(Single, Seq<FSRSReview>)>,
    sorted: Seq<(Single, Seq<FSRSReview>)>,
    size: nat,
)
    requires
        crate::dataset::sorted_by_length(given, sorted),
    ensures
        sorted.len() == given.len(),
        all_reviewed(given) ==> all_reviewed(sorted),
        forall|columns: nat| #[trigger]
            indexable(histories(given), columns) ==> indexable(histories(sorted), columns),
        size > 0 ==> chunk_count(0, size) == 0,
{
    let order = choose|order: Seq<usize>| #[trigger]
        crate::order::stable(crate::dataset::lengths(given), order) && sorted
            == crate::dataset::arranged(given, order);
    if all_reviewed(given) {
        assert forall|c: int| 0 <= c < sorted.len() implies (#[trigger] sorted[c]).1.len() > 0 by {
            assert(given[order[c] as int].1.len() > 0);
        }
    }
    assert forall|columns: nat| #[trigger] indexable(histories(given), columns) implies indexable(
        histories(sorted),
        columns,
    ) by {
        assert forall|c: int| 0 <= c < histories(sorted).len() implies (#[trigger] histories(
            sorted,
        )[c]).len() * columns <= usize::MAX by {
            assert(histories(sorted)[c] == histories(given)[order[c] as int]);
        }
    }
    if size > 0 {
        vstd::arithmetic::div_mod::lemma_basic_div(size - 1, size as int);
    }
}

/// The batch that the analytic loss takes and the batch that the model takes hold the
/// same numbers, for the same items.
pub proof fn law_both_batches_hold_the_same(
    host: BatchHost,
    batch: FSRSBatch,
    items: Seq<(Single, Seq<FSRSReview>)>,
)
    requires
        host.holds(items),
        batch.holds(items),
    ensures
        host.seq == batch.historys.rows,
        host.bsz == batch.historys.columns,
        host.th@ == batch.historys.intervals@,
        host.rh@ == batch.historys.ratings@,
        host.dts@ == batch.delta_ts@,
        host.wts@ == batch.weights@,
        host.lbl@.len() == batch.labels@.len(),
        forall|c: int|
            0 <= c < host.lbl@.len() ==> (#[trigger] host.lbl@[c] == Single::one() <==> batch.labels@[c]
                == 1),
{
    let h = histories(items);
    let a = choose|c: int| 0 <= c < h.len() && (#[trigger] h[c]).len() == host.seq;
    let b = choose|c: int| 0 <= c < h.len() && (#[trigger] h[c]).len() == batch.historys.rows;
    assert(h[a].len() <= batch.historys.rows);
    assert(h[b].len() <= host.seq);
}

/// The review in row `t` of column `c` is in place `t * columns + c`, and every place
/// holds the review of one row and one column.
pub proof fn law_cells_have_places(columns: int, rows: int, t: int, c: int)
    requires
        0 <= t < rows,
        0 <= c < columns,
    ensures
        0 <= t * columns + c < rows * columns,
        (t * columns + c) / columns == t,
        (t * columns + c) % columns == c,
{
    assert(0 <= t * columns + c < rows * columns) by (nonlinear_arith)
        requires
            0 <= t < rows,
            0 <= c < columns,
    ;
    vstd::arithmetic::mul::lemma_mul_is_commutative(t, columns);
    vstd::arithmetic::div_mod::lemma_fundamental_div_mod_converse(t * columns + c, columns, t, c);
}

/// The chunks of a list, put one after the other, are the list.
pub proof fn law_chunks_make_up_the_list<A>(items: Seq<A>, size: nat, i: int)
    requires
        size > 0,
        0 <= i < items.len(),
    ensures
        0 <= i / (size as int) < chunk_count(items.len(), size),
        chunk(items, size, i / (size as int))[i % (size as int)] == items[i],
{
    let s = size as int;
    let k = i / s;
    vstd::arithmetic::div_mod::lemma_fundamental_div_mod(i, s);
    vstd::arithmetic::div_mod::lemma_div_pos_is_pos(i, s);
    vstd::arithmetic::mul::lemma_mul_is_commutative(s, k);
    assert(k * s + i % s == i);
    assert((k + 1) * s == k * s + s) by (nonlinear_arith);
    let n = items.len() as int;
    let count = (n + s - 1) / s;
    vstd::arithmetic::div_mod::lemma_fundamental_div_mod(n + s - 1, s);
    assert(k < count) by (nonlinear_arith)
        requires
            i == s * k + i % s,
            0 <= i % s < s,
            i < n,
            n + s - 1 == s * count + (n + s - 1) % s,
            0 <= (n + s - 1) % s < s,
            s > 0,
    ;
}

/// Reviews are laid out where they belong: row `t` of column `c` holds review `t` of history
/// `c`, rows past the end of a history are padding with rating 0 and interval 0, there are
/// as many columns as histories, and as many rows as the longest history has reviews.
pub proof fn law_histories_are_laid_out(laid: Histories, of: Seq<Seq<FSRSReview>>, c: int, t: int)
    requires
        laid.holds(of),
        0 <= c < of.len(),
        0 <= t < laid.rows,
    ensures
        laid.columns == of.len(),
        laid.intervals@.len() == laid.rows * of.len(),
        laid.ratings@.len() == laid.rows * of.len(),
        of[c].len() <= laid.rows,
        exists|d: int| 0 <= d < of.len() && (#[trigger] of[d]).len() == laid.rows,
        0 <= t * of.len() + c < laid.ratings@.len(),
        t < of[c].len() ==> laid.intervals@[t * of.len() + c] == of[c][t].delta_t
            && laid.ratings@[t * of.len() + c] == of[c][t].rating,
        t >= of[c].len() ==> laid.intervals@[t * of.len() + c] == Single::zero()
            && laid.ratings@[t * of.len() + c] == 0,
{
    law_cells_have_places(of.len() as int, laid.rows as int, t, c);
}

/// A batch that a model takes says of each item what it is: its label is 0 if and only if
/// the last review of the item has rating 1 (Again), and 1 after any other rating, Hard
/// among them; its interval is that before the last review, and its weight is that of the
/// item.
pub proof fn law_batches_hold_their_items(
    batch: FSRSBatch,
    items: Seq<(Single, Seq<FSRSReview>)>,
    c: int,
)
    requires
        batch.holds(items),
        0 <= c < items.len(),
        items[c].1.len() > 0,
    ensures
        batch.historys.columns == items.len(),
        batch.labels@.len() == items.len(),
        batch.delta_ts@.len() == items.len(),
        batch.weights@.len() == items.len(),
        batch.labels@[c] == 0 <==> items[c].1[items[c].1.len() - 1].rating == 1,
        batch.labels@[c] == 1 <==> items[c].1[items[c].1.len() - 1].rating != 1,
        batch.delta_ts@[c] == items[c].1[items[c].1.len() - 1].delta_t,
        batch.weights@[c] == items[c].0,
{
}

/// The column of an item in a batch that a model takes holds the reviews before its last
/// one, and padding after them.
pub proof fn law_batches_hold_what_came_before(
    batch: FSRSBatch,
    items: Seq<(Single, Seq<FSRSReview>)>,
    c: int,
    t: int,
)
    requires
        batch.holds(items),
        0 <= c < items.len(),
        items[c].1.len() > 0,
        0 <= t < batch.historys.rows,
    ensures
        items[c].1.len() - 1 <= batch.historys.rows,
        t < items[c].1.len() - 1 ==> batch.historys.intervals@[t * items.len() + c]
            == items[c].1[t].delta_t && batch.historys.ratings@[t * items.len() + c]
            == items[c].1[t].rating,
        t >= items[c].1.len() - 1 ==> batch.historys.intervals@[t * items.len() + c]
            == Single::zero() && batch.historys.ratings@[t * items.len() + c] == 0,
{
    law_histories_are_laid_out(batch.historys, histories(items), c, t);
    assert(histories(items)[c] == items[c].1.drop_last());
}

/// A batch that the analytic loss takes says of each item what it is: its label is 0 if and
/// only if the last review of the item has rating 1 (Again), and 1 after any other rating,
/// Hard among them; its interval is that before the last review, and its weight is that of
/// the item.
pub proof fn law_host_batches_hold_their_items(
    host: BatchHost,
    items: Seq<(Single, Seq<FSRSReview>)>,
    c: int,
)
    requires
        host.holds(items),
        0 <= c < items.len(),
        items[c].1.len() > 0,
    ensures
        host.bsz == items.len(),
        host.real_batch_size == items.len(),
        host.lbl@.len() == items.len(),
        host.dts@.len() == items.len(),
        host.wts@.len() == items.len(),
        host.lbl@[c] == Single::zero() <==> items[c].1[items[c].1.len() - 1].rating == 1,
        host.lbl@[c] == Single::one() <==> items[c].1[items[c].1.len() - 1].rating != 1,
        host.dts@[c] == items[c].1[items[c].1.len() - 1].delta_t,
        host.wts@[c] == items[c].0,
        items[c].1.len() - 1 <= host.seq,
{
    assert(histories(items)[c] == items[c].1.drop_last());
    assert(histories(items)[c].len() <= host.seq);
}

/// The column of an item in a batch that the analytic loss takes holds the reviews before
/// its last one, and padding after them; there are no more rows than the longest history
/// fills.
pub proof fn law_host_batches_hold_what_came_before(
    host: BatchHost,
    items: Seq<(Single, Seq<FSRSReview>)>,
    c: int,
    t: int,
)
    requires
        host.holds(items),
        all_reviewed(items),
        0 <= c < items.len(),
        0 <= t < host.seq,
    ensures
        host.th@.len() == host.seq * items.len(),
        host.rh@.len() == host.seq * items.len(),
        exists|d: int| 0 <= d < items.len() && (#[trigger] items[d]).1.len() == host.seq + 1,
        t < items[c].1.len() - 1 ==> host.th@[t * items.len() + c] == items[c].1[t].delta_t
            && host.rh@[t * items.len() + c] == items[c].1[t].rating,
        t >= items[c].1.len() - 1 ==> host.th@[t * items.len() + c] == Single::zero()
            && host.rh@[t * items.len() + c] == 0,
{
    let of = histories(items);
    assert(items[c].1.len() > 0);
    assert(of[c] == items[c].1.drop_last());
    let d = choose|d: int| 0 <= d < of.len() && (#[trigger] of[d]).len() == host.seq;
    assert(items[d].1.len() > 0);
    assert(of[d] == items[d].1.drop_last());
    assert(items[d].1.len() == host.seq + 1);
    law_cells_have_places(items.len() as int, host.seq as int, t, c);
}

/// Chunks follow one another without a gap: every chunk but the last has `size` elements,
/// the last has at least one and no more than that, and chunk `k` begins at `k * size`.
pub proof fn law_chunks_follow_one_another<A>(items: Seq<A>, size: nat, k: int)
    requires
        size > 0,
        0 <= k < chunk_count(items.len(), size),
    ensures
        1 <= chunk(items, size, k).len() <= size,
        k + 1 < chunk_count(items.len(), size) ==> chunk(items, size, k).len() == size,
        k + 1 == chunk_count(items.len(), size) ==> k * size + chunk(items, size, k).len()
            == items.len(),
        forall|j: int|
            0 <= j < chunk(items, size, k).len() ==> #[trigger] chunk(items, size, k)[j]
                == items[k * size + j],
{
    let s = size as int;
    let n = items.len() as int;
    let count = (n + s - 1) / s;
    vstd::arithmetic::div_mod::lemma_fundamental_div_mod(n + s - 1, s);
    vstd::arithmetic::div_mod::lemma_mod_bound(n + s - 1, s);
    let rest = (n + s - 1) % s;
    assert(n + s - 1 == s * count + rest);
    assert((k + 1) * s == k * s + s && 0 <= k * s) by (nonlinear_arith)
        requires
            0 <= k,
            s > 0,
    ;
    assert(s * count == count * s) by (nonlinear_arith);
    assert(k * s < n) by (nonlinear_arith)
        requires
            n + s - 1 == s * count + rest,
            0 <= rest < s,
            k + 1 <= count,
            s > 0,
    ;
    if k + 1 < count {
        assert((k + 1) * s < n) by (nonlinear_arith)
            requires
                n + s - 1 == s * count + rest,
                0 <= rest < s,
                k + 2 <= count,
                s > 0,
        ;
    } else {
        assert((k + 1) * s >= n) by (nonlinear_arith)
            requires
                n + s - 1 == s * count + rest,
                0 <= rest < s,
                k + 1 == count,
                s > 0,
        ;
    }
}

} // verus!
