//! How well a model predicts.

use crate::batch::{FSRSBatch, FSRSBatcher};
use crate::dataset::{recency_weighted_fsrs_items, WeightedFSRSItem};
use crate::error::FSRSError;
use crate::model::FSRS;
use crate::progress::ItemProgress;
use crate::review::{FSRSItem, FSRSReview};
use crate::single::Single;
use vstd::prelude::*;

verus! {

/// How well a model predicts.
#[derive(Clone, Copy, Debug, PartialEq)]
pub struct ModelEvaluation {
    /// The weighted mean of the log loss.
    pub log_loss: Single,
    /// The weighted root mean square of what predictions are off by, in the cells of the
    /// calibration table.
    pub rmse_bins: Single,
}

/// The number of items that are predicted at a time.
pub const EVALUATION_BATCH: usize = 512;

/// What was predicted of an item, and what came of it.
#[derive(Clone, Copy, Debug, PartialEq)]
pub struct Outcome {
    /// The predicted recall.
    pub prediction: Single,
    /// Whether the current review was recalled.
    pub recalled: bool,
    /// The weight of the item.
    pub weight: Single,
    /// The cell of the calibration table.
    pub bin: (u32, u32, u32),
}

/// The number of items in the largest chunk of `n` items.
pub open spec fn largest_chunk(n: nat) -> nat {
    if n < 512 {
        n
    } else {
        512
    }
}

/// How far evaluation has come after `k + 1` chunks of `n` items.
pub open spec fn progress_after(n: nat, k: int) -> ItemProgress {
    ItemProgress {
        current: if (k + 1) * 512 < n {
            ((k + 1) * 512) as usize
        } else {
            n as usize
        },
        total: n as usize,
    }
}

/// Whether the predictions of chunk `k` are what `predict` may have given for its batch.
pub open spec fn chunk_predicted<M: Fn(&Vec<Single>, &FSRSBatch) -> Vec<Single>>(
    predict: M,
    parameters: Seq<Single>,
    items: Seq<(Single, Seq<FSRSReview>)>,
    outcomes: Seq<Outcome>,
    k: int,
) -> bool {
    exists|w: &Vec<Single>, batch: &FSRSBatch, predictions: Vec<Single>| #[trigger]
        call_ensures(predict, (w, batch), predictions) && w@ == parameters && batch.holds(
            crate::batch::chunk(items, 512, k),
        ) && forall|j: int|
            0 <= j < crate::batch::chunk(items, 512, k).len() ==> (#[trigger] outcomes[k * 512 + j]).prediction
                == predictions@[j]
}

/// Whether `outcomes` are outcomes of the items given: what is known of each item, with a
/// cell that `bin_of` may have given.
pub open spec fn outcomes_of<B: Fn(&FSRSItem) -> (u32, u32, u32)>(
    bin_of: B,
    items: Seq<(Single, Seq<FSRSReview>)>,
    outcomes: Seq<Outcome>,
) -> bool {
    forall|i: int|
        0 <= i < outcomes.len() ==> {
            &&& (#[trigger] outcomes[i]).recalled == (items[i].1.last().rating != 1)
            &&& outcomes[i].weight == items[i].0
            &&& exists|item: &FSRSItem| #[trigger]
                call_ensures(bin_of, (item,), outcomes[i].bin) && item@ == items[i].1
        }
}

/// Whether `all` are the items `of`, with weights that `weight_of` may have computed.
pub open spec fn weighed_all<W: Fn(usize, usize) -> Single>(
    all: Seq<(Single, Seq<FSRSReview>)>,
    of: Seq<Seq<FSRSReview>>,
    weight_of: W,
) -> bool {
    &&& all.len() == of.len()
    &&& forall|i: int| 0 <= i < of.len() ==> (#[trigger] all[i]).1 == of[i]
    &&& forall|i: int|
        0 <= i < of.len() ==> call_ensures(
            weight_of,
            (i as usize, of.len() as usize),
            (#[trigger] all[i]).0,
        )
}

/// Whether `outcomes` may be the outcomes of the items `of`.
pub open spec fn predicted<W, M, B>(
    parameters: Seq<Single>,
    of: Seq<Seq<FSRSReview>>,
    weight_of: W,
    predict: M,
    bin_of: B,
    outcomes: Seq<Outcome>,
) -> bool where
    W: Fn(usize, usize) -> Single,
    M: Fn(&Vec<Single>, &FSRSBatch) -> Vec<Single>,
    B: Fn(&FSRSItem) -> (u32, u32, u32),
 {
    &&& outcomes.len() == of.len()
    &&& exists|all: Seq<(Single, Seq<FSRSReview>)>| #[trigger]
        weighed_all(all, of, weight_of) && outcomes_of(bin_of, all, outcomes) && forall|k: int|
            0 <= k < crate::batch::chunk_count(of.len(), 512) ==> #[trigger] chunk_predicted(
                predict,
                parameters,
                all,
                outcomes,
                k,
            )
}

/// Whether `progress` may have said to go on after each of the first `chunks` chunks of `n`
/// items.
pub open spec fn went_on<P: Fn(ItemProgress) -> bool>(progress: P, n: nat, chunks: int) -> bool {
    forall|k: int|
        0 <= k < chunks ==> #[trigger] call_ensures(progress, (progress_after(n, k),), true)
}

/// Whether `progress` may have said to stop after a chunk of `n` items, and not before.
pub open spec fn stopped<P: Fn(ItemProgress) -> bool>(progress: P, n: nat) -> bool {
    exists|k: int| #[trigger]
        call_ensures(progress, (progress_after(n, k),), false) && 0 <= k
            < crate::batch::chunk_count(n, 512) && went_on(progress, n, k)
}

fn cut(items: &Vec<WeightedFSRSItem>, from: usize, to: usize) -> (r: Vec<WeightedFSRSItem>)
    requires
        from <= to <= items@.len(),
    ensures
        crate::dataset::weighted(r@) == crate::dataset::weighted(items@).subrange(
            from as int,
            to as int,
        ),
{
    let mut r: Vec<WeightedFSRSItem> = Vec::with_capacity(to - from);
    let mut i: usize = from;
    while i < to
        invariant
            from <= i <= to <= items@.len(),
            r@.len() == i - from,
            forall|j: int| 0 <= j < r@.len() ==> (#[trigger] r@[j])@ == items@[from + j]@,
        decreases to - i,
    {
        r.push(items[i].clone());
        i += 1;
    }
    assert(crate::dataset::weighted(r@) =~= crate::dataset::weighted(items@).subrange(
        from as int,
        to as int,
    ));
    r
}

impl FSRS {
    /// Predicts each item, 512 at a time, and tells how far it has come after each chunk.
    ///
    /// `weight_of` gives the weight of an item from its place and the number of items,
    /// `predict` the predicted recall of the items of a batch from the parameters, and
    /// `bin_of` the cell of an item. `progress` is told how far evaluation has come, and
    /// says whether to go on.
    pub fn outcomes<W, M, B, P>(
        &self,
        items: Vec<FSRSItem>,
        weight_of: W,
        predict: M,
        bin_of: B,
        progress: P,
    ) -> (r: Result<Vec<Outcome>, FSRSError>) where
        W: Fn(usize, usize) -> Single,
        M: Fn(&Vec<Single>, &FSRSBatch) -> Vec<Single>,
        B: Fn(&FSRSItem) -> (u32, u32, u32),
        P: Fn(ItemProgress) -> bool,

        requires
            forall|i: int| 0 <= i < items@.len() ==> (#[trigger] items@[i])@.len() > 0,
            forall|i: int|
                0 <= i < items@.len() ==> ((#[trigger] items@[i])@.len() - 1) * largest_chunk(
                    items@.len(),
                ) <= usize::MAX,
            forall|i: usize, n: usize| i < n ==> #[trigger] call_requires(weight_of, (i, n)),
            forall|w: &Vec<Single>, batch: &FSRSBatch| #[trigger] call_requires(predict, (w, batch)),
            forall|w: &Vec<Single>, batch: &FSRSBatch, predictions: Vec<Single>| #[trigger]
                call_ensures(predict, (w, batch), predictions) ==> predictions@.len()
                    == batch.historys.columns,
            forall|item: &FSRSItem| #[trigger] call_requires(bin_of, (item,)),
            forall|p: ItemProgress| #[trigger] call_requires(progress, (p,)),
        ensures
            items@.len() == 0 <==> r == Err::<Vec<Outcome>, FSRSError>(FSRSError::NotEnoughData),
            r matches Err(e) ==> e == FSRSError::NotEnoughData || e == FSRSError::Interrupted,
            r == Err::<Vec<Outcome>, FSRSError>(FSRSError::Interrupted) ==> stopped(
                progress,
                items@.len(),
            ),
            r matches Ok(outcomes) ==> predicted(
                self.parameters(),
                crate::review::views(items@),
                weight_of,
                predict,
                bin_of,
                outcomes@,
            ) && went_on(
                progress,
                items@.len(),
                crate::batch::chunk_count(items@.len(), 512) as int,
            ),
            r matches Ok(outcomes) ==> outcomes@.len() == items@.len() && forall|i: int|
                #![trigger outcomes@[i]]
                0 <= i < outcomes@.len() ==> {
                    &&& outcomes@[i].recalled <==> items@[i]@.last().rating != 1
                    &&& call_ensures(weight_of, (i as usize, items.len()), outcomes@[i].weight)
                },
    {
        if items.len() == 0 {
            return Err(FSRSError::NotEnoughData);
        }
        let n: usize = items.len();
        let ghost of = crate::review::views(items@);
        let weighted_items = recency_weighted_fsrs_items(items, weight_of);
        let ghost all = crate::dataset::weighted(weighted_items@);
        proof {
            assert forall|i: int| 0 <= i < of.len() implies (#[trigger] all[i]).1 == of[i] by {
                assert(weighted_items@[i].item@ == items@[i]@);
            }
            assert forall|i: int| 0 <= i < of.len() implies call_ensures(
                weight_of,
                (i as usize, of.len() as usize),
                (#[trigger] all[i]).0,
            ) by {
                assert(weighted_items@[i].weight == all[i].0);
                assert(of.len() as usize == items.len());
            }
            assert(weighed_all(all, of, weight_of));
        }
        let batcher = FSRSBatcher::new();
        let w = &self.model().w;
        let mut outcomes: Vec<Outcome> = Vec::with_capacity(n);
        let mut from: usize = 0;
        let ghost mut k: int = 0;
        while from < n
            invariant
                from <= n,
                n == of.len(),
                n == weighted_items@.len(),
                all == crate::dataset::weighted(weighted_items@),
                of == crate::review::views(items@),
                weighed_all(all, of, weight_of),
                forall|i: int| 0 <= i < n ==> (#[trigger] items@[i])@.len() > 0,
                forall|i: int|
                    0 <= i < n ==> ((#[trigger] items@[i])@.len() - 1) * largest_chunk(n as nat)
                        <= usize::MAX,
                forall|w: &Vec<Single>, batch: &FSRSBatch| #[trigger] call_requires(predict, (w, batch)),
                forall|w: &Vec<Single>, batch: &FSRSBatch, predictions: Vec<Single>| #[trigger]
                    call_ensures(predict, (w, batch), predictions) ==> predictions@.len()
                        == batch.historys.columns,
                forall|item: &FSRSItem| #[trigger] call_requires(bin_of, (item,)),
                forall|p: ItemProgress| #[trigger] call_requires(progress, (p,)),
                w@ == self.parameters(),
                k >= 0,
                from < n ==> from == k * 512 && k < crate::batch::chunk_count(n as nat, 512),
                from == n ==> k == crate::batch::chunk_count(n as nat, 512),
                outcomes@.len() == from,
                outcomes_of(bin_of, all, outcomes@),
                forall|j: int|
                    0 <= j < k ==> #[trigger] call_ensures(
                        progress,
                        (progress_after(n as nat, j),),
                        true,
                    ),
                forall|j: int|
                    0 <= j < k ==> #[trigger] chunk_predicted(
                        predict,
                        self.parameters(),
                        all,
                        outcomes@,
                        j,
                    ),
                forall|j: int|
                    0 <= j < k ==> #[trigger] (j * 512) + crate::batch::chunk(all, 512, j).len() <= from,
            decreases n - from,
        {
            let to: usize = if n - from <= EVALUATION_BATCH {
                n
            } else {
                from + EVALUATION_BATCH
            };
            let ghost part = crate::batch::chunk(all, 512, k);
            assert(part == all.subrange(from as int, to as int));
            let chunk = cut(&weighted_items, from, to);
            proof {
                assert forall|c: int| 0 <= c < part.len() implies (#[trigger] part[c]).1.len() > 0 by {
                    assert(part[c].1 == items@[from + c]@);
                }
                assert forall|c: int| 0 <= c < crate::batch::histories(part).len() implies (
                #[trigger] crate::batch::histories(part)[c]).len() * part.len() <= usize::MAX by {
                    let len = crate::batch::histories(part)[c].len() as int;
                    assert(len == items@[from + c]@.len() - 1);
                    assert(len * part.len() <= len * largest_chunk(n as nat)) by (nonlinear_arith)
                        requires
                            len >= 0,
                            part.len() <= largest_chunk(n as nat),
                    ;
                }
            }
            let batch = batcher.batch(chunk);
            let predictions = predict(w, &batch);
            let ghost before = outcomes@;
            let mut i: usize = from;
            while i < to
                invariant
                    from <= i <= to <= n,
                    n == weighted_items@.len(),
                    all == crate::dataset::weighted(weighted_items@),
                    of == crate::review::views(items@),
                    weighed_all(all, of, weight_of),
                    n == of.len(),
                    forall|i: int| 0 <= i < n ==> (#[trigger] items@[i])@.len() > 0,
                    forall|item: &FSRSItem| #[trigger] call_requires(bin_of, (item,)),
                    predictions@.len() == to - from,
                    outcomes@.len() == i,
                    before.len() == from,
                    forall|j: int| 0 <= j < from ==> #[trigger] outcomes@[j] == before[j],
                    outcomes_of(bin_of, all, outcomes@),
                    forall|j: int|
                        from <= j < i ==> (#[trigger] outcomes@[j]).prediction == predictions@[j - from],
                decreases to - i,
            {
                let item = &weighted_items[i].item;
                assert(all[i as int].1 == items@[i as int]@);
                let bin = bin_of(item);
                let ghost earlier = outcomes@;
                outcomes.push(
                    Outcome {
                        prediction: predictions[i - from],
                        recalled: item.current().rating != 1,
                        weight: weighted_items[i].weight,
                        bin,
                    },
                );
                proof {
                    assert forall|j: int| 0 <= j < outcomes@.len() implies {
                        &&& (#[trigger] outcomes@[j]).recalled == (all[j].1.last().rating != 1)
                        &&& outcomes@[j].weight == all[j].0
                        &&& exists|item: &FSRSItem| #[trigger]
                            call_ensures(bin_of, (item,), outcomes@[j].bin) && item@ == all[j].1
                    } by {
                        if j < i {
                            assert(outcomes@[j] == earlier[j]);
                        } else {
                            assert(call_ensures(bin_of, (item,), outcomes@[j].bin));
                        }
                    }
                }
                i += 1;
            }
            proof {
                assert forall|j: int| 0 <= j < k implies #[trigger] chunk_predicted(
                    predict,
                    self.parameters(),
                    all,
                    outcomes@,
                    j,
                ) by {
                    assert(chunk_predicted(predict, self.parameters(), all, before, j));
                    let (w, b, p) = choose|w: &Vec<Single>, b: &FSRSBatch, p: Vec<Single>| #[trigger]
                        call_ensures(predict, (w, b), p) && w@ == self.parameters() && b.holds(
                            crate::batch::chunk(all, 512, j),
                        ) && forall|l: int|
                            0 <= l < crate::batch::chunk(all, 512, j).len() ==> (
                            #[trigger] before[j * 512 + l]).prediction == p@[l];
                    assert(call_ensures(predict, (w, b), p));
                    assert((j * 512) + crate::batch::chunk(all, 512, j).len() <= from);
                    assert forall|l: int| 0 <= l < crate::batch::chunk(all, 512, j).len() implies (
                    #[trigger] outcomes@[j * 512 + l]).prediction == p@[l] by {
                        assert(before[j * 512 + l].prediction == p@[l]);
                    }
                }
                assert(chunk_predicted(predict, self.parameters(), all, outcomes@, k)) by {
                    assert(call_ensures(predict, (w, &batch), predictions));
                }
                if to == n {
                    vstd::arithmetic::div_mod::lemma_fundamental_div_mod_converse(
                        n + 511,
                        512,
                        k + 1,
                        n - 1 - from,
                    );
                } else {
                    vstd::arithmetic::div_mod::lemma_div_is_ordered(
                        (k + 2) * 512,
                        n + 511,
                        512,
                    );
                    vstd::arithmetic::div_mod::lemma_div_by_multiple(k + 2, 512);
                }
                assert(progress_after(n as nat, k) == (ItemProgress { current: to, total: n }));
            }
            if !progress(ItemProgress { current: to, total: n }) {
                assert(call_ensures(progress, (progress_after(n as nat, k),), false));
                assert(went_on(progress, n as nat, k));
                return Err(FSRSError::Interrupted);
            }
            proof {
                k = k + 1;
            }
            from = to;
        }
        Ok(outcomes)
    }

    /// Determines how well the model and its parameters predict.
    ///
    /// `weight_of`, `predict`, `bin_of` and `progress` are what they are for `outcomes`; the
    /// other functions are what they are for `evaluation`.
    pub fn evaluate<W, M, B, E, S, R, L, P>(
        &self,
        items: Vec<FSRSItem>,
        weight_of: W,
        predict: M,
        bin_of: B,
        error: &E,
        plus: &S,
        root: &R,
        loss: &L,
        progress: P,
    ) -> (r: Result<ModelEvaluation, FSRSError>) where
        W: Fn(usize, usize) -> Single,
        M: Fn(&Vec<Single>, &FSRSBatch) -> Vec<Single>,
        B: Fn(&FSRSItem) -> (u32, u32, u32),
        E: Fn(RMatrixValue) -> Single,
        S: Fn(Single, Single) -> Single,
        R: Fn(Single, Single) -> Single,
        L: Fn(&Vec<Outcome>) -> Single,
        P: Fn(ItemProgress) -> bool,

        requires
            forall|i: int| 0 <= i < items@.len() ==> (#[trigger] items@[i])@.len() > 0,
            forall|i: int|
                0 <= i < items@.len() ==> ((#[trigger] items@[i])@.len() - 1) * largest_chunk(
                    items@.len(),
                ) <= usize::MAX,
            forall|i: usize, n: usize| i < n ==> #[trigger] call_requires(weight_of, (i, n)),
            forall|w: &Vec<Single>, batch: &FSRSBatch| #[trigger] call_requires(predict, (w, batch)),
            forall|w: &Vec<Single>, batch: &FSRSBatch, predictions: Vec<Single>| #[trigger]
                call_ensures(predict, (w, batch), predictions) ==> predictions@.len()
                    == batch.historys.columns,
            forall|item: &FSRSItem| #[trigger] call_requires(bin_of, (item,)),
            can_evaluate(*error, *plus, *root, *loss),
            forall|p: ItemProgress| #[trigger] call_requires(progress, (p,)),
        ensures
            items@.len() == 0 <==> r == Err::<ModelEvaluation, FSRSError>(FSRSError::NotEnoughData),
            r matches Err(e) ==> e == FSRSError::NotEnoughData || e == FSRSError::Interrupted,
            r == Err::<ModelEvaluation, FSRSError>(FSRSError::Interrupted) ==> stopped(
                progress,
                items@.len(),
            ),
            r matches Ok(evaluation) ==> (exists|outcomes: &Vec<Outcome>| #[trigger]
                evaluated(*error, *plus, *root, *loss, outcomes, evaluation) && predicted(
                    self.parameters(),
                    crate::review::views(items@),
                    weight_of,
                    predict,
                    bin_of,
                    outcomes@,
                )) && went_on(
                progress,
                items@.len(),
                crate::batch::chunk_count(items@.len(), 512) as int,
            ),
    {
        match self.outcomes(items, weight_of, predict, bin_of, progress) {
            Ok(outcomes) => {
                let r: Result<ModelEvaluation, FSRSError> = Ok(
                    evaluation(&outcomes, error, plus, root, loss),
                );
                assert(evaluated(*error, *plus, *root, *loss, &outcomes, r->Ok_0));
                r
            },
            Err(e) => Err(e),
        }
    }
}

/// A cell of the calibration table with the outcomes that fall into it.
#[derive(Debug)]
pub struct BinGroup {
    /// The cell.
    pub bin: (u32, u32, u32),
    /// The places of its outcomes, in order.
    pub members: Vec<usize>,
}

/// Whether `members` lists the places of the outcomes of a cell, in order.
pub open spec fn members_of(outcomes: Seq<Outcome>, bin: (u32, u32, u32), members: Seq<usize>) -> bool {
    &&& forall|a: int, b: int| 0 <= a < b < members.len() ==> #[trigger] members[a] < #[trigger] members[b]
    &&& forall|a: int|
        0 <= a < members.len() ==> #[trigger] members[a] < outcomes.len() && outcomes[members[a] as int].bin
            == bin
    &&& forall|i: int|
        0 <= i < outcomes.len() && (#[trigger] outcomes[i]).bin == bin ==> crate::order::lists(members, i)
}

/// Whether `groups` is the calibration table of outcomes: each cell that has outcomes
/// once, in the order in which the cells first occur.
pub open spec fn table_of(outcomes: Seq<Outcome>, groups: Seq<BinGroup>) -> bool {
    &&& forall|g: int|
        0 <= g < groups.len() ==> (#[trigger] groups[g]).members@.len() > 0 && members_of(
            outcomes,
            groups[g].bin,
            groups[g].members@,
        )
    &&& forall|g: int, h: int|
        0 <= g < h < groups.len() ==> (#[trigger] groups[g]).members@[0] < (#[trigger] groups[h]).members@[0]
    &&& forall|i: int|
        0 <= i < outcomes.len() ==> exists|g: int|
            0 <= g < groups.len() && (#[trigger] groups[g]).bin == (#[trigger] outcomes[i]).bin
}

/// The calibration table of outcomes.
pub fn r_matrix(outcomes: &Vec<Outcome>) -> (r: Vec<BinGroup>)
    ensures
        table_of(outcomes@, r@),
{
    let mut groups: Vec<BinGroup> = Vec::new();
    let mut i: usize = 0;
    while i < outcomes.len()
        invariant
            i <= outcomes@.len(),
            table_of(outcomes@.take(i as int), groups@),
        decreases outcomes@.len() - i,
    {
        let bin = outcomes[i].bin;
        let mut g: usize = 0;
        while g < groups.len() && !same_bin(groups[g].bin, bin)
            invariant
                g <= groups@.len(),
                forall|h: int| 0 <= h < g ==> (#[trigger] groups@[h]).bin != bin,
            decreases groups@.len() - g,
        {
            g += 1;
        }
        let ghost before = groups@;
        let ghost seen = outcomes@.take(i as int);
        let ghost more = outcomes@.take(i + 1);
        assert(more.drop_last() =~= seen);
        if g < groups.len() {
            let mut members: Vec<usize> = Vec::new();
            std::mem::swap(&mut members, &mut groups[g].members);
            members.push(i);
            groups.set(g, BinGroup { bin, members });
            assert(groups@ =~= before.update(g as int, groups@[g as int]));
        } else {
            let mut members: Vec<usize> = Vec::new();
            members.push(i);
            groups.push(BinGroup { bin, members });
            assert(groups@ =~= before.push(groups@[g as int]));
        }
        proof {
            lemma_table_grows(seen, more, before, groups@, g as int, i);
        }
        i += 1;
    }
    assert(outcomes@.take(i as int) =~= outcomes@);
    groups
}

/// The table of one more outcome, which falls into cell `g`, or into a new one where that
/// is the number of cells.
proof fn lemma_table_grows(
    seen: Seq<Outcome>,
    more: Seq<Outcome>,
    before: Seq<BinGroup>,
    groups: Seq<BinGroup>,
    g: int,
    i: usize,
)
    requires
        table_of(seen, before),
        i == seen.len(),
        more.len() == seen.len() + 1,
        more.drop_last() == seen,
        0 <= g <= before.len(),
        forall|h: int| 0 <= h < g ==> (#[trigger] before[h]).bin != more.last().bin,
        g < groups.len(),
        groups[g].bin == more.last().bin,
        g < before.len() ==> groups == before.update(g, groups[g]) && before[g].bin
            == more.last().bin && groups[g].members@ == before[g].members@.push(i),
        g == before.len() ==> groups == before.push(groups[g]) && groups[g].members@ == seq![i],
    ensures
        table_of(more, groups),
{
    let bin = more.last().bin;
    assert forall|h: int| 0 <= h < groups.len() implies (#[trigger] groups[h]).members@.len() > 0
        && members_of(more, groups[h].bin, groups[h].members@) by {
        if h != g {
            assert(groups[h] == before[h]);
            if before[h].bin == bin {
                law_cells_occur_once(seen, before, g, h);
            }
            lemma_member_kept(seen, more, before[h].bin, before[h].members@);
        } else if g < before.len() {
            lemma_member_added(seen, more, before[g].bin, before[g].members@, i);
        } else {
            assert forall|j: int| 0 <= j < more.len() && (#[trigger] more[j]).bin == bin implies crate::order::lists(
                groups[g].members@,
                j,
            ) by {
                if j < i {
                    assert(seen[j] == more[j]);
                    let c = choose|c: int|
                        0 <= c < before.len() && (#[trigger] before[c]).bin == seen[j].bin;
                    assert(before[c].bin == bin);
                } else {
                    assert(groups[g].members@[0] == j);
                }
            }
        }
    }
    assert forall|a: int, b: int| 0 <= a < b < groups.len() implies (#[trigger] groups[a]).members@[0]
        < (#[trigger] groups[b]).members@[0] by {
        assert(groups[a].members@[0] == before[a].members@[0]);
        if b < before.len() {
            assert(groups[b].members@[0] == before[b].members@[0]);
            assert(before[a].members@[0] < before[b].members@[0]);
        } else {
            assert(members_of(seen, before[a].bin, before[a].members@));
            assert(before[a].members@[0] < seen.len());
        }
    }
    assert forall|j: int| 0 <= j < more.len() implies exists|h: int|
        0 <= h < groups.len() && (#[trigger] groups[h]).bin == (#[trigger] more[j]).bin by {
        if j < i {
            assert(seen[j] == more[j]);
            let h = choose|h: int| 0 <= h < before.len() && (#[trigger] before[h]).bin == seen[j].bin;
            assert(groups[h].bin == before[h].bin);
        } else {
            assert(groups[g].bin == more[j].bin);
        }
    }
}

/// What is added up in a cell of the calibration table.
#[derive(Clone, Copy, Debug, PartialEq)]
pub struct RMatrixValue {
    /// The predictions.
    pub predicted: Single,
    /// How many items were recalled.
    pub actual: Single,
    /// How many items there are.
    pub count: Single,
    /// The weights.
    pub weight: Single,
}

impl RMatrixValue {
    /// Nothing yet.
    #[verifier::allow_in_spec]
    pub fn zeros() -> (r: RMatrixValue)
        returns
            (RMatrixValue {
                predicted: Single { bits: 0 },
                actual: Single { bits: 0 },
                count: Single { bits: 0 },
                weight: Single { bits: 0 },
            }),
    {
        RMatrixValue {
            predicted: Single { bits: 0 },
            actual: Single { bits: 0 },
            count: Single { bits: 0 },
            weight: Single { bits: 0 },
        }
    }
}

/// The outcomes of a cell, in order.
pub open spec fn cell_outcomes(outcomes: Seq<Outcome>, members: Seq<usize>) -> Seq<Outcome> {
    members.map_values(|i: usize| outcomes[i as int])
}

/// 1 for an outcome that was recalled, 0 for one that was not.
pub open spec fn label_of(outcome: Outcome) -> Single {
    if outcome.recalled {
        Single::one()
    } else {
        Single::zero()
    }
}

/// Whether `value` may be what is added up in a cell with these outcomes: the predictions,
/// the labels, a 1 for each outcome, and the weights.
pub open spec fn cell_added_up<P: Fn(Single, Single) -> Single>(
    plus: P,
    outcomes: Seq<Outcome>,
    value: RMatrixValue,
) -> bool {
    let zero = Single::zero();
    &&& crate::losses::summed(
        plus,
        zero,
        outcomes.map_values(|outcome: Outcome| outcome.prediction),
        value.predicted,
    )
    &&& crate::losses::summed(
        plus,
        zero,
        outcomes.map_values(|outcome: Outcome| label_of(outcome)),
        value.actual,
    )
    &&& crate::losses::summed(
        plus,
        zero,
        outcomes.map_values(|outcome: Outcome| Single::one()),
        value.count,
    )
    &&& crate::losses::summed(
        plus,
        zero,
        outcomes.map_values(|outcome: Outcome| outcome.weight),
        value.weight,
    )
}

proof fn lemma_outcome_added<P: Fn(Single, Single) -> Single>(
    plus: P,
    outcomes: Seq<Outcome>,
    before: RMatrixValue,
    outcome: Outcome,
    value: RMatrixValue,
)
    requires
        cell_added_up(plus, outcomes, before),
        call_ensures(plus, (before.predicted, outcome.prediction), value.predicted),
        call_ensures(plus, (before.actual, label_of(outcome)), value.actual),
        call_ensures(plus, (before.count, Single::one()), value.count),
        call_ensures(plus, (before.weight, outcome.weight), value.weight),
    ensures
        cell_added_up(plus, outcomes.push(outcome), value),
{
    let zero = Single::zero();
    let more = outcomes.push(outcome);
    let predictions = outcomes.map_values(|outcome: Outcome| outcome.prediction);
    let labels = outcomes.map_values(|outcome: Outcome| label_of(outcome));
    let ones = outcomes.map_values(|outcome: Outcome| Single::one());
    let weights = outcomes.map_values(|outcome: Outcome| outcome.weight);
    crate::losses::lemma_one_more(
        plus,
        zero,
        predictions,
        before.predicted,
        outcome.prediction,
        value.predicted,
    );
    crate::losses::lemma_one_more(
        plus,
        zero,
        labels,
        before.actual,
        label_of(outcome),
        value.actual,
    );
    crate::losses::lemma_one_more(plus, zero, ones, before.count, Single::one(), value.count);
    crate::losses::lemma_one_more(
        plus,
        zero,
        weights,
        before.weight,
        outcome.weight,
        value.weight,
    );
    assert(more.map_values(|outcome: Outcome| outcome.prediction) =~= predictions.push(
        outcome.prediction,
    ));
    assert(more.map_values(|outcome: Outcome| label_of(outcome)) =~= labels.push(
        label_of(outcome),
    ));
    assert(more.map_values(|outcome: Outcome| Single::one()) =~= ones.push(Single::one()));
    assert(more.map_values(|outcome: Outcome| outcome.weight) =~= weights.push(outcome.weight));
}

/// Adds up what is in a cell.
fn cell_value<P: Fn(Single, Single) -> Single>(
    outcomes: &Vec<Outcome>,
    members: &Vec<usize>,
    plus: &P,
) -> (r: RMatrixValue)
    requires
        forall|a: int| 0 <= a < members@.len() ==> #[trigger] members@[a] < outcomes@.len(),
        forall|a: Single, b: Single| #[trigger] call_requires(*plus, (a, b)),
    ensures
        cell_added_up(*plus, cell_outcomes(outcomes@, members@), r),
{
    let mut value = RMatrixValue::zeros();
    let mut a: usize = 0;
    let ghost all = cell_outcomes(outcomes@, members@);
    proof {
        let none = all.take(0);
        crate::losses::lemma_no_terms::<Single, Single, P>(*plus, Single::zero());
        assert(none.map_values(|outcome: Outcome| outcome.prediction) =~= Seq::empty());
        assert(none.map_values(|outcome: Outcome| label_of(outcome)) =~= Seq::empty());
        assert(none.map_values(|outcome: Outcome| Single::one()) =~= Seq::empty());
        assert(none.map_values(|outcome: Outcome| outcome.weight) =~= Seq::empty());
    }
    while a < members.len()
        invariant
            a <= members@.len(),
            forall|a: int| 0 <= a < members@.len() ==> #[trigger] members@[a] < outcomes@.len(),
            forall|a: Single, b: Single| #[trigger] call_requires(*plus, (a, b)),
            all == cell_outcomes(outcomes@, members@),
            cell_added_up(*plus, all.take(a as int), value),
        decreases members@.len() - a,
    {
        let outcome = outcomes[members[a]];
        let label = if outcome.recalled {
            Single::one()
        } else {
            Single::zero()
        };
        let ghost before = value;
        value = RMatrixValue {
            predicted: plus(value.predicted, outcome.prediction),
            actual: plus(value.actual, label),
            count: plus(value.count, Single::one()),
            weight: plus(value.weight, outcome.weight),
        };
        proof {
            lemma_outcome_added(*plus, all.take(a as int), before, outcome, value);
            assert(all.take(a + 1) =~= all.take(a as int).push(outcome));
        }
        a += 1;
    }
    assert(all.take(a as int) =~= all);
    value
}

/// Whether `values` may be what is added up in the cells of a calibration table, and
/// `errors` what `error` makes of them.
pub open spec fn cells_valued<E, P>(
    error: E,
    plus: P,
    outcomes: Seq<Outcome>,
    groups: Seq<BinGroup>,
    values: Seq<RMatrixValue>,
    errors: Seq<Single>,
) -> bool where
    E: Fn(RMatrixValue) -> Single,
    P: Fn(Single, Single) -> Single,
 {
    &&& values.len() == groups.len()
    &&& errors.len() == groups.len()
    &&& forall|g: int|
        0 <= g < groups.len() ==> cell_added_up(
            plus,
            cell_outcomes(outcomes, (#[trigger] groups[g]).members@),
            values[g],
        ) && call_ensures(error, (values[g],), errors[g])
}

/// Whether `r` may be how far predictions are off in the cells of the calibration table:
/// what `root` makes of the sum of the errors and the sum of the weights of the cells.
pub open spec fn calibrated<E, P, R>(
    error: E,
    plus: P,
    root: R,
    outcomes: Seq<Outcome>,
    r: Single,
) -> bool where
    E: Fn(RMatrixValue) -> Single,
    P: Fn(Single, Single) -> Single,
    R: Fn(Single, Single) -> Single,
 {
    exists|
        groups: Seq<BinGroup>,
        values: Seq<RMatrixValue>,
        errors: Seq<Single>,
        off: Single,
        weight: Single,
    |
        #![trigger cells_valued(error, plus, outcomes, groups, values, errors), call_ensures(root, (off, weight), r)]
        {
            &&& table_of(outcomes, groups)
            &&& cells_valued(error, plus, outcomes, groups, values, errors)
            &&& crate::losses::summed(plus, Single::zero(), errors, off)
            &&& crate::losses::summed(plus, Single::zero(), cell_weights(values), weight)
            &&& call_ensures(root, (off, weight), r)
        }
}

/// How far predictions are off in the cells of the calibration table. `plus` adds, `error`
/// weighs what a cell is off by, and `root` makes the result of the sum of the errors and
/// the sum of the weights. Cells are added up in the order in which they first occur.
pub fn rmse_bins<E, P, R>(outcomes: &Vec<Outcome>, error: &E, plus: &P, root: &R) -> (r:
    Single) where
    E: Fn(RMatrixValue) -> Single,
    P: Fn(Single, Single) -> Single,
    R: Fn(Single, Single) -> Single,

    requires
        forall|value: RMatrixValue| #[trigger] call_requires(*error, (value,)),
        forall|a: Single, b: Single| #[trigger] call_requires(*plus, (a, b)),
        forall|a: Single, b: Single| #[trigger] call_requires(*root, (a, b)),
    ensures
        calibrated(*error, *plus, *root, outcomes@, r),
{
    let groups = r_matrix(outcomes);
    let mut off = Single::zero();
    let mut weight = Single::zero();
    let ghost mut values: Seq<RMatrixValue> = Seq::empty();
    let ghost mut errors: Seq<Single> = Seq::empty();
    let mut g: usize = 0;
    proof {
        crate::losses::lemma_no_terms::<Single, Single, P>(*plus, off);
        assert(cell_weights(values) =~= Seq::empty());
    }
    while g < groups.len()
        invariant
            g <= groups@.len(),
            table_of(outcomes@, groups@),
            forall|value: RMatrixValue| #[trigger] call_requires(*error, (value,)),
            forall|a: Single, b: Single| #[trigger] call_requires(*plus, (a, b)),
            cells_valued(*error, *plus, outcomes@, groups@.take(g as int), values, errors),
            crate::losses::summed(*plus, Single::zero(), errors, off),
            crate::losses::summed(*plus, Single::zero(), cell_weights(values), weight),
        decreases groups@.len() - g,
    {
        assert(members_of(outcomes@, groups@[g as int].bin, groups@[g as int].members@));
        let value = cell_value(outcomes, &groups[g].members, plus);
        let amount = error(value);
        let ghost off_before = off;
        let ghost weight_before = weight;
        off = plus(off, amount);
        weight = plus(weight, value.weight);
        proof {
            crate::losses::lemma_one_more(
                *plus,
                Single::zero(),
                errors,
                off_before,
                amount,
                off,
            );
            crate::losses::lemma_one_more(
                *plus,
                Single::zero(),
                cell_weights(values),
                weight_before,
                value.weight,
                weight,
            );
            let ghost_values = values.push(value);
            let ghost_errors = errors.push(amount);
            let more = groups@.take(g + 1);
            assert(cell_weights(ghost_values) =~= cell_weights(values).push(value.weight));
            assert forall|h: int| 0 <= h < more.len() implies cell_added_up(
                *plus,
                cell_outcomes(outcomes@, (#[trigger] more[h]).members@),
                ghost_values[h],
            ) && call_ensures(*error, (ghost_values[h],), ghost_errors[h]) by {
                if h < g {
                    assert(groups@.take(g as int)[h] == more[h]);
                }
            }
            values = ghost_values;
            errors = ghost_errors;
        }
        g += 1;
    }
    assert(groups@.take(g as int) =~= groups@);
    let r = root(off, weight);
    assert(cells_valued(*error, *plus, outcomes@, groups@, values, errors));
    r
}

/// Whether an evaluation may be made of outcomes: its log loss is what `loss` gives for
/// them, and the rest is how far predictions are off in the cells of the calibration table.
pub open spec fn evaluated<E, P, R, L>(
    error: E,
    plus: P,
    root: R,
    loss: L,
    outcomes: &Vec<Outcome>,
    evaluation: ModelEvaluation,
) -> bool where
    E: Fn(RMatrixValue) -> Single,
    P: Fn(Single, Single) -> Single,
    R: Fn(Single, Single) -> Single,
    L: Fn(&Vec<Outcome>) -> Single,
 {
    &&& calibrated(error, plus, root, outcomes@, evaluation.rmse_bins)
    &&& call_ensures(loss, (outcomes,), evaluation.log_loss)
}

/// Whether the functions that an evaluation is made with can be called.
pub open spec fn can_evaluate<E, P, R, L>(error: E, plus: P, root: R, loss: L) -> bool where
    E: Fn(RMatrixValue) -> Single,
    P: Fn(Single, Single) -> Single,
    R: Fn(Single, Single) -> Single,
    L: Fn(&Vec<Outcome>) -> Single,
 {
    &&& forall|value: RMatrixValue| #[trigger] call_requires(error, (value,))
    &&& forall|a: Single, b: Single| #[trigger] call_requires(plus, (a, b))
    &&& forall|a: Single, b: Single| #[trigger] call_requires(root, (a, b))
    &&& forall|outcomes: &Vec<Outcome>| #[trigger] call_requires(loss, (outcomes,))
}

/// The evaluation that outcomes give. `loss` gives the weighted mean of their log loss; the
/// other functions are what they are for `rmse_bins`.
pub fn evaluation<E, P, R, L>(
    outcomes: &Vec<Outcome>,
    error: &E,
    plus: &P,
    root: &R,
    loss: &L,
) -> (r: ModelEvaluation) where
    E: Fn(RMatrixValue) -> Single,
    P: Fn(Single, Single) -> Single,
    R: Fn(Single, Single) -> Single,
    L: Fn(&Vec<Outcome>) -> Single,

    requires
        can_evaluate(*error, *plus, *root, *loss),
    ensures
        evaluated(*error, *plus, *root, *loss, outcomes, r),
{
    let rmse = rmse_bins(outcomes, error, plus, root);
    let log_loss = loss(outcomes);
    ModelEvaluation { log_loss, rmse_bins: rmse }
}

/// The weights of cells.
pub open spec fn cell_weights(values: Seq<RMatrixValue>) -> Seq<Single> {
    values.map_values(|value: RMatrixValue| value.weight)
}

/// No cell occurs twice in a calibration table.
pub proof fn law_cells_occur_once(outcomes: Seq<Outcome>, groups: Seq<BinGroup>, g: int, h: int)
    requires
        table_of(outcomes, groups),
        0 <= g < groups.len(),
        0 <= h < groups.len(),
        groups[g].bin == groups[h].bin,
    ensures
        g == h,
{
    let a = groups[g].members@;
    let b = groups[h].members@;
    assert(members_of(outcomes, groups[g].bin, a) && members_of(outcomes, groups[h].bin, b));
    assert(outcomes[a[0] as int].bin == groups[g].bin);
    assert(outcomes[b[0] as int].bin == groups[h].bin);
    assert(crate::order::lists(b, a[0] as int));
    assert(crate::order::lists(a, b[0] as int));
    if g < h {
        assert(groups[g].members@[0] < groups[h].members@[0]);
    } else if h < g {
        assert(groups[h].members@[0] < groups[g].members@[0]);
    }
}

fn same_bin(a: (u32, u32, u32), b: (u32, u32, u32)) -> (r: bool)
    ensures
        r == (a == b),
{
    a.0 == b.0 && a.1 == b.1 && a.2 == b.2
}

proof fn lemma_member_kept(
    seen: Seq<Outcome>,
    more: Seq<Outcome>,
    bin: (u32, u32, u32),
    members: Seq<usize>,
)
    requires
        members_of(seen, bin, members),
        more.len() == seen.len() + 1,
        more.drop_last() == seen,
        more.last().bin != bin,
    ensures
        members_of(more, bin, members),
{
    assert forall|a: int| 0 <= a < members.len() implies #[trigger] members[a] < more.len()
        && more[members[a] as int].bin == bin by {
        assert(seen[members[a] as int] == more[members[a] as int]);
    }
    assert forall|i: int| 0 <= i < more.len() && (#[trigger] more[i]).bin == bin implies crate::order::lists(
        members,
        i,
    ) by {
        assert(i < seen.len());
        assert(seen[i] == more[i]);
    }
}

proof fn lemma_member_added(
    seen: Seq<Outcome>,
    more: Seq<Outcome>,
    bin: (u32, u32, u32),
    members: Seq<usize>,
    i: usize,
)
    requires
        members_of(seen, bin, members),
        i == seen.len(),
        more.len() == seen.len() + 1,
        more.drop_last() == seen,
        more.last().bin == bin,
    ensures
        members_of(more, bin, members.push(i)),
{
    let all = members.push(i);
    assert forall|a: int| 0 <= a < all.len() implies #[trigger] all[a] < more.len()
        && more[all[a] as int].bin == bin by {
        if a < members.len() {
            assert(members[a] == all[a]);
            assert(seen[members[a] as int] == more[members[a] as int]);
        }
    }
    assert forall|a: int, b: int| 0 <= a < b < all.len() implies #[trigger] all[a] < #[trigger] all[b] by {
        assert(members[a] == all[a]);
        if b < members.len() {
            assert(members[b] == all[b]);
        }
    }
    assert forall|j: int| 0 <= j < more.len() && (#[trigger] more[j]).bin == bin implies crate::order::lists(
        all,
        j,
    ) by {
        if j < seen.len() {
            assert(seen[j] == more[j]);
            assert(crate::order::lists(members, j));
            let a = choose|a: int| 0 <= a < members.len() && #[trigger] members[a] == j;
            assert(all[a] == j);
        } else {
            assert(all[members.len() as int] == j);
        }
    }
}

/// What is known of an item's outcome: it was recalled if and only if the last review of the
/// item does not have rating 1 (Again), so Hard, Good and Easy all count as recalled; and its
/// weight is that which belongs to its place among all items.
pub proof fn law_outcomes_say_what_was_recalled<W, M, B>(
    parameters: Seq<Single>,
    of: Seq<Seq<FSRSReview>>,
    weight_of: W,
    predict: M,
    bin_of: B,
    outcomes: Seq<Outcome>,
    i: int,
) where
    W: Fn(usize, usize) -> Single,
    M: Fn(&Vec<Single>, &FSRSBatch) -> Vec<Single>,
    B: Fn(&FSRSItem) -> (u32, u32, u32),

    requires
        predicted(parameters, of, weight_of, predict, bin_of, outcomes),
        0 <= i < of.len(),
        of[i].len() > 0,
    ensures
        outcomes.len() == of.len(),
        outcomes[i].recalled <==> of[i][of[i].len() - 1].rating != 1,
        call_ensures(weight_of, (i as usize, of.len() as usize), outcomes[i].weight),
        exists|item: &FSRSItem| #[trigger]
            call_ensures(bin_of, (item,), outcomes[i].bin) && item@ == of[i],
{
    let all = choose|all: Seq<(Single, Seq<FSRSReview>)>| #[trigger]
        weighed_all(all, of, weight_of) && outcomes_of(bin_of, all, outcomes) && forall|k: int|
            0 <= k < crate::batch::chunk_count(of.len(), 512) ==> #[trigger] chunk_predicted(
                predict,
                parameters,
                all,
                outcomes,
                k,
            );
    assert(outcomes[i].weight == all[i].0);
    assert(all[i].1 == of[i]);
}

/// The prediction of an item is the one that was made for it: that of its own place in the
/// chunk of 512 that it is in, from a batch whose column in that place is the item.
pub proof fn law_predictions_belong_to_their_items<W, M, B>(
    parameters: Seq<Single>,
    of: Seq<Seq<FSRSReview>>,
    weight_of: W,
    predict: M,
    bin_of: B,
    outcomes: Seq<Outcome>,
    i: int,
) where
    W: Fn(usize, usize) -> Single,
    M: Fn(&Vec<Single>, &FSRSBatch) -> Vec<Single>,
    B: Fn(&FSRSItem) -> (u32, u32, u32),

    requires
        predicted(parameters, of, weight_of, predict, bin_of, outcomes),
        forall|j: int| 0 <= j < of.len() ==> (#[trigger] of[j]).len() > 0,
        0 <= i < of.len(),
    ensures
        exists|w: &Vec<Single>, batch: &FSRSBatch, predictions: Vec<Single>| #[trigger]
            call_ensures(predict, (w, batch), predictions) && w@ == parameters
                && outcomes[i].prediction == predictions@[i % 512] && batch.delta_ts@[i % 512]
                == of[i].last().delta_t && (batch.labels@[i % 512] == 1 <==> of[i].last().rating
                != 1) && batch.weights@[i % 512] == outcomes[i].weight && forall|t: int|
                0 <= t < of[i].len() - 1 ==> #[trigger] of[i][t].rating
                    == batch.historys.ratings@[t * batch.historys.columns + i % 512]
                    && of[i][t].delta_t
                    == batch.historys.intervals@[t * batch.historys.columns + i % 512],
{
    let all = choose|all: Seq<(Single, Seq<FSRSReview>)>| #[trigger]
        weighed_all(all, of, weight_of) && outcomes_of(bin_of, all, outcomes) && forall|k: int|
            0 <= k < crate::batch::chunk_count(of.len(), 512) ==> #[trigger] chunk_predicted(
                predict,
                parameters,
                all,
                outcomes,
                k,
            );
    let k = i / 512;
    let j = i % 512;
    crate::batch::law_chunks_make_up_the_list(all, 512, i);
    crate::batch::law_chunks_follow_one_another(all, 512, k);
    if k + 1 < crate::batch::chunk_count(all.len(), 512) {
        crate::batch::law_chunks_follow_one_another(all, 512, k + 1);
    }
    let part = crate::batch::chunk(all, 512, k);
    assert(i == k * 512 + j);
    assert(j < part.len());
    assert(part[j] == all[i]);
    assert(all[i].1 == of[i]);
    assert(of[i].len() > 0);
    assert(chunk_predicted(predict, parameters, all, outcomes, k));
    let (w, batch, predictions) = choose|w: &Vec<Single>, batch: &FSRSBatch, predictions: Vec<Single>|
        #[trigger]
        call_ensures(predict, (w, batch), predictions) && w@ == parameters && batch.holds(part)
            && forall|l: int|
            0 <= l < part.len() ==> (#[trigger] outcomes[k * 512 + l]).prediction == predictions@[l];
    crate::batch::law_batches_hold_their_items(*batch, part, j);
    assert(outcomes[k * 512 + j].prediction == predictions@[j]);
    assert(outcomes[i].weight == all[i].0);
    assert forall|t: int| 0 <= t < of[i].len() - 1 implies #[trigger] of[i][t].rating
        == batch.historys.ratings@[t * batch.historys.columns + j] && of[i][t].delta_t
        == batch.historys.intervals@[t * batch.historys.columns + j] by {
        assert(crate::batch::histories(part)[j] == part[j].1.drop_last());
        assert(crate::batch::histories(part)[j].len() <= batch.historys.rows);
        crate::batch::law_batches_hold_what_came_before(*batch, part, j, t);
    }
    assert(call_ensures(predict, (w, batch), predictions));
}

/// An outcome agrees with the batch that it was predicted in: it was recalled if and only if
/// the label of its item in the batch is 1, and not if and only if that is 0; in both forms
/// of a batch. Its weight is the one that the batch holds.
pub proof fn law_outcomes_agree_with_labels<B: Fn(&FSRSItem) -> (u32, u32, u32)>(
    bin_of: B,
    items: Seq<(Single, Seq<FSRSReview>)>,
    outcomes: Seq<Outcome>,
    batch: FSRSBatch,
    host: crate::batch::BatchHost,
    k: int,
    j: int,
)
    requires
        outcomes_of(bin_of, items, outcomes),
        outcomes.len() == items.len(),
        crate::batch::all_reviewed(items),
        0 <= k < crate::batch::chunk_count(items.len(), 512),
        0 <= j < crate::batch::chunk(items, 512, k).len(),
        batch.holds(crate::batch::chunk(items, 512, k)),
        host.holds(crate::batch::chunk(items, 512, k)),
    ensures
        0 <= k * 512 + j < outcomes.len(),
        outcomes[k * 512 + j].recalled <==> batch.labels@[j] == 1,
        !outcomes[k * 512 + j].recalled <==> batch.labels@[j] == 0,
        outcomes[k * 512 + j].recalled <==> host.lbl@[j] == Single::one(),
        !outcomes[k * 512 + j].recalled <==> host.lbl@[j] == Single::zero(),
        outcomes[k * 512 + j].weight == batch.weights@[j],
{
    let part = crate::batch::chunk(items, 512, k);
    crate::batch::law_chunks_follow_one_another(items, 512, k);
    if k + 1 < crate::batch::chunk_count(items.len(), 512) {
        crate::batch::law_chunks_follow_one_another(items, 512, k + 1);
    }
    assert(part[j] == items[k * 512 + j]);
    let i = k * 512 + j;
    assert(items[i].1.len() > 0);
    crate::batch::law_batches_hold_their_items(batch, part, j);
    crate::batch::law_host_batches_hold_their_items(host, part, j);
    assert(outcomes[i].recalled == (items[i].1.last().rating != 1));
}

/// The label of an outcome is 1 where it was recalled, and 0 where it was not.
pub proof fn law_labels_are_one_or_zero(outcome: Outcome)
    ensures
        label_of(outcome).value() == if outcome.recalled {
            vstd::arithmetic::power2::pow2(149) as int
        } else {
            0
        },
{
    crate::single::lemma_one();
    crate::single::lemma_zero();
}

/// Progress grows with every chunk: it is 512 items more, or all items after the last one.
pub proof fn law_progress_grows_by_chunks(n: nat, k: int)
    requires
        0 <= k < crate::batch::chunk_count(n, 512),
        n <= usize::MAX,
    ensures
        progress_after(n, k).total == n,
        k + 1 < crate::batch::chunk_count(n, 512) ==> progress_after(n, k).current == (k + 1) * 512
            && progress_after(n, k).current < n,
        k + 1 == crate::batch::chunk_count(n, 512) ==> progress_after(n, k).current == n,
{
    let items = Seq::new(n, |i: int| 0int);
    crate::batch::law_chunks_follow_one_another(items, 512, k);
    if k + 1 < crate::batch::chunk_count(n, 512) {
        crate::batch::law_chunks_follow_one_another(items, 512, k + 1);
    }
}

/// Every outcome is counted in one cell of the calibration table, its own, and no cell counts
/// it twice.
pub proof fn law_outcomes_are_counted_once(outcomes: Seq<Outcome>, groups: Seq<BinGroup>, i: int)
    requires
        table_of(outcomes, groups),
        0 <= i < outcomes.len(),
    ensures
        exists|g: int, a: int|
            #![trigger groups[g].members@[a]]
            0 <= g < groups.len() && 0 <= a < groups[g].members@.len() && groups[g].members@[a] == i
                && groups[g].bin == outcomes[i].bin,
        forall|g: int, a: int, h: int, b: int|
            #![trigger groups[g].members@[a], groups[h].members@[b]]
            0 <= g < groups.len() && 0 <= a < groups[g].members@.len() && groups[g].members@[a] == i
                && 0 <= h < groups.len() && 0 <= b < groups[h].members@.len()
                && groups[h].members@[b] == i ==> g == h && a == b,
{
    let g = choose|g: int|
        0 <= g < groups.len() && (#[trigger] groups[g]).bin == outcomes[i].bin;
    assert(members_of(outcomes, groups[g].bin, groups[g].members@));
    assert(crate::order::lists(groups[g].members@, i));
    let a = choose|a: int| 0 <= a < groups[g].members@.len() && #[trigger] groups[g].members@[a] == i;
    assert(groups[g].members@[a] == i);
    assert forall|g: int, a: int, h: int, b: int|
        #![trigger groups[g].members@[a], groups[h].members@[b]]
        0 <= g < groups.len() && 0 <= a < groups[g].members@.len() && groups[g].members@[a] == i && 0
            <= h < groups.len() && 0 <= b < groups[h].members@.len() && groups[h].members@[b]
            == i implies g == h && a == b by {
        assert(members_of(outcomes, groups[g].bin, groups[g].members@));
        assert(members_of(outcomes, groups[h].bin, groups[h].members@));
        assert(outcomes[groups[g].members@[a] as int].bin == groups[g].bin);
        assert(outcomes[groups[h].members@[b] as int].bin == groups[h].bin);
        law_cells_occur_once(outcomes, groups, g, h);
        if a < b {
            assert(groups[g].members@[a] < groups[g].members@[b]);
        } else if b < a {
            assert(groups[g].members@[b] < groups[g].members@[a]);
        }
    }
}

/// With numbers that add up as whole numbers do, a cell holds what its outcomes make up: as
/// many as there are, the recalled ones among them, and the sums of their predictions and
/// weights. `number` reads a number, and `plus` adds as numbers add.
pub proof fn law_cells_add_up<P: Fn(Single, Single) -> Single>(
    plus: P,
    outcomes: Seq<Outcome>,
    value: RMatrixValue,
    number: spec_fn(Single) -> int,
)
    requires
        cell_added_up(plus, outcomes, value),
        number(Single { bits: 0 }) == 0,
        number(Single { bits: 0x3f80_0000 }) == 1,
        forall|a: Single, b: Single, c: Single| #[trigger]
            call_ensures(plus, (a, b), c) ==> number(c) == number(a) + number(b),
    ensures
        number(value.count) == outcomes.len(),
        number(value.actual) == outcomes.filter(|o: Outcome| o.recalled).len(),
        number(value.predicted) == added(outcomes, |o: Outcome| number(o.prediction)),
        number(value.weight) == added(outcomes, |o: Outcome| number(o.weight)),
{
    lemma_terms_add_up(
        plus,
        outcomes.map_values(|outcome: Outcome| outcome.prediction),
        value.predicted,
        number,
        outcomes,
        |o: Outcome| number(o.prediction),
    );
    lemma_terms_add_up(
        plus,
        outcomes.map_values(|outcome: Outcome| label_of(outcome)),
        value.actual,
        number,
        outcomes,
        |o: Outcome|
            if o.recalled {
                1int
            } else {
                0int
            },
    );
    lemma_terms_add_up(
        plus,
        outcomes.map_values(|outcome: Outcome| Single::one()),
        value.count,
        number,
        outcomes,
        |o: Outcome| 1int,
    );
    lemma_terms_add_up(
        plus,
        outcomes.map_values(|outcome: Outcome| outcome.weight),
        value.weight,
        number,
        outcomes,
        |o: Outcome| number(o.weight),
    );
    lemma_ones_add_up(outcomes);
}

/// What `of` makes of the outcomes, added up.
pub open spec fn added(outcomes: Seq<Outcome>, of: spec_fn(Outcome) -> int) -> int
    decreases outcomes.len(),
{
    if outcomes.len() == 0 {
        0
    } else {
        added(outcomes.drop_last(), of) + of(outcomes.last())
    }
}

proof fn lemma_ones_add_up(outcomes: Seq<Outcome>)
    ensures
        added(outcomes, |o: Outcome| 1int) == outcomes.len(),
        added(
            outcomes,
            |o: Outcome|
                if o.recalled {
                    1int
                } else {
                    0int
                },
        ) == outcomes.filter(|o: Outcome| o.recalled).len(),
    decreases outcomes.len(),
{
    reveal(Seq::filter);
    if outcomes.len() > 0 {
        lemma_ones_add_up(outcomes.drop_last());
    }
}

proof fn lemma_terms_add_up<P: Fn(Single, Single) -> Single>(
    plus: P,
    terms: Seq<Single>,
    sum: Single,
    number: spec_fn(Single) -> int,
    outcomes: Seq<Outcome>,
    of: spec_fn(Outcome) -> int,
)
    requires
        crate::losses::summed(plus, Single::zero(), terms, sum),
        number(Single { bits: 0 }) == 0,
        forall|a: Single, b: Single, c: Single| #[trigger]
            call_ensures(plus, (a, b), c) ==> number(c) == number(a) + number(b),
        terms.len() == outcomes.len(),
        forall|i: int| 0 <= i < terms.len() ==> number(#[trigger] terms[i]) == of(outcomes[i]),
    ensures
        number(sum) == added(outcomes, of),
{
    let totals = choose|totals: Seq<Single>| #[trigger]
        crate::losses::running(plus, Single::zero(), terms, totals) && totals.last() == sum;
    lemma_totals_add_up(plus, terms, totals, number, outcomes, of, terms.len() as int);
    assert(outcomes.take(terms.len() as int) =~= outcomes);
}

proof fn lemma_totals_add_up<P: Fn(Single, Single) -> Single>(
    plus: P,
    terms: Seq<Single>,
    totals: Seq<Single>,
    number: spec_fn(Single) -> int,
    outcomes: Seq<Outcome>,
    of: spec_fn(Outcome) -> int,
    i: int,
)
    requires
        crate::losses::running(plus, Single::zero(), terms, totals),
        number(Single { bits: 0 }) == 0,
        forall|a: Single, b: Single, c: Single| #[trigger]
            call_ensures(plus, (a, b), c) ==> number(c) == number(a) + number(b),
        terms.len() == outcomes.len(),
        forall|i: int| 0 <= i < terms.len() ==> number(#[trigger] terms[i]) == of(outcomes[i]),
        0 <= i <= terms.len(),
    ensures
        number(totals[i]) == added(outcomes.take(i), of),
    decreases i,
{
    if i > 0 {
        lemma_totals_add_up(plus, terms, totals, number, outcomes, of, i - 1);
        assert(crate::losses::plus_one(plus, terms, totals, i - 1));
        assert(outcomes.take(i).drop_last() =~= outcomes.take(i - 1));
        assert(number(terms[i - 1]) == of(outcomes[i - 1]));
    }
}

/// What an evaluation is made of: the log loss is what `loss` gives for all outcomes, and the
/// calibration error is what `root` makes of two sums over the cells of the table, that of
/// their errors and that of their weights, in this order.
pub proof fn law_what_an_evaluation_is_made_of<E, P, R, L>(
    error: E,
    plus: P,
    root: R,
    loss: L,
    outcomes: &Vec<Outcome>,
    evaluation: ModelEvaluation,
) where
    E: Fn(RMatrixValue) -> Single,
    P: Fn(Single, Single) -> Single,
    R: Fn(Single, Single) -> Single,
    L: Fn(&Vec<Outcome>) -> Single,

    requires
        evaluated(error, plus, root, loss, outcomes, evaluation),
    ensures
        call_ensures(loss, (outcomes,), evaluation.log_loss),
        exists|
            groups: Seq<BinGroup>,
            values: Seq<RMatrixValue>,
            errors: Seq<Single>,
            off: Single,
            weight: Single,
        |
            #![trigger cells_valued(error, plus, outcomes@, groups, values, errors), call_ensures(root, (off, weight), evaluation.rmse_bins)]
            {
                &&& table_of(outcomes@, groups)
                &&& cells_valued(error, plus, outcomes@, groups, values, errors)
                &&& crate::losses::summed(plus, Single::zero(), errors, off)
                &&& crate::losses::summed(
                    plus,
                    Single::zero(),
                    values.map_values(|value: RMatrixValue| value.weight),
                    weight,
                )
                &&& call_ensures(root, (off, weight), evaluation.rmse_bins)
            },
{
}

/// What a cell is valued by: what its own outcomes add up to, and the error of that. Its
/// outcomes are those in the places that it lists.
pub proof fn law_cells_are_valued_by_their_outcomes<E, P>(
    error: E,
    plus: P,
    outcomes: Seq<Outcome>,
    groups: Seq<BinGroup>,
    values: Seq<RMatrixValue>,
    errors: Seq<Single>,
    g: int,
) where E: Fn(RMatrixValue) -> Single, P: Fn(Single, Single) -> Single
    requires
        table_of(outcomes, groups),
        cells_valued(error, plus, outcomes, groups, values, errors),
        0 <= g < groups.len(),
    ensures
        values.len() == groups.len(),
        errors.len() == groups.len(),
        call_ensures(error, (values[g],), errors[g]),
        cell_added_up(
            plus,
            Seq::new(
                groups[g].members@.len(),
                |a: int| outcomes[groups[g].members@[a] as int],
            ),
            values[g],
        ),
        forall|a: int|
            0 <= a < groups[g].members@.len() ==> outcomes[#[trigger] groups[g].members@[a] as int].bin
                == groups[g].bin,
{
    let members = groups[g].members@;
    assert(members_of(outcomes, groups[g].bin, members));
    assert(cell_outcomes(outcomes, members) =~= Seq::new(
        members.len(),
        |a: int| outcomes[members[a] as int],
    ));
}

/// An evaluation that is interrupted was told to stop after some chunk, and to go on after
/// each one before it; what it told is how many items were done, and how many there are.
pub proof fn law_when_evaluation_is_interrupted<P: Fn(ItemProgress) -> bool>(progress: P, n: nat)
    requires
        stopped(progress, n),
        n <= usize::MAX,
    ensures
        exists|k: int|
            #![trigger progress_after(n, k)]
            0 <= k < crate::batch::chunk_count(n, 512) && call_ensures(
                progress,
                (progress_after(n, k),),
                false,
            ) && forall|j: int|
                #![trigger progress_after(n, j)]
                0 <= j < k ==> call_ensures(progress, (progress_after(n, j),), true),
{
    let k = choose|k: int| #[trigger]
        call_ensures(progress, (progress_after(n, k),), false) && 0 <= k
            < crate::batch::chunk_count(n, 512) && went_on(progress, n, k);
    assert(call_ensures(progress, (progress_after(n, k),), false));
    assert forall|j: int|
        #![trigger progress_after(n, j)]
        0 <= j < k implies call_ensures(progress, (progress_after(n, j),), true) by {}
}

} // verus!
