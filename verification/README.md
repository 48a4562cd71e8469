# fsrs

FSRS-7 is a model of memory for spaced repetition. It gives each card a memory state
(long-term stability, difficulty and short-term stability), updates the state with every
review, and predicts how likely the card is recalled after an interval. Its parameters are
trained on a learner's own reviews.

This crate holds what the trainer and the model decide, with contracts that Verus proves,
and around it an application crate that computes with floating point.

## The library (`src/`)

- `review`, `outlier`, `dataset`, `raw`: reviews and items; which items are trained on, in
  which order and with which weights; items from a flat list of reviews.
- `order`, `picking`, `shuffle`: stable sorting, filtering, and orders shuffled from a seed.
- `batch`, `walk`, `losses`, `window`: batches as matrices; walks over a batch column by
  column, forwards and backwards; which losses and gradients are added up; one walk for all
  items of a card.
- `halves`: how the losses and gradients of parts of a batch add up.
- `step`, `lanes`: what a review does to a memory state, and which way a gradient flows back,
  for one column and for eight at a time.
- `hold`: holding memory states in range, where it is left open what comes of a part that is
  not a number.
- `parameters`, `model`, `forward`: the parameter vector, its ranges and its defaults; running
  a model over histories.
- `memory`, `evaluate`: memory states of many items, and how well predictions fit.
- `train`, `run`, `trainer`, `schedule`, `progress`: training, from items to parameters. Each
  step takes the gradient by frozen parameters away before the optimizer is asked, and clips
  what the optimizer gives.
- `steady`: frozen parameters do not move, and a run that is done again ends as it did.
- `penalty`, `intervals`, `dual`: penalties on parameters and on the schedules that they give.
- `objective`: the loss of a batch with the penalties, and the gradient of a step.
- `ieee`, `single`, `double`: floating-point numbers as bit patterns, with the order and the
  selections that depend on no rounding.

A number is held as its bit pattern. The library compares, clamps and selects such numbers
and proves what it does with them. What rounds (sums, products, powers, logarithms) is
passed in as a closure, and the contracts hold for any closure.

Public proof functions named `law_...` state what holds of several functions together.

The library trusts what the doc comments above `external_body` items say of `rand`,
`itertools` and `std::sync::Mutex`.

## The application crate (`app/`)

`app/` does the arithmetic: the model on tensors (`burn`), the analytic loss and its
gradient, scalar and eight lanes wide (`wide`), the numbers of the penalties, the optimizer,
serialization (`serde`) and the Python module (`pyo3`).

## Tests (`tests/`)

The tests run the library on concrete values. `tests/analytic.rs` also computes losses and
gradients around the library's decisions, and holds them against finite differences and
against each other.
