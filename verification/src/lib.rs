//! FSRS: a model of memory for spaced repetition, and how it is trained on reviews.
//!
//! The library holds what FSRS-7 decides: which items are trained on and in which order,
//! how they are laid out in batches, how parameters are checked and clipped, what is due in
//! a training run, which number a review's new memory state is chosen from and which way a
//! gradient flows back through that choice, and how outcomes are counted. Numbers are held
//! as bit patterns (`single`, `double`); sums, products and transcendental functions are
//! the caller's, who passes them in as closures or is told what to compute next.
//!
//! - `review`, `outlier`, `dataset`, `raw`: reviews, items and training sets
//! - `order`, `picking`, `shuffle`: sorting, filtering and shuffling
//! - `batch`, `walk`, `losses`, `step`, `lanes`, `hold`, `window`: laying out reviews, walking
//!   over them and scoring them
//! - `halves`: how the losses and gradients of parts of a batch add up
//! - `parameters`, `model`, `forward`, `memory`, `evaluate`: the model and what it is asked
//! - `train`, `run`, `trainer`, `schedule`, `progress`: training
//! - `steady`: what holds of a training run whatever it is done with
//! - `penalty`, `intervals`, `dual`, `objective`: penalties on parameters and on the schedules
//!   they give, and what they make of the loss

pub mod batch;
pub mod dataset;
pub mod double;
pub mod dual;
pub mod error;
pub mod evaluate;
pub mod forward;
pub mod halves;
pub mod hold;
pub mod ieee;
pub mod intervals;
pub mod lanes;
pub mod losses;
pub mod memory;
pub mod model;
pub mod objective;
pub mod order;
pub mod outlier;
pub mod parameters;
pub mod penalty;
pub mod picking;
pub mod progress;
pub mod raw;
pub mod review;
pub mod run;
pub mod schedule;
pub mod shuffle;
pub mod single;
pub mod steady;
pub mod step;
pub mod train;
pub mod trainer;
pub mod walk;
pub mod window;

pub use double::Double;
pub use error::FSRSError;
pub use evaluate::ModelEvaluation;
pub use memory::MemoryState;
pub use model::FSRS;
pub use parameters::DEFAULT_PARAMETERS;
pub use progress::{CombinedProgressState, ItemProgress};
pub use review::{FSRSItem, FSRSReview};
pub use single::Single;
pub use train::ComputeParametersInput;
