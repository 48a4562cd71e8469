//! The model: which parameters it is made with.

use crate::error::FSRSError;
use crate::parameters::{check_and_fill_parameters, clip_parameters, copied, default_parameters};
use crate::single::Single;
use vstd::prelude::*;

verus! {

/// The parameters of a model, as a slice of 34.
pub type Parameters = [Single];

/// What can be set about a model before it is made.
#[derive(Clone, Copy, Debug)]
pub struct ModelConfig {
    /// Whether training leaves the initial stability alone.
    pub freeze_initial_stability: bool,
    /// Initial stability after each rating, in place of the defaults.
    pub initial_stability: Option<[Single; 4]>,
    /// The decays, bases, weights and stability powers of the forgetting curve, in place
    /// of the defaults.
    pub initial_forgetting_curve: Option<[Single; 8]>,
    /// Whether training leaves the fast trace alone.
    pub freeze_short_term_stability: bool,
    /// The number of relearning steps.
    pub num_relearning_steps: usize,
}

impl Default for ModelConfig {
    fn default() -> (r: Self)
        ensures
            r == (ModelConfig {
                freeze_initial_stability: false,
                initial_stability: None,
                initial_forgetting_curve: None,
                freeze_short_term_stability: false,
                num_relearning_steps: 0,
            }),
    {
        ModelConfig {
            freeze_initial_stability: false,
            initial_stability: None,
            initial_forgetting_curve: None,
            freeze_short_term_stability: false,
            num_relearning_steps: 0,
        }
    }
}

impl ModelConfig {
    /// The configuration that is trained with: nothing overridden, and everything that
    /// short-term memory uses frozen where it is off.
    pub fn for_training(enable_short_term: bool, num_relearning_steps: Option<usize>) -> (r: Self)
        ensures
            r == (ModelConfig {
                freeze_initial_stability: !enable_short_term,
                initial_stability: None,
                initial_forgetting_curve: None,
                freeze_short_term_stability: !enable_short_term,
                num_relearning_steps: match num_relearning_steps {
                    Some(n) => n,
                    None => 1,
                },
            }),
    {
        ModelConfig {
            freeze_initial_stability: !enable_short_term,
            initial_stability: None,
            initial_forgetting_curve: None,
            freeze_short_term_stability: !enable_short_term,
            num_relearning_steps: match num_relearning_steps {
                Some(n) => n,
                None => 1,
            },
        }
    }
}

/// The version of the model.
#[derive(Clone, Copy, Debug, PartialEq, Eq, Structural)]
pub enum ModelVersion {
    /// FSRS-7.
    Fsrs7,
}

impl ModelVersion {
    /// The name of the version.
    pub fn name(self) -> (r: &'static str)
        ensures
            r@ == "FSRS7"@,
    {
        match self {
            ModelVersion::Fsrs7 => "FSRS7",
        }
    }
}

/// The parameters that a model starts from: the defaults, with initial stability (places
/// 0 to 3) and the curve (places 23 to 30) replaced where the configuration gives them.
/// Freezing the fast trace changes none of them.
pub open spec fn starting_parameters(config: ModelConfig) -> Seq<Single> {
    Seq::new(
        34,
        |i: int|
            if config.initial_stability is Some && i < 4 {
                config.initial_stability->0[i]
            } else if config.initial_forgetting_curve is Some && 23 <= i < 31 {
                config.initial_forgetting_curve->0[i - 23]
            } else {
                crate::parameters::defaults()[i]
            },
    )
}

/// A model: its parameters and its version.
#[derive(Debug)]
pub struct Model {
    /// The parameters.
    pub w: Vec<Single>,
    /// The version.
    pub version: ModelVersion,
}

impl Clone for Model {
    fn clone(&self) -> (r: Self)
        ensures
            r.w@ == self.w@,
            r.version == self.version,
    {
        Model { w: copied(&self.w), version: self.version }
    }
}

impl Model {
    /// A model with the parameters that the configuration starts from.
    pub fn new(config: ModelConfig) -> (r: Model)
        ensures
            r.w@ == starting_parameters(config),
            r.version == ModelVersion::Fsrs7,
    {
        let mut w = default_parameters();
        if let Some(initial_stability) = config.initial_stability {
            let mut i: usize = 0;
            while i < 4
                invariant
                    i <= 4,
                    w@.len() == 34,
                    forall|j: int| 0 <= j < i ==> w@[j] == initial_stability[j],
                    forall|j: int| i <= j < 34 ==> w@[j] == crate::parameters::defaults()[j],
                decreases 4 - i,
            {
                w.set(i, initial_stability[i]);
                i += 1;
            }
        }
        let ghost before = w@;
        if let Some(initial_forgetting_curve) = config.initial_forgetting_curve {
            let mut i: usize = 0;
            while i < 8
                invariant
                    i <= 8,
                    w@.len() == 34,
                    before.len() == 34,
                    forall|j: int| 0 <= j < i ==> w@[23 + j] == initial_forgetting_curve[j],
                    forall|j: int| 0 <= j < 23 || 23 + i <= j < 34 ==> w@[j] == before[j],
                decreases 8 - i,
            {
                w.set(23 + i, initial_forgetting_curve[i]);
                i += 1;
            }
            assert forall|j: int| 23 <= j < 31 implies w@[j] == initial_forgetting_curve[j - 23] by {
                assert(w@[23 + (j - 23)] == initial_forgetting_curve[j - 23]);
            }
        }
        assert(w@ =~= starting_parameters(config));
        Model { w, version: ModelVersion::Fsrs7 }
    }

    /// The version.
    pub fn version(&self) -> (r: ModelVersion)
        ensures
            r == self.version,
    {
        self.version
    }
}

/// A model with the given parameters, clipped.
pub fn parameters_to_model(parameters: &Parameters) -> (r: Model)
    ensures
        r.w@ == crate::parameters::clipped(parameters@),
        r.version == ModelVersion::Fsrs7,
{
    let mut model = Model::new(ModelConfig::default());
    model.w = clip_parameters(parameters);
    model
}

/// The scheduler: a model whose parameters were checked and clipped.
#[derive(Debug)]
pub struct FSRS {
    model: Model,
}

impl FSRS {
    /// The parameters in use, in contracts.
    pub closed spec fn parameters(self) -> Seq<Single> {
        self.model.w@
    }

    /// A scheduler with the given parameters; none given stands for the defaults.
    pub fn new(parameters: &Parameters) -> (r: Result<FSRS, FSRSError>)
        ensures
            r is Ok <==> crate::parameters::acceptable(parameters@),
            r matches Ok(fsrs) ==> {
                &&& fsrs.parameters() == crate::parameters::clipped(
                    crate::parameters::filled(parameters@),
                )
                &&& fsrs.parameters().len() == 34
                &&& crate::parameters::in_ranges(fsrs.parameters())
            },
            r matches Err(e) ==> e == FSRSError::InvalidParameters,
    {
        match check_and_fill_parameters(parameters) {
            Ok(filled) => {
                proof {
                    crate::parameters::law_clipped_parameters_are_in_range(filled@);
                }
                Ok(FSRS { model: parameters_to_model(&filled) })
            },
            Err(e) => Err(e),
        }
    }

    /// The model.
    pub fn model(&self) -> (r: &Model)
        ensures
            r.w@ == self.parameters(),
    {
        &self.model
    }
}

impl Clone for FSRS {
    fn clone(&self) -> (r: Self)
        ensures
            r.parameters() == self.parameters(),
    {
        FSRS { model: self.model.clone() }
    }
}

impl Default for FSRS {
    /// A scheduler with the default parameters.
    fn default() -> (r: Self)
        ensures
            r.parameters() == crate::parameters::defaults(),
    {
        proof {
            crate::parameters::law_defaults_are_in_range();
        }
        let filled = default_parameters();
        FSRS { model: parameters_to_model(&filled) }
    }
}

/// A model starts from the default parameters, but for those that the configuration gives:
/// the four initial stabilities in places 0 to 3, and the eight of the curve in places 23 to
/// 30, each in its own order. What is frozen makes no difference.
pub proof fn law_models_start_from_what_is_given(config: ModelConfig, i: int)
    requires
        0 <= i < 34,
    ensures
        starting_parameters(config).len() == 34,
        config.initial_stability matches Some(given) ==> i < 4 ==> starting_parameters(config)[i]
            == given[i],
        config.initial_stability is None ==> i < 4 ==> starting_parameters(config)[i].bits
            == crate::parameters::DEFAULT_PARAMETERS[i],
        config.initial_forgetting_curve matches Some(given) ==> 23 <= i <= 30
            ==> starting_parameters(config)[i] == given[i - 23],
        config.initial_forgetting_curve is None ==> 23 <= i <= 30
            ==> starting_parameters(config)[i].bits == crate::parameters::DEFAULT_PARAMETERS[i],
        4 <= i < 23 || i > 30 ==> starting_parameters(config)[i].bits
            == crate::parameters::DEFAULT_PARAMETERS[i],
{
}

} // verus!
