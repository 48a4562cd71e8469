use fsrs::error::FSRSError;
use fsrs::model::{parameters_to_model, Model, ModelConfig, ModelVersion, FSRS};
use fsrs::parameters::{
    check_and_fill_parameters, clamp_safe, clip_parameters, default_parameters, DEFAULT_PARAMETERS,
    HIGHEST, LOWEST,
};
use fsrs::single::Single;

fn single(x: f32) -> Single {
    Single::from_bits(x.to_bits())
}

fn numbers(x: &[Single]) -> Vec<f32> {
    x.iter().map(|x| f32::from_bits(x.to_bits())).collect()
}

const DEFAULTS: [f32; 34] = [
    0.1104, 2.2395, 3.9221, 11.7841, 6.1686, 0.6457, 3.6807, 1.9795, 0.0, 1.3826, 0.7024, 0.5999,
    0.8146, 0.6398, 1.0, 1.3207, 0.6707, 3.8668, 0.4416, 0.0934, 1.8631, 0.6162, 1.0869, 0.1567,
    0.0801, 0.2421, 0.9464, 0.1433, 0.7145, 0.0, 0.5667, 0.3734, 0.5333, 0.3048,
];

const RANGES: [(f32, f32); 34] = [
    (0.0001, 50.0),
    (0.0001, 100.0),
    (0.0001, 100.0),
    (0.0001, 100.0),
    (1.0, 10.0),
    (0.001, 4.0),
    (0.1, 4.0),
    (0.0, 4.0),
    (0.0, 1.2),
    (0.3, 3.0),
    (0.01, 1.5),
    (0.1, 1.0),
    (0.0, 3.5),
    (0.0, 1.0),
    (1.0, 7.0),
    (0.0, 4.0),
    (0.0, 2.0),
    (0.5, 6.0),
    (0.001, 1.5),
    (0.001, 1.0),
    (0.0, 5.0),
    (0.0, 1.0),
    (1.0, 7.0),
    (0.01, 0.25),
    (0.01, 0.95),
    (0.2, 0.85),
    (0.5, 0.99),
    (0.01, 1.0),
    (0.1, 1.0),
    (0.0, 0.9),
    (0.1, 1.1),
    (0.0, 1.0),
    (0.0, 0.6),
    (0.0, 0.6),
];

#[test]
fn default_parameters_are_the_published_ones() {
    assert_eq!(numbers(&default_parameters()), DEFAULTS);
    for i in 0..34 {
        assert_eq!(DEFAULT_PARAMETERS[i], DEFAULTS[i].to_bits());
    }
}

#[test]
fn ranges_are_the_published_ones() {
    for i in 0..34 {
        assert_eq!(LOWEST[i], RANGES[i].0.to_bits(), "lowest {i}");
        assert_eq!(HIGHEST[i], RANGES[i].1.to_bits(), "highest {i}");
    }
}

#[test]
fn clipping_leaves_the_defaults() {
    assert_eq!(clip_parameters(&default_parameters()), default_parameters());
}

#[test]
fn clipping_holds_every_parameter_in_its_range() {
    let high: Vec<Single> = vec![single(1e6); 34];
    let low: Vec<Single> = vec![single(-1e6); 34];
    let clipped_high = numbers(&clip_parameters(&high));
    let clipped_low = numbers(&clip_parameters(&low));
    for i in 0..34 {
        assert_eq!(clipped_high[i], RANGES[i].1, "high {i}");
        assert_eq!(clipped_low[i], RANGES[i].0, "low {i}");
    }
}

#[test]
fn clipping_orders_initial_stability_and_bases() {
    let mut w = default_parameters();
    w[0] = single(20.0);
    w[1] = single(5.0);
    w[2] = single(30.0);
    w[3] = single(1.0);
    w[25] = single(0.85);
    w[26] = single(0.5);
    let clipped = numbers(&clip_parameters(&w));
    assert_eq!(clipped[0..4], [20.0, 20.0, 30.0, 30.0]);
    assert_eq!(clipped[26], 0.85);
    assert_eq!(clip_parameters(&clip_parameters(&w)), clip_parameters(&w));
}

#[test]
fn clipping_leaves_few_parameters_and_those_past_the_last() {
    let few: Vec<Single> = vec![single(1e6); 33];
    assert_eq!(clip_parameters(&few), few);
    let mut many = default_parameters();
    many.push(single(1e6));
    many.push(single(f32::NAN));
    let clipped = clip_parameters(&many);
    let bits = |p: &[Single]| p.iter().map(|x| x.to_bits()).collect::<Vec<u32>>();
    assert_eq!(bits(&clipped[34..]), bits(&many[34..]));
    assert_eq!(clipped[..34], default_parameters()[..]);
}

#[test]
fn clipping_replaces_what_is_not_finite() {
    let mut w = default_parameters();
    w[9] = single(f32::NAN);
    w[20] = single(f32::INFINITY);
    let clipped = numbers(&clip_parameters(&w));
    assert_eq!(clipped[9], 0.3);
    assert_eq!(clipped[20], 0.0);
}

#[test]
fn clamp_safe_copes_with_any_ends() {
    let f = |v: f32, low: f32, high: f32| {
        f32::from_bits(clamp_safe(single(v), single(low), single(high)).to_bits())
    };
    assert_eq!(f(5.0, 1.0, 3.0), 3.0);
    assert_eq!(f(5.0, 3.0, 1.0), 3.0);
    assert_eq!(f(-5.0, 3.0, 1.0), 1.0);
    assert_eq!(f(f32::NAN, 1.0, 3.0), 1.0);
    assert_eq!(f(5.0, f32::NAN, 3.0), 3.0);
    assert_eq!(f(-5.0, f32::NAN, 3.0), 0.0);
    assert_eq!(f(5.0, 1.0, f32::INFINITY), 1.0);
    assert_eq!(f(2.0, 1.0, 3.0), 2.0);
}

#[test]
fn no_parameters_stand_for_the_defaults() {
    assert_eq!(check_and_fill_parameters(&[]).unwrap(), default_parameters());
    let fsrs = FSRS::new(&[]).unwrap();
    assert_eq!(fsrs.model().w, default_parameters());
    assert_eq!(FSRS::default().model().w, default_parameters());
}

#[test]
fn wrong_parameters_are_refused() {
    let few: Vec<Single> = vec![single(1.0); 33];
    let many: Vec<Single> = vec![single(1.0); 36];
    assert_eq!(check_and_fill_parameters(&few), Err(FSRSError::InvalidParameters));
    assert_eq!(check_and_fill_parameters(&many), Err(FSRSError::InvalidParameters));
    for bad in [f32::NAN, f32::INFINITY, f32::NEG_INFINITY] {
        let mut w = default_parameters();
        w[17] = single(bad);
        assert_eq!(check_and_fill_parameters(&w), Err(FSRSError::InvalidParameters));
        assert_eq!(FSRS::new(&w).err(), Some(FSRSError::InvalidParameters));
    }
}

#[test]
fn parameters_are_clipped_when_a_model_is_made() {
    let w: Vec<Single> = vec![single(2.0); 34];
    let checked = check_and_fill_parameters(&w).unwrap();
    assert_eq!(checked, w);
    let fsrs = FSRS::new(&w).unwrap();
    assert_eq!(fsrs.model().w, clip_parameters(&w));
    assert_eq!(parameters_to_model(&w).w, clip_parameters(&w));
    assert_eq!(fsrs.model().version(), ModelVersion::Fsrs7);
    assert_eq!(ModelVersion::Fsrs7.name(), "FSRS7");
}

#[test]
fn models_start_from_their_configuration() {
    let config = ModelConfig {
        initial_stability: Some([1.0, 2.0, 3.0, 4.0].map(single)),
        initial_forgetting_curve: Some([0.1, 0.2, 0.3, 0.4, 0.5, 0.6, 0.7, 0.8].map(single)),
        freeze_short_term_stability: true,
        ..ModelConfig::default()
    };
    let w = numbers(&Model::new(config).w);
    assert_eq!(w[0..4], [1.0, 2.0, 3.0, 4.0]);
    assert_eq!(w[4..23], DEFAULTS[4..23]);
    assert_eq!(w[23..31], [0.1, 0.2, 0.3, 0.4, 0.5, 0.6, 0.7, 0.8]);
    assert_eq!(w[31..], DEFAULTS[31..]);
    assert_eq!(numbers(&Model::new(ModelConfig::default()).w), DEFAULTS);
}

#[test]
fn training_freezes_short_term_memory_where_it_is_off() {
    let on = ModelConfig::for_training(true, None);
    assert!(!on.freeze_initial_stability && !on.freeze_short_term_stability);
    assert_eq!(on.num_relearning_steps, 1);
    let off = ModelConfig::for_training(false, Some(3));
    assert!(off.freeze_initial_stability && off.freeze_short_term_stability);
    assert_eq!(off.num_relearning_steps, 3);
    assert_eq!(ModelConfig::default().num_relearning_steps, 0);
}
