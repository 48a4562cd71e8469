//! The losses of batches and their gradients, in floating point, around the choices that the
//! library makes.

use fsrs::double::Double;
use fsrs::lanes::{
    both8, choose8, clamp8, ge8, gt8, initial_stability8, inside8, le8, load8, load_ratings8, lt8,
    max8, min8, power_of_two8, rated8, recalled8, review8, review8_back, split8, Lane8, Mask8,
    Reviewed8, State8,
};
use fsrs::losses;
use fsrs::memory::MemoryState;
use fsrs::single::Single;
use fsrs::step::{
    choose_stability, difficulty_change, easy_factor, gated, hard_factor, initial_stability_place,
    is_scored, passes_cap, passes_clamp, reset_fast, reset_passes_to_cap, review, review_back, scored_recall, stability_ways, Reviewed, StateGradient,
};
use fsrs::walk::{lanes_of, walk, walk_back};
use fsrs::DEFAULT_PARAMETERS;
use std::cell::RefCell;
use wide::{f32x8, i32x8};

/// The constants of the model that are floats here: the library holds their patterns.
const MIN_R: f32 = 1e-5;
const MAX_R: f32 = 1.0 - 1e-5;
const LOG2E: f32 = std::f32::consts::LOG2_E;
const LN2: f32 = std::f32::consts::LN_2;

/// The number of entries of a gradient by the parameters.
const GRAD_LEN: usize = 36;

fn pattern(x: f32) -> Single {
    Single::from_bits(x.to_bits())
}

fn number(x: Single) -> f32 {
    f32::from_bits(x.to_bits())
}

fn pattern64(x: f64) -> Double {
    Double::from_bits(x.to_bits())
}

fn number64(x: Double) -> f64 {
    f64::from_bits(x.to_bits())
}

fn patterns(x: &[f32]) -> Vec<Single> {
    x.iter().map(|&x| pattern(x)).collect()
}

fn gate(gradient: f64, open_way: bool) -> f64 {
    number64(gated(pattern64(gradient), open_way))
}

fn inside(x: f32, low: f32, high: f32) -> bool {
    passes_clamp(pattern(x), pattern(low), pattern(high))
}

fn clamp(x: f32, low: f32, high: f32) -> f32 {
    number(pattern(x).clamp(pattern(low), pattern(high)))
}

fn state_of(stability: f32, difficulty: f32, stability_fast: f32) -> MemoryState {
    MemoryState {
        stability: pattern(stability),
        difficulty: pattern(difficulty),
        stability_fast: pattern(stability_fast),
    }
}

/// What depends on the parameters alone, computed once per batch.
struct WConsts {
    ln_w25: f32,
    ln_w26: f32,
    aa7: f32,
    aa15: f32,
    init: f32,
    exp3w5: f64,
}

fn wconsts(w: &[f32]) -> WConsts {
    WConsts {
        ln_w25: w[25].ln(),
        ln_w26: w[26].ln(),
        aa7: (w[7] - 1.5).exp(),
        aa15: (w[15] - 1.5).exp(),
        init: w[4] - (w[5] * 3.0).exp() + 1.0,
        exp3w5: (w[5] as f64 * 3.0).exp(),
    }
}

/// The forgetting curve, with what its gradient needs.
#[derive(Clone, Copy)]
struct CurveCache {
    out: f32,
    a: f32,
    bv: f32,
    m1: f32,
    decay1: f32,
    factor1: f32,
    b1: f32,
    r1: f32,
    q1: f32,
    e1: f32,
    p33: f32,
    decay2: f32,
    factor2: f32,
    b2: f32,
    r2: f32,
    inv2: f32,
    p26: f32,
    ex32: f32,
    weight1: f32,
    weight2: f32,
    wsum: f32,
    ret: f32,
    p29: f32,
    s30: f32,
    ex31: f32,
    ln_sf: f32,
    ln_b1: f32,
    ln_b2: f32,
    ln_s: f32,
}

// Floating point: the curve is sums, products and transcendental functions.
fn curve_fwd(
    w: &[f32], t: f32, s: f32, sf: f32, d: f32, wc: &WConsts, ln_s: f32, ln_sf: f32,
) -> CurveCache {
    let t = t.max(0.0);
    let a = t / sf;
    let bv = t / s;
    let p33 = ((w[33] - 0.3) * ln_sf).exp();
    let m1 = w[23] * p33;
    let decay1 = -clamp(m1, 0.01, 0.95);
    let q1 = wc.ln_w25 / decay1;
    let e1 = q1.min(60.0).exp();
    let factor1 = e1 - 1.0;
    let b1 = a * factor1 + 1.0;
    let ln_b1 = b1.ln();
    let r1 = (decay1 * ln_b1).exp();
    let decay2 = -clamp(w[24], 0.01, 0.95);
    let inv2 = 1.0 / decay2;
    let p26 = (inv2 * wc.ln_w26).exp();
    let factor2 = p26 - 1.0;
    let ex32 = ((d - 5.0) * (w[32] - 0.3)).exp();
    let b2 = bv * factor2 * ex32 + 1.0;
    let ln_b2 = b2.ln();
    let r2 = (decay2 * ln_b2).exp();
    let p29 = ((-w[29]) * ln_sf).exp();
    let weight1 = w[27] * p29;
    let s30 = (w[30] * ln_s).exp();
    let ex31 = ((d - 5.0) * (w[31] - 0.5)).exp();
    let weight2 = w[28] * s30 * ex31;
    let wsum = weight1 + weight2;
    let ret = (weight1 * r1 + weight2 * r2) / wsum;
    let out = ret * (1.0 - 2e-5) + 1e-5;
    CurveCache {
        out, a, bv, m1, decay1, factor1, b1, r1, q1, e1, p33, decay2, factor2, b2, r2, inv2, p26,
        ex32, weight1, weight2, wsum, ret, p29, s30, ex31, ln_sf, ln_b1, ln_b2, ln_s,
    }
}

// Floating point: the gradient of the curve. `g_r1` is what flows into its fast component
// from elsewhere.
#[allow(clippy::too_many_arguments)]
fn curve_bwd(
    w: &[f32], c: &CurveCache, t: f32, s: f32, sf: f32, d: f32, g_out: f64, g_r1: f64,
    wc: &WConsts, gw: &mut [f64],
) -> (f64, f64, f64) {
    let t = t.max(0.0) as f64;
    let (s, sf, d) = (s as f64, sf as f64, d as f64);
    let g_ret = g_out * (1.0 - 2e-5);
    let (wsum, ret) = (c.wsum as f64, c.ret as f64);
    let g_num = g_ret / wsum;
    let g_wsum = -g_ret * ret / wsum;
    let (r1, r2) = (c.r1 as f64, c.r2 as f64);
    let g_weight1 = g_num * r1 + g_wsum;
    let g_weight2 = g_num * r2 + g_wsum;
    let g_r1 = g_num * c.weight1 as f64 + g_r1;
    let g_r2 = g_num * c.weight2 as f64;
    let (s30, ex31) = (c.s30 as f64, c.ex31 as f64);
    gw[28] += g_weight2 * s30 * ex31;
    let g_s30 = g_weight2 * w[28] as f64 * ex31;
    let g_ex31 = g_weight2 * w[28] as f64 * s30;
    let mut g_d = g_ex31 * ex31 * (w[31] as f64 - 0.5);
    gw[31] += g_ex31 * ex31 * (d - 5.0);
    let mut g_s = g_s30 * w[30] as f64 * (s30 / s);
    gw[30] += g_s30 * s30 * c.ln_s as f64;
    let p29 = c.p29 as f64;
    gw[27] += g_weight1 * p29;
    let g_p29 = g_weight1 * w[27] as f64;
    let mut g_sf = g_p29 * (-(w[29] as f64)) * (p29 / sf);
    gw[29] += g_p29 * (-(p29 * c.ln_sf as f64));
    let (b2, decay2) = (c.b2 as f64, c.decay2 as f64);
    let g_b2 = g_r2 * decay2 * (r2 / b2);
    let mut g_decay2 = g_r2 * r2 * c.ln_b2 as f64;
    let (factor2, ex32, bv) = (c.factor2 as f64, c.ex32 as f64, c.bv as f64);
    let g_bv = g_b2 * factor2 * ex32;
    let g_factor2 = g_b2 * bv * ex32;
    let g_ex32 = g_b2 * bv * factor2;
    g_d += g_ex32 * ex32 * (w[32] as f64 - 0.3);
    gw[32] += g_ex32 * ex32 * (d - 5.0);
    let (inv2, p26) = (c.inv2 as f64, c.p26 as f64);
    gw[26] += g_factor2 * inv2 * (p26 / w[26] as f64);
    let g_inv2 = g_factor2 * p26 * wc.ln_w26 as f64;
    g_decay2 += g_inv2 * (-1.0 / (decay2 * decay2));
    gw[24] += gate(-g_decay2, inside(w[24], 0.01, 0.95));
    g_s += g_bv * (-t / (s * s));
    let (b1, decay1) = (c.b1 as f64, c.decay1 as f64);
    let g_b1 = g_r1 * decay1 * (r1 / b1);
    let mut g_decay1 = g_r1 * r1 * c.ln_b1 as f64;
    let g_a = g_b1 * c.factor1 as f64;
    let g_factor1 = g_b1 * c.a as f64;
    let g_q1 = gate(g_factor1 * c.e1 as f64, passes_cap(pattern(c.q1), pattern(60.0)));
    let lw25 = wc.ln_w25 as f64;
    g_decay1 += g_q1 * (-lw25 / (decay1 * decay1));
    gw[25] += g_q1 / decay1 / w[25] as f64;
    let g_m1 = gate(-g_decay1, inside(c.m1, 0.01, 0.95));
    let p33 = c.p33 as f64;
    gw[23] += g_m1 * p33;
    let g_p33 = g_m1 * w[23] as f64;
    g_sf += g_p33 * (w[33] as f64 - 0.3) * (p33 / sf);
    gw[33] += g_p33 * p33 * c.ln_sf as f64;
    g_sf += g_a * (-t / (sf * sf));
    (g_s, g_sf, g_d)
}

/// The stability after a review, with what its gradient needs.
#[derive(Clone, Copy)]
struct StabCache {
    out: f32,
    nsf_fail: f32,
    sinc: f32,
    ls_sinc: f32,
    aa: f32,
    bb: f32,
    cc: f32,
    expr: f32,
    qbase: f32,
    rexp: f32,
    hard: f32,
    easy: f32,
    ln_ls: f32,
    ln_ls1: f32,
}

// Floating point: what a lapse leaves and what a recall makes of a stability. Which of them
// it becomes is the library's choice.
#[allow(clippy::too_many_arguments)]
fn stab_fwd(
    w: &[f32], last_s: f32, last_d: f32, r: f32, rating: u32, start: usize, aa: f32, ln_ls: f32,
) -> StabCache {
    let hard = number(hard_factor(rating, pattern(w[start + 6])));
    let easy = number(easy_factor(rating, pattern(w[start + 7])));
    let ln_ls1 = (last_s + 1.0).ln();
    let qbase = (w[start + 4] * ln_ls1).exp();
    let rexp = ((1.0 - r) * w[start + 5]).exp();
    let nsf_fail = w[start + 3] * (qbase - 1.0) * rexp;
    let bb = 11.0 - last_d;
    let cc = ((-w[start + 1]) * ln_ls).exp();
    let expr = ((1.0 - r) * w[start + 2]).exp();
    let sinc = aa * bb * cc * (expr - 1.0) * hard * easy + 1.0;
    let ls_sinc = last_s * sinc;
    let out = number(choose_stability(rating, pattern(last_s), pattern(nsf_fail), pattern(ls_sinc)));
    StabCache { out, nsf_fail, sinc, ls_sinc, aa, bb, cc, expr, qbase, rexp, hard, easy, ln_ls, ln_ls1 }
}

// Floating point: the gradient of the stability after a review, along the ways that the
// library gives.
#[allow(clippy::too_many_arguments)]
fn stab_bwd(
    w: &[f32], c: &StabCache, last_s: f32, r: f32, rating: u32, start: usize, g_out: f64,
    gw: &mut [f64],
) -> (f64, f64, f64) {
    let ways = stability_ways(rating, pattern(last_s), pattern(c.nsf_fail), pattern(c.ls_sinc));
    let (last_s, r) = (last_s as f64, r as f64);
    let g_ls_sinc = gate(g_out, ways.grown);
    let g_pls = gate(g_out, ways.direct) + gate(g_out, ways.lapsed);
    let mut g_last_s = g_ls_sinc * c.sinc as f64;
    let g_prod = g_ls_sinc * last_s;
    g_last_s += gate(g_pls, ways.last);
    let g_nsf_fail = gate(g_pls, ways.left);
    let (aa, bb, cc) = (c.aa as f64, c.bb as f64, c.cc as f64);
    let em1 = c.expr as f64 - 1.0;
    let (hard, easy) = (c.hard as f64, c.easy as f64);
    gw[start] += g_prod * (aa * bb * cc * em1 * hard * easy);
    let g_bb = g_prod * (aa * cc * em1 * hard * easy);
    let g_cc = g_prod * (aa * bb * em1 * hard * easy);
    let g_em1 = g_prod * (aa * bb * cc * hard * easy);
    gw[start + 6] += gate(g_prod * (aa * bb * cc * em1 * easy), rating == 2);
    gw[start + 7] += gate(g_prod * (aa * bb * cc * em1 * hard), rating == 4);
    let g_last_d = -g_bb;
    g_last_s += g_cc * (-(w[start + 1] as f64)) * (cc / last_s);
    gw[start + 1] += g_cc * (-(cc * c.ln_ls as f64));
    let expr = c.expr as f64;
    let mut g_r = g_em1 * expr * (-(w[start + 2] as f64));
    gw[start + 2] += g_em1 * expr * (1.0 - r);
    let (qbase, rexp) = (c.qbase as f64, c.rexp as f64);
    let q = qbase - 1.0;
    gw[start + 3] += g_nsf_fail * (q * rexp);
    let g_q = g_nsf_fail * w[start + 3] as f64 * rexp;
    let g_rexp = g_nsf_fail * w[start + 3] as f64 * q;
    g_last_s += g_q * w[start + 4] as f64 * (qbase / (last_s + 1.0));
    gw[start + 4] += g_q * qbase * c.ln_ls1 as f64;
    g_r += g_rexp * rexp * (-(w[start + 5] as f64));
    gw[start + 5] += g_rexp * rexp * (1.0 - r);
    (g_last_s, g_last_d, g_r)
}

/// The difficulty after a review, with what its gradient needs.
#[derive(Clone, Copy)]
struct DiffCache {
    out: f32,
    plain: f32,
    change: f32,
}

// Floating point: the difficulty after a review.
fn next_d_fwd(w: &[f32], last_d: f32, rating: u32, retention: f32, init: f32) -> DiffCache {
    let plain = -w[6] * (rating as f32 - 3.0);
    let surprised = plain * (retention + 0.1);
    let change = number(difficulty_change(rating, pattern(plain), pattern(surprised)));
    let new_d = last_d + (10.0 - last_d) * change / 9.0;
    DiffCache { out: 0.01 * init + 0.99 * new_d, plain, change }
}

// Floating point: the gradient of the difficulty after a review.
fn next_d_bwd(
    c: &DiffCache, last_d: f32, rating: u32, retention: f32, g_out: f64, gw: &mut [f64], exp3w5: f64,
) -> (f64, f64) {
    let g_init = g_out * 0.01;
    let g_new_d = g_out * 0.99;
    gw[4] += g_init;
    gw[5] += g_init * (-exp3w5 * 3.0);
    let g_last_d = g_new_d * (1.0 - c.change as f64 / 9.0);
    let g_change = g_new_d * (10.0 - last_d as f64) / 9.0;
    let lapse = rating == 1;
    let g_plain = if lapse { g_change * (retention as f64 + 0.1) } else { g_change };
    let g_retention = gate(g_change * c.plain as f64, lapse);
    gw[6] += g_plain * (-(rating as f64 - 3.0));
    (g_last_d, g_retention)
}

/// What the gradient of an update needs.
#[derive(Clone, Copy)]
struct UpdateCache {
    dt: f32,
    curve: CurveCache,
    slow: StabCache,
    fast: StabCache,
    diff: DiffCache,
}

/// A state on the way, with what the gradient of the step to it needs.
#[derive(Clone, Copy)]
struct Node {
    state: MemoryState,
    rating: u32,
    before: MemoryState,
    reviewed: Option<Reviewed>,
    update: Option<UpdateCache>,
}

fn start_node() -> Node {
    Node {
        state: MemoryState::zeros(),
        rating: 0,
        before: MemoryState::zeros(),
        reviewed: None,
        update: None,
    }
}

// Floating point: one review. What the new state comes from is the library's choice.
fn step_fwd(w: &[f32], delta_t: f32, rating: u32, node: &Node, first: bool, wc: &WConsts) -> Node {
    let cache: RefCell<Option<UpdateCache>> = RefCell::new(None);
    let initial = |rc: u32| {
        let init_s = w[initial_stability_place(rc)];
        let init_d = w[4] - (w[5] * (rc as f32 - 1.0)).exp() + 1.0;
        state_of(init_s, init_d, 0.8 * init_s)
    };
    let update = |last: MemoryState, rating: u32| {
        let (s, d, sf) =
            (number(last.stability), number(last.difficulty), number(last.stability_fast));
        let dt = delta_t.max(0.0);
        let (ln_s, ln_sf) = (s.ln(), sf.ln());
        let curve = curve_fwd(w, dt, s, sf, d, wc, ln_s, ln_sf);
        let slow = stab_fwd(w, s, d, curve.out, rating, 7, wc.aa7, ln_s);
        let fast = stab_fwd(w, sf, d, curve.r1, rating, 15, wc.aa15, ln_sf);
        let diff = next_d_fwd(w, d, rating, curve.out, wc.init);
        let capped = number(reset_fast(rating, pattern(fast.out), pattern(0.8 * slow.out)));
        *cache.borrow_mut() = Some(UpdateCache { dt, curve, slow, fast, diff });
        state_of(slow.out, diff.out, capped)
    };
    let reviewed = review(node.state, rating, first, initial, update);
    Node {
        state: reviewed.state,
        rating,
        before: node.state,
        reviewed: Some(reviewed),
        update: cache.into_inner(),
    }
}

/// The gradient of a state, and that of the parameters so far.
struct Flow {
    state: StateGradient,
    gw: [f64; GRAD_LEN],
}

fn gradient_of(s: f64, d: f64, sf: f64) -> StateGradient {
    StateGradient {
        stability: pattern64(s),
        difficulty: pattern64(d),
        stability_fast: pattern64(sf),
    }
}

// Floating point: the gradient of one review. Which way it flows is the library's choice.
fn step_bwd(w: &[f32], node: &Node, flow: Flow, wc: &WConsts) -> Flow {
    let reviewed = match node.reviewed {
        Some(reviewed) => reviewed,
        None => return flow,
    };
    let initial = |mut gw: [f64; GRAD_LEN], rc: u32, g: StateGradient| {
        gw[initial_stability_place(rc)] += number64(g.stability) + number64(g.stability_fast) * 0.8;
        let g_nd = number64(g.difficulty);
        let rc = rc as f64;
        if g_nd != 0.0 {
            gw[4] += g_nd;
            gw[5] += g_nd * (-((w[5] as f64 * (rc - 1.0)).exp()) * (rc - 1.0));
        }
        gw
    };
    let update = |mut gw: [f64; GRAD_LEN], g: StateGradient| {
        let u = match node.update {
            Some(u) => u,
            None => return (g, gw),
        };
        let (g_ns, g_nd, g_nsf) =
            (number64(g.stability), number64(g.difficulty), number64(g.stability_fast));
        let last = reviewed.last;
        let (last_s, last_d, last_sf) =
            (number(last.stability), number(last.difficulty), number(last.stability_fast));
        let capped =
            reset_passes_to_cap(node.rating, pattern(u.fast.out), pattern(0.8 * u.slow.out));
        let g_slow = g_ns + gate(0.8 * g_nsf, capped);
        let g_fast = gate(g_nsf, !capped);
        let (g_ls, g_ld_a, g_r) =
            stab_bwd(w, &u.slow, last_s, u.curve.out, node.rating, 7, g_slow, &mut gw);
        let (g_lsf, g_ld_b, g_r1) =
            stab_bwd(w, &u.fast, last_sf, u.curve.r1, node.rating, 15, g_fast, &mut gw);
        let (g_ld_c, g_ret) =
            next_d_bwd(&u.diff, last_d, node.rating, u.curve.out, g_nd, &mut gw, wc.exp3w5);
        let (g_ls_c, g_lsf_c, g_ld_d) = curve_bwd(
            w, &u.curve, u.dt, last_s, last_sf, last_d, g_r + g_ret, g_r1, wc, &mut gw,
        );
        (gradient_of(g_ls + g_ls_c, g_ld_a + g_ld_b + g_ld_c + g_ld_d, g_lsf + g_lsf_c), gw)
    };
    let (state, gw) =
        review_back(node.before, node.rating, reviewed, flow.state, flow.gw, initial, update);
    Flow { state, gw }
}

fn curve_at(w: &[f32], delta_t: f32, state: MemoryState, wc: &WConsts) -> CurveCache {
    let (s, d, sf) =
        (number(state.stability), number(state.difficulty), number(state.stability_fast));
    curve_fwd(w, delta_t, s, sf, d, wc, s.ln(), sf.ln())
}

// Floating point: the loss of one prediction.
fn bce(recall: f32, label: f32, weight: f32) -> f64 {
    let (r, label, weight) = (recall as f64, label as f64, weight as f64);
    -weight * (label * r.ln() + (1.0 - label) * (1.0 - r).ln())
}

fn scored(recall: f32) -> f32 {
    number(scored_recall(pattern(recall)))
}

fn column_loss(
    w: &[f32], node: &Node, c: usize, delta_ts: &[f32], labels: &[f32], weights: &[f32],
    wc: &WConsts,
) -> f64 {
    bce(scored(curve_at(w, delta_ts[c], node.state, wc).out), labels[c], weights[c])
}

fn plus(a: f64, b: f64) -> f64 {
    a + b
}

/// The loss of a batch.
#[allow(clippy::too_many_arguments)]
fn batch_loss(
    w: &[f32], t_hist: &[f32], r_hist: &[u32], seq_len: usize, batch: usize, delta_ts: &[f32],
    labels: &[f32], weights: &[f32],
) -> f64 {
    let wc = wconsts(w);
    let step = |node: &Node, place: usize, first: bool| {
        step_fwd(w, t_hist[place], r_hist[place], node, first, &wc)
    };
    let score = |node: &Node, c: usize| column_loss(w, node, c, delta_ts, labels, weights, &wc);
    losses::batch_loss(&step, start_node(), &score, &plus, 0.0, seq_len, batch)
}

#[allow(clippy::too_many_arguments)]
fn loss_and_grad_range(
    w: &[f32], t_hist: &[f32], r_hist: &[u32], seq_len: usize, batch: usize, delta_ts: &[f32],
    labels: &[f32], weights: &[f32], gw: [f64; GRAD_LEN], start: usize, end: usize,
) -> (f64, [f64; GRAD_LEN]) {
    let wc = wconsts(w);
    let step = |node: &Node, place: usize, first: bool| {
        step_fwd(w, t_hist[place], r_hist[place], node, first, &wc)
    };
    let score = |node: &Node, c: usize| {
        let last = node.state;
        let fc = curve_at(w, delta_ts[c], last, &wc);
        let r = scored(fc.out);
        let loss = bce(r, labels[c], weights[c]);
        let (r, lbl, wt) = (r as f64, labels[c] as f64, weights[c] as f64);
        let g_r = gate(-wt * (lbl / r - (1.0 - lbl) / (1.0 - r)), inside(fc.out, MIN_R, MAX_R));
        let mut grad = [0.0f64; GRAD_LEN];
        let (s, d, sf) =
            (number(last.stability), number(last.difficulty), number(last.stability_fast));
        let (g_s, g_sf, g_d) =
            curve_bwd(w, &fc, delta_ts[c], s, sf, d, g_r, 0.0, &wc, &mut grad);
        (loss, Flow { state: gradient_of(g_s, g_d, g_sf), gw: grad })
    };
    let back = |flow: Flow, node: &Node, _place: usize, _first: bool| step_bwd(w, node, flow, &wc);
    losses::loss_and_grad_range(
        &step, start_node(), &score, &back, &plus, &gather, 0.0, gw, seq_len, batch, 1, start, end,
    )
}

fn gather(mut total: [f64; GRAD_LEN], flow: Flow) -> [f64; GRAD_LEN] {
    for i in 0..GRAD_LEN {
        total[i] += flow.gw[i];
    }
    total
}

/// The loss of a batch; its gradient is added to `gw`. A large batch is walked in two
/// halves.
#[allow(clippy::too_many_arguments)]
fn batch_loss_and_grad(
    w: &[f32], t_hist: &[f32], r_hist: &[u32], seq_len: usize, batch: usize, delta_ts: &[f32],
    labels: &[f32], weights: &[f32], gw: &mut [f64; GRAD_LEN],
) -> f64 {
    let whole = |gw: [f64; GRAD_LEN], from: usize, to: usize| {
        loss_and_grad_range(
            w, t_hist, r_hist, seq_len, batch, delta_ts, labels, weights, gw, from, to,
        )
    };
    let halves = |middle: usize, end: usize| {
        (whole([0.0; GRAD_LEN], 0, middle), whole([0.0; GRAD_LEN], middle, end))
    };
    let merge = |gw: [f64; GRAD_LEN], a: [f64; GRAD_LEN], b: [f64; GRAD_LEN]| {
        std::array::from_fn(|i| gw[i] + (a[i] + b[i]))
    };
    let (loss, total) = losses::batch_loss_and_grad(&whole, &halves, &plus, &merge, *gw, batch);
    *gw = total;
    loss
}

fn lane(x: f32x8) -> Lane8 {
    x.to_array().map(pattern)
}

fn wide8(x: Lane8) -> f32x8 {
    f32x8::from(x.map(number))
}

fn splat(x: f32) -> f32x8 {
    f32x8::splat(x)
}

fn hold8(x: f32x8, low: f32, high: f32) -> f32x8 {
    wide8(clamp8(lane(x), pattern(low), pattern(high)))
}

fn larger8(x: f32x8, y: f32x8) -> f32x8 {
    wide8(max8(lane(x), lane(y)))
}

fn smaller8(x: f32x8, y: f32x8) -> f32x8 {
    wide8(min8(lane(x), lane(y)))
}

fn select8(mask: Mask8, yes: f32x8, no: f32x8) -> f32x8 {
    wide8(choose8(mask, lane(yes), lane(no)))
}

fn open8(mask: Mask8, gradient: f32x8) -> f32x8 {
    select8(mask, gradient, splat(0.0))
}

fn within8(x: f32x8, low: f32, high: f32) -> Mask8 {
    inside8(lane(x), pattern(low), pattern(high))
}

fn ratings_wide8(ratings: [u32; 8]) -> f32x8 {
    f32x8::from(ratings.map(|rating| rating as f32))
}

// Floating point: eight exponentials, as two to a whole power times a polynomial.
fn exp8(x: f32x8) -> f32x8 {
    let x = hold8(x, -87.0, 88.0);
    let n = (x * splat(LOG2E)).round();
    let r = x - n * splat(LN2);
    let c = splat;
    let p = c(0.999999261446)
        + r * (c(0.999963404853)
            + r * (c(0.500043586613) + r * (c(0.167909072153) + r * c(0.0414586082011))));
    let powers: [i32; 8] = bytemuck::cast(n.round_int());
    p * wide8(power_of_two8(powers))
}

// Floating point: eight logarithms, from the exponents and a series in the rest.
fn ln8(x: f32x8) -> f32x8 {
    let (exponents, mantissas) = split8(lane(x));
    let m = wide8(mantissas);
    let e: i32x8 = bytemuck::cast(exponents);
    let one = splat(1.0);
    let t = (m - one) / (m + one);
    let t2 = t * t;
    let c = splat;
    let poly = c(2.0) * t * (c(1.0000073389) + t2 * (c(0.332179529507) + t2 * c(0.226577770996)));
    e.round_float() * splat(LN2) + poly
}

/// The forgetting curve in eight lanes, with what its gradient needs.
#[derive(Clone, Copy)]
struct Curve8 {
    out: f32x8,
    a: f32x8,
    bv: f32x8,
    m1: f32x8,
    decay1: f32x8,
    factor1: f32x8,
    b1: f32x8,
    r1: f32x8,
    q1: f32x8,
    e1: f32x8,
    p33: f32x8,
    decay2: f32,
    factor2: f32x8,
    b2: f32x8,
    r2: f32x8,
    inv2: f32,
    p26: f32x8,
    ex32: f32x8,
    weight1: f32x8,
    weight2: f32x8,
    wsum: f32x8,
    ret: f32x8,
    p29: f32x8,
    s30: f32x8,
    ex31: f32x8,
    ln_sf: f32x8,
    ln_b1: f32x8,
    ln_b2: f32x8,
    ln_s: f32x8,
}

// Floating point: the curve in eight lanes.
#[allow(clippy::too_many_arguments)]
fn curve8_fwd(
    w: &[f32], t: f32x8, s: f32x8, sf: f32x8, d: f32x8, wc: &WConsts, ln_s: f32x8, ln_sf: f32x8,
) -> Curve8 {
    let k = splat;
    let t = larger8(t, k(0.0));
    let a = t / sf;
    let bv = t / s;
    let p33 = exp8(k(w[33] - 0.3) * ln_sf);
    let m1 = k(w[23]) * p33;
    let decay1 = k(0.0) - hold8(m1, 0.01, 0.95);
    let q1 = k(wc.ln_w25) / decay1;
    let e1 = exp8(smaller8(q1, k(60.0)));
    let factor1 = e1 - k(1.0);
    let b1 = a * factor1 + k(1.0);
    let ln_b1 = ln8(b1);
    let r1 = exp8(decay1 * ln_b1);
    let decay2 = -clamp(w[24], 0.01, 0.95);
    let inv2 = 1.0 / decay2;
    let p26 = exp8(k(inv2 * wc.ln_w26));
    let factor2 = p26 - k(1.0);
    let ex32 = exp8((d - k(5.0)) * k(w[32] - 0.3));
    let b2 = bv * factor2 * ex32 + k(1.0);
    let ln_b2 = ln8(b2);
    let r2 = exp8(k(decay2) * ln_b2);
    let p29 = exp8(k(-w[29]) * ln_sf);
    let weight1 = k(w[27]) * p29;
    let s30 = exp8(k(w[30]) * ln_s);
    let ex31 = exp8((d - k(5.0)) * k(w[31] - 0.5));
    let weight2 = k(w[28]) * s30 * ex31;
    let wsum = weight1 + weight2;
    let ret = (weight1 * r1 + weight2 * r2) / wsum;
    let out = ret * k(1.0 - 2e-5) + k(1e-5);
    Curve8 {
        out, a, bv, m1, decay1, factor1, b1, r1, q1, e1, p33, decay2, factor2, b2, r2, inv2, p26,
        ex32, weight1, weight2, wsum, ret, p29, s30, ex31, ln_sf, ln_b1, ln_b2, ln_s,
    }
}

// Floating point: the gradient of the curve in eight lanes.
#[allow(clippy::too_many_arguments)]
fn curve8_bwd(
    w: &[f32], c: &Curve8, t: f32x8, s: f32x8, sf: f32x8, d: f32x8, g_out: f32x8, g_r1: f32x8,
    wc: &WConsts, gw: &mut [f32x8; GRAD_LEN],
) -> (f32x8, f32x8, f32x8) {
    let k = splat;
    let z = k(0.0);
    let t = larger8(t, z);
    let g_ret = g_out * k(1.0 - 2e-5);
    let g_num = g_ret / c.wsum;
    let g_wsum = (z - g_ret) * c.ret / c.wsum;
    let g_weight1 = g_num * c.r1 + g_wsum;
    let g_weight2 = g_num * c.r2 + g_wsum;
    let g_r1 = g_num * c.weight1 + g_r1;
    let g_r2 = g_num * c.weight2;
    gw[28] += g_weight2 * c.s30 * c.ex31;
    let g_s30 = g_weight2 * k(w[28]) * c.ex31;
    let g_ex31 = g_weight2 * k(w[28]) * c.s30;
    let mut g_d = g_ex31 * c.ex31 * k(w[31] - 0.5);
    gw[31] += g_ex31 * c.ex31 * (d - k(5.0));
    let mut g_s = g_s30 * k(w[30]) * (c.s30 / s);
    gw[30] += g_s30 * c.s30 * c.ln_s;
    gw[27] += g_weight1 * c.p29;
    let g_p29 = g_weight1 * k(w[27]);
    let mut g_sf = g_p29 * k(-w[29]) * (c.p29 / sf);
    gw[29] += g_p29 * (z - c.p29 * c.ln_sf);
    let decay2 = k(c.decay2);
    let g_b2 = g_r2 * decay2 * (c.r2 / c.b2);
    let mut g_decay2 = g_r2 * c.r2 * c.ln_b2;
    let g_bv = g_b2 * c.factor2 * c.ex32;
    let g_factor2 = g_b2 * c.bv * c.ex32;
    let g_ex32 = g_b2 * c.bv * c.factor2;
    g_d += g_ex32 * c.ex32 * k(w[32] - 0.3);
    gw[32] += g_ex32 * c.ex32 * (d - k(5.0));
    gw[26] += g_factor2 * k(c.inv2) * (c.p26 / k(w[26]));
    let g_inv2 = g_factor2 * c.p26 * k(wc.ln_w26);
    g_decay2 += g_inv2 * (z - k(1.0) / (decay2 * decay2));
    gw[24] += open8(within8(k(w[24]), 0.01, 0.95), z - g_decay2);
    g_s += g_bv * (z - t / (s * s));
    let g_b1 = g_r1 * c.decay1 * (c.r1 / c.b1);
    let mut g_decay1 = g_r1 * c.r1 * c.ln_b1;
    let g_a = g_b1 * c.factor1;
    let g_factor1 = g_b1 * c.a;
    let g_q1 = open8(lt8(lane(c.q1), lane(k(60.0))), g_factor1 * c.e1);
    g_decay1 += g_q1 * (z - k(wc.ln_w25) / (c.decay1 * c.decay1));
    gw[25] += g_q1 / c.decay1 / k(w[25]);
    let g_m1 = open8(within8(c.m1, 0.01, 0.95), z - g_decay1);
    gw[23] += g_m1 * c.p33;
    let g_p33 = g_m1 * k(w[23]);
    g_sf += g_p33 * k(w[33] - 0.3) * (c.p33 / sf);
    gw[33] += g_p33 * c.p33 * c.ln_sf;
    g_sf += g_a * (z - t / (sf * sf));
    (g_s, g_sf, g_d)
}

/// The stability after a review in eight lanes, with what its gradient needs.
#[derive(Clone, Copy)]
struct Stab8 {
    out: f32x8,
    nsf_fail: f32x8,
    pls: f32x8,
    sinc: f32x8,
    ls_sinc: f32x8,
    aa: f32x8,
    bb: f32x8,
    cc: f32x8,
    expr: f32x8,
    qbase: f32x8,
    rexp: f32x8,
    hard: f32x8,
    easy: f32x8,
    ln_ls: f32x8,
    ln_ls1: f32x8,
}

// Floating point: the stability after a review in eight lanes.
#[allow(clippy::too_many_arguments)]
fn stab8_fwd(
    w: &[f32], last_s: f32x8, last_d: f32x8, r: f32x8, ratings: [u32; 8], start: usize, aa: f32,
    ln_ls: f32x8,
) -> Stab8 {
    let k = splat;
    let one = k(1.0);
    let hard = select8(rated8(ratings, 2), k(w[start + 6]), one);
    let easy = select8(rated8(ratings, 4), k(w[start + 7]), one);
    let ln_ls1 = ln8(last_s + one);
    let qbase = exp8(k(w[start + 4]) * ln_ls1);
    let rexp = exp8((one - r) * k(w[start + 5]));
    let nsf_fail = k(w[start + 3]) * (qbase - one) * rexp;
    let pls = smaller8(last_s, nsf_fail);
    let bb = k(11.0) - last_d;
    let cc = exp8(k(-w[start + 1]) * ln_ls);
    let expr = exp8((one - r) * k(w[start + 2]));
    let aa = k(aa);
    let sinc = aa * bb * cc * (expr - one) * hard * easy + one;
    let ls_sinc = last_s * sinc;
    let out = select8(recalled8(ratings), larger8(pls, ls_sinc), pls);
    Stab8 {
        out, nsf_fail, pls, sinc, ls_sinc, aa, bb, cc, expr, qbase, rexp, hard, easy, ln_ls, ln_ls1,
    }
}

// Floating point: the gradient of the stability after a review in eight lanes.
#[allow(clippy::too_many_arguments)]
fn stab8_bwd(
    w: &[f32], c: &Stab8, last_s: f32x8, r: f32x8, ratings: [u32; 8], start: usize, g_out: f32x8,
    gw: &mut [f32x8; GRAD_LEN],
) -> (f32x8, f32x8, f32x8) {
    let k = splat;
    let one = k(1.0);
    let z = k(0.0);
    let success = recalled8(ratings);
    let g_nss = open8(success, g_out);
    let g_pls_direct = select8(success, z, g_out);
    let g_pls_from_nss = open8(ge8(lane(c.pls), lane(c.ls_sinc)), g_nss);
    let g_ls_sinc = open8(gt8(lane(c.ls_sinc), lane(c.pls)), g_nss);
    let mut g_last_s = g_ls_sinc * c.sinc;
    let g_prod = g_ls_sinc * last_s;
    let g_pls = g_pls_direct + g_pls_from_nss;
    g_last_s += open8(le8(lane(last_s), lane(c.nsf_fail)), g_pls);
    let g_nsf_fail = open8(lt8(lane(c.nsf_fail), lane(last_s)), g_pls);
    let em1 = c.expr - one;
    gw[start] += g_prod * (c.aa * c.bb * c.cc * em1 * c.hard * c.easy);
    let g_bb = g_prod * (c.aa * c.cc * em1 * c.hard * c.easy);
    let g_cc = g_prod * (c.aa * c.bb * em1 * c.hard * c.easy);
    let g_em1 = g_prod * (c.aa * c.bb * c.cc * c.hard * c.easy);
    gw[start + 6] += open8(rated8(ratings, 2), g_prod * (c.aa * c.bb * c.cc * em1 * c.easy));
    gw[start + 7] += open8(rated8(ratings, 4), g_prod * (c.aa * c.bb * c.cc * em1 * c.hard));
    let g_last_d = z - g_bb;
    g_last_s += g_cc * k(-w[start + 1]) * (c.cc / last_s);
    gw[start + 1] += g_cc * (z - c.cc * c.ln_ls);
    let mut g_r = g_em1 * c.expr * k(-w[start + 2]);
    gw[start + 2] += g_em1 * c.expr * (one - r);
    let q = c.qbase - one;
    gw[start + 3] += g_nsf_fail * (q * c.rexp);
    let g_q = g_nsf_fail * k(w[start + 3]) * c.rexp;
    let g_rexp = g_nsf_fail * k(w[start + 3]) * q;
    g_last_s += g_q * k(w[start + 4]) * (c.qbase / (last_s + one));
    gw[start + 4] += g_q * c.qbase * c.ln_ls1;
    g_r += g_rexp * c.rexp * k(-w[start + 5]);
    gw[start + 5] += g_rexp * c.rexp * (one - r);
    (g_last_s, g_last_d, g_r)
}

/// The difficulty after a review in eight lanes, with what its gradient needs.
#[derive(Clone, Copy)]
struct Diff8 {
    out: f32x8,
    plain: f32x8,
    change: f32x8,
}

// Floating point: the difficulty after a review in eight lanes.
fn next_d8_fwd(w: &[f32], last_d: f32x8, ratings: [u32; 8], retention: f32x8, init: f32) -> Diff8 {
    let k = splat;
    let plain = k(-w[6]) * (ratings_wide8(ratings) - k(3.0));
    let change = select8(rated8(ratings, 1), plain * (retention + k(0.1)), plain);
    let new_d = last_d + (k(10.0) - last_d) * change / k(9.0);
    Diff8 { out: k(0.01) * k(init) + k(0.99) * new_d, plain, change }
}

// Floating point: the gradient of the difficulty after a review in eight lanes.
fn next_d8_bwd(
    c: &Diff8, last_d: f32x8, ratings: [u32; 8], retention: f32x8, g_out: f32x8,
    gw: &mut [f32x8; GRAD_LEN], exp3w5: f64,
) -> (f32x8, f32x8) {
    let k = splat;
    let z = k(0.0);
    let g_init = g_out * k(0.01);
    let g_new_d = g_out * k(0.99);
    gw[4] += g_init;
    gw[5] += g_init * k(-(exp3w5 as f32) * 3.0);
    let g_last_d = g_new_d * (k(1.0) - c.change / k(9.0));
    let g_change = g_new_d * (k(10.0) - last_d) / k(9.0);
    let lapse = rated8(ratings, 1);
    let g_plain = select8(lapse, g_change * (retention + k(0.1)), g_change);
    let g_retention = open8(lapse, g_change * c.plain);
    gw[6] += g_plain * (z - (ratings_wide8(ratings) - k(3.0)));
    (g_last_d, g_retention)
}

/// The states of eight columns, or their gradients.
#[derive(Clone, Copy)]
struct Wide8 {
    s: f32x8,
    d: f32x8,
    sf: f32x8,
}

fn wide_state(state: State8) -> Wide8 {
    Wide8 {
        s: wide8(state.stability),
        d: wide8(state.difficulty),
        sf: wide8(state.stability_fast),
    }
}

fn lane_state(s: f32x8, d: f32x8, sf: f32x8) -> State8 {
    State8 { stability: lane(s), difficulty: lane(d), stability_fast: lane(sf) }
}

/// What the gradient of an update in eight lanes needs.
#[derive(Clone, Copy)]
struct Update8 {
    dt: f32x8,
    curve: Curve8,
    slow: Stab8,
    fast: Stab8,
    diff: Diff8,
}

/// States on the way, with what the gradient of the step to them needs.
#[derive(Clone, Copy)]
struct Node8 {
    state: State8,
    ratings: [u32; 8],
    before: State8,
    reviewed: Option<Reviewed8>,
    update: Option<Update8>,
}

fn start_node8() -> Node8 {
    Node8 {
        state: State8::zeros(),
        ratings: [0; 8],
        before: State8::zeros(),
        reviewed: None,
        update: None,
    }
}

// Floating point: one review in eight lanes. What the new states come from is the library's
// choice.
fn step8_fwd(
    w: &[f32], dt_raw: f32x8, ratings: [u32; 8], node: &Node8, first: bool, wc: &WConsts,
) -> Node8 {
    let k = splat;
    let one = k(1.0);
    let cache: RefCell<Option<Update8>> = RefCell::new(None);
    let initial = |rc: [u32; 8]| {
        let first_four = [pattern(w[0]), pattern(w[1]), pattern(w[2]), pattern(w[3])];
        let init_s = wide8(initial_stability8(rc, first_four));
        let init_d = k(w[4]) - exp8(k(w[5]) * (ratings_wide8(rc) - one)) + one;
        lane_state(init_s, init_d, k(0.8) * init_s)
    };
    let update = |last: State8, ratings: [u32; 8]| {
        let last = wide_state(last);
        let dt = larger8(dt_raw, k(0.0));
        let (ln_s, ln_sf) = (ln8(last.s), ln8(last.sf));
        let curve = curve8_fwd(w, dt, last.s, last.sf, last.d, wc, ln_s, ln_sf);
        let slow = stab8_fwd(w, last.s, last.d, curve.out, ratings, 7, wc.aa7, ln_s);
        let fast = stab8_fwd(w, last.sf, last.d, curve.r1, ratings, 15, wc.aa15, ln_sf);
        let diff = next_d8_fwd(w, last.d, ratings, curve.out, wc.init);
        let capped = select8(rated8(ratings, 1), smaller8(fast.out, k(0.8) * slow.out), fast.out);
        *cache.borrow_mut() = Some(Update8 { dt, curve, slow, fast, diff });
        lane_state(slow.out, diff.out, capped)
    };
    let reviewed = review8(node.state, ratings, first, &initial, &update);
    Node8 {
        state: reviewed.state,
        ratings,
        before: node.state,
        reviewed: Some(reviewed),
        update: cache.into_inner(),
    }
}

/// The gradients of the states of eight columns, and those of the parameters so far.
struct Flow8 {
    state: State8,
    gw: [f32x8; GRAD_LEN],
}

// Floating point: the gradient of one review in eight lanes. `g_loss` flows in from the loss
// of the predictions that the review made.
fn step8_bwd(
    w: &[f32], node: &Node8, first: bool, flow: Flow8, g_loss: f32x8, wc: &WConsts,
) -> Flow8 {
    let k = splat;
    let one = k(1.0);
    let z = k(0.0);
    let reviewed = match node.reviewed {
        Some(reviewed) => reviewed,
        None => return flow,
    };
    let initial = |mut gw: [f32x8; GRAD_LEN], rc: [u32; 8], g: State8| {
        let g = wide_state(g);
        let g_init_s = g.s + g.sf * k(0.8);
        for (place, rating) in [(0, 1), (1, 2), (2, 3), (3, 4)] {
            gw[place] += open8(rated8(rc, rating), g_init_s);
        }
        let ex_w5 = exp8(k(w[5]) * (ratings_wide8(rc) - one));
        gw[4] += g.d;
        gw[5] += g.d * (z - ex_w5 * (ratings_wide8(rc) - one));
        gw
    };
    let update = |mut gw: [f32x8; GRAD_LEN], flowing: State8, passing: State8| {
        let u = match node.update {
            Some(u) => u,
            None => return (passing, gw),
        };
        let (g, pad) = (wide_state(flowing), wide_state(passing));
        let last = wide_state(reviewed.last);
        let ratings = node.ratings;
        let cap = k(0.8) * u.slow.out;
        let capped = both8(rated8(ratings, 1), lt8(lane(cap), lane(u.fast.out)));
        let g_slow = g.s + open8(capped, k(0.8) * g.sf);
        let g_fast = select8(capped, z, g.sf);
        let (g_ls, g_ld_a, g_r) =
            stab8_bwd(w, &u.slow, last.s, u.curve.out, ratings, 7, g_slow, &mut gw);
        let (g_lsf, g_ld_b, g_r1) =
            stab8_bwd(w, &u.fast, last.sf, u.curve.r1, ratings, 15, g_fast, &mut gw);
        let (g_ld_c, g_ret) =
            next_d8_bwd(&u.diff, last.d, ratings, u.curve.out, g.d, &mut gw, wc.exp3w5);
        let (g_ls_c, g_lsf_c, g_ld_d) = curve8_bwd(
            w, &u.curve, u.dt, last.s, last.sf, last.d, g_r + g_ret + g_loss, g_r1, wc, &mut gw,
        );
        let s = g_ls + g_ls_c + pad.s;
        let d = g_ld_a + g_ld_b + g_ld_c + g_ld_d + pad.d;
        (lane_state(s, d, g_lsf + g_lsf_c + pad.sf), gw)
    };
    let (state, gw) = review8_back(
        node.before, node.ratings, first, reviewed, flow.state, flow.gw, &initial, &update,
    );
    Flow8 { state, gw }
}

fn step8_at(
    w: &[f32], t_hist: &[Single], r_hist: &[u32], node: &Node8, place: usize, first: bool,
    wc: &WConsts,
) -> Node8 {
    let dt = if first { splat(0.0) } else { wide8(load8(t_hist, place)) };
    step8_fwd(w, dt, load_ratings8(r_hist, place), node, first, wc)
}

fn curve8_at(w: &[f32], dts: f32x8, state: State8, wc: &WConsts) -> Curve8 {
    let Wide8 { s, d, sf } = wide_state(state);
    curve8_fwd(w, dts, s, sf, d, wc, ln8(s), ln8(sf))
}

fn bce8(out: f32x8, labels: &[f32], weights: &[f32], place: usize) -> [f64; 8] {
    let r = hold8(out, MIN_R, MAX_R).to_array();
    std::array::from_fn(|j| bce(r[j], labels[place + j], weights[place + j]))
}

fn gather8(mut total: [f64; GRAD_LEN], flow: Flow8) -> [f64; GRAD_LEN] {
    for i in 0..GRAD_LEN {
        total[i] += flow.gw[i].reduce_add() as f64;
    }
    total
}

/// The loss of a batch, eight columns at a time.
#[allow(clippy::too_many_arguments)]
fn batch_loss_simd(
    w: &[f32], t_hist: &[f32], r_hist: &[u32], seq_len: usize, batch: usize, delta_ts: &[f32],
    labels: &[f32], weights: &[f32],
) -> f64 {
    let wc = wconsts(w);
    let (t8, d8) = (patterns(t_hist), patterns(delta_ts));
    let step8 = |node: &Node8, place: usize, first: bool| {
        step8_at(w, &t8, r_hist, node, place, first, &wc)
    };
    let score8 = |node: &Node8, c: usize| {
        let out = curve8_at(w, wide8(load8(&d8, c)), node.state, &wc).out;
        bce8(out, labels, weights, c)
    };
    let step = |node: &Node, place: usize, first: bool| {
        step_fwd(w, t_hist[place], r_hist[place], node, first, &wc)
    };
    let score = |node: &Node, c: usize| column_loss(w, node, c, delta_ts, labels, weights, &wc);
    losses::batch_loss_simd(
        &step8, start_node8(), &score8, &step, start_node(), &score, &plus, 0.0, seq_len, batch,
    )
}

fn loss_gradient8(out: f32x8, label: f32x8, weight: f32x8) -> f32x8 {
    let one = splat(1.0);
    let r = hold8(out, MIN_R, MAX_R);
    let g_r = (splat(0.0) - weight) * (label / r - (one - label) / (one - r));
    open8(within8(out, MIN_R, MAX_R), g_r)
}

/// The loss of a batch and its gradient, eight columns at a time. The number of columns is a
/// multiple of eight.
#[allow(clippy::too_many_arguments)]
fn batch_loss_and_grad_simd(
    w: &[f32], t_hist: &[f32], r_hist: &[u32], seq_len: usize, batch: usize, delta_ts: &[f32],
    labels: &[f32], weights: &[f32], gw: &mut [f64],
) -> f64 {
    let wc = wconsts(w);
    let (t8, d8, l8, w8) =
        (patterns(t_hist), patterns(delta_ts), patterns(labels), patterns(weights));
    let z = splat(0.0);
    let step = |node: &Node8, place: usize, first: bool| {
        step8_at(w, &t8, r_hist, node, place, first, &wc)
    };
    let score = |node: &Node8, c: usize| {
        let dts = wide8(load8(&d8, c));
        let fc = curve8_at(w, dts, node.state, &wc);
        let loss = bce8(fc.out, labels, weights, c).iter().fold(0.0, |sum, loss| sum + loss);
        let g_r = loss_gradient8(fc.out, wide8(load8(&l8, c)), wide8(load8(&w8, c)));
        let mut gw = [z; GRAD_LEN];
        let Wide8 { s, d, sf } = wide_state(node.state);
        let (g_s, g_sf, g_d) = curve8_bwd(w, &fc, dts, s, sf, d, g_r, z, &wc, &mut gw);
        (loss, Flow8 { state: lane_state(g_s, g_d, g_sf), gw })
    };
    let back = |flow: Flow8, node: &Node8, _place: usize, first: bool| {
        step8_bwd(w, node, first, flow, z, &wc)
    };
    let (loss, total) = losses::loss_and_grad_range(
        &step, start_node8(), &score, &back, &plus, &gather8, 0.0, [0.0; GRAD_LEN], seq_len, batch,
        8, 0, lanes_of(batch).groups,
    );
    for i in 0..GRAD_LEN {
        gw[i] += total[i];
    }
    loss
}

/// The gradient of the loss of cards, each walked once over its full reviews. Labels and
/// weights are laid out as reviews are; a weight of 0 marks a review that is not scored. The
/// number of columns is a multiple of eight.
#[allow(clippy::too_many_arguments)]
fn card_loss_and_grad_simd(
    w: &[f32], t_hist: &[f32], r_hist: &[u32], seq_len: usize, batch: usize, labels: &[f32],
    weights: &[f32], gw: &mut [f64],
) -> f64 {
    let wc = wconsts(w);
    let (t8, l8, w8) = (patterns(t_hist), patterns(labels), patterns(weights));
    let z = splat(0.0);
    let step = |node: &Node8, place: usize, first: bool| {
        step8_at(w, &t8, r_hist, node, place, first, &wc)
    };
    let score =
        |_: &Node8, _: usize| (0.0, Flow8 { state: State8::zeros(), gw: [z; GRAD_LEN] });
    let back = |flow: Flow8, node: &Node8, place: usize, first: bool| {
        let g_loss = match node.update {
            Some(u) => {
                let (label, weight) = (wide8(load8(&l8, place)), wide8(load8(&w8, place)));
                loss_gradient8(u.curve.out, label, weight)
            }
            None => z,
        };
        step8_bwd(w, node, first, flow, g_loss, &wc)
    };
    let (loss, total) = losses::loss_and_grad_range(
        &step, start_node8(), &score, &back, &plus, &gather8, 0.0, [0.0; GRAD_LEN], seq_len, batch,
        8, 0, lanes_of(batch).groups,
    );
    for i in 0..GRAD_LEN {
        gw[i] += total[i];
    }
    loss
}

/// The loss of cards, each walked once over its full reviews.
fn card_loss_simd(
    w: &[f32], t_hist: &[f32], r_hist: &[u32], seq_len: usize, batch: usize, labels: &[f32],
    weights: &[f32],
) -> f64 {
    let wc = wconsts(w);
    let (t8, w8) = (patterns(t_hist), patterns(weights));
    let step = |node: &Node8, place: usize, first: bool| {
        step8_at(w, &t8, r_hist, node, place, first, &wc)
    };
    let score = |node: &Node8, place: usize| {
        let out = node.update.map_or(splat(0.0), |u| u.curve.out);
        bce8(out, labels, weights, place)
    };
    losses::card_loss_simd(&step, start_node8(), &score, &w8, &plus, 0.0, seq_len, batch)
}

// Floating point: the loss and gradient of cards in one walk each, with the gradient of each
// loss flowing back by itself.
#[allow(clippy::too_many_arguments)]
fn loss_and_grad_range_window(
    w: &[f32], t_hist: &[f32], r_hist: &[u32], seq_len: usize, batch: usize, labels: &[f32],
    weights: &[f32], gw: &mut [f64], start: usize, end: usize,
) -> f64 {
    let wc = wconsts(w);
    let mut loss = 0.0f64;
    for c in start..end {
        let step = |node: &Node, place: usize, first: bool| {
            let dt = if first { 0.0 } else { t_hist[place] };
            step_fwd(w, dt, r_hist[place], node, first, &wc)
        };
        let nodes = walk(&step, start_node(), seq_len, batch, c);
        for t in 1..seq_len {
            let place = t * batch + c;
            if is_scored(t, pattern(weights[place])) {
                let out = nodes[t + 1].update.unwrap().curve.out;
                loss += bce(scored(out), labels[place], weights[place]);
            }
        }
        let back = |flow: Flow, node: &Node, place: usize, first: bool| {
            let mut after = step_bwd(w, node, flow, &wc);
            if !first && is_scored(place / batch, pattern(weights[place])) {
                let u = node.update.unwrap();
                let last = node.reviewed.unwrap().last;
                let r = scored(u.curve.out) as f64;
                let (lbl, wt) = (labels[place] as f64, weights[place] as f64);
                let g_r = gate(
                    -wt * (lbl / r - (1.0 - lbl) / (1.0 - r)),
                    inside(u.curve.out, MIN_R, MAX_R),
                );
                let (g_s, g_sf, g_d) = curve_bwd(
                    w, &u.curve, u.dt, number(last.stability), number(last.stability_fast),
                    number(last.difficulty), g_r, 0.0, &wc, &mut after.gw,
                );
                after.state = gradient_of(
                    number64(after.state.stability) + g_s,
                    number64(after.state.difficulty) + g_d,
                    number64(after.state.stability_fast) + g_sf,
                );
            }
            after
        };
        let zero = Flow { state: StateGradient::zeros(), gw: [0.0; GRAD_LEN] };
        let flow = walk_back(&back, &nodes, zero, batch, c);
        for i in 0..GRAD_LEN {
            gw[i] += flow.gw[i];
        }
    }
    loss
}

fn default_parameters() -> Vec<f32> {
    DEFAULT_PARAMETERS.iter().map(|&bits| f32::from_bits(bits)).collect()
}

#[test]
fn simd_transcendentals_accurate() {
    let mut worst_exp = 0.0f64;
    let mut x = -87.0f32;
    while x <= 88.0 {
        let v = exp8(f32x8::splat(x)).to_array()[0] as f64;
        let b = (x as f64).exp();
        worst_exp = worst_exp.max(((v - b) / b).abs());
        x += 0.013;
    }
    assert!(worst_exp < 1e-5, "exp8 worst rel err {worst_exp:e}");
    let mut worst_ln = 0.0f64;
    let mut y = 1e-5f32;
    while y <= 4e4 {
        let v = ln8(f32x8::splat(y)).to_array()[0] as f64;
        let b = (y as f64).ln();
        worst_ln = worst_ln.max((v - b).abs());
        y *= 1.05;
    }
    assert!(worst_ln < 1.5e-5, "ln8 worst abs err {worst_ln:e}");
}

#[test]
fn simd_batch_loss_matches_scalar() {
    let w: Vec<f32> = default_parameters();
    let (batch, seq) = (20usize, 4usize);
    let mut th = vec![0.0f32; seq * batch];
    let mut rh = vec![0u32; seq * batch];
    for c in 0..batch {
        let len = 1 + (c % seq);
        for t in 0..len {
            th[t * batch + c] = ((t + c) % 7) as f32;
            rh[t * batch + c] = (1 + ((t + c) % 4)) as u32;
        }
    }
    let dts: Vec<f32> = (0..batch).map(|c| (1 + c % 30) as f32).collect();
    let lbl: Vec<f32> = (0..batch).map(|c| (c % 2) as f32).collect();
    let wts: Vec<f32> = (0..batch).map(|c| 0.5 + 0.1 * (c % 5) as f32).collect();
    let a = batch_loss(&w, &th, &rh, seq, batch, &dts, &lbl, &wts);
    let b = batch_loss_simd(&w, &th, &rh, seq, batch, &dts, &lbl, &wts);
    let rel = ((a - b) / a.abs().max(1e-9)).abs();
    assert!(rel < 1e-4, "simd batch_loss {b} vs scalar {a}, rel {rel:e}");
}

#[test]
fn simd_grad_matches_scalar_grad() {
    let w: Vec<f32> = default_parameters();
    let (batch, seq) = (16usize, 6usize);
    let mut th = vec![0.0f32; seq * batch];
    let mut rh = vec![0u32; seq * batch];
    for c in 0..batch {
        let len = 2 + (c % (seq - 1));
        for t in 0..len {
            th[t * batch + c] = (1 + (t + c) % 20) as f32;
            rh[t * batch + c] = (1 + ((t + 2 * c) % 4)) as u32;
        }
    }
    let dts: Vec<f32> = (0..batch).map(|c| (1 + c % 30) as f32).collect();
    let lbl: Vec<f32> = (0..batch).map(|c| (c % 2) as f32).collect();
    let wts: Vec<f32> = (0..batch).map(|c| 0.4 + 0.13 * (c % 5) as f32).collect();
    let mut gs = [0.0f64; 36];
    batch_loss_and_grad(&w, &th, &rh, seq, batch, &dts, &lbl, &wts, &mut gs);
    let mut gv = [0.0f64; 36];
    batch_loss_and_grad_simd(&w, &th, &rh, seq, batch, &dts, &lbl, &wts, &mut gv);
    let mut num = 0.0f64;
    let mut den = 0.0f64;
    for i in 0..36 {
        num += (gs[i] - gv[i]).powi(2);
        den += gs[i].powi(2);
    }
    let rel = (num / den.max(1e-12)).sqrt();
    assert!(rel < 2e-3, "simd grad vs scalar grad rel-L2 {rel:e}\nscalar={gs:?}\nsimd={gv:?}");
}

#[test]
fn window_grad_equals_sum_of_prefix_grads() {
    let w: Vec<f32> = default_parameters();
    let kk = 6usize;
    let dts_q = [0.0f32, 3.0, 8.0, 1.0, 20.0, 5.0];
    let rat_q = [3u32, 2, 4, 1, 3, 3];
    let weight_at = |t: usize| 0.3 + 0.11 * t as f32;

    let (seq_w, batch_w) = (kk, 1usize);
    let mut th_w = vec![0.0f32; seq_w * batch_w];
    let mut rh_w = vec![0u32; seq_w * batch_w];
    let mut lbl_w = vec![0.0f32; seq_w * batch_w];
    let mut wts_w = vec![0.0f32; seq_w * batch_w];
    for t in 0..kk {
        th_w[t] = dts_q[t];
        rh_w[t] = rat_q[t];
        if t >= 1 {
            wts_w[t] = weight_at(t);
            lbl_w[t] = if rat_q[t] > 1 { 1.0 } else { 0.0 };
        }
    }
    let mut g_win = [0.0f64; 36];
    let loss_win = loss_and_grad_range_window(
        &w, &th_w, &rh_w, seq_w, batch_w, &lbl_w, &wts_w, &mut g_win, 0, 1,
    );

    let (seq_p, batch_p) = (kk - 1, kk - 1);
    let mut th_p = vec![0.0f32; seq_p * batch_p];
    let mut rh_p = vec![0u32; seq_p * batch_p];
    let mut dts_p = vec![0.0f32; batch_p];
    let mut lbl_p = vec![0.0f32; batch_p];
    let mut wts_p = vec![0.0f32; batch_p];
    for c in 0..batch_p {
        let l = c + 2;
        for t in 0..(l - 1) {
            th_p[t * batch_p + c] = dts_q[t];
            rh_p[t * batch_p + c] = rat_q[t];
        }
        dts_p[c] = dts_q[l - 1];
        lbl_p[c] = if rat_q[l - 1] > 1 { 1.0 } else { 0.0 };
        wts_p[c] = weight_at(l - 1);
    }
    let (loss_pre, g_pre) = loss_and_grad_range(
        &w, &th_p, &rh_p, seq_p, batch_p, &dts_p, &lbl_p, &wts_p, [0.0f64; 36], 0, batch_p,
    );

    let mut num = 0.0f64;
    let mut den = 0.0f64;
    for i in 0..36 {
        num += (g_win[i] - g_pre[i]).powi(2);
        den += g_pre[i].powi(2);
    }
    let rel = (num / den.max(1e-12)).sqrt();
    assert!(
        rel < 1e-9,
        "windowed grad vs sum-of-prefix grad rel-L2 {rel:e}\nwin={g_win:?}\npre={g_pre:?}"
    );
    assert!(
        (loss_win - loss_pre).abs() < 1e-9,
        "windowed loss {loss_win} vs prefix-sum loss {loss_pre}"
    );
}

#[test]
fn simd_window_grad_matches_scalar_window() {
    let w: Vec<f32> = default_parameters();
    let (batch, seq) = (8usize, 7usize);
    let mut th = vec![0.0f32; seq * batch];
    let mut rh = vec![0u32; seq * batch];
    let mut lbl = vec![0.0f32; seq * batch];
    let mut wts = vec![0.0f32; seq * batch];
    for c in 0..batch {
        let klen = 2 + (c % (seq - 1));
        for t in 0..klen {
            th[t * batch + c] = (1 + (t + c) % 19) as f32;
            rh[t * batch + c] = (1 + ((t + 2 * c) % 4)) as u32;
        }
        for t in 1..klen {
            if t == 2 && c % 3 == 0 {
                continue;
            }
            wts[t * batch + c] = 0.4 + 0.07 * ((t + c) % 5) as f32;
            lbl[t * batch + c] = if rh[t * batch + c] > 1 { 1.0 } else { 0.0 };
        }
    }
    let mut gs = [0.0f64; 36];
    let loss_scalar =
        loss_and_grad_range_window(&w, &th, &rh, seq, batch, &lbl, &wts, &mut gs, 0, batch);
    let mut gv = [0.0f64; 36];
    card_loss_and_grad_simd(&w, &th, &rh, seq, batch, &lbl, &wts, &mut gv);
    let mut num = 0.0f64;
    let mut den = 0.0f64;
    for i in 0..36 {
        num += (gs[i] - gv[i]).powi(2);
        den += gs[i].powi(2);
    }
    let rel = (num / den.max(1e-12)).sqrt();
    assert!(
        rel < 2e-3,
        "simd window grad vs scalar window grad rel-L2 {rel:e}\nscalar={gs:?}\nsimd={gv:?}"
    );
    let loss_simd = card_loss_simd(&w, &th, &rh, seq, batch, &lbl, &wts);
    let lrel = ((loss_scalar - loss_simd) / loss_scalar.abs().max(1e-9)).abs();
    assert!(
        lrel < 1e-4,
        "card_loss_simd {loss_simd} vs scalar window {loss_scalar} rel {lrel:e}"
    );
}

#[allow(clippy::too_many_arguments)]
fn fd_grad(
    w: &[f32], t_hist: &[f32], r_hist: &[u32], seq_len: usize, batch: usize, dts: &[f32],
    lbl: &[f32], wts: &[f32],
) -> [f64; 36] {
    let mut g = [0.0f64; 36];
    for i in 0..w.len() {
        let eps = 1e-3f32;
        let mut wp = w.to_vec();
        wp[i] = w[i] + eps;
        let lp = batch_loss(&wp, t_hist, r_hist, seq_len, batch, dts, lbl, wts);
        wp[i] = w[i] - eps;
        let lm = batch_loss(&wp, t_hist, r_hist, seq_len, batch, dts, lbl, wts);
        g[i] = (lp - lm) / (2.0 * eps as f64);
    }
    g
}

#[test]
fn grad_matches_fd() {
    let w: Vec<f32> = default_parameters();
    let t_hist = [1.0f32, 1.0, 1.0, 1.0, 2.0, 2.0, 2.0, 2.0];
    let r_hist = [1u32, 2, 3, 4, 3, 3, 3, 3];
    let dts = [5.0f32, 5.0, 5.0, 5.0];
    let lbl = [1.0f32, 1.0, 0.0, 1.0];
    let wts = [1.0f32, 1.0, 1.0, 1.0];
    let mut mg = [0.0f64; 36];
    batch_loss_and_grad(&w, &t_hist, &r_hist, 2, 4, &dts, &lbl, &wts, &mut mg);
    let fd = fd_grad(&w, &t_hist, &r_hist, 2, 4, &dts, &lbl, &wts);
    let mut bad = false;
    for i in 0..36 {
        let d = (mg[i] - fd[i]).abs();
        let rel = d / fd[i].abs().max(1e-3);
        if rel > 0.6 && d > 1e-3 {
            bad = true;
            println!("w[{:>2}] manual={:+.6e} fd={:+.6e} rel={:.2e}", i, mg[i], fd[i], rel);
        }
    }
    assert!(!bad, "gross gradient mismatch vs finite difference");
}

#[test]
fn halves_add_up_to_the_whole() {
    let w: Vec<f32> = default_parameters();
    for batch in [63, 64, 71] {
        let seq = 3;
        let n = seq * batch;
        let th: Vec<f32> = (0..n).map(|i| 0.5 + (i % 11) as f32).collect();
        let rh: Vec<u32> =
            (0..n).map(|i| if i >= 2 * batch && i % 3 == 0 { 0 } else { 1 + i as u32 % 4 }).collect();
        let dts: Vec<f32> = (0..batch).map(|c| 1.0 + (c % 7) as f32).collect();
        let lbl: Vec<f32> = (0..batch).map(|c| (c % 3 != 0) as u32 as f32).collect();
        let wts: Vec<f32> = (0..batch).map(|c| 0.5 + (c % 2) as f32).collect();
        let (whole, gradient) = loss_and_grad_range(
            &w, &th, &rh, seq, batch, &dts, &lbl, &wts, [0.0; GRAD_LEN], 0, batch,
        );
        let mut given = [2.5f64; 36];
        let loss = batch_loss_and_grad(&w, &th, &rh, seq, batch, &dts, &lbl, &wts, &mut given);
        let alone = batch_loss(&w, &th, &rh, seq, batch, &dts, &lbl, &wts);
        assert!((loss - whole).abs() < 1e-9 * whole.abs(), "{batch}: {loss} and {whole}");
        assert!((loss - alone).abs() < 1e-9 * alone.abs(), "{batch}: {loss} and {alone}");
        for i in 0..36 {
            // Added to what was given, which is not overwritten.
            let expected = 2.5 + gradient[i];
            assert!((given[i] - expected).abs() < 1e-9 * (1.0 + expected.abs()), "{batch}: w[{i}]");
        }
        assert!(gradient.iter().any(|g| g.abs() > 1e-3));
    }
}
