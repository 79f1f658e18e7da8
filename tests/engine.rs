use ydj_mixer_engine::annealing::{run_attempt, AnnealingParams, SaResult, TimedRun};
use ydj_mixer_engine::cost::{
    affected_edges, edge_cost, optimize_shift_at, sum_edge_costs, total_edge_cost, CostParams,
};
use ydj_mixer_engine::held_karp::run;
use ydj_mixer_engine::{check_tables, optimize_mix_exact, validate_input, EngineError};

const NK: usize = 24;

fn params() -> CostParams {
    CostParams {
        tempo_threshold: 5,
        tempo_penalty: 10,
        tempo_break_factor: 4,
        tempo_cost_weight: 1,
        non_harmonic_cost: 100,
        shift_penalty: 3,
        shift_weight: 1,
        num_keys: NK,
    }
}

/// Shift moves a key one step round the wheel.
fn shift_table() -> Vec<u8> {
    let mut t = Vec::new();
    for k in 0..NK {
        for s in [-1i64, 0, 1] {
            t.push(((k as i64 + s + NK as i64) % NK as i64) as u8);
        }
    }
    t
}

/// Same key costs 0, neighbouring keys cost 1, anything else is non-harmonic.
fn direct_costs() -> Vec<i64> {
    let mut d = vec![0i64; NK * NK];
    for a in 0..NK {
        for b in 0..NK {
            let dist = (a as i64 - b as i64).rem_euclid(NK as i64);
            let dist = dist.min(NK as i64 - dist);
            d[a * NK + b] = match dist {
                0 => 0,
                1 => 1,
                _ => 100,
            };
        }
    }
    d
}

fn indirect_costs(value: i64) -> Vec<i64> {
    vec![value; NK * NK]
}

fn scalar(p: &CostParams, h: i128, t: i128, s: i128) -> i128 {
    h + p.tempo_cost_weight as i128 * t + p.shift_weight as i128 * s
}

fn is_perm(order: &[usize], n: usize) -> bool {
    let mut seen = vec![false; n];
    if order.len() != n {
        return false;
    }
    for &i in order {
        if i >= n || seen[i] {
            return false;
        }
        seen[i] = true;
    }
    true
}

#[test]
fn affected_edges_middle_positions() {
    let mut out = [0usize; 4];
    let count = affected_edges(1, 3, 5, &mut out);
    assert_eq!(count, 4);
    let mut got = out[..count].to_vec();
    got.sort();
    assert_eq!(got, vec![0, 1, 2, 3]);
}

#[test]
fn affected_edges_adjacent_and_ends() {
    let mut out = [0usize; 4];
    let count = affected_edges(0, 1, 5, &mut out);
    let mut got = out[..count].to_vec();
    got.sort();
    assert_eq!(got, vec![0, 1]);
    let count = affected_edges(4, 0, 5, &mut out);
    let mut got = out[..count].to_vec();
    got.sort();
    assert_eq!(got, vec![0, 3]);
}

#[test]
fn tempo_break_skips_harmonic_cost() {
    let p = params();
    let bpms = vec![120, 180];
    let keys = vec![0u8, 12];
    let st = shift_table();
    let d = direct_costs();
    let ind = indirect_costs(200);
    for s1 in [-1i8, 0, 1] {
        for s2 in [-1i8, 0, 1] {
            assert_eq!(edge_cost(0, 1, s1, s2, &bpms, &keys, &st, &d, &ind, &p), 40);
        }
    }
    let (h, t, s) = total_edge_cost(&[0, 1], &[0, 0], &bpms, &keys, &st, &d, &ind, &p);
    assert_eq!((h, t, s), (0, 40, 0));
}

#[test]
fn doubly_non_harmonic_transition() {
    let p = params();
    let bpms = vec![120, 120];
    let keys = vec![0u8, 12];
    let st = shift_table();
    let d = direct_costs();
    assert_eq!(edge_cost(0, 1, 0, 0, &bpms, &keys, &st, &d, &indirect_costs(100), &p), 300);
    assert_eq!(edge_cost(0, 1, 0, 0, &bpms, &keys, &st, &d, &indirect_costs(150), &p), 300);
    assert_eq!(edge_cost(0, 1, 0, 0, &bpms, &keys, &st, &d, &indirect_costs(99), &p), 100);
}

#[test]
fn tempo_penalty_below_break() {
    let p = params();
    let bpms = vec![120, 128];
    let keys = vec![3u8, 4];
    let st = shift_table();
    let d = direct_costs();
    let ind = indirect_costs(0);
    // gap 8 > threshold 5, below break 20: harmonic 1 plus penalty 10
    assert_eq!(edge_cost(0, 1, 0, 0, &bpms, &keys, &st, &d, &ind, &p), 11);
    // shifting the first key up makes the keys equal
    assert_eq!(edge_cost(0, 1, 1, 0, &bpms, &keys, &st, &d, &ind, &p), 10);
}

#[test]
fn sequence_cost_breakdown() {
    let p = params();
    let bpms = vec![120, 121, 140];
    let keys = vec![0u8, 1, 1];
    let st = shift_table();
    let d = direct_costs();
    let ind = indirect_costs(0);
    let (h, t, s) = total_edge_cost(&[0, 1, 2], &[0, 1, 0], &bpms, &keys, &st, &d, &ind, &p);
    // 0 -> 1: keys 0 and 2: non-harmonic 100; 1 -> 2: keys 2 and 1: cost 1, gap 19 > 5
    assert_eq!((h, t, s), (101, 10, 3));
    let edges = sum_edge_costs(&[0, 1], &[0, 1, 2], &[0, 1, 0], &bpms, &keys, &st, &d, &ind, &p);
    assert_eq!(edges, 111);
}

#[test]
fn optimize_shift_picks_cheapest() {
    let p = params();
    let bpms = vec![120, 120, 120];
    let keys = vec![0u8, 2, 0];
    let st = shift_table();
    let d = direct_costs();
    let ind = indirect_costs(0);
    let mut shifts = vec![0i8, 0, 0];
    optimize_shift_at(&[0, 1, 2], &mut shifts, 1, &bpms, &keys, &st, &d, &ind, &p);
    assert_eq!(shifts, vec![0, -1, 0]);
    // a tie keeps the current shift
    let mut shifts = vec![0i8, 0, 0];
    optimize_shift_at(&[0, 2, 1], &mut shifts, 0, &bpms, &vec![5u8, 5, 5], &st, &d, &ind, &p);
    assert_eq!(shifts, vec![0, 0, 0]);
}

fn brute_force(n: usize, bpms: &[i32], keys: &[u8], st: &[u8], d: &[i64], ind: &[i64], p: &CostParams) -> i128 {
    let mut best = i128::MAX;
    let mut perm: Vec<usize> = (0..n).collect();
    let mut perms = Vec::new();
    permutations(&mut perm, 0, &mut perms);
    let total_shifts = 3usize.pow(n as u32);
    for order in &perms {
        for code in 0..total_shifts {
            let mut c = code;
            let mut shifts = vec![0i8; n];
            for i in 0..n {
                shifts[i] = (c % 3) as i8 - 1;
                c /= 3;
            }
            let (h, t, s) = total_edge_cost(order, &shifts, bpms, keys, st, d, ind, p);
            best = best.min(scalar(p, h, t, s));
        }
    }
    best
}

fn permutations(v: &mut Vec<usize>, k: usize, out: &mut Vec<Vec<usize>>) {
    if k == v.len() {
        out.push(v.clone());
        return;
    }
    for i in k..v.len() {
        v.swap(k, i);
        permutations(v, k + 1, out);
        v.swap(k, i);
    }
}

fn sample_tracks(n: usize) -> (Vec<i32>, Vec<u8>) {
    let bpms: Vec<i32> = (0..n).map(|i| 118 + ((i * 7) % 13) as i32 * 3).collect();
    let keys: Vec<u8> = (0..n).map(|i| ((i * 5 + 3) % NK) as u8).collect();
    (bpms, keys)
}

#[test]
fn exact_matches_brute_force() {
    let p = params();
    let st = shift_table();
    let d = direct_costs();
    let ind = indirect_costs(100);
    for n in 2..=5 {
        let (bpms, keys) = sample_tracks(n);
        let (order, shifts, cost, (h, t, s)) = run(n, &bpms, &keys, &st, &d, &ind, &p);
        assert!(is_perm(&order, n));
        assert!(shifts.iter().all(|&x| (-1..=1).contains(&x)));
        assert_eq!((h, t, s), total_edge_cost(&order, &shifts, &bpms, &keys, &st, &d, &ind, &p));
        assert_eq!(cost as i128, scalar(&p, h, t, s));
        assert_eq!(cost as i128, brute_force(n, &bpms, &keys, &st, &d, &ind, &p));
    }
}

#[test]
fn exact_entry_errors() {
    let p = params();
    let st = shift_table();
    let d = direct_costs();
    let ind = indirect_costs(100);
    let (bpms, keys) = sample_tracks(1);
    assert_eq!(optimize_mix_exact(&bpms, &keys, &st, &d, &ind, &p).unwrap_err(), EngineError::TooFewTracks);
    let (bpms, keys) = sample_tracks(21);
    assert_eq!(optimize_mix_exact(&bpms, &keys, &st, &d, &ind, &p).unwrap_err(), EngineError::UnsupportedSize);
    let (bpms, keys) = sample_tracks(4);
    assert_eq!(optimize_mix_exact(&bpms, &keys, &st[..70], &d, &ind, &p).unwrap_err(), EngineError::InvalidTables);
    let (order, _, _, _) = optimize_mix_exact(&bpms, &keys, &st, &d, &ind, &p).unwrap();
    assert!(is_perm(&order, 4));
}

#[test]
fn table_checks() {
    let p = params();
    let st = shift_table();
    let d = direct_costs();
    let ind = indirect_costs(100);
    let (bpms, keys) = sample_tracks(3);
    assert!(check_tables(&bpms, &keys, &st, &d, &ind, &p));
    assert!(!check_tables(&bpms, &[0, 1, 24], &st, &d, &ind, &p));
    let mut bad = st.clone();
    bad[5] = 30;
    assert!(!check_tables(&bpms, &keys, &bad, &d, &ind, &p));
    let mut big = params();
    big.tempo_cost_weight = 5000;
    assert!(!check_tables(&bpms, &keys, &st, &d, &ind, &big));
    assert_eq!(validate_input(&bpms[..1], &keys[..1], &st, &d, &ind, &p), Err(EngineError::TooFewTracks));
    assert_eq!(validate_input(&bpms, &keys, &st, &d, &ind, &p), Ok(()));
}

fn one_attempt(n: usize, iterations: usize) -> (SaResult, Vec<i32>, Vec<u8>) {
    let p = params();
    let st = shift_table();
    let d = direct_costs();
    let ind = indirect_costs(100);
    let (bpms, keys) = sample_tracks(n);
    let ap = AnnealingParams { total_iterations: iterations, multi_swap_factor: 2 };
    let margins = vec![-5i128; iterations];
    let mut rng = rand::rng();
    let r = run_attempt(n, &bpms, &keys, &st, &d, &ind, &p, &ap, &mut rng, &margins);
    (r, bpms, keys)
}

#[test]
fn annealing_result_is_consistent() {
    let p = params();
    let st = shift_table();
    let d = direct_costs();
    let ind = indirect_costs(100);
    for n in [2usize, 3, 8, 30] {
        let (r, bpms, keys) = one_attempt(n, 500);
        assert!(is_perm(&r.best_order, n));
        assert_eq!(r.best_shifts.len(), n);
        assert!(r.best_shifts.iter().all(|&x| (-1..=1).contains(&x)));
        let (h, t, s) = total_edge_cost(&r.best_order, &r.best_shifts, &bpms, &keys, &st, &d, &ind, &p);
        assert_eq!((h, t, s), (r.h_cost, r.t_cost, r.s_cost));
        assert_eq!(r.best_cost, scalar(&p, h, t, s));
    }
}

#[test]
fn annealing_never_beats_exact() {
    let p = params();
    let st = shift_table();
    let d = direct_costs();
    let ind = indirect_costs(100);
    let (bpms, keys) = sample_tracks(5);
    let (_, _, exact, _) = run(5, &bpms, &keys, &st, &d, &ind, &p);
    let (r, _, _) = one_attempt(5, 20000);
    assert!(r.best_cost >= exact as i128);
}

#[test]
fn timed_run_needs_one_attempt() {
    let run0 = TimedRun::new(4);
    assert!(!run0.should_stop(true));
    assert!(!run0.should_stop(false));
}

#[test]
fn timed_run_statistics() {
    let p = params();
    let st = shift_table();
    let d = direct_costs();
    let ind = indirect_costs(100);
    let n = 6;
    let (bpms, keys) = sample_tracks(n);
    let mut timed = TimedRun::new(n);
    let mut costs = Vec::new();
    for _ in 0..4 {
        let (r, _, _) = one_attempt(n, 50);
        costs.push(r.best_cost);
        timed.record(r, &bpms, &keys, &st, &d, &ind, &p);
        assert!(timed.should_stop(true));
        assert!(!timed.should_stop(false));
    }
    let (best, attempts, stats) = timed.finish();
    assert_eq!(attempts.len(), 4);
    assert_eq!(stats.attempts, 4);
    assert_eq!(best.best_cost, *costs.iter().min().unwrap());
    assert_eq!(stats.min.len(), n);
    assert_eq!(stats.max.len(), n);
    assert_eq!(stats.sum.len(), n);
    for i in 0..n {
        assert!(stats.min[i] * 4 <= stats.sum[i]);
        assert!(stats.sum[i] <= stats.max[i] * 4);
        assert!(stats.min[i] <= stats.max[i]);
    }
}

#[test]
fn per_track_cost_of_fixed_order() {
    let p = params();
    let st = shift_table();
    let d = direct_costs();
    let ind = indirect_costs(0);
    let bpms = vec![120, 121, 140];
    let keys = vec![0u8, 1, 1];
    let mut timed = TimedRun::new(3);
    let r = SaResult {
        best_order: vec![0, 1, 2],
        best_shifts: vec![0, 1, 0],
        best_cost: 114,
        h_cost: 101,
        t_cost: 10,
        s_cost: 3,
    };
    timed.record(r, &bpms, &keys, &st, &d, &ind, &p);
    let (_, _, stats) = timed.finish();
    // edges cost 100 and 11: doubled means 200, 111, 22
    assert_eq!(stats.sum, vec![200, 111, 22]);
    assert_eq!(stats.min, vec![200, 111, 22]);
}

#[test]
fn initial_order_is_shuffled() {
    let mut seen_other = false;
    for _ in 0..20 {
        let (r, _, _) = one_attempt(8, 0);
        assert!(is_perm(&r.best_order, 8));
        if r.best_order != (0..8).collect::<Vec<usize>>() {
            seen_other = true;
        }
    }
    assert!(seen_other);
}

#[test]
fn random_shifts_cover_all_values() {
    let mut seen = [false; 3];
    for _ in 0..20 {
        let (r, _, _) = one_attempt(8, 0);
        for &s in &r.best_shifts {
            seen[(s + 1) as usize] = true;
        }
    }
    assert_eq!(seen, [true, true, true]);
}
