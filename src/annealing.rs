//! Simulated annealing with restart-from-incumbent moves and an escape mode.

use vstd::prelude::*;
use rand::rngs::ThreadRng;
use rand::seq::SliceRandom;
use rand::Rng;
use crate::cost::{
    affected_edges, is_affected, is_permutation, lemma_factor_product, lemma_path_cost_bound,
    lemma_shifted_diff, lemma_sum_on_support, lemma_sum_steps_diff, lemma_sum_w,
    lemma_sum_w_diff, lsum, optimize_shift_at, sum_edge_costs, tables, total_edge_cost,
    valid_shifts, within, CostParams, Tables,
};

verus! {

#[verifier::external_type_specification]
#[verifier::external_body]
pub struct ExThreadRng(ThreadRng);

/// Relies on `rand::Rng::random_range`: a value drawn from `0..bound` (it
/// panics on an empty range).
#[verifier::external_body]
fn draw_below(rng: &mut ThreadRng, bound: usize) -> (r: usize)
    requires
        bound > 0,
    ensures
        r < bound,
{
    rng.random_range(0..bound)
}

/// Relies on `rand::seq::SliceRandom::shuffle`: the entries are permuted in place.
#[verifier::external_body]
fn shuffle_in_place(rng: &mut ThreadRng, v: &mut Vec<usize>)
    ensures
        final(v)@.to_multiset() == old(v)@.to_multiset(),
{
    v.as_mut_slice().shuffle(rng)
}

/// Iteration count and escape-length factor of one attempt.
pub struct AnnealingParams {
    pub total_iterations: usize,
    pub multi_swap_factor: usize,
}

/// Best solution of one attempt and its cost breakdown.
pub struct SaResult {
    pub best_order: Vec<usize>,
    pub best_shifts: Vec<i8>,
    pub best_cost: i128,
    pub h_cost: i128,
    pub t_cost: i128,
    pub s_cost: i128,
}

/// A permutation stays one under any rearrangement with the same multiset.
proof fn lemma_permutation_multiset(a: Seq<usize>, b: Seq<usize>, n: nat)
    requires
        is_permutation(a, n),
        a.to_multiset() == b.to_multiset(),
    ensures
        is_permutation(b, n),
{
    broadcast use vstd::seq_lib::group_to_multiset_ensures;

    a.lemma_multiset_has_no_duplicates();
    assert(b.len() == b.to_multiset().len());
    assert(a.len() == a.to_multiset().len());
    assert forall|x: usize| b.to_multiset().contains(x) implies b.to_multiset().count(x) == 1 by {
        assert(a.to_multiset().contains(x));
    }
    b.lemma_multiset_has_no_duplicates_conv();
    assert forall|j: int| 0 <= j < b.len() implies (b[j] as int) < n by {
        assert(b.contains(b[j]));
        assert(a.to_multiset().count(b[j]) > 0);
        assert(a.contains(b[j]));
    }
}

/// The order `0..n`, shuffled.
fn random_order(rng: &mut ThreadRng, n: usize) -> (r: Vec<usize>)
    ensures
        is_permutation(r@, n as nat),
{
    let mut order: Vec<usize> = Vec::new();
    let mut i: usize = 0;
    while i < n
        invariant
            i <= n,
            order@.len() == i,
            forall|k: int| 0 <= k < i ==> order@[k] == k,
        decreases n - i,
    {
        order.push(i);
        i = i + 1;
    }
    assert(is_permutation(order@, n as nat));
    let ghost before = order@;
    shuffle_in_place(rng, &mut order);
    proof {
        lemma_permutation_multiset(before, order@, n as nat);
    }
    order
}

/// One shift per track, each drawn uniformly from {-1, 0, 1}.
fn random_shifts(rng: &mut ThreadRng, n: usize) -> (r: Vec<i8>)
    ensures
        r@.len() == n,
        valid_shifts(r@),
{
    let mut shifts: Vec<i8> = Vec::new();
    let mut i: usize = 0;
    while i < n
        invariant
            i <= n,
            shifts@.len() == i,
            valid_shifts(shifts@),
        decreases n - i,
    {
        let d = draw_below(rng, 3);
        shifts.push(d as i8 - 1);
        i = i + 1;
    }
    shifts
}

/// Copies `src` over `dst`, both of the same length.
fn copy_over<T: Copy>(dst: &mut Vec<T>, src: &Vec<T>)
    requires
        old(dst)@.len() == src@.len(),
    ensures
        final(dst)@ == src@,
{
    let mut i: usize = 0;
    while i < src.len()
        invariant
            dst@.len() == src@.len(),
            i <= src@.len(),
            forall|k: int| 0 <= k < i ==> dst@[k] == src@[k],
        decreases src@.len() - i,
    {
        dst.set(i, src[i]);
        i = i + 1;
    }
    assert(dst@ =~= src@);
}

/// How the objective changes when positions `a` and `b` are swapped and only
/// the two swapped tracks change their shifts: by the change over the affected
/// transitions `l`, and by the shift penalty of the two tracks.
proof fn lemma_swap_delta(
    m: Tables,
    o1: Seq<usize>,
    s1: Seq<i8>,
    o2: Seq<usize>,
    s2: Seq<i8>,
    l: Seq<usize>,
    a: usize,
    b: usize,
    n: usize,
)
    requires
        m.valid(),
        m.num_tracks() == n,
        is_permutation(o1, n as nat),
        a < n,
        b < n,
        a != b,
        o2 == o1.update(a as int, o1[b as int]).update(b as int, o1[a as int]),
        s1.len() == n,
        s2.len() == n,
        forall|t: int| 0 <= t < n && t != o1[a as int] && t != o1[b as int] ==> s2[t] == s1[t],
        l.no_duplicates(),
        forall|e: usize| #![trigger l.contains(e)] l.contains(e) <==> is_affected(a as int, b as int, n as int, e as int),
        forall|i: int| 0 <= i < l.len() ==> is_affected(a as int, b as int, n as int, l[i] as int),
    ensures
        m.path_cost(o2, s2) - m.path_cost(o1, s1) == (m.sum_steps(o2, s2, l, l.len() as int)
            - m.sum_steps(o1, s1, l, l.len() as int)) + m.params.shift_weight * (m.params.shift_penalty
            * (((if s2[o2[a as int] as int] != 0 { 1int } else { 0 }) + (if s2[o2[b as int] as int] != 0 { 1int } else { 0 }))
            - ((if s1[o1[a as int] as int] != 0 { 1int } else { 0 }) + (if s1[o1[b as int] as int] != 0 { 1int } else { 0 })))),
{
    let kk = n - 1;
    let d = |j: int| m.step(o2, s2, j) - m.step(o1, s1, j);
    assert forall|j: int| 0 <= j < kk && !l.contains(j as usize) implies #[trigger] d(j) == 0 by {
        assert(!is_affected(a as int, b as int, n as int, j));
        assert(o1[j] != o1[a as int] && o1[j] != o1[b as int]);
        assert(o1[j + 1] != o1[a as int] && o1[j + 1] != o1[b as int]);
    }
    lemma_sum_on_support(d, l, kk as int);
    lemma_sum_steps_diff(m, o1, s1, o2, s2, l, l.len() as int);
    lemma_sum_w_diff(m, o1, s1, o2, s2, kk as int);
    lemma_sum_w(m, o1, s1, kk as int);
    lemma_sum_w(m, o2, s2, kk as int);
    let dd = |j: int|
        (if s2[o2[j] as int] != 0 { 1int } else { 0 }) - (if s1[o1[j] as int] != 0 {
            1int
        } else {
            0
        });
    let ab = seq![a, b];
    assert forall|j: int| 0 <= j < n && !ab.contains(j as usize) implies #[trigger] dd(j) == 0 by {
        assert(j != a && j != b) by {
            if j == a {
                assert(ab[0] == a);
            }
            if j == b {
                assert(ab[1] == b);
            }
        }
        assert(o1[j] != o1[a as int] && o1[j] != o1[b as int]);
    }
    lemma_sum_on_support(dd, ab, n as int);
    lemma_shifted_diff(m, o1, s1, o2, s2, n as int);
    assert(ab[0] == a && ab[1] == b);
    assert(lsum(dd, ab, 0) == 0);
    assert(lsum(dd, ab, 1) == dd(a as int));
    assert(lsum(dd, ab, 2) == dd(a as int) + dd(b as int));
    let ws = m.params.shift_weight as int;
    let sp = m.params.shift_penalty as int;
    let c1 = m.shifted(o1, s1, n as int);
    let c2 = m.shifted(o2, s2, n as int);
    assert(ws * (sp * c2) - ws * (sp * c1) == ws * (sp * (c2 - c1))) by (nonlinear_arith);
}

/// Swaps positions `a` and `b`, re-optimises the shifts of both tracks, and
/// returns the change of the objective computed from the affected transitions
/// and the two tracks' shift penalties.
fn swap_and_reshift(
    order: &mut Vec<usize>,
    shifts: &mut Vec<i8>,
    a: usize,
    b: usize,
    n: usize,
    sp_weighted: i128,
    bpms: &[i32],
    key_ids: &[u8],
    shift_table: &[u8],
    direct_costs: &[i64],
    indirect_costs: &[i64],
    cost_params: &CostParams,
) -> (delta: i128)
    requires
        bpms@.len() == n,
        tables(bpms@, key_ids@, shift_table@, direct_costs@, indirect_costs@, *cost_params).valid(),
        is_permutation(old(order)@, n as nat),
        old(shifts)@.len() == n,
        valid_shifts(old(shifts)@),
        a < n,
        b < n,
        a != b,
        sp_weighted == cost_params.shift_weight * cost_params.shift_penalty,
        within(sp_weighted as int, 1073741824),
    ensures
        is_permutation(final(order)@, n as nat),
        final(order)@ == old(order)@.update(a as int, old(order)@[b as int]).update(
            b as int,
            old(order)@[a as int],
        ),
        final(shifts)@.len() == n,
        valid_shifts(final(shifts)@),
        delta == tables(bpms@, key_ids@, shift_table@, direct_costs@, indirect_costs@, *cost_params).path_cost(final(order)@, final(shifts)@)
            - tables(bpms@, key_ids@, shift_table@, direct_costs@, indirect_costs@, *cost_params).path_cost(old(order)@, old(shifts)@),
{
    let ghost m = tables(bpms@, key_ids@, shift_table@, direct_costs@, indirect_costs@, *cost_params);
    let ghost o1 = order@;
    let ghost s1 = shifts@;
    let mut edge_buf = [0usize; 4];
    let count = affected_edges(a, b, n, &mut edge_buf);
    let mut affected: Vec<usize> = Vec::new();
    let mut k: usize = 0;
    while k < count
        invariant
            k <= count,
            count <= 4,
            affected@ == edge_buf@.subrange(0, k as int),
            forall|i: int|
                0 <= i < count ==> is_affected(a as int, b as int, n as int, edge_buf@[i] as int),
        decreases count - k,
    {
        affected.push(edge_buf[k]);
        k = k + 1;
    }
    assert(affected@.len() == count);
    let ghost l = affected@;
    let old_edge_cost = sum_edge_costs(
        &affected,
        order,
        shifts,
        bpms,
        key_ids,
        shift_table,
        direct_costs,
        indirect_costs,
        cost_params,
    );
    let old_shift_a = shifts[order[a]];
    let old_shift_b = shifts[order[b]];
    let old_shift_count: i128 = (if old_shift_a != 0 { 1i128 } else { 0 }) + (if old_shift_b != 0 {
        1i128
    } else {
        0
    });
    let ta = order[a];
    let tb = order[b];
    order.set(a, tb);
    order.set(b, ta);
    assert(is_permutation(order@, n as nat)) by {
        assert forall|i: int, j: int|
            0 <= i < order@.len() && 0 <= j < order@.len() && i != j implies order@[i]
            != order@[j] by {}
    }
    let ghost o2 = order@;
    optimize_shift_at(
        order,
        shifts,
        a,
        bpms,
        key_ids,
        shift_table,
        direct_costs,
        indirect_costs,
        cost_params,
    );
    optimize_shift_at(
        order,
        shifts,
        b,
        bpms,
        key_ids,
        shift_table,
        direct_costs,
        indirect_costs,
        cost_params,
    );
    let new_edge_cost = sum_edge_costs(
        &affected,
        order,
        shifts,
        bpms,
        key_ids,
        shift_table,
        direct_costs,
        indirect_costs,
        cost_params,
    );
    let new_shift_a = shifts[order[a]];
    let new_shift_b = shifts[order[b]];
    let new_shift_count: i128 = (if new_shift_a != 0 { 1i128 } else { 0 }) + (if new_shift_b != 0 {
        1i128
    } else {
        0
    });
    let count_change = new_shift_count - old_shift_count;
    assert(within(sp_weighted * count_change, 2147483648)) by (nonlinear_arith)
        requires
            within(sp_weighted as int, 1073741824),
            within(count_change as int, 2),
    ;
    proof {
        lemma_swap_delta(m, o1, s1, o2, shifts@, l, a, b, n);
        let ws = cost_params.shift_weight as int;
        let sp = cost_params.shift_penalty as int;
        let c = count_change as int;
        assert(ws * (sp * c) == (ws * sp) * c) by (nonlinear_arith);
    }
    (new_edge_cost - old_edge_cost) + sp_weighted * count_change
}

/// One annealing attempt from a random order and random shifts.
///
/// Each iteration restarts from the incumbent unless the search is in escape
/// mode, swaps two random positions, re-optimises the shifts at both, and
/// prices the move by the affected transitions only. An improvement on the
/// incumbent is taken and ends escape mode; in escape mode any move is taken,
/// and the mode ends after more than `multi_swap_factor × n` such moves;
/// otherwise a worse move is taken, entering escape mode, when
/// `best_cost − candidate > margins[iteration]`. The caller draws the margins
/// (for Metropolis acceptance at temperature T and uniform u, the floor of
/// `T·ln u`, in cost units).
pub fn run_attempt(
    n: usize,
    bpms: &[i32],
    key_ids: &[u8],
    shift_table: &[u8],
    direct_costs: &[i64],
    indirect_costs: &[i64],
    cost_params: &CostParams,
    ann_params: &AnnealingParams,
    rng: &mut ThreadRng,
    margins: &[i128],
) -> (r: SaResult)
    requires
        n >= 2,
        bpms@.len() == n,
        tables(bpms@, key_ids@, shift_table@, direct_costs@, indirect_costs@, *cost_params).valid(),
        margins@.len() == ann_params.total_iterations,
    ensures
        is_permutation(r.best_order@, n as nat),
        r.best_shifts@.len() == n,
        valid_shifts(r.best_shifts@),
        ({
            let m = tables(bpms@, key_ids@, shift_table@, direct_costs@, indirect_costs@, *cost_params);
            &&& r.h_cost == m.path_h(r.best_order@, r.best_shifts@)
            &&& r.t_cost == m.path_t(r.best_order@, r.best_shifts@)
            &&& r.s_cost == m.path_s(r.best_order@, r.best_shifts@)
            &&& r.best_cost == m.path_cost(r.best_order@, r.best_shifts@)
        }),
{
    let ghost m = tables(bpms@, key_ids@, shift_table@, direct_costs@, indirect_costs@, *cost_params);
    let mut order = random_order(rng, n);
    let mut shifts = random_shifts(rng, n);
    let (h0, t0, s0) = total_edge_cost(
        &order,
        &shifts,
        bpms,
        key_ids,
        shift_table,
        direct_costs,
        indirect_costs,
        cost_params,
    );
    proof {
        lemma_path_cost_bound(m, order@, shifts@);
    }
    let mut best_cost: i128 = h0 + cost_params.tempo_cost_weight as i128 * t0
        + cost_params.shift_weight as i128 * s0;
    let mut best_order = order.clone();
    let mut best_shifts = shifts.clone();
    assert(best_order@ =~= order@);
    assert(best_shifts@ =~= shifts@);
    let mut h_best = h0;
    let mut t_best = t0;
    let mut s_best = s0;
    let mut current_cost = best_cost;
    assert(ann_params.multi_swap_factor as u128 * n as u128 <= 340282366920938463463374607431768211455)
        by (nonlinear_arith)
        requires
            ann_params.multi_swap_factor <= 18446744073709551615,
            n <= 18446744073709551615,
    ;
    let num_candidates: u128 = ann_params.multi_swap_factor as u128 * n as u128;
    let mut in_escape_mode = false;
    let mut escape_counter: u128 = 0;
    proof {
        lemma_factor_product(cost_params.shift_weight as int, cost_params.shift_penalty as int);
    }
    let sp_weighted: i128 = cost_params.shift_weight as i128 * cost_params.shift_penalty as i128;
    let mut it: usize = 0;
    while it < ann_params.total_iterations
        invariant
            n >= 2,
            bpms@.len() == n,
            m == tables(bpms@, key_ids@, shift_table@, direct_costs@, indirect_costs@, *cost_params),
            m.valid(),
            margins@.len() == ann_params.total_iterations,
            it <= ann_params.total_iterations,
            is_permutation(order@, n as nat),
            is_permutation(best_order@, n as nat),
            shifts@.len() == n,
            best_shifts@.len() == n,
            valid_shifts(shifts@),
            valid_shifts(best_shifts@),
            h_best == m.path_h(best_order@, best_shifts@),
            t_best == m.path_t(best_order@, best_shifts@),
            s_best == m.path_s(best_order@, best_shifts@),
            best_cost == m.path_cost(best_order@, best_shifts@),
            in_escape_mode ==> current_cost == m.path_cost(order@, shifts@),
            escape_counter <= it,
            within(sp_weighted as int, 1073741824),
            sp_weighted == cost_params.shift_weight * cost_params.shift_penalty,
        decreases ann_params.total_iterations - it,
    {
        if !in_escape_mode {
            copy_over(&mut order, &best_order);
            copy_over(&mut shifts, &best_shifts);
            current_cost = best_cost;
        }
        let a = draw_below(rng, n);
        let mut b = draw_below(rng, n - 1);
        if b >= a {
            b = b + 1;
        }
        let delta = swap_and_reshift(
            &mut order,
            &mut shifts,
            a,
            b,
            n,
            sp_weighted,
            bpms,
            key_ids,
            shift_table,
            direct_costs,
            indirect_costs,
            cost_params,
        );
        proof {
            lemma_path_cost_bound(m, order@, shifts@);
            lemma_path_cost_bound(m, best_order@, best_shifts@);
        }
        let candidate_cost = current_cost + delta;
        if candidate_cost < best_cost {
            copy_over(&mut best_order, &order);
            copy_over(&mut best_shifts, &shifts);
            best_cost = candidate_cost;
            current_cost = candidate_cost;
            in_escape_mode = false;
            let (h, t, s) = total_edge_cost(
                &best_order,
                &best_shifts,
                bpms,
                key_ids,
                shift_table,
                direct_costs,
                indirect_costs,
                cost_params,
            );
            h_best = h;
            t_best = t;
            s_best = s;
        } else if in_escape_mode {
            current_cost = candidate_cost;
            escape_counter = escape_counter + 1;
            if escape_counter > num_candidates {
                in_escape_mode = false;
                escape_counter = 0;
            }
        } else if best_cost - candidate_cost > margins[it] {
            in_escape_mode = true;
            escape_counter = 0;
            current_cost = candidate_cost;
        }
        it = it + 1;
    }
    SaResult {
        best_order,
        best_shifts,
        best_cost,
        h_cost: h_best,
        t_cost: t_best,
        s_cost: s_best,
    }
}

impl Tables {
    /// Twice the mean cost of the one or two transitions incident to position
    /// `pos` (kept doubled so that it stays an integer).
    pub open spec fn doubled_track_cost(self, order: Seq<usize>, shifts: Seq<i8>, pos: int) -> int {
        let n = order.len() as int;
        let before = if pos > 0 { self.step(order, shifts, pos - 1) } else { 0 };
        let after = if pos < n - 1 { self.step(order, shifts, pos) } else { 0 };
        if pos > 0 && pos < n - 1 {
            before + after
        } else if pos > 0 || pos < n - 1 {
            2 * (before + after)
        } else {
            0
        }
    }
}

/// Bound on a doubled per-track cost.
pub open spec fn track_cost_bound() -> int {
    8796093022208
}

/// For each track (indexed by track, not by position), twice the mean cost of
/// its incident transitions in `order`.
fn compute_per_track_costs(
    order: &Vec<usize>,
    shifts: &Vec<i8>,
    bpms: &[i32],
    key_ids: &[u8],
    shift_table: &[u8],
    direct_costs: &[i64],
    indirect_costs: &[i64],
    params: &CostParams,
) -> (r: Vec<i128>)
    requires
        tables(bpms@, key_ids@, shift_table@, direct_costs@, indirect_costs@, *params).valid(),
        is_permutation(order@, bpms@.len()),
        shifts@.len() == bpms@.len(),
        valid_shifts(shifts@),
    ensures
        r@.len() == order@.len(),
        forall|pos: int|
            0 <= pos < order@.len() ==> r@[order@[pos] as int] == tables(
                bpms@,
                key_ids@,
                shift_table@,
                direct_costs@,
                indirect_costs@,
                *params,
            ).doubled_track_cost(order@, shifts@, pos),
        forall|i: int| 0 <= i < r@.len() ==> within(r@[i] as int, track_cost_bound()),
{
    let ghost m = tables(bpms@, key_ids@, shift_table@, direct_costs@, indirect_costs@, *params);
    let n = order.len();
    let mut costs: Vec<i128> = vec![0i128; n];
    let mut pos: usize = 0;
    while pos < n
        invariant
            m == tables(bpms@, key_ids@, shift_table@, direct_costs@, indirect_costs@, *params),
            m.valid(),
            is_permutation(order@, bpms@.len()),
            shifts@.len() == bpms@.len(),
            valid_shifts(shifts@),
            n == order@.len(),
            costs@.len() == n,
            pos <= n,
            forall|p: int| 0 <= p < pos ==> costs@[order@[p] as int] == m.doubled_track_cost(order@, shifts@, p),
            forall|i: int| 0 <= i < n ==> within(costs@[i] as int, track_cost_bound()),
        decreases n - pos,
    {
        let mut one: Vec<usize> = Vec::new();
        let mut count: usize = 0;
        if pos > 0 {
            one.push(pos - 1);
            count = count + 1;
        }
        if pos < n - 1 {
            one.push(pos);
            count = count + 1;
        }
        let sum = sum_edge_costs(&one, order, shifts, bpms, key_ids, shift_table, direct_costs, indirect_costs, params);
        assert(m.sum_steps(order@, shifts@, one@, 1) == m.sum_steps(order@, shifts@, one@, 0) + m.step(order@, shifts@, one@[0] as int));
        let c: i128 = if count == 2 { sum } else if count == 1 { 2 * sum } else { 0 };
        let ghost before = costs@;
        costs.set(order[pos], c);
        assert forall|p: int| 0 <= p < pos + 1 implies costs@[order@[p] as int] == m.doubled_track_cost(order@, shifts@, p) by {
            if p < pos {
                assert(order@[p] != order@[pos as int]);
            }
        }
        pos = pos + 1;
    }
    costs
}

/// Per-track statistics over all attempts, indexed by track: the least and the
/// greatest doubled per-track cost of any attempt's best sequence, and their
/// sum over the attempts (the mean is `sum / attempts`).
pub struct PerTrackStats {
    pub min: Vec<i128>,
    pub max: Vec<i128>,
    pub sum: Vec<i128>,
    pub attempts: usize,
}

impl PerTrackStats {
    /// One entry per track, and for every track `min ≤ sum / attempts ≤ max`.
    pub open spec fn wf(&self, n: nat) -> bool {
        &&& self.min@.len() == n
        &&& self.max@.len() == n
        &&& self.sum@.len() == n
        &&& forall|i: int|
            0 <= i < n ==> #[trigger] self.min@[i] * self.attempts <= self.sum@[i] <= self.max@[i]
                * self.attempts
    }
}

/// State of a time-boxed series of attempts: the best attempt, every
/// attempt's breakdown `(cost, harmonic, tempo, shift)`, and running per-track
/// statistics. The clock is read by the caller between attempts.
pub struct TimedRun {
    pub n: usize,
    pub best: Option<SaResult>,
    pub attempt_costs: Vec<(i128, i128, i128, i128)>,
    pub track_min: Vec<i128>,
    pub track_max: Vec<i128>,
    pub track_sum: Vec<i128>,
}

impl TimedRun {
    pub open spec fn attempts(&self) -> nat {
        self.attempt_costs@.len()
    }

    pub open spec fn wf(&self) -> bool {
        &&& self.track_min@.len() == self.n
        &&& self.track_max@.len() == self.n
        &&& self.track_sum@.len() == self.n
        &&& (self.attempts() == 0) == (self.best is None)
        &&& self.best matches Some(b) ==> {
            &&& is_permutation(b.best_order@, self.n as nat)
            &&& b.best_shifts@.len() == self.n
            &&& valid_shifts(b.best_shifts@)
        }
        &&& forall|i: int|
            0 <= i < self.n ==> {
                &&& within(self.track_min@[i] as int, track_cost_bound())
                &&& within(self.track_max@[i] as int, track_cost_bound())
                &&& within(self.track_sum@[i] as int, self.attempts() * track_cost_bound())
                &&& #[trigger] self.track_min@[i] * self.attempts() <= self.track_sum@[i]
                &&& self.track_sum@[i] <= self.track_max@[i] * self.attempts()
            }
    }

    /// A run of `n` tracks with no attempt yet.
    pub fn new(n: usize) -> (r: TimedRun)
        ensures
            r.wf(),
            r.n == n,
            r.attempts() == 0,
    {
        TimedRun {
            n,
            best: None,
            attempt_costs: Vec::new(),
            track_min: vec![0i128; n],
            track_max: vec![0i128; n],
            track_sum: vec![0i128; n],
        }
    }

    /// Whether to stop before another attempt: never before the first one,
    /// and after it once the time budget is spent.
    pub fn should_stop(&self, budget_spent: bool) -> (r: bool)
        ensures
            r == (self.attempts() > 0 && budget_spent),
    {
        self.attempt_costs.len() > 0 && budget_spent
    }

    /// Takes in one finished attempt: its breakdown is appended, it becomes the
    /// best one if it is the first or strictly cheaper, and the per-track
    /// statistics take in its per-track costs.
    pub fn record(
        &mut self,
        result: SaResult,
        bpms: &[i32],
        key_ids: &[u8],
        shift_table: &[u8],
        direct_costs: &[i64],
        indirect_costs: &[i64],
        params: &CostParams,
    )
        requires
            old(self).wf(),
            old(self).attempts() < 18446744073709551615,
            bpms@.len() == old(self).n,
            tables(bpms@, key_ids@, shift_table@, direct_costs@, indirect_costs@, *params).valid(),
            is_permutation(result.best_order@, old(self).n as nat),
            result.best_shifts@.len() == old(self).n,
            valid_shifts(result.best_shifts@),
        ensures
            final(self).wf(),
            final(self).n == old(self).n,
            final(self).attempt_costs@ == old(self).attempt_costs@.push(
                (result.best_cost, result.h_cost, result.t_cost, result.s_cost),
            ),
            final(self).best matches Some(b) && (old(self).best matches Some(p) ==> (if result.best_cost < p.best_cost {
                b == result
            } else {
                b == p
            })) && (old(self).best is None ==> b == result),
    {
        let tc = compute_per_track_costs(
            &result.best_order,
            &result.best_shifts,
            bpms,
            key_ids,
            shift_table,
            direct_costs,
            indirect_costs,
            params,
        );
        let k = self.attempt_costs.len();
        let n = self.n;
        let mut i: usize = 0;
        while i < n
            invariant
                n == self.n,
                self.n == old(self).n,
                self.best == old(self).best,
                self.attempt_costs@ == old(self).attempt_costs@,
                tc@.len() == n,
                k == self.attempts(),
                k < 18446744073709551615,
                i <= n,
                self.track_min@.len() == n,
                self.track_max@.len() == n,
                self.track_sum@.len() == n,
                forall|j: int| 0 <= j < n ==> within(tc@[j] as int, track_cost_bound()),
                forall|j: int|
                    i <= j < n ==> {
                        &&& within(self.track_min@[j] as int, track_cost_bound())
                        &&& within(self.track_max@[j] as int, track_cost_bound())
                        &&& within(self.track_sum@[j] as int, k * track_cost_bound())
                        &&& #[trigger] self.track_min@[j] * k <= self.track_sum@[j]
                        &&& self.track_sum@[j] <= self.track_max@[j] * k
                    },
                forall|j: int|
                    0 <= j < i ==> {
                        &&& within(self.track_min@[j] as int, track_cost_bound())
                        &&& within(self.track_max@[j] as int, track_cost_bound())
                        &&& within(self.track_sum@[j] as int, (k + 1) * track_cost_bound())
                        &&& #[trigger] self.track_min@[j] * (k + 1) <= self.track_sum@[j]
                        &&& self.track_sum@[j] <= self.track_max@[j] * (k + 1)
                    },
            decreases n - i,
        {
            let c = tc[i];
            let lo = self.track_min[i];
            let hi = self.track_max[i];
            let sum = self.track_sum[i];
            let new_lo = if k == 0 || c < lo { c } else { lo };
            let new_hi = if k == 0 || c > hi { c } else { hi };
            let new_sum = sum + c;
            proof {
                let kk = k as int;
                assert(new_lo * (kk + 1) <= new_sum <= new_hi * (kk + 1)) by (nonlinear_arith)
                    requires
                        lo * kk <= sum <= hi * kk,
                        new_lo <= c <= new_hi,
                        kk == 0 ==> sum == 0,
                        kk > 0 ==> new_lo <= lo && hi <= new_hi,
                        kk >= 0,
                        new_sum == sum + c,
                ;
            }
            let ghost mn0 = self.track_min@;
            let ghost mx0 = self.track_max@;
            let ghost sm0 = self.track_sum@;
            self.track_min.set(i, new_lo);
            self.track_max.set(i, new_hi);
            self.track_sum.set(i, new_sum);
            proof {
                let kk = k as int;
                assert forall|j: int| i + 1 <= j < n implies {
                    &&& within(self.track_min@[j] as int, track_cost_bound())
                    &&& within(self.track_max@[j] as int, track_cost_bound())
                    &&& within(self.track_sum@[j] as int, kk * track_cost_bound())
                    &&& #[trigger] self.track_min@[j] * kk <= self.track_sum@[j]
                    &&& self.track_sum@[j] <= self.track_max@[j] * kk
                } by {
                    assert(mn0[j] * kk <= sm0[j]);
                }
                assert forall|j: int| 0 <= j < i + 1 implies {
                    &&& within(self.track_min@[j] as int, track_cost_bound())
                    &&& within(self.track_max@[j] as int, track_cost_bound())
                    &&& within(self.track_sum@[j] as int, (kk + 1) * track_cost_bound())
                    &&& #[trigger] self.track_min@[j] * (kk + 1) <= self.track_sum@[j]
                    &&& self.track_sum@[j] <= self.track_max@[j] * (kk + 1)
                } by {
                    if j < i {
                        assert(mn0[j] * (kk + 1) <= sm0[j]);
                    }
                }
            }
            i = i + 1;
        }
        self.attempt_costs.push((result.best_cost, result.h_cost, result.t_cost, result.s_cost));
        let replace = match &self.best {
            None => true,
            Some(prev) => result.best_cost < prev.best_cost,
        };
        if replace {
            self.best = Some(result);
        }
    }

    /// The best attempt, every attempt's breakdown and the per-track statistics.
    pub fn finish(self) -> (r: (SaResult, Vec<(i128, i128, i128, i128)>, PerTrackStats))
        requires
            self.wf(),
            self.attempts() > 0,
        ensures
            r.1@ == self.attempt_costs@,
            r.1@.len() >= 1,
            r.2.attempts == r.1@.len(),
            r.2.wf(self.n as nat),
            is_permutation(r.0.best_order@, self.n as nat),
            r.0.best_shifts@.len() == self.n,
            valid_shifts(r.0.best_shifts@),
            self.best == Some(r.0),
    {
        let attempts = self.attempt_costs.len();
        let stats = PerTrackStats {
            min: self.track_min,
            max: self.track_max,
            sum: self.track_sum,
            attempts,
        };
        match self.best {
            Some(b) => (b, self.attempt_costs, stats),
            None => {
                proof {
                    assert(false);
                }
                (SaResult {
                    best_order: Vec::new(),
                    best_shifts: Vec::new(),
                    best_cost: 0,
                    h_cost: 0,
                    t_cost: 0,
                    s_cost: 0,
                }, self.attempt_costs, stats)
            }
        }
    }
}

} // verus!
