//! Ordering of audio tracks into a low-cost mix: a cost model over flat
//! lookup tables, a simulated-annealing search, and an exact subset
//! dynamic program for small track counts. Costs are integers in the
//! caller's cost unit.

pub mod annealing;
pub mod cost;
pub mod held_karp;

use vstd::prelude::*;
use crate::cost::{is_permutation, tables, valid_shifts, within, CostParams, MAX_FACTOR, MAX_MAGNITUDE};

verus! {

/// Largest track count that the exact solver accepts.
pub const MAX_EXACT_TRACKS: usize = 20;

/// Why an entry point refused its input.
#[derive(Debug, PartialEq, Eq, Structural)]
pub enum EngineError {
    /// Fewer than two tracks.
    TooFewTracks,
    /// The exact solver was asked for more than `MAX_EXACT_TRACKS` tracks.
    UnsupportedSize,
    /// A table has the wrong shape, a value lies outside the key system, or a
    /// parameter lies outside the supported magnitudes.
    InvalidTables,
}

fn within_exec(x: i64, bound: i64) -> (r: bool)
    requires
        bound >= 0,
    ensures
        r == within(x as int, bound as int),
{
    -bound <= x && x <= bound
}

/// Whether the parameters and tables are valid for the cost model.
pub fn check_tables(
    bpms: &[i32],
    key_ids: &[u8],
    shift_table: &[u8],
    direct_costs: &[i64],
    indirect_costs: &[i64],
    params: &CostParams,
) -> (r: bool)
    ensures
        r == tables(bpms@, key_ids@, shift_table@, direct_costs@, indirect_costs@, *params).valid(),
{
    let ghost m = tables(bpms@, key_ids@, shift_table@, direct_costs@, indirect_costs@, *params);
    if !(within_exec(params.tempo_threshold, MAX_MAGNITUDE) && within_exec(params.tempo_penalty, MAX_MAGNITUDE)
        && within_exec(params.non_harmonic_cost, MAX_MAGNITUDE) && within_exec(params.shift_penalty, MAX_MAGNITUDE)
        && within_exec(params.tempo_break_factor, MAX_FACTOR) && within_exec(params.tempo_cost_weight, MAX_FACTOR)
        && within_exec(params.shift_weight, MAX_FACTOR) && 1 <= params.num_keys && params.num_keys <= 256) {
        return false;
    }
    let nk = params.num_keys;
    assert(nk * nk <= 65536) by (nonlinear_arith)
        requires
            nk <= 256,
    ;
    if key_ids.len() != bpms.len() || shift_table.len() != nk * 3 || direct_costs.len() != nk * nk
        || indirect_costs.len() != nk * nk {
        return false;
    }
    let mut i: usize = 0;
    while i < key_ids.len()
        invariant
            nk == params.num_keys,
            i <= key_ids@.len(),
            forall|k: int| 0 <= k < i ==> (key_ids@[k] as int) < nk,
        decreases key_ids@.len() - i,
    {
        if key_ids[i] as usize >= nk {
            return false;
        }
        i = i + 1;
    }
    let mut i: usize = 0;
    while i < shift_table.len()
        invariant
            nk == params.num_keys,
            i <= shift_table@.len(),
            forall|k: int| 0 <= k < i ==> (shift_table@[k] as int) < nk,
        decreases shift_table@.len() - i,
    {
        if shift_table[i] as usize >= nk {
            return false;
        }
        i = i + 1;
    }
    let mut i: usize = 0;
    while i < direct_costs.len()
        invariant
            i <= direct_costs@.len(),
            forall|k: int| 0 <= k < i ==> within(direct_costs@[k] as int, MAX_MAGNITUDE as int),
        decreases direct_costs@.len() - i,
    {
        if !within_exec(direct_costs[i], MAX_MAGNITUDE) {
            return false;
        }
        i = i + 1;
    }
    true
}

/// Input checks shared by both entry points, in order: at least two tracks,
/// then valid tables.
pub fn validate_input(
    bpms: &[i32],
    key_ids: &[u8],
    shift_table: &[u8],
    direct_costs: &[i64],
    indirect_costs: &[i64],
    params: &CostParams,
) -> (r: Result<(), EngineError>)
    ensures
        r == Ok::<(), EngineError>(()) <==> (bpms@.len() >= 2 && tables(bpms@, key_ids@, shift_table@, direct_costs@, indirect_costs@, *params).valid()),
        r == Err::<(), EngineError>(EngineError::TooFewTracks) <==> bpms@.len() < 2,
        r == Err::<(), EngineError>(EngineError::InvalidTables) <==> (bpms@.len() >= 2 && !tables(bpms@, key_ids@, shift_table@, direct_costs@, indirect_costs@, *params).valid()),
{
    if bpms.len() < 2 {
        return Err(EngineError::TooFewTracks);
    }
    if !check_tables(bpms, key_ids, shift_table, direct_costs, indirect_costs, params) {
        return Err(EngineError::InvalidTables);
    }
    Ok(())
}

/// Exact entry point: an optimal order, the shift of each track, the optimal
/// objective (no order of all tracks with any shifts costs less) and its
/// (harmonic, tempo, shift) breakdown.
pub fn optimize_mix_exact(
    bpms: &[i32],
    key_ids: &[u8],
    shift_table: &[u8],
    direct_costs: &[i64],
    indirect_costs: &[i64],
    params: &CostParams,
) -> (r: Result<(Vec<usize>, Vec<i8>, i64, (i128, i128, i128)), EngineError>)
    ensures
        (r is Err && r->Err_0 == EngineError::TooFewTracks) <==> bpms@.len() < 2,
        (r is Err && r->Err_0 == EngineError::UnsupportedSize) <==> (2 <= bpms@.len() && bpms@.len() > MAX_EXACT_TRACKS),
        (r is Err && r->Err_0 == EngineError::InvalidTables) <==> (2 <= bpms@.len() <= MAX_EXACT_TRACKS
            && !tables(bpms@, key_ids@, shift_table@, direct_costs@, indirect_costs@, *params).valid()),
        r is Ok ==> {
            let (order, shifts, cost, (h, t, s)) = r->Ok_0;
            let m = tables(bpms@, key_ids@, shift_table@, direct_costs@, indirect_costs@, *params);
            &&& is_permutation(order@, bpms@.len())
            &&& shifts@.len() == bpms@.len()
            &&& valid_shifts(shifts@)
            &&& h == m.path_h(order@, shifts@)
            &&& t == m.path_t(order@, shifts@)
            &&& s == m.path_s(order@, shifts@)
            &&& cost == m.path_cost(order@, shifts@)
            &&& forall|p: Seq<usize>, sh: Seq<i8>|
                held_karp::walk_ok(p, sh, bpms@.len() as int) ==> cost <= m.path_cost(p, sh)
        },
{
    let n = bpms.len();
    if n < 2 {
        return Err(EngineError::TooFewTracks);
    }
    if n > MAX_EXACT_TRACKS {
        return Err(EngineError::UnsupportedSize);
    }
    if !check_tables(bpms, key_ids, shift_table, direct_costs, indirect_costs, params) {
        return Err(EngineError::InvalidTables);
    }
    Ok(held_karp::run(n, bpms, key_ids, shift_table, direct_costs, indirect_costs, params))
}

} // verus!
