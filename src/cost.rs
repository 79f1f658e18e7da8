//! Transition cost between two tracks and cost of a whole sequence, all in
//! integer cost units.

use vstd::prelude::*;

verus! {

/// Largest magnitude accepted for a cost-table entry, a penalty or a tempo threshold.
pub const MAX_MAGNITUDE: i64 = 1048576;

/// Largest magnitude accepted for a weight or for the tempo-break factor.
pub const MAX_FACTOR: i64 = 1024;

/// Bound on the magnitude of the cost of one transition.
pub open spec fn edge_bound() -> int {
    2199023255552
}

/// The cost parameters of one invocation.
pub struct CostParams {
    pub tempo_threshold: i64,
    pub tempo_penalty: i64,
    pub tempo_break_factor: i64,
    pub tempo_cost_weight: i64,
    pub non_harmonic_cost: i64,
    pub shift_penalty: i64,
    pub shift_weight: i64,
    /// Size of the circular key system (24 for the Camelot wheel).
    pub num_keys: usize,
}

pub open spec fn within(x: int, bound: int) -> bool {
    -bound <= x <= bound
}

impl CostParams {
    /// Every magnitude is small enough for the arithmetic of this crate.
    pub open spec fn wf(&self) -> bool {
        &&& within(self.tempo_threshold as int, MAX_MAGNITUDE as int)
        &&& within(self.tempo_penalty as int, MAX_MAGNITUDE as int)
        &&& within(self.non_harmonic_cost as int, MAX_MAGNITUDE as int)
        &&& within(self.shift_penalty as int, MAX_MAGNITUDE as int)
        &&& within(self.tempo_break_factor as int, MAX_FACTOR as int)
        &&& within(self.tempo_cost_weight as int, MAX_FACTOR as int)
        &&& within(self.shift_weight as int, MAX_FACTOR as int)
        &&& 1 <= self.num_keys <= 256
    }

    /// The BPM gap above which a transition is a tempo break.
    pub open spec fn break_threshold(&self) -> int {
        self.tempo_break_factor * self.tempo_threshold
    }

    /// The weighted objective of a cost breakdown.
    pub open spec fn scalar(&self, h: int, t: int, s: int) -> int {
        h + self.tempo_cost_weight * t + self.shift_weight * s
    }

    pub fn tempo_break_threshold(&self) -> (r: i64)
        requires
            self.wf(),
        ensures
            r == self.break_threshold(),
    {
        proof {
            lemma_factor_product(self.tempo_break_factor as int, self.tempo_threshold as int);
        }
        self.tempo_break_factor * self.tempo_threshold
    }
}

pub proof fn lemma_factor_product(f: int, x: int)
    requires
        within(f, MAX_FACTOR as int),
        within(x, MAX_MAGNITUDE as int),
    ensures
        within(f * x, 1073741824),
{
    assert(within(f * x, 1073741824)) by (nonlinear_arith)
        requires
            within(f, 1024),
            within(x, 1048576),
    ;
}

/// The lookup tables and parameters that a cost is computed from.
pub struct Tables {
    pub bpms: Seq<i32>,
    pub key_ids: Seq<u8>,
    pub shift_table: Seq<u8>,
    pub direct: Seq<i64>,
    pub indirect: Seq<i64>,
    pub params: CostParams,
}

pub open spec fn tables(
    bpms: Seq<i32>,
    key_ids: Seq<u8>,
    shift_table: Seq<u8>,
    direct: Seq<i64>,
    indirect: Seq<i64>,
    params: CostParams,
) -> Tables {
    Tables { bpms, key_ids, shift_table, direct, indirect, params }
}

/// `order` lists each of the track indices `0..n` exactly once.
pub open spec fn is_permutation(order: Seq<usize>, n: nat) -> bool {
    &&& order.len() == n
    &&& order.no_duplicates()
    &&& forall|j: int| 0 <= j < order.len() ==> (order[j] as int) < n
}

/// Every entry is a shift in {-1, 0, 1}.
pub open spec fn valid_shifts(shifts: Seq<i8>) -> bool {
    forall|i: int| 0 <= i < shifts.len() ==> is_shift(shifts[i] as int)
}

pub open spec fn is_shift(s: int) -> bool {
    -1 <= s <= 1
}

impl Tables {
    pub open spec fn num_tracks(self) -> nat {
        self.bpms.len()
    }

    /// Table shapes and value ranges: one key per track, key ids and shift-table
    /// entries inside the key system, a `num_keys × 3` shift table and
    /// `num_keys × num_keys` cost tables.
    pub open spec fn valid(self) -> bool {
        let nk = self.params.num_keys as int;
        &&& self.params.wf()
        &&& self.key_ids.len() == self.bpms.len()
        &&& forall|i: int| 0 <= i < self.key_ids.len() ==> (self.key_ids[i] as int) < nk
        &&& self.shift_table.len() == nk * 3
        &&& forall|i: int| 0 <= i < self.shift_table.len() ==> (self.shift_table[i] as int) < nk
        &&& self.direct.len() == nk * nk
        &&& self.indirect.len() == nk * nk
        &&& forall|i: int|
            0 <= i < self.direct.len() ==> within(self.direct[i] as int, MAX_MAGNITUDE as int)
    }

    /// Absolute BPM difference of two tracks.
    pub open spec fn bpm_gap(self, i1: int, i2: int) -> int {
        let d = self.bpms[i1] - self.bpms[i2];
        if d < 0 { -d } else { d }
    }

    pub open spec fn is_tempo_break(self, i1: int, i2: int) -> bool {
        self.bpm_gap(i1, i2) > self.params.break_threshold()
    }

    /// The key of a track after applying a shift in {-1, 0, 1}.
    pub open spec fn effective_key(self, i: int, s: int) -> int {
        self.shift_table[self.key_ids[i] * 3 + s + 1] as int
    }

    pub open spec fn key_index(self, i1: int, i2: int, s1: int, s2: int) -> int {
        self.effective_key(i1, s1) * self.params.num_keys + self.effective_key(i2, s2)
    }

    /// Harmonic cost between effective keys: the direct cost, and twice the
    /// non-harmonic cost on top of it when both tables call the pair non-harmonic.
    pub open spec fn harmonic(self, i1: int, i2: int, s1: int, s2: int) -> int {
        let idx = self.key_index(i1, i2, s1, s2);
        let nh = self.params.non_harmonic_cost;
        let d = self.direct[idx];
        if d == nh && self.indirect[idx] >= nh {
            d + 2 * nh
        } else {
            d as int
        }
    }

    /// Harmonic component of a transition: nothing across a tempo break.
    pub open spec fn edge_h(self, i1: int, i2: int, s1: int, s2: int) -> int {
        if self.is_tempo_break(i1, i2) {
            0
        } else {
            self.harmonic(i1, i2, s1, s2)
        }
    }

    /// Unweighted tempo component of a transition.
    pub open spec fn edge_t(self, i1: int, i2: int) -> int {
        let p = self.params;
        if self.is_tempo_break(i1, i2) {
            p.tempo_penalty * p.tempo_break_factor
        } else if self.bpm_gap(i1, i2) > p.tempo_threshold {
            p.tempo_penalty as int
        } else {
            0
        }
    }

    /// Cost of the transition from track `i1` (shift `s1`) to track `i2` (shift `s2`).
    pub open spec fn edge(self, i1: int, i2: int, s1: int, s2: int) -> int {
        self.edge_h(i1, i2, s1, s2) + self.params.tempo_cost_weight * self.edge_t(i1, i2)
    }

    /// `order` lists track indices and `shifts` gives a shift in {-1, 0, 1} per track.
    pub open spec fn valid_path(self, order: Seq<usize>, shifts: Seq<i8>) -> bool {
        &&& shifts.len() == self.num_tracks()
        &&& forall|j: int| 0 <= j < order.len() ==> (order[j] as int) < self.num_tracks()
        &&& forall|i: int| 0 <= i < shifts.len() ==> is_shift(shifts[i] as int)
    }

    /// Cost of the transition from position `j` to position `j + 1` of `order`.
    pub open spec fn step(self, order: Seq<usize>, shifts: Seq<i8>, j: int) -> int {
        let a = order[j] as int;
        let b = order[j + 1] as int;
        self.edge(a, b, shifts[a] as int, shifts[b] as int)
    }

    pub open spec fn step_h(self, order: Seq<usize>, shifts: Seq<i8>, j: int) -> int {
        let a = order[j] as int;
        let b = order[j + 1] as int;
        self.edge_h(a, b, shifts[a] as int, shifts[b] as int)
    }

    pub open spec fn step_t(self, order: Seq<usize>, shifts: Seq<i8>, j: int) -> int {
        self.edge_t(order[j] as int, order[j + 1] as int)
    }

    /// Harmonic cost of the first `k` transitions of `order`.
    pub open spec fn sum_h(self, order: Seq<usize>, shifts: Seq<i8>, k: int) -> int
        decreases k,
    {
        if k <= 0 {
            0
        } else {
            self.sum_h(order, shifts, k - 1) + self.step_h(order, shifts, k - 1)
        }
    }

    /// Tempo cost of the first `k` transitions of `order`.
    pub open spec fn sum_t(self, order: Seq<usize>, shifts: Seq<i8>, k: int) -> int
        decreases k,
    {
        if k <= 0 {
            0
        } else {
            self.sum_t(order, shifts, k - 1) + self.step_t(order, shifts, k - 1)
        }
    }

    /// Number of tracks among the first `k` positions of `order` that carry a shift.
    pub open spec fn shifted(self, order: Seq<usize>, shifts: Seq<i8>, k: int) -> int
        decreases k,
    {
        if k <= 0 {
            0
        } else {
            self.shifted(order, shifts, k - 1) + if shifts[order[k - 1] as int] != 0 {
                1int
            } else {
                0
            }
        }
    }

    pub open spec fn num_steps(order: Seq<usize>) -> int {
        if order.len() == 0 { 0 } else { order.len() - 1 }
    }

    /// Harmonic component of the whole sequence.
    pub open spec fn path_h(self, order: Seq<usize>, shifts: Seq<i8>) -> int {
        self.sum_h(order, shifts, Self::num_steps(order))
    }

    /// Tempo component of the whole sequence.
    pub open spec fn path_t(self, order: Seq<usize>, shifts: Seq<i8>) -> int {
        self.sum_t(order, shifts, Self::num_steps(order))
    }

    /// Shift component of the whole sequence.
    pub open spec fn path_s(self, order: Seq<usize>, shifts: Seq<i8>) -> int {
        self.params.shift_penalty * self.shifted(order, shifts, order.len() as int)
    }

    /// The weighted objective of the whole sequence.
    pub open spec fn path_cost(self, order: Seq<usize>, shifts: Seq<i8>) -> int {
        self.params.scalar(
            self.path_h(order, shifts),
            self.path_t(order, shifts),
            self.path_s(order, shifts),
        )
    }
}

/// Bounds on the components of one transition.
pub proof fn lemma_edge_bounds(m: Tables, i1: int, i2: int, s1: int, s2: int)
    requires
        m.valid(),
        0 <= i1 < m.num_tracks(),
        0 <= i2 < m.num_tracks(),
        is_shift(s1),
        is_shift(s2),
    ensures
        within(m.edge_h(i1, i2, s1, s2), 3 * MAX_MAGNITUDE),
        within(m.edge_t(i1, i2), 1073741824),
        within(m.edge(i1, i2, s1, s2), edge_bound()),
        0 <= m.key_index(i1, i2, s1, s2) < m.direct.len(),
{
    let p = m.params;
    lemma_key_index(m, i1, i2, s1, s2);
    lemma_factor_product(p.tempo_break_factor as int, p.tempo_penalty as int);
    let t = m.edge_t(i1, i2);
    let w = p.tempo_cost_weight as int;
    assert(within(w * t, 1099511627776)) by (nonlinear_arith)
        requires
            within(w, 1024),
            within(t, 1073741824),
    ;
}

proof fn lemma_key_index(m: Tables, i1: int, i2: int, s1: int, s2: int)
    requires
        m.valid(),
        0 <= i1 < m.num_tracks(),
        0 <= i2 < m.num_tracks(),
        is_shift(s1),
        is_shift(s2),
    ensures
        0 <= m.key_index(i1, i2, s1, s2) < m.direct.len(),
        0 <= m.effective_key(i1, s1) < m.params.num_keys,
        0 <= m.effective_key(i2, s2) < m.params.num_keys,
{
    let nk = m.params.num_keys as int;
    let k1 = m.key_ids[i1] as int;
    let k2 = m.key_ids[i2] as int;
    assert(0 <= k1 * 3 + s1 + 1 < nk * 3) by (nonlinear_arith)
        requires
            0 <= k1 < nk,
            is_shift(s1),
    ;
    assert(0 <= k2 * 3 + s2 + 1 < nk * 3) by (nonlinear_arith)
        requires
            0 <= k2 < nk,
            is_shift(s2),
    ;
    let e1 = m.effective_key(i1, s1);
    let e2 = m.effective_key(i2, s2);
    assert(0 <= e1 * nk + e2 < nk * nk) by (nonlinear_arith)
        requires
            0 <= e1 < nk,
            0 <= e2 < nk,
    ;
}

/// Cost of the transition from track `i1` with shift `s1` to track `i2` with shift `s2`.
pub fn edge_cost(
    i1: usize,
    i2: usize,
    s1: i8,
    s2: i8,
    bpms: &[i32],
    key_ids: &[u8],
    shift_table: &[u8],
    direct_costs: &[i64],
    indirect_costs: &[i64],
    params: &CostParams,
) -> (r: i64)
    requires
        tables(bpms@, key_ids@, shift_table@, direct_costs@, indirect_costs@, *params).valid(),
        i1 < bpms@.len(),
        i2 < bpms@.len(),
        is_shift(s1 as int),
        is_shift(s2 as int),
    ensures
        r == tables(bpms@, key_ids@, shift_table@, direct_costs@, indirect_costs@, *params).edge(
            i1 as int,
            i2 as int,
            s1 as int,
            s2 as int,
        ),
        within(r as int, edge_bound()),
{
    let ghost m = tables(bpms@, key_ids@, shift_table@, direct_costs@, indirect_costs@, *params);
    proof {
        lemma_edge_bounds(m, i1 as int, i2 as int, s1 as int, s2 as int);
        lemma_key_index(m, i1 as int, i2 as int, s1 as int, s2 as int);
        lemma_factor_product(params.tempo_break_factor as int, params.tempo_penalty as int);
    }
    let d: i64 = bpms[i1] as i64 - bpms[i2] as i64;
    let diff: i64 = if d < 0 { -d } else { d };
    let break_thresh = params.tempo_break_threshold();
    if diff > break_thresh {
        return params.tempo_cost_weight * (params.tempo_penalty * params.tempo_break_factor);
    }
    let ek1 = shift_table[key_ids[i1] as usize * 3 + (s1 + 1) as usize] as usize;
    let ek2 = shift_table[key_ids[i2] as usize * 3 + (s2 + 1) as usize] as usize;
    assert(ek1 as int == m.effective_key(i1 as int, s1 as int));
    assert(ek2 as int == m.effective_key(i2 as int, s2 as int));
    assert(ek1 * params.num_keys + ek2 == m.key_index(i1 as int, i2 as int, s1 as int, s2 as int));
    assert(ek1 * params.num_keys <= 65536) by (nonlinear_arith)
        requires
            ek1 < 256,
            params.num_keys <= 256,
    ;
    let idx = ek1 * params.num_keys + ek2;
    let direct = direct_costs[idx];
    let nh = params.non_harmonic_cost;
    let h_cost = if direct == nh && indirect_costs[idx] >= nh {
        direct + 2 * nh
    } else {
        direct
    };
    let t_cost: i64 = if diff > params.tempo_threshold { params.tempo_penalty } else { 0 };
    h_cost + params.tempo_cost_weight * t_cost
}


/// Harmonic and unweighted tempo components of one transition.
fn edge_components(
    i1: usize,
    i2: usize,
    s1: i8,
    s2: i8,
    bpms: &[i32],
    key_ids: &[u8],
    shift_table: &[u8],
    direct_costs: &[i64],
    indirect_costs: &[i64],
    params: &CostParams,
) -> (r: (i64, i64))
    requires
        tables(bpms@, key_ids@, shift_table@, direct_costs@, indirect_costs@, *params).valid(),
        i1 < bpms@.len(),
        i2 < bpms@.len(),
        is_shift(s1 as int),
        is_shift(s2 as int),
    ensures
        r.0 == tables(bpms@, key_ids@, shift_table@, direct_costs@, indirect_costs@, *params).edge_h(
            i1 as int,
            i2 as int,
            s1 as int,
            s2 as int,
        ),
        r.1 == tables(bpms@, key_ids@, shift_table@, direct_costs@, indirect_costs@, *params).edge_t(
            i1 as int,
            i2 as int,
        ),
{
    let ghost m = tables(bpms@, key_ids@, shift_table@, direct_costs@, indirect_costs@, *params);
    proof {
        lemma_edge_bounds(m, i1 as int, i2 as int, s1 as int, s2 as int);
        lemma_key_index(m, i1 as int, i2 as int, s1 as int, s2 as int);
        lemma_factor_product(params.tempo_break_factor as int, params.tempo_penalty as int);
    }
    let d: i64 = bpms[i1] as i64 - bpms[i2] as i64;
    let diff: i64 = if d < 0 { -d } else { d };
    if diff > params.tempo_break_threshold() {
        return (0, params.tempo_penalty * params.tempo_break_factor);
    }
    let ek1 = shift_table[key_ids[i1] as usize * 3 + (s1 + 1) as usize] as usize;
    let ek2 = shift_table[key_ids[i2] as usize * 3 + (s2 + 1) as usize] as usize;
    assert(ek1 as int == m.effective_key(i1 as int, s1 as int));
    assert(ek2 as int == m.effective_key(i2 as int, s2 as int));
    assert(ek1 * params.num_keys <= 65536) by (nonlinear_arith)
        requires
            ek1 < 256,
            params.num_keys <= 256,
    ;
    let idx = ek1 * params.num_keys + ek2;
    let direct = direct_costs[idx];
    let nh = params.non_harmonic_cost;
    let h = if direct == nh && indirect_costs[idx] >= nh {
        direct + 2 * nh
    } else {
        direct
    };
    let t: i64 = if diff > params.tempo_threshold { params.tempo_penalty } else { 0 };
    (h, t)
}

impl Tables {
    /// Cost of the transitions at the first `k` entries of `positions`.
    pub open spec fn sum_steps(
        self,
        order: Seq<usize>,
        shifts: Seq<i8>,
        positions: Seq<usize>,
        k: int,
    ) -> int
        decreases k,
    {
        if k <= 0 {
            0
        } else {
            self.sum_steps(order, shifts, positions, k - 1) + self.step(
                order,
                shifts,
                positions[k - 1] as int,
            )
        }
    }

    /// Cost of the one or two transitions around position `pos` when the track
    /// there carries shift `s` and its neighbours keep theirs.
    pub open spec fn local_cost(self, order: Seq<usize>, shifts: Seq<i8>, pos: int, s: int) -> int {
        let i = order[pos] as int;
        let before = if pos > 0 {
            let p = order[pos - 1] as int;
            self.edge(p, i, shifts[p] as int, s)
        } else {
            0
        };
        let after = if pos < order.len() - 1 {
            let q = order[pos + 1] as int;
            self.edge(i, q, s, shifts[q] as int)
        } else {
            0
        };
        before + after
    }
}

/// Bounds on the partial sums of a valid path.
pub proof fn lemma_sum_bounds(m: Tables, order: Seq<usize>, shifts: Seq<i8>, k: int)
    requires
        m.valid(),
        m.valid_path(order, shifts),
        0 <= k <= Tables::num_steps(order),
    ensures
        within(m.sum_h(order, shifts, k), k * 3145728),
        within(m.sum_t(order, shifts, k), k * 1073741824),
    decreases k,
{
    if k > 0 {
        lemma_sum_bounds(m, order, shifts, k - 1);
        let a = order[k - 1] as int;
        let b = order[k] as int;
        lemma_edge_bounds(m, a, b, shifts[a] as int, shifts[b] as int);
    }
}

pub proof fn lemma_shifted_bounds(m: Tables, order: Seq<usize>, shifts: Seq<i8>, k: int)
    requires
        0 <= k,
    ensures
        0 <= m.shifted(order, shifts, k) <= k,
    decreases k,
{
    if k > 0 {
        lemma_shifted_bounds(m, order, shifts, k - 1);
    }
}

/// Full scan of a sequence: its harmonic, tempo and shift components.
pub fn total_edge_cost(
    order: &[usize],
    shifts: &[i8],
    bpms: &[i32],
    key_ids: &[u8],
    shift_table: &[u8],
    direct_costs: &[i64],
    indirect_costs: &[i64],
    params: &CostParams,
) -> (r: (i128, i128, i128))
    requires
        tables(bpms@, key_ids@, shift_table@, direct_costs@, indirect_costs@, *params).valid(),
        tables(bpms@, key_ids@, shift_table@, direct_costs@, indirect_costs@, *params).valid_path(
            order@,
            shifts@,
        ),
    ensures
        r.0 == tables(bpms@, key_ids@, shift_table@, direct_costs@, indirect_costs@, *params).path_h(
            order@,
            shifts@,
        ),
        r.1 == tables(bpms@, key_ids@, shift_table@, direct_costs@, indirect_costs@, *params).path_t(
            order@,
            shifts@,
        ),
        r.2 == tables(bpms@, key_ids@, shift_table@, direct_costs@, indirect_costs@, *params).path_s(
            order@,
            shifts@,
        ),
{
    let ghost m = tables(bpms@, key_ids@, shift_table@, direct_costs@, indirect_costs@, *params);
    let n = order.len();
    let steps: usize = if n == 0 { 0 } else { n - 1 };
    let mut h_total: i128 = 0;
    let mut t_total: i128 = 0;
    let mut j: usize = 0;
    while j < steps
        invariant
            m == tables(bpms@, key_ids@, shift_table@, direct_costs@, indirect_costs@, *params),
            m.valid(),
            m.valid_path(order@, shifts@),
            n == order@.len(),
            steps == Tables::num_steps(order@),
            j <= steps,
            h_total == m.sum_h(order@, shifts@, j as int),
            t_total == m.sum_t(order@, shifts@, j as int),
        decreases steps - j,
    {
        proof {
            lemma_sum_bounds(m, order@, shifts@, j as int + 1);
        }
        let i1 = order[j];
        let i2 = order[j + 1];
        assert((i1 as int) < m.num_tracks() && (i2 as int) < m.num_tracks());
        assert(is_shift(shifts@[i1 as int] as int) && is_shift(shifts@[i2 as int] as int));
        let (h, t) = edge_components(
            i1,
            i2,
            shifts[i1],
            shifts[i2],
            bpms,
            key_ids,
            shift_table,
            direct_costs,
            indirect_costs,
            params,
        );
        h_total = h_total + h as i128;
        t_total = t_total + t as i128;
        j = j + 1;
    }
    let mut count: i128 = 0;
    let mut k: usize = 0;
    while k < n
        invariant
            m == tables(bpms@, key_ids@, shift_table@, direct_costs@, indirect_costs@, *params),
            m.valid_path(order@, shifts@),
            n == order@.len(),
            k <= n,
            count == m.shifted(order@, shifts@, k as int),
            count <= k,
        decreases n - k,
    {
        proof {
            lemma_shifted_bounds(m, order@, shifts@, k as int);
        }
        if shifts[order[k]] != 0 {
            count = count + 1;
        }
        k = k + 1;
    }
    proof {
        lemma_shifted_bounds(m, order@, shifts@, n as int);
        let sp = params.shift_penalty as int;
        assert(within(sp * count, 1048576 * n)) by (nonlinear_arith)
            requires
                within(sp, 1048576),
                0 <= count <= n,
        ;
    }
    (h_total, t_total, params.shift_penalty as i128 * count)
}

/// Whether edge position `j` (the transition from position `j` to `j + 1`) touches
/// position `a` or position `b` of a sequence of length `n`.
pub open spec fn is_affected(a: int, b: int, n: int, j: int) -> bool {
    &&& 0 <= j < n - 1
    &&& (j + 1 == a || j == a || j + 1 == b || j == b)
}

/// The edge positions whose cost can change when positions `a` and `b` are
/// swapped: written without repetition to the front of `out`, their number returned.
pub fn affected_edges(a: usize, b: usize, n: usize, out: &mut [usize; 4]) -> (count: usize)
    requires
        a < n,
        b < n,
    ensures
        count <= 4,
        final(out)@.subrange(0, count as int).no_duplicates(),
        forall|e: usize|
            #![trigger final(out)@.subrange(0, count as int).contains(e)]
            final(out)@.subrange(0, count as int).contains(e) <==> is_affected(
                a as int,
                b as int,
                n as int,
                e as int,
            ),
        forall|i: int|
            0 <= i < count ==> is_affected(a as int, b as int, n as int, final(out)@[i] as int),
{
    let ghost o0 = out@;
    let mut count: usize = 0;
    assert(out@.subrange(0, 0) =~= Seq::<usize>::empty());
    if a > 0 {
        count = push_unique(out, count, a - 1);
    }
    if a < n - 1 {
        count = push_unique(out, count, a);
    }
    if b > 0 {
        count = push_unique(out, count, b - 1);
    }
    if b < n - 1 {
        count = push_unique(out, count, b);
    }
    proof {
        let s = out@.subrange(0, count as int);
        assert forall|e: usize|
            #![trigger s.contains(e)]
            s.contains(e) <==> is_affected(a as int, b as int, n as int, e as int) by {}
        assert forall|i: int|
            0 <= i < count implies is_affected(a as int, b as int, n as int, out@[i] as int) by {
            assert(s[i] == out@[i]);
            assert(s.contains(out@[i]));
        }
    }
    count
}

/// Appends `x` to the first `count` entries of `buf` unless it is already there.
fn push_unique(buf: &mut [usize; 4], count: usize, x: usize) -> (c: usize)
    requires
        count < 4,
        old(buf)@.subrange(0, count as int).no_duplicates(),
    ensures
        count <= c <= count + 1,
        final(buf)@.subrange(0, c as int).no_duplicates(),
        forall|y: usize|
            final(buf)@.subrange(0, c as int).contains(y) <==> (old(buf)@.subrange(
                0,
                count as int,
            ).contains(y) || y == x),
{
    let ghost before = buf@.subrange(0, count as int);
    let mut i: usize = 0;
    let mut found = false;
    while i < count
        invariant
            count < 4,
            i <= count,
            before == buf@.subrange(0, count as int),
            found ==> before.contains(x),
            !found ==> forall|i2: int| 0 <= i2 < i ==> buf@[i2] != x,
        decreases count - i,
    {
        if buf[i] == x {
            assert(before[i as int] == x);
            found = true;
        }
        i = i + 1;
    }
    if found {
        return count;
    }
    buf[count] = x;
    assert(buf@.subrange(0, count + 1) =~= before.push(x));
    proof {
        assert forall|y: usize| before.contains(y) implies y != x by {
            let k = choose|k: int| 0 <= k < before.len() && before[k] == y;
            assert(buf@[k] == y);
        }
        let after = before.push(x);
        assert forall|y: usize| after.contains(y) <==> (before.contains(y) || y == x) by {
            if y == x {
                assert(after[count as int] == x);
            }
            if before.contains(y) {
                let k = choose|k: int| 0 <= k < before.len() && before[k] == y;
                assert(after[k] == y);
            }
            if after.contains(y) {
                let k = choose|k: int| 0 <= k < after.len() && after[k] == y;
                if k < count {
                    assert(before[k] == y);
                }
            }
        }
    }
    count + 1
}


/// Sum of the transition costs at the given edge positions.
pub fn sum_edge_costs(
    edge_positions: &[usize],
    order: &[usize],
    shifts: &[i8],
    bpms: &[i32],
    key_ids: &[u8],
    shift_table: &[u8],
    direct_costs: &[i64],
    indirect_costs: &[i64],
    params: &CostParams,
) -> (r: i128)
    requires
        tables(bpms@, key_ids@, shift_table@, direct_costs@, indirect_costs@, *params).valid(),
        tables(bpms@, key_ids@, shift_table@, direct_costs@, indirect_costs@, *params).valid_path(
            order@,
            shifts@,
        ),
        forall|i: int|
            0 <= i < edge_positions@.len() ==> edge_positions@[i] + 1 < order@.len(),
    ensures
        r == tables(
            bpms@,
            key_ids@,
            shift_table@,
            direct_costs@,
            indirect_costs@,
            *params,
        ).sum_steps(order@, shifts@, edge_positions@, edge_positions@.len() as int),
        within(r as int, edge_positions@.len() as int * 2199023255552),
{
    let ghost m = tables(bpms@, key_ids@, shift_table@, direct_costs@, indirect_costs@, *params);
    let mut total: i128 = 0;
    let mut k: usize = 0;
    while k < edge_positions.len()
        invariant
            m == tables(bpms@, key_ids@, shift_table@, direct_costs@, indirect_costs@, *params),
            m.valid(),
            m.valid_path(order@, shifts@),
            forall|i: int|
                0 <= i < edge_positions@.len() ==> edge_positions@[i] + 1 < order@.len(),
            k <= edge_positions@.len(),
            total == m.sum_steps(order@, shifts@, edge_positions@, k as int),
            within(total as int, k * 2199023255552),
        decreases edge_positions@.len() - k,
    {
        let j = edge_positions[k];
        let i1 = order[j];
        let i2 = order[j + 1];
        assert((i1 as int) < m.num_tracks() && (i2 as int) < m.num_tracks());
        assert(is_shift(shifts@[i1 as int] as int) && is_shift(shifts@[i2 as int] as int));
        let c = edge_cost(
            i1,
            i2,
            shifts[i1],
            shifts[i2],
            bpms,
            key_ids,
            shift_table,
            direct_costs,
            indirect_costs,
            params,
        );
        total = total + c as i128;
        k = k + 1;
    }
    total
}

/// Cost around position `pos` with shift `s` for the track there.
fn local_cost(
    order: &[usize],
    shifts: &Vec<i8>,
    pos: usize,
    s: i8,
    bpms: &[i32],
    key_ids: &[u8],
    shift_table: &[u8],
    direct_costs: &[i64],
    indirect_costs: &[i64],
    params: &CostParams,
) -> (r: i128)
    requires
        tables(bpms@, key_ids@, shift_table@, direct_costs@, indirect_costs@, *params).valid(),
        tables(bpms@, key_ids@, shift_table@, direct_costs@, indirect_costs@, *params).valid_path(
            order@,
            shifts@,
        ),
        pos < order@.len(),
        is_shift(s as int),
    ensures
        r == tables(
            bpms@,
            key_ids@,
            shift_table@,
            direct_costs@,
            indirect_costs@,
            *params,
        ).local_cost(order@, shifts@, pos as int, s as int),
{
    let ghost m = tables(bpms@, key_ids@, shift_table@, direct_costs@, indirect_costs@, *params);
    let i = order[pos];
    let n = order.len();
    let mut c: i128 = 0;
    if pos > 0 {
        let p = order[pos - 1];
        assert(is_shift(shifts@[p as int] as int));
        c = edge_cost(
            p,
            i,
            shifts[p],
            s,
            bpms,
            key_ids,
            shift_table,
            direct_costs,
            indirect_costs,
            params,
        ) as i128;
    }
    if pos < n - 1 {
        let q = order[pos + 1];
        assert(is_shift(shifts@[q as int] as int));
        c = c + edge_cost(
            i,
            q,
            s,
            shifts[q],
            bpms,
            key_ids,
            shift_table,
            direct_costs,
            indirect_costs,
            params,
        ) as i128;
    }
    c
}

/// One coordinate-descent step: gives the track at position `pos` the shift in
/// {-1, 0, 1} that minimises the cost of its incident transitions, the
/// neighbours' shifts held fixed. The current shift stays unless another is
/// strictly cheaper; among strictly cheaper ones the first of -1, 0, 1 wins.
pub fn optimize_shift_at(
    order: &[usize],
    shifts: &mut Vec<i8>,
    pos: usize,
    bpms: &[i32],
    key_ids: &[u8],
    shift_table: &[u8],
    direct_costs: &[i64],
    indirect_costs: &[i64],
    params: &CostParams,
)
    requires
        tables(bpms@, key_ids@, shift_table@, direct_costs@, indirect_costs@, *params).valid(),
        tables(bpms@, key_ids@, shift_table@, direct_costs@, indirect_costs@, *params).valid_path(
            order@,
            old(shifts)@,
        ),
        pos < order@.len(),
    ensures
        ({
            let m = tables(bpms@, key_ids@, shift_table@, direct_costs@, indirect_costs@, *params);
            let i = order@[pos as int] as int;
            let cur = old(shifts)@[i] as int;
            let new = final(shifts)@[i] as int;
            let o = old(shifts)@;
            let p = pos as int;
            &&& final(shifts)@ == o.update(i, new as i8)
            &&& is_shift(new)
            &&& forall|s: int|
                is_shift(s) ==> m.local_cost(order@, o, p, new) <= #[trigger] m.local_cost(
                    order@,
                    o,
                    p,
                    s,
                )
            &&& (forall|s: int|
                is_shift(s) ==> m.local_cost(order@, o, p, cur) <= #[trigger] m.local_cost(
                    order@,
                    o,
                    p,
                    s,
                )) ==> new == cur
            &&& new != cur ==> forall|s: int|
                -1 <= s < new ==> #[trigger] m.local_cost(order@, o, p, s) > m.local_cost(
                    order@,
                    o,
                    p,
                    new,
                )
        }),
{
    let ghost m = tables(bpms@, key_ids@, shift_table@, direct_costs@, indirect_costs@, *params);
    let i = order[pos];
    let cur = shifts[i];
    let c_cur = local_cost(order, shifts, pos, cur, bpms, key_ids, shift_table, direct_costs, indirect_costs, params);
    let c_minus = local_cost(order, shifts, pos, -1, bpms, key_ids, shift_table, direct_costs, indirect_costs, params);
    let c_zero = local_cost(order, shifts, pos, 0, bpms, key_ids, shift_table, direct_costs, indirect_costs, params);
    let c_plus = local_cost(order, shifts, pos, 1, bpms, key_ids, shift_table, direct_costs, indirect_costs, params);
    let mut best_s = cur;
    let mut best_cost = c_cur;
    if c_minus < best_cost {
        best_cost = c_minus;
        best_s = -1;
    }
    if c_zero < best_cost {
        best_cost = c_zero;
        best_s = 0;
    }
    if c_plus < best_cost {
        best_cost = c_plus;
        best_s = 1;
    }
    shifts.set(i, best_s);
}

/// Bound on the weighted objective of any valid sequence of `n` tracks.
pub open spec fn cost_bound(n: int) -> int {
    n * 2199023255552
}

pub proof fn lemma_path_cost_bound(m: Tables, order: Seq<usize>, shifts: Seq<i8>)
    requires
        m.valid(),
        m.valid_path(order, shifts),
    ensures
        within(m.path_cost(order, shifts), cost_bound(order.len() as int)),
        within(m.path_h(order, shifts), order.len() as int * 3145728),
        within(
            m.params.tempo_cost_weight * m.path_t(order, shifts),
            order.len() as int * 1099511627776,
        ),
        within(m.params.shift_weight * m.path_s(order, shifts), order.len() as int * 1073741824),
{
    let k = Tables::num_steps(order);
    lemma_sum_bounds(m, order, shifts, k);
    lemma_shifted_bounds(m, order, shifts, order.len() as int);
    let n = order.len() as int;
    let p = m.params;
    let h = m.path_h(order, shifts);
    let t = m.path_t(order, shifts);
    let c = m.shifted(order, shifts, n);
    let wt = p.tempo_cost_weight as int;
    let ws = p.shift_weight as int;
    let sp = p.shift_penalty as int;
    assert(within(wt * t, n * 1099511627776)) by (nonlinear_arith)
        requires
            within(wt, 1024),
            within(t, k * 1073741824),
            0 <= k <= n,
    ;
    assert(within(ws * (sp * c), n * 1073741824)) by (nonlinear_arith)
        requires
            within(ws, 1024),
            within(sp, 1048576),
            0 <= c <= n,
    ;
    assert(within(h, n * 3145728)) by (nonlinear_arith)
        requires
            within(h, k * 3145728),
            0 <= k <= n,
    ;
}

/// Sum of `d` over `0..k`.
pub open spec fn psum(d: spec_fn(int) -> int, k: int) -> int
    decreases k,
{
    if k <= 0 {
        0
    } else {
        psum(d, k - 1) + d(k - 1)
    }
}

/// Sum of `d` over the first `k` entries of `l`.
pub open spec fn lsum(d: spec_fn(int) -> int, l: Seq<usize>, k: int) -> int
    decreases k,
{
    if k <= 0 {
        0
    } else {
        lsum(d, l, k - 1) + d(l[k - 1] as int)
    }
}

proof fn lemma_psum_zero(d: spec_fn(int) -> int, k: int)
    requires
        forall|j: int| 0 <= j < k ==> #[trigger] d(j) == 0,
    ensures
        psum(d, k) == 0,
    decreases k,
{
    if k > 0 {
        lemma_psum_zero(d, k - 1);
    }
}

proof fn lemma_psum_point(d: spec_fn(int) -> int, x: int, k: int)
    requires
        0 <= x,
    ensures
        psum(d, k) == psum(|j: int| if j == x { 0 } else { d(j) }, k) + if x < k { d(x) } else { 0 },
    decreases k,
{
    if k > 0 {
        lemma_psum_point(d, x, k - 1);
    }
}

proof fn lemma_lsum_agree(d: spec_fn(int) -> int, e: spec_fn(int) -> int, l: Seq<usize>, k: int)
    requires
        0 <= k <= l.len(),
        forall|i: int| 0 <= i < k ==> #[trigger] d(l[i] as int) == e(l[i] as int),
    ensures
        lsum(d, l, k) == lsum(e, l, k),
    decreases k,
{
    if k > 0 {
        lemma_lsum_agree(d, e, l, k - 1);
    }
}

proof fn lemma_lsum_prefix(d: spec_fn(int) -> int, l: Seq<usize>, l2: Seq<usize>, k: int)
    requires
        0 <= k <= l.len(),
        k <= l2.len(),
        forall|i: int| 0 <= i < k ==> l[i] == l2[i],
    ensures
        lsum(d, l, k) == lsum(d, l2, k),
    decreases k,
{
    if k > 0 {
        lemma_lsum_prefix(d, l, l2, k - 1);
    }
}

/// A sum over `0..k` of a term that vanishes off a duplicate-free list of
/// indices equals the sum over that list.
pub proof fn lemma_sum_on_support(d: spec_fn(int) -> int, l: Seq<usize>, k: int)
    requires
        k <= usize::MAX,
        l.no_duplicates(),
        forall|i: int| 0 <= i < l.len() ==> (l[i] as int) < k,
        forall|j: int| 0 <= j < k && !l.contains(j as usize) ==> #[trigger] d(j) == 0,
    ensures
        psum(d, k) == lsum(d, l, l.len() as int),
    decreases l.len(),
{
    if l.len() == 0 {
        lemma_psum_zero(d, k);
    } else {
        let x = l.last() as int;
        let l1 = l.drop_last();
        let d1 = |j: int| if j == x { 0 } else { d(j) };
        lemma_psum_point(d, x, k);
        assert forall|j: int| 0 <= j < k && !l1.contains(j as usize) implies #[trigger] d1(j) == 0 by {
            if j != x && l.contains(j as usize) {
                let i = choose|i: int| 0 <= i < l.len() && l[i] == j as usize;
                assert(i != l.len() - 1);
                assert(l1[i] == j as usize);
            }
        }
        lemma_sum_on_support(d1, l1, k);
        assert forall|i: int| 0 <= i < l1.len() implies #[trigger] d1(l1[i] as int) == d(l1[i] as int) by {
            assert(l[i] == l1[i]);
            assert(l[i] != l[l.len() - 1]);
        }
        lemma_lsum_agree(d1, d, l1, l1.len() as int);
        lemma_lsum_prefix(d, l1, l, l1.len() as int);
    }
}

impl Tables {
    /// Weighted cost of the first `k` transitions.
    pub open spec fn sum_w(self, order: Seq<usize>, shifts: Seq<i8>, k: int) -> int
        decreases k,
    {
        if k <= 0 {
            0
        } else {
            self.sum_w(order, shifts, k - 1) + self.step(order, shifts, k - 1)
        }
    }
}

pub proof fn lemma_sum_w(m: Tables, order: Seq<usize>, shifts: Seq<i8>, k: int)
    ensures
        m.sum_w(order, shifts, k) == m.sum_h(order, shifts, k) + m.params.tempo_cost_weight
            * m.sum_t(order, shifts, k),
    decreases k,
{
    if k > 0 {
        lemma_sum_w(m, order, shifts, k - 1);
        let w = m.params.tempo_cost_weight as int;
        let a = m.sum_t(order, shifts, k - 1);
        let b = m.step_t(order, shifts, k - 1);
        assert(w * (a + b) == w * a + w * b) by (nonlinear_arith);
    }
}

/// The difference of two weighted sums is the sum of the differences.
pub proof fn lemma_sum_w_diff(
    m: Tables,
    o1: Seq<usize>,
    s1: Seq<i8>,
    o2: Seq<usize>,
    s2: Seq<i8>,
    k: int,
)
    ensures
        m.sum_w(o2, s2, k) - m.sum_w(o1, s1, k) == psum(
            |j: int| m.step(o2, s2, j) - m.step(o1, s1, j),
            k,
        ),
    decreases k,
{
    if k > 0 {
        lemma_sum_w_diff(m, o1, s1, o2, s2, k - 1);
    }
}

pub proof fn lemma_sum_steps_diff(
    m: Tables,
    o1: Seq<usize>,
    s1: Seq<i8>,
    o2: Seq<usize>,
    s2: Seq<i8>,
    l: Seq<usize>,
    k: int,
)
    ensures
        m.sum_steps(o2, s2, l, k) - m.sum_steps(o1, s1, l, k) == lsum(
            |j: int| m.step(o2, s2, j) - m.step(o1, s1, j),
            l,
            k,
        ),
    decreases k,
{
    if k > 0 {
        lemma_sum_steps_diff(m, o1, s1, o2, s2, l, k - 1);
    }
}

pub proof fn lemma_shifted_diff(
    m: Tables,
    o1: Seq<usize>,
    s1: Seq<i8>,
    o2: Seq<usize>,
    s2: Seq<i8>,
    k: int,
)
    ensures
        m.shifted(o2, s2, k) - m.shifted(o1, s1, k) == psum(
            |j: int|
                (if s2[o2[j] as int] != 0 { 1int } else { 0 }) - (if s1[o1[j] as int] != 0 {
                    1int
                } else {
                    0
                }),
            k,
        ),
    decreases k,
{
    if k > 0 {
        lemma_shifted_diff(m, o1, s1, o2, s2, k - 1);
    }
}

} // verus!
