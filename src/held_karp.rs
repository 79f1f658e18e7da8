//! Exact solver: a dynamic program over (visited subset, last track, shift of
//! the last track), with a predecessor per cell for reconstruction.

use vstd::prelude::*;
use vstd::arithmetic::div_mod::lemma_fundamental_div_mod_converse;
use crate::cost::{
    edge_cost, is_permutation, is_shift, lemma_factor_product, tables, total_edge_cost, valid_shifts,
    within, CostParams, Tables,
};

verus! {

/// Track `j` belongs to the subset `mask`.
pub open spec fn in_mask(mask: usize, j: usize) -> bool {
    mask & (1usize << j) != 0
}

proof fn lemma_or(m: usize, j: usize, k: usize)
    requires
        j < 32,
        k < 32,
    ensures
        in_mask(m | (1usize << j), k) == (in_mask(m, k) || k == j),
{
    assert((m | (1usize << j)) & (1usize << k) != 0 <==> (m & (1usize << k) != 0 || k == j))
        by (bit_vector)
        requires
            j < 32,
            k < 32,
    ;
}

/// Two subsets of `0..20` with the same members are equal.
proof fn lemma_mask_ext(a: usize, b: usize)
    requires
        a < 1048576,
        b < 1048576,
        forall|t: usize| t < 20 ==> in_mask(a, t) == in_mask(b, t),
    ensures
        a == b,
{
    assert forall|t: usize| t < 20 implies ((a & (1usize << t)) != 0) == ((b & (1usize << t)) != 0) by {
        assert(in_mask(a, t) == in_mask(b, t));
    }
    assert(a == b) by (bit_vector)
        requires
            a < 1048576,
            b < 1048576,
            ((a & (1usize << 0usize)) != 0) == ((b & (1usize << 0usize)) != 0),
            ((a & (1usize << 1usize)) != 0) == ((b & (1usize << 1usize)) != 0),
            ((a & (1usize << 2usize)) != 0) == ((b & (1usize << 2usize)) != 0),
            ((a & (1usize << 3usize)) != 0) == ((b & (1usize << 3usize)) != 0),
            ((a & (1usize << 4usize)) != 0) == ((b & (1usize << 4usize)) != 0),
            ((a & (1usize << 5usize)) != 0) == ((b & (1usize << 5usize)) != 0),
            ((a & (1usize << 6usize)) != 0) == ((b & (1usize << 6usize)) != 0),
            ((a & (1usize << 7usize)) != 0) == ((b & (1usize << 7usize)) != 0),
            ((a & (1usize << 8usize)) != 0) == ((b & (1usize << 8usize)) != 0),
            ((a & (1usize << 9usize)) != 0) == ((b & (1usize << 9usize)) != 0),
            ((a & (1usize << 10usize)) != 0) == ((b & (1usize << 10usize)) != 0),
            ((a & (1usize << 11usize)) != 0) == ((b & (1usize << 11usize)) != 0),
            ((a & (1usize << 12usize)) != 0) == ((b & (1usize << 12usize)) != 0),
            ((a & (1usize << 13usize)) != 0) == ((b & (1usize << 13usize)) != 0),
            ((a & (1usize << 14usize)) != 0) == ((b & (1usize << 14usize)) != 0),
            ((a & (1usize << 15usize)) != 0) == ((b & (1usize << 15usize)) != 0),
            ((a & (1usize << 16usize)) != 0) == ((b & (1usize << 16usize)) != 0),
            ((a & (1usize << 17usize)) != 0) == ((b & (1usize << 17usize)) != 0),
            ((a & (1usize << 18usize)) != 0) == ((b & (1usize << 18usize)) != 0),
            ((a & (1usize << 19usize)) != 0) == ((b & (1usize << 19usize)) != 0),
    ;
}

/// The subset of the first `k` tracks of `p`.
pub open spec fn prefix_mask(p: Seq<usize>, k: int) -> usize
    decreases k,
{
    if k <= 0 {
        0
    } else {
        prefix_mask(p, k - 1) | (1usize << p[k - 1])
    }
}

proof fn lemma_prefix_mask(p: Seq<usize>, k: int, n: usize)
    requires
        1 <= n <= 20,
        is_permutation(p, n as nat),
        0 <= k <= n,
    ensures
        forall|t: usize| t < 32 ==> (in_mask(prefix_mask(p, k), t) <==> exists|i: int| 0 <= i < k && p[i] == t),
        prefix_mask(p, k) < (1usize << n),
    decreases k,
{
    if k == 0 {
        assert forall|t: usize| t < 32 implies !in_mask(0usize, t) by {
            assert(0usize & (1usize << t) == 0) by (bit_vector);
        }
        assert((0usize) < (1usize << n)) by (bit_vector)
            requires
                n <= 20,
        ;
    } else {
        lemma_prefix_mask(p, k - 1, n);
        let j = p[k - 1];
        assert forall|t: usize| t < 32 implies (in_mask(prefix_mask(p, k), t) <==> exists|i: int| 0 <= i < k && p[i] == t) by {
            lemma_or(prefix_mask(p, k - 1), j, t);
            if in_mask(prefix_mask(p, k), t) {
                if t == j {
                    assert(p[k - 1] == t);
                } else {
                    let i = choose|i: int| 0 <= i < k - 1 && p[i] == t;
                    assert(p[i] == t);
                }
            }
            if exists|i: int| 0 <= i < k && p[i] == t {
                let i = choose|i: int| 0 <= i < k && p[i] == t;
                if i < k - 1 {
                    assert(exists|i2: int| 0 <= i2 < k - 1 && p[i2] == t);
                }
            }
        }
        lemma_below(prefix_mask(p, k - 1), j, n);
    }
}

proof fn lemma_members_zero(k: nat)
    requires
        k <= 32,
    ensures
        members_below(0usize, k) == 0,
    decreases k,
{
    if k > 0 {
        lemma_members_zero((k - 1) as nat);
        let t = (k - 1) as usize;
        assert(0usize & (1usize << t) == 0) by (bit_vector);
    }
}

proof fn lemma_members_prefix(p: Seq<usize>, k: int, n: usize)
    requires
        1 <= n <= 20,
        is_permutation(p, n as nat),
        0 <= k <= n,
    ensures
        members_below(prefix_mask(p, k), n as nat) == k,
    decreases k,
{
    if k == 0 {
        lemma_members_zero(n as nat);
    } else {
        lemma_members_prefix(p, k - 1, n);
        lemma_prefix_mask(p, k - 1, n);
        let j = p[k - 1];
        assert(!in_mask(prefix_mask(p, k - 1), j)) by {
            if in_mask(prefix_mask(p, k - 1), j) {
                let i = choose|i: int| 0 <= i < k - 1 && p[i] == j;
                assert(p[i] == p[k - 1]);
            }
        }
        lemma_add(prefix_mask(p, k - 1), j, j);
        assert(prefix_mask(p, k) == prefix_mask(p, k - 1) | (1usize << j));
        assert(in_mask(prefix_mask(p, k), j));
        assert(prefix_mask(p, k) ^ (1usize << j) == prefix_mask(p, k - 1));
        assert(j < n);
        lemma_members_remove(prefix_mask(p, k), j, n as nat);
    }
}

proof fn lemma_members_all(m: usize, k: nat)
    requires
        k <= 32,
    ensures
        members_below(m, k) <= k,
        members_below(m, k) == k ==> forall|t: usize| t < k ==> in_mask(m, t),
    decreases k,
{
    if k > 0 {
        lemma_members_all(m, (k - 1) as nat);
    }
}

/// A permutation of `0..n` visits the full subset.
proof fn lemma_prefix_full(p: Seq<usize>, n: usize)
    requires
        1 <= n <= 20,
        is_permutation(p, n as nat),
    ensures
        prefix_mask(p, n as int) == ((1usize << n) - 1) as usize,
{
    lemma_members_prefix(p, n as int, n);
    lemma_members_all(prefix_mask(p, n as int), n as nat);
    lemma_prefix_mask(p, n as int, n);
    lemma_masks(n);
    let full = ((1usize << n) - 1) as usize;
    assert forall|t: usize| t < 20 implies in_mask(prefix_mask(p, n as int), t) == in_mask(full, t) by {
        lemma_full(n, t);
        if in_mask(prefix_mask(p, n as int), t) {
            let i = choose|i: int| 0 <= i < n && p[i] == t;
        }
    }
    lemma_mask_ext(prefix_mask(p, n as int), full);
}

/// `p` lists each track of `0..n` once and `sh` gives each a shift.
pub open spec fn walk_ok(p: Seq<usize>, sh: Seq<i8>, n: int) -> bool {
    &&& is_permutation(p, n as nat)
    &&& sh.len() == n
    &&& valid_shifts(sh)
}

/// Objective of the walk through the first `k` tracks of `p`.
pub open spec fn walk_cost(m: Tables, p: Seq<usize>, sh: Seq<i8>, k: int) -> int {
    m.sum_w(p, sh, k - 1) + m.params.shift_weight * (m.params.shift_penalty * m.shifted(p, sh, k))
}

/// The cell at which the walk through the first `k` tracks of `p` ends.
pub open spec fn end_cell(p: Seq<usize>, sh: Seq<i8>, k: int, n: int) -> int {
    cell(prefix_mask(p, k) as int, p[k - 1] as int, sh[p[k - 1] as int] + 1, n)
}

/// That cell is reached at a cost no higher than the walk's.
pub open spec fn bounded_at(
    dp: Seq<i64>,
    link: Seq<u8>,
    m: Tables,
    p: Seq<usize>,
    sh: Seq<i8>,
    k: int,
    n: int,
) -> bool {
    &&& link[end_cell(p, sh, k, n)] != 0
    &&& dp[end_cell(p, sh, k, n)] <= walk_cost(m, p, sh, k)
}

/// The walk's last step has been relaxed: it starts from a cell below `c`, or
/// from `c` towards a track below `j`, or towards track `j` with a shift index
/// below `sj`.
pub open spec fn covered(p: Seq<usize>, sh: Seq<i8>, k: int, n: int, c: int, j: int, sj: int) -> bool {
    ||| k == 1
    ||| end_cell(p, sh, k - 1, n) < c
    ||| (end_cell(p, sh, k - 1, n) == c && (p[k - 1] < j || (p[k - 1] == j && sh[p[k - 1] as int] + 1 < sj)))
}

pub open spec fn lower_bounds(
    dp: Seq<i64>,
    link: Seq<u8>,
    m: Tables,
    n: int,
    c: int,
    j: int,
    sj: int,
) -> bool {
    forall|p: Seq<usize>, sh: Seq<i8>, k: int|
        walk_ok(p, sh, n) && 1 <= k <= n && covered(p, sh, k, n, c, j, sj) ==> #[trigger] bounded_at(
            dp,
            link,
            m,
            p,
            sh,
            k,
            n,
        )
}

proof fn lemma_cell_order(m1: int, l1: int, s1: int, m2: int, l2: int, s2: int, n: int)
    requires
        0 <= m1 < m2,
        0 <= l1 < n,
        0 <= l2 < n,
        0 <= s1 < 3,
        0 <= s2 < 3,
    ensures
        cell(m1, l1, s1, n) < cell(m2, l2, s2, n),
{
    assert(cell(m1, l1, s1, n) < cell(m2, l2, s2, n)) by (nonlinear_arith)
        requires
            0 <= m1 < m2,
            0 <= l1 < n,
            0 <= l2 < n,
            0 <= s1 < 3,
            0 <= s2 < 3,
    ;
}

/// Facts on the last step of a walk of `k >= 2` tracks.
proof fn lemma_walk_step(m: Tables, p: Seq<usize>, sh: Seq<i8>, k: int, n: usize)
    requires
        1 <= n <= 20,
        walk_ok(p, sh, n as int),
        2 <= k <= n,
    ensures
        prefix_mask(p, k - 1) < prefix_mask(p, k),
        prefix_mask(p, k) < (1usize << n),
        !in_mask(prefix_mask(p, k - 1), p[k - 1]),
        in_mask(prefix_mask(p, k - 1), p[k - 2]),
        prefix_mask(p, k) == prefix_mask(p, k - 1) | (1usize << p[k - 1]),
        end_cell(p, sh, k - 2 + 1, n as int) == cell(
            prefix_mask(p, k - 1) as int,
            p[k - 2] as int,
            sh[p[k - 2] as int] + 1,
            n as int,
        ),
        k >= 3 ==> end_cell(p, sh, k - 2, n as int) < cell(prefix_mask(p, k - 1) as int, 0, 0, n as int),
        walk_cost(m, p, sh, k) == walk_cost(m, p, sh, k - 1) + m.edge(
            p[k - 2] as int,
            p[k - 1] as int,
            sh[p[k - 2] as int] as int,
            sh[p[k - 1] as int] as int,
        ) + m.params.shift_weight * (m.params.shift_penalty * (if sh[p[k - 1] as int] != 0 { 1int } else { 0 })),
{
    lemma_prefix_mask(p, k - 1, n);
    lemma_prefix_mask(p, k, n);
    let j = p[k - 1];
    assert(!in_mask(prefix_mask(p, k - 1), j)) by {
        if in_mask(prefix_mask(p, k - 1), j) {
            let i = choose|i: int| 0 <= i < k - 1 && p[i] == j;
            assert(p[i] == p[k - 1]);
        }
    }
    assert(in_mask(prefix_mask(p, k - 1), p[k - 2]));
    lemma_add(prefix_mask(p, k - 1), j, j);
    if k >= 3 {
        lemma_prefix_mask(p, k - 2, n);
        let j2 = p[k - 2];
        assert(!in_mask(prefix_mask(p, k - 2), j2)) by {
            if in_mask(prefix_mask(p, k - 2), j2) {
                let i = choose|i: int| 0 <= i < k - 2 && p[i] == j2;
                assert(p[i] == p[k - 2]);
            }
        }
        lemma_add(prefix_mask(p, k - 2), j2, j2);
        lemma_cell_order(
            prefix_mask(p, k - 2) as int,
            p[k - 3] as int,
            sh[p[k - 3] as int] + 1,
            prefix_mask(p, k - 1) as int,
            0,
            0,
            n as int,
        );
    }
    let ws = m.params.shift_weight as int;
    let sp = m.params.shift_penalty as int;
    let c1 = m.shifted(p, sh, k - 1);
    let ind = if sh[p[k - 1] as int] != 0 { 1int } else { 0 };
    assert(ws * (sp * (c1 + ind)) == ws * (sp * c1) + ws * (sp * ind)) by (nonlinear_arith);
}

/// Number of members of `mask` below `k`.
pub open spec fn members_below(mask: usize, k: nat) -> nat
    decreases k,
{
    if k == 0 {
        0
    } else {
        members_below(mask, (k - 1) as nat) + if in_mask(mask, (k - 1) as usize) {
            1nat
        } else {
            0
        }
    }
}

proof fn lemma_remove(m: usize, j: usize, k: usize)
    requires
        j < 32,
        k < 32,
        in_mask(m, j),
    ensures
        in_mask(m ^ (1usize << j), k) == (in_mask(m, k) && k != j),
        m ^ (1usize << j) < m,
{
    assert((m ^ (1usize << j)) & (1usize << k) != 0 <==> (m & (1usize << k) != 0 && k != j))
        by (bit_vector)
        requires
            j < 32,
            k < 32,
            m & (1usize << j) != 0,
    ;
    assert(m ^ (1usize << j) < m) by (bit_vector)
        requires
            j < 32,
            m & (1usize << j) != 0,
    ;
}

proof fn lemma_add(m: usize, j: usize, k: usize)
    requires
        j < 32,
        k < 32,
        !in_mask(m, j),
    ensures
        in_mask(m | (1usize << j), k) == (in_mask(m, k) || k == j),
        (m | (1usize << j)) ^ (1usize << j) == m,
        (m | (1usize << j)) > m,
{
    assert((m | (1usize << j)) & (1usize << k) != 0 <==> (m & (1usize << k) != 0 || k == j))
        by (bit_vector)
        requires
            j < 32,
            k < 32,
    ;
    assert((m | (1usize << j)) ^ (1usize << j) == m) by (bit_vector)
        requires
            j < 32,
            m & (1usize << j) == 0,
    ;
    assert((m | (1usize << j)) > m) by (bit_vector)
        requires
            j < 32,
            m & (1usize << j) == 0,
    ;
}

proof fn lemma_single(j: usize, k: usize)
    requires
        j < 32,
        k < 32,
    ensures
        in_mask(1usize << j, k) == (k == j),
        (1usize << j) >= 1,
{
    assert((1usize << j) >= 1) by (bit_vector)
        requires
            j < 32,
    ;
    assert((1usize << j) & (1usize << k) != 0 <==> k == j) by (bit_vector)
        requires
            j < 32,
            k < 32,
    ;
}

proof fn lemma_full(n: usize, k: usize)
    requires
        n < 32,
        k < 32,
    ensures
        in_mask(((1usize << n) - 1) as usize, k) == (k < n),
{
    assert((((1usize << n) - 1) as usize) & (1usize << k) != 0 <==> k < n) by (bit_vector)
        requires
            n < 32,
            k < 32,
    ;
}


proof fn lemma_below(m: usize, j: usize, n: usize)
    requires
        j < n,
        n < 32,
        m < (1usize << n),
    ensures
        (m | (1usize << j)) < (1usize << n),
{
    assert((m | (1usize << j)) < (1usize << n)) by (bit_vector)
        requires
            j < n,
            n < 32,
            m < (1usize << n),
    ;
}

proof fn lemma_masks(n: usize)
    requires
        1 <= n <= 20,
    ensures
        2 <= (1usize << n) <= 1048576,
        forall|k: usize| k < n ==> (1usize << k) < (1usize << n),
{
    assert(2 <= (1usize << n) <= 1048576) by (bit_vector)
        requires
            1 <= n <= 20,
    ;
    assert forall|k: usize| k < n implies (1usize << k) < (1usize << n) by {
        assert((1usize << k) < (1usize << n)) by (bit_vector)
            requires
                k < n,
                n <= 20,
        ;
    }
}

proof fn lemma_members_remove(m: usize, l: usize, k: nat)
    requires
        l < 32,
        k <= 32,
        in_mask(m, l),
    ensures
        members_below(m ^ (1usize << l), k) + (if l < k { 1nat } else { 0nat }) == members_below(
            m,
            k,
        ),
    decreases k,
{
    if k > 0 {
        lemma_members_remove(m, l, (k - 1) as nat);
        lemma_remove(m, l, (k - 1) as usize);
    }
}

proof fn lemma_members_single(l: usize, k: nat)
    requires
        l < 32,
        k <= 32,
    ensures
        members_below(1usize << l, k) == if l < k { 1nat } else { 0nat },
    decreases k,
{
    if k > 0 {
        lemma_members_single(l, (k - 1) as nat);
        lemma_single(l, (k - 1) as usize);
    }
}

proof fn lemma_members_full(n: usize, k: nat)
    requires
        n < 32,
        k <= n,
    ensures
        members_below(((1usize << n) - 1) as usize, k) == k,
    decreases k,
{
    if k > 0 {
        lemma_members_full(n, (k - 1) as nat);
        lemma_full(n, (k - 1) as usize);
    }
}

/// Flat index of the cell (subset, last track, shift index) for `n` tracks.
pub open spec fn cell(mask: int, last: int, s: int, n: int) -> int {
    (mask * n + last) * 3 + s
}

proof fn lemma_cell(mask: int, last: int, s: int, n: int, num_masks: int)
    requires
        0 <= mask < num_masks,
        0 <= last < n,
        0 <= s < 3,
    ensures
        0 <= cell(mask, last, s, n) < num_masks * n * 3,
        cell(mask, last, s, n) % 3 == s,
        (cell(mask, last, s, n) / 3) % n == last,
        (cell(mask, last, s, n) / 3) / n == mask,
{
    let q = mask * n + last;
    lemma_fundamental_div_mod_converse(cell(mask, last, s, n), 3, q, s);
    lemma_fundamental_div_mod_converse(q, n, mask, last);
    assert(0 <= q < num_masks * n) by (nonlinear_arith)
        requires
            0 <= mask < num_masks,
            0 <= last < n,
            q == mask * n + last,
    ;
}

/// Per-cell bound used for the cost magnitudes.
pub open spec fn cell_bound() -> int {
    4398046511104
}

/// Shift penalty of shift index `s` (shift `s - 1`).
pub open spec fn shift_cost(s: int, eff_sp: int) -> int {
    if s != 1 { eff_sp } else { 0 }
}

/// What the tables hold at flat index `c`: a reached cell ends at a member of
/// its subset and its cost is bounded; it is either a one-track start, whose
/// cost is its shift penalty, or records a reached predecessor cell on a subset
/// below `limit` (its own subset without its last track), whose cost plus the
/// joining transition and the shift penalty is its own.
pub open spec fn cell_ok(
    dp: Seq<i64>,
    link: Seq<u8>,
    c: int,
    n: int,
    size: int,
    m: Tables,
    eff_sp: int,
    limit: int,
) -> bool {
    let mask = (c / 3) / n;
    let last = (c / 3) % n;
    let s = c % 3;
    link[c] != 0 ==> {
        &&& in_mask(mask as usize, last as usize)
        &&& within(dp[c] as int, mask * cell_bound())
        &&& link[c] == 1 ==> mask == (1usize << (last as usize)) && dp[c] == shift_cost(s, eff_sp)
        &&& link[c] >= 2 ==> {
            let pl = (link[c] - 2) / 3;
            let ps = (link[c] - 2) % 3;
            let pm = (mask as usize ^ (1usize << (last as usize))) as int;
            &&& pl < n
            &&& in_mask(pm as usize, pl as usize)
            &&& pm < limit
            &&& 0 <= cell(pm, pl, ps, n) < size
            &&& link[cell(pm, pl, ps, n)] != 0
            &&& dp[c] == dp[cell(pm, pl, ps, n)] + m.edge(pl, last, ps - 1, s - 1) + shift_cost(
                s,
                eff_sp,
            )
        }
    }
}

pub open spec fn tables_ok(
    dp: Seq<i64>,
    link: Seq<u8>,
    n: int,
    size: int,
    m: Tables,
    eff_sp: int,
    limit: int,
) -> bool {
    &&& dp.len() == size
    &&& link.len() == size
    &&& forall|c: int|
        0 <= c < size ==> #[trigger] cell_ok(dp, link, c, n, size, m, eff_sp, limit)
}

proof fn lemma_raise_limit(
    dp: Seq<i64>,
    link: Seq<u8>,
    n: int,
    size: int,
    m: Tables,
    eff_sp: int,
    limit: int,
    limit2: int,
)
    requires
        tables_ok(dp, link, n, size, m, eff_sp, limit),
        limit <= limit2,
    ensures
        tables_ok(dp, link, n, size, m, eff_sp, limit2),
{
    assert forall|c: int| 0 <= c < size implies #[trigger] cell_ok(
        dp,
        link,
        c,
        n,
        size,
        m,
        eff_sp,
        limit2,
    ) by {
        assert(cell_ok(dp, link, c, n, size, m, eff_sp, limit));
    }
}

/// Exact minimum-cost ordering of the `n` tracks with a shift per track.
/// Returns the order, the shift of each track, the optimal objective (at most
/// that of any order of all tracks with any shifts) and the harmonic, tempo and
/// shift components recomputed over the returned order.
pub fn run(
    n: usize,
    bpms: &[i32],
    key_ids: &[u8],
    shift_table: &[u8],
    direct_costs: &[i64],
    indirect_costs: &[i64],
    params: &CostParams,
) -> (r: (Vec<usize>, Vec<i8>, i64, (i128, i128, i128)))
    requires
        1 <= n <= 20,
        bpms@.len() == n,
        tables(bpms@, key_ids@, shift_table@, direct_costs@, indirect_costs@, *params).valid(),
    ensures
        is_permutation(r.0@, n as nat),
        r.1@.len() == n,
        valid_shifts(r.1@),
        ({
            let m = tables(bpms@, key_ids@, shift_table@, direct_costs@, indirect_costs@, *params);
            &&& r.3.0 == m.path_h(r.0@, r.1@)
            &&& r.3.1 == m.path_t(r.0@, r.1@)
            &&& r.3.2 == m.path_s(r.0@, r.1@)
            &&& r.2 == m.path_cost(r.0@, r.1@)
            &&& forall|p: Seq<usize>, sh: Seq<i8>| walk_ok(p, sh, n as int) ==> r.2 <= m.path_cost(p, sh)
        }),
{
    let ghost m = tables(bpms@, key_ids@, shift_table@, direct_costs@, indirect_costs@, *params);
    proof {
        lemma_masks(n);
        lemma_factor_product(params.shift_weight as int, params.shift_penalty as int);
    }
    let num_masks: usize = 1usize << n;
    assert(num_masks * n * 3 <= 1048576 * 60) by (nonlinear_arith)
        requires
            num_masks <= 1048576,
            n <= 20,
    ;
    let size: usize = num_masks * n * 3;
    let mut dp: Vec<i64> = vec![0i64; size];
    let mut link: Vec<u8> = vec![0u8; size];
    let eff_sp: i64 = params.shift_weight * params.shift_penalty;
    assert(tables_ok(dp@, link@, n as int, size as int, m, eff_sp as int, 1));
    // Base cases: one-track paths.
    let mut i: usize = 0;
    while i < n
        invariant
            1 <= n <= 20,
            bpms@.len() == n,
            m == tables(bpms@, key_ids@, shift_table@, direct_costs@, indirect_costs@, *params),
            m.valid(),
            num_masks == 1usize << n,
            2 <= num_masks <= 1048576,
            forall|k: usize| k < n ==> (1usize << k) < num_masks,
            size == num_masks * n * 3,
            within(eff_sp as int, 1073741824),
            tables_ok(dp@, link@, n as int, size as int, m, eff_sp as int, 1),
            forall|c2: int| 0 <= c2 < size ==> link@[c2] <= 1,
            i <= n,
            forall|i2: usize, s2: int| i2 < i && 0 <= s2 < 3 ==> #[trigger] base_ok(dp@, link@, i2, s2, n as int, eff_sp as int),
        decreases n - i,
    {
        let mask = 1usize << i;
        proof {
            lemma_single(i, i);
        }
        let mut s_idx: usize = 0;
        while s_idx < 3
            invariant
            1 <= n <= 20,
            bpms@.len() == n,
            m == tables(bpms@, key_ids@, shift_table@, direct_costs@, indirect_costs@, *params),
            m.valid(),
            num_masks == 1usize << n,
            2 <= num_masks <= 1048576,
            forall|k: usize| k < n ==> (1usize << k) < num_masks,
            size == num_masks * n * 3,
            within(eff_sp as int, 1073741824),
            tables_ok(dp@, link@, n as int, size as int, m, eff_sp as int, 1),
            forall|c2: int| 0 <= c2 < size ==> link@[c2] <= 1,
                i < n,
                mask == 1usize << i,
                in_mask(mask, i),
                1 <= mask < num_masks,
                s_idx <= 3,
                forall|i2: usize, s2: int| (i2 < i && 0 <= s2 < 3) || (i2 == i && 0 <= s2 < s_idx) ==> #[trigger] base_ok(dp@, link@, i2, s2, n as int, eff_sp as int),
            decreases 3 - s_idx,
        {
            proof {
                lemma_cell(mask as int, i as int, s_idx as int, n as int, num_masks as int);
            }
            let c = (mask * n + i) * 3 + s_idx;
            let v: i64 = if s_idx != 1 { eff_sp } else { 0 };
            let ghost dp0 = dp@;
            let ghost link0 = link@;
            dp.set(c, v);
            link.set(c, 1);
            proof {
                assert forall|c2: int| 0 <= c2 < size implies #[trigger] cell_ok(dp@, link@, c2, n as int, size as int, m, eff_sp as int, 1) by {
                    if c2 != c {
                        assert(cell_ok(dp0, link0, c2, n as int, size as int, m, eff_sp as int, 1));
                    }
                }
                assert forall|i2: usize, s2: int| (i2 < i && 0 <= s2 < 3) || (i2 == i && 0 <= s2 < s_idx + 1) implies #[trigger] base_ok(dp@, link@, i2, s2, n as int, eff_sp as int) by {
                    if i2 != i || s2 != s_idx {
                        assert(base_ok(dp0, link0, i2, s2, n as int, eff_sp as int));
                        lemma_cell((1usize << i2) as int, i2 as int, s2, n as int, num_masks as int);
                    }
                }
            }
            s_idx = s_idx + 1;
        }
        i = i + 1;
    }
    // Relaxation, subsets in increasing numeric order: adding a track to a
    // subset gives a larger number, so every subset is final before it is read.
    proof {
        lemma_base_lb(dp@, link@, m, n, num_masks, eff_sp as int);
    }
    let mut mask: usize = 1;
    while mask < num_masks
        invariant
            1 <= n <= 20,
            bpms@.len() == n,
            m == tables(bpms@, key_ids@, shift_table@, direct_costs@, indirect_costs@, *params),
            m.valid(),
            num_masks == 1usize << n,
            2 <= num_masks <= 1048576,
            forall|k: usize| k < n ==> (1usize << k) < num_masks,
            size == num_masks * n * 3,
            within(eff_sp as int, 1073741824),
            eff_sp == params.shift_weight * params.shift_penalty,
            tables_ok(dp@, link@, n as int, size as int, m, eff_sp as int, mask as int),
            1 <= mask <= num_masks,
            lower_bounds(dp@, link@, m, n as int, cell(mask as int, 0, 0, n as int), 0, 0),
        decreases num_masks - mask,
    {
        proof {
            lemma_raise_limit(dp@, link@, n as int, size as int, m, eff_sp as int, mask as int, mask + 1);
        }
        let mut last: usize = 0;
        while last < n
            invariant
            1 <= n <= 20,
            bpms@.len() == n,
            m == tables(bpms@, key_ids@, shift_table@, direct_costs@, indirect_costs@, *params),
            m.valid(),
            num_masks == 1usize << n,
            2 <= num_masks <= 1048576,
            forall|k: usize| k < n ==> (1usize << k) < num_masks,
            size == num_masks * n * 3,
            within(eff_sp as int, 1073741824),
            eff_sp == params.shift_weight * params.shift_penalty,
                tables_ok(dp@, link@, n as int, size as int, m, eff_sp as int, mask + 1),
                1 <= mask < num_masks,
                last <= n,
                lower_bounds(dp@, link@, m, n as int, cell(mask as int, last as int, 0, n as int), 0, 0),
            decreases n - last,
        {
            let mut s_idx: usize = 0;
            while s_idx < 3
                invariant
            1 <= n <= 20,
            bpms@.len() == n,
            m == tables(bpms@, key_ids@, shift_table@, direct_costs@, indirect_costs@, *params),
            m.valid(),
            num_masks == 1usize << n,
            2 <= num_masks <= 1048576,
            forall|k: usize| k < n ==> (1usize << k) < num_masks,
            size == num_masks * n * 3,
            within(eff_sp as int, 1073741824),
            eff_sp == params.shift_weight * params.shift_penalty,
                    tables_ok(dp@, link@, n as int, size as int, m, eff_sp as int, mask + 1),
                    1 <= mask < num_masks,
                    last < n,
                    s_idx <= 3,
                    lower_bounds(dp@, link@, m, n as int, cell(mask as int, last as int, s_idx as int, n as int), 0, 0),
                decreases 3 - s_idx,
            {
                proof {
                    lemma_cell(mask as int, last as int, s_idx as int, n as int, num_masks as int);
                }
                let c = (mask * n + last) * 3 + s_idx;
                if mask & (1usize << last) != 0 && link[c] != 0 {
                    let cur = dp[c];
                    assert(cell_ok(dp@, link@, c as int, n as int, size as int, m, eff_sp as int, mask + 1));
                    relax_from(
                        &mut dp,
                        &mut link,
                        mask,
                        last,
                        s_idx,
                        cur,
                        n,
                        num_masks,
                        size,
                        eff_sp,
                        bpms,
                        key_ids,
                        shift_table,
                        direct_costs,
                        indirect_costs,
                        params,
                    );
                } else {
                    proof {
                        lemma_skip_source(dp@, link@, m, n, num_masks, mask, last, s_idx);
                    }
                }
                proof {
                    lemma_next_source(dp@, link@, m, n, c as int);
                }
                s_idx = s_idx + 1;
            }
            last = last + 1;
        }
        proof {
            let nn = n as int;
            let mm = mask as int;
            assert(cell(mm, nn, 0, nn) == cell(mm + 1, 0, 0, nn)) by (nonlinear_arith);
        }
        mask = mask + 1;
    }
    let full = num_masks - 1;
    proof {
        lemma_raise_limit(dp@, link@, n as int, size as int, m, eff_sp as int, mask as int, num_masks as int);
        assert forall|k: usize| k < n implies in_mask(full, k) by {
            lemma_full(n, k);
        }
        lemma_members_full(n, n as nat);
    }
    // The cheapest cell on the full subset.
    let mut found = false;
    let mut best_cost: i64 = 0;
    let mut best_last: usize = 0;
    let mut best_s: usize = 1;
    let mut last: usize = 0;
    while last < n
        invariant
            1 <= n <= 20,
            bpms@.len() == n,
            m == tables(bpms@, key_ids@, shift_table@, direct_costs@, indirect_costs@, *params),
            m.valid(),
            num_masks == 1usize << n,
            2 <= num_masks <= 1048576,
            forall|k: usize| k < n ==> (1usize << k) < num_masks,
            size == num_masks * n * 3,
            within(eff_sp as int, 1073741824),
            tables_ok(dp@, link@, n as int, size as int, m, eff_sp as int, num_masks as int),
            full == num_masks - 1,
            last <= n,
            best_last < n,
            best_s < 3,
            found ==> link@[cell(full as int, best_last as int, best_s as int, n as int)] != 0,
            found ==> best_cost == dp@[cell(full as int, best_last as int, best_s as int, n as int)],
            lower_bounds(dp@, link@, m, n as int, cell(num_masks as int, 0, 0, n as int), 0, 0),
            forall|l2: int, s2: int| 0 <= l2 < last && 0 <= s2 < 3 && link@[cell(full as int, l2, s2, n as int)] != 0 ==> found && best_cost <= dp@[#[trigger] cell(full as int, l2, s2, n as int)],
        decreases n - last,
    {
        let mut s_idx: usize = 0;
        while s_idx < 3
            invariant
            1 <= n <= 20,
            bpms@.len() == n,
            m == tables(bpms@, key_ids@, shift_table@, direct_costs@, indirect_costs@, *params),
            m.valid(),
            num_masks == 1usize << n,
            2 <= num_masks <= 1048576,
            forall|k: usize| k < n ==> (1usize << k) < num_masks,
            size == num_masks * n * 3,
            within(eff_sp as int, 1073741824),
            tables_ok(dp@, link@, n as int, size as int, m, eff_sp as int, num_masks as int),
                full == num_masks - 1,
                last < n,
                s_idx <= 3,
                best_last < n,
                best_s < 3,
                found ==> link@[cell(full as int, best_last as int, best_s as int, n as int)] != 0,
                found ==> best_cost == dp@[cell(full as int, best_last as int, best_s as int, n as int)],
                lower_bounds(dp@, link@, m, n as int, cell(num_masks as int, 0, 0, n as int), 0, 0),
                forall|l2: int, s2: int| ((0 <= l2 < last && 0 <= s2 < 3) || (l2 == last && 0 <= s2 < s_idx)) && link@[cell(full as int, l2, s2, n as int)] != 0 ==> found && best_cost <= dp@[#[trigger] cell(full as int, l2, s2, n as int)],
            decreases 3 - s_idx,
        {
            proof {
                lemma_cell(full as int, last as int, s_idx as int, n as int, num_masks as int);
            }
            let c = (full * n + last) * 3 + s_idx;
            if link[c] != 0 && (!found || dp[c] < best_cost) {
                found = true;
                best_cost = dp[c];
                best_last = last;
                best_s = s_idx;
            }
            s_idx = s_idx + 1;
        }
        assert forall|l2: int, s2: int| 0 <= l2 < last + 1 && 0 <= s2 < 3 && link@[cell(full as int, l2, s2, n as int)] != 0 implies found && best_cost <= dp@[#[trigger] cell(full as int, l2, s2, n as int)] by {
            if l2 < last {
                assert(0 <= l2 < last && 0 <= s2 < 3);
            } else {
                assert(s_idx == 3);
                assert(l2 == last && 0 <= s2 < s_idx);
                assert(found && best_cost <= dp@[cell(full as int, l2, s2, n as int)]);
            }
        }
        last = last + 1;
    }
    proof {
        assert forall|p: Seq<usize>, sh: Seq<i8>| walk_ok(p, sh, n as int) implies found && best_cost <= m.path_cost(p, sh) by {
            lemma_full_walks(dp@, link@, m, n, num_masks, p, sh);
            let l2 = p[n - 1] as int;
            let s2 = sh[p[n - 1] as int] + 1;
            assert(link@[cell(full as int, l2, s2, n as int)] != 0);
        }
    }
    proof {
        // the tracks in index order, unshifted, form a walk, so a full cell was reached
        let p = Seq::new(n as nat, |i: int| i as usize);
        let sh = Seq::new(n as nat, |i: int| 0i8);
        assert(walk_ok(p, sh, n as int));
    }
    let (order, shifts_out) = backtrack(
        &dp,
        &link,
        full,
        best_last,
        best_s,
        n,
        num_masks,
        size,
        eff_sp,
        Ghost(m),
    );
    let breakdown = total_edge_cost(
        &order,
        &shifts_out,
        bpms,
        key_ids,
        shift_table,
        direct_costs,
        indirect_costs,
        params,
    );
    (order, shifts_out, best_cost, breakdown)
}

/// Relaxes every cell reachable by appending one unvisited track to the reached
/// cell (`mask`, `last`, `s_idx`) of cost `cur`.
fn relax_from(
    dp: &mut Vec<i64>,
    link: &mut Vec<u8>,
    mask: usize,
    last: usize,
    s_idx: usize,
    cur: i64,
    n: usize,
    num_masks: usize,
    size: usize,
    eff_sp: i64,
    bpms: &[i32],
    key_ids: &[u8],
    shift_table: &[u8],
    direct_costs: &[i64],
    indirect_costs: &[i64],
    params: &CostParams,
)
    requires
        1 <= n <= 20,
        bpms@.len() == n,
        tables(bpms@, key_ids@, shift_table@, direct_costs@, indirect_costs@, *params).valid(),
        num_masks == 1usize << n,
        2 <= num_masks <= 1048576,
        size == num_masks * n * 3,
        within(eff_sp as int, 1073741824),
        tables_ok(old(dp)@, old(link)@, n as int, size as int, tables(bpms@, key_ids@, shift_table@, direct_costs@, indirect_costs@, *params), eff_sp as int, mask + 1),
        cur == old(dp)@[cell(mask as int, last as int, s_idx as int, n as int)],
        eff_sp == params.shift_weight * params.shift_penalty,
        lower_bounds(old(dp)@, old(link)@, tables(bpms@, key_ids@, shift_table@, direct_costs@, indirect_costs@, *params), n as int, cell(mask as int, last as int, s_idx as int, n as int), 0, 0),
        1 <= mask < num_masks,
        last < n,
        s_idx < 3,
        in_mask(mask, last),
        old(link)@[cell(mask as int, last as int, s_idx as int, n as int)] != 0,
        within(cur as int, mask * cell_bound()),
    ensures
        tables_ok(final(dp)@, final(link)@, n as int, size as int, tables(bpms@, key_ids@, shift_table@, direct_costs@, indirect_costs@, *params), eff_sp as int, mask + 1),
        lower_bounds(final(dp)@, final(link)@, tables(bpms@, key_ids@, shift_table@, direct_costs@, indirect_costs@, *params), n as int, cell(mask as int, last as int, s_idx as int, n as int), n as int, 0),
{
    let ghost m = tables(bpms@, key_ids@, shift_table@, direct_costs@, indirect_costs@, *params);
    let ghost c = cell(mask as int, last as int, s_idx as int, n as int);
    proof {
        lemma_cell(mask as int, last as int, s_idx as int, n as int, num_masks as int);
    }
    let mut j: usize = 0;
    while j < n
        invariant
            1 <= n <= 20,
            bpms@.len() == n,
            m == tables(bpms@, key_ids@, shift_table@, direct_costs@, indirect_costs@, *params),
            m.valid(),
            num_masks == 1usize << n,
            2 <= num_masks <= 1048576,
            size == num_masks * n * 3,
            within(eff_sp as int, 1073741824),
            tables_ok(dp@, link@, n as int, size as int, m, eff_sp as int, mask + 1),
            1 <= mask < num_masks,
            last < n,
            s_idx < 3,
            in_mask(mask, last),
            c == cell(mask as int, last as int, s_idx as int, n as int),
            0 <= c < size,
            link@[c] != 0,
            dp@[c] == cur,
            within(cur as int, mask * cell_bound()),
            j <= n,
            eff_sp == params.shift_weight * params.shift_penalty,
            lower_bounds(dp@, link@, m, n as int, c, j as int, 0),
        decreases n - j,
    {
        if mask & (1usize << j) == 0 {
            let new_mask = mask | (1usize << j);
            proof {
                lemma_add(mask, j, j);
                lemma_add(mask, j, last);
                lemma_below(mask, j, n);
                lemma_fundamental_div_mod_converse(last as int * 3 + s_idx as int, 3, last as int, s_idx as int);
            }
            let mut sj: usize = 0;
            while sj < 3
                invariant
                    1 <= n <= 20,
                    bpms@.len() == n,
                    m == tables(bpms@, key_ids@, shift_table@, direct_costs@, indirect_costs@, *params),
                    m.valid(),
                    num_masks == 1usize << n,
                    2 <= num_masks <= 1048576,
                    size == num_masks * n * 3,
                    within(eff_sp as int, 1073741824),
                    tables_ok(dp@, link@, n as int, size as int, m, eff_sp as int, mask + 1),
                    1 <= mask < num_masks,
                    last < n,
                    s_idx < 3,
                    j < n,
                    in_mask(mask, last),
                    !in_mask(mask, j),
                    new_mask == mask | (1usize << j),
                    new_mask < num_masks,
                    new_mask > mask,
                    new_mask ^ (1usize << j) == mask,
                    in_mask(new_mask, j),
                    c == cell(mask as int, last as int, s_idx as int, n as int),
                    0 <= c < size,
                    link@[c] != 0,
                    dp@[c] == cur,
                    within(cur as int, mask * cell_bound()),
                    sj <= 3,
                    eff_sp == params.shift_weight * params.shift_penalty,
                    lower_bounds(dp@, link@, m, n as int, c, j as int, sj as int),
                    (last * 3 + s_idx) / 3 == last,
                    (last * 3 + s_idx) % 3 == s_idx,
                decreases 3 - sj,
            {
                let ec = edge_cost(
                    last,
                    j,
                    s_idx as i8 - 1,
                    sj as i8 - 1,
                    bpms,
                    key_ids,
                    shift_table,
                    direct_costs,
                    indirect_costs,
                    params,
                );
                let sp: i64 = if sj != 1 { eff_sp } else { 0 };
                let new_cost = cur + ec + sp;
                proof {
                    lemma_cell(new_mask as int, j as int, sj as int, n as int, num_masks as int);
                }
                let t = (new_mask * n + j) * 3 + sj;
                let ghost dp_pre = dp@;
                let ghost link_pre = link@;
                if link[t] == 0 || new_cost < dp[t] {
                    let ghost dp0 = dp@;
                    let ghost link0 = link@;
                    let code = (2 + last * 3 + s_idx) as u8;
                    proof {
                        lemma_cell(mask as int, last as int, s_idx as int, n as int, num_masks as int);
                        assert(t != c);
                    }
                    dp.set(t, new_cost);
                    link.set(t, code);
                    proof {
                        assert(((code - 2) / 3) as int == last as int);
                        assert(((code - 2) % 3) as int == s_idx as int);
                        assert(code >= 2);
                        assert(link@[c] != 0);
                        assert(within(new_cost as int, new_mask * cell_bound()));
                        let tt = t as int;
                        let nn = n as int;
                        assert((tt / 3) / nn == new_mask as int);
                        assert((tt / 3) % nn == j as int);
                        assert(link@[tt] == code);
                        let pm = (new_mask ^ (1usize << j)) as int;
                        assert(pm == mask as int);
                        assert(cell(pm, last as int, s_idx as int, nn) == c);
                        assert(in_mask(pm as usize, last as usize));
                        assert(link@[c] != 0);
                        assert(dp@[c] == cur);
                        assert(ec == m.edge(last as int, j as int, s_idx - 1, sj - 1));
                        assert(dp@[tt] == dp@[cell(pm, last as int, s_idx as int, nn)] + m.edge(last as int, j as int, s_idx - 1, sj - 1) + shift_cost(sj as int, eff_sp as int));
                        assert(cell_ok(dp@, link@, t as int, n as int, size as int, m, eff_sp as int, mask + 1));
                        assert forall|c2: int| 0 <= c2 < size implies #[trigger] cell_ok(dp@, link@, c2, n as int, size as int, m, eff_sp as int, mask + 1) by {
                            if c2 != t {
                                assert(cell_ok(dp0, link0, c2, n as int, size as int, m, eff_sp as int, mask + 1));
                                if link0[c2] >= 2 {
                                    let cm = (c2 / 3) / nn;
                                    let cl = (c2 / 3) % nn;
                                    let pl2 = (link0[c2] - 2) / 3;
                                    let ps2 = (link0[c2] - 2) % 3;
                                    let pm2 = (cm as usize ^ (1usize << (cl as usize))) as int;
                                    lemma_cell(pm2, pl2, ps2, nn, num_masks as int);
                                    assert(cell(pm2, pl2, ps2, nn) != tt);
                                }
                            }
                        }
                    }
                }
                proof {
                    assert forall|x: int| 0 <= x < link_pre.len() && link_pre[x] != 0 implies link@[x] != 0 && dp@[x] <= dp_pre[x] by {}
                    lemma_lb_step(
                        dp_pre,
                        link_pre,
                        dp@,
                        link@,
                        m,
                        n,
                        num_masks,
                        mask,
                        last,
                        s_idx,
                        j,
                        sj,
                        new_mask,
                        new_cost as int,
                        eff_sp as int,
                    );
                }
                sj = sj + 1;
            }
            proof {
                lemma_lb_next_j(dp@, link@, m, n, c, j as int);
            }
        } else {
            proof {
                lemma_lb_skip_j(dp@, link@, m, n, num_masks, mask, last, s_idx, j);
            }
        }
        j = j + 1;
    }
}

impl Tables {
    /// Weighted cost of the transitions from position `p` to the end.
    pub open spec fn tail_w(self, order: Seq<usize>, shifts: Seq<i8>, p: int) -> int
        decreases order.len() - p,
    {
        if p >= order.len() - 1 {
            0
        } else {
            self.step(order, shifts, p) + self.tail_w(order, shifts, p + 1)
        }
    }

    /// Number of shifted tracks from position `p` to the end.
    pub open spec fn tail_shifted(self, order: Seq<usize>, shifts: Seq<i8>, p: int) -> int
        decreases order.len() - p,
    {
        if p >= order.len() {
            0
        } else {
            (if shifts[order[p] as int] != 0 { 1int } else { 0 }) + self.tail_shifted(
                order,
                shifts,
                p + 1,
            )
        }
    }
}

proof fn lemma_tail_split(m: Tables, order: Seq<usize>, shifts: Seq<i8>, k: int)
    requires
        order.len() >= 1,
        0 <= k <= order.len() - 1,
    ensures
        m.sum_w(order, shifts, k) + m.tail_w(order, shifts, k) == m.tail_w(order, shifts, 0),
    decreases k,
{
    if k > 0 {
        lemma_tail_split(m, order, shifts, k - 1);
    }
}

proof fn lemma_tail_shifted_split(m: Tables, order: Seq<usize>, shifts: Seq<i8>, k: int)
    requires
        0 <= k <= order.len(),
    ensures
        m.shifted(order, shifts, k) + m.tail_shifted(order, shifts, k) == m.tail_shifted(
            order,
            shifts,
            0,
        ),
    decreases k,
{
    if k > 0 {
        lemma_tail_shifted_split(m, order, shifts, k - 1);
    }
}

/// The tails from `p` depend only on the entries at positions from `p` on and
/// on the shifts of the tracks there.
proof fn lemma_tail_frame(
    m: Tables,
    o1: Seq<usize>,
    s1: Seq<i8>,
    o2: Seq<usize>,
    s2: Seq<i8>,
    p: int,
)
    requires
        o1.len() == o2.len(),
        0 <= p,
        forall|j: int| #![trigger o1[j]] p <= j < o1.len() ==> o1[j] == o2[j],
        forall|j: int| #![trigger o1[j]] p <= j < o1.len() ==> s1[o1[j] as int] == s2[o1[j] as int],
    ensures
        m.tail_w(o1, s1, p) == m.tail_w(o2, s2, p),
        m.tail_shifted(o1, s1, p) == m.tail_shifted(o2, s2, p),
    decreases o1.len() - p,
{
    if p < o1.len() {
        lemma_tail_frame(m, o1, s1, o2, s2, p + 1);
        assert(o1[p] == o2[p] && s1[o1[p] as int] == s2[o1[p] as int]);
    }
}

proof fn lemma_decode_end(p: Seq<usize>, sh: Seq<i8>, k: int, n: usize, num_masks: usize, mask: usize, last: usize, s_idx: usize)
    requires
        1 <= n <= 20,
        num_masks == 1usize << n,
        walk_ok(p, sh, n as int),
        1 <= k <= n,
        mask < num_masks,
        last < n,
        s_idx < 3,
        end_cell(p, sh, k, n as int) == cell(mask as int, last as int, s_idx as int, n as int),
    ensures
        prefix_mask(p, k) == mask,
        p[k - 1] == last,
        sh[p[k - 1] as int] + 1 == s_idx,
{
    lemma_prefix_mask(p, k, n);
    lemma_cell(prefix_mask(p, k) as int, p[k - 1] as int, sh[p[k - 1] as int] + 1, n as int, num_masks as int);
    lemma_cell(mask as int, last as int, s_idx as int, n as int, num_masks as int);
}

proof fn lemma_lb_next_j(dp: Seq<i64>, link: Seq<u8>, m: Tables, n: usize, c: int, j: int)
    requires
        lower_bounds(dp, link, m, n as int, c, j, 3),
    ensures
        lower_bounds(dp, link, m, n as int, c, j + 1, 0),
{
    assert forall|p: Seq<usize>, sh: Seq<i8>, k: int|
        walk_ok(p, sh, n as int) && 1 <= k <= n && covered(p, sh, k, n as int, c, j + 1, 0) implies #[trigger] bounded_at(
            dp,
            link,
            m,
            p,
            sh,
            k,
            n as int,
        ) by {
        if k >= 2 {
            assert(is_shift(sh[p[k - 1] as int] as int));
        }
        assert(covered(p, sh, k, n as int, c, j, 3));
    }
}

proof fn lemma_lb_skip_j(
    dp: Seq<i64>,
    link: Seq<u8>,
    m: Tables,
    n: usize,
    num_masks: usize,
    mask: usize,
    last: usize,
    s_idx: usize,
    j: usize,
)
    requires
        1 <= n <= 20,
        num_masks == 1usize << n,
        mask < num_masks,
        last < n,
        s_idx < 3,
        j < n,
        in_mask(mask, j),
        lower_bounds(dp, link, m, n as int, cell(mask as int, last as int, s_idx as int, n as int), j as int, 0),
    ensures
        lower_bounds(dp, link, m, n as int, cell(mask as int, last as int, s_idx as int, n as int), j + 1, 0),
{
    let c = cell(mask as int, last as int, s_idx as int, n as int);
    assert forall|p: Seq<usize>, sh: Seq<i8>, k: int|
        walk_ok(p, sh, n as int) && 1 <= k <= n && covered(p, sh, k, n as int, c, j + 1, 0) implies #[trigger] bounded_at(
            dp,
            link,
            m,
            p,
            sh,
            k,
            n as int,
        ) by {
        if k >= 2 && end_cell(p, sh, k - 1, n as int) == c && p[k - 1] == j {
            lemma_walk_step(m, p, sh, k, n);
            lemma_decode_end(p, sh, k - 1, n, num_masks, mask, last, s_idx);
        }
        assert(covered(p, sh, k, n as int, c, j as int, 0));
    }
}

proof fn lemma_lb_step(
    dp0: Seq<i64>,
    link0: Seq<u8>,
    dp1: Seq<i64>,
    link1: Seq<u8>,
    m: Tables,
    n: usize,
    num_masks: usize,
    mask: usize,
    last: usize,
    s_idx: usize,
    j: usize,
    sj: usize,
    new_mask: usize,
    new_cost: int,
    eff_sp: int,
)
    requires
        1 <= n <= 20,
        m.valid(),
        m.num_tracks() == n,
        num_masks == 1usize << n,
        mask < num_masks,
        last < n,
        s_idx < 3,
        j < n,
        sj < 3,
        new_mask == mask | (1usize << j),
        eff_sp == m.params.shift_weight * m.params.shift_penalty,
        lower_bounds(dp0, link0, m, n as int, cell(mask as int, last as int, s_idx as int, n as int), j as int, sj as int),
        dp0.len() == link0.len(),
        dp1.len() == dp0.len(),
        link1.len() == link0.len(),
        forall|x: int| 0 <= x < link0.len() && link0[x] != 0 ==> link1[x] != 0 && dp1[x] <= dp0[x],
        link1[cell(new_mask as int, j as int, sj as int, n as int)] != 0,
        dp1[cell(new_mask as int, j as int, sj as int, n as int)] <= new_cost,
        new_cost == dp0[cell(mask as int, last as int, s_idx as int, n as int)] + m.edge(
            last as int,
            j as int,
            s_idx - 1,
            sj - 1,
        ) + shift_cost(sj as int, eff_sp),
        link0.len() == num_masks * n * 3,
    ensures
        lower_bounds(dp1, link1, m, n as int, cell(mask as int, last as int, s_idx as int, n as int), j as int, sj + 1),
{
    let c = cell(mask as int, last as int, s_idx as int, n as int);
    assert forall|p: Seq<usize>, sh: Seq<i8>, k: int|
        walk_ok(p, sh, n as int) && 1 <= k <= n && covered(p, sh, k, n as int, c, j as int, sj + 1) implies #[trigger] bounded_at(
            dp1,
            link1,
            m,
            p,
            sh,
            k,
            n as int,
        ) by {
        lemma_prefix_mask(p, k, n);
        lemma_cell(prefix_mask(p, k) as int, p[k - 1] as int, sh[p[k - 1] as int] + 1, n as int, num_masks as int);
        if covered(p, sh, k, n as int, c, j as int, sj as int) {
            assert(bounded_at(dp0, link0, m, p, sh, k, n as int));
        } else {
            lemma_walk_step(m, p, sh, k, n);
            lemma_decode_end(p, sh, k - 1, n, num_masks, mask, last, s_idx);
            lemma_cell(mask as int, 0, 0, n as int, num_masks as int);
            assert(covered(p, sh, k - 1, n as int, c, j as int, sj as int));
            assert(bounded_at(dp0, link0, m, p, sh, k - 1, n as int));
            let ws = m.params.shift_weight as int;
            let sp = m.params.shift_penalty as int;
            if sj != 1 {
                assert(ws * (sp * 1) == ws * sp) by (nonlinear_arith);
            } else {
                assert(ws * (sp * 0) == 0) by (nonlinear_arith);
            }
            assert(end_cell(p, sh, k, n as int) == cell(new_mask as int, j as int, sj as int, n as int));
        }
    }
}

/// The one-track cell of track `i` with shift index `s` is reached at its
/// shift penalty.
pub open spec fn base_ok(dp: Seq<i64>, link: Seq<u8>, i: usize, s: int, n: int, eff_sp: int) -> bool {
    &&& link[cell((1usize << i) as int, i as int, s, n)] != 0
    &&& dp[cell((1usize << i) as int, i as int, s, n)] == shift_cost(s, eff_sp)
}

proof fn lemma_base_lb(dp: Seq<i64>, link: Seq<u8>, m: Tables, n: usize, num_masks: usize, eff_sp: int)
    requires
        1 <= n <= 20,
        num_masks == 1usize << n,
        eff_sp == m.params.shift_weight * m.params.shift_penalty,
        forall|i2: usize, s2: int| i2 < n && 0 <= s2 < 3 ==> #[trigger] base_ok(dp, link, i2, s2, n as int, eff_sp),
    ensures
        lower_bounds(dp, link, m, n as int, cell(1, 0, 0, n as int), 0, 0),
{
    assert forall|p: Seq<usize>, sh: Seq<i8>, k: int|
        walk_ok(p, sh, n as int) && 1 <= k <= n && covered(p, sh, k, n as int, cell(1, 0, 0, n as int), 0, 0) implies #[trigger] bounded_at(
            dp,
            link,
            m,
            p,
            sh,
            k,
            n as int,
        ) by {
        if k == 1 {
            let j = p[0];
            assert((0usize | (1usize << j)) == (1usize << j)) by (bit_vector);
            assert(prefix_mask(p, 0) == 0usize);
            assert(prefix_mask(p, 1) == (1usize << j));
            assert(is_shift(sh[j as int] as int));
            assert(base_ok(dp, link, j, sh[j as int] + 1, n as int, eff_sp));
            let ws = m.params.shift_weight as int;
            let sp = m.params.shift_penalty as int;
            assert(m.shifted(p, sh, 0) == 0);
            assert(m.sum_w(p, sh, 0) == 0);
            if sh[j as int] != 0 {
                assert(ws * (sp * 1) == ws * sp) by (nonlinear_arith);
            } else {
                assert(ws * (sp * 0) == 0) by (nonlinear_arith);
            }
            assert(end_cell(p, sh, 1, n as int) == cell((1usize << j) as int, j as int, sh[j as int] + 1, n as int));
        } else {
            lemma_prefix_mask(p, k - 1, n);
            let pm = prefix_mask(p, k - 1);
            if k == 2 {
                let j = p[0];
                assert(prefix_mask(p, 0) == 0usize);
                assert((0usize | (1usize << j)) >= 1) by (bit_vector)
                    requires
                        j < 32,
                ;
            } else {
                lemma_walk_step(m, p, sh, k - 1, n);
            }
            assert(pm >= 1);
            let l = p[k - 2] as int;
            let s = sh[p[k - 2] as int] + 1;
            assert(is_shift(sh[p[k - 2] as int] as int));
            assert(cell(pm as int, l, s, n as int) >= cell(1, 0, 0, n as int)) by (nonlinear_arith)
                requires
                    pm >= 1,
                    0 <= l,
                    0 <= s,
                    n >= 1,
            ;
            assert(end_cell(p, sh, k - 1, n as int) == cell(pm as int, l, s, n as int));
            assert(false);
        }
    }
}

proof fn lemma_skip_source(
    dp: Seq<i64>,
    link: Seq<u8>,
    m: Tables,
    n: usize,
    num_masks: usize,
    mask: usize,
    last: usize,
    s_idx: usize,
)
    requires
        1 <= n <= 20,
        num_masks == 1usize << n,
        mask < num_masks,
        last < n,
        s_idx < 3,
        !in_mask(mask, last) || link[cell(mask as int, last as int, s_idx as int, n as int)] == 0,
        lower_bounds(dp, link, m, n as int, cell(mask as int, last as int, s_idx as int, n as int), 0, 0),
    ensures
        lower_bounds(dp, link, m, n as int, cell(mask as int, last as int, s_idx as int, n as int), n as int, 0),
{
    let c = cell(mask as int, last as int, s_idx as int, n as int);
    assert forall|p: Seq<usize>, sh: Seq<i8>, k: int|
        walk_ok(p, sh, n as int) && 1 <= k <= n && covered(p, sh, k, n as int, c, n as int, 0) implies #[trigger] bounded_at(
            dp,
            link,
            m,
            p,
            sh,
            k,
            n as int,
        ) by {
        if k >= 2 && end_cell(p, sh, k - 1, n as int) == c {
            lemma_walk_step(m, p, sh, k, n);
            lemma_decode_end(p, sh, k - 1, n, num_masks, mask, last, s_idx);
            lemma_cell(mask as int, 0, 0, n as int, num_masks as int);
            lemma_cell(mask as int, last as int, s_idx as int, n as int, num_masks as int);
            assert(covered(p, sh, k - 1, n as int, c, 0, 0));
            assert(bounded_at(dp, link, m, p, sh, k - 1, n as int));
            assert(false);
        }
        assert(covered(p, sh, k, n as int, c, 0, 0));
    }
}

proof fn lemma_next_source(dp: Seq<i64>, link: Seq<u8>, m: Tables, n: usize, c: int)
    requires
        lower_bounds(dp, link, m, n as int, c, n as int, 0),
    ensures
        lower_bounds(dp, link, m, n as int, c + 1, 0, 0),
{
    assert forall|p: Seq<usize>, sh: Seq<i8>, k: int|
        walk_ok(p, sh, n as int) && 1 <= k <= n && covered(p, sh, k, n as int, c + 1, 0, 0) implies #[trigger] bounded_at(
            dp,
            link,
            m,
            p,
            sh,
            k,
            n as int,
        ) by {
        assert(covered(p, sh, k, n as int, c, n as int, 0));
    }
}

/// Every walk through all tracks ends in a reached cell of the full subset
/// whose cost is at most the walk's objective.
proof fn lemma_full_walks(dp: Seq<i64>, link: Seq<u8>, m: Tables, n: usize, num_masks: usize, p: Seq<usize>, sh: Seq<i8>)
    requires
        1 <= n <= 20,
        num_masks == 1usize << n,
        walk_ok(p, sh, n as int),
        lower_bounds(dp, link, m, n as int, cell(num_masks as int, 0, 0, n as int), 0, 0),
    ensures
        link[cell((num_masks - 1) as int, p[n - 1] as int, sh[p[n - 1] as int] + 1, n as int)] != 0,
        dp[cell((num_masks - 1) as int, p[n - 1] as int, sh[p[n - 1] as int] + 1, n as int)] <= m.path_cost(p, sh),
        p[n - 1] < n,
        0 <= sh[p[n - 1] as int] + 1 < 3,
{
    lemma_prefix_full(p, n);
    if n >= 2 {
        lemma_prefix_mask(p, n - 1, n);
        assert(is_shift(sh[p[n - 2] as int] as int));
        lemma_cell(prefix_mask(p, n - 1) as int, p[n - 2] as int, sh[p[n - 2] as int] + 1, n as int, num_masks as int);
        assert(cell(num_masks as int, 0, 0, n as int) == num_masks * n * 3) by (nonlinear_arith);
    }
    assert(covered(p, sh, n as int, n as int, cell(num_masks as int, 0, 0, n as int), 0, 0));
    assert(bounded_at(dp, link, m, p, sh, n as int, n as int));
    assert(is_shift(sh[p[n - 1] as int] as int));
    crate::cost::lemma_sum_w(m, p, sh, n - 1);
    lemma_masks(n);
    assert(prefix_mask(p, n as int) as int == num_masks - 1);
    assert(end_cell(p, sh, n as int, n as int) == cell((num_masks - 1) as int, p[n - 1] as int, sh[p[n - 1] as int] + 1, n as int));
    assert(walk_cost(m, p, sh, n as int) == m.path_cost(p, sh));
}

/// Walks the recorded predecessors back from a reached cell on the full subset.
fn backtrack(
    dp: &Vec<i64>,
    link: &Vec<u8>,
    full: usize,
    last: usize,
    s: usize,
    n: usize,
    num_masks: usize,
    size: usize,
    eff_sp: i64,
    m: Ghost<Tables>,
) -> (r: (Vec<usize>, Vec<i8>))
    requires
        1 <= n <= 20,
        m@.valid(),
        m@.num_tracks() == n,
        eff_sp == m@.params.shift_weight * m@.params.shift_penalty,
        num_masks == 1usize << n,
        2 <= num_masks <= 1048576,
        size == num_masks * n * 3,
        tables_ok(dp@, link@, n as int, size as int, m@, eff_sp as int, num_masks as int),
        full == num_masks - 1,
        forall|k: usize| k < n ==> in_mask(full, k),
        members_below(full, n as nat) == n,
        last < n,
        s < 3,
        link@[cell(full as int, last as int, s as int, n as int)] != 0,
    ensures
        is_permutation(r.0@, n as nat),
        r.1@.len() == n,
        valid_shifts(r.1@),
        m@.path_cost(r.0@, r.1@) == dp@[cell(full as int, last as int, s as int, n as int)],
{
    let ghost target = dp@[cell(full as int, last as int, s as int, n as int)] as int;
    let ghost ws = m@.params.shift_weight as int;
    let ghost sp = m@.params.shift_penalty as int;
    let mut order: Vec<usize> = vec![0usize; n];
    let mut shifts_out: Vec<i8> = vec![0i8; n];
    let mut cur_mask = full;
    let mut cur_last = last;
    let mut cur_s = s;
    let mut pos: usize = n;
    let mut done = false;
    assert(ws * (sp * 0) == 0) by (nonlinear_arith);
    while !done
        invariant
            1 <= n <= 20,
            num_masks == 1usize << n,
            2 <= num_masks <= 1048576,
            size == num_masks * n * 3,
            tables_ok(dp@, link@, n as int, size as int, m@, eff_sp as int, num_masks as int),
            cur_mask < num_masks,
            cur_last < n,
            cur_s < 3,
            pos <= n,
            order@.len() == n,
            shifts_out@.len() == n,
            valid_shifts(shifts_out@),
            forall|k: int| pos <= k < n ==> (order@[k] as int) < n,
            forall|k1: int, k2: int| pos <= k1 < k2 < n ==> order@[k1] != order@[k2],
            done ==> pos == 0,
            m@.valid(),
            m@.num_tracks() == n,
            ws == m@.params.shift_weight,
            sp == m@.params.shift_penalty,
            eff_sp == ws * sp,
            done ==> target == m@.tail_w(order@, shifts_out@, 0) + ws * (sp * m@.tail_shifted(
                order@,
                shifts_out@,
                0,
            )),
            !done ==> target == dp@[cell(cur_mask as int, cur_last as int, cur_s as int, n as int)]
                + (if pos < n {
                m@.edge(
                    cur_last as int,
                    order@[pos as int] as int,
                    cur_s - 1,
                    shifts_out@[order@[pos as int] as int] as int,
                )
            } else {
                0
            }) + m@.tail_w(order@, shifts_out@, pos as int) + ws * (sp * m@.tail_shifted(
                order@,
                shifts_out@,
                pos as int,
            )),
            !done ==> {
                &&& in_mask(cur_mask, cur_last)
                &&& link@[cell(cur_mask as int, cur_last as int, cur_s as int, n as int)] != 0
                &&& pos == members_below(cur_mask, n as nat)
                &&& forall|x: usize|
                    x < n ==> (in_mask(cur_mask, x) <==> !order@.subrange(
                        pos as int,
                        n as int,
                    ).contains(x))
            },
        decreases pos,
    {
        proof {
            lemma_members_remove(cur_mask, cur_last, n as nat);
            lemma_cell(cur_mask as int, cur_last as int, cur_s as int, n as int, num_masks as int);
        }
        let ghost filled = order@.subrange(pos as int, n as int);
        assert(!filled.contains(cur_last));
        let ghost o0 = order@;
        let ghost h0 = shifts_out@;
        pos = pos - 1;
        order.set(pos, cur_last);
        shifts_out.set(cur_last, cur_s as i8 - 1);
        proof {
            assert forall|j: int| #![trigger o0[j]] pos + 1 <= j < n implies o0[j] == order@[j] && h0[o0[j] as int] == shifts_out@[o0[j] as int] by {
                assert(filled[j - pos - 1] == o0[j]);
            }
            lemma_tail_frame(m@, o0, h0, order@, shifts_out@, pos + 1);
            if pos + 1 < n {
                assert(filled[0] == o0[pos + 1]);
            }
            let ind = if cur_s != 1 { 1int } else { 0 };
            assert(ws * (sp * (ind + m@.tail_shifted(o0, h0, pos + 1))) == ws * sp * ind + ws * (sp
                * m@.tail_shifted(o0, h0, pos + 1))) by (nonlinear_arith);
            if cur_s != 1 {
                assert(ws * sp * 1 == ws * sp) by (nonlinear_arith);
            } else {
                assert(ws * sp * 0 == 0) by (nonlinear_arith);
            }
            assert(shift_cost(cur_s as int, eff_sp as int) == ws * sp * ind);
        }
        assert(order@.subrange(pos as int, n as int) =~= seq![cur_last].add(filled));
        assert forall|k1: int, k2: int| pos <= k1 < k2 < n implies order@[k1] != order@[k2] by {
            if k1 == pos {
                assert(filled[k2 - pos - 1] == order@[k2]);
            }
        }
        let c = (cur_mask * n + cur_last) * 3 + cur_s;
        if cur_mask == (1usize << cur_last) {
            proof {
                lemma_members_single(cur_last, n as nat);
                assert(cell_ok(dp@, link@, c as int, n as int, size as int, m@, eff_sp as int, num_masks as int));
                if link@[c as int] >= 2 {
                    let pl = (link@[c as int] - 2) / 3;
                    lemma_remove(cur_mask, cur_last, pl as usize);
                    lemma_single(cur_last, pl as usize);
                }
                assert(dp@[c as int] == shift_cost(cur_s as int, eff_sp as int));
            }
            done = true;
        } else {
            assert(cell_ok(dp@, link@, c as int, n as int, size as int, m@, eff_sp as int, num_masks as int));
            let code = link[c];
            let pl = ((code - 2) / 3) as usize;
            let ps = ((code - 2) % 3) as usize;
            let pm = cur_mask ^ (1usize << cur_last);
            proof {
                lemma_remove(cur_mask, cur_last, cur_last);
                assert forall|x: usize|
                    x < n implies (in_mask(pm, x) <==> !order@.subrange(
                        pos as int,
                        n as int,
                    ).contains(x)) by {
                    lemma_remove(cur_mask, cur_last, x);
                    let now = order@.subrange(pos as int, n as int);
                    if x == cur_last {
                        assert(now[0] == x);
                    } else {
                        if filled.contains(x) {
                            let k = choose|k: int| 0 <= k < filled.len() && filled[k] == x;
                            assert(now[k + 1] == x);
                        }
                        if now.contains(x) {
                            let k = choose|k: int| 0 <= k < now.len() && now[k] == x;
                            assert(filled[k - 1] == x);
                        }
                    }
                }
            }
            cur_mask = pm;
            cur_last = pl;
            cur_s = ps;
        }
    }
    assert(order@.subrange(0, n as int) =~= order@);
    proof {
        lemma_tail_split(m@, order@, shifts_out@, n - 1);
        lemma_tail_shifted_split(m@, order@, shifts_out@, n as int);
        crate::cost::lemma_sum_w(m@, order@, shifts_out@, n - 1);
    }
    (order, shifts_out)
}


} // verus!
