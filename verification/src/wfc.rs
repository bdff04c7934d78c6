//! The incremental backtracking solver.
//!
//! The solver owns a trail of full board snapshots.  Each step either
//! collapses the unresolved cell with the fewest candidates (pushing a new
//! snapshot, after removing the tried value from the parent so the same
//! branch is never tried twice) or pops an exhausted snapshot.

use crate::board::{
    box_cell, box_of, box_pos, candidate_ok, cell_value_int, col_of, collapse_spec,
    collapsed_cell, in_grid, lemma_box_cell, lemma_mask_clear_has, lemma_rc, mask_clear,
    mask_count, mask_count_upto, mask_has, no_dup, row_of, same_group, seeded_board,
    seeded_cell_ok, values_in_range, Board, Cell,
};
use rand::seq::SliceRandom;
use vstd::prelude::*;

verus! {

/// Every candidate recorded in an unresolved cell is consistent with all
/// concrete cells of the three groups the cell belongs to.
pub open spec fn candidates_sound(s: Seq<Cell>) -> bool {
    forall|i: int, j: int, v: u8|
        #![trigger s[i].has_candidate(v), s[j]]
        in_grid(i) && in_grid(j) && i != j && same_group(i, j) && s[i].has_candidate(v)
            ==> s[j].value_spec() != Some(v)
}

/// A board mid-solve: fully seeded (no `Empty` cells), no rule violation
/// among its concrete values in 1..=9, and only sound candidates.
pub open spec fn solver_ok(s: Seq<Cell>) -> bool {
    s.len() == 81 && no_dup(s) && candidates_sound(s) && values_in_range(s) && (forall|i: int|
        in_grid(i) ==> !(#[trigger] s[i] is Empty))
}

/// A board with no unresolved cells left.
pub open spec fn board_done(s: Seq<Cell>) -> bool {
    forall|i: int| in_grid(i) ==> !(#[trigger] s[i] is Maybe)
}

/// The cell the search works on next: the unresolved cell with the fewest
/// remaining candidates, ties broken by the lowest linear index.
pub open spec fn is_best_choice(s: Seq<Cell>, i: int) -> bool {
    in_grid(i) && s[i] is Maybe && (forall|j: int|
        in_grid(j) && #[trigger] s[j] is Maybe ==> mask_count(s[j].mask_spec()) >= mask_count(
            s[i].mask_spec(),
        )) && (forall|j: int|
        0 <= j < i && #[trigger] s[j] is Maybe ==> mask_count(s[j].mask_spec()) > mask_count(
            s[i].mask_spec(),
        ))
}

/// What must hold of the value handed to [`Wfc::step_at`] for the chosen
/// cell: a still-open candidate, or `None` when the cell has none left.
pub open spec fn choice_ok(top: Seq<Cell>, ci: int, choice: Option<u8>) -> bool {
    match choice {
        Some(v) => top[ci].has_candidate(v),
        None => forall|v: u8| !top[ci].has_candidate(v),
    }
}

/// Effect of one resolved decision on the trail `t`: a push of the collapsed
/// copy (with the tried value first removed from the parent snapshot), or a
/// pop of the exhausted top.
pub open spec fn step_at_post(
    t: Seq<Seq<Cell>>,
    t2: Seq<Seq<Cell>>,
    ci: int,
    choice: Option<u8>,
    r: StepResult,
) -> bool {
    let top = t.last();
    match choice {
        Some(v) => {
            let parent = top.update(ci, top[ci].unset_spec(v));
            let child = collapse_spec(top, ci, v);
            &&& t2 == t.drop_last().push(parent).push(child)
            &&& r matches StepResult::InProgress(b) && b@ == child
        },
        None => {
            &&& t2 == t.drop_last()
            &&& (t.len() > 1 ==> (r matches StepResult::InProgress(b) && b@ == t[t.len() - 2]))
            &&& (t.len() == 1 ==> r is Impossible)
        },
    }
}

/// Effect of one full step on the trail: report completion when the top has
/// no unresolved cells, otherwise resolve the minimum-entropy cell with some
/// allowed choice.
pub open spec fn step_post(t: Seq<Seq<Cell>>, t2: Seq<Seq<Cell>>, r: StepResult) -> bool {
    let top = t.last();
    if board_done(top) {
        t2 == t && (r matches StepResult::Complete(b) && b@ == top)
    } else {
        exists|ci: int, choice: Option<u8>|
            #![trigger choice_ok(top, ci, choice)]
            is_best_choice(top, ci) && choice_ok(top, ci, choice) && step_at_post(
                t,
                t2,
                ci,
                choice,
                r,
            )
    }
}

/// Removing one candidate from one cell keeps a mid-solve board well formed.
pub proof fn lemma_unset_preserves_solver_ok(s: Seq<Cell>, idx: int, v: u8)
    requires
        solver_ok(s),
        in_grid(idx),
        1 <= v <= 9,
    ensures
        solver_ok(s.update(idx, s[idx].unset_spec(v))),
{
    let t = s.update(idx, s[idx].unset_spec(v));
    assert forall|j: int| in_grid(j) implies #[trigger] t[j].value_spec() == s[j].value_spec() && (
    t[j] is Maybe == s[j] is Maybe) && (t[j] is Empty == s[j] is Empty) by {}
    assert forall|j: int, w: u8|
        in_grid(j) && #[trigger] t[j].has_candidate(w) implies s[j].has_candidate(w) by {
        if j == idx && s[j] is Maybe {
            lemma_mask_clear_has(s[j].mask_spec(), v, w);
        }
    }
    assert forall|j: int|
        in_grid(j) && (#[trigger] t[j]).is_concrete() implies 1 <= cell_value_int(t[j]) <= 9 by {
        assert(t[j].value_spec() == s[j].value_spec());
    }
}

/// Collapsing a cell to one of its sound candidates keeps a mid-solve board
/// well formed: the new concrete value clashes with no concrete neighbour,
/// and propagation removes it from every neighbouring candidate set.
pub proof fn lemma_collapse_preserves_solver_ok(s: Seq<Cell>, idx: int, v: u8)
    requires
        solver_ok(s),
        in_grid(idx),
        s[idx].has_candidate(v),
    ensures
        solver_ok(collapse_spec(s, idx, v)),
{
    let t = collapse_spec(s, idx, v);
    assert forall|j: int| in_grid(j) implies #[trigger] t[j] == collapsed_cell(s, idx, v, j) by {}
    assert(t[idx] == Cell::Collapsed(v));
    assert forall|j: int|
        in_grid(j) && j != idx implies #[trigger] t[j].value_spec() == s[j].value_spec() && (
    t[j] is Maybe == s[j] is Maybe) && (t[j] is Empty == s[j] is Empty) by {}
    assert forall|j: int, w: u8|
        in_grid(j) && j != idx && #[trigger] t[j].has_candidate(w) implies s[j].has_candidate(w)
            && (same_group(j, idx) ==> w != v) by {
        if same_group(j, idx) && s[j] is Maybe {
            lemma_mask_clear_has(s[j].mask_spec(), v, w);
        }
    }
    assert forall|i: int, j: int|
        #![trigger t[i], t[j]]
        in_grid(i) && in_grid(j) && i != j && same_group(i, j) && t[i].is_concrete() implies
        t[i].value_spec() != t[j].value_spec() by {
        if i == idx {
            assert(s[idx].has_candidate(v) && same_group(idx, j));
            assert(s[j].value_spec() != Some(v));
        } else if j == idx {
            if t[i].value_spec() == Some(v) {
                assert(s[i].value_spec() == Some(v));
                assert(s[idx].has_candidate(v) && same_group(idx, i));
                assert(s[i].value_spec() != Some(v));
            }
        } else {
            assert(s[i].value_spec() != s[j].value_spec());
        }
    }
    assert forall|i: int, j: int, w: u8|
        #![trigger t[i].has_candidate(w), t[j]]
        in_grid(i) && in_grid(j) && i != j && same_group(i, j) && t[i].has_candidate(w) implies
        t[j].value_spec() != Some(w) by {
        assert(i != idx);
        assert(s[i].has_candidate(w));
        if j == idx {
            assert(same_group(i, idx) ==> w != v);
        } else {
            assert(s[j].value_spec() != Some(w));
        }
    }
    assert forall|j: int|
        in_grid(j) && (#[trigger] t[j]).is_concrete() implies 1 <= cell_value_int(t[j]) <= 9 by {
        if j != idx {
            assert(t[j].value_spec() == s[j].value_spec());
        }
    }
}

/// A freshly seeded duplicate-free board is a well-formed mid-solve board.
pub proof fn lemma_seed_solver_ok(s: Seq<Cell>, t: Seq<Cell>)
    requires
        s.len() == 81,
        no_dup(s),
        values_in_range(s),
        forall|i: int| in_grid(i) ==> !(#[trigger] s[i] is Maybe),
        seeded_board(s, t),
    ensures
        solver_ok(t),
{
    assert forall|j: int| in_grid(j) implies #[trigger] t[j].value_spec() == s[j].value_spec() && !(
    t[j] is Empty) by {}
    assert forall|j: int|
        in_grid(j) && (#[trigger] t[j]).is_concrete() implies 1 <= cell_value_int(t[j]) <= 9 by {
        assert(t[j].value_spec() == s[j].value_spec());
    }
    assert forall|i: int, j: int, w: u8|
        #![trigger t[i].has_candidate(w), t[j]]
        in_grid(i) && in_grid(j) && i != j && same_group(i, j) && t[i].has_candidate(w) implies
        t[j].value_spec() != Some(w) by {
        if s[i] is Empty {
            assert(seeded_cell_ok(s, t[i], i));
            assert(mask_has(t[i].mask_spec(), w));
            assert(candidate_ok(s, i, w));
            assert(s[j].value_spec() != Some(w));
        } else {
            assert(t[i] == s[i]);
            assert(!(s[i] is Maybe));
        }
    }
}

/// The number of candidates one cell contributes to a board's total.
pub open spec fn cell_candidates(c: Cell) -> nat {
    if c is Maybe {
        mask_count(c.mask_spec())
    } else {
        0
    }
}

/// Total number of candidates recorded in the first `n` cells of a board.
pub open spec fn total_candidates_upto(s: Seq<Cell>, n: int) -> nat
    decreases n,
{
    if n <= 0 {
        0
    } else {
        total_candidates_upto(s, n - 1) + cell_candidates(s[n - 1])
    }
}

/// Total number of candidates recorded on a board.
pub open spec fn total_candidates(s: Seq<Cell>) -> nat {
    total_candidates_upto(s, 81)
}

proof fn lemma_mask_clear_count_upto(m: u16, v: u8, k: int)
    requires
        1 <= v <= 9,
        k <= 9,
    ensures
        mask_count_upto(m, k) == mask_count_upto(mask_clear(m, v), k) + (if 1 <= v <= k
            && mask_has(m, v) {
            1nat
        } else {
            0nat
        }),
    decreases k,
{
    if k > 0 {
        lemma_mask_clear_count_upto(m, v, k - 1);
        lemma_mask_clear_has(m, v, k as u8);
    }
}

/// Removing a present candidate shrinks a mask's candidate count by one.
pub proof fn lemma_mask_clear_count(m: u16, v: u8)
    requires
        mask_has(m, v),
    ensures
        mask_count(mask_clear(m, v)) + 1 == mask_count(m),
{
    lemma_mask_clear_count_upto(m, v, 9);
}

proof fn lemma_total_upto_update(s: Seq<Cell>, idx: int, c: Cell, n: int)
    requires
        0 <= idx < s.len(),
        n <= s.len(),
    ensures
        total_candidates_upto(s.update(idx, c), n) + (if idx < n {
            cell_candidates(s[idx])
        } else {
            0nat
        }) == total_candidates_upto(s, n) + (if idx < n {
            cell_candidates(c)
        } else {
            0nat
        }),
    decreases n,
{
    if n > 0 {
        lemma_total_upto_update(s, idx, c, n - 1);
    }
}

/// Number of unresolved (`Maybe`) cells among the first `n` cells.
pub open spec fn maybe_count_upto(s: Seq<Cell>, n: int) -> nat
    decreases n,
{
    if n <= 0 {
        0
    } else {
        maybe_count_upto(s, n - 1) + (if s[n - 1] is Maybe {
            1nat
        } else {
            0nat
        })
    }
}

/// Number of unresolved cells on a board.
pub open spec fn maybe_count(s: Seq<Cell>) -> nat {
    maybe_count_upto(s, 81)
}

proof fn lemma_maybe_count_bound(s: Seq<Cell>, n: int)
    ensures
        maybe_count_upto(s, n) <= (if n <= 0 {
            0
        } else {
            n as nat
        }),
    decreases n,
{
    if n > 0 {
        lemma_maybe_count_bound(s, n - 1);
    }
}

proof fn lemma_maybe_count_one_resolved(s1: Seq<Cell>, s2: Seq<Cell>, ci: int, n: int)
    requires
        0 <= ci,
        s1[ci] is Maybe,
        !(s2[ci] is Maybe),
        forall|j: int| 0 <= j < n && j != ci ==> ((#[trigger] s2[j] is Maybe) == s1[j] is Maybe),
    ensures
        maybe_count_upto(s2, n) + (if ci < n {
            1nat
        } else {
            0nat
        }) == maybe_count_upto(s1, n),
    decreases n,
{
    if n > 0 {
        lemma_maybe_count_one_resolved(s1, s2, ci, n - 1);
    }
}

proof fn lemma_maybe_count_same_statuses(s1: Seq<Cell>, s2: Seq<Cell>, n: int)
    requires
        forall|j: int| 0 <= j < n ==> ((#[trigger] s2[j] is Maybe) == s1[j] is Maybe),
    ensures
        maybe_count_upto(s2, n) == maybe_count_upto(s1, n),
    decreases n,
{
    if n > 0 {
        lemma_maybe_count_same_statuses(s1, s2, n - 1);
    }
}

/// Collapsing one unresolved cell resolves exactly that cell.
pub proof fn lemma_maybe_count_collapse(top: Seq<Cell>, ci: int, v: u8)
    requires
        top.len() == 81,
        in_grid(ci),
        top[ci] is Maybe,
    ensures
        maybe_count(collapse_spec(top, ci, v)) + 1 == maybe_count(top),
{
    let child = collapse_spec(top, ci, v);
    assert forall|j: int| 0 <= j < 81 && j != ci implies ((#[trigger] child[j] is Maybe)
        == top[j] is Maybe) by {
        assert(child[j] == collapsed_cell(top, ci, v, j));
    }
    assert(child[ci] == collapsed_cell(top, ci, v, ci));
    lemma_maybe_count_one_resolved(top, child, ci, 81);
}

/// Removing a candidate from a cell resolves nothing.
pub proof fn lemma_maybe_count_unset(top: Seq<Cell>, ci: int, v: u8)
    requires
        top.len() == 81,
        in_grid(ci),
        top[ci] is Maybe,
    ensures
        maybe_count(top.update(ci, top[ci].unset_spec(v))) == maybe_count(top),
{
    lemma_maybe_count_same_statuses(top, top.update(ci, top[ci].unset_spec(v)), 81);
}

/// Along the trail, each snapshot has exactly one unresolved cell fewer than
/// the one below it: each push collapsed one cell.  This bounds the trail's
/// depth by the number of cells.
pub open spec fn trail_depths_ok(t: Seq<Seq<Cell>>) -> bool {
    forall|k: int|
        0 <= k < t.len() ==> (#[trigger] t[k]).len() == 81 && maybe_count(t[k]) + k == maybe_count(
            t[0],
        )
}

/// A trail with strictly descending unresolved counts cannot be deeper than
/// one snapshot per cell plus the root.
pub proof fn lemma_trail_depth_bound(t: Seq<Seq<Cell>>)
    requires
        t.len() > 0,
        trail_depths_ok(t),
    ensures
        t.len() <= 82,
{
    if t.len() > 82 {
        assert(maybe_count(t[82]) + 82 == maybe_count(t[0]));
        lemma_maybe_count_bound(t[0], 81);
    }
}

/// One resolved decision keeps the trail's depth bookkeeping intact.
pub proof fn lemma_step_keeps_depths(
    t: Seq<Seq<Cell>>,
    t2: Seq<Seq<Cell>>,
    ci: int,
    choice: Option<u8>,
    r: StepResult,
)
    requires
        t.len() > 0,
        trail_depths_ok(t),
        in_grid(ci),
        t.last()[ci] is Maybe,
        step_at_post(t, t2, ci, choice, r),
    ensures
        trail_depths_ok(t2),
{
    let n = t.len() as int;
    match choice {
        Some(v) => {
            let top = t.last();
            let parent = top.update(ci, top[ci].unset_spec(v));
            let child = collapse_spec(top, ci, v);
            lemma_maybe_count_unset(top, ci, v);
            lemma_maybe_count_collapse(top, ci, v);
            assert forall|k: int|
                0 <= k < t2.len() implies (#[trigger] t2[k]).len() == 81 && maybe_count(t2[k]) + k
                == maybe_count(t2[0]) by {
                if k < n - 1 {
                    assert(t2[k] == t[k]);
                } else if k == n - 1 {
                    assert(t2[k] == parent);
                } else {
                    assert(t2[k] == child);
                }
                if n == 1 {
                    assert(t2[0] == parent && top == t[0]);
                } else {
                    assert(t2[0] == t[0]);
                }
                assert(maybe_count(t2[0]) == maybe_count(t[0]));
            }
        },
        None => {
            assert forall|k: int|
                0 <= k < t2.len() implies (#[trigger] t2[k]).len() == 81 && maybe_count(t2[k]) + k
                == maybe_count(t2[0]) by {
                assert(t2[k] == t[k]);
                assert(t2[0] == t[0]);
            }
        },
    }
}

/// Each pushed decision permanently removes the tried value from the parent
/// snapshot left on the trail, strictly shrinking that snapshot's total
/// candidate count; each pop discards a snapshot outright.  Together these
/// bound the search: no trail state can ever recur, so repeated steps cannot
/// run forever.
pub proof fn lemma_push_shrinks_parent(top: Seq<Cell>, ci: int, v: u8)
    requires
        top.len() == 81,
        in_grid(ci),
        top[ci].has_candidate(v),
    ensures
        total_candidates(top.update(ci, top[ci].unset_spec(v))) < total_candidates(top),
{
    lemma_mask_clear_count(top[ci].mask_spec(), v);
    lemma_total_upto_update(top, ci, top[ci].unset_spec(v), 81);
}

proof fn lemma_mask_count_bound(m: u16, k: int)
    ensures
        mask_count_upto(m, k) <= (if k <= 0 {
            0nat
        } else {
            k as nat
        }),
    decreases k,
{
    if k > 0 {
        lemma_mask_count_bound(m, k - 1);
    }
}

proof fn lemma_total_candidates_bound(s: Seq<Cell>, n: int)
    ensures
        total_candidates_upto(s, n) <= (if n <= 0 {
            0nat
        } else {
            9 * n as nat
        }),
    decreases n,
{
    if n > 0 {
        lemma_total_candidates_bound(s, n - 1);
        lemma_mask_count_bound(s[n - 1].mask_spec(), 9);
    }
}

proof fn lemma_maybe_count_at_least_one(s: Seq<Cell>, ci: int, n: int)
    requires
        0 <= ci < n,
        s[ci] is Maybe,
    ensures
        maybe_count_upto(s, n) >= 1,
    decreases n,
{
    if ci < n - 1 {
        lemma_maybe_count_at_least_one(s, ci, n - 1);
    }
}

/// The weight base of the trail measure: one more than the largest possible
/// per-snapshot weight (a board holds at most 81 * 9 = 729 candidates, so a
/// snapshot weighs at most 730).
pub open spec fn pow_weight(n: nat) -> nat
    decreases n,
{
    if n == 0 {
        1
    } else {
        731 * pow_weight((n - 1) as nat)
    }
}

proof fn lemma_pow_weight_pos(n: nat)
    ensures
        pow_weight(n) >= 1,
    decreases n,
{
    if n > 0 {
        lemma_pow_weight_pos((n - 1) as nat);
    }
}

/// The well-founded measure of a trail: each snapshot's candidate count,
/// weighted so heavily by its depth that removing one candidate from the
/// parent outweighs pushing any possible child below it.
pub open spec fn trail_measure_from(t: Seq<Seq<Cell>>, k: int) -> nat
    decreases t.len() - k,
{
    if k < 0 || k >= t.len() {
        0
    } else {
        (1 + total_candidates(t[k])) * pow_weight((82 - k) as nat) + trail_measure_from(t, k + 1)
    }
}

/// See [`trail_measure_from`].
pub open spec fn trail_measure(t: Seq<Seq<Cell>>) -> nat {
    trail_measure_from(t, 0)
}

proof fn lemma_measure_pop(t: Seq<Seq<Cell>>, k: int)
    requires
        t.len() >= 1,
        0 <= k <= t.len() - 1,
    ensures
        trail_measure_from(t, k) == trail_measure_from(t.drop_last(), k) + (1 + total_candidates(
            t[t.len() - 1],
        )) * pow_weight((82 - (t.len() - 1)) as nat),
    decreases t.len() - k,
{
    let t2 = t.drop_last();
    if k == t.len() - 1 {
        assert(trail_measure_from(t, k + 1) == 0);
        assert(trail_measure_from(t2, k) == 0);
    } else {
        lemma_measure_pop(t, k + 1);
        assert(t2[k] == t[k]);
    }
}

proof fn lemma_measure_push(t: Seq<Seq<Cell>>, parent: Seq<Cell>, child: Seq<Cell>, k: int)
    requires
        t.len() >= 1,
        0 <= k <= t.len() - 1,
    ensures
        trail_measure_from(t.drop_last().push(parent).push(child), k) == trail_measure_from(
            t.drop_last(),
            k,
        ) + (1 + total_candidates(parent)) * pow_weight((82 - (t.len() - 1)) as nat) + (1
            + total_candidates(child)) * pow_weight((82 - t.len()) as nat),
    decreases t.len() - k,
{
    let n = t.len() as int;
    let t2 = t.drop_last().push(parent).push(child);
    if k == n - 1 {
        assert(t2[n - 1] == parent);
        assert(t2[n] == child);
        assert(trail_measure_from(t2, n + 1) == 0);
        assert(trail_measure_from(t2, n) == (1 + total_candidates(child)) * pow_weight(
            (82 - n) as nat,
        ) + trail_measure_from(t2, n + 1));
        assert(trail_measure_from(t2, n - 1) == (1 + total_candidates(parent)) * pow_weight(
            (82 - (n - 1)) as nat,
        ) + trail_measure_from(t2, n));
        assert(trail_measure_from(t.drop_last(), k) == 0);
    } else {
        lemma_measure_push(t, parent, child, k + 1);
        assert(t2[k] == t[k]);
        assert(t.drop_last()[k] == t[k]);
    }
}

/// One resolved decision strictly decreases the trail measure: a pop drops a
/// whole snapshot, and a push first removes the tried value from the parent,
/// which outweighs any child added at the next depth.  Since the measure is
/// a natural number, no run of decisions can go on forever: repeated steps
/// must end in `Complete` or `Impossible`.
pub proof fn lemma_step_decreases_measure(
    t: Seq<Seq<Cell>>,
    t2: Seq<Seq<Cell>>,
    ci: int,
    choice: Option<u8>,
    r: StepResult,
)
    requires
        t.len() > 0,
        trail_depths_ok(t),
        in_grid(ci),
        t.last()[ci] is Maybe,
        choice_ok(t.last(), ci, choice),
        step_at_post(t, t2, ci, choice, r),
    ensures
        trail_measure(t2) < trail_measure(t),
{
    let n = t.len() as int;
    lemma_trail_depth_bound(t);
    lemma_measure_pop(t, 0);
    match choice {
        None => {
            let w = (1 + total_candidates(t[n - 1])) * pow_weight((82 - (n - 1)) as nat);
            lemma_pow_weight_pos((82 - (n - 1)) as nat);
            assert(w >= 1) by (nonlinear_arith)
                requires
                    w == (1 + total_candidates(t[n - 1])) * pow_weight((82 - (n - 1)) as nat)
                        && pow_weight((82 - (n - 1)) as nat) >= 1,
            ;
        },
        Some(v) => {
            let top = t.last();
            let parent = top.update(ci, top[ci].unset_spec(v));
            let child = collapse_spec(top, ci, v);
            lemma_measure_push(t, parent, child, 0);
            lemma_push_shrinks_parent(top, ci, v);
            lemma_total_candidates_bound(child, 81);
            lemma_maybe_count_at_least_one(top, ci, 81);
            assert(maybe_count(top) + (n - 1) == maybe_count(t[0]));
            lemma_maybe_count_bound(t[0], 81);
            assert(n <= 81);
            let p = pow_weight((82 - n) as nat);
            assert(pow_weight((82 - (n - 1)) as nat) == 731 * p);
            lemma_pow_weight_pos((82 - n) as nat);
            let a = total_candidates(top);
            let b = total_candidates(parent);
            let c = total_candidates(child);
            assert((1 + b) * (731 * p) + (1 + c) * p < (1 + a) * (731 * p)) by (nonlinear_arith)
                requires
                    b + 1 <= a && c <= 729 && p >= 1,
            ;
        },
    }
}

/// A pushed decision removes the tried value from the parent snapshot that
/// stays on the trail: the parent's cell no longer offers that value, and
/// keeps exactly its other candidates.  Any later step taken from that
/// snapshot must pick one of the remaining candidates, so the search never
/// retries a (cell, value) pair abandoned at the same trail depth.
pub proof fn lemma_no_revisit(top: Seq<Cell>, ci: int, v: u8, v2: u8)
    requires
        top.len() == 81,
        in_grid(ci),
        top[ci] is Maybe,
        1 <= v <= 9,
    ensures
        !top.update(ci, top[ci].unset_spec(v))[ci].has_candidate(v),
        top.update(ci, top[ci].unset_spec(v))[ci].has_candidate(v2) ==> v2 != v
            && top[ci].has_candidate(v2),
{
    lemma_mask_clear_has(top[ci].mask_spec(), v, v);
    lemma_mask_clear_has(top[ci].mask_spec(), v, v2);
}

/// Nine distinct cells that carry nine pairwise distinct concrete values
/// from 1..=9 must carry every value of 1..=9: there are only nine to go
/// around.
proof fn lemma_group_covers(s: Seq<Cell>, idxs: Seq<int>, v: u8)
    requires
        s.len() == 81,
        idxs.len() == 9,
        forall|k: int| 0 <= k < 9 ==> in_grid(#[trigger] idxs[k]),
        forall|k: int| 0 <= k < 9 ==> (#[trigger] s[idxs[k]]).is_concrete(),
        forall|k: int| 0 <= k < 9 ==> 1 <= cell_value_int(#[trigger] s[idxs[k]]) <= 9,
        forall|k1: int, k2: int|
            0 <= k1 < k2 < 9 ==> s[#[trigger] idxs[k1]].value_spec() != s[#[trigger] idxs[k2]].value_spec(),
        1 <= v <= 9,
    ensures
        exists|k: int| 0 <= k < 9 && s[#[trigger] idxs[k]].value_spec() == Some(v),
{
    let vals = Seq::new(9, |k: int| cell_value_int(s[idxs[k]]));
    assert forall|k1: int, k2: int|
        0 <= k1 < vals.len() && 0 <= k2 < vals.len() && k1 != k2 implies vals[k1] != vals[k2] by {
        assert(s[idxs[k1]].is_concrete() && s[idxs[k2]].is_concrete());
        assert(s[idxs[k1]].value_spec() != s[idxs[k2]].value_spec());
    }
    assert(vals.no_duplicates());
    vals.unique_seq_to_set();
    vstd::set_lib::lemma_int_range(1, 10);
    assert forall|x: int| vals.to_set().contains(x) implies vstd::set_lib::set_int_range(
        1,
        10,
    ).contains(x) by {
        assert(vals.contains(x));
        let k = choose|k: int| 0 <= k < vals.len() && vals[k] == x;
        assert(1 <= vals[k] <= 9);
    }
    vstd::set_lib::lemma_subset_equality(vals.to_set(), vstd::set_lib::set_int_range(1, 10));
    assert(vals.to_set().contains(v as int));
    assert(vals.contains(v as int));
    let k = choose|k: int| 0 <= k < vals.len() && vals[k] == v as int;
    assert(s[idxs[k]].value_spec() == Some(v)) by {
        assert(s[idxs[k]].is_concrete());
        assert(cell_value_int(s[idxs[k]]) == v as int);
    }
}

/// A finished solve is a valid Sudoku solution: for every value 1..=9 and
/// every group index, some cell of that row, of that column, and of that box
/// holds the value.  Together with [`no_dup`] (part of [`solver_ok`]), each
/// group holds each value exactly once.
pub proof fn lemma_complete_board_covers(s: Seq<Cell>, v: u8, g: int)
    requires
        board_done(s),
        solver_ok(s),
        1 <= v <= 9,
        0 <= g < 9,
    ensures
        exists|i: int| in_grid(i) && row_of(i) == g && (#[trigger] s[i]).value_spec() == Some(v),
        exists|i: int| in_grid(i) && col_of(i) == g && (#[trigger] s[i]).value_spec() == Some(v),
        exists|i: int| in_grid(i) && box_of(i) == g && (#[trigger] s[i]).value_spec() == Some(v),
{
    assert forall|i: int| in_grid(i) implies (#[trigger] s[i]).is_concrete() by {
        assert(!(s[i] is Maybe) && !(s[i] is Empty));
    }
    let rows = Seq::new(9, |k: int| g * 9 + k);
    assert forall|k: int| 0 <= k < 9 implies in_grid(#[trigger] rows[k]) && row_of(rows[k])
        == g by {
        lemma_rc(g, k);
    }
    lemma_group_covers(s, rows, v);
    let kr = choose|k: int| 0 <= k < 9 && s[#[trigger] rows[k]].value_spec() == Some(v);
    assert(in_grid(rows[kr]) && row_of(rows[kr]) == g && s[rows[kr]].value_spec() == Some(v));

    let cols = Seq::new(9, |k: int| k * 9 + g);
    assert forall|k: int| 0 <= k < 9 implies in_grid(#[trigger] cols[k]) && col_of(cols[k])
        == g by {
        lemma_rc(k, g);
    }
    lemma_group_covers(s, cols, v);
    let kc = choose|k: int| 0 <= k < 9 && s[#[trigger] cols[k]].value_spec() == Some(v);
    assert(in_grid(cols[kc]) && col_of(cols[kc]) == g && s[cols[kc]].value_spec() == Some(v));

    let boxes = Seq::new(9, |k: int| box_cell(g, k));
    assert forall|k: int| 0 <= k < 9 implies in_grid(#[trigger] boxes[k]) && box_of(boxes[k]) == g
        && box_pos(boxes[k]) == k by {
        lemma_box_cell(g, k);
    }
    assert forall|k1: int, k2: int| 0 <= k1 < k2 < 9 implies boxes[k1] != boxes[k2] by {
        assert(box_pos(boxes[k1]) != box_pos(boxes[k2]));
    }
    lemma_group_covers(s, boxes, v);
    let kb = choose|k: int| 0 <= k < 9 && s[#[trigger] boxes[k]].value_spec() == Some(v);
    assert(in_grid(boxes[kb]) && box_of(boxes[kb]) == g && s[boxes[kb]].value_spec() == Some(v));
}

/// The outcomes of one solver step.
pub enum StepResult {
    Complete(Board),
    InProgress(Board),
    Impossible,
}

/// The incremental solver: a trail of board snapshots, bottom = initial
/// seeded board, top = current working state.
pub struct Wfc {
    pub stack: Vec<Board>,
}

impl Default for Wfc {
    fn default() -> (r: Self)
        ensures
            r.stack@.len() == 0,
    {
        Wfc { stack: Vec::new() }
    }
}

impl Wfc {
    /// The boards on the trail, bottom first, as sequences of cells.
    pub open spec fn trail(self) -> Seq<Seq<Cell>> {
        Seq::new(self.stack@.len(), |k: int| self.stack@[k]@)
    }

    /// Every snapshot on the trail is a well-formed mid-solve board.
    pub open spec fn inv(self) -> bool {
        forall|k: int| 0 <= k < self.trail().len() ==> solver_ok(#[trigger] self.trail()[k])
    }

    /// Reset the trail to the single snapshot `b` (expected to be already
    /// seeded by `Board::init_maybe`).
    pub fn init(&mut self, b: Board)
        ensures
            final(self).trail() == seq![b@],
            solver_ok(b@) ==> final(self).inv(),
            trail_depths_ok(final(self).trail()),
    {
        let mut stack: Vec<Board> = Vec::new();
        stack.push(b);
        self.stack = stack;
        proof {
            assert(self.trail() =~= seq![b@]);
        }
    }

    /// Apply one already-resolved decision: collapse `ci` to `choice` (after
    /// removing the value from the parent snapshot, so the branch cannot be
    /// retried), or pop the exhausted top when no candidate is left.
    pub fn step_at(&mut self, ci: usize, choice: Option<u8>) -> (r: StepResult)
        requires
            old(self).stack@.len() > 0,
            ci < 81,
            old(self).trail().last()[ci as int] is Maybe,
            choice_ok(old(self).trail().last(), ci as int, choice),
        ensures
            step_at_post(old(self).trail(), final(self).trail(), ci as int, choice, r),
            old(self).inv() ==> final(self).inv(),
            trail_depths_ok(old(self).trail()) ==> trail_depths_ok(final(self).trail())
                && trail_measure(final(self).trail()) < trail_measure(old(self).trail()),
    {
        let ghost t = old(self).trail();
        let n = self.stack.len();
        let top: Board = self.stack[n - 1];
        proof {
            assert(top@ == t.last());
        }
        match choice {
            Some(v) => {
                proof {
                    assert(top@[ci as int].has_candidate(v));
                    assert(1 <= v <= 9);
                }
                let mut parent = top;
                parent.unset_candidate(ci, v);
                let mut child = top;
                child.collapse(ci, v);
                self.stack[n - 1] = parent;
                self.stack.push(child);
                proof {
                    assert(self.trail() =~= t.drop_last().push(parent@).push(child@));
                    if trail_depths_ok(t) {
                        let r0 = StepResult::InProgress(child);
                        assert(step_at_post(t, self.trail(), ci as int, choice, r0));
                        lemma_step_keeps_depths(t, self.trail(), ci as int, choice, r0);
                        lemma_step_decreases_measure(t, self.trail(), ci as int, choice, r0);
                    }
                    if old(self).inv() {
                        assert forall|k: int|
                            0 <= k < self.trail().len() implies solver_ok(
                            #[trigger] self.trail()[k],
                        ) by {
                            if k < n - 1 {
                                assert(self.trail()[k] == t[k]);
                                assert(solver_ok(t[k]));
                            } else {
                                assert(solver_ok(t[n - 1]));
                                lemma_unset_preserves_solver_ok(top@, ci as int, v);
                                lemma_collapse_preserves_solver_ok(top@, ci as int, v);
                            }
                        }
                    }
                }
                StepResult::InProgress(child)
            },
            None => {
                self.stack.pop();
                proof {
                    assert(self.trail() =~= t.drop_last());
                    if old(self).inv() {
                        assert forall|k: int|
                            0 <= k < self.trail().len() implies solver_ok(
                            #[trigger] self.trail()[k],
                        ) by {
                            assert(self.trail()[k] == t[k]);
                            assert(solver_ok(t[k]));
                        }
                    }
                }
                if self.stack.len() > 0 {
                    let b = self.stack[self.stack.len() - 1];
                    proof {
                        assert(b@ == t[t.len() - 2]);
                        if trail_depths_ok(t) {
                            let r0 = StepResult::InProgress(b);
                            assert(step_at_post(t, self.trail(), ci as int, choice, r0));
                            lemma_step_keeps_depths(t, self.trail(), ci as int, choice, r0);
                            lemma_step_decreases_measure(t, self.trail(), ci as int, choice, r0);
                        }
                    }
                    StepResult::InProgress(b)
                } else {
                    proof {
                        if trail_depths_ok(t) {
                            let r0 = StepResult::Impossible;
                            assert(step_at_post(t, self.trail(), ci as int, choice, r0));
                            lemma_step_keeps_depths(t, self.trail(), ci as int, choice, r0);
                            lemma_step_decreases_measure(t, self.trail(), ci as int, choice, r0);
                        }
                    }
                    StepResult::Impossible
                }
            },
        }
    }

    /// Advance the search by exactly one decision: report `Complete` when the
    /// top snapshot has no unresolved cells; otherwise pick the unresolved
    /// cell with the fewest candidates (lowest index on ties), choose one of
    /// its remaining values at random, and push the collapsed copy — or pop
    /// the snapshot when the cell has no values left, reporting `Impossible`
    /// once the trail is empty.
    pub fn step(&mut self) -> (r: StepResult)
        requires
            old(self).stack@.len() > 0,
        ensures
            step_post(old(self).trail(), final(self).trail(), r),
            old(self).inv() ==> final(self).inv(),
            r matches StepResult::Complete(b) ==> board_done(b@) && (old(self).inv()
                ==> solver_ok(b@)),
            trail_depths_ok(old(self).trail()) ==> trail_depths_ok(final(self).trail()),
            trail_depths_ok(old(self).trail()) && !board_done(old(self).trail().last())
                ==> trail_measure(final(self).trail()) < trail_measure(old(self).trail()),
    {
        let ghost t = old(self).trail();
        let n = self.stack.len();
        let top: Board = self.stack[n - 1];
        proof {
            assert(top@ == t.last());
        }
        let unc = top.get_uncollapsed();
        if unc.len() == 0 {
            proof {
                assert forall|i: int| in_grid(i) implies !(#[trigger] top@[i] is Maybe) by {
                    if top@[i] is Maybe {
                        let k = choose|k: int| 0 <= k < unc@.len() && #[trigger] unc@[k].0 == i;
                    }
                }
                assert(board_done(top@));
                if old(self).inv() {
                    assert(solver_ok(t[n - 1]));
                }
            }
            return StepResult::Complete(top);
        }
        let mut best_k: usize = 0;
        proof {
            assert(in_grid(unc@[0].0 as int));
        }
        let mut best_e: u8 = unc[0].1.entropy();
        let mut x: usize = 1;
        while x < unc.len()
            invariant
                unc@.len() > 0,
                best_k < x <= unc@.len(),
                forall|k: int|
                    0 <= k < unc@.len() ==> in_grid(#[trigger] unc@[k].0 as int) && unc@[k].1
                        == top@[unc@[k].0 as int] && top@[unc@[k].0 as int] is Maybe,
                forall|k1: int, k2: int| 0 <= k1 < k2 < unc@.len() ==> unc@[k1].0 < unc@[k2].0,
                best_e as nat == mask_count(unc@[best_k as int].1.mask_spec()),
                forall|k: int|
                    0 <= k < x ==> mask_count(#[trigger] unc@[k].1.mask_spec()) >= best_e as nat,
                forall|k: int|
                    0 <= k < best_k ==> mask_count(#[trigger] unc@[k].1.mask_spec()) > best_e as nat,
            decreases unc@.len() - x,
        {
            let e = unc[x].1.entropy();
            if e < best_e {
                best_k = x;
                best_e = e;
            }
            x = x + 1;
        }
        let ci = unc[best_k].0;
        proof {
            assert(in_grid(unc@[best_k as int].0 as int));
            assert(ci == unc@[best_k as int].0);
            assert forall|j: int|
                in_grid(j) && #[trigger] top@[j] is Maybe implies mask_count(top@[j].mask_spec())
                    >= mask_count(top@[ci as int].mask_spec()) by {
                let k = choose|k: int| 0 <= k < unc@.len() && #[trigger] unc@[k].0 == j;
                assert(mask_count(unc@[k].1.mask_spec()) >= best_e as nat);
            }
            assert forall|j: int|
                0 <= j < ci && #[trigger] top@[j] is Maybe implies mask_count(top@[j].mask_spec())
                    > mask_count(top@[ci as int].mask_spec()) by {
                assert(in_grid(ci as int));
                assert(in_grid(j));
                assert(exists|k: int| 0 <= k < unc@.len() && #[trigger] unc@[k].0 == j);
                let k = choose|k: int| 0 <= k < unc@.len() && #[trigger] unc@[k].0 == j;
                if k > best_k as int {
                    assert(unc@[best_k as int].0 < unc@[k].0);
                    assert(false);
                } else if k == best_k as int {
                    assert(false);
                } else {
                    assert(mask_count(unc@[k].1.mask_spec()) > best_e as nat);
                }
            }
            assert(is_best_choice(top@, ci as int));
        }
        let cell = top.cell_at(ci);
        let vals = cell.maybe_values();
        let choice = choose_value(&vals);
        proof {
            match choice {
                Some(v) => {
                    assert(vals@.contains(v));
                    let k = choose|k: int| 0 <= k < vals@.len() && vals@[k] == v;
                    assert(mask_has(cell.mask_spec(), vals@[k]));
                    assert(top@[ci as int].has_candidate(v));
                },
                None => {
                    assert(vals@.len() == 0);
                    assert forall|v: u8| !(#[trigger] top@[ci as int].has_candidate(v)) by {
                        if mask_has(cell.mask_spec(), v) {
                            assert(vals@.contains(v));
                        }
                    }
                },
            }
            assert(choice_ok(top@, ci as int, choice));
        }
        let r = self.step_at(ci, choice);
        proof {
            assert(!board_done(t.last())) by {
                assert(top@[ci as int] is Maybe);
            }
            assert(is_best_choice(t.last(), ci as int) && choice_ok(t.last(), ci as int, choice)
                && step_at_post(t, self.trail(), ci as int, choice, r));
        }
        r
    }
}

/// Relies on rand's `SliceRandom::choose` with `rand::thread_rng`: it
/// returns `None` exactly on an empty slice and otherwise one of the
/// slice's elements, picked at random.
#[verifier::external_body]
fn choose_value(vals: &Vec<u8>) -> (r: Option<u8>)
    ensures
        r is Some <==> vals@.len() > 0,
        r matches Some(v) ==> vals@.contains(v),
{
    vals.as_slice().choose(&mut rand::thread_rng()).copied()
}

} // verus!
