use vstd::prelude::*;
use crate::compiled_model::CompiledModel;
use crate::dimensions::Dimensions;
use crate::random::{seeded_rng, SeededRng};
use crate::solution::Solution;
use crate::solver_run_configuration::{
    attempt_limit, ContradictionStrategy, SolverError, SolverRunError,
};
use crate::cell::{total_weight, weighted_pick, Cell};
use crate::simple_bit_set::{ascending, SimpleBitSet};
use crate::wfc_state::{
    allowed_by, cell_wf, collapses_forced, forced, lemma_step_keeps_settled, rule_at, lemma_uncollapsed_count_zero, narrows, neighbour,
    propagated, ruled_out, settled, shrinks, solvable, touched, WfcState,
};

verus! {

/// The seed of attempt `k` of a run seeded with `run_seed`: the run seed plus `k`,
/// wrapping around at the end of the `u64` range.
pub open spec fn attempt_seed(run_seed: u64, k: int) -> u64 {
    vstd::wrapping::u64_specs::wrapping_add(run_seed, k as u64)
}

/// Attempt `k` of a run seeded with `run_seed` may give `outcome`: `run_attempt` may
/// return it for the attempt's seed.
pub open spec fn attempt_gives<F: FnMut(u64) -> Result<Solution, SolverRunError>>(
    run_attempt: F,
    run_seed: u64,
    k: int,
    outcome: Result<Solution, SolverRunError>,
) -> bool {
    call_ensures(run_attempt, (attempt_seed(run_seed, k),), outcome)
}

/// The outcomes of the attempts that were made: each came from `run_attempt` with its own
/// seed, and every attempt but the last failed.
pub open spec fn attempts_made<F: FnMut(u64) -> Result<Solution, SolverRunError>>(
    run_attempt: F,
    run_seed: u64,
    outcomes: Seq<Result<Solution, SolverRunError>>,
) -> bool {
    &&& forall|k: int| 0 <= k < outcomes.len() ==> #[trigger] attempt_gives::<F>(run_attempt, run_seed, k, outcomes[k])
    &&& forall|k: int| 0 <= k < outcomes.len() - 1 ==> (#[trigger] outcomes[k]) is Err
}

/// Runs `run_attempt` with the seeds `run_seed`, `run_seed + 1`, ... (wrapping) until one
/// run succeeds or the strategy allows no more runs. Returns the first solution found, or
/// `AttemptsExhausted` when every allowed run failed.
pub fn run_with_contradiction_strategy<F: FnMut(u64) -> Result<Solution, SolverRunError>>(
    run_seed: u64,
    contradiction_strategy: &ContradictionStrategy,
    run_attempt: F,
) -> (r: Result<Solution, SolverError>)
    requires
        forall|seed: u64| call_requires(run_attempt, (seed,)),
    ensures
        exists|outcomes: Seq<Result<Solution, SolverRunError>>|
            {
                &&& 0 < outcomes.len() <= attempt_limit(*contradiction_strategy)
                &&& attempts_made::<F>(run_attempt, run_seed, outcomes)
                &&& match r {
                    Ok(solution) => {
                        &&& outcomes.last() == Ok::<Solution, SolverRunError>(solution)
                        &&& attempt_gives::<F>(run_attempt, run_seed, outcomes.len() - 1, outcomes.last())
                    },
                    Err(e) => {
                        &&& e == SolverError::AttemptsExhausted
                        &&& outcomes.len() == attempt_limit(*contradiction_strategy)
                        &&& outcomes.last() is Err
                    },
                }
            },
{
    let ghost attempt = run_attempt;
    let mut try_attempt = run_attempt;
    let max_attempts: u32 = match contradiction_strategy {
        ContradictionStrategy::Fail => 1,
        ContradictionStrategy::Retry { max_attempts } => max_attempts.get(),
    };
    let ghost mut outcomes: Seq<Result<Solution, SolverRunError>> = Seq::empty();
    let mut attempt_index: u32 = 0;
    while attempt_index < max_attempts
        invariant
            0 <= attempt_index <= max_attempts,
            max_attempts == attempt_limit(*contradiction_strategy),
            max_attempts > 0,
            try_attempt == attempt,
            attempt == run_attempt,
            forall|seed: u64| call_requires(try_attempt, (seed,)),
            outcomes.len() == attempt_index,
            attempts_made::<F>(attempt, run_seed, outcomes),
            forall|k: int| 0 <= k < outcomes.len() ==> (#[trigger] outcomes[k]) is Err,
        decreases max_attempts - attempt_index,
    {
        let derived_seed = run_seed.wrapping_add(attempt_index as u64);
        let outcome = try_attempt(derived_seed);
        let ghost before = outcomes;
        proof {
            assert(attempt_seed(run_seed, before.len() as int) == derived_seed);
            assert(attempt_gives::<F>(attempt, run_seed, before.len() as int, outcome));
            outcomes = outcomes.push(outcome);
            assert forall|k: int| 0 <= k < outcomes.len() implies #[trigger] attempt_gives::<F>(
                attempt,
                run_seed,
                k,
                outcomes[k],
            ) by {
                if k < before.len() {
                    assert(outcomes[k] == before[k]);
                }
            }
            assert forall|k: int| 0 <= k < outcomes.len() - 1 implies (#[trigger] outcomes[k]) is Err by {
                assert(outcomes[k] == before[k]);
            }
        }
        match outcome {
            Ok(res) => {
                proof {
                    assert(outcomes.last() == Ok::<Solution, SolverRunError>(res));
                    assert(attempts_made::<F>(attempt, run_seed, outcomes));
                }
                return Ok(res);
            },
            Err(_) => {},
        }
        attempt_index += 1;
    }
    proof {
        assert(outcomes.last() is Err);
        assert(attempts_made::<F>(attempt, run_seed, outcomes));
    }
    Err(SolverError::AttemptsExhausted)
}

/// The start of the attempt seeded with `derived_seed`: a generator seeded with it, and
/// the state on the output extent in which every cell may take every pattern of the
/// model and none is collapsed.
pub fn start_attempt(
    model: &CompiledModel,
    output_dimensions: &Dimensions<2>,
    derived_seed: u64,
) -> (r: (WfcState, SeededRng))
    requires
        solvable(*model),
        output_dimensions@[0] * output_dimensions@[1] <= u32::MAX,
    ensures
        r.0.wf(model.spec_num_patterns(), output_dimensions@[0] as int, output_dimensions@[1] as int),
        r.0.uncollapsed_num == output_dimensions@[0] * output_dimensions@[1],
        r.1.seed() == derived_seed,
        forall|i: int|
            0 <= i < r.0.cells@.len() ==> (#[trigger] r.0.cells@[i]).possible_values@ == Set::new(
                |v: int| 0 <= v < model.spec_num_patterns(),
            ) && !r.0.cells@[i].is_collapsed,
{
    let output_width = output_dimensions.get(0);
    let output_height = output_dimensions.get(1);
    let rng = seeded_rng(derived_seed);
    let state = WfcState::new(model.num_patterns(), output_width, output_height);
    (state, rng)
}

/// What a solver run records of one of its steps: the list of cells handed to the chooser,
/// the cell the chooser proposed, the cell the step collapsed, and the cells the step
/// narrowed without collapsing them.
pub struct StepRecord {
    pub hint: Seq<usize>,
    pub proposed: usize,
    pub cell: int,
    pub narrowed: Seq<usize>,
}

/// `chooser` may answer `proposed` when shown `state` and the list `hint`.
pub open spec fn may_answer<F: FnMut(&WfcState, &[usize]) -> usize>(
    chooser: F,
    state: WfcState,
    hint: Seq<usize>,
    proposed: usize,
) -> bool {
    exists|s: &WfcState, u: &[usize]| *s == state && u@ == hint && #[trigger] call_ensures(chooser, (s, u), proposed)
}

/// The cell a step collapses, given the chooser's answer `proposed`: that cell where it is
/// a cell that is not collapsed, else the first cell that is not collapsed.
pub open spec fn cell_picked(cells: Seq<Cell>, proposed: usize, cell: int) -> bool {
    &&& 0 <= cell < cells.len()
    &&& !cells[cell].is_collapsed
    &&& if proposed < cells.len() && !cells[proposed as int].is_collapsed {
        cell == proposed
    } else {
        forall|j: int| 0 <= j < cell ==> (#[trigger] cells[j]).is_collapsed
    }
}

/// Cell `cell` of `after` is collapsed to the pattern that some roll below the total
/// weight of its patterns in `before`, taken in increasing order, lands on.
pub open spec fn drawn(before: Seq<Cell>, after: Seq<Cell>, weights: Seq<u32>, cell: int) -> bool {
    exists|roll: int|
        {
            &&& 0 <= roll < total_weight(ascending(before[cell].possible_values@), weights)
            &&& after[cell].collapsed_to(
                #[trigger] weighted_pick(ascending(before[cell].possible_values@), weights, roll) as int,
            )
        }
}

/// A step that collapsed cell `cell` of `before` and propagated what that rules out
/// without a contradiction, giving `after` and the list `narrowed` (see
/// [`WfcState::collapse_and_propagate`]).
pub open spec fn step_succeeded(
    model: CompiledModel,
    width: int,
    height: int,
    before: WfcState,
    cell: int,
    after: WfcState,
    narrowed: Seq<usize>,
) -> bool {
    let rules = model.spec_adj_rules();
    let (b0, b1) = (before.cells@, after.cells@);
    &&& shrinks(b0, b1)
    &&& drawn(b0, b1, model.spec_weights(), cell)
    &&& after.wf(model.spec_num_patterns(), width, height)
    &&& after.uncollapsed_num < before.uncollapsed_num
    &&& forall|i: int| 0 <= i < b1.len() && touched(b0, b1, i) ==> propagated(b1, rules, width, height, i)
    &&& forall|b: int, v: int|
        0 <= b < b1.len() && b != cell && b0[b].possible_values@.contains(v) && !b1[b].possible_values@.contains(v)
            ==> ruled_out(b1, rules, width, height, b, v)
    &&& forall|k: int|
        0 <= k < narrowed.len() ==> #[trigger] narrowed[k] < b1.len() && b1[narrowed[k] as int].possible_values@
            != b0[narrowed[k] as int].possible_values@
    &&& forall|i: int|
        0 <= i < b1.len() && (#[trigger] b1[i]).possible_values@ != b0[i].possible_values@ && !b1[i].is_collapsed
            ==> narrowed.contains(i as usize) && b1[i].possible_values@.len() >= 2
    &&& collapses_forced(b0, b1, rules, width, height, cell)
}

/// A step that collapsed cell `cell` of `before` and then ran into a contradiction, leaving
/// `after`: one cell that is not collapsed has no pattern left, every other cell has one,
/// and every pattern that a cell other than `cell` lost is ruled out by a neighbour.
pub open spec fn step_failed(
    model: CompiledModel,
    width: int,
    height: int,
    before: Seq<Cell>,
    cell: int,
    after: Seq<Cell>,
) -> bool {
    &&& shrinks(before, after)
    &&& drawn(before, after, model.spec_weights(), cell)
    &&& exists|i: int|
        0 <= i < after.len() && (#[trigger] after[i]).possible_values@.len() == 0 && !after[i].is_collapsed
            && forall|j: int| 0 <= j < after.len() && j != i ==> after[j].possible_values@.len() > 0
    &&& forall|b: int, v: int|
        0 <= b < after.len() && b != cell && before[b].possible_values@.contains(v)
            && !after[b].possible_values@.contains(v) ==> ruled_out(
            after,
            model.spec_adj_rules(),
            width,
            height,
            b,
            v,
        )
}

/// `states` are the states of a run, one more than its `steps`, and each step went from
/// its state to the next: `chooser` was shown the state and the cells the step before
/// narrowed (none for the first step), the step collapsed the cell it proposed where that
/// cell was open (else the first open cell), and it succeeded; when `ok` is false the
/// last step failed instead.
pub open spec fn steps_taken<F: FnMut(&WfcState, &[usize]) -> usize>(
    model: CompiledModel,
    width: int,
    height: int,
    chooser: F,
    states: Seq<WfcState>,
    steps: Seq<StepRecord>,
    ok: bool,
) -> bool {
    &&& states.len() == steps.len() + 1
    &&& steps.len() > 0 ==> steps[0].hint == Seq::<usize>::empty()
    &&& forall|k: int|
        #![trigger steps[k]]
        0 <= k < steps.len() ==> may_answer::<F>(chooser, states[k], steps[k].hint, steps[k].proposed) && cell_picked(
            states[k].cells@,
            steps[k].proposed,
            steps[k].cell,
        )
    &&& forall|k: int| #![trigger steps[k]] 0 <= k < steps.len() - 1 ==> steps[k + 1].hint == steps[k].narrowed
    &&& forall|k: int|
        #![trigger steps[k]]
        0 <= k < steps.len() && (ok || k < steps.len() - 1) ==> step_succeeded(
            model,
            width,
            height,
            states[k],
            steps[k].cell,
            states[k + 1],
            steps[k].narrowed,
        )
    &&& !ok ==> steps.len() > 0 && step_failed(
        model,
        width,
        height,
        states[steps.len() - 1].cells@,
        steps[steps.len() - 1].cell,
        states[steps.len() as int].cells@,
    )
}

/// Every pattern that a cell lost from `start` to `cells` is ruled out in `cells` by a
/// neighbour, unless one of `steps` drew that cell.
pub open spec fn losses_ruled_out(
    start: Seq<Cell>,
    cells: Seq<Cell>,
    rules: Seq<SimpleBitSet>,
    width: int,
    height: int,
    steps: Seq<StepRecord>,
) -> bool {
    forall|b: int, v: int|
        #![trigger cells[b].possible_values@.contains(v)]
        0 <= b < cells.len() && (forall|k: int| 0 <= k < steps.len() ==> (#[trigger] steps[k]).cell != b)
            && start[b].possible_values@.contains(v) && !cells[b].possible_values@.contains(v) ==> ruled_out(
            cells,
            rules,
            width,
            height,
            b,
            v,
        )
}

/// Cells collapsed in different steps agree: when one of the first `upto` steps of
/// `states` collapsed cell `a` and left its neighbour `b` (one step in direction slot `d`
/// from `a`) open, `b` holds in `cells` only patterns that the patterns of `a` allow there.
pub open spec fn agreement(
    states: Seq<WfcState>,
    upto: int,
    cells: Seq<Cell>,
    rules: Seq<SimpleBitSet>,
    width: int,
    height: int,
) -> bool {
    forall|k: int, a: int, d: int|
        #![trigger states[k].cells@[a], neighbour(a, width, height, d)]
        0 <= k < upto && 0 <= a < cells.len() && 0 <= d < 4 && !states[k].cells@[a].is_collapsed
            && states[k + 1].cells@[a].is_collapsed ==> match neighbour(a, width, height, d) {
            Some(b) => !states[k + 1].cells@[b].is_collapsed ==> cells[b].possible_values@.subset_of(
                allowed_by(rules, cells[a].possible_values@, d),
            ),
            None => true,
        }
}

/// A run from `start` to `fin` driven by `chooser`: there are states and steps that
/// it took (see [`steps_taken`]), where every pattern lost at a cell that no step drew is
/// ruled out by a neighbour in `fin`, and cells collapsed in different successful steps
/// agree in `fin` (see [`agreement`]).
pub open spec fn run_recorded<F: FnMut(&WfcState, &[usize]) -> usize>(
    model: CompiledModel,
    width: int,
    height: int,
    chooser: F,
    start: WfcState,
    fin: WfcState,
    ok: bool,
) -> bool {
    exists|states: Seq<WfcState>, steps: Seq<StepRecord>|
        {
            &&& #[trigger] steps_taken::<F>(model, width, height, chooser, states, steps, ok)
            &&& states[0] == start
            &&& states[steps.len() as int] == fin
            &&& losses_ruled_out(start.cells@, fin.cells@, model.spec_adj_rules(), width, height, steps)
            &&& agreement(
                states,
                if ok { steps.len() as int } else { steps.len() - 1 },
                fin.cells@,
                model.spec_adj_rules(),
                width,
                height,
            )
        }
}

/// Exactly one cell of `cells` has no pattern left, it is not collapsed, and each pattern
/// it held in `start` is ruled out by a neighbour.
pub open spec fn contradiction_explained(
    start: Seq<Cell>,
    cells: Seq<Cell>,
    rules: Seq<SimpleBitSet>,
    width: int,
    height: int,
) -> bool {
    exists|i: int|
        0 <= i < cells.len() && (#[trigger] cells[i]).possible_values@.len() == 0 && !cells[i].is_collapsed
            && (forall|j: int| 0 <= j < cells.len() && j != i ==> cells[j].possible_values@.len() > 0)
            && forall|v: int| start[i].possible_values@.contains(v) ==> ruled_out(cells, rules, width, height, i, v)
}

/// The facts a run keeps after each step: the states and steps so far, every state of it
/// shrinks to the current cells, lost patterns of cells no step drew are ruled out, and
/// cells collapsed in different steps agree.
proof fn lemma_run_so_far<F: FnMut(&WfcState, &[usize]) -> usize>(
    model: CompiledModel,
    width: int,
    height: int,
    chooser: F,
    states: Seq<WfcState>,
    steps: Seq<StepRecord>,
    ok: bool,
)
    requires
        steps_taken::<F>(model, width, height, chooser, states, steps, ok),
        losses_ruled_out(
            states[0].cells@,
            states[steps.len() as int].cells@,
            model.spec_adj_rules(),
            width,
            height,
            steps,
        ),
        agreement(
            states,
            if ok { steps.len() as int } else { steps.len() - 1 },
            states[steps.len() as int].cells@,
            model.spec_adj_rules(),
            width,
            height,
        ),
    ensures
        run_recorded::<F>(model, width, height, chooser, states[0], states[steps.len() as int], ok),
{
}

/// Adding a step to a run keeps its record: the trace grows by the step, the lost
/// patterns of cells no step drew stay ruled out, and cells collapsed in different steps
/// still agree.
proof fn lemma_record_step<F: FnMut(&WfcState, &[usize]) -> usize>(
    model: CompiledModel,
    width: int,
    height: int,
    chooser: F,
    states: Seq<WfcState>,
    steps: Seq<StepRecord>,
    after: WfcState,
    step: StepRecord,
    ok: bool,
)
    requires
        width >= 0,
        height >= 0,
        states[steps.len() as int].cells@.len() == width * height,
        steps_taken::<F>(model, width, height, chooser, states, steps, true),
        forall|k: int| 0 <= k <= steps.len() ==> shrinks(#[trigger] states[k].cells@, states[steps.len() as int].cells@),
        losses_ruled_out(
            states[0].cells@,
            states[steps.len() as int].cells@,
            model.spec_adj_rules(),
            width,
            height,
            steps,
        ),
        agreement(states, steps.len() as int, states[steps.len() as int].cells@, model.spec_adj_rules(), width, height),
        steps.len() == 0 ==> step.hint == Seq::<usize>::empty(),
        steps.len() > 0 ==> step.hint == steps[steps.len() - 1].narrowed,
        may_answer::<F>(chooser, states[steps.len() as int], step.hint, step.proposed),
        cell_picked(states[steps.len() as int].cells@, step.proposed, step.cell),
        ok ==> step_succeeded(model, width, height, states[steps.len() as int], step.cell, after, step.narrowed),
        !ok ==> step_failed(
            model,
            width,
            height,
            states[steps.len() as int].cells@,
            step.cell,
            after.cells@,
        ),
    ensures
        steps_taken::<F>(model, width, height, chooser, states.push(after), steps.push(step), ok),
        forall|k: int|
            0 <= k <= steps.len() + 1 ==> shrinks(#[trigger] states.push(after)[k].cells@, after.cells@),
        losses_ruled_out(states[0].cells@, after.cells@, model.spec_adj_rules(), width, height, steps.push(step)),
        agreement(
            states.push(after),
            if ok { steps.len() + 1 as int } else { steps.len() as int },
            after.cells@,
            model.spec_adj_rules(),
            width,
            height,
        ),
{
    let rules = model.spec_adj_rules();
    let n = steps.len() as int;
    let before = states[n];
    let (b0, b1) = (before.cells@, after.cells@);
    let states2 = states.push(after);
    let steps2 = steps.push(step);
    assert(shrinks(b0, b1));
    assert(b1[step.cell].is_collapsed);
    assert forall|k: int| #![trigger steps2[k]] 0 <= k < steps2.len() implies may_answer::<F>(
        chooser,
        states2[k],
        steps2[k].hint,
        steps2[k].proposed,
    ) && cell_picked(states2[k].cells@, steps2[k].proposed, steps2[k].cell) by {
        if k < n {
            assert(steps2[k] == steps[k]);
            assert(states2[k] == states[k]);
        }
    }
    assert forall|k: int| #![trigger steps2[k]] 0 <= k < steps2.len() - 1 implies steps2[k + 1].hint
        == steps2[k].narrowed by {
        if k < n - 1 {
            assert(steps2[k] == steps[k]);
            assert(steps2[k + 1] == steps[k + 1]);
        }
    }
    assert forall|k: int|
        #![trigger steps2[k]]
        0 <= k < steps2.len() && (ok || k < steps2.len() - 1) implies step_succeeded(
        model,
        width,
        height,
        states2[k],
        steps2[k].cell,
        states2[k + 1],
        steps2[k].narrowed,
    ) by {
        if k < n {
            assert(steps2[k] == steps[k]);
            assert(states2[k] == states[k]);
            assert(states2[k + 1] == states[k + 1]);
        }
    }
    assert(steps_taken::<F>(model, width, height, chooser, states2, steps2, ok));
    assert forall|k: int| 0 <= k <= steps.len() + 1 implies shrinks(#[trigger] states2[k].cells@, b1) by {
        if k <= n {
            assert(states2[k] == states[k]);
            crate::wfc_state::lemma_shrinks_transitive(states[k].cells@, b0, b1);
        }
    }
    assert forall|b: int, v: int|
        #![trigger b1[b].possible_values@.contains(v)]
        0 <= b < b1.len() && (forall|k: int| 0 <= k < steps2.len() ==> (#[trigger] steps2[k]).cell != b)
            && states[0].cells@[b].possible_values@.contains(v) && !b1[b].possible_values@.contains(v) implies ruled_out(
        b1,
        rules,
        width,
        height,
        b,
        v,
    ) by {
        assert(steps2[n].cell != b);
        if b0[b].possible_values@.contains(v) {
        } else {
            assert forall|k: int| 0 <= k < steps.len() implies (#[trigger] steps[k]).cell != b by {
                assert(steps2[k] == steps[k]);
            }
            crate::wfc_state::lemma_ruled_out_after_shrinking(b0, b1, rules, width, height, b, v);
        }
    }
    let upto = if ok { n + 1 } else { n };
    assert forall|k: int, a: int, d: int|
        #![trigger states2[k].cells@[a], neighbour(a, width, height, d)]
        0 <= k < upto && 0 <= a < b1.len() && 0 <= d < 4 && !states2[k].cells@[a].is_collapsed
            && states2[k + 1].cells@[a].is_collapsed implies match neighbour(a, width, height, d) {
        Some(b) => !states2[k + 1].cells@[b].is_collapsed ==> b1[b].possible_values@.subset_of(
            allowed_by(rules, b1[a].possible_values@, d),
        ),
        None => true,
    } by {
        crate::wfc_state::lemma_neighbour_in_grid(a, width, height, d);
        if let Some(b) = neighbour(a, width, height, d) {
            if !states2[k + 1].cells@[b].is_collapsed {
                if k < n {
                    assert(states2[k] == states[k]);
                    assert(states2[k + 1] == states[k + 1]);
                    assert(states[k].cells@[a] == states2[k].cells@[a]);
                    assert(match neighbour(a, width, height, d) {
                        Some(b) => !states[k + 1].cells@[b].is_collapsed ==> b0[b].possible_values@.subset_of(
                            allowed_by(rules, b0[a].possible_values@, d),
                        ),
                        None => true,
                    });
                    assert(shrinks(states[k + 1].cells@, b0));
                    assert(b0[a] == states[k + 1].cells@[a]);
                    assert(b1[a] == b0[a]);
                    assert(narrows(b1[b], b0[b]));
                } else {
                    assert(states2[k] == before);
                    assert(states2[k + 1] == after);
                    assert(touched(b0, b1, a));
                    assert(propagated(b1, rules, width, height, a));
                }
            }
        }
    }
}

/// A model whose rules allow every pattern next to every pattern never runs into a
/// contradiction: from a well-formed state, no shrinking of it leaves a cell without a
/// pattern that its neighbours rule out. So [`run_steps`] on such a model succeeds.
pub proof fn lemma_permissive_rules_never_contradict(
    start: WfcState,
    fin: WfcState,
    rules: Seq<SimpleBitSet>,
    num_patterns: nat,
    width: int,
    height: int,
)
    requires
        width >= 0,
        height >= 0,
        start.wf(num_patterns, width, height),
        shrinks(start.cells@, fin.cells@),
        forall|p: int, d: int, q: int|
            0 <= p < num_patterns && 0 <= d < 4 && 0 <= q < num_patterns ==> #[trigger] rule_at(rules, p, d).contains(q),
    ensures
        !contradiction_explained(start.cells@, fin.cells@, rules, width, height),
{
    let (c0, c1) = (start.cells@, fin.cells@);
    if contradiction_explained(c0, c1, rules, width, height) {
        let i = choose|i: int|
            0 <= i < c1.len() && (#[trigger] c1[i]).possible_values@.len() == 0 && !c1[i].is_collapsed
                && (forall|j: int| 0 <= j < c1.len() && j != i ==> c1[j].possible_values@.len() > 0)
                && forall|v: int| c0[i].possible_values@.contains(v) ==> ruled_out(c1, rules, width, height, i, v);
        assert(cell_wf(c0[i], num_patterns));
        SimpleBitSet::lemma_members_bounded(&c0[i].possible_values);
        let v = c0[i].possible_values@.choose();
        assert(c0[i].possible_values@.contains(v));
        assert(ruled_out(c1, rules, width, height, i, v));
        let (a, d) = choose|a: int, d: int|
            0 <= a < c1.len() && 0 <= d < 4 && #[trigger] neighbour(a, width, height, d) == Some(i)
                && !allowed_by(rules, c1[a].possible_values@, d).contains(v);
        assert(width > 0) by (nonlinear_arith)
            requires
                0 <= i < width * height,
                width >= 0,
                height >= 0,
        ;
        assert(a != i);
        assert(narrows(c1[a], c0[a]));
        assert(cell_wf(c0[a], num_patterns));
        SimpleBitSet::lemma_members_bounded(&c1[a].possible_values);
        let p = c1[a].possible_values@.choose();
        assert(c1[a].possible_values@.contains(p));
        assert(rule_at(rules, p, d).contains(v));
        assert(allowed_by(rules, c1[a].possible_values@, d).contains(v));
    }
}

/// Of the states `states[0]`, ..., `states[n]`, the first holds cells `a` and `b` open and
/// the last holds one of them collapsed: some step `k` holds both open and the next holds
/// one of them collapsed.
proof fn lemma_first_collapse(states: Seq<WfcState>, n: int, a: int, b: int) -> (k: int)
    requires
        0 <= n < states.len(),
        !states[0].cells@[a].is_collapsed,
        !states[0].cells@[b].is_collapsed,
        states[n].cells@[a].is_collapsed || states[n].cells@[b].is_collapsed,
    ensures
        0 <= k < n,
        !states[k].cells@[a].is_collapsed,
        !states[k].cells@[b].is_collapsed,
        states[k + 1].cells@[a].is_collapsed || states[k + 1].cells@[b].is_collapsed,
    decreases n,
{
    if !states[n - 1].cells@[a].is_collapsed && !states[n - 1].cells@[b].is_collapsed {
        n - 1
    } else {
        lemma_first_collapse(states, n - 1, a, b)
    }
}

/// Under rules that allow no pattern next to any pattern, no cell of `after` can have been
/// forced since `before`, a state whose cells hold only patterns.
proof fn lemma_forbidding_rules_force_nothing(
    before: Seq<Cell>,
    after: Seq<Cell>,
    rules: Seq<SimpleBitSet>,
    num_patterns: nat,
    width: int,
    height: int,
    x: int,
    v: int,
)
    requires
        forall|i: int| 0 <= i < before.len() ==> cell_wf(#[trigger] before[i], num_patterns),
        forall|p: int, d: int, q: int|
            0 <= p < num_patterns && 0 <= d < 4 && 0 <= q < num_patterns ==> !(#[trigger] rule_at(rules, p, d).contains(q)),
        0 <= x < before.len(),
        after.len() == before.len(),
    ensures
        !forced(before, after, rules, width, height, x, v),
{
    if forced(before, after, rules, width, height, x, v) {
        let (a, d, p, q) = choose|a: int, d: int, p: Set<int>, q: Set<int>|
            #![trigger neighbour(a, width, height, d), q.intersect(allowed_by(rules, p, d))]
            0 <= a < after.len() && 0 <= d < 4 && neighbour(a, width, height, d) == Some(x)
                && after[a].possible_values@.subset_of(p) && p.subset_of(before[a].possible_values@)
                && q.subset_of(before[x].possible_values@) && q.intersect(allowed_by(rules, p, d)) == set![v];
        assert(q.intersect(allowed_by(rules, p, d)).contains(v));
        let p0 = choose|p0: int| p.contains(p0) && #[trigger] rule_at(rules, p0, d).contains(v);
        assert(cell_wf(before[a], num_patterns));
        assert(cell_wf(before[x], num_patterns));
        assert(rule_at(rules, p0, d).contains(v));
    }
}

/// Under rules that allow no pattern next to any pattern, a cell holding a pattern cannot
/// hold only patterns that another cell's patterns allow next to it.
proof fn lemma_forbidding_rules_allow_nothing(
    from: Cell,
    to: Cell,
    rules: Seq<SimpleBitSet>,
    num_patterns: nat,
    d: int,
)
    requires
        cell_wf(from, num_patterns),
        cell_wf(to, num_patterns),
        0 <= d < 4,
        forall|p: int, d: int, q: int|
            0 <= p < num_patterns && 0 <= d < 4 && 0 <= q < num_patterns ==> !(#[trigger] rule_at(rules, p, d).contains(q)),
    ensures
        !to.possible_values@.subset_of(allowed_by(rules, from.possible_values@, d)),
{
    SimpleBitSet::lemma_members_bounded(&to.possible_values);
    let u = to.possible_values@.choose();
    assert(to.possible_values@.contains(u));
    if to.possible_values@.subset_of(allowed_by(rules, from.possible_values@, d)) {
        assert(allowed_by(rules, from.possible_values@, d).contains(u));
        let p0 = choose|p0: int| from.possible_values@.contains(p0) && #[trigger] rule_at(rules, p0, d).contains(u);
        assert(rule_at(rules, p0, d).contains(u));
    }
}

/// A model whose rules allow no pattern next to any pattern cannot complete a run over a
/// grid of two or more cells that starts with no cell collapsed: the run cannot end with
/// every cell collapsed. So [`run_steps`] on such a model fails.
pub proof fn lemma_forbidding_rules_never_complete<F: FnMut(&WfcState, &[usize]) -> usize>(
    model: CompiledModel,
    width: int,
    height: int,
    chooser: F,
    start: WfcState,
    fin: WfcState,
)
    requires
        width >= 1,
        height >= 1,
        width * height >= 2,
        start.wf(model.spec_num_patterns(), width, height),
        forall|i: int| 0 <= i < start.cells@.len() ==> !(#[trigger] start.cells@[i]).is_collapsed,
        forall|p: int, d: int, q: int|
            0 <= p < model.spec_num_patterns() && 0 <= d < 4 && 0 <= q < model.spec_num_patterns()
                ==> !(#[trigger] rule_at(model.spec_adj_rules(), p, d).contains(q)),
    ensures
        !({
            &&& fin.wf(model.spec_num_patterns(), width, height)
            &&& forall|i: int| 0 <= i < fin.cells@.len() ==> (#[trigger] fin.cells@[i]).is_collapsed
            &&& run_recorded::<F>(model, width, height, chooser, start, fin, true)
        }),
{
    let np = model.spec_num_patterns();
    let rules = model.spec_adj_rules();
    if fin.wf(np, width, height) && (forall|i: int| 0 <= i < fin.cells@.len() ==> (#[trigger] fin.cells@[i]).is_collapsed)
        && run_recorded::<F>(model, width, height, chooser, start, fin, true) {
        let (states, steps) = choose|states: Seq<WfcState>, steps: Seq<StepRecord>|
            {
                &&& #[trigger] steps_taken::<F>(model, width, height, chooser, states, steps, true)
                &&& states[0] == start
                &&& states[steps.len() as int] == fin
                &&& losses_ruled_out(start.cells@, fin.cells@, rules, width, height, steps)
                &&& agreement(states, steps.len() as int, fin.cells@, rules, width, height)
            };
        let n = steps.len() as int;
        // Cells 0 and 1 are next to each other: side by side, or one above the other.
        let d: int = if width >= 2 { 2 } else { 1 };
        let back: int = if width >= 2 { 3 } else { 0 };
        assert(neighbour(0, width, height, d) == Some(1int)) by {
            if width == 1 {
                assert(height >= 2) by (nonlinear_arith)
                    requires
                        width == 1,
                        width * height >= 2,
                ;
            }
        }
        assert(neighbour(1, width, height, back) == Some(0int)) by {
            if width >= 2 {
                assert(1int % width == 1 && 1int / width == 0) by (nonlinear_arith)
                    requires
                        width >= 2,
                ;
            }
        }
        assert(fin.cells@[0].is_collapsed);
        let k = lemma_first_collapse(states, n, 0, 1);
        assert(step_succeeded(model, width, height, states[k], steps[k].cell, states[k + 1], steps[k].narrowed));
        let s0 = states[k].cells@;
        let s1 = states[k + 1].cells@;
        if s1[0].is_collapsed && s1[1].is_collapsed {
            let x: int = if steps[k].cell != 0 { 0 } else { 1 };
            assert(collapses_forced(s0, s1, rules, width, height, steps[k].cell));
            assert(s1[x].is_collapsed);
            assert(states[k].wf(np, width, height)) by {
                if k > 0 {
                    assert(step_succeeded(
                        model,
                        width,
                        height,
                        states[k - 1],
                        steps[k - 1].cell,
                        states[k],
                        steps[k - 1].narrowed,
                    ));
                }
            }
            lemma_forbidding_rules_force_nothing(s0, s1, rules, np, width, height, x, s1[x].collapsed_val->0 as int);
        } else {
            let (x, y, dir): (int, int, int) = if s1[0].is_collapsed { (0, 1, d) } else { (1, 0, back) };
            assert(neighbour(x, width, height, dir) == Some(y));
            assert(states[k].cells@[x] == s0[x]);
            assert(match neighbour(x, width, height, dir) {
                Some(b) => !states[k + 1].cells@[b].is_collapsed ==> fin.cells@[b].possible_values@.subset_of(
                    allowed_by(rules, fin.cells@[x].possible_values@, dir),
                ),
                None => true,
            });
            lemma_forbidding_rules_allow_nothing(fin.cells@[x], fin.cells@[y], rules, np, dir);
        }
    }
}

/// Runs solver steps until every cell is collapsed or a step ends in a contradiction.
/// Before each step `next_cell` is asked for the cell to collapse, given the state and the
/// cells that the last step narrowed without collapsing them; an answer that is not an
/// uncollapsed cell is replaced by the first uncollapsed cell. The run is recorded step by
/// step (see [`run_recorded`]). On success every cell is collapsed and every cell that
/// changed during the run has passed its constraints on; on a contradiction the cell left
/// without a pattern had each of its patterns ruled out by a neighbour.
pub fn run_steps<F: FnMut(&WfcState, &[usize]) -> usize>(
    state: &mut WfcState,
    model: &CompiledModel,
    width: u32,
    height: u32,
    rng: &mut SeededRng,
    next_cell: F,
) -> (r: Result<(), SolverRunError>)
    requires
        solvable(*model),
        old(state).wf(model.spec_num_patterns(), width as int, height as int),
        forall|s: &WfcState, u: &[usize]| call_requires(next_cell, (s, u)),
    ensures
        shrinks(old(state).cells@, final(state).cells@),
        final(rng).seed() == old(rng).seed(),
        match r {
            Ok(()) => {
                &&& final(state).wf(model.spec_num_patterns(), width as int, height as int)
                &&& final(state).uncollapsed_num == 0
                &&& forall|i: int| 0 <= i < final(state).cells@.len() ==> (#[trigger] final(state).cells@[i]).is_collapsed
                &&& settled(old(state).cells@, final(state).cells@, model.spec_adj_rules(), width as int, height as int)
                &&& run_recorded::<F>(*model, width as int, height as int, next_cell, *old(state), *final(state), true)
            },
            Err(e) => {
                &&& e == SolverRunError::Contradiction
                &&& contradiction_explained(
                    old(state).cells@,
                    final(state).cells@,
                    model.spec_adj_rules(),
                    width as int,
                    height as int,
                )
                &&& run_recorded::<F>(*model, width as int, height as int, next_cell, *old(state), *final(state), false)
            },
        },
{
    let ghost chooser = next_cell;
    let mut ask = next_cell;
    let ghost initial = state.cells@;
    let ghost rules = model.spec_adj_rules();
    let ghost np = model.spec_num_patterns();
    let ghost w = width as int;
    let ghost h = height as int;
    let ghost mut states: Seq<WfcState> = seq![*state];
    let ghost mut steps: Seq<StepRecord> = Seq::empty();
    let mut updated: Vec<usize> = Vec::new();
    proof {
        assert(settled(initial, state.cells@, rules, w, h)) by {
            assert forall|i: int| 0 <= i < state.cells@.len() implies !touched(initial, state.cells@, i) by {}
        }
        assert(shrinks(initial, state.cells@)) by {
            assert forall|i: int| 0 <= i < state.cells@.len() implies #[trigger] crate::wfc_state::narrows(
                state.cells@[i],
                initial[i],
            ) by {}
        }
        assert(steps_taken::<F>(*model, w, h, chooser, states, steps, true));
        assert(updated@ =~= Seq::<usize>::empty());
    }
    while state.uncollapsed_num > 0
        invariant
            solvable(*model),
            rules == model.spec_adj_rules(),
            np == model.spec_num_patterns(),
            w == width as int,
            h == height as int,
            initial == old(state).cells@,
            states[0] == *old(state),
            state.wf(np, w, h),
            shrinks(initial, state.cells@),
            settled(initial, state.cells@, rules, w, h),
            ask == chooser,
            chooser == next_cell,
            rng.seed() == old(rng).seed(),
            forall|s: &WfcState, u: &[usize]| call_requires(ask, (s, u)),
            steps_taken::<F>(*model, w, h, chooser, states, steps, true),
            states[steps.len() as int] == *state,
            forall|k: int| 0 <= k <= steps.len() ==> shrinks(#[trigger] states[k].cells@, state.cells@),
            losses_ruled_out(initial, state.cells@, rules, w, h, steps),
            agreement(states, steps.len() as int, state.cells@, rules, w, h),
            steps.len() == 0 ==> updated@ == Seq::<usize>::empty(),
            steps.len() > 0 ==> updated@ == steps[steps.len() - 1].narrowed,
        decreases state.uncollapsed_num,
    {
        let ghost hint = updated@;
        let proposed = ask(&*state, updated.as_slice());
        proof {
            assert(may_answer::<F>(chooser, *state, hint, proposed));
        }
        let cell_idx = if proposed < state.cells.len() && !state.cells[proposed].is_collapsed {
            proposed
        } else {
            proof {
                lemma_uncollapsed_count_zero(state.cells@);
            }
            let mut k: usize = 0;
            while k < state.cells.len() && state.cells[k].is_collapsed
                invariant
                    0 <= k <= state.cells@.len(),
                    exists|i: int| k <= i < state.cells@.len() && !(#[trigger] state.cells@[i]).is_collapsed,
                    forall|j: int| 0 <= j < k ==> (#[trigger] state.cells@[j]).is_collapsed,
                decreases state.cells@.len() - k,
            {
                k += 1;
            }
            k
        };
        proof {
            assert(cell_picked(state.cells@, proposed, cell_idx as int));
        }
        let ghost before = *state;
        match state.collapse_and_propagate(model, cell_idx, width, height, rng) {
            Ok(narrowed) => {
                let ghost step = StepRecord { hint, proposed, cell: cell_idx as int, narrowed: narrowed@ };
                proof {
                    assert(step_succeeded(*model, w, h, before, cell_idx as int, *state, narrowed@));
                    lemma_record_step::<F>(*model, w, h, chooser, states, steps, *state, step, true);
                    lemma_step_keeps_settled(initial, before.cells@, state.cells@, rules, w, h);
                    crate::wfc_state::lemma_shrinks_transitive(initial, before.cells@, state.cells@);
                    states = states.push(*state);
                    steps = steps.push(step);
                }
                updated = narrowed;
            },
            Err(e) => {
                let ghost step = StepRecord { hint, proposed, cell: cell_idx as int, narrowed: Seq::empty() };
                proof {
                    assert(step_failed(*model, w, h, before.cells@, cell_idx as int, state.cells@));
                    lemma_record_step::<F>(*model, w, h, chooser, states, steps, *state, step, false);
                    crate::wfc_state::lemma_shrinks_transitive(initial, before.cells@, state.cells@);
                    states = states.push(*state);
                    steps = steps.push(step);
                    lemma_run_so_far::<F>(*model, w, h, chooser, states, steps, false);
                    let fin = state.cells@;
                    let i = choose|i: int|
                        0 <= i < fin.len() && (#[trigger] fin[i]).possible_values@.len() == 0 && !fin[i].is_collapsed
                            && forall|j: int| 0 <= j < fin.len() && j != i ==> fin[j].possible_values@.len() > 0;
                    assert forall|k: int| 0 <= k < steps.len() implies (#[trigger] steps[k]).cell != i by {
                        assert(shrinks(states[k + 1].cells@, fin));
                        if k < steps.len() - 1 {
                            assert(step_succeeded(*model, w, h, states[k], steps[k].cell, states[k + 1], steps[k].narrowed));
                        }
                        assert(states[k + 1].cells@[steps[k].cell].is_collapsed);
                    }
                    assert forall|v: int| initial[i].possible_values@.contains(v) implies ruled_out(fin, rules, w, h, i, v) by {
                        SimpleBitSet::lemma_members_bounded(&fin[i].possible_values);
                        assert(!fin[i].possible_values@.contains(v));
                    }
                    assert(contradiction_explained(initial, fin, rules, w, h));
                }
                return Err(e);
            },
        }
    }
    proof {
        lemma_uncollapsed_count_zero(state.cells@);
        lemma_run_so_far::<F>(*model, w, h, chooser, states, steps, true);
    }
    Ok(())
}

/// The neighbours of cell `index` of a `width` by `height` grid, by direction slot: up,
/// down, right, left; `None` where the cell lies on that edge.
pub fn get_neighbor_indices(index: usize, width: u32, height: u32) -> (r: [Option<usize>; 4])
    requires
        index < width * height,
        width * height <= u32::MAX,
    ensures
        forall|d: int|
            0 <= d < 4 ==> match #[trigger] neighbour(index as int, width as int, height as int, d) {
                Some(n) => r@[d] == Some(n as usize),
                None => r@[d] is None,
            },
{
    proof {
        assert(width > 0) by (nonlinear_arith)
            requires
                index < width * height,
        ;
        assert((index as int) / (width as int) < height) by (nonlinear_arith)
            requires
                index < width * height,
                width > 0,
        ;
        assert(index as int == ((index as int) / (width as int)) * width + (index as int) % (width as int)) by (nonlinear_arith)
            requires
                width > 0,
        ;
    }
    let x = (index as u32) % width;
    let y = (index as u32) / width;
    let mut neighbors: [Option<usize>; 4] = [None; 4];
    if x > 0 {
        neighbors[3] = Some(index - 1);
    }
    if x + 1 < width {
        neighbors[2] = Some(index + 1);
    }
    if y > 0 {
        proof {
            assert(index >= width) by (nonlinear_arith)
                requires
                    index == y * width + x,
                    y >= 1,
            ;
        }
        neighbors[0] = Some(index - width as usize);
    }
    if y + 1 < height {
        proof {
            assert((y + 1) * width <= width * height) by (nonlinear_arith)
                requires
                    y + 1 <= height,
            ;
            assert(index + width < (y + 1) * width + width) by (nonlinear_arith)
                requires
                    index == y * width + x,
                    x < width,
            ;
            assert(index + width < width * height) by (nonlinear_arith)
                requires
                    index == y * width + x,
                    x < width,
                    y + 2 <= height,
            ;
        }
        neighbors[1] = Some(index + width as usize);
    }
    neighbors
}

} // verus!
