use vstd::prelude::*;
use std::collections::VecDeque;
use crate::random::SeededRng;
use crate::cell::{
    lemma_total_weight_at_least_len, lemma_total_weight_subset, total_weight, weighted_pick, Cell,
};
use crate::solver::get_neighbor_indices;
use crate::solver_run_configuration::SolverRunError;
use crate::compiled_model::CompiledModel;
use crate::direction::{direction_slot, Direction};
use crate::simple_bit_set::{ascending, lemma_ascending_lists, lists_in_order, words_for_bits, SimpleBitSet};

verus! {

/// The neighbour of cell `index` of a `width` by `height` grid (row-major) in direction
/// slot `d`: up (0), down (1), right (2) or left (3); `None` at the edge.
pub open spec fn neighbour(index: int, width: int, height: int, d: int) -> Option<int> {
    let x = index % width;
    let y = index / width;
    if d == 0 {
        if y > 0 { Some(index - width) } else { None }
    } else if d == 1 {
        if y + 1 < height { Some(index + width) } else { None }
    } else if d == 2 {
        if x + 1 < width { Some(index + 1) } else { None }
    } else {
        if x > 0 { Some(index - 1) } else { None }
    }
}

/// Each direction's slot names the cell one step that way on the grid: up is one row
/// back, down one row on, right the next cell of the row and left the one before, and
/// `None` where that step leaves the grid.
pub proof fn lemma_direction_slots_point_their_way(index: int, width: int, height: int, direction: Direction)
    requires
        width > 0,
        height > 0,
        0 <= index < width * height,
    ensures
        neighbour(index, width, height, direction_slot(direction)) == match direction {
            Direction::Up => if index >= width { Some(index - width) } else { None },
            Direction::Down => if index + width < width * height { Some(index + width) } else { None },
            Direction::Right => if index % width + 1 < width { Some(index + 1) } else { None },
            Direction::Left => if index % width > 0 { Some(index - 1) } else { None },
        },
{
    crate::pattern::lemma_index_cell(width, height, index);
    let x = index % width;
    let y = index / width;
    assert(index >= width <==> y > 0) by (nonlinear_arith)
        requires
            index == y * width + x,
            0 <= x < width,
            y >= 0,
    ;
    assert(index + width < width * height <==> y + 1 < height) by (nonlinear_arith)
        requires
            index == y * width + x,
            0 <= x < width,
            y >= 0,
    ;
}

/// The rule for pattern `p` and direction slot `d`: the patterns allowed one step that
/// way from it.
pub open spec fn rule_at(rules: Seq<SimpleBitSet>, p: int, d: int) -> Set<int> {
    rules[p * 4 + d]@
}

/// The patterns that some pattern of `values` allows one step in direction slot `d`.
pub open spec fn allowed_by(rules: Seq<SimpleBitSet>, values: Set<int>, d: int) -> Set<int> {
    Set::new(|j: int| exists|p: int| values.contains(p) && #[trigger] rule_at(rules, p, d).contains(j))
}

/// Fewer values allow no more.
pub proof fn lemma_allowed_by_monotone(rules: Seq<SimpleBitSet>, a: Set<int>, b: Set<int>, d: int)
    requires
        a.subset_of(b),
    ensures
        allowed_by(rules, a, d).subset_of(allowed_by(rules, b, d)),
{
}

/// Cell `a` has passed its constraints on: every neighbour that is not collapsed keeps
/// only patterns that some pattern of `a` allows next to it.
pub open spec fn propagated(cells: Seq<Cell>, rules: Seq<SimpleBitSet>, width: int, height: int, a: int) -> bool {
    propagated_below(cells, rules, width, height, a, 4)
}

/// Pattern `v` is ruled out at cell `b` by a neighbour: some cell next to it allows `v`
/// with none of its patterns.
pub open spec fn ruled_out(cells: Seq<Cell>, rules: Seq<SimpleBitSet>, width: int, height: int, b: int, v: int) -> bool {
    exists|a: int, d: int|
        0 <= a < cells.len() && 0 <= d < 4 && #[trigger] neighbour(a, width, height, d) == Some(b)
            && !allowed_by(rules, cells[a].possible_values@, d).contains(v)
}

/// Cell `b` was narrowed by a neighbour to the single pattern `v`: some cell `a` next to
/// it (one step in direction slot `d` from `a`) holds no more than the set `p` of patterns
/// it held in `start`, and of a set `q` of patterns that `b` held in `start`, the patterns
/// of `p` allow just `v`.
pub open spec fn forced(
    start: Seq<Cell>,
    cells: Seq<Cell>,
    rules: Seq<SimpleBitSet>,
    width: int,
    height: int,
    b: int,
    v: int,
) -> bool {
    exists|a: int, d: int, p: Set<int>, q: Set<int>|
        #![trigger neighbour(a, width, height, d), q.intersect(allowed_by(rules, p, d))]
        0 <= a < cells.len() && 0 <= d < 4 && neighbour(a, width, height, d) == Some(b)
            && cells[a].possible_values@.subset_of(p) && p.subset_of(start[a].possible_values@)
            && q.subset_of(start[b].possible_values@) && q.intersect(allowed_by(rules, p, d)) == set![v]
}

/// Every cell other than `keep` that was collapsed since `start` took a pattern that a
/// neighbour forced on it.
pub open spec fn collapses_forced(
    start: Seq<Cell>,
    cells: Seq<Cell>,
    rules: Seq<SimpleBitSet>,
    width: int,
    height: int,
    keep: int,
) -> bool {
    forall|b: int|
        0 <= b < cells.len() && b != keep && (#[trigger] cells[b]).is_collapsed && !start[b].is_collapsed
            ==> forced(start, cells, rules, width, height, b, cells[b].collapsed_val->0 as int)
}

/// Narrowing a cell keeps every forced collapse forced.
proof fn lemma_forced_after_narrowing(
    start: Seq<Cell>,
    cells: Seq<Cell>,
    rules: Seq<SimpleBitSet>,
    width: int,
    height: int,
    b: int,
    v: int,
    n: int,
    cell: Cell,
)
    requires
        0 <= n < cells.len(),
        narrows(cell, cells[n]),
        forced(start, cells, rules, width, height, b, v),
    ensures
        forced(start, cells.update(n, cell), rules, width, height, b, v),
{
    let u = cells.update(n, cell);
    let (a, d, p, q) = choose|a: int, d: int, p: Set<int>, q: Set<int>|
        #![trigger neighbour(a, width, height, d), q.intersect(allowed_by(rules, p, d))]
        0 <= a < cells.len() && 0 <= d < 4 && neighbour(a, width, height, d) == Some(b)
            && cells[a].possible_values@.subset_of(p) && p.subset_of(start[a].possible_values@)
            && q.subset_of(start[b].possible_values@) && q.intersect(allowed_by(rules, p, d)) == set![v];
    assert(u[a].possible_values@.subset_of(p));
    assert(neighbour(a, width, height, d) == Some(b) && q.intersect(allowed_by(rules, p, d)) == set![v]);
}

/// Narrowing a cell that is not collapsed keeps the collapses forced, given that the
/// cell, if the narrowing collapses it, was forced too.
proof fn lemma_collapses_forced_after_narrowing(
    start: Seq<Cell>,
    cells: Seq<Cell>,
    rules: Seq<SimpleBitSet>,
    width: int,
    height: int,
    keep: int,
    n: int,
    cell: Cell,
)
    requires
        start.len() == cells.len(),
        0 <= n < cells.len(),
        !cells[n].is_collapsed,
        narrows(cell, cells[n]),
        collapses_forced(start, cells, rules, width, height, keep),
        cell.is_collapsed && n != keep && !start[n].is_collapsed ==> forced(
            start,
            cells.update(n, cell),
            rules,
            width,
            height,
            n,
            cell.collapsed_val->0 as int,
        ),
    ensures
        collapses_forced(start, cells.update(n, cell), rules, width, height, keep),
{
    let u = cells.update(n, cell);
    assert forall|b: int|
        0 <= b < u.len() && b != keep && (#[trigger] u[b]).is_collapsed && !start[b].is_collapsed implies forced(
        start,
        u,
        rules,
        width,
        height,
        b,
        u[b].collapsed_val->0 as int,
    ) by {
        if b != n {
            assert(u[b] == cells[b]);
            assert(cells[b].is_collapsed);
            lemma_forced_after_narrowing(start, cells, rules, width, height, b, cells[b].collapsed_val->0 as int, n, cell);
        }
    }
}

/// The number of cells that are not collapsed.
pub open spec fn uncollapsed_count(cells: Seq<Cell>) -> nat
    decreases cells.len(),
{
    if cells.len() == 0 {
        0
    } else {
        uncollapsed_count(cells.drop_last()) + if cells.last().is_collapsed {
            0nat
        } else {
            1nat
        }
    }
}

/// The number of patterns still possible, summed over the cells.
pub open spec fn options_left(cells: Seq<Cell>) -> nat
    decreases cells.len(),
{
    if cells.len() == 0 {
        0
    } else {
        options_left(cells.drop_last()) + cells.last().possible_values@.len()
    }
}

/// Replacing one cell changes the counts by what that cell adds and takes away.
pub proof fn lemma_counts_update(cells: Seq<Cell>, i: int, c: Cell)
    requires
        0 <= i < cells.len(),
    ensures
        uncollapsed_count(cells.update(i, c)) + (if cells[i].is_collapsed { 0int } else { 1int })
            == uncollapsed_count(cells) + (if c.is_collapsed { 0int } else { 1int }),
        options_left(cells.update(i, c)) + cells[i].possible_values@.len() == options_left(cells)
            + c.possible_values@.len(),
    decreases cells.len(),
{
    let u = cells.update(i, c);
    if i == cells.len() - 1 {
        assert(u.drop_last() =~= cells.drop_last());
    } else {
        assert(u.drop_last() =~= cells.drop_last().update(i, c));
        lemma_counts_update(cells.drop_last(), i, c);
    }
}

/// No cell is left to collapse exactly when the count of uncollapsed cells is zero.
pub proof fn lemma_uncollapsed_count_zero(cells: Seq<Cell>)
    ensures
        uncollapsed_count(cells) == 0 <==> forall|i: int| 0 <= i < cells.len() ==> (#[trigger] cells[i]).is_collapsed,
        uncollapsed_count(cells) <= cells.len(),
    decreases cells.len(),
{
    if cells.len() > 0 {
        lemma_uncollapsed_count_zero(cells.drop_last());
        if uncollapsed_count(cells) == 0 {
            assert forall|i: int| 0 <= i < cells.len() implies (#[trigger] cells[i]).is_collapsed by {
                if i < cells.len() - 1 {
                    assert(cells[i] == cells.drop_last()[i]);
                }
            }
        }
        if forall|i: int| 0 <= i < cells.len() ==> (#[trigger] cells[i]).is_collapsed {
            assert(cells.last().is_collapsed);
            assert forall|i: int| 0 <= i < cells.drop_last().len() implies (#[trigger] cells.drop_last()[i]).is_collapsed by {
                assert(cells.drop_last()[i] == cells[i]);
            }
        }
    }
}

/// The pattern indices `0..n`, in increasing order.
pub open spec fn all_patterns(n: nat) -> Seq<usize> {
    Seq::new(n, |i: int| i as usize)
}

/// The model can drive a solver run: it has patterns, as many weights as patterns, all of
/// them positive and together no more than a `u32` holds, four directions, one rule per
/// pattern and direction, and every rule has room for every pattern.
pub open spec fn solvable(model: CompiledModel) -> bool {
    let np = model.spec_num_patterns();
    let rules = model.spec_adj_rules();
    let weights = model.spec_weights();
    &&& np >= 1
    &&& 64 * words_for_bits(np as int) <= usize::MAX
    &&& model.spec_num_directions() == 4
    &&& weights.len() == np
    &&& rules.len() == np * 4
    &&& forall|q: int| 0 <= q < rules.len() ==> (#[trigger] rules[q]).capacity() >= 64 * words_for_bits(np as int)
    &&& forall|p: int| 0 <= p < np ==> (#[trigger] weights[p]) > 0
    &&& total_weight(all_patterns(np), weights) <= u32::MAX
}

/// The patterns that the first `k` of `values` allow in direction slot `d`, below `cap`.
pub open spec fn partial_union(rules: Seq<SimpleBitSet>, values: Seq<usize>, k: int, d: int, cap: int) -> Set<int> {
    Set::new(|j: int| j < cap && exists|m: int| 0 <= m < k && #[trigger] rule_at(rules, values[m] as int, d).contains(j))
}

/// Fills `union_map[d]`, for each direction slot `d`, with the patterns that some value
/// of `values` allows that way, as far as the sets have room.
fn fill_unions(
    union_map: &mut Vec<SimpleBitSet>,
    rules: &Vec<SimpleBitSet>,
    values: &Vec<usize>,
    num_directions: usize,
    Ghost(s): Ghost<Set<int>>,
    Ghost(np): Ghost<nat>,
)
    requires
        num_directions == 4,
        old(union_map)@.len() == 4,
        forall|d: int| 0 <= d < 4 ==> (#[trigger] old(union_map)@[d])@ == Set::<int>::empty(),
        forall|d: int| 0 <= d < 4 ==> (#[trigger] old(union_map)@[d]).capacity() == 64 * words_for_bits(np as int),
        rules@.len() == np * 4,
        forall|q: int| 0 <= q < rules@.len() ==> (#[trigger] rules@[q]).capacity() >= 64 * words_for_bits(np as int),
        lists_in_order(values@, s),
        forall|v: int| s.contains(v) ==> 0 <= v < np,
    ensures
        final(union_map)@.len() == 4,
        forall|d: int| 0 <= d < 4 ==> (#[trigger] final(union_map)@[d]).capacity() == 64 * words_for_bits(np as int),
        forall|d: int| 0 <= d < 4 ==> (#[trigger] final(union_map)@[d])@ == allowed_by(rules@, s, d).filter(
            |j: int| j < 64 * words_for_bits(np as int),
        ),
{
    let ghost cap = 64 * words_for_bits(np as int);
    let num_rules = rules.len();
    let mut k: usize = 0;
    proof {
        assert forall|d: int| 0 <= d < 4 implies (#[trigger] union_map@[d])@ == partial_union(rules@, values@, 0, d, cap) by {
            assert(union_map@[d]@ =~= partial_union(rules@, values@, 0, d, cap));
        }
    }
    while k < values.len()
        invariant
            0 <= k <= values@.len(),
            num_directions == 4,
            union_map@.len() == 4,
            forall|d: int| 0 <= d < 4 ==> (#[trigger] union_map@[d]).capacity() == cap,
            forall|d: int| 0 <= d < 4 ==> (#[trigger] union_map@[d])@ == partial_union(rules@, values@, k as int, d, cap),
            rules@.len() == np * 4,
            num_rules == rules@.len(),
            forall|q: int| 0 <= q < rules@.len() ==> (#[trigger] rules@[q]).capacity() >= cap,
            lists_in_order(values@, s),
            forall|v: int| s.contains(v) ==> 0 <= v < np,
        decreases values@.len() - k,
    {
        let p = values[k];
        proof {
            assert(s.contains(p as int)) by {
                assert(exists|m: int| 0 <= m < values@.len() && values@[m] as int == p as int);
            }
        }
        let mut d: usize = 0;
        while d < num_directions
            invariant
                0 <= k < values@.len(),
                p == values@[k as int],
                0 <= p < np,
                0 <= d <= 4,
                num_directions == 4,
                union_map@.len() == 4,
                forall|e: int| 0 <= e < 4 ==> (#[trigger] union_map@[e]).capacity() == cap,
                forall|e: int| 0 <= e < 4 ==> (#[trigger] union_map@[e])@ == partial_union(
                    rules@,
                    values@,
                    if e < d { k + 1 } else { k as int },
                    e,
                    cap,
                ),
                rules@.len() == np * 4,
                num_rules == rules@.len(),
                forall|q: int| 0 <= q < rules@.len() ==> (#[trigger] rules@[q]).capacity() >= cap,
            decreases 4 - d,
        {
            proof {
                assert(p * 4 + d < np * 4) by (nonlinear_arith)
                    requires
                        p < np,
                        d < 4,
                ;
            }
            let rule_idx = p * num_directions + d;
            let ghost before = union_map@;
            union_map[d].union_with(&rules[rule_idx]);
            proof {
                assert forall|e: int| 0 <= e < 4 implies (#[trigger] union_map@[e])@ == partial_union(
                    rules@,
                    values@,
                    if e < d + 1 { k + 1 } else { k as int },
                    e,
                    cap,
                ) by {
                    if e == d {
                        SimpleBitSet::lemma_members_bounded(&rules@[rule_idx as int]);
                        assert(rule_at(rules@, p as int, e) == rules@[rule_idx as int]@);
                        assert forall|j: int| #[trigger] union_map@[e]@.contains(j) <==> partial_union(
                            rules@,
                            values@,
                            k + 1,
                            e,
                            cap,
                        ).contains(j) by {
                            if partial_union(rules@, values@, k + 1, e, cap).contains(j) {
                                let m = choose|m: int| 0 <= m < k + 1 && #[trigger] rule_at(rules@, values@[m] as int, e).contains(j);
                                if m < k {
                                    assert(partial_union(rules@, values@, k as int, e, cap).contains(j));
                                }
                            }
                            if before[e]@.contains(j) {
                                let m = choose|m: int| 0 <= m < k && #[trigger] rule_at(rules@, values@[m] as int, e).contains(j);
                                assert(0 <= m < k + 1 && rule_at(rules@, values@[m] as int, e).contains(j));
                            }
                        }
                        assert(union_map@[e]@ =~= partial_union(rules@, values@, k + 1, e, cap));
                    } else {
                        assert(union_map@[e] == before[e]);
                    }
                }
            }
            d += 1;
        }
        k += 1;
    }
    proof {
        assert forall|d: int| 0 <= d < 4 implies (#[trigger] union_map@[d])@ == allowed_by(rules@, s, d).filter(
            |j: int| j < cap,
        ) by {
            assert forall|j: int| #[trigger] union_map@[d]@.contains(j) <==> allowed_by(rules@, s, d).filter(
                |j: int| j < cap,
            ).contains(j) by {
                if union_map@[d]@.contains(j) {
                    let m = choose|m: int| 0 <= m < values@.len() && #[trigger] rule_at(rules@, values@[m] as int, d).contains(j);
                    assert(s.contains(values@[m] as int));
                    assert(allowed_by(rules@, s, d).contains(j));
                }
                if allowed_by(rules@, s, d).filter(|j: int| j < cap).contains(j) {
                    let p = choose|p: int| s.contains(p) && #[trigger] rule_at(rules@, p, d).contains(j);
                    let m = choose|m: int| 0 <= m < values@.len() && values@[m] as int == p;
                    assert(rule_at(rules@, values@[m] as int, d).contains(j));
                }
            }
            assert(union_map@[d]@ =~= allowed_by(rules@, s, d).filter(|j: int| j < cap));
        }
    }
}

/// A neighbour of a cell of the grid is another cell of the grid.
pub proof fn lemma_neighbour_in_grid(index: int, width: int, height: int, d: int)
    requires
        0 <= index < width * height,
        width >= 0,
        height >= 0,
    ensures
        neighbour(index, width, height, d) matches Some(b) ==> 0 <= b < width * height && b != index,
{
    assert(width > 0) by (nonlinear_arith)
        requires
            0 <= index < width * height,
            width >= 0,
            height >= 0,
    ;
    let x = index % width;
    let y = index / width;
    assert(index == y * width + x && 0 <= x < width && 0 <= y < height) by (nonlinear_arith)
        requires
            width > 0,
            0 <= index < width * height,
            x == index % width,
            y == index / width,
    ;
    assert(y * width + width <= width * height) by (nonlinear_arith)
        requires
            0 <= y < height,
            width > 0,
    ;
    if y > 0 {
        assert(index >= width) by (nonlinear_arith)
            requires
                index == y * width + x,
                0 <= x,
                y >= 1,
                width > 0,
        ;
    }
    if d == 1 && y + 1 < height {
        assert(index + width < width * height) by (nonlinear_arith)
            requires
                index == y * width + x,
                0 <= x < width,
                0 <= y,
                y + 2 <= height,
        ;
    }
}

/// Cell `a` has passed its constraints on in the direction slots below `t`.
pub open spec fn propagated_below(cells: Seq<Cell>, rules: Seq<SimpleBitSet>, width: int, height: int, a: int, t: int) -> bool {
    forall|d: int|
        0 <= d < t ==> match #[trigger] neighbour(a, width, height, d) {
            Some(b) => !cells[b].is_collapsed ==> cells[b].possible_values@.subset_of(
                allowed_by(rules, cells[a].possible_values@, d),
            ),
            None => true,
        }
}

/// Cell `c` replaces cell `n`, holding a subset of its patterns, and is collapsed if `n`
/// was.
pub open spec fn narrows(c: Cell, old_cell: Cell) -> bool {
    &&& c.possible_values@.subset_of(old_cell.possible_values@)
    &&& old_cell.is_collapsed ==> c.is_collapsed
}

/// Narrowing another cell keeps a cell propagated.
proof fn lemma_propagated_after_narrowing(
    cells: Seq<Cell>,
    rules: Seq<SimpleBitSet>,
    width: int,
    height: int,
    a: int,
    t: int,
    n: int,
    c: Cell,
)
    requires
        cells.len() == width * height,
        width >= 0,
        height >= 0,
        0 <= a < cells.len(),
        0 <= n < cells.len(),
        a != n || (c.possible_values@ == cells[n].possible_values@ && c.is_collapsed == cells[n].is_collapsed),
        narrows(c, cells[n]),
        propagated_below(cells, rules, width, height, a, t),
    ensures
        propagated_below(cells.update(n, c), rules, width, height, a, t),
{
    let u = cells.update(n, c);
    assert forall|d: int| 0 <= d < t implies match #[trigger] neighbour(a, width, height, d) {
        Some(b) => !u[b].is_collapsed ==> u[b].possible_values@.subset_of(
            allowed_by(rules, u[a].possible_values@, d),
        ),
        None => true,
    } by {
        lemma_neighbour_in_grid(a, width, height, d);
        if a != n {
            assert(u[a] == cells[a]);
        }
        if let Some(b) = neighbour(a, width, height, d) {
            if b != n {
                assert(u[b] == cells[b]);
            }
        }
    }
}

/// Passing constraints on in one more direction slot.
proof fn lemma_propagated_extend(cells: Seq<Cell>, rules: Seq<SimpleBitSet>, width: int, height: int, a: int, t: int)
    requires
        propagated_below(cells, rules, width, height, a, t),
        match neighbour(a, width, height, t) {
            Some(b) => !cells[b].is_collapsed ==> cells[b].possible_values@.subset_of(
                allowed_by(rules, cells[a].possible_values@, t),
            ),
            None => true,
        },
    ensures
        propagated_below(cells, rules, width, height, a, t + 1),
{
    assert forall|d: int| 0 <= d < t + 1 implies match #[trigger] neighbour(a, width, height, d) {
        Some(b) => !cells[b].is_collapsed ==> cells[b].possible_values@.subset_of(
            allowed_by(rules, cells[a].possible_values@, d),
        ),
        None => true,
    } by {
        if d < t {
            assert(0 <= d < t);
        }
    }
}

/// Narrowing cell `n`, other than `c`, keeps every changed cell other than `c` propagated
/// or queued, given that `n` itself is.
proof fn lemma_pending_after_narrowing(
    start: Seq<Cell>,
    cells: Seq<Cell>,
    rules: Seq<SimpleBitSet>,
    width: int,
    height: int,
    queued: Seq<usize>,
    queue: Seq<usize>,
    c: int,
    n: int,
    cell: Cell,
)
    requires
        cells.len() == width * height,
        width >= 0,
        height >= 0,
        start.len() == cells.len(),
        0 <= n < cells.len(),
        n != c,
        narrows(cell, cells[n]),
        forall|x: usize| queued.contains(x) ==> queue.contains(x),
        forall|i: int|
            0 <= i < start.len() && i != c && touched(start, cells, i) ==> propagated(cells, rules, width, height, i)
                || queued.contains(i as usize),
        touched(start, cells.update(n, cell), n) ==> propagated(cells.update(n, cell), rules, width, height, n)
            || queue.contains(n as usize),
    ensures
        forall|i: int|
            0 <= i < start.len() && i != c && touched(start, cells.update(n, cell), i) ==> propagated(
                cells.update(n, cell),
                rules,
                width,
                height,
                i,
            ) || queue.contains(i as usize),
{
    let u = cells.update(n, cell);
    assert forall|i: int|
        0 <= i < start.len() && i != c && touched(start, u, i) implies propagated(u, rules, width, height, i)
            || queue.contains(i as usize) by {
        if i != n {
            assert(u[i] == cells[i]);
            assert(touched(start, cells, i));
            if propagated(cells, rules, width, height, i) {
                lemma_propagated_after_narrowing(cells, rules, width, height, i, 4, n, cell);
            } else {
                assert(queued.contains(i as usize));
                assert(queue.contains(i as usize));
            }
        }
    }
}

/// Narrowing a cell keeps every ruled out pattern ruled out.
proof fn lemma_ruled_out_after_narrowing(
    cells: Seq<Cell>,
    rules: Seq<SimpleBitSet>,
    width: int,
    height: int,
    b: int,
    v: int,
    n: int,
    c: Cell,
)
    requires
        0 <= n < cells.len(),
        narrows(c, cells[n]),
        ruled_out(cells, rules, width, height, b, v),
    ensures
        ruled_out(cells.update(n, c), rules, width, height, b, v),
{
    let u = cells.update(n, c);
    let (a, d) = choose|a: int, d: int|
        0 <= a < cells.len() && 0 <= d < 4 && #[trigger] neighbour(a, width, height, d) == Some(b)
            && !allowed_by(rules, cells[a].possible_values@, d).contains(v);
    lemma_allowed_by_monotone(rules, u[a].possible_values@, cells[a].possible_values@, d);
    assert(neighbour(a, width, height, d) == Some(b));
}

/// Shrinking the cells keeps every ruled out pattern ruled out.
pub proof fn lemma_ruled_out_after_shrinking(
    cells: Seq<Cell>,
    later: Seq<Cell>,
    rules: Seq<SimpleBitSet>,
    width: int,
    height: int,
    b: int,
    v: int,
)
    requires
        shrinks(cells, later),
        ruled_out(cells, rules, width, height, b, v),
    ensures
        ruled_out(later, rules, width, height, b, v),
{
    let (a, d) = choose|a: int, d: int|
        0 <= a < cells.len() && 0 <= d < 4 && #[trigger] neighbour(a, width, height, d) == Some(b)
            && !allowed_by(rules, cells[a].possible_values@, d).contains(v);
    assert(narrows(later[a], cells[a]));
    lemma_allowed_by_monotone(rules, later[a].possible_values@, cells[a].possible_values@, d);
    assert(neighbour(a, width, height, d) == Some(b));
}

/// When every cell is collapsed, every cell is propagated.
proof fn lemma_all_collapsed_propagated(cells: Seq<Cell>, rules: Seq<SimpleBitSet>, width: int, height: int, a: int)
    requires
        cells.len() == width * height,
        width >= 0,
        height >= 0,
        0 <= a < cells.len(),
        forall|i: int| 0 <= i < cells.len() ==> (#[trigger] cells[i]).is_collapsed,
    ensures
        propagated(cells, rules, width, height, a),
{
    assert forall|d: int| 0 <= d < 4 implies match #[trigger] neighbour(a, width, height, d) {
        Some(b) => !cells[b].is_collapsed ==> cells[b].possible_values@.subset_of(
            allowed_by(rules, cells[a].possible_values@, d),
        ),
        None => true,
    } by {
        lemma_neighbour_in_grid(a, width, height, d);
    }
}

/// A set with one member holds just that member.
proof fn lemma_singleton(s: Set<int>, x: int)
    requires
        s.finite(),
        s.len() == 1,
        s.contains(x),
    ensures
        s == set![x],
{
    assert(s.remove(x).len() == 0);
    assert(s.remove(x) =~= Set::<int>::empty());
    assert(s =~= set![x]);
}

/// What the model promises of a cell's set of patterns: collapsing it draws a roll below a
/// positive total weight that fits a `u32`, and the set has fewer members than a `u32`
/// holds.
proof fn lemma_cell_weights(model: CompiledModel, s: Set<int>)
    requires
        solvable(model),
        forall|v: int| s.contains(v) ==> 0 <= v < model.spec_num_patterns(),
        s.len() > 0,
        s.finite(),
    ensures
        0 < total_weight(ascending(s), model.spec_weights()) <= u32::MAX,
        s.len() <= u32::MAX,
        model.spec_num_patterns() <= u32::MAX,
        forall|v: int| s.contains(v) ==> v < model.spec_weights().len(),
{
    let np = model.spec_num_patterns();
    let weights = model.spec_weights();
    let all = all_patterns(np);
    let full = Set::new(|i: int| 0 <= i < np);
    assert(np <= 64 * words_for_bits(np as int));
    lemma_ascending_lists(s, np as int);
    assert(lists_in_order(all, full)) by {
        assert forall|x: int| full.contains(x) <==> exists|k: int| 0 <= k < all.len() && all[k] as int == x by {
            if full.contains(x) {
                assert(all[x] as int == x);
            }
        }
    }
    lemma_total_weight_subset(ascending(s), s, all, full, weights);
    assert forall|k: int| 0 <= k < all.len() implies weights[#[trigger] all[k] as int] >= 1 by {
        assert(all[k] as int == k);
    }
    lemma_total_weight_at_least_len(all, weights);
    let q = ascending(s);
    assert forall|k: int| 0 <= k < q.len() implies weights[#[trigger] q[k] as int] >= 1 by {
        assert(s.contains(q[k] as int));
    }
    lemma_total_weight_at_least_len(q, weights);
    assert(q.len() > 0) by {
        let x = s.choose();
        assert(s.contains(x));
    }
    vstd::set_lib::lemma_int_range(0, np as int);
    assert(s.subset_of(vstd::set_lib::set_int_range(0, np as int)));
    vstd::set_lib::lemma_len_subset(s, vstd::set_lib::set_int_range(0, np as int));
}

/// Every cell of `cells` narrows the same cell of `start`, and the cells that were
/// collapsed in `start` are unchanged.
pub open spec fn shrinks(start: Seq<Cell>, cells: Seq<Cell>) -> bool {
    &&& cells.len() == start.len()
    &&& forall|i: int| 0 <= i < cells.len() ==> #[trigger] narrows(cells[i], start[i])
    &&& forall|i: int| 0 <= i < cells.len() && start[i].is_collapsed ==> #[trigger] cells[i] == start[i]
}

/// Pushing onto a sequence keeps what it held and adds the new value.
proof fn lemma_push_contains(s: Seq<usize>, v: usize)
    ensures
        forall|x: usize| s.contains(x) ==> s.push(v).contains(x),
        s.push(v).contains(v),
{
    assert forall|x: usize| s.contains(x) implies s.push(v).contains(x) by {
        let k = choose|k: int| 0 <= k < s.len() && s[k] == x;
        assert(s.push(v)[k] == x);
    }
    assert(s.push(v)[s.len() as int] == v);
}

/// Narrowing cell `n` keeps ruled out what was ruled out; what it loses is ruled out by
/// its neighbour `a`.
proof fn lemma_removals_after_narrowing(
    start: Seq<Cell>,
    cells: Seq<Cell>,
    rules: Seq<SimpleBitSet>,
    width: int,
    height: int,
    keep: int,
    n: int,
    cell: Cell,
    a: int,
    d: int,
)
    requires
        start.len() == cells.len(),
        0 <= n < cells.len(),
        0 <= a < cells.len(),
        a != n,
        0 <= d < 4,
        neighbour(a, width, height, d) == Some(n),
        narrows(cell, cells[n]),
        forall|v: int|
            cells[n].possible_values@.contains(v) && !cell.possible_values@.contains(v) ==> !allowed_by(
                rules,
                cells[a].possible_values@,
                d,
            ).contains(v),
        forall|b: int, v: int|
            0 <= b < start.len() && b != keep && start[b].possible_values@.contains(v)
                && !cells[b].possible_values@.contains(v) ==> ruled_out(cells, rules, width, height, b, v),
    ensures
        forall|b: int, v: int|
            0 <= b < start.len() && b != keep && start[b].possible_values@.contains(v)
                && !cells.update(n, cell)[b].possible_values@.contains(v) ==> ruled_out(
                cells.update(n, cell),
                rules,
                width,
                height,
                b,
                v,
            ),
{
    let u = cells.update(n, cell);
    assert forall|b: int, v: int|
        0 <= b < start.len() && b != keep && start[b].possible_values@.contains(v)
            && !u[b].possible_values@.contains(v) implies ruled_out(u, rules, width, height, b, v) by {
        if !cells[b].possible_values@.contains(v) {
            lemma_ruled_out_after_narrowing(cells, rules, width, height, b, v, n, cell);
        } else {
            assert(b == n);
            assert(u[a] == cells[a]);
            assert(neighbour(a, width, height, d) == Some(b));
        }
    }
}

/// Narrowing cell `n` keeps every listed cell changed from `start`.
proof fn lemma_listed_after_narrowing(start: Seq<Cell>, cells: Seq<Cell>, listed: Seq<usize>, n: int, cell: Cell)
    requires
        start.len() == cells.len(),
        0 <= n < cells.len(),
        cell.possible_values@.subset_of(cells[n].possible_values@),
        cells[n].possible_values@.subset_of(start[n].possible_values@),
        forall|k: int|
            0 <= k < listed.len() ==> #[trigger] listed[k] < start.len() && cells[listed[k] as int].possible_values@
                != start[listed[k] as int].possible_values@,
    ensures
        forall|k: int|
            0 <= k < listed.len() ==> #[trigger] listed[k] < start.len() && cells.update(n, cell)[listed[k] as int].possible_values@
                != start[listed[k] as int].possible_values@,
{
    let u = cells.update(n, cell);
    assert forall|k: int| 0 <= k < listed.len() implies #[trigger] listed[k] < start.len()
        && u[listed[k] as int].possible_values@ != start[listed[k] as int].possible_values@ by {
        let i = listed[k] as int;
        if i == n {
            if u[i].possible_values@ == start[i].possible_values@ {
                assert(cells[i].possible_values@ =~= start[i].possible_values@);
            }
        }
    }
}

/// Narrowing cell `n` keeps every changed, uncollapsed cell listed, given that `n` is.
proof fn lemma_listing_after_narrowing(
    start: Seq<Cell>,
    cells: Seq<Cell>,
    listed_before: Seq<usize>,
    listed: Seq<usize>,
    n: int,
    cell: Cell,
)
    requires
        start.len() == cells.len(),
        0 <= n < cells.len(),
        forall|x: usize| listed_before.contains(x) ==> listed.contains(x),
        forall|i: int|
            0 <= i < start.len() && (#[trigger] cells[i]).possible_values@ != start[i].possible_values@
                && !cells[i].is_collapsed ==> listed_before.contains(i as usize),
        cell.possible_values@ != start[n].possible_values@ && !cell.is_collapsed ==> listed.contains(n as usize),
    ensures
        forall|i: int|
            0 <= i < start.len() && (#[trigger] cells.update(n, cell)[i]).possible_values@
                != start[i].possible_values@ && !cells.update(n, cell)[i].is_collapsed ==> listed.contains(i as usize),
{
    let u = cells.update(n, cell);
    assert forall|i: int|
        0 <= i < start.len() && (#[trigger] u[i]).possible_values@ != start[i].possible_values@
            && !u[i].is_collapsed implies listed.contains(i as usize) by {
        if i != n {
            assert(u[i] == cells[i]);
            assert(listed_before.contains(i as usize));
        }
    }
}

/// Narrowing a cell that is not collapsed keeps the cells shrunk from `start`.
proof fn lemma_shrinks_after_narrowing(start: Seq<Cell>, cells: Seq<Cell>, n: int, c: Cell)
    requires
        shrinks(start, cells),
        0 <= n < cells.len(),
        !cells[n].is_collapsed,
        c.possible_values@.subset_of(cells[n].possible_values@),
    ensures
        shrinks(start, cells.update(n, c)),
{
    let u = cells.update(n, c);
    assert(narrows(cells[n], start[n]));
    assert forall|i: int| 0 <= i < u.len() implies #[trigger] narrows(u[i], start[i]) by {
        if i != n {
            assert(u[i] == cells[i]);
        }
    }
    assert forall|i: int| 0 <= i < u.len() && start[i].is_collapsed implies #[trigger] u[i] == start[i] by {
        if i != n {
            assert(u[i] == cells[i]);
        } else {
            assert(cells[i] == start[i]);
        }
    }
}

/// Shrinking twice is shrinking.
pub proof fn lemma_shrinks_transitive(a: Seq<Cell>, b: Seq<Cell>, c: Seq<Cell>)
    requires
        shrinks(a, b),
        shrinks(b, c),
    ensures
        shrinks(a, c),
{
    assert forall|i: int| 0 <= i < c.len() implies #[trigger] narrows(c[i], a[i]) by {
        assert(narrows(c[i], b[i]));
        assert(narrows(b[i], a[i]));
    }
    assert forall|i: int| 0 <= i < c.len() && a[i].is_collapsed implies #[trigger] c[i] == a[i] by {
        assert(b[i] == a[i]);
    }
}

/// Cell `i` changed from `start` to `cells`: it lost patterns or was collapsed.
pub open spec fn touched(start: Seq<Cell>, cells: Seq<Cell>, i: int) -> bool {
    ||| cells[i].possible_values@ != start[i].possible_values@
    ||| (cells[i].is_collapsed && !start[i].is_collapsed)
}

/// A cell of a solver state over `num_patterns` patterns: its set has room for every
/// pattern and holds only patterns, at least one; a collapsed cell holds just its value.
pub open spec fn cell_wf(c: Cell, num_patterns: nat) -> bool {
    &&& c.possible_values.capacity() == 64 * words_for_bits(num_patterns as int)
    &&& forall|v: int| c.possible_values@.contains(v) ==> 0 <= v < num_patterns
    &&& c.possible_values@.len() > 0
    &&& c.is_collapsed == (c.collapsed_val is Some)
    &&& c.is_collapsed ==> c.collapsed_to(c.collapsed_val->0 as int)
}

/// Every cell that differs from `initial` (it lost patterns or was collapsed) has passed
/// its constraints on.
pub open spec fn settled(initial: Seq<Cell>, cells: Seq<Cell>, rules: Seq<SimpleBitSet>, width: int, height: int) -> bool {
    forall|i: int| 0 <= i < cells.len() && touched(initial, cells, i) ==> propagated(cells, rules, width, height, i)
}

/// A run keeps its cells settled: when every cell that changed since the start had passed
/// its constraints on before a step of [`WfcState::collapse_and_propagate`], every such
/// cell has after the step too. The `requires` are what the step's `ensures` state.
pub proof fn lemma_step_keeps_settled(
    initial: Seq<Cell>,
    before: Seq<Cell>,
    after: Seq<Cell>,
    rules: Seq<SimpleBitSet>,
    width: int,
    height: int,
)
    requires
        width >= 0,
        height >= 0,
        before.len() == width * height,
        initial.len() == before.len(),
        settled(initial, before, rules, width, height),
        shrinks(before, after),
        forall|i: int|
            0 <= i < after.len() && touched(before, after, i) ==> propagated(after, rules, width, height, i),
    ensures
        settled(initial, after, rules, width, height),
{
    assert forall|i: int| 0 <= i < after.len() && touched(initial, after, i) implies propagated(
        after,
        rules,
        width,
        height,
        i,
    ) by {
        if !touched(before, after, i) {
            assert(narrows(after[i], before[i]));
            assert(touched(initial, before, i));
            assert forall|d: int| 0 <= d < 4 implies match #[trigger] neighbour(i, width, height, d) {
                Some(b) => !after[b].is_collapsed ==> after[b].possible_values@.subset_of(
                    allowed_by(rules, after[i].possible_values@, d),
                ),
                None => true,
            } by {
                lemma_neighbour_in_grid(i, width, height, d);
                if let Some(b) = neighbour(i, width, height, d) {
                    assert(narrows(after[b], before[b]));
                    if before[b].is_collapsed {
                        assert(after[b] == before[b]);
                    }
                }
            }
        }
    }
}

/// Neighbourhood is mutual: `b` is above `a` exactly when `a` is below `b`, and `b` is
/// right of `a` exactly when `a` is left of `b`.
pub proof fn lemma_neighbour_symmetric(a: int, b: int, width: int, height: int)
    requires
        width >= 0,
        height >= 0,
        0 <= a < width * height,
        0 <= b < width * height,
    ensures
        neighbour(a, width, height, 0) == Some(b) <==> neighbour(b, width, height, 1) == Some(a),
        neighbour(a, width, height, 2) == Some(b) <==> neighbour(b, width, height, 3) == Some(a),
{
    assert(width > 0) by (nonlinear_arith)
        requires
            0 <= a < width * height,
            width >= 0,
            height >= 0,
    ;
    crate::pattern::lemma_index_cell(width, height, a);
    crate::pattern::lemma_index_cell(width, height, b);
    let (ax, ay) = (a % width, a / width);
    let (bx, by) = (b % width, b / width);
    if ay > 0 {
        crate::pattern::lemma_cell_index(width, ax, ay - 1);
        assert((ay - 1) * width + ax == a - width) by (nonlinear_arith)
            requires
                ay * width + ax == a,
        ;
    }
    if by + 1 < height {
        crate::pattern::lemma_cell_index(width, bx, by + 1);
        assert((by + 1) * width + bx == b + width) by (nonlinear_arith)
            requires
                by * width + bx == b,
        ;
    }
    if ax + 1 < width {
        crate::pattern::lemma_cell_index(width, ax + 1, ay);
    }
    if bx > 0 {
        crate::pattern::lemma_cell_index(width, bx - 1, by);
    }
}

/// The state of a solver run: the cells of the output grid, in index order, and how many
/// of them are not collapsed yet.
pub struct WfcState {
    pub cells: Vec<Cell>,
    pub uncollapsed_num: u32,
}

impl WfcState {
    /// The state fits a `width` by `height` grid over `num_patterns` patterns, no cell
    /// has run out of patterns, and the count of uncollapsed cells is right.
    pub open spec fn wf(&self, num_patterns: nat, width: int, height: int) -> bool {
        &&& self.cells@.len() == width * height
        &&& width * height <= u32::MAX
        &&& forall|i: int| 0 <= i < self.cells@.len() ==> cell_wf(#[trigger] self.cells@[i], num_patterns)
        &&& self.uncollapsed_num == uncollapsed_count(self.cells@)
    }

    /// The state a run starts from on a `width` by `height` grid: every cell may take
    /// every one of `num_patterns` patterns, and none is collapsed.
    pub fn new(num_patterns: usize, width: u32, height: u32) -> (r: WfcState)
        requires
            num_patterns >= 1,
            64 * words_for_bits(num_patterns as int) <= usize::MAX,
            width * height <= u32::MAX,
        ensures
            r.wf(num_patterns as nat, width as int, height as int),
            r.uncollapsed_num == width * height,
            forall|i: int|
                0 <= i < r.cells@.len() ==> (#[trigger] r.cells@[i]).possible_values@ == Set::new(
                    |v: int| 0 <= v < num_patterns,
                ) && !r.cells@[i].is_collapsed,
    {
        let total_output = width * height;
        let initial_possible_values = SimpleBitSet::full(num_patterns);
        proof {
            vstd::set_lib::lemma_int_range(0, num_patterns as int);
            assert(initial_possible_values@ =~= vstd::set_lib::set_int_range(0, num_patterns as int));
            assert(initial_possible_values@.contains(0));
        }
        let mut cells: Vec<Cell> = Vec::new();
        let mut k: u32 = 0;
        while k < total_output
            invariant
                0 <= k <= total_output,
                total_output == width * height,
                cells@.len() == k,
                uncollapsed_count(cells@) == k,
                initial_possible_values@ == Set::new(|v: int| 0 <= v < num_patterns),
                initial_possible_values@.len() > 0,
                initial_possible_values.capacity() == 64 * words_for_bits(num_patterns as int),
                forall|i: int|
                    0 <= i < cells@.len() ==> (#[trigger] cells@[i]).possible_values@ == initial_possible_values@
                        && !cells@[i].is_collapsed && cells@[i].collapsed_val is None
                        && cells@[i].possible_values.capacity() == initial_possible_values.capacity(),
            decreases total_output - k,
        {
            let ghost before = cells@;
            cells.push(Cell::new(initial_possible_values.clone()));
            proof {
                assert(cells@.drop_last() =~= before);
            }
            k += 1;
        }
        let r = WfcState { cells, uncollapsed_num: total_output };
        proof {
            assert forall|i: int| 0 <= i < r.cells@.len() implies cell_wf(#[trigger] r.cells@[i], num_patterns as nat) by {}
        }
        r
    }

    /// Collapses cell `cell_idx` (see [`Cell::collapse`]) and propagates what that rules
    /// out: a cell whose patterns changed passes on to each neighbour that is not
    /// collapsed the patterns that its own allow there, cell by cell in the order they
    /// changed, and a neighbour left with one pattern is collapsed to it. Fails with a
    /// contradiction as soon as a cell is left with none. On success, returns the cells
    /// that lost patterns and are still not collapsed (perhaps more than once), and:
    /// every cell that changed has passed its constraints on, every pattern that a cell
    /// other than `cell_idx` lost is ruled out by a neighbour, no cell gained a pattern,
    /// and collapsed cells kept their value.
    pub fn collapse_and_propagate(
        &mut self,
        model: &CompiledModel,
        cell_idx: usize,
        width: u32,
        height: u32,
        rng: &mut SeededRng,
    ) -> (r: Result<Vec<usize>, SolverRunError>)
        requires
            solvable(*model),
            old(self).wf(model.spec_num_patterns(), width as int, height as int),
            cell_idx < old(self).cells@.len(),
            !old(self).cells@[cell_idx as int].is_collapsed,
        ensures
            shrinks(old(self).cells@, final(self).cells@),
            final(rng).seed() == old(rng).seed(),
            final(self).cells@[cell_idx as int].is_collapsed,
            exists|roll: int|
                {
                    &&& 0 <= roll < total_weight(
                        ascending(old(self).cells@[cell_idx as int].possible_values@),
                        model.spec_weights(),
                    )
                    &&& final(self).cells@[cell_idx as int].collapsed_to(
                        #[trigger] weighted_pick(
                            ascending(old(self).cells@[cell_idx as int].possible_values@),
                            model.spec_weights(),
                            roll,
                        ) as int,
                    )
                },
            match r {
                Ok(updated) => {
                    &&& final(self).wf(model.spec_num_patterns(), width as int, height as int)
                    &&& final(self).uncollapsed_num < old(self).uncollapsed_num
                    &&& forall|i: int|
                        0 <= i < final(self).cells@.len() && touched(old(self).cells@, final(self).cells@, i)
                            ==> propagated(final(self).cells@, model.spec_adj_rules(), width as int, height as int, i)
                    &&& forall|b: int, v: int|
                        0 <= b < final(self).cells@.len() && b != cell_idx
                            && old(self).cells@[b].possible_values@.contains(v)
                            && !final(self).cells@[b].possible_values@.contains(v) ==> ruled_out(
                            final(self).cells@,
                            model.spec_adj_rules(),
                            width as int,
                            height as int,
                            b,
                            v,
                        )
                    &&& forall|k: int|
                        0 <= k < updated@.len() ==> #[trigger] updated@[k] < final(self).cells@.len()
                            && final(self).cells@[updated@[k] as int].possible_values@
                            != old(self).cells@[updated@[k] as int].possible_values@
                    &&& forall|i: int|
                        0 <= i < final(self).cells@.len() && (#[trigger] final(self).cells@[i]).possible_values@
                            != old(self).cells@[i].possible_values@ && !final(self).cells@[i].is_collapsed
                            ==> updated@.contains(i as usize)
                    &&& forall|i: int|
                        0 <= i < final(self).cells@.len() && (#[trigger] final(self).cells@[i]).possible_values@
                            != old(self).cells@[i].possible_values@ && !final(self).cells@[i].is_collapsed
                            ==> final(self).cells@[i].possible_values@.len() >= 2
                    &&& collapses_forced(
                        old(self).cells@,
                        final(self).cells@,
                        model.spec_adj_rules(),
                        width as int,
                        height as int,
                        cell_idx as int,
                    )
                },
                Err(e) => {
                    &&& e == SolverRunError::Contradiction
                    &&& exists|i: int|
                        0 <= i < final(self).cells@.len() && (#[trigger] final(self).cells@[i]).possible_values@.len()
                            == 0 && !final(self).cells@[i].is_collapsed && forall|j: int|
                            0 <= j < final(self).cells@.len() && j != i ==> final(self).cells@[j].possible_values@.len()
                                > 0
                    &&& forall|b: int, v: int|
                        0 <= b < final(self).cells@.len() && b != cell_idx
                            && old(self).cells@[b].possible_values@.contains(v)
                            && !final(self).cells@[b].possible_values@.contains(v) ==> ruled_out(
                            final(self).cells@,
                            model.spec_adj_rules(),
                            width as int,
                            height as int,
                            b,
                            v,
                        )
                },
            },
    {
        let ghost start = self.cells@;
        let ghost np = model.spec_num_patterns();
        let ghost w = width as int;
        let ghost h = height as int;
        let ghost cap = 64 * words_for_bits(np as int);
        let adj_rules = model.adj_rules();
        let frequency_hints = model.frequency_hints();
        let num_patterns = model.num_patterns();
        let num_directions = model.num_directions();
        let ghost rules = adj_rules@;
        proof {
            assert(cell_wf(start[cell_idx as int], np));
            SimpleBitSet::lemma_members_bounded(&start[cell_idx as int].possible_values);
            lemma_cell_weights(*model, start[cell_idx as int].possible_values@);
            assert(np <= 64 * words_for_bits(np as int));
        }
        self.cells[cell_idx].collapse(frequency_hints, rng);
        let ghost first = self.cells@[cell_idx as int];
        proof {
            lemma_counts_update(start, cell_idx as int, first);
            assert(self.cells@ == start.update(cell_idx as int, first));
            let v = choose|v: int|
                {
                    &&& start[cell_idx as int].possible_values@.contains(v)
                    &&& model.spec_weights()[v] > 0
                    &&& #[trigger] first.collapsed_to(v)
                };
            assert(v < np);
            assert(first.collapsed_val->0 as int == v);
        }
        self.uncollapsed_num = self.uncollapsed_num - 1;
        let mut queue: VecDeque<usize> = VecDeque::new();
        queue.push_back(cell_idx);
        let mut union_map: Vec<SimpleBitSet> = Vec::new();
        let mut d: usize = 0;
        while d < num_directions
            invariant
                rng.seed() == old(rng).seed(),
                0 <= d <= 4,
                num_directions == 4,
                num_patterns == np,
                np <= usize::MAX - 63,
                cap == 64 * words_for_bits(np as int),
                union_map@.len() == d,
                forall|e: int| 0 <= e < d ==> (#[trigger] union_map@[e]).capacity() == cap,
            decreases 4 - d,
        {
            union_map.push(SimpleBitSet::new(num_patterns));
            d += 1;
        }
        let mut updated: Vec<usize> = Vec::new();
        proof {
            assert forall|i: int| 0 <= i < start.len() && touched(start, self.cells@, i) implies propagated(
                self.cells@,
                rules,
                w,
                h,
                i,
            ) || queue@.contains(i as usize) by {
                if i != cell_idx {
                    assert(self.cells@[i] == start[i]);
                } else {
                    assert(queue@[0] == cell_idx);
                }
            }
            assert forall|i: int| 0 <= i < start.len() implies #[trigger] narrows(self.cells@[i], start[i]) by {
                if i != cell_idx {
                    assert(self.cells@[i] == start[i]);
                }
            }
            assert forall|b: int|
                0 <= b < self.cells@.len() && b != cell_idx && (#[trigger] self.cells@[b]).is_collapsed
                    && !start[b].is_collapsed implies forced(
                start,
                self.cells@,
                rules,
                w,
                h,
                b,
                self.cells@[b].collapsed_val->0 as int,
            ) by {
                assert(self.cells@[b] == start[b]);
            }
            assert forall|i: int| 0 <= i < start.len() implies cell_wf(#[trigger] self.cells@[i], np) by {
                if i != cell_idx {
                    assert(self.cells@[i] == start[i]);
                }
            }
        }
        while queue.len() > 0
            invariant
                rng.seed() == old(rng).seed(),
                solvable(*model),
                adj_rules@ == model.spec_adj_rules(),
                rules == adj_rules@,
                frequency_hints.weights@ == model.spec_weights(),
                num_patterns == np,
                np == model.spec_num_patterns(),
                num_directions == 4,
                cap == 64 * words_for_bits(np as int),
                w == width,
                h == height,
                start.len() == w * h,
                w * h <= u32::MAX,
                0 <= cell_idx < start.len(),
                start == old(self).cells@,
                self.uncollapsed_num < old(self).uncollapsed_num,
                self.cells@.len() == start.len(),
                forall|i: int| 0 <= i < start.len() ==> cell_wf(#[trigger] self.cells@[i], np),
                self.uncollapsed_num == uncollapsed_count(self.cells@),
                shrinks(start, self.cells@),
                collapses_forced(start, self.cells@, rules, w, h, cell_idx as int),
                forall|i: int|
                    0 <= i < start.len() && (#[trigger] self.cells@[i]).possible_values@ != start[i].possible_values@
                        && !self.cells@[i].is_collapsed ==> self.cells@[i].possible_values@.len() >= 2,
                self.cells@[cell_idx as int] == first,
                first.is_collapsed,
                exists|roll: int|
                    {
                        &&& 0 <= roll < total_weight(ascending(start[cell_idx as int].possible_values@), model.spec_weights())
                        &&& first.collapsed_to(
                            #[trigger] weighted_pick(
                                ascending(start[cell_idx as int].possible_values@),
                                model.spec_weights(),
                                roll,
                            ) as int,
                        )
                    },
                union_map@.len() == 4,
                forall|e: int| 0 <= e < 4 ==> (#[trigger] union_map@[e]).capacity() == cap,
                forall|k: int| 0 <= k < queue@.len() ==> #[trigger] queue@[k] < start.len(),
                forall|i: int|
                    0 <= i < start.len() && touched(start, self.cells@, i) ==> propagated(self.cells@, rules, w, h, i)
                        || queue@.contains(i as usize),
                forall|b: int, v: int|
                    0 <= b < start.len() && b != cell_idx && start[b].possible_values@.contains(v)
                        && !self.cells@[b].possible_values@.contains(v) ==> ruled_out(self.cells@, rules, w, h, b, v),
                forall|k: int|
                    0 <= k < updated@.len() ==> #[trigger] updated@[k] < start.len()
                        && self.cells@[updated@[k] as int].possible_values@ != start[updated@[k] as int].possible_values@,
                forall|i: int|
                    0 <= i < start.len() && (#[trigger] self.cells@[i]).possible_values@ != start[i].possible_values@
                        && !self.cells@[i].is_collapsed ==> updated@.contains(i as usize),
            decreases 2 * options_left(self.cells@) + queue@.len(),
        {
            let ghost measure = 2 * options_left(self.cells@) + queue@.len();
            let ghost queued = queue@;
            let next_prop = match queue.pop_front() {
                Some(c) => c,
                None => 0,
            };
            let ghost pc = self.cells@[next_prop as int];
            proof {
                assert forall|i: int|
                    0 <= i < start.len() && i != next_prop && touched(start, self.cells@, i) implies propagated(
                        self.cells@,
                        rules,
                        w,
                        h,
                        i,
                    ) || queue@.contains(i as usize) by {
                    if !propagated(self.cells@, rules, w, h, i) {
                        assert(queued.contains(i as usize));
                        let k = choose|k: int| 0 <= k < queued.len() && queued[k] == i as usize;
                        assert(k != 0);
                        assert(queue@[k - 1] == i as usize);
                    }
                }
                assert forall|k: int| 0 <= k < queue@.len() implies #[trigger] queue@[k] < start.len() by {
                    assert(queue@[k] == queued[k + 1]);
                }
            }
            let mut e: usize = 0;
            while e < 4
                invariant
                    rng.seed() == old(rng).seed(),
                    0 <= e <= 4,
                    union_map@.len() == 4,
                    forall|f: int| 0 <= f < 4 ==> (#[trigger] union_map@[f]).capacity() == cap,
                    forall|f: int| 0 <= f < e ==> (#[trigger] union_map@[f])@ == Set::<int>::empty(),
                decreases 4 - e,
            {
                union_map[e].clear_all();
                e += 1;
            }
            let values = self.cells[next_prop].possible_values.members();
            proof {
                assert(cell_wf(self.cells@[next_prop as int], np));
            }
            fill_unions(&mut union_map, adj_rules, &values, num_directions, Ghost(pc.possible_values@), Ghost(np));
            let neighbours = get_neighbor_indices(next_prop, width, height);
            let mut dir: usize = 0;
            while dir < 4
                invariant
                    rng.seed() == old(rng).seed(),
                    solvable(*model),
                    adj_rules@ == model.spec_adj_rules(),
                    rules == adj_rules@,
                    frequency_hints.weights@ == model.spec_weights(),
                    num_patterns == np,
                    np == model.spec_num_patterns(),
                    cap == 64 * words_for_bits(np as int),
                    w == width,
                    h == height,
                    start.len() == w * h,
                    w * h <= u32::MAX,
                    0 <= cell_idx < start.len(),
                    start == old(self).cells@,
                    self.uncollapsed_num < old(self).uncollapsed_num,
                    0 <= next_prop < start.len(),
                    0 <= dir <= 4,
                    self.cells@.len() == start.len(),
                    forall|i: int| 0 <= i < start.len() ==> cell_wf(#[trigger] self.cells@[i], np),
                    self.uncollapsed_num == uncollapsed_count(self.cells@),
                    shrinks(start, self.cells@),
                    collapses_forced(start, self.cells@, rules, w, h, cell_idx as int),
                    forall|i: int|
                        0 <= i < start.len() && (#[trigger] self.cells@[i]).possible_values@ != start[i].possible_values@
                            && !self.cells@[i].is_collapsed ==> self.cells@[i].possible_values@.len() >= 2,
                    self.cells@[cell_idx as int] == first,
                    first.is_collapsed,
                    exists|roll: int|
                        {
                            &&& 0 <= roll < total_weight(ascending(start[cell_idx as int].possible_values@), model.spec_weights())
                            &&& first.collapsed_to(
                                #[trigger] weighted_pick(
                                    ascending(start[cell_idx as int].possible_values@),
                                    model.spec_weights(),
                                    roll,
                                ) as int,
                            )
                        },
                    self.cells@[next_prop as int] == pc,
                    union_map@.len() == 4,
                    forall|f: int| 0 <= f < 4 ==> (#[trigger] union_map@[f]).capacity() == cap,
                    forall|f: int| 0 <= f < 4 ==> (#[trigger] union_map@[f])@ == allowed_by(rules, pc.possible_values@, f).filter(
                        |j: int| j < cap,
                    ),
                    forall|f: int|
                        0 <= f < 4 ==> match #[trigger] neighbour(next_prop as int, w, h, f) {
                            Some(n) => neighbours@[f] == Some(n as usize),
                            None => neighbours@[f] is None,
                        },
                    forall|k: int| 0 <= k < queue@.len() ==> #[trigger] queue@[k] < start.len(),
                    forall|i: int|
                        0 <= i < start.len() && i != next_prop && touched(start, self.cells@, i) ==> propagated(
                            self.cells@,
                            rules,
                            w,
                            h,
                            i,
                        ) || queue@.contains(i as usize),
                    propagated_below(self.cells@, rules, w, h, next_prop as int, dir as int),
                    forall|b: int, v: int|
                        0 <= b < start.len() && b != cell_idx && start[b].possible_values@.contains(v)
                            && !self.cells@[b].possible_values@.contains(v) ==> ruled_out(self.cells@, rules, w, h, b, v),
                    forall|k: int|
                        0 <= k < updated@.len() ==> #[trigger] updated@[k] < start.len()
                            && self.cells@[updated@[k] as int].possible_values@ != start[updated@[k] as int].possible_values@,
                    forall|i: int|
                        0 <= i < start.len() && (#[trigger] self.cells@[i]).possible_values@ != start[i].possible_values@
                            && !self.cells@[i].is_collapsed ==> updated@.contains(i as usize),
                    2 * options_left(self.cells@) + queue@.len() < measure,
                decreases 4 - dir,
            {
                proof {
                    lemma_neighbour_in_grid(next_prop as int, w, h, dir as int);
                }
                match neighbours[dir] {
                    None => {
                        proof {
                            lemma_propagated_extend(self.cells@, rules, w, h, next_prop as int, dir as int);
                        }
                    },
                    Some(n_idx) => {
                        if !self.cells[n_idx].is_collapsed {
                            let ghost cells0 = self.cells@;
                            let ghost cn = self.cells@[n_idx as int];
                            let ghost queued0 = queue@;
                            let ghost listed0 = updated@;
                            proof {
                                assert(neighbour(next_prop as int, w, h, dir as int) == Some(n_idx as int));
                                assert(n_idx != next_prop);
                                assert(n_idx != cell_idx);
                                assert(cell_wf(cn, np));
                                assert(narrows(cn, start[n_idx as int]));
                                SimpleBitSet::lemma_members_bounded(&cn.possible_values);
                                lemma_cell_weights(*model, cn.possible_values@);
                            }
                            let (changed, new_count) = self.cells[n_idx].possible_values.intersect_with_stats(
                                &union_map[dir],
                            );
                            let ghost cn1 = self.cells@[n_idx as int];
                            let ghost cells1 = self.cells@;
                            proof {
                                assert(self.cells@ == cells0.update(n_idx as int, cn1));
                                SimpleBitSet::lemma_members_bounded(&cn1.possible_values);
                                lemma_shrinks_after_narrowing(start, cells0, n_idx as int, cn1);
                                lemma_counts_update(cells0, n_idx as int, cn1);
                                assert(np <= cap);
                                assert forall|v: int|
                                    cn.possible_values@.contains(v) && !cn1.possible_values@.contains(v) implies !allowed_by(
                                    rules,
                                    cells0[next_prop as int].possible_values@,
                                    dir as int,
                                ).contains(v) by {
                                    assert(!union_map@[dir as int]@.contains(v));
                                }
                                lemma_removals_after_narrowing(
                                    start,
                                    cells0,
                                    rules,
                                    w,
                                    h,
                                    cell_idx as int,
                                    n_idx as int,
                                    cn1,
                                    next_prop as int,
                                    dir as int,
                                );
                                lemma_listed_after_narrowing(start, cells0, listed0, n_idx as int, cn1);
                                lemma_collapses_forced_after_narrowing(start, cells0, rules, w, h, cell_idx as int, n_idx as int, cn1);
                                lemma_propagated_after_narrowing(
                                    cells0,
                                    rules,
                                    w,
                                    h,
                                    next_prop as int,
                                    dir as int,
                                    n_idx as int,
                                    cn1,
                                );
                                assert(cn1.possible_values@.subset_of(allowed_by(rules, pc.possible_values@, dir as int)));
                                lemma_propagated_extend(self.cells@, rules, w, h, next_prop as int, dir as int);
                            }
                            if changed {
                                proof {
                                    vstd::set_lib::lemma_len_subset(cn1.possible_values@, cn.possible_values@);
                                    if cn1.possible_values@.len() == cn.possible_values@.len() {
                                        vstd::set_lib::lemma_subset_equality(cn1.possible_values@, cn.possible_values@);
                                    }
                                    assert(cn1.possible_values@.len() < cn.possible_values@.len());
                                }
                                if new_count == 0 {
                                    proof {
                                        assert(self.cells@[n_idx as int].possible_values@.len() == 0);
                                        assert(self.cells@[cell_idx as int] == first);
                                        assert forall|j: int| 0 <= j < self.cells@.len() && j != n_idx implies self.cells@[j].possible_values@.len()
                                            > 0 by {
                                            assert(self.cells@[j] == cells0[j]);
                                            assert(cell_wf(cells0[j], np));
                                        }
                                    }
                                    return Err(SolverRunError::Contradiction);
                                }
                                if new_count == 1 {
                                    proof {
                                        lemma_cell_weights(*model, cn1.possible_values@);
                                    }
                                    self.cells[n_idx].collapse(frequency_hints, rng);
                                    let ghost cn2 = self.cells@[n_idx as int];
                                    proof {
                                        let v = choose|v: int|
                                            {
                                                &&& cn1.possible_values@.contains(v)
                                                &&& model.spec_weights()[v] > 0
                                                &&& #[trigger] cn2.collapsed_to(v)
                                            };
                                        assert(cn2.collapsed_val->0 as int == v);
                                        assert(self.cells@ == cells1.update(n_idx as int, cn2));
                                        assert(cells1.update(n_idx as int, cn2) =~= cells0.update(n_idx as int, cn2));
                                        lemma_singleton(cn1.possible_values@, v);
                                        lemma_counts_update(cells0, n_idx as int, cn2);
                                        lemma_shrinks_after_narrowing(start, cells0, n_idx as int, cn2);
                                        lemma_removals_after_narrowing(
                                            start,
                                            cells1,
                                            rules,
                                            w,
                                            h,
                                            cell_idx as int,
                                            n_idx as int,
                                            cn2,
                                            next_prop as int,
                                            dir as int,
                                        );
                                        lemma_listed_after_narrowing(start, cells0, listed0, n_idx as int, cn2);
                                        let u2 = cells0.update(n_idx as int, cn2);
                                        let p = pc.possible_values@;
                                        let q = cn.possible_values@;
                                        assert(q.intersect(allowed_by(rules, p, dir as int)) =~= cn1.possible_values@) by {
                                            assert forall|j: int| #[trigger] q.contains(j) implies j < cap by {
                                                assert(j < np);
                                            }
                                        }
                                        assert(q.intersect(allowed_by(rules, p, dir as int)) == set![v]);
                                        assert(u2[next_prop as int] == pc);
                                        assert(narrows(cn, start[n_idx as int]));
                                        assert(narrows(pc, start[next_prop as int]));
                                        assert(neighbour(next_prop as int, w, h, dir as int) == Some(n_idx as int));
                                        assert(forced(start, u2, rules, w, h, n_idx as int, v));
                                        lemma_collapses_forced_after_narrowing(start, cells0, rules, w, h, cell_idx as int, n_idx as int, cn2);
                                        lemma_listing_after_narrowing(start, cells0, listed0, listed0, n_idx as int, cn2);
                                        lemma_propagated_after_narrowing(
                                            cells0,
                                            rules,
                                            w,
                                            h,
                                            next_prop as int,
                                            dir as int,
                                            n_idx as int,
                                            cn2,
                                        );
                                        lemma_propagated_extend(self.cells@, rules, w, h, next_prop as int, dir as int);
                                    }
                                    self.uncollapsed_num = self.uncollapsed_num - 1;
                                    if self.uncollapsed_num != 0 {
                                        queue.push_back(n_idx);
                                        proof {
                                            lemma_push_contains(queued0, n_idx);
                                        }
                                    } else {
                                        proof {
                                            lemma_uncollapsed_count_zero(self.cells@);
                                            lemma_all_collapsed_propagated(self.cells@, rules, w, h, n_idx as int);
                                        }
                                    }
                                    proof {
                                        lemma_pending_after_narrowing(
                                            start,
                                            cells0,
                                            rules,
                                            w,
                                            h,
                                            queued0,
                                            queue@,
                                            next_prop as int,
                                            n_idx as int,
                                            cn2,
                                        );
                                    }
                                } else {
                                    queue.push_back(n_idx);
                                    updated.push(n_idx);
                                    proof {
                                        lemma_push_contains(queued0, n_idx);
                                        lemma_push_contains(listed0, n_idx);
                                        assert(cn1.possible_values@ != start[n_idx as int].possible_values@) by {
                                            if cn1.possible_values@ == start[n_idx as int].possible_values@ {
                                                assert(cn.possible_values@ =~= cn1.possible_values@);
                                            }
                                        }
                                        lemma_listing_after_narrowing(start, cells0, listed0, updated@, n_idx as int, cn1);
                                        assert forall|k: int|
                                            0 <= k < updated@.len() implies #[trigger] updated@[k] < start.len()
                                            && self.cells@[updated@[k] as int].possible_values@
                                            != start[updated@[k] as int].possible_values@ by {
                                            if k < listed0.len() {
                                                assert(updated@[k] == listed0[k]);
                                            }
                                        }
                                        lemma_pending_after_narrowing(
                                            start,
                                            cells0,
                                            rules,
                                            w,
                                            h,
                                            queued0,
                                            queue@,
                                            next_prop as int,
                                            n_idx as int,
                                            cn1,
                                        );
                                    }
                                }
                            } else {
                                proof {
                                    assert(cn1.possible_values@ == cn.possible_values@);
                                    assert(cn1.is_collapsed == cn.is_collapsed);
                                    assert(cells1[n_idx as int] == cn1);
                                    if touched(start, cells1, n_idx as int) {
                                        assert(touched(start, cells0, n_idx as int));
                                    }
                                    lemma_listing_after_narrowing(start, cells0, listed0, listed0, n_idx as int, cn1);
                                    if propagated(cells0, rules, w, h, n_idx as int) {
                                        lemma_propagated_after_narrowing(
                                            cells0,
                                            rules,
                                            w,
                                            h,
                                            n_idx as int,
                                            4,
                                            n_idx as int,
                                            cn1,
                                        );
                                    }
                                    lemma_pending_after_narrowing(
                                        start,
                                        cells0,
                                        rules,
                                        w,
                                        h,
                                        queued0,
                                        queued0,
                                        next_prop as int,
                                        n_idx as int,
                                        cn1,
                                    );
                                }
                            }
                        } else {
                            proof {
                                lemma_propagated_extend(self.cells@, rules, w, h, next_prop as int, dir as int);
                            }
                        }
                    },
                }
                dir += 1;
            }
        }
        Ok(updated)
    }

    /// The value of every cell, in index order. Every cell must be collapsed.
    pub fn get_sampled_output(self) -> (r: Vec<u32>)
        requires
            forall|i: int| 0 <= i < self.cells@.len() ==> (#[trigger] self.cells@[i]).collapsed_val is Some,
        ensures
            r@.len() == self.cells@.len(),
            forall|i: int| 0 <= i < r@.len() ==> Some(#[trigger] r@[i]) == self.cells@[i].collapsed_val,
    {
        let mut out: Vec<u32> = Vec::with_capacity(self.cells.len());
        let mut i: usize = 0;
        while i < self.cells.len()
            invariant
                0 <= i <= self.cells@.len(),
                out@.len() == i,
                forall|k: int| 0 <= k < self.cells@.len() ==> (#[trigger] self.cells@[k]).collapsed_val is Some,
                forall|k: int| 0 <= k < i ==> Some(#[trigger] out@[k]) == self.cells@[k].collapsed_val,
            decreases self.cells@.len() - i,
        {
            let value = match self.cells[i].collapsed_val {
                Some(v) => v,
                None => 0,
            };
            out.push(value);
            i += 1;
        }
        out
    }
}

} // verus!
