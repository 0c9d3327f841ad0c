use vstd::prelude::*;
use crate::dimensions::{
    cell_count, coordinate_of, flat_index, in_extent, lemma_coord_of_index_of, lemma_flat_index_2d,
    lemma_index_of_coord_of, positive_axes, Dimensions,
};
use crate::pattern::{sample_at, lemma_cell_in_grid};
use crate::rule_model::RuleModel;
use crate::solution::Solution;
use vstd::std_specs::cmp::PartialEqSpec;

verus! {

/// The distinct values of `values` in the order in which they first occur.
pub open spec fn first_seen<T>(values: Seq<T>) -> Seq<T>
    decreases values.len(),
{
    if values.len() == 0 {
        Seq::empty()
    } else {
        let earlier = first_seen(values.drop_last());
        if earlier.contains(values.last()) {
            earlier
        } else {
            earlier.push(values.last())
        }
    }
}

/// The values first seen in `values` hold no value twice, and hold every value of
/// `values`.
pub proof fn lemma_first_seen<T>(values: Seq<T>)
    ensures
        first_seen(values).no_duplicates(),
        forall|v: T| values.contains(v) <==> first_seen(values).contains(v),
        first_seen(values).len() <= values.len(),
    decreases values.len(),
{
    if values.len() > 0 {
        let front = values.drop_last();
        let last = values.last();
        let earlier = first_seen(front);
        lemma_first_seen(front);
        assert forall|v: T| values.contains(v) <==> first_seen(values).contains(v) by {
            if values.contains(v) {
                let k = choose|k: int| 0 <= k < values.len() && values[k] == v;
                if k < values.len() - 1 {
                    assert(front[k] == v);
                    assert(front.contains(v));
                    assert(earlier.contains(v));
                    if !earlier.contains(last) {
                        let j = choose|j: int| 0 <= j < earlier.len() && earlier[j] == v;
                        assert(earlier.push(last)[j] == v);
                    }
                } else {
                    assert(v == last);
                    if !earlier.contains(last) {
                        assert(earlier.push(last)[earlier.len() as int] == v);
                    }
                }
            }
            if first_seen(values).contains(v) {
                if v == last {
                    assert(values[values.len() - 1] == v);
                } else {
                    let j = choose|j: int| 0 <= j < first_seen(values).len() && first_seen(values)[j] == v;
                    if !earlier.contains(last) {
                        assert(j < earlier.len());
                        assert(earlier[j] == v);
                    }
                    assert(earlier.contains(v));
                    assert(front.contains(v));
                    let k = choose|k: int| 0 <= k < front.len() && front[k] == v;
                    assert(values[k] == v);
                }
            }
        }
        if !earlier.contains(last) {
            let p = earlier.push(last);
            assert forall|i: int, j: int| 0 <= i < p.len() && 0 <= j < p.len() && i != j implies p[i] != p[j] by {
                if i < earlier.len() && j < earlier.len() {
                } else if i < earlier.len() {
                    assert(earlier[i] == p[i]);
                } else {
                    assert(earlier[j] == p[j]);
                }
            }
        }
    }
}

/// Values of type `T` sampled on an N dimensional grid, stored as a palette of the
/// distinct values and, per cell in index order, the position of its value in the palette.
pub struct Sampled<T, const N: usize> {
    sample_palette: Vec<T>,
    indices: Vec<u32>,
    dimensions: Dimensions<N>,
}

impl<T, const N: usize> Sampled<T, N> {
    #[verifier::type_invariant]
    spec fn one_index_per_cell(self) -> bool {
        &&& cell_count(self.dimensions@) <= usize::MAX
        &&& self.indices@.len() == cell_count(self.dimensions@)
    }

    /// The extent of the grid.
    pub closed spec fn spec_dimensions(&self) -> Dimensions<N> {
        self.dimensions
    }

    /// Per cell, in index order, the position of its value in the palette.
    pub closed spec fn spec_indices(&self) -> Seq<u32> {
        self.indices@
    }

    /// The distinct values.
    pub closed spec fn spec_palette(&self) -> Seq<T> {
        self.sample_palette@
    }

    /// The extent of the grid.
    pub fn dimensions(&self) -> (r: &Dimensions<N>)
        ensures
            *r == self.spec_dimensions(),
            cell_count(r@) <= usize::MAX,
            self.spec_indices().len() == cell_count(r@),
    {
        proof {
            use_type_invariant(self);
        }
        &self.dimensions
    }

    /// Per cell, in index order, the position of its value in the palette.
    pub fn indices(&self) -> (r: &[u32])
        ensures
            r@ == self.spec_indices(),
            r@.len() == cell_count(self.spec_dimensions()@),
            cell_count(self.spec_dimensions()@) <= usize::MAX,
    {
        proof {
            use_type_invariant(self);
        }
        self.indices.as_slice()
    }

    /// The distinct values.
    pub fn palette(&self) -> (r: &[T])
        ensures
            r@ == self.spec_palette(),
    {
        self.sample_palette.as_slice()
    }

    /// The value at `coord`.
    pub fn value_at(&self, coord: [u32; N]) -> (r: &T)
        requires
            in_extent(self.spec_dimensions()@, coord@),
            self.spec_indices()[flat_index(self.spec_dimensions()@, coord@)] < self.spec_palette().len(),
        ensures
            *r == self.spec_palette()[self.spec_indices()[flat_index(
                self.spec_dimensions()@,
                coord@,
            )] as int],
    {
        proof {
            use_type_invariant(self);
        }
        let index = self.dimensions.index_of(coord);
        &self.sample_palette[self.indices[index] as usize]
    }
}

/// The position of the first value in `palette` that equals `sample`, if any.
fn position_of<T: Eq>(palette: &Vec<T>, sample: &T) -> (r: Option<usize>)
    ensures
        vstd::laws_eq::obeys_concrete_eq::<T>() ==> match r {
            Some(p) => p < palette@.len() && palette@[p as int] == *sample && forall|q: int|
                0 <= q < p ==> palette@[q] != *sample,
            None => !palette@.contains(*sample),
        },
        r matches Some(p) ==> p < palette@.len(),
{
    proof {
        if vstd::laws_eq::obeys_concrete_eq::<T>() {
            reveal(vstd::laws_eq::obeys_concrete_eq);
        }
    }
    let mut position: usize = 0;
    while position < palette.len()
        invariant
            0 <= position <= palette@.len(),
            vstd::laws_eq::obeys_concrete_eq::<T>() ==> forall|p: int|
                0 <= p < position ==> palette@[p] != *sample,
            vstd::laws_eq::obeys_concrete_eq::<T>() ==> forall|x: T, y: T| x.eq_spec(&y) <==> x == y,
            vstd::laws_eq::obeys_concrete_eq::<T>() ==> T::obeys_eq_spec(),
        decreases palette@.len() - position,
    {
        if palette[position] == *sample {
            return Some(position);
        }
        position += 1;
    }
    None
}

impl<T: Eq, const N: usize> Sampled<T, N> {
    /// Samples `value_at` at every cell of `dimensions`, in index order (axis 0 fastest),
    /// and interns the values: the palette holds each distinct value once, in the order
    /// in which it was first seen, and each cell the position of its value there.
    pub fn from_fn<F: FnMut([u32; N]) -> T>(dimensions: Dimensions<N>, value_at: F) -> (r: Self)
        requires
            cell_count(dimensions@) <= usize::MAX,
            forall|c: [u32; N]| in_extent(dimensions@, c@) ==> call_requires(value_at, (c,)),
        ensures
            r.spec_dimensions() == dimensions,
            vstd::laws_eq::obeys_concrete_eq::<T>() ==> sampled_grid::<T, F, N>(value_at, r),
            r.spec_indices().len() == cell_count(dimensions@),
            forall|k: int|
                0 <= k < r.spec_indices().len() ==> #[trigger] r.spec_indices()[k] < r.spec_palette().len(),
    {
        let ghost sampler = value_at;
        let mut sample_at = value_at;
        let total = dimensions.total();
        let mut indices: Vec<u32> = Vec::with_capacity(total);
        let mut sample_palette: Vec<T> = Vec::new();
        let ghost mut values: Seq<T> = Seq::empty();
        let ghost mut positions: Seq<usize> = Seq::empty();
        let mut index: usize = 0;
        while index < total
            invariant
                0 <= index <= total,
                total == cell_count(dimensions@),
                sample_at == sampler,
                sampler == value_at,
                forall|c: [u32; N]| in_extent(dimensions@, c@) ==> call_requires(sample_at, (c,)),
                values.len() == index,
                positions.len() == index,
                indices@.len() == index,
                forall|k: int|
                    0 <= k < index ==> #[trigger] sampled_from::<T, F, N>(sampler, dimensions@, k, values[k]),
                vstd::laws_eq::obeys_concrete_eq::<T>() ==> sample_palette@ == first_seen(values),
                vstd::laws_eq::obeys_concrete_eq::<T>() ==> forall|k: int|
                    0 <= k < index ==> sample_palette@[#[trigger] positions[k] as int] == values[k],
                forall|k: int|
                    0 <= k < index ==> #[trigger] positions[k] < sample_palette@.len() && indices@[k]
                        <= positions[k] && (positions[k] <= u32::MAX ==> indices@[k] == positions[k]),
                sample_palette@.len() <= index,
            decreases total - index,
        {
            let coord = dimensions.coord_of(index);
            let sample = sample_at(coord);
            let found = position_of(&sample_palette, &sample);
            let ghost old_palette = sample_palette@;
            let ghost old_values = values;
            let ghost old_positions = positions;
            proof {
                values = values.push(sample);
                assert(values.drop_last() =~= old_values);
                assert(values.last() == sample);
            }
            let palette_index = match found {
                Some(position) => position,
                None => {
                    sample_palette.push(sample);
                    sample_palette.len() - 1
                },
            };
            proof {
                positions = positions.push(palette_index);
                assert(palette_index as u32 <= palette_index) by (bit_vector);
                assert(palette_index <= u32::MAX ==> palette_index as u32 == palette_index) by (bit_vector);
            }
            indices.push(palette_index as u32);
            proof {
                assert forall|k: int| 0 <= k < index + 1 implies #[trigger] sampled_from::<T, F, N>(
                    sampler,
                    dimensions@,
                    k,
                    values[k],
                ) by {
                    if k < index {
                        assert(values[k] == old_values[k]);
                    }
                }
                assert forall|k: int| 0 <= k < index + 1 implies #[trigger] positions[k] < sample_palette@.len()
                    && indices@[k] <= positions[k] && (positions[k] <= u32::MAX ==> indices@[k] == positions[k]) by {
                    if k < index {
                        assert(positions[k] == old_positions[k]);
                    }
                }
                if vstd::laws_eq::obeys_concrete_eq::<T>() {
                    assert forall|k: int| 0 <= k < index + 1 implies sample_palette@[#[trigger] positions[k] as int]
                        == values[k] by {
                        if k < index {
                            assert(positions[k] == old_positions[k]);
                            assert(sample_palette@[positions[k] as int] == old_palette[positions[k] as int]);
                        }
                    }
                }
            }
            index += 1;
        }
        let r = Sampled { sample_palette, indices, dimensions };
        proof {
            assert forall|k: int| 0 <= k < r.spec_indices().len() implies #[trigger] r.spec_indices()[k]
                < r.spec_palette().len() by {
                assert(positions[k] < r.spec_palette().len());
            }
            if vstd::laws_eq::obeys_concrete_eq::<T>() && r.spec_palette().len() <= u32::MAX + 1 {
                assert forall|k: int| 0 <= k < values.len() implies r.spec_palette()[#[trigger] r.spec_indices()[k] as int]
                    == values[k] by {
                    assert(positions[k] < r.spec_palette().len());
                    assert(r.spec_indices()[k] == positions[k]);
                }
            }
            if vstd::laws_eq::obeys_concrete_eq::<T>() {
                assert(grid_of::<T, F, N>(sampler, r, values));
            }
        }
        r
    }
}

/// The grid cell whose pattern the decoded output shows at column `ox`, row `oy`: the
/// last placement, in the grid's index order, whose pattern covers that position; along
/// each axis that is the position itself, held inside the grid.
pub open spec fn covering_cell(ox: int, oy: int, grid_width: int, grid_height: int) -> (int, int) {
    (if ox < grid_width { ox } else { grid_width - 1 }, if oy < grid_height { oy } else { grid_height - 1 })
}

/// The palette index that decoding `solution` with the patterns of `rule_model` puts at
/// column `ox`, row `oy` of the output.
pub open spec fn decoded_index(solution: Solution, rule_model: RuleModel, ox: int, oy: int) -> u32 {
    let gw = solution.output_dimensions@[0] as int;
    let gh = solution.output_dimensions@[1] as int;
    let pw = rule_model.pattern_dimensions@[0] as int;
    let (gx, gy) = covering_cell(ox, oy, gw, gh);
    let pattern = rule_model.patterns@[solution.output@[gx + gy * gw] as int];
    sample_at(pattern.samples@, pw, ox - gx, oy - gy)
}

/// `solution` can be decoded with the patterns of `rule_model`: it names a pattern for
/// each of its cells, every pattern has the model's pattern extent, and the output extent
/// fits the integer types that hold it.
pub open spec fn decodable(solution: Solution, rule_model: RuleModel) -> bool {
    let gw = solution.output_dimensions@[0] as int;
    let gh = solution.output_dimensions@[1] as int;
    let pw = rule_model.pattern_dimensions@[0] as int;
    let ph = rule_model.pattern_dimensions@[1] as int;
    &&& solution.output@.len() == gw * gh
    &&& gw * gh <= usize::MAX
    &&& forall|k: int| 0 <= k < solution.output@.len() ==> (#[trigger] solution.output@[k]) < rule_model.patterns@.len()
    &&& forall|i: int| 0 <= i < rule_model.patterns@.len() ==> {
        let p = #[trigger] rule_model.patterns@[i];
        p.wf() && p.width == pw && p.height == ph
    }
    &&& gw + pw - 1 <= u32::MAX
    &&& gh + ph - 1 <= u32::MAX
    &&& (gw + pw - 1) * (gh + ph - 1) <= usize::MAX
}

/// Whether `solution` can be decoded with the patterns of `rule_model` (see
/// [`decodable`]).
pub fn is_decodable(solution: &Solution, rule_model: &RuleModel) -> (r: bool)
    ensures
        r == decodable(*solution, *rule_model),
{
    let gw = solution.output_dimensions.get(0) as u64;
    let gh = solution.output_dimensions.get(1) as u64;
    let pw = rule_model.pattern_dimensions.get(0) as u64;
    let ph = rule_model.pattern_dimensions.get(1) as u64;
    proof {
        assert(gw * gh <= u32::MAX * u32::MAX) by (nonlinear_arith)
            requires
                gw <= u32::MAX,
                gh <= u32::MAX,
        ;
        assert(pw * ph <= u32::MAX * u32::MAX) by (nonlinear_arith)
            requires
                pw <= u32::MAX,
                ph <= u32::MAX,
        ;
    }
    let cells = gw * gh;
    if cells > usize::MAX as u64 || solution.output.len() as u64 != cells {
        return false;
    }
    if gw + pw - 1 > u32::MAX as u64 || gh + ph - 1 > u32::MAX as u64 {
        return false;
    }
    let out_w = gw + pw - 1;
    let out_h = gh + ph - 1;
    match out_w.checked_mul(out_h) {
        None => {
            return false;
        },
        Some(out_cells) => {
            if out_cells > usize::MAX as u64 {
                return false;
            }
        },
    }
    let num_patterns = rule_model.patterns.len();
    let mut k: usize = 0;
    while k < solution.output.len()
        invariant
            0 <= k <= solution.output@.len(),
            num_patterns == rule_model.patterns@.len(),
            forall|m: int| 0 <= m < k ==> (#[trigger] solution.output@[m]) < rule_model.patterns@.len(),
        decreases solution.output@.len() - k,
    {
        if solution.output[k] as usize >= num_patterns {
            return false;
        }
        k += 1;
    }
    let mut i: usize = 0;
    while i < num_patterns
        invariant
            0 <= i <= num_patterns,
            num_patterns == rule_model.patterns@.len(),
            pw == rule_model.pattern_dimensions@[0],
            ph == rule_model.pattern_dimensions@[1],
            pw * ph <= u32::MAX * u32::MAX,
            forall|m: int| 0 <= m < i ==> {
                let p = #[trigger] rule_model.patterns@[m];
                p.wf() && p.width == pw && p.height == ph
            },
        decreases num_patterns - i,
    {
        let p = &rule_model.patterns[i];
        if p.width as u64 != pw || p.height as u64 != ph {
            return false;
        }
        if pw * ph > u32::MAX as u64 || p.samples.len() as u64 != pw * ph {
            return false;
        }
        i += 1;
    }
    true
}

impl<T: Clone> Sampled<T, 2> {
    /// Paints the pattern of each cell of `solution` at that cell's position, producing
    /// an output as many cells larger along each axis as the patterns overlap; where
    /// placements overlap the one placed last in the grid's index order shows. The
    /// palette is carried over from this input.
    pub fn decode(&self, solution: &Solution, rule_model: &RuleModel) -> (r: Sampled<T, 2>)
        requires
            decodable(*solution, *rule_model),
        ensures
            r.spec_dimensions()@ == seq![
                (solution.output_dimensions@[0] + rule_model.pattern_dimensions@[0] - 1) as u32,
                (solution.output_dimensions@[1] + rule_model.pattern_dimensions@[1] - 1) as u32,
            ],
            r.spec_palette().len() == self.spec_palette().len(),
            forall|i: int| 0 <= i < self.spec_palette().len() ==> cloned(#[trigger] self.spec_palette()[i], r.spec_palette()[i]),
            forall|ox: int, oy: int|
                0 <= ox < r.spec_dimensions()@[0] && 0 <= oy < r.spec_dimensions()@[1]
                    ==> #[trigger] sample_at(r.spec_indices(), r.spec_dimensions()@[0] as int, ox, oy)
                    == decoded_index(*solution, *rule_model, ox, oy),
    {
        let grid = solution.output_dimensions;
        let grid_width = grid.get(0);
        let grid_height = grid.get(1);
        let pattern_width = rule_model.pattern_dimensions.get(0);
        let pattern_height = rule_model.pattern_dimensions.get(1);
        let out_width = grid_width - 1 + pattern_width;
        let out_height = grid_height - 1 + pattern_height;
        let output_dimensions = Dimensions::new([out_width, out_height]).unwrap();
        proof {
            lemma_flat_index_2d(output_dimensions@, output_dimensions@);
            lemma_flat_index_2d(grid@, grid@);
        }
        let total = output_dimensions.total();
        let mut indices: Vec<u32> = Vec::with_capacity(total);
        let mut oy: u32 = 0;
        while oy < out_height
            invariant
                decodable(*solution, *rule_model),
                grid == solution.output_dimensions,
                grid@.len() == 2,
                rule_model.pattern_dimensions@.len() == 2,
                grid_width == grid@[0],
                grid_height == grid@[1],
                grid_width > 0,
                grid_height > 0,
                pattern_width == rule_model.pattern_dimensions@[0],
                pattern_height == rule_model.pattern_dimensions@[1],
                pattern_width > 0,
                pattern_height > 0,
                out_width == grid_width + pattern_width - 1,
                out_height == grid_height + pattern_height - 1,
                oy <= out_height,
                indices@.len() == oy * out_width,
                forall|x: int, y: int|
                    0 <= x < out_width && 0 <= y < oy ==> #[trigger] sample_at(indices@, out_width as int, x, y)
                        == decoded_index(*solution, *rule_model, x, y),
            decreases out_height - oy,
        {
            let mut ox: u32 = 0;
            while ox < out_width
                invariant
                    decodable(*solution, *rule_model),
                    grid == solution.output_dimensions,
                    grid@.len() == 2,
                    rule_model.pattern_dimensions@.len() == 2,
                    grid_width == grid@[0],
                    grid_height == grid@[1],
                    grid_width > 0,
                    grid_height > 0,
                    pattern_width == rule_model.pattern_dimensions@[0],
                    pattern_height == rule_model.pattern_dimensions@[1],
                    pattern_width > 0,
                    pattern_height > 0,
                    out_width == grid_width + pattern_width - 1,
                    out_height == grid_height + pattern_height - 1,
                    oy < out_height,
                    ox <= out_width,
                    indices@.len() == oy * out_width + ox,
                    forall|x: int, y: int|
                        (0 <= x < out_width && 0 <= y < oy) || (y == oy && 0 <= x < ox)
                            ==> #[trigger] sample_at(indices@, out_width as int, x, y) == decoded_index(
                            *solution,
                            *rule_model,
                            x,
                            y,
                        ),
                decreases out_width - ox,
            {
                let gx = if ox < grid_width { ox } else { grid_width - 1 };
                let gy = if oy < grid_height { oy } else { grid_height - 1 };
                proof {
                    lemma_cell_in_grid(grid_width as int, grid_height as int, gx as int, gy as int);
                    vstd::arithmetic::mul::lemma_mul_is_commutative(grid_width as int, grid_height as int);
                    lemma_flat_index_2d(grid@, seq![gx, gy]);
                }
                let coord = [gx, gy];
                proof {
                    assert(coord@ =~= seq![gx, gy]);
                }
                let grid_idx = grid.index_of(coord);
                let pattern = &rule_model.patterns[solution.output[grid_idx] as usize];
                proof {
                    let i = solution.output@[grid_idx as int] as int;
                    assert(0 <= i < rule_model.patterns@.len());
                    assert(rule_model.patterns@[i].wf());
                }
                let sample = pattern.sample(ox - gx, oy - gy);
                let ghost before = indices@;
                indices.push(sample);
                proof {
                    assert forall|x: int, y: int|
                        (0 <= x < out_width && 0 <= y < oy) || (y == oy && 0 <= x < ox + 1)
                        implies #[trigger] sample_at(indices@, out_width as int, x, y) == decoded_index(
                        *solution,
                        *rule_model,
                        x,
                        y,
                    ) by {
                        if y < oy {
                            lemma_cell_in_grid(out_width as int, oy as int, x, y);
                            vstd::arithmetic::mul::lemma_mul_is_commutative(out_width as int, oy as int);
                            assert(indices@[y * out_width + x] == before[y * out_width + x]);
                            assert(sample_at(before, out_width as int, x, y) == decoded_index(*solution, *rule_model, x, y));
                        } else if x < ox {
                            assert(indices@[y * out_width + x] == before[y * out_width + x]);
                            assert(sample_at(before, out_width as int, x, y) == decoded_index(*solution, *rule_model, x, y));
                        } else {
                            assert(x == ox && y == oy);
                            assert(indices@[y * out_width + x] == sample);
                            assert(grid_idx == gx + gy * grid_width);
                            assert(covering_cell(x, y, grid_width as int, grid_height as int) == (gx as int, gy as int));
                            assert(pattern.width == pattern_width);
                            assert(*pattern == rule_model.patterns@[solution.output@[gx + gy * grid_width] as int]);
                            assert(sample == sample_at(pattern.samples@, pattern_width as int, x - gx, y - gy));
                            assert(sample == decoded_index(*solution, *rule_model, x, y));
                        }
                        assert(sample_at(indices@, out_width as int, x, y) == indices@[y * out_width + x]);
                    }
                }
                ox += 1;
            }
            proof {
                assert(oy * out_width + out_width == (oy + 1) * out_width) by (nonlinear_arith);
            }
            oy += 1;
        }
        proof {
            vstd::arithmetic::mul::lemma_mul_is_commutative(out_width as int, out_height as int);
        }
        let palette = self.sample_palette.clone();
        Sampled { sample_palette: palette, indices, dimensions: output_dimensions }
    }
}

/// `r` holds, cell by cell in index order, the values `values`, each of which `f` may
/// return at the cell's coordinate: the palette holds the values in the order they are
/// first seen, and, where it has fewer than 2^32 entries, the index of each cell points at
/// its value.
pub open spec fn grid_of<T, F: FnMut([u32; N]) -> T, const N: usize>(f: F, r: Sampled<T, N>, values: Seq<T>) -> bool {
    let lengths = r.spec_dimensions()@;
    &&& values.len() == cell_count(lengths)
    &&& r.spec_indices().len() == cell_count(lengths)
    &&& forall|k: int| 0 <= k < r.spec_indices().len() ==> #[trigger] r.spec_indices()[k] < r.spec_palette().len()
    &&& forall|k: int| 0 <= k < values.len() ==> #[trigger] sampled_from::<T, F, N>(f, lengths, k, values[k])
    &&& r.spec_palette() == first_seen(values)
    &&& r.spec_palette().len() <= u32::MAX + 1 ==> forall|k: int|
        0 <= k < values.len() ==> r.spec_palette()[#[trigger] r.spec_indices()[k] as int] == values[k]
}

/// `r` is what [`Sampled::from_fn`] makes of the function `f` (see [`grid_of`]).
pub open spec fn sampled_grid<T, F: FnMut([u32; N]) -> T, const N: usize>(f: F, r: Sampled<T, N>) -> bool {
    exists|values: Seq<T>| grid_of::<T, F, N>(f, r, values)
}

/// The function `f` is single valued on the extent: at any one coordinate, it returns
/// one value only.
pub open spec fn single_valued<T, F: FnMut([u32; N]) -> T, const N: usize>(f: F, lengths: Seq<u32>) -> bool {
    forall|c1: [u32; N], c2: [u32; N], v1: T, v2: T|
        #![trigger call_ensures(f, (c1,), v1), call_ensures(f, (c2,), v2)]
        in_extent(lengths, c1@) && c1@ == c2@ && call_ensures(f, (c1,), v1) && call_ensures(f, (c2,), v2)
            ==> v1 == v2
}

/// Sampling one single valued function twice gives the same palette and indices.
pub proof fn lemma_from_fn_deterministic<T, F: FnMut([u32; N]) -> T, const N: usize>(
    f: F,
    r1: Sampled<T, N>,
    r2: Sampled<T, N>,
)
    requires
        r1.spec_dimensions() == r2.spec_dimensions(),
        positive_axes(r1.spec_dimensions()@),
        single_valued::<T, F, N>(f, r1.spec_dimensions()@),
        sampled_grid::<T, F, N>(f, r1),
        sampled_grid::<T, F, N>(f, r2),
        r1.spec_palette().len() <= u32::MAX + 1,
    ensures
        r1.spec_palette() == r2.spec_palette(),
        r1.spec_indices() == r2.spec_indices(),
{
    let lengths = r1.spec_dimensions()@;
    let v1 = choose|values: Seq<T>| grid_of::<T, F, N>(f, r1, values);
    let v2 = choose|values: Seq<T>| grid_of::<T, F, N>(f, r2, values);
    assert forall|k: int| 0 <= k < v1.len() implies v1[k] == v2[k] by {
        assert(sampled_from::<T, F, N>(f, lengths, k, v1[k]));
        assert(sampled_from::<T, F, N>(f, lengths, k, v2[k]));
        let c1 = choose|c: [u32; N]| c@ == coordinate_of(lengths, k) && call_ensures(f, (c,), v1[k]);
        let c2 = choose|c: [u32; N]| c@ == coordinate_of(lengths, k) && call_ensures(f, (c,), v2[k]);
        lemma_index_of_coord_of(lengths, k);
    }
    assert(v1 =~= v2);
    lemma_first_seen(v1);
    assert forall|k: int| 0 <= k < r1.spec_indices().len() implies r1.spec_indices()[k] == r2.spec_indices()[k] by {
        let p = r1.spec_palette();
        let i1 = r1.spec_indices()[k] as int;
        let i2 = r2.spec_indices()[k] as int;
        assert(p[i1] == v1[k]);
        assert(p[i2] == v1[k]);
        assert(p.contains(v1[k])) by {
            assert(v1.contains(v1[k]));
        }
        assert(0 <= i1 < p.len() && 0 <= i2 < p.len());
        assert(p.no_duplicates());
    }
    assert(r1.spec_indices() =~= r2.spec_indices());
}

/// Where the function is single valued, the value that [`Sampled::value_at`] reads at a
/// coordinate is the function's value there.
pub proof fn lemma_value_at_samples<T, F: FnMut([u32; N]) -> T, const N: usize>(
    r: Sampled<T, N>,
    c: [u32; N],
    f: F,
    v: T,
)
    requires
        positive_axes(r.spec_dimensions()@),
        single_valued::<T, F, N>(f, r.spec_dimensions()@),
        sampled_grid::<T, F, N>(f, r),
        r.spec_palette().len() <= u32::MAX + 1,
        in_extent(r.spec_dimensions()@, c@),
        call_ensures(f, (c,), v),
    ensures
        r.spec_palette()[r.spec_indices()[flat_index(r.spec_dimensions()@, c@)] as int] == v,
{
    let lengths = r.spec_dimensions()@;
    let values = choose|values: Seq<T>| grid_of::<T, F, N>(f, r, values);
    lemma_coord_of_index_of(lengths, c@);
    let k = flat_index(lengths, c@);
    assert(sampled_from::<T, F, N>(f, lengths, k, values[k]));
    let c1 = choose|c1: [u32; N]| c1@ == coordinate_of(lengths, k) && call_ensures(f, (c1,), values[k]);
    assert(r.spec_palette()[r.spec_indices()[k] as int] == values[k]);
}

/// `value` is a value that `f` may return at the coordinate of cell `k`.
pub open spec fn sampled_from<T, F: FnMut([u32; N]) -> T, const N: usize>(
    f: F,
    lengths: Seq<u32>,
    k: int,
    value: T,
) -> bool {
    exists|c: [u32; N]| c@ == coordinate_of(lengths, k) && call_ensures(f, (c,), value)
}

} // verus!
