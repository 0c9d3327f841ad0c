use vstd::prelude::*;
use crate::direction::Direction;
use vstd::arithmetic::div_mod::{lemma_fundamental_div_mod, lemma_fundamental_div_mod_converse};

verus! {

/// The sample at column `x`, row `y` of a row-major grid of samples `width` wide.
pub open spec fn sample_at(samples: Seq<u32>, width: int, x: int, y: int) -> u32 {
    samples[y * width + x]
}

/// `samples` is a row-major grid of `width` by `height` samples.
pub open spec fn is_grid(samples: Seq<u32>, width: int, height: int) -> bool {
    &&& 0 <= width
    &&& 0 <= height
    &&& samples.len() == width * height
    &&& width * height <= u32::MAX
}

/// The samples of a grid mirrored left to right: each row read back to front.
pub open spec fn mirrored(samples: Seq<u32>, width: int, height: int) -> Seq<u32> {
    Seq::new(
        (width * height) as nat,
        |k: int| sample_at(samples, width, width - 1 - k % width, k / width),
    )
}

/// Where a quarter-turn rotation by `turns` right angles places the sample at column
/// `x`, row `y` of a `width` by `height` grid, as a row-major index with the grid's own
/// width.
pub open spec fn turned_position(width: int, height: int, turns: int, x: int, y: int) -> int {
    if turns == 0 {
        x + y * width
    } else if turns == 1 {
        (height - 1 - y) + x * width
    } else if turns == 2 {
        (width - 1 - x) + (height - 1 - y) * width
    } else {
        y + (width - 1 - x) * width
    }
}

/// The value that rotating the grid leaves at position `k` after the first `n` samples
/// (in row-major order) have been placed: that of the last sample placed there, or zero
/// when none was.
pub open spec fn placed_value(samples: Seq<u32>, width: int, height: int, turns: int, n: int, k: int) -> u32
    decreases n,
{
    if n <= 0 || width <= 0 {
        0
    } else if turned_position(width, height, turns, (n - 1) % width, (n - 1) / width) == k {
        samples[n - 1]
    } else {
        placed_value(samples, width, height, turns, n - 1, k)
    }
}

/// The samples of a grid rotated by `turns` right angles into a grid of the same width
/// and height. Where positions coincide the sample placed last wins, and positions that no
/// sample reaches hold zero; for a square grid neither happens.
pub open spec fn rotated(samples: Seq<u32>, width: int, height: int, turns: int) -> Seq<u32> {
    Seq::new(
        (width * height) as nat,
        |k: int| placed_value(samples, width, height, turns, width * height, k),
    )
}

/// A rotation by `turns` right angles keeps every sample of a `width` by `height` grid
/// inside it: always for half turns, and for quarter turns when the grid is no wider
/// than tall.
pub open spec fn rotation_fits(width: int, height: int, turns: int) -> bool {
    turns % 2 == 0 || width <= height
}

/// The overlapping parts of two equally sized patterns agree when `other` is placed one
/// step in `direction` from `this`.
pub open spec fn overlap_agrees(this: Pattern, other: Pattern, direction: Direction) -> bool {
    let w = this.width as int;
    let h = this.height as int;
    let a = this.samples@;
    let b = other.samples@;
    let bw = other.width as int;
    match direction {
        Direction::Up => forall|row: int, col: int|
            0 <= row < h - 1 && 0 <= col < w ==> #[trigger] sample_at(a, w, col, row) == sample_at(
                b,
                bw,
                col,
                row + 1,
            ),
        Direction::Down => forall|row: int, col: int|
            1 <= row < h && 0 <= col < w ==> #[trigger] sample_at(a, w, col, row) == sample_at(
                b,
                bw,
                col,
                row - 1,
            ),
        Direction::Right => forall|row: int, col: int|
            0 <= row < h && 1 <= col < w ==> #[trigger] sample_at(a, w, col, row) == sample_at(
                b,
                bw,
                col - 1,
                row,
            ),
        Direction::Left => forall|row: int, col: int|
            0 <= row < h && 0 <= col < w - 1 ==> #[trigger] sample_at(a, w, col, row) == sample_at(
                b,
                bw,
                col + 1,
                row,
            ),
    }
}

/// A cell of a grid lies inside the grid's samples.
pub proof fn lemma_cell_in_grid(width: int, height: int, x: int, y: int)
    requires
        0 <= x < width,
        0 <= y < height,
    ensures
        0 <= y * width + x < width * height,
        0 <= y * width,
{
    assert(0 <= y * width + x < width * height) by (nonlinear_arith)
        requires
            0 <= x < width,
            0 <= y < height,
    ;
    assert(0 <= y * width) by (nonlinear_arith)
        requires
            0 <= y,
            0 <= width,
    ;
}

/// Every index of a grid is the cell at its remainder and quotient by the width.
pub proof fn lemma_index_cell(width: int, height: int, k: int)
    requires
        0 < width,
        0 <= height,
        0 <= k < width * height,
    ensures
        0 <= k % width < width,
        0 <= k / width < height,
        (k / width) * width + k % width == k,
{
    lemma_fundamental_div_mod(k, width);
    vstd::arithmetic::div_mod::lemma_mod_pos_bound(k, width);
    vstd::arithmetic::div_mod::lemma_div_pos_is_pos(k, width);
    vstd::arithmetic::mul::lemma_mul_is_commutative(width, k / width);
    if k / width >= height {
        assert((k / width) * width >= height * width) by (nonlinear_arith)
            requires
                k / width >= height,
                0 < width,
        ;
        vstd::arithmetic::mul::lemma_mul_is_commutative(width, height);
    }
}

/// The cell at column `x`, row `y` has index `y * width + x`, whose remainder and
/// quotient by the width are `x` and `y`.
pub proof fn lemma_cell_index(width: int, x: int, y: int)
    requires
        0 <= x < width,
        0 <= y,
    ensures
        (y * width + x) % width == x,
        (y * width + x) / width == y,
{
    lemma_fundamental_div_mod_converse(y * width + x, width, y, x);
}

/// Two grids of the same shape that agree at every cell are the same.
pub proof fn lemma_grid_ext(s: Seq<u32>, t: Seq<u32>, width: int, height: int)
    requires
        0 < width,
        0 <= height,
        s.len() == width * height,
        t.len() == width * height,
        forall|x: int, y: int|
            0 <= x < width && 0 <= y < height ==> #[trigger] sample_at(s, width, x, y) == sample_at(
                t,
                width,
                x,
                y,
            ),
    ensures
        s == t,
{
    assert forall|k: int| 0 <= k < s.len() implies s[k] == t[k] by {
        lemma_index_cell(width, height, k);
        assert(sample_at(s, width, k % width, k / width) == sample_at(t, width, k % width, k / width));
    }
    assert(s =~= t);
}

/// Placing `other` above `this` is the same as placing `this` below `other`, and placing
/// it to the right of `this` the same as placing `this` to its left: for two patterns
/// of one shape, compatibility in a direction is compatibility of the swapped pair in the
/// opposite direction.
pub proof fn lemma_overlap_symmetric(this: Pattern, other: Pattern)
    requires
        this.width == other.width,
        this.height == other.height,
    ensures
        overlap_agrees(this, other, Direction::Up) == overlap_agrees(other, this, Direction::Down),
        overlap_agrees(this, other, Direction::Right) == overlap_agrees(other, this, Direction::Left),
{
    let w = this.width as int;
    let h = this.height as int;
    let a = this.samples@;
    let b = other.samples@;
    if overlap_agrees(this, other, Direction::Up) {
        assert forall|row: int, col: int| 1 <= row < h && 0 <= col < w implies #[trigger] sample_at(b, w, col, row)
            == sample_at(a, w, col, row - 1) by {
            assert(sample_at(a, w, col, row - 1) == sample_at(b, w, col, (row - 1) + 1));
        }
    }
    if overlap_agrees(other, this, Direction::Down) {
        assert forall|row: int, col: int| 0 <= row < h - 1 && 0 <= col < w implies #[trigger] sample_at(a, w, col, row)
            == sample_at(b, w, col, row + 1) by {
            assert(sample_at(b, w, col, row + 1) == sample_at(a, w, col, (row + 1) - 1));
        }
    }
    if overlap_agrees(this, other, Direction::Right) {
        assert forall|row: int, col: int| 0 <= row < h && 0 <= col < w - 1 implies #[trigger] sample_at(b, w, col, row)
            == sample_at(a, w, col + 1, row) by {
            assert(sample_at(a, w, col + 1, row) == sample_at(b, w, (col + 1) - 1, row));
        }
    }
    if overlap_agrees(other, this, Direction::Left) {
        assert forall|row: int, col: int| 0 <= row < h && 1 <= col < w implies #[trigger] sample_at(a, w, col, row)
            == sample_at(b, w, col - 1, row) by {
            assert(sample_at(b, w, col - 1, row) == sample_at(a, w, (col - 1) + 1, row));
        }
    }
}

/// Mirroring a grid twice gives the grid back.
pub proof fn lemma_mirror_involution(samples: Seq<u32>, width: int, height: int)
    requires
        is_grid(samples, width, height),
        width > 0,
    ensures
        mirrored(mirrored(samples, width, height), width, height) == samples,
{
    let m = mirrored(samples, width, height);
    let mm = mirrored(m, width, height);
    assert forall|x: int, y: int| 0 <= x < width && 0 <= y < height implies #[trigger] sample_at(mm, width, x, y)
        == sample_at(samples, width, x, y) by {
        lemma_cell_in_grid(width, height, x, y);
        lemma_cell_index(width, x, y);
        lemma_cell_in_grid(width, height, width - 1 - x, y);
        lemma_cell_index(width, width - 1 - x, y);
    }
    lemma_grid_ext(mm, samples, width, height);
}

/// A square patch of the sampled input, stored row by row.
#[derive(Clone, Debug, PartialEq, Eq, Hash, PartialOrd, Ord)]
pub struct Pattern {
    pub samples: Vec<u32>,
    pub width: u32,
    pub height: u32,
}

impl Pattern {
    /// The pattern holds exactly `width * height` samples.
    pub open spec fn wf(&self) -> bool {
        is_grid(self.samples@, self.width as int, self.height as int)
    }

    /// The sample at column `x`, row `y`.
    pub fn sample(&self, x: u32, y: u32) -> (r: u32)
        requires
            self.wf(),
            x < self.width,
            y < self.height,
        ensures
            r == sample_at(self.samples@, self.width as int, x as int, y as int),
    {
        proof {
            lemma_cell_in_grid(self.width as int, self.height as int, x as int, y as int);
        }
        let idx = y * self.width + x;
        self.samples[idx as usize]
    }

    /// Whether `other` may sit one step in `direction` from this pattern: the rows or
    /// columns in which the two overlap hold the same samples.
    pub fn compatible(&self, other: &Pattern, direction: &Direction) -> (r: bool)
        requires
            self.wf(),
            other.wf(),
            other.width == self.width,
            other.height == self.height,
            *direction == Direction::Up ==> self.height >= 1,
            *direction == Direction::Left ==> self.width >= 1,
        ensures
            r == overlap_agrees(*self, *other, *direction),
    {
        let w = self.width;
        let h = self.height;
        match direction {
            Direction::Up => {
                let mut row: u32 = 0;
                while row < h - 1
                    invariant
                        self.wf(),
                        other.wf(),
                        *direction == Direction::Up,
                        other.width == w,
                        other.height == h,
                        w == self.width,
                        h == self.height,
                        h >= 1,
                        row <= h - 1,
                        forall|r: int, c: int|
                            0 <= r < row && 0 <= c < w ==> #[trigger] sample_at(
                                self.samples@,
                                w as int,
                                c,
                                r,
                            ) == sample_at(other.samples@, w as int, c, r + 1),
                    decreases h - 1 - row,
                {
                    let mut col: u32 = 0;
                    while col < w
                        invariant
                            self.wf(),
                            other.wf(),
                            *direction == Direction::Up,
                            other.width == w,
                            other.height == h,
                            w == self.width,
                            h == self.height,
                            row < h - 1,
                            col <= w,
                            forall|r: int, c: int|
                                (0 <= r < row && 0 <= c < w) || (r == row && 0 <= c < col)
                                    ==> #[trigger] sample_at(self.samples@, w as int, c, r)
                                    == sample_at(other.samples@, w as int, c, r + 1),
                        decreases w - col,
                    {
                        if self.sample(col, row) != other.sample(col, row + 1) {
                            proof {
                                assert(sample_at(self.samples@, w as int, col as int, row as int) != sample_at(other.samples@, w as int, col as int, row as int + 1));
                                assert(*direction == Direction::Up);
                                assert(!overlap_agrees(*self, *other, *direction));
                            }
                            return false;
                        }
                        col += 1;
                    }
                    row += 1;
                }
                true
            },
            Direction::Down => {
                let mut row: u32 = 1;
                while row < h
                    invariant
                        self.wf(),
                        other.wf(),
                        *direction == Direction::Down,
                        other.width == w,
                        other.height == h,
                        w == self.width,
                        h == self.height,
                        1 <= row,
                        h >= 1 ==> row <= h,
                        forall|r: int, c: int|
                            1 <= r < row && 0 <= c < w ==> #[trigger] sample_at(
                                self.samples@,
                                w as int,
                                c,
                                r,
                            ) == sample_at(other.samples@, w as int, c, r - 1),
                    decreases h - row,
                {
                    let mut col: u32 = 0;
                    while col < w
                        invariant
                            self.wf(),
                            other.wf(),
                            *direction == Direction::Down,
                            other.width == w,
                            other.height == h,
                            w == self.width,
                            h == self.height,
                            1 <= row < h,
                            col <= w,
                            forall|r: int, c: int|
                                (1 <= r < row && 0 <= c < w) || (r == row && 0 <= c < col)
                                    ==> #[trigger] sample_at(self.samples@, w as int, c, r)
                                    == sample_at(other.samples@, w as int, c, r - 1),
                        decreases w - col,
                    {
                        if self.sample(col, row) != other.sample(col, row - 1) {
                            proof {
                                assert(sample_at(self.samples@, w as int, col as int, row as int) != sample_at(other.samples@, w as int, col as int, row as int - 1));
                                assert(*direction == Direction::Down);
                                assert(!overlap_agrees(*self, *other, *direction));
                            }
                            return false;
                        }
                        col += 1;
                    }
                    row += 1;
                }
                true
            },
            Direction::Right => {
                let mut row: u32 = 0;
                while row < h
                    invariant
                        self.wf(),
                        other.wf(),
                        *direction == Direction::Right,
                        other.width == w,
                        other.height == h,
                        w == self.width,
                        h == self.height,
                        row <= h,
                        forall|r: int, c: int|
                            0 <= r < row && 1 <= c < w ==> #[trigger] sample_at(
                                self.samples@,
                                w as int,
                                c,
                                r,
                            ) == sample_at(other.samples@, w as int, c - 1, r),
                    decreases h - row,
                {
                    let mut col: u32 = 1;
                    while col < w
                        invariant
                            self.wf(),
                            other.wf(),
                            *direction == Direction::Right,
                            other.width == w,
                            other.height == h,
                            w == self.width,
                            h == self.height,
                            row < h,
                            1 <= col,
                            w >= 1 ==> col <= w,
                            forall|r: int, c: int|
                                (0 <= r < row && 1 <= c < w) || (r == row && 1 <= c < col)
                                    ==> #[trigger] sample_at(self.samples@, w as int, c, r)
                                    == sample_at(other.samples@, w as int, c - 1, r),
                        decreases w - col,
                    {
                        if self.sample(col, row) != other.sample(col - 1, row) {
                            proof {
                                assert(sample_at(self.samples@, w as int, col as int, row as int) != sample_at(other.samples@, w as int, col as int - 1, row as int));
                                assert(*direction == Direction::Right);
                                assert(!overlap_agrees(*self, *other, *direction));
                            }
                            return false;
                        }
                        col += 1;
                    }
                    row += 1;
                }
                true
            },
            Direction::Left => {
                let mut row: u32 = 0;
                while row < h
                    invariant
                        self.wf(),
                        other.wf(),
                        *direction == Direction::Left,
                        other.width == w,
                        other.height == h,
                        w == self.width,
                        h == self.height,
                        w >= 1,
                        row <= h,
                        forall|r: int, c: int|
                            0 <= r < row && 0 <= c < w - 1 ==> #[trigger] sample_at(
                                self.samples@,
                                w as int,
                                c,
                                r,
                            ) == sample_at(other.samples@, w as int, c + 1, r),
                    decreases h - row,
                {
                    let mut col: u32 = 0;
                    while col < w - 1
                        invariant
                            self.wf(),
                            other.wf(),
                            *direction == Direction::Left,
                            other.width == w,
                            other.height == h,
                            w == self.width,
                            h == self.height,
                            w >= 1,
                            row < h,
                            col <= w - 1,
                            forall|r: int, c: int|
                                (0 <= r < row && 0 <= c < w - 1) || (r == row && 0 <= c < col)
                                    ==> #[trigger] sample_at(self.samples@, w as int, c, r)
                                    == sample_at(other.samples@, w as int, c + 1, r),
                        decreases w - 1 - col,
                    {
                        if self.sample(col, row) != other.sample(col + 1, row) {
                            proof {
                                assert(sample_at(self.samples@, w as int, col as int, row as int) != sample_at(other.samples@, w as int, col as int + 1, row as int));
                                assert(*direction == Direction::Left);
                                assert(!overlap_agrees(*self, *other, *direction));
                            }
                            return false;
                        }
                        col += 1;
                    }
                    row += 1;
                }
                true
            },
        }
    }

    /// The pattern mirrored left to right: each row reversed.
    pub fn rowwise_mirror(&self) -> (r: Pattern)
        requires
            self.wf(),
        ensures
            r.wf(),
            r.width == self.width,
            r.height == self.height,
            r.samples@ == mirrored(self.samples@, self.width as int, self.height as int),
    {
        let w = self.width;
        let h = self.height;
        let mut res_vec: Vec<u32> = Vec::with_capacity(self.samples.len());
        let mut y: u32 = 0;
        while y < h
            invariant
                self.wf(),
                w == self.width,
                h == self.height,
                y <= h,
                res_vec@.len() == (y as int) * (w as int),
                forall|xx: int, yy: int|
                    0 <= xx < w && 0 <= yy < y ==> #[trigger] sample_at(res_vec@, w as int, xx, yy)
                        == sample_at(self.samples@, w as int, w - 1 - xx, yy),
            decreases h - y,
        {
            let mut x: u32 = w;
            while x > 0
                invariant
                    self.wf(),
                    w == self.width,
                    h == self.height,
                    y < h,
                    x <= w,
                    res_vec@.len() == (y as int) * (w as int) + (w - x),
                    forall|xx: int, yy: int|
                        (0 <= xx < w && 0 <= yy < y) || (yy == y && 0 <= xx < w - x)
                            ==> #[trigger] sample_at(res_vec@, w as int, xx, yy) == sample_at(
                            self.samples@,
                            w as int,
                            w - 1 - xx,
                            yy,
                        ),
                decreases x,
            {
                x -= 1;
                let sample = self.sample(x, y);
                let ghost before = res_vec@;
                res_vec.push(sample);
                proof {
                    assert forall|xx: int, yy: int|
                        (0 <= xx < w && 0 <= yy < y) || (yy == y && 0 <= xx < w - x)
                        implies #[trigger] sample_at(res_vec@, w as int, xx, yy) == sample_at(
                        self.samples@,
                        w as int,
                        w - 1 - xx,
                        yy,
                    ) by {
                        lemma_cell_in_grid(w as int, y as int + 1, xx, yy);
                        vstd::arithmetic::mul::lemma_mul_is_commutative(w as int, y as int);
                        if yy < y {
                            lemma_cell_in_grid(w as int, y as int, xx, yy);
                            assert(sample_at(before, w as int, xx, yy) == sample_at(
                                self.samples@,
                                w as int,
                                w - 1 - xx,
                                yy,
                            ));
                            assert(yy * (w as int) + xx < before.len());
                            assert(res_vec@[yy * (w as int) + xx] == before[yy * (w as int) + xx]);
                        } else if xx == w - 1 - x {
                            assert(yy * (w as int) + xx == before.len());
                            assert(res_vec@[before.len() as int] == sample);
                        } else {
                            assert(yy * (w as int) + xx < before.len());
                            assert(res_vec@[yy * (w as int) + xx] == before[yy * (w as int) + xx]);
                            assert(sample_at(before, w as int, xx, yy) == sample_at(
                                self.samples@,
                                w as int,
                                w - 1 - xx,
                                yy,
                            ));
                        }
                    }
                }
            }
            proof {
                assert((y as int) * (w as int) + w == (y as int + 1) * (w as int)) by (nonlinear_arith);
            }
            y += 1;
        }
        let r = Pattern { width: w, height: h, samples: res_vec };
        proof {
            let m = mirrored(self.samples@, w as int, h as int);
            vstd::arithmetic::mul::lemma_mul_is_commutative(w as int, h as int);
            if w > 0 {
                assert forall|x: int, yy: int|
                    0 <= x < w && 0 <= yy < h implies #[trigger] sample_at(r.samples@, w as int, x, yy)
                    == sample_at(m, w as int, x, yy) by {
                    lemma_cell_in_grid(w as int, h as int, x, yy);
                    lemma_cell_index(w as int, x, yy);
                }
                lemma_grid_ext(r.samples@, m, w as int, h as int);
            } else {
                assert(r.samples@ =~= m);
            }
        }
        r
    }

    /// The pattern rotated by `turns` right angles into a grid of its own width and height:
    /// the placement that a rotation by `90 * turns` degrees, rounded to whole cells,
    /// gives. Quarter turns need the pattern to be no wider than tall.
    pub fn rotate_quarter_turns(&self, turns: u32) -> (r: Pattern)
        requires
            self.wf(),
            turns < 4,
            rotation_fits(self.width as int, self.height as int, turns as int),
        ensures
            r.wf(),
            r.width == self.width,
            r.height == self.height,
            r.samples@ == rotated(self.samples@, self.width as int, self.height as int, turns as int),
    {
        let w = self.width;
        let h = self.height;
        let len = self.samples.len();
        let mut rotated_samples: Vec<u32> = vec![0u32; len];
        let ghost s = self.samples@;
        let ghost wi = w as int;
        let ghost hi = h as int;
        let ghost t = turns as int;
        let mut y: u32 = 0;
        while y < h
            invariant
                self.wf(),
                s == self.samples@,
                w == self.width,
                h == self.height,
                wi == w,
                hi == h,
                t == turns,
                turns < 4,
                rotation_fits(wi, hi, t),
                len == self.samples@.len(),
                rotated_samples@.len() == len,
                y <= h,
                forall|k: int|
                    0 <= k < len ==> #[trigger] rotated_samples@[k] == placed_value(
                        s,
                        wi,
                        hi,
                        t,
                        y * wi,
                        k,
                    ),
            decreases h - y,
        {
            let mut x: u32 = 0;
            while x < w
                invariant
                    self.wf(),
                    s == self.samples@,
                    w == self.width,
                    h == self.height,
                    wi == w,
                    hi == h,
                    t == turns,
                    turns < 4,
                    rotation_fits(wi, hi, t),
                    len == self.samples@.len(),
                    rotated_samples@.len() == len,
                    y < h,
                    x <= w,
                    forall|k: int|
                        0 <= k < len ==> #[trigger] rotated_samples@[k] == placed_value(
                            s,
                            wi,
                            hi,
                            t,
                            y * wi + x,
                            k,
                        ),
                decreases w - x,
            {
                proof {
                    lemma_turned_position_in_grid(wi, hi, t, x as int, y as int);
                    lemma_cell_in_grid(wi, hi, x as int, y as int);
                    lemma_cell_index(wi, x as int, y as int);
                }
                let pos: u32 = if turns == 0 {
                    x + y * w
                } else if turns == 1 {
                    (h - 1 - y) + x * w
                } else if turns == 2 {
                    (w - 1 - x) + (h - 1 - y) * w
                } else {
                    y + (w - 1 - x) * w
                };
                let sample = self.sample(x, y);
                rotated_samples.set(pos as usize, sample);
                proof {
                    let n = y * wi + x;
                    assert(sample == s[n]);
                    assert forall|k: int| 0 <= k < len implies #[trigger] rotated_samples@[k]
                        == placed_value(s, wi, hi, t, n + 1, k) by {
                        assert(placed_value(s, wi, hi, t, n + 1, k) == if turned_position(
                            wi,
                            hi,
                            t,
                            n % wi,
                            n / wi,
                        ) == k {
                            s[n]
                        } else {
                            placed_value(s, wi, hi, t, n, k)
                        });
                    }
                }
                x += 1;
            }
            proof {
                assert(y * wi + wi == (y + 1) * wi) by (nonlinear_arith);
            }
            y += 1;
        }
        let r = Pattern { samples: rotated_samples, height: h, width: w };
        proof {
            assert(r.samples@ =~= rotated(s, wi, hi, t));
        }
        r
    }
}

/// Every cell of a grid goes to a position inside the grid under a rotation that fits.
pub proof fn lemma_turned_position_in_grid(width: int, height: int, turns: int, x: int, y: int)
    requires
        0 <= x < width,
        0 <= y < height,
        0 <= turns < 4,
        rotation_fits(width, height, turns),
    ensures
        0 <= turned_position(width, height, turns, x, y) < width * height,
{
    lemma_cell_in_grid(width, height, x, y);
    if turns == 1 || turns == 3 {
        let a = if turns == 1 { height - 1 - y } else { y };
        let b = if turns == 1 { x } else { width - 1 - x };
        assert(0 <= a + b * width < width * height) by (nonlinear_arith)
            requires
                0 <= a < height,
                0 <= b < width,
                width <= height,
        ;
    } else if turns == 2 {
        lemma_cell_in_grid(width, height, width - 1 - x, height - 1 - y);
    }
}


/// The cell of an `n` by `n` grid whose sample a rotation by `turns` right angles moves to
/// column `x`, row `y`.
pub open spec fn rotation_source(n: int, turns: int, x: int, y: int) -> (int, int) {
    if turns == 0 {
        (x, y)
    } else if turns == 1 {
        (y, n - 1 - x)
    } else if turns == 2 {
        (n - 1 - x, n - 1 - y)
    } else {
        (n - 1 - y, x)
    }
}

/// In a square grid a rotation moves the source cell of each position to that position,
/// and no other cell.
proof fn lemma_turned_position_square(n: int, turns: int, x: int, y: int, cx: int, cy: int)
    requires
        n > 0,
        0 <= turns < 4,
        0 <= x < n,
        0 <= y < n,
        0 <= cx < n,
        0 <= cy < n,
    ensures
        turned_position(n, n, turns, cx, cy) == x + y * n <==> (cx, cy) == rotation_source(n, turns, x, y),
{
    let (sx, sy) = rotation_source(n, turns, x, y);
    let (a, b) = if turns == 0 {
        (cx, cy)
    } else if turns == 1 {
        (n - 1 - cy, cx)
    } else if turns == 2 {
        (n - 1 - cx, n - 1 - cy)
    } else {
        (cy, n - 1 - cx)
    };
    assert(turned_position(n, n, turns, cx, cy) == a + b * n) by (nonlinear_arith)
        requires
            turns == 0 ==> a == cx && b == cy,
            turns == 1 ==> a == n - 1 - cy && b == cx,
            turns == 2 ==> a == n - 1 - cx && b == n - 1 - cy,
            turns == 3 ==> a == cy && b == n - 1 - cx,
            0 <= turns < 4,
    ;
    lemma_cell_index(n, a, b);
    lemma_cell_index(n, x, y);
    vstd::arithmetic::mul::lemma_mul_is_commutative(b, n);
    vstd::arithmetic::mul::lemma_mul_is_commutative(y, n);
}

/// What a rotation leaves at a position of a square grid after the first `m` samples are
/// placed: the sample of the position's source cell once it is among them, zero before.
proof fn lemma_placed_value_square(samples: Seq<u32>, n: int, turns: int, m: int, x: int, y: int)
    requires
        n > 0,
        0 <= turns < 4,
        0 <= m <= n * n,
        0 <= x < n,
        0 <= y < n,
    ensures
        ({
            let (sx, sy) = rotation_source(n, turns, x, y);
            placed_value(samples, n, n, turns, m, x + y * n) == if sy * n + sx < m {
                samples[sy * n + sx]
            } else {
                0u32
            }
        }),
    decreases m,
{
    let (sx, sy) = rotation_source(n, turns, x, y);
    if m > 0 {
        lemma_placed_value_square(samples, n, turns, m - 1, x, y);
        let cx = (m - 1) % n;
        let cy = (m - 1) / n;
        lemma_index_cell(n, n, m - 1);
        lemma_turned_position_square(n, turns, x, y, cx, cy);
        lemma_cell_in_grid(n, n, sx, sy);
        lemma_cell_index(n, sx, sy);
        if sy * n + sx == m - 1 {
            assert(cx == sx && cy == sy);
        }
        if cx == sx && cy == sy {
            assert(sy * n + sx == m - 1);
        }
    }
}

/// The sample that rotating a square grid leaves at column `x`, row `y`: that of the
/// position's source cell.
pub proof fn lemma_rotated_square(samples: Seq<u32>, n: int, turns: int, x: int, y: int)
    requires
        is_grid(samples, n, n),
        n > 0,
        0 <= turns < 4,
        0 <= x < n,
        0 <= y < n,
    ensures
        ({
            let (sx, sy) = rotation_source(n, turns, x, y);
            sample_at(rotated(samples, n, n, turns), n, x, y) == sample_at(samples, n, sx, sy)
        }),
{
    let (sx, sy) = rotation_source(n, turns, x, y);
    lemma_placed_value_square(samples, n, turns, n * n, x, y);
    lemma_cell_in_grid(n, n, x, y);
    lemma_cell_in_grid(n, n, sx, sy);
    vstd::arithmetic::mul::lemma_mul_is_commutative(y, n);
}

/// Mirroring a square grid and then rotating it by `turns` right angles is rotating it
/// the other way round by as many right angles and then mirroring it.
pub proof fn lemma_rotate_mirrored(samples: Seq<u32>, n: int, turns: int)
    requires
        is_grid(samples, n, n),
        n > 0,
        0 <= turns < 4,
    ensures
        rotated(mirrored(samples, n, n), n, n, turns) == mirrored(rotated(samples, n, n, (4 - turns) % 4), n, n),
{
    let m = mirrored(samples, n, n);
    let back = (4 - turns) % 4;
    let r = rotated(samples, n, n, back);
    let lhs = rotated(m, n, n, turns);
    let rhs = mirrored(r, n, n);
    assert forall|x: int, y: int| 0 <= x < n && 0 <= y < n implies #[trigger] sample_at(lhs, n, x, y) == sample_at(
        rhs,
        n,
        x,
        y,
    ) by {
        let (sx, sy) = rotation_source(n, turns, x, y);
        lemma_rotated_square(m, n, turns, x, y);
        lemma_cell_in_grid(n, n, sx, sy);
        lemma_cell_index(n, sx, sy);
        lemma_cell_in_grid(n, n, x, y);
        lemma_cell_index(n, x, y);
        lemma_rotated_square(samples, n, back, n - 1 - x, y);
        assert(sample_at(m, n, sx, sy) == sample_at(samples, n, n - 1 - sx, sy));
        assert(sample_at(rhs, n, x, y) == sample_at(r, n, n - 1 - x, y));
    }
    lemma_grid_ext(lhs, rhs, n, n);
}

/// Rotating a square grid by `a` right angles and then by `b` is rotating it by `a + b`
/// right angles; in particular four quarter turns give the grid back.
pub proof fn lemma_quarter_turns_compose(samples: Seq<u32>, n: int, a: int, b: int)
    requires
        is_grid(samples, n, n),
        n > 0,
        0 <= a < 4,
        0 <= b < 4,
    ensures
        rotated(rotated(samples, n, n, a), n, n, b) == rotated(samples, n, n, (a + b) % 4),
        rotated(samples, n, n, 0) == samples,
{
    let r1 = rotated(samples, n, n, a);
    let r2 = rotated(r1, n, n, b);
    let r3 = rotated(samples, n, n, (a + b) % 4);
    assert forall|x: int, y: int| 0 <= x < n && 0 <= y < n implies #[trigger] sample_at(r2, n, x, y) == sample_at(
        r3,
        n,
        x,
        y,
    ) by {
        let (bx, by) = rotation_source(n, b, x, y);
        lemma_rotated_square(r1, n, b, x, y);
        lemma_rotated_square(samples, n, a, bx, by);
        lemma_rotated_square(samples, n, (a + b) % 4, x, y);
    }
    lemma_grid_ext(r2, r3, n, n);
    assert forall|x: int, y: int| 0 <= x < n && 0 <= y < n implies #[trigger] sample_at(
        rotated(samples, n, n, 0),
        n,
        x,
        y,
    ) == sample_at(samples, n, x, y) by {
        lemma_rotated_square(samples, n, 0, x, y);
    }
    lemma_grid_ext(rotated(samples, n, n, 0), samples, n, n);
}

} // verus!
