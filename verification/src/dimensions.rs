use vstd::prelude::*;
use vstd::arithmetic::div_mod::{
    lemma_div_plus_one, lemma_fundamental_div_mod_converse, lemma_mod_breakdown,
    lemma_mod_multiples_vanish, lemma_small_mod,
};
use vstd::arithmetic::mul::{
    lemma_mul_is_associative, lemma_mul_inequality, lemma_mul_strictly_positive,
    lemma_mul_is_commutative, lemma_mul_is_distributive_add_other_way,
};

verus! {

/// The number of cells spanned by the first `n` axes of an extent; axis 0 varies fastest,
/// so this is also the step in flat index that one step along axis `n` makes.
pub open spec fn stride(lengths: Seq<u32>, n: int) -> nat
    decreases n,
{
    if n <= 0 {
        1
    } else {
        stride(lengths, n - 1) * (lengths[n - 1] as nat)
    }
}

/// The number of cells of an extent: the product of its axis lengths.
pub open spec fn cell_count(lengths: Seq<u32>) -> nat {
    stride(lengths, lengths.len() as int)
}

/// The product of the axis lengths from axis `a` up to, not including, axis `n`.
pub open spec fn span(lengths: Seq<u32>, a: int, n: int) -> nat
    decreases n - a,
{
    if n <= a {
        1
    } else {
        span(lengths, a, n - 1) * (lengths[n - 1] as nat)
    }
}

/// Every axis of the extent is at least one long.
pub open spec fn positive_axes(lengths: Seq<u32>) -> bool {
    forall|a: int| 0 <= a < lengths.len() ==> lengths[a] > 0
}

/// `coordinate` names a cell of the extent: it has one component per axis, each less
/// than the length of its axis.
pub open spec fn in_extent(lengths: Seq<u32>, coordinate: Seq<u32>) -> bool {
    &&& coordinate.len() == lengths.len()
    &&& forall|a: int| 0 <= a < lengths.len() ==> coordinate[a] < lengths[a]
}

/// The coordinate of the cell at flat `index`: along axis `a` it is the index divided by
/// the stride of that axis, taken modulo the axis length.
pub open spec fn coordinate_of(lengths: Seq<u32>, index: int) -> Seq<u32> {
    Seq::new(lengths.len(), |a: int| ((index / stride(lengths, a) as int) % (lengths[a] as int)) as u32)
}

/// The flat index of a coordinate, counting only its first `n` axes: the sum of each
/// component times the stride of its axis.
pub open spec fn flat_index_upto(lengths: Seq<u32>, coordinate: Seq<u32>, n: int) -> int
    decreases n,
{
    if n <= 0 {
        0
    } else {
        flat_index_upto(lengths, coordinate, n - 1) + coordinate[n - 1] * stride(lengths, n - 1)
    }
}

/// The flat index of a coordinate in the extent.
pub open spec fn flat_index(lengths: Seq<u32>, coordinate: Seq<u32>) -> int {
    flat_index_upto(lengths, coordinate, lengths.len() as int)
}

pub proof fn lemma_stride_positive(lengths: Seq<u32>, n: int)
    requires
        positive_axes(lengths),
        n <= lengths.len(),
    ensures
        stride(lengths, n) > 0,
    decreases n,
{
    if n > 0 {
        lemma_stride_positive(lengths, n - 1);
        lemma_mul_strictly_positive(stride(lengths, n - 1) as int, lengths[n - 1] as int);
    }
}

pub proof fn lemma_stride_monotone(lengths: Seq<u32>, i: int, j: int)
    requires
        positive_axes(lengths),
        0 <= i <= j <= lengths.len(),
    ensures
        stride(lengths, i) <= stride(lengths, j),
    decreases j - i,
{
    if i < j {
        lemma_stride_monotone(lengths, i, j - 1);
        lemma_stride_positive(lengths, j - 1);
        lemma_mul_inequality(1, lengths[j - 1] as int, stride(lengths, j - 1) as int);
        lemma_mul_is_commutative(stride(lengths, j - 1) as int, lengths[j - 1] as int);
    }
}

/// The stride of axis `n` is the stride of an earlier axis `i` times the span between them.
pub proof fn lemma_stride_split(lengths: Seq<u32>, i: int, n: int)
    requires
        0 <= i <= n,
    ensures
        stride(lengths, n) == stride(lengths, i) * span(lengths, i, n),
    decreases n - i,
{
    if i < n {
        lemma_stride_split(lengths, i, n - 1);
        let a = stride(lengths, i) as int;
        let b = span(lengths, i, n - 1) as int;
        let c = lengths[n - 1] as int;
        assert(stride(lengths, n) == stride(lengths, n - 1) * (lengths[n - 1] as nat));
        assert(span(lengths, i, n) == span(lengths, i, n - 1) * (lengths[n - 1] as nat));
        lemma_mul_is_associative(a, b, c);
        assert(stride(lengths, n - 1) == a * b);
        assert(stride(lengths, n) == (a * b) * c);
        assert(span(lengths, i, n) == b * c);
    } else {
        assert(span(lengths, i, n) == 1);
    }
}

/// Summing the components of the coordinate of `index` over the first `n` axes gives
/// the index modulo the stride of axis `n`.
proof fn lemma_flat_of_coordinate(lengths: Seq<u32>, index: int, n: int)
    requires
        positive_axes(lengths),
        0 <= index,
        0 <= n <= lengths.len(),
    ensures
        flat_index_upto(lengths, coordinate_of(lengths, index), n) == index % (stride(lengths, n) as int),
    decreases n,
{
    let c = coordinate_of(lengths, index);
    if n == 0 {
        lemma_small_mod(0, 1);
        assert(index % 1 == 0);
    } else {
        lemma_flat_of_coordinate(lengths, index, n - 1);
        let s = stride(lengths, n - 1) as int;
        let l = lengths[n - 1] as int;
        lemma_stride_positive(lengths, n - 1);
        lemma_mod_breakdown(index, s, l);
        assert(c[n - 1] == (index / s) % l);
        lemma_mul_is_commutative(s, (index / s) % l);
    }
}

/// The flat index over the first `n` axes of a coordinate inside the extent is below the
/// stride of axis `n`.
proof fn lemma_flat_bound(lengths: Seq<u32>, coordinate: Seq<u32>, n: int)
    requires
        positive_axes(lengths),
        in_extent(lengths, coordinate),
        0 <= n <= lengths.len(),
    ensures
        0 <= flat_index_upto(lengths, coordinate, n) < stride(lengths, n),
    decreases n,
{
    if n > 0 {
        lemma_flat_bound(lengths, coordinate, n - 1);
        let s = stride(lengths, n - 1) as int;
        let c = coordinate[n - 1] as int;
        let l = lengths[n - 1] as int;
        lemma_mul_inequality(c, l - 1, s);
        lemma_mul_is_distributive_add_other_way(s, l - 1, 1);
        lemma_mul_is_commutative(s, l);
        assert(0 <= c * s) by (nonlinear_arith)
            requires
                0 <= c,
                0 <= s,
        ;
    }
}

/// Reading back component `a` from the flat index over the first `n` axes gives the
/// component back, for every axis `a` below `n`.
proof fn lemma_coordinate_of_flat(lengths: Seq<u32>, coordinate: Seq<u32>, n: int, a: int)
    requires
        positive_axes(lengths),
        in_extent(lengths, coordinate),
        0 <= a < n <= lengths.len(),
    ensures
        (flat_index_upto(lengths, coordinate, n) / (stride(lengths, a) as int)) % (lengths[a] as int)
            == coordinate[a],
    decreases n,
{
    let y = flat_index_upto(lengths, coordinate, n - 1);
    let sa = stride(lengths, a) as int;
    let la = lengths[a] as int;
    let sn = stride(lengths, n - 1) as int;
    let c = coordinate[n - 1] as int;
    lemma_flat_bound(lengths, coordinate, n - 1);
    lemma_stride_positive(lengths, a);
    lemma_stride_positive(lengths, n - 1);
    if a == n - 1 {
        // y < s_a, so (c * s_a + y) / s_a == c, and c < l_a
        lemma_fundamental_div_mod_converse(c * sa + y, sa, c, y);
        assert(c * sa == coordinate[n - 1] * stride(lengths, n - 1));
        lemma_small_mod(c as nat, la as nat);
    } else {
        lemma_coordinate_of_flat(lengths, coordinate, n - 1, a);
        // s_{n-1} = s_a * l_a * k, so adding c * s_{n-1} shifts y / s_a by a multiple of l_a
        lemma_stride_split(lengths, a + 1, n - 1);
        let k = span(lengths, a + 1, n - 1) as int;
        assert(stride(lengths, a + 1) as int == sa * la);
        assert(sn == (sa * la) * k);
        let m = c * la * k;
        assert(c * sn == sa * m) by (nonlinear_arith)
            requires
                sn == (sa * la) * k,
                m == c * la * k,
        ;
        assert(c * sn == coordinate[n - 1] * stride(lengths, n - 1));
        vstd::arithmetic::div_mod::lemma_fundamental_div_mod(y, sa);
        vstd::arithmetic::div_mod::lemma_mod_pos_bound(y, sa);
        assert(sa * m + y == (m + y / sa) * sa + y % sa) by (nonlinear_arith)
            requires
                y == sa * (y / sa) + y % sa,
        ;
        lemma_fundamental_div_mod_converse(sa * m + y, sa, m + y / sa, y % sa);
        assert((sa * m + y) / sa == m + y / sa);
        assert(m == la * (c * k)) by (nonlinear_arith)
            requires
                m == c * la * k,
        ;
        assert(y / sa >= 0) by {
            vstd::arithmetic::div_mod::lemma_div_pos_is_pos(y, sa);
        }
        lemma_mod_multiples_vanish(c * k, y / sa, la);
    }
}

/// An N dimensional extent: the length of each axis, every one at least one.
#[derive(Copy, Clone, Debug, PartialEq, Eq)]
pub struct Dimensions<const N: usize>([u32; N]);

impl<const N: usize> View for Dimensions<N> {
    type V = Seq<u32>;

    closed spec fn view(&self) -> Seq<u32> {
        self.0@
    }
}

impl<const N: usize> Dimensions<N> {
    /// Every axis of the extent has at least one cell.
    #[verifier::type_invariant]
    pub closed spec fn axes_are_positive(self) -> bool {
        positive_axes(self.0@)
    }

    /// What the invariant of an extent says of its lengths; `use_type_invariant` on an
    /// extent gives the `requires`.
    pub proof fn lemma_positive_axes(d: Dimensions<N>)
        requires
            d.axes_are_positive(),
        ensures
            positive_axes(d@),
    {
    }

    /// The extent is always described by one length per axis.
    pub broadcast proof fn lemma_view_len(d: Dimensions<N>)
        ensures
            #[trigger] d@.len() == N,
    {
    }

    /// An extent with the given axis lengths; `None` when any of them is zero.
    pub fn new(lengths: [u32; N]) -> (r: Option<Self>)
        ensures
            r is Some <==> positive_axes(lengths@),
            r matches Some(d) ==> d@ == lengths@,
    {
        let mut axis: usize = 0;
        while axis < N
            invariant
                0 <= axis <= N,
                lengths@.len() == N,
                forall|a: int| 0 <= a < axis ==> lengths@[a] > 0,
            decreases N - axis,
        {
            if lengths[axis] == 0 {
                return None;
            }
            axis += 1;
        }
        Some(Dimensions(lengths))
    }

    /// The number of cells of the extent: the product of the axis lengths.
    pub fn total(&self) -> (r: usize)
        requires
            cell_count(self@) <= usize::MAX,
        ensures
            r == cell_count(self@),
            r > 0,
            self@.len() == N,
            positive_axes(self@),
    {
        proof {
            use_type_invariant(self);
        }
        let mut product: usize = 1;
        let mut axis: usize = 0;
        while axis < N
            invariant
                0 <= axis <= N,
                self@.len() == N,
                positive_axes(self@),
                product == stride(self@, axis as int),
                cell_count(self@) <= usize::MAX,
            decreases N - axis,
        {
            proof {
                lemma_stride_monotone(self@, axis + 1, N as int);
            }
            product = product * (self.0[axis] as usize);
            axis += 1;
        }
        proof {
            lemma_stride_positive(self@, N as int);
        }
        product
    }

    /// The length of axis `index`.
    pub fn get(&self, index: usize) -> (r: u32)
        requires
            index < N,
        ensures
            r == self@[index as int],
            r > 0,
            self@.len() == N,
            positive_axes(self@),
    {
        proof {
            use_type_invariant(self);
        }
        self.0[index]
    }

    /// The extent of the grid of positions at which a `window_dimensions` sized window fits inside
    /// this space, i.e. one more than the difference along each axis.
    ///
    /// Returns `None` if `pattern` is longer than this space on any axis, which is the
    /// one way a caller can ask for a window that does not exist.
    pub fn windows(&self, window_dimensions: Dimensions<N>) -> (r: Option<Self>)
        ensures
            r is Some <==> (forall|a: int| 0 <= a < N ==> window_dimensions@[a] <= self@[a]),
            r matches Some(w) ==> (forall|a: int|
                0 <= a < N ==> w@[a] == self@[a] - window_dimensions@[a] + 1),
            self@.len() == N,
            positive_axes(self@),
    {
        proof {
            use_type_invariant(self);
            use_type_invariant(&window_dimensions);
        }
        let mut spans = self.0;
        let mut axis: usize = 0;
        while axis < N
            invariant
                0 <= axis <= N,
                spans@.len() == N,
                self@.len() == N,
                window_dimensions@.len() == N,
                positive_axes(self@),
                positive_axes(window_dimensions@),
                forall|a: int| 0 <= a < axis ==> window_dimensions@[a] <= self@[a],
                forall|a: int| 0 <= a < axis ==> spans@[a] == self@[a] - window_dimensions@[a] + 1,
            decreases N - axis,
        {
            let length = self.0[axis];
            let window = window_dimensions.0[axis];
            match length.checked_sub(window) {
                Some(difference) => {
                    spans[axis] = difference + 1;
                },
                None => {
                    return None;
                },
            }
            axis += 1;
        }
        Some(Dimensions(spans))
    }

    /// Converts an index into a coordinate in the N dimensional space.
    ///
    /// The index must be a cell of this space, i.e. `index < self.total()`.
    pub fn coord_of(&self, index: usize) -> (r: [u32; N])
        requires
            cell_count(self@) <= usize::MAX,
            index < cell_count(self@),
        ensures
            r@ == coordinate_of(self@, index as int),
            in_extent(self@, r@),
    {
        let mut total = self.total();
        let mut coord = self.0;
        let mut k = index;
        let mut axis: usize = N;
        proof {
            lemma_small_mod(index as nat, total as nat);
        }
        while axis > 0
            invariant
                0 <= axis <= N,
                coord@.len() == N,
                self@.len() == N,
                positive_axes(self@),
                total == stride(self@, axis as int),
                k == (index as int) % (total as int),
                index < cell_count(self@),
                forall|a: int|
                    axis <= a < N ==> coord@[a] == coordinate_of(self@, index as int)[a],
            decreases axis,
        {
            let length = self.0[axis - 1];
            proof {
                lemma_stride_positive(self@, axis - 1);
                lemma_mul_is_commutative(stride(self@, axis - 1) as int, length as int);
                lemma_fundamental_div_mod_converse(
                    total as int,
                    length as int,
                    stride(self@, axis - 1) as int,
                    0,
                );
                lemma_mod_breakdown(index as int, stride(self@, axis - 1) as int, length as int);
            }
            total = total / (length as usize);
            let j = k / total;
            proof {
                let s = total as int;
                let q = (index as int / s) % (length as int);
                let r = (index as int) % s;
                assert(k == s * q + r);
                assert(0 <= r < s);
                lemma_mul_is_commutative(s, q);
                lemma_fundamental_div_mod_converse(k as int, s, q, r);
                assert(j == q);
                vstd::arithmetic::div_mod::lemma_mod_pos_bound(index as int / s, length as int);
            }
            k = k - j * total;
            coord[axis - 1] = j as u32;
            axis = axis - 1;
        }
        proof {
            assert(coord@ =~= coordinate_of(self@, index as int));
            assert forall|a: int| 0 <= a < N implies coord@[a] < self@[a] by {
                lemma_stride_positive(self@, a);
                vstd::arithmetic::div_mod::lemma_mod_pos_bound(
                    index as int / stride(self@, a) as int,
                    self@[a] as int,
                );
            }
        }
        coord
    }

    /// Converts an N dimensional coordinate into a flattened index.
    ///
    /// Every component of `coordinate` must lie inside this space, i.e. be less than the
    /// length of its axis.
    pub fn index_of(&self, coordinate: [u32; N]) -> (r: usize)
        requires
            cell_count(self@) <= usize::MAX,
            in_extent(self@, coordinate@),
        ensures
            r == flat_index(self@, coordinate@),
            r < cell_count(self@),
    {
        let mut total = self.total();
        let mut index: usize = 0;
        let mut axis: usize = N;
        proof {
            lemma_flat_bound(self@, coordinate@, N as int);
        }
        while axis > 0
            invariant
                0 <= axis <= N,
                self@.len() == N,
                positive_axes(self@),
                in_extent(self@, coordinate@),
                total == stride(self@, axis as int),
                index + flat_index_upto(self@, coordinate@, axis as int) == flat_index(
                    self@,
                    coordinate@,
                ),
                flat_index(self@, coordinate@) < cell_count(self@),
                cell_count(self@) <= usize::MAX,
            decreases axis,
        {
            let length = self.0[axis - 1];
            let value = coordinate[axis - 1];
            proof {
                lemma_stride_positive(self@, axis - 1);
                lemma_mul_is_commutative(stride(self@, axis - 1) as int, length as int);
                lemma_fundamental_div_mod_converse(
                    total as int,
                    length as int,
                    stride(self@, axis - 1) as int,
                    0,
                );
                lemma_flat_bound(self@, coordinate@, axis - 1);
            }
            total = total / (length as usize);
            proof {
                assert(0 <= (value as int) * (total as int)) by (nonlinear_arith)
                    requires
                        0 <= value,
                        0 <= total,
                ;
            }
            index = index + (value as usize) * total;
            axis = axis - 1;
        }
        index
    }
}

/// In two dimensions the flat index of `[x, y]` is `x + y * width`.
pub proof fn lemma_flat_index_2d(lengths: Seq<u32>, coordinate: Seq<u32>)
    requires
        lengths.len() == 2,
    ensures
        flat_index(lengths, coordinate) == coordinate[0] + coordinate[1] * lengths[0],
        cell_count(lengths) == lengths[0] * lengths[1],
{
    reveal_with_fuel(stride, 3);
    reveal_with_fuel(flat_index_upto, 3);
    assert(stride(lengths, 0) == 1);
    assert(stride(lengths, 1) == 1 * (lengths[0] as nat));
    assert(stride(lengths, 2) == stride(lengths, 1) * (lengths[1] as nat));
    assert(flat_index_upto(lengths, coordinate, 1) == coordinate[0] * 1);
    assert(flat_index_upto(lengths, coordinate, 2) == flat_index_upto(lengths, coordinate, 1)
        + coordinate[1] * stride(lengths, 1));
}

/// Reading the coordinate of a cell and flattening it again gives the cell's index back.
pub proof fn lemma_index_of_coord_of(lengths: Seq<u32>, index: int)
    requires
        positive_axes(lengths),
        0 <= index < cell_count(lengths),
    ensures
        in_extent(lengths, coordinate_of(lengths, index)),
        flat_index(lengths, coordinate_of(lengths, index)) == index,
{
    lemma_flat_of_coordinate(lengths, index, lengths.len() as int);
    lemma_small_mod(index as nat, cell_count(lengths));
    assert forall|a: int| 0 <= a < lengths.len() implies coordinate_of(lengths, index)[a]
        < lengths[a] by {
        lemma_stride_positive(lengths, a);
        vstd::arithmetic::div_mod::lemma_mod_pos_bound(
            index / stride(lengths, a) as int,
            lengths[a] as int,
        );
    }
}

/// Flattening a coordinate inside the extent and reading the coordinate of that index
/// gives the coordinate back.
pub proof fn lemma_coord_of_index_of(lengths: Seq<u32>, coordinate: Seq<u32>)
    requires
        positive_axes(lengths),
        in_extent(lengths, coordinate),
    ensures
        0 <= flat_index(lengths, coordinate) < cell_count(lengths),
        coordinate_of(lengths, flat_index(lengths, coordinate)) == coordinate,
{
    let n = lengths.len() as int;
    lemma_flat_bound(lengths, coordinate, n);
    assert forall|a: int| 0 <= a < n implies #[trigger] coordinate_of(
        lengths,
        flat_index(lengths, coordinate),
    )[a] == coordinate[a] by {
        lemma_coordinate_of_flat(lengths, coordinate, n, a);
    }
    assert(coordinate_of(lengths, flat_index(lengths, coordinate)) =~= coordinate);
}

} // verus!
