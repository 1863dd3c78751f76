//! The matrix product by lanes: several places of the inner axis are
//! multiplied and accumulated at once, and what is left over is taken one
//! place at a time.

use vstd::prelude::*;
use crate::array::{Array, ArrayView};
use crate::error::ArrayError;
use crate::layout::{lemma_offset_rank_two, offset_rank_two, DataOrder};
use crate::matrix::{
    cell, dot, dot_defined, is_product, lemma_cell_in_bounds, lemma_dot_step,
    lemma_writing_an_entry_keeps_the_others, multipliable, zeros,
};
use crate::scalar::{duplicate, lemma_integer_zero, Arithmetic, Scalar};
use vstd::arithmetic::div_mod::lemma_fundamental_div_mod_converse;
use vstd::slice::slice_subrange;
use vstd::std_specs::ops::{AddSpec, MulSpec};

verus! {

/// The sum of the lanes of a vector, started from zero and taken from the
/// first lane to the last.
pub open spec fn lane_sum<T: Arithmetic<T>>(lanes: Seq<T>) -> T
    decreases lanes.len(),
{
    if lanes.len() == 0 {
        T::ZERO
    } else {
        lane_sum(lanes.drop_last()).add_spec(lanes.last())
    }
}

/// Every sum that [`lane_sum`] takes can be computed.
pub open spec fn lane_sum_defined<T: Arithmetic<T>>(lanes: Seq<T>) -> bool
    decreases lanes.len(),
{
    lanes.len() == 0 || {
        &&& lane_sum_defined(lanes.drop_last())
        &&& lane_sum(lanes.drop_last()).add_req(lanes.last())
    }
}

/// Lane by lane, the product of `a` and `b` added to `c`.
pub open spec fn fused<T: Arithmetic<T>>(a: Seq<T>, b: Seq<T>, c: Seq<T>) -> Seq<T> {
    Seq::new(a.len(), |l: int| a[l].mul_spec(b[l]).add_spec(c[l]))
}

/// Every product and every sum of [`fused`] can be computed.
pub open spec fn fused_defined<T: Arithmetic<T>>(a: Seq<T>, b: Seq<T>, c: Seq<T>) -> bool {
    forall|l: int|
        0 <= l < a.len() ==> #[trigger] a[l].mul_req(b[l]) && a[l].mul_spec(b[l]).add_req(c[l])
}

/// A scalar that the hardware can take several at a time: a vector holds
/// `LANES` of them, can be loaded from a run of them, multiplied and added
/// lane by lane, and summed over its lanes.
///
/// Working by lanes regroups a sum, so the sum of such a scalar may be
/// regrouped: it is commutative and associative, and zero is neutral.
pub trait SimdSpecialized: Arithmetic<Self> + Sized {
    /// A vector of `LANES` scalars.
    type SimdVecType;

    /// The number of scalars in a vector.
    const LANES: usize;

    /// The scalars that a vector holds, from the first lane to the last.
    spec fn lanes(vector: Self::SimdVecType) -> Seq<Self>;

    /// A vector has `LANES` lanes.
    proof fn lemma_lane_count(vector: Self::SimdVecType)
        ensures
            Self::lanes(vector).len() == Self::LANES,
    ;

    /// A vector has at least one lane.
    proof fn lemma_at_least_one_lane()
        ensures
            Self::LANES > 0,
    ;

    /// The order of two summands does not matter.
    proof fn lemma_add_is_commutative(a: Self, b: Self)
        ensures
            a.add_spec(b) == b.add_spec(a),
    ;

    /// The grouping of three summands does not matter.
    proof fn lemma_add_is_associative(a: Self, b: Self, c: Self)
        ensures
            a.add_spec(b).add_spec(c) == a.add_spec(b.add_spec(c)),
    ;

    /// Adding to zero changes nothing.
    proof fn lemma_zero_is_neutral(a: Self)
        ensures
            Self::ZERO.add_spec(a) == a,
    ;

    /// The vector of the first `LANES` scalars of `data`.
    fn load(data: &[Self]) -> (vector: Self::SimdVecType)
        requires
            data@.len() >= Self::LANES,
        ensures
            Self::lanes(vector) == data@.take(Self::LANES as int),
    ;

    /// Lane by lane, the product of `a` and `b` added to `c`.
    fn multiply_add(a: Self::SimdVecType, b: Self::SimdVecType, c: Self::SimdVecType) -> (vector:
        Self::SimdVecType)
        requires
            fused_defined(Self::lanes(a), Self::lanes(b), Self::lanes(c)),
        ensures
            Self::lanes(vector) == fused(Self::lanes(a), Self::lanes(b), Self::lanes(c)),
    ;

    /// The sum of the lanes of a vector.
    fn sum(vector: Self::SimdVecType) -> (total: Self)
        requires
            lane_sum_defined(Self::lanes(vector)),
        ensures
            total == lane_sum(Self::lanes(vector)),
    ;

    /// The vector with `value` in every lane.
    fn splat(value: Self) -> (vector: Self::SimdVecType)
        ensures
            Self::lanes(vector) == Seq::new(Self::LANES as nat, |l: int| value),
    ;
}

impl SimdSpecialized for i32 {
    type SimdVecType = [i32; 4];

    const LANES: usize = 4;

    open spec fn lanes(vector: [i32; 4]) -> Seq<i32> {
        vector@
    }

    proof fn lemma_lane_count(vector: [i32; 4]) {
    }

    proof fn lemma_at_least_one_lane() {
    }

    proof fn lemma_add_is_commutative(a: i32, b: i32) {
    }

    proof fn lemma_add_is_associative(a: i32, b: i32, c: i32) {
        assert(((a + b) as i32 + c) as i32 == (a + (b + c) as i32) as i32) by (bit_vector);
    }

    proof fn lemma_zero_is_neutral(a: i32) {
        lemma_integer_zero();
    }

    fn load(data: &[i32]) -> (vector: [i32; 4]) {
        let vector: [i32; 4] = [data[0], data[1], data[2], data[3]];
        proof {
            assert(vector@ =~= data@.take(4));
        }
        vector
    }

    fn multiply_add(a: [i32; 4], b: [i32; 4], c: [i32; 4]) -> (vector: [i32; 4]) {
        proof {
            assert(a@[0].mul_req(b@[0]) && a@[1].mul_req(b@[1]) && a@[2].mul_req(b@[2]) && a@[3].mul_req(
                b@[3],
            ));
        }
        let vector: [i32; 4] = [
            a[0] * b[0] + c[0],
            a[1] * b[1] + c[1],
            a[2] * b[2] + c[2],
            a[3] * b[3] + c[3],
        ];
        proof {
            assert(vector@ =~= fused(a@, b@, c@));
        }
        vector
    }

    fn sum(vector: [i32; 4]) -> (total: i32) {
        proof {
            lemma_integer_zero();
            reveal_with_fuel(lane_sum, 5);
            reveal_with_fuel(lane_sum_defined, 5);
            let s = vector@;
            assert(s.drop_last().drop_last().drop_last().drop_last() =~= Seq::<i32>::empty());
            assert(s.drop_last().last() == s[2]);
            assert(s.drop_last().drop_last().last() == s[1]);
            assert(s.drop_last().drop_last().drop_last().last() == s[0]);
        }
        let zero: i32 = 0;
        zero + vector[0] + vector[1] + vector[2] + vector[3]
    }

    fn splat(value: i32) -> (vector: [i32; 4]) {
        let vector: [i32; 4] = [value, value, value, value];
        proof {
            assert(vector@ =~= Seq::new(4, |l: int| value));
        }
        vector
    }
}

/// A vector of `i32` has four lanes.
pub proof fn lemma_i32_lane_width()
    ensures
        <i32 as SimdSpecialized>::LANES == 4,
{
}

/// The vector after `chunks` chunks of `width` places each of `x` and `y`
/// have been multiplied and added into it, lane by lane, starting from zero
/// in every lane.
pub open spec fn accumulated<T: Arithmetic<T>>(x: Seq<T>, y: Seq<T>, width: int, chunks: nat) -> Seq<
    T,
>
    decreases chunks,
{
    if chunks == 0 {
        Seq::new(width as nat, |l: int| T::ZERO)
    } else {
        let from = (chunks - 1) * width;
        fused(
            x.subrange(from, from + width),
            y.subrange(from, from + width),
            accumulated(x, y, width, (chunks - 1) as nat),
        )
    }
}

/// Every product and every sum that [`accumulated`] takes can be computed.
pub open spec fn accumulated_defined<T: Arithmetic<T>>(
    x: Seq<T>,
    y: Seq<T>,
    width: int,
    chunks: nat,
) -> bool
    decreases chunks,
{
    chunks == 0 || {
        let from = (chunks - 1) * width;
        &&& accumulated_defined(x, y, width, (chunks - 1) as nat)
        &&& fused_defined(
            x.subrange(from, from + width),
            y.subrange(from, from + width),
            accumulated(x, y, width, (chunks - 1) as nat),
        )
    }
}

/// The dot product as the kernel by lanes takes it: as many full chunks of
/// `width` places as there are go through the lanes, whose sum is then added
/// to the plain dot product of the places left over.
pub open spec fn vector_dot<T: Arithmetic<T>>(x: Seq<T>, y: Seq<T>, width: int) -> T {
    let chunks = (x.len() as int) / width;
    let full = chunks * width;
    lane_sum(accumulated(x, y, width, chunks as nat)).add_spec(dot(x.skip(full), y.skip(full)))
}

/// Every product and every sum that [`vector_dot`] takes can be computed.
pub open spec fn vector_dot_defined<T: Arithmetic<T>>(x: Seq<T>, y: Seq<T>, width: int) -> bool {
    let chunks = (x.len() as int) / width;
    let full = chunks * width;
    &&& accumulated_defined(x, y, width, chunks as nat)
    &&& lane_sum_defined(accumulated(x, y, width, chunks as nat))
    &&& dot_defined(x.skip(full), y.skip(full))
    &&& lane_sum(accumulated(x, y, width, chunks as nat)).add_req(
        dot(x.skip(full), y.skip(full)),
    )
}

/// Every entry of the product of `a` and `b` can be computed by
/// [`vector_dot`].
pub open spec fn vector_product_defined<T: Arithmetic<T>>(
    a: ArrayView<T>,
    b: ArrayView<T>,
    width: int,
) -> bool {
    forall|i: int, j: int|
        0 <= i < a.shape[0] && 0 <= j < b.shape[1] ==> vector_dot_defined(
            #[trigger] a.row(i),
            #[trigger] b.column(j),
            width,
        )
}

/// Adding zero changes nothing.
pub proof fn lemma_zero_is_neutral_on_the_right<T: SimdSpecialized>(a: T)
    ensures
        a.add_spec(T::ZERO) == a,
{
    T::lemma_add_is_commutative(a, T::ZERO);
    T::lemma_zero_is_neutral(a);
}

/// Four summands in two pairs may change partners.
pub proof fn lemma_regroup<T: SimdSpecialized>(a: T, b: T, c: T, d: T)
    ensures
        a.add_spec(b).add_spec(c.add_spec(d)) == a.add_spec(d).add_spec(b.add_spec(c)),
{
    T::lemma_add_is_associative(a, b, c.add_spec(d));
    T::lemma_add_is_associative(b, c, d);
    T::lemma_add_is_commutative(b.add_spec(c), d);
    T::lemma_add_is_associative(a, d, b.add_spec(c));
}

/// The lanes of a vector of zeros sum to zero.
pub proof fn lemma_lane_sum_of_zeros<T: SimdSpecialized>(width: nat)
    ensures
        lane_sum(Seq::new(width, |l: int| T::ZERO)) == T::ZERO,
    decreases width,
{
    if width > 0 {
        let lanes = Seq::new(width, |l: int| T::ZERO);
        lemma_lane_sum_of_zeros::<T>((width - 1) as nat);
        assert(lanes.drop_last() =~= Seq::new((width - 1) as nat, |l: int| T::ZERO));
        T::lemma_zero_is_neutral(T::ZERO);
    }
}

/// Summing the lanes after one fused step gives the sum of the lanes before
/// it plus the dot product of what was multiplied.
pub proof fn lemma_lane_sum_of_fused<T: SimdSpecialized>(a: Seq<T>, b: Seq<T>, c: Seq<T>)
    requires
        a.len() == b.len(),
        a.len() == c.len(),
    ensures
        lane_sum(fused(a, b, c)) == lane_sum(c).add_spec(dot(a, b)),
    decreases a.len(),
{
    if a.len() == 0 {
        assert(fused(a, b, c) =~= c);
        lemma_zero_is_neutral_on_the_right::<T>(T::ZERO);
    } else {
        lemma_lane_sum_of_fused(a.drop_last(), b.drop_last(), c.drop_last());
        assert(fused(a, b, c).drop_last() =~= fused(a.drop_last(), b.drop_last(), c.drop_last()));
        let before = lane_sum(c.drop_last());
        let partial = dot(a.drop_last(), b.drop_last());
        let term = a.last().mul_spec(b.last());
        lemma_regroup(before, partial, term, c.last());
        assert(lane_sum(fused(a, b, c)) == before.add_spec(partial).add_spec(
            term.add_spec(c.last()),
        ));
    }
}

/// A dot product is the dot product of the first `n` places plus the dot
/// product of the rest.
pub proof fn lemma_dot_split<T: SimdSpecialized>(x: Seq<T>, y: Seq<T>, n: int)
    requires
        x.len() == y.len(),
        0 <= n <= x.len(),
    ensures
        dot(x, y) == dot(x.take(n), y.take(n)).add_spec(dot(x.skip(n), y.skip(n))),
    decreases x.len(),
{
    if n == x.len() {
        assert(x.take(n) =~= x);
        assert(y.take(n) =~= y);
        lemma_zero_is_neutral_on_the_right(dot(x, y));
    } else {
        lemma_dot_split(x.drop_last(), y.drop_last(), n);
        assert(x.drop_last().take(n) =~= x.take(n));
        assert(y.drop_last().take(n) =~= y.take(n));
        assert(x.drop_last().skip(n) =~= x.skip(n).drop_last());
        assert(y.drop_last().skip(n) =~= y.skip(n).drop_last());
        assert(x.skip(n).last() == x.last());
        assert(y.skip(n).last() == y.last());
        T::lemma_add_is_associative(
            dot(x.take(n), y.take(n)),
            dot(x.skip(n).drop_last(), y.skip(n).drop_last()),
            x.last().mul_spec(y.last()),
        );
    }
}

/// The accumulator has `width` lanes.
pub proof fn lemma_accumulated_len<T: SimdSpecialized>(
    x: Seq<T>,
    y: Seq<T>,
    width: int,
    chunks: nat,
)
    requires
        width > 0,
        x.len() == y.len(),
        chunks * width <= x.len(),
    ensures
        accumulated(x, y, width, chunks).len() == width,
    decreases chunks,
{
    if chunks > 0 {
        assert((chunks - 1) * width + width == chunks * width) by (nonlinear_arith);
    }
}

/// The lanes of the accumulator after `chunks` chunks sum to the dot product
/// of the places that went through them.
pub proof fn lemma_accumulated_is_dot<T: SimdSpecialized>(
    x: Seq<T>,
    y: Seq<T>,
    width: int,
    chunks: nat,
)
    requires
        width > 0,
        x.len() == y.len(),
        chunks * width <= x.len(),
    ensures
        lane_sum(accumulated(x, y, width, chunks)) == dot(
            x.take(chunks * width),
            y.take(chunks * width),
        ),
    decreases chunks,
{
    if chunks == 0 {
        lemma_lane_sum_of_zeros::<T>(width as nat);
        assert(0 * width == 0);
        assert(x.take(0) =~= Seq::<T>::empty());
    } else {
        let from = (chunks - 1) * width;
        let to = chunks * width;
        assert(from + width == to && from >= 0) by (nonlinear_arith)
            requires
                from == (chunks - 1) * width,
                to == chunks * width,
                chunks >= 1,
                width > 0,
        ;
        let before = accumulated(x, y, width, (chunks - 1) as nat);
        lemma_accumulated_is_dot(x, y, width, (chunks - 1) as nat);
        lemma_accumulated_len(x, y, width, (chunks - 1) as nat);
        lemma_lane_sum_of_fused(x.subrange(from, to), y.subrange(from, to), before);
        lemma_dot_split(x.take(to), y.take(to), from);
        assert(x.take(to).take(from) =~= x.take(from));
        assert(y.take(to).take(from) =~= y.take(from));
        assert(x.take(to).skip(from) =~= x.subrange(from, to));
        assert(y.take(to).skip(from) =~= y.subrange(from, to));
    }
}

/// The dot product by lanes is the plain dot product.
pub proof fn lemma_vector_dot_is_dot<T: SimdSpecialized>(x: Seq<T>, y: Seq<T>, width: int)
    requires
        width > 0,
        x.len() == y.len(),
    ensures
        vector_dot(x, y, width) == dot(x, y),
{
    let chunks = (x.len() as int) / width;
    assert(0 <= chunks * width <= x.len() && chunks >= 0) by (nonlinear_arith)
        requires
            chunks == (x.len() as int) / width,
            width > 0,
    ;
    lemma_accumulated_is_dot(x, y, width, chunks as nat);
    lemma_dot_split(x, y, chunks * width);
}

/// What can be computed up to some number of chunks can be computed up to
/// any smaller number.
pub proof fn lemma_accumulated_defined_prefix<T: SimdSpecialized>(
    x: Seq<T>,
    y: Seq<T>,
    width: int,
    chunks: nat,
    fewer: nat,
)
    requires
        fewer <= chunks,
        accumulated_defined(x, y, width, chunks),
    ensures
        accumulated_defined(x, y, width, fewer),
    decreases chunks,
{
    if fewer < chunks {
        lemma_accumulated_defined_prefix(x, y, width, (chunks - 1) as nat, fewer);
    }
}

/// The place from which a run of a matrix is read: its `l`-th element is
/// `l` columns to the right of `(i, j)` along a row, or `l` rows below it
/// along a column.
pub open spec fn run_cell(
    rows: usize,
    cols: usize,
    order: DataOrder,
    i: int,
    j: int,
    along_row: bool,
    l: int,
) -> int {
    if along_row {
        cell(rows, cols, order, i, j + l)
    } else {
        cell(rows, cols, order, i + l, j)
    }
}

/// The vector of the `LANES` elements of a matrix that start at `(i, j)` and
/// run along its row or down its column. A run that lies in one stretch of
/// the buffer is loaded from there; any other is gathered first.
fn load_run<T: Scalar + SimdSpecialized>(
    data: &Vec<T>,
    rows: usize,
    cols: usize,
    order: DataOrder,
    i: usize,
    j: usize,
    along_row: bool,
) -> (vector: T::SimdVecType)
    requires
        rows * cols == data@.len(),
        i < rows,
        j < cols,
        along_row ==> j + T::LANES <= cols,
        !along_row ==> i + T::LANES <= rows,
    ensures
        T::lanes(vector) == Seq::new(
            T::LANES as nat,
            |l: int| data@[run_cell(rows, cols, order, i as int, j as int, along_row, l)],
        ),
{
    let width: usize = T::LANES;
    proof {
        assert(data@.len() == data.len());
    }
    let contiguous: bool = match order {
        DataOrder::RowMajor => along_row,
        DataOrder::ColMajor => !along_row,
    };
    if contiguous {
        let base: usize = offset_rank_two(rows, cols, order, i, j);
        proof {
            lemma_offset_rank_two(rows, cols, i, j);
            if along_row {
                assert(j + i * cols + width <= rows * cols) by (nonlinear_arith)
                    requires
                        j + width <= cols,
                        i < rows,
                ;
            } else {
                assert(i + j * rows + width <= rows * cols) by (nonlinear_arith)
                    requires
                        i + width <= rows,
                        j < cols,
                ;
            }
        }
        let run = slice_subrange(data.as_slice(), base, base + width);
        let vector = T::load(run);
        proof {
            assert forall|l: int| 0 <= l < width implies run@[l] == data@[run_cell(
                rows,
                cols,
                order,
                i as int,
                j as int,
                along_row,
                l,
            )] by {
                if along_row {
                    lemma_offset_rank_two(rows, cols, i, (j + l) as usize);
                } else {
                    lemma_offset_rank_two(rows, cols, (i + l) as usize, j);
                }
            }
            assert(T::lanes(vector) =~= Seq::new(
                width as nat,
                |l: int| data@[run_cell(rows, cols, order, i as int, j as int, along_row, l)],
            ));
        }
        vector
    } else {
        let mut gathered: Vec<T> = Vec::with_capacity(width);
        let mut l: usize = 0;
        while l < width
            invariant
                l <= width,
                width == T::LANES,
                rows * cols == data@.len(),
                data@.len() <= usize::MAX,
                i < rows,
                j < cols,
                along_row ==> j + width <= cols,
                !along_row ==> i + width <= rows,
                gathered@.len() == l,
                forall|t: int|
                    0 <= t < l ==> gathered@[t] == data@[run_cell(
                        rows,
                        cols,
                        order,
                        i as int,
                        j as int,
                        along_row,
                        t,
                    )],
            decreases width - l,
        {
            let at: usize = if along_row {
                offset_rank_two(rows, cols, order, i, j + l)
            } else {
                offset_rank_two(rows, cols, order, i + l, j)
            };
            gathered.push(duplicate(&data[at]));
            l += 1;
        }
        let vector = T::load(gathered.as_slice());
        proof {
            assert(T::lanes(vector) =~= Seq::new(
                width as nat,
                |l: int| data@[run_cell(rows, cols, order, i as int, j as int, along_row, l)],
            ));
        }
        vector
    }
}

/// The entries of the product of `a` and `b` that stand in `out` already,
/// row by row: every row before `i`, and of row `i` the columns before `j`.
pub open spec fn product_filled_by_rows<T: Arithmetic<T>>(
    out: Seq<T>,
    a: ArrayView<T>,
    b: ArrayView<T>,
    i: int,
    j: int,
) -> bool {
    forall|r: int, c: int|
        0 <= r < a.shape[0] && 0 <= c < b.shape[1] && (r < i || (r == i && c < j)) ==> out[#[trigger] cell(
            a.shape[0],
            b.shape[1],
            a.data_order,
            r,
            c,
        )] == dot(a.row(r), b.column(c))
}

/// The matrix of `rows` rows and `cols` columns over a buffer.
pub open spec fn matrix_view<T>(data: Seq<T>, rows: usize, cols: usize, order: DataOrder) -> ArrayView<
    T,
> {
    ArrayView { data: data, shape: seq![rows, cols], data_order: order }
}

/// The dot product of row `i` of the left matrix and column `j` of the right
/// one, taken by lanes: full chunks of `LANES` places go through a vector,
/// and the places left over are multiplied and added one by one.
fn dot_by_lanes<T: Scalar + SimdSpecialized>(
    left: &Vec<T>,
    right: &Vec<T>,
    rows: usize,
    inner: usize,
    cols: usize,
    order: DataOrder,
    right_order: DataOrder,
    i: usize,
    j: usize,
) -> (value: T)
    requires
        rows * inner == left@.len(),
        inner * cols == right@.len(),
        i < rows,
        j < cols,
        vector_dot_defined(
            matrix_view(left@, rows, inner, order).row(i as int),
            matrix_view(right@, inner, cols, right_order).column(j as int),
            T::LANES as int,
        ),
    ensures
        value == dot(
            matrix_view(left@, rows, inner, order).row(i as int),
            matrix_view(right@, inner, cols, right_order).column(j as int),
        ),
{
    let width: usize = T::LANES;
    let ghost a = matrix_view(left@, rows, inner, order);
    let ghost b = matrix_view(right@, inner, cols, right_order);
    let ghost x = a.row(i as int);
    let ghost y = b.column(j as int);
    let ghost total = (inner as int) / (width as int);
    proof {
        T::lemma_at_least_one_lane();
        T::lemma_operators_obey_specification();
        assert(left@.len() == left.len() && right@.len() == right.len());
        assert(0 <= total * width <= inner && total >= 0) by (nonlinear_arith)
            requires
                total == (inner as int) / (width as int),
                width > 0,
        ;
    }
    let mut sum = T::splat(T::ZERO);
    let mut q: usize = 0;
    let ghost mut chunks: nat = 0;
    proof {
        assert(T::lanes(sum) =~= accumulated(x, y, width as int, 0));
    }
    while inner - q >= width
        invariant
            width == T::LANES,
            width > 0,
            q <= inner,
            q == chunks * width,
            chunks <= total,
            total == (inner as int) / (width as int),
            T::obeys_add_spec(),
            T::obeys_mul_spec(),
            a == (ArrayView { data: left@, shape: seq![rows, inner], data_order: order }),
            b == (ArrayView { data: right@, shape: seq![inner, cols], data_order: right_order }),
            rows * inner == left@.len(),
            inner * cols == right@.len(),
            i < rows,
            j < cols,
            x == a.row(i as int),
            y == b.column(j as int),
            accumulated_defined(x, y, width as int, total as nat),
            T::lanes(sum) == accumulated(x, y, width as int, chunks),
        decreases inner - q,
    {
        proof {
            assert((chunks + 1) * width == q + width) by (nonlinear_arith)
                requires
                    q == chunks * width,
            ;
            assert(chunks + 1 <= total) by (nonlinear_arith)
                requires
                    (chunks + 1) * width <= inner,
                    total == (inner as int) / (width as int),
                    width > 0,
            ;
            lemma_accumulated_defined_prefix(
                x,
                y,
                width as int,
                total as nat,
                (chunks + 1) as nat,
            );
        }
        let left_vector = load_run::<T>(left, rows, inner, order, i, q, true);
        let right_vector = load_run::<T>(right, inner, cols, right_order, q, j, false);
        proof {
            assert(T::lanes(left_vector) =~= x.subrange(q as int, q + width));
            assert(T::lanes(right_vector) =~= y.subrange(q as int, q + width));
            assert((chunks + 1 - 1) * width == q);
        }
        sum = T::multiply_add(left_vector, right_vector, sum);
        q = q + width;
        proof {
            chunks = chunks + 1;
        }
    }
    proof {
        lemma_fundamental_div_mod_converse(inner as int, width as int, chunks as int, inner - q);
        assert(chunks == total);
    }
    let ghost rest_x = x.skip(q as int);
    let ghost rest_y = y.skip(q as int);
    let start: usize = q;
    let mut rest = T::ZERO;
    while q < inner
        invariant
            start <= q <= inner,
            T::obeys_add_spec(),
            T::obeys_mul_spec(),
            a == (ArrayView { data: left@, shape: seq![rows, inner], data_order: order }),
            b == (ArrayView { data: right@, shape: seq![inner, cols], data_order: right_order }),
            rows * inner == left@.len(),
            inner * cols == right@.len(),
            left@.len() <= usize::MAX,
            right@.len() <= usize::MAX,
            i < rows,
            j < cols,
            x == a.row(i as int),
            y == b.column(j as int),
            rest_x == x.skip(start as int),
            rest_y == y.skip(start as int),
            dot_defined(rest_x, rest_y),
            rest == dot(rest_x.take(q - start), rest_y.take(q - start)),
        decreases inner - q,
    {
        let l = offset_rank_two(rows, inner, order, i, q);
        let r = offset_rank_two(inner, cols, right_order, q, j);
        proof {
            lemma_dot_step(rest_x, rest_y, q - start);
            assert(rest_x[q - start] == left@[l as int]);
            assert(rest_y[q - start] == right@[r as int]);
        }
        rest = rest + duplicate(&left[l]) * duplicate(&right[r]);
        q += 1;
    }
    proof {
        assert(rest_x.take(inner - start) =~= rest_x);
        assert(rest_y.take(inner - start) =~= rest_y);
        lemma_vector_dot_is_dot(x, y, width as int);
    }
    T::sum(sum) + rest
}

impl<T: Scalar + SimdSpecialized> Array<T> {
    /// The matrix product of `self` and `rhs`, each entry computed by lanes:
    /// the inner axis is walked in chunks of `LANES` places, which are
    /// multiplied and accumulated lane by lane, and the places that are left
    /// when fewer than `LANES` remain are multiplied and added one by one. The
    /// result is that of [`Array::mul_naive`].
    ///
    /// It is refused with a rank mismatch unless both arrays have two axes,
    /// and with a dimension mismatch unless `self` has as many columns as
    /// `rhs` has rows.
    pub fn mul_standard_simd(&self, rhs: &Array<T>) -> (result: Result<Array<T>, ArrayError>)
        requires
            multipliable(self@, rhs@) ==> self@.shape[0] * rhs@.shape[1] <= usize::MAX
                && vector_product_defined(self@, rhs@, T::LANES as int),
        ensures
            self@.rank() != 2 || rhs@.rank() != 2 ==> result is Err && result->Err_0
                == ArrayError::RankMismatch,
            self@.rank() == 2 && rhs@.rank() == 2 && self@.shape[1] != rhs@.shape[0] ==> result is Err
                && result->Err_0 == (ArrayError::DimensionMismatch { input_check: true }),
            multipliable(self@, rhs@) ==> result is Ok && is_product(result->Ok_0@, self@, rhs@),
    {
        let left = self.data();
        let right = rhs.data();
        let left_shape = self.shape();
        let right_shape = rhs.shape();
        if left_shape.len() != 2 || right_shape.len() != 2 {
            return Err(ArrayError::RankMismatch);
        }
        if left_shape[1] != right_shape[0] {
            return Err(ArrayError::DimensionMismatch { input_check: true });
        }
        let rows: usize = left_shape[0];
        let inner: usize = left_shape[1];
        let cols: usize = right_shape[1];
        let order = self.data_order();
        let right_order = rhs.data_order();
        proof {
            assert(self@.shape =~= seq![rows, inner]);
            assert(rhs@.shape =~= seq![inner, cols]);
            lemma_offset_rank_two(rows, inner, 0, 0);
            lemma_offset_rank_two(inner, cols, 0, 0);
            lemma_offset_rank_two(rows, cols, 0, 0);
        }
        let mut out: Vec<T> = zeros(rows * cols);
        let mut i: usize = 0;
        while i < rows
            invariant
                i <= rows,
                self@ == (ArrayView { data: left@, shape: seq![rows, inner], data_order: order }),
                rhs@ == (ArrayView {
                    data: right@,
                    shape: seq![inner, cols],
                    data_order: right_order,
                }),
                rows * inner == left@.len(),
                inner * cols == right@.len(),
                rows * cols == out@.len(),
                rows * cols <= usize::MAX,
                vector_product_defined(self@, rhs@, T::LANES as int),
                product_filled_by_rows(out@, self@, rhs@, i as int, 0),
            decreases rows - i,
        {
            let mut j: usize = 0;
            while j < cols
                invariant
                    i < rows,
                    j <= cols,
                    self@ == (ArrayView {
                        data: left@,
                        shape: seq![rows, inner],
                        data_order: order,
                    }),
                    rhs@ == (ArrayView {
                        data: right@,
                        shape: seq![inner, cols],
                        data_order: right_order,
                    }),
                    rows * inner == left@.len(),
                    inner * cols == right@.len(),
                    rows * cols == out@.len(),
                    rows * cols <= usize::MAX,
                    vector_product_defined(self@, rhs@, T::LANES as int),
                    product_filled_by_rows(out@, self@, rhs@, i as int, j as int),
                decreases cols - j,
            {
                assert(vector_dot_defined(
                    self@.row(i as int),
                    rhs@.column(j as int),
                    T::LANES as int,
                ));
                let value = dot_by_lanes::<T>(
                    left,
                    right,
                    rows,
                    inner,
                    cols,
                    order,
                    right_order,
                    i,
                    j,
                );
                let at = offset_rank_two(rows, cols, order, i, j);
                let ghost before = out@;
                out.set(at, value);
                proof {
                    assert(at == cell(rows, cols, order, i as int, j as int));
                    assert forall|r: int, c: int|
                        0 <= r < rows && 0 <= c < cols && (r < i || (r == i && c < j + 1)) implies out@[#[trigger] cell(
                            rows,
                            cols,
                            order,
                            r,
                            c,
                        )] == dot(self@.row(r), rhs@.column(c)) by {
                        lemma_writing_an_entry_keeps_the_others(
                            before,
                            rows,
                            cols,
                            order,
                            i as int,
                            j as int,
                            value,
                            r,
                            c,
                        );
                    }
                }
                j += 1;
            }
            i += 1;
        }
        let mut shape: Vec<usize> = Vec::with_capacity(2);
        shape.push(rows);
        shape.push(cols);
        proof {
            assert(shape@ =~= seq![rows, cols]);
        }
        let product = Array::from_parts(out, shape, order);
        proof {
            assert forall|r: int, c: int| 0 <= r < rows && 0 <= c < cols implies #[trigger] product@.entry(
                r,
                c,
            ) == dot(self@.row(r), rhs@.column(c)) by {
                lemma_cell_in_bounds(rows, cols, order, r, c);
                assert(product@.entry(r, c) == out@[cell(rows, cols, order, r, c)]);
            }
        }
        Ok(product)
    }
}

} // verus!
