//! Arrays of two axes: the transpose and the matrix product.

use vstd::prelude::*;
use crate::array::{Array, ArrayView};
use crate::error::ArrayError;
use crate::layout::{
    lemma_offset_in_bounds, lemma_offset_rank_two, lemma_offset_rank_two_is_injective,
    offset_rank_two, offset_spec, shape_product, valid_indices, DataOrder,
};
use crate::scalar::{duplicate, duplicate_buffer, Arithmetic, Scalar};
use vstd::std_specs::ops::{AddSpec, MulSpec};

verus! {

/// The transpose of a matrix holds as many elements as the matrix.
pub proof fn lemma_transposed_is_well_formed<T>(a: ArrayView<T>)
    requires
        a.rank() == 2,
        a.well_formed(),
    ensures
        a.transposed().well_formed(),
        a.transposed().rank() == 2,
{
    let rows = a.shape[0];
    let cols = a.shape[1];
    assert(a.shape =~= seq![rows, cols]);
    lemma_offset_rank_two(rows, cols, 0, 0);
    lemma_offset_rank_two(cols, rows, 0, 0);
    assert(rows * cols == cols * rows) by (nonlinear_arith);
}

/// Transposing twice gives the matrix back: the same shape, the same layout,
/// the same buffer.
pub proof fn lemma_transpose_is_an_involution<T>(a: ArrayView<T>)
    requires
        a.rank() == 2,
    ensures
        a.transposed().transposed() == a,
{
    assert(a.transposed().transposed().shape =~= a.shape);
}

/// The element in row `j` and column `i` of the transpose is the element in
/// row `i` and column `j` of the matrix.
pub proof fn lemma_transpose_swaps_indices<T>(a: ArrayView<T>, i: int, j: int)
    requires
        a.rank() == 2,
        0 <= i < a.shape[0],
        0 <= j < a.shape[1],
    ensures
        a.transposed().entry(j, i) == a.entry(i, j),
{
    let rows = a.shape[0];
    let cols = a.shape[1];
    assert(a.shape =~= seq![rows, cols]);
    lemma_offset_rank_two(rows, cols, i as usize, j as usize);
    lemma_offset_rank_two(cols, rows, j as usize, i as usize);
}

impl<T: Scalar> Array<T> {
    /// The transpose of a matrix, over a copy of its buffer: the two sizes
    /// change places and the layout flips, and the buffer is copied as it stands.
    ///
    /// It is refused unless the array has two axes.
    pub fn transpose(&self) -> (result: Result<Array<T>, ArrayError>)
        ensures
            self@.rank() == 2 ==> result is Ok && result->Ok_0@ == self@.transposed()
                && result->Ok_0@.well_formed(),
            self@.rank() != 2 ==> result is Err && result->Err_0 == ArrayError::RankMismatch,
    {
        let shape = self.shape();
        if shape.len() != 2 {
            return Err(ArrayError::RankMismatch);
        }
        let mut swapped: Vec<usize> = Vec::with_capacity(2);
        swapped.push(shape[1]);
        swapped.push(shape[0]);
        proof {
            lemma_transposed_is_well_formed(self@);
            assert(swapped@ =~= self@.transposed().shape);
        }
        Ok(Array::from_parts(duplicate_buffer(self.data()), swapped, self.data_order().alternate()))
    }

    /// The transpose of a matrix, over its own buffer, which is moved and not
    /// touched.
    ///
    /// It is refused unless the array has two axes.
    pub fn transpose_inplace(self) -> (result: Result<Array<T>, ArrayError>)
        ensures
            self@.rank() == 2 ==> result is Ok && result->Ok_0@ == self@.transposed()
                && result->Ok_0@.well_formed(),
            self@.rank() != 2 ==> result is Err && result->Err_0 == ArrayError::RankMismatch,
    {
        let ghost before = self@;
        let (data, shape, data_order) = self.into_parts();
        if shape.len() != 2 {
            return Err(ArrayError::RankMismatch);
        }
        let mut swapped: Vec<usize> = Vec::with_capacity(2);
        swapped.push(shape[1]);
        swapped.push(shape[0]);
        proof {
            lemma_transposed_is_well_formed(before);
            assert(swapped@ =~= before.transposed().shape);
        }
        Ok(Array::from_parts(data, swapped, data_order.alternate()))
    }
}

/// The dot product of two sequences of one length: the sum, started from zero
/// and taken from the first place to the last, of the products place by
/// place.
pub open spec fn dot<T: Arithmetic<T>>(x: Seq<T>, y: Seq<T>) -> T
    decreases x.len(),
{
    if x.len() == 0 {
        T::ZERO
    } else {
        dot(x.drop_last(), y.drop_last()).add_spec(x.last().mul_spec(y.last()))
    }
}

/// Every product and every sum that [`dot`] takes can be computed.
pub open spec fn dot_defined<T: Arithmetic<T>>(x: Seq<T>, y: Seq<T>) -> bool
    decreases x.len(),
{
    x.len() == 0 || {
        &&& dot_defined(x.drop_last(), y.drop_last())
        &&& x.last().mul_req(y.last())
        &&& dot(x.drop_last(), y.drop_last()).add_req(x.last().mul_spec(y.last()))
    }
}

/// Two matrices that can be multiplied: as many columns on the left as rows
/// on the right.
pub open spec fn multipliable<T>(a: ArrayView<T>, b: ArrayView<T>) -> bool {
    &&& a.rank() == 2
    &&& b.rank() == 2
    &&& a.shape[1] == b.shape[0]
}

/// Every entry of the product of `a` and `b` can be computed by [`dot`].
pub open spec fn product_defined<T: Arithmetic<T>>(a: ArrayView<T>, b: ArrayView<T>) -> bool {
    forall|i: int, j: int|
        0 <= i < a.shape[0] && 0 <= j < b.shape[1] ==> dot_defined(
            #[trigger] a.row(i),
            #[trigger] b.column(j),
        )
}

/// `p` is the matrix product of `a` and `b`: as many rows as `a` and as many
/// columns as `b`, the layout of `a`, and in row `i` and column `j` the dot
/// product of row `i` of `a` and column `j` of `b`.
pub open spec fn is_product<T: Arithmetic<T>>(
    p: ArrayView<T>,
    a: ArrayView<T>,
    b: ArrayView<T>,
) -> bool {
    &&& p.shape == seq![a.shape[0], b.shape[1]]
    &&& p.data_order == a.data_order
    &&& p.well_formed()
    &&& forall|i: int, j: int|
        0 <= i < a.shape[0] && 0 <= j < b.shape[1] ==> #[trigger] p.entry(i, j) == dot(
            a.row(i),
            b.column(j),
        )
}

/// A dot product that can be computed can be computed up to any place.
pub proof fn lemma_dot_defined_prefix<T: Arithmetic<T>>(x: Seq<T>, y: Seq<T>, n: int)
    requires
        x.len() == y.len(),
        0 <= n <= x.len(),
        dot_defined(x, y),
    ensures
        dot_defined(x.take(n), y.take(n)),
    decreases x.len() - n,
{
    if n == x.len() {
        assert(x.take(n) =~= x);
        assert(y.take(n) =~= y);
    } else {
        lemma_dot_defined_prefix(x, y, n + 1);
        assert(x.take(n + 1).drop_last() =~= x.take(n));
        assert(y.take(n + 1).drop_last() =~= y.take(n));
    }
}

/// One step of a dot product: the product at place `n` can be computed and
/// added to the dot product of the places before it, which gives the dot
/// product up to and with place `n`.
pub proof fn lemma_dot_step<T: Arithmetic<T>>(x: Seq<T>, y: Seq<T>, n: int)
    requires
        x.len() == y.len(),
        0 <= n < x.len(),
        dot_defined(x, y),
    ensures
        x[n].mul_req(y[n]),
        dot(x.take(n), y.take(n)).add_req(x[n].mul_spec(y[n])),
        dot(x.take(n + 1), y.take(n + 1)) == dot(x.take(n), y.take(n)).add_spec(
            x[n].mul_spec(y[n]),
        ),
{
    lemma_dot_defined_prefix(x, y, n + 1);
    assert(x.take(n + 1).drop_last() =~= x.take(n));
    assert(y.take(n + 1).drop_last() =~= y.take(n));
}

/// The place in the buffer of a `rows` by `cols` matrix of the element in row
/// `i` and column `j`.
pub open spec fn cell(rows: usize, cols: usize, order: DataOrder, i: int, j: int) -> int {
    offset_spec(seq![rows, cols], order, seq![i as usize, j as usize]) as int
}

/// The place of an element of a matrix lies inside its buffer.
pub proof fn lemma_cell_in_bounds(rows: usize, cols: usize, order: DataOrder, i: int, j: int)
    requires
        0 <= i < rows,
        0 <= j < cols,
    ensures
        0 <= cell(rows, cols, order, i, j) < rows * cols,
{
    lemma_offset_rank_two(rows, cols, i as usize, j as usize);
    assert(valid_indices(seq![rows, cols], seq![i as usize, j as usize]));
    lemma_offset_in_bounds(seq![rows, cols], order, seq![i as usize, j as usize]);
}

/// Writing the element in row `i` and column `j` of a matrix into its buffer
/// puts it at its place and leaves every other element as it was.
pub proof fn lemma_writing_an_entry_keeps_the_others<T>(
    before: Seq<T>,
    rows: usize,
    cols: usize,
    order: DataOrder,
    i: int,
    j: int,
    value: T,
    r: int,
    c: int,
)
    requires
        before.len() == rows * cols,
        0 <= i < rows,
        0 <= j < cols,
        0 <= r < rows,
        0 <= c < cols,
    ensures
        0 <= cell(rows, cols, order, r, c) < before.len(),
        before.update(cell(rows, cols, order, i, j), value)[cell(rows, cols, order, r, c)] == if r
            == i && c == j {
            value
        } else {
            before[cell(rows, cols, order, r, c)]
        },
{
    lemma_cell_in_bounds(rows, cols, order, r, c);
    lemma_cell_in_bounds(rows, cols, order, i, j);
    if cell(rows, cols, order, r, c) == cell(rows, cols, order, i, j) {
        lemma_offset_rank_two_is_injective(
            rows,
            cols,
            order,
            r as usize,
            c as usize,
            i as usize,
            j as usize,
        );
    }
}

/// Every place of the buffer of a matrix is the place of one of its elements.
pub proof fn lemma_cell_is_onto(rows: usize, cols: usize, order: DataOrder, place: int) -> (at: (
    int,
    int,
))
    requires
        0 <= place < rows * cols,
    ensures
        0 <= at.0 < rows,
        0 <= at.1 < cols,
        cell(rows, cols, order, at.0, at.1) == place,
{
    assert(rows > 0 && cols > 0) by (nonlinear_arith)
        requires
            0 <= place < rows * cols,
    ;
    let at = match order {
        DataOrder::ColMajor => (place % (rows as int), place / (rows as int)),
        DataOrder::RowMajor => (place / (cols as int), place % (cols as int)),
    };
    match order {
        DataOrder::ColMajor => {
            assert(0 <= at.0 < rows && 0 <= at.1 < cols && at.0 + at.1 * rows == place)
                by (nonlinear_arith)
                requires
                    at.0 == place % (rows as int),
                    at.1 == place / (rows as int),
                    0 <= place < rows * cols,
                    rows > 0,
            ;
        },
        DataOrder::RowMajor => {
            assert(0 <= at.0 < rows && 0 <= at.1 < cols && at.1 + at.0 * cols == place)
                by (nonlinear_arith)
                requires
                    at.0 == place / (cols as int),
                    at.1 == place % (cols as int),
                    0 <= place < rows * cols,
                    cols > 0,
            ;
        },
    }
    lemma_offset_rank_two(rows, cols, at.0 as usize, at.1 as usize);
    at
}

/// Two matrices give one product: whatever is the product of `a` and `b` has
/// the same shape, the same layout and the same buffer. So the plain kernel
/// and the kernel by lanes, which both return the product, return the same
/// array.
pub proof fn lemma_product_is_unique<T: Arithmetic<T>>(
    p: ArrayView<T>,
    q: ArrayView<T>,
    a: ArrayView<T>,
    b: ArrayView<T>,
)
    requires
        is_product(p, a, b),
        is_product(q, a, b),
    ensures
        p == q,
{
    let rows = a.shape[0];
    let cols = b.shape[1];
    lemma_offset_rank_two(rows, cols, 0, 0);
    assert(p.data.len() == q.data.len());
    assert forall|place: int| 0 <= place < p.data.len() implies p.data[place] == q.data[place] by {
        let at = lemma_cell_is_onto(rows, cols, p.data_order, place);
        assert(p.entry(at.0, at.1) == dot(a.row(at.0), b.column(at.1)));
        assert(q.entry(at.0, at.1) == dot(a.row(at.0), b.column(at.1)));
    }
    assert(p.data =~= q.data);
}

/// The entries of the product of `a` and `b` that stand in `out` already,
/// column by column: every column before `j`, and of column `j` the rows
/// before `i`.
pub open spec fn product_filled<T: Arithmetic<T>>(
    out: Seq<T>,
    a: ArrayView<T>,
    b: ArrayView<T>,
    i: int,
    j: int,
) -> bool {
    forall|r: int, c: int|
        0 <= r < a.shape[0] && 0 <= c < b.shape[1] && (c < j || (c == j && r < i)) ==> out[#[trigger] cell(
            a.shape[0],
            b.shape[1],
            a.data_order,
            r,
            c,
        )] == dot(a.row(r), b.column(c))
}

/// A buffer of `len` zeros.
pub fn zeros<T: Scalar + Arithmetic<T>>(len: usize) -> (buffer: Vec<T>)
    ensures
        buffer@.len() == len,
        forall|i: int| 0 <= i < len ==> buffer@[i] == T::ZERO,
{
    let mut buffer: Vec<T> = Vec::with_capacity(len);
    let mut i: usize = 0;
    while i < len
        invariant
            i <= len,
            buffer@.len() == i,
            forall|k: int| 0 <= k < i ==> buffer@[k] == T::ZERO,
        decreases len - i,
    {
        buffer.push(T::ZERO);
        i += 1;
    }
    buffer
}

impl<T: Scalar + Arithmetic<T>> Array<T> {
    /// An array of shape `shape` with zero in every place, laid out
    /// column-major.
    ///
    /// It is refused unless a buffer can hold as many elements as the shape
    /// asks for.
    pub fn zeros(shape: Vec<usize>) -> (made: Result<Self, ArrayError>)
        ensures
            shape_product(shape@) <= usize::MAX ==> made is Ok && made->Ok_0@ == (ArrayView {
                data: Seq::new(shape_product(shape@), |i: int| T::ZERO),
                shape: shape@,
                data_order: DataOrder::ColMajor,
            }),
            shape_product(shape@) > usize::MAX ==> made is Err && made->Err_0
                == ArrayError::ShapeMismatch,
    {
        Array::filled(T::ZERO, shape)
    }

    /// An array of shape `shape` with one in every place, laid out
    /// column-major.
    ///
    /// It is refused unless a buffer can hold as many elements as the shape
    /// asks for.
    pub fn ones(shape: Vec<usize>) -> (made: Result<Self, ArrayError>)
        ensures
            shape_product(shape@) <= usize::MAX ==> made is Ok && made->Ok_0@ == (ArrayView {
                data: Seq::new(shape_product(shape@), |i: int| T::ONE),
                shape: shape@,
                data_order: DataOrder::ColMajor,
            }),
            shape_product(shape@) > usize::MAX ==> made is Err && made->Err_0
                == ArrayError::ShapeMismatch,
    {
        Array::filled(T::ONE, shape)
    }

    /// The matrix product of `self` and `rhs`, each entry computed by a plain
    /// sum over the inner axis, started from zero.
    ///
    /// It is refused with a rank mismatch unless both arrays have two axes,
    /// and with a dimension mismatch unless `self` has as many columns as
    /// `rhs` has rows.
    pub fn mul_naive(&self, rhs: &Array<T>) -> (result: Result<Array<T>, ArrayError>)
        requires
            multipliable(self@, rhs@) ==> self@.shape[0] * rhs@.shape[1] <= usize::MAX
                && product_defined(self@, rhs@),
        ensures
            self@.rank() != 2 || rhs@.rank() != 2 ==> result is Err && result->Err_0
                == ArrayError::RankMismatch,
            self@.rank() == 2 && rhs@.rank() == 2 && self@.shape[1] != rhs@.shape[0] ==> result is Err
                && result->Err_0 == (ArrayError::DimensionMismatch { input_check: true }),
            multipliable(self@, rhs@) ==> result is Ok && is_product(result->Ok_0@, self@, rhs@),
    {
        let left = self.data();
        let right = rhs.data();
        let left_shape = self.shape();
        let right_shape = rhs.shape();
        if left_shape.len() != 2 || right_shape.len() != 2 {
            return Err(ArrayError::RankMismatch);
        }
        if left_shape[1] != right_shape[0] {
            return Err(ArrayError::DimensionMismatch { input_check: true });
        }
        let rows: usize = left_shape[0];
        let inner: usize = left_shape[1];
        let cols: usize = right_shape[1];
        let order = self.data_order();
        let right_order = rhs.data_order();
        proof {
            T::lemma_operators_obey_specification();
            assert(self@.shape =~= seq![rows, inner]);
            assert(rhs@.shape =~= seq![inner, cols]);
            lemma_offset_rank_two(rows, inner, 0, 0);
            lemma_offset_rank_two(inner, cols, 0, 0);
            lemma_offset_rank_two(rows, cols, 0, 0);
            assert(left@.len() == left.len() && right@.len() == right.len());
        }
        let mut out: Vec<T> = zeros(rows * cols);
        let mut j: usize = 0;
        while j < cols
            invariant
                j <= cols,
                T::obeys_add_spec(),
                T::obeys_mul_spec(),
                self@.shape == seq![rows, inner],
                rhs@.shape == seq![inner, cols],
                self@.data_order == order,
                rhs@.data_order == right_order,
                left@ == self@.data,
                right@ == rhs@.data,
                rows * inner == left@.len(),
                inner * cols == right@.len(),
                rows * cols == out@.len(),
                rows * inner <= usize::MAX,
                inner * cols <= usize::MAX,
                rows * cols <= usize::MAX,
                product_defined(self@, rhs@),
                product_filled(out@, self@, rhs@, 0, j as int),
            decreases cols - j,
        {
            let mut i: usize = 0;
            while i < rows
                invariant
                    i <= rows,
                    j < cols,
                    T::obeys_add_spec(),
                    T::obeys_mul_spec(),
                    self@.shape == seq![rows, inner],
                    rhs@.shape == seq![inner, cols],
                    self@.data_order == order,
                    rhs@.data_order == right_order,
                    left@ == self@.data,
                    right@ == rhs@.data,
                    rows * inner == left@.len(),
                    inner * cols == right@.len(),
                    rows * cols == out@.len(),
                    rows * inner <= usize::MAX,
                    inner * cols <= usize::MAX,
                    rows * cols <= usize::MAX,
                    product_defined(self@, rhs@),
                    product_filled(out@, self@, rhs@, i as int, j as int),
                decreases rows - i,
            {
                let ghost x = self@.row(i as int);
                let ghost y = rhs@.column(j as int);
                assert(dot_defined(x, y));
                let mut sum = T::ZERO;
                let mut q: usize = 0;
                while q < inner
                    invariant
                        q <= inner,
                        i < rows,
                        j < cols,
                        T::obeys_add_spec(),
                        T::obeys_mul_spec(),
                        self@.shape == seq![rows, inner],
                        rhs@.shape == seq![inner, cols],
                        self@.data_order == order,
                        rhs@.data_order == right_order,
                        left@ == self@.data,
                        right@ == rhs@.data,
                        rows * inner == left@.len(),
                        inner * cols == right@.len(),
                        rows * inner <= usize::MAX,
                        inner * cols <= usize::MAX,
                        x == self@.row(i as int),
                        y == rhs@.column(j as int),
                        dot_defined(x, y),
                        sum == dot(x.take(q as int), y.take(q as int)),
                    decreases inner - q,
                {
                    let l = offset_rank_two(rows, inner, order, i, q);
                    let r = offset_rank_two(inner, cols, right_order, q, j);
                    proof {
                        lemma_dot_step(x, y, q as int);
                        assert(x[q as int] == left@[l as int]);
                        assert(y[q as int] == right@[r as int]);
                    }
                    sum = sum + duplicate(&left[l]) * duplicate(&right[r]);
                    q += 1;
                }
                proof {
                    assert(x.take(inner as int) =~= x);
                    assert(y.take(inner as int) =~= y);
                }
                let at = offset_rank_two(rows, cols, order, i, j);
                let ghost before = out@;
                out.set(at, sum);
                proof {
                    assert(at == cell(rows, cols, order, i as int, j as int));
                    assert forall|r: int, c: int|
                        0 <= r < rows && 0 <= c < cols && (c < j || (c == j && r < i + 1)) implies out@[#[trigger] cell(
                            rows,
                            cols,
                            order,
                            r,
                            c,
                        )] == dot(self@.row(r), rhs@.column(c)) by {
                        lemma_writing_an_entry_keeps_the_others(
                            before,
                            rows,
                            cols,
                            order,
                            i as int,
                            j as int,
                            sum,
                            r,
                            c,
                        );
                    }
                }
                i += 1;
            }
            j += 1;
        }
        let mut shape: Vec<usize> = Vec::with_capacity(2);
        shape.push(rows);
        shape.push(cols);
        proof {
            assert(shape@ =~= seq![rows, cols]);
        }
        let product = Array::from_parts(out, shape, order);
        proof {
            assert forall|r: int, c: int| 0 <= r < rows && 0 <= c < cols implies #[trigger] product@.entry(
                r,
                c,
            ) == dot(self@.row(r), rhs@.column(c)) by {
                lemma_cell_in_bounds(rows, cols, order, r, c);
                assert(product@.entry(r, c) == out@[cell(rows, cols, order, r, c)]);
            }
        }
        Ok(product)
    }
}

impl<T: Scalar + Arithmetic<T>> Array<T> {
    /// The matrix product by the algorithm of Strassen, which is deferred:
    /// two matrices that can be multiplied are answered with
    /// [`ArrayError::NotImplemented`], and any others as [`Array::mul_naive`]
    /// answers them.
    pub fn mul_strassen(&self, rhs: &Array<T>) -> (result: Result<Array<T>, ArrayError>)
        ensures
            result is Err,
            self@.rank() != 2 || rhs@.rank() != 2 ==> result->Err_0 == ArrayError::RankMismatch,
            self@.rank() == 2 && rhs@.rank() == 2 && self@.shape[1] != rhs@.shape[0]
                ==> result->Err_0 == (ArrayError::DimensionMismatch { input_check: true }),
            multipliable(self@, rhs@) ==> result->Err_0 == ArrayError::NotImplemented,
    {
        let left_shape = self.shape();
        let right_shape = rhs.shape();
        if left_shape.len() != 2 || right_shape.len() != 2 {
            return Err(ArrayError::RankMismatch);
        }
        if left_shape[1] != right_shape[0] {
            return Err(ArrayError::DimensionMismatch { input_check: true });
        }
        Err(ArrayError::NotImplemented)
    }

    /// The singular value decomposition, which is deferred: every call is
    /// answered with [`ArrayError::NotImplemented`].
    pub fn svd(&self) -> (result: Result<(Array<T>, Array<T>, Array<T>), ArrayError>)
        ensures
            result is Err,
            result->Err_0 == ArrayError::NotImplemented,
    {
        Err(ArrayError::NotImplemented)
    }

    /// The QR decomposition, which is deferred: every call is answered with
    /// [`ArrayError::NotImplemented`].
    pub fn qr(&self) -> (result: Result<(Array<T>, Array<T>), ArrayError>)
        ensures
            result is Err,
            result->Err_0 == ArrayError::NotImplemented,
    {
        Err(ArrayError::NotImplemented)
    }
}

} // verus!
