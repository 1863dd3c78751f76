//! The mapping from a multi-dimensional index to a place in a flat buffer.

use vstd::prelude::*;
use crate::error::ArrayError;

verus! {

/// How a multi-dimensional index is laid out in the buffer.
#[derive(Debug, Clone, Copy, PartialEq, Eq, Structural)]
pub enum DataOrder {
    /// The last axis varies fastest.
    RowMajor,
    /// The first axis varies fastest.
    ColMajor,
}

impl DataOrder {
    /// The other order.
    pub open spec fn spec_alternate(&self) -> DataOrder {
        match self {
            DataOrder::RowMajor => DataOrder::ColMajor,
            DataOrder::ColMajor => DataOrder::RowMajor,
        }
    }

    /// The name of the order.
    pub open spec fn name_text(&self) -> Seq<char> {
        match self {
            DataOrder::RowMajor => "RowMajor"@,
            DataOrder::ColMajor => "ColMajor"@,
        }
    }

    /// The name of the order.
    pub fn name(&self) -> (name: &'static str)
        ensures
            name@ == self.name_text(),
    {
        match self {
            DataOrder::RowMajor => "RowMajor",
            DataOrder::ColMajor => "ColMajor",
        }
    }

    /// The other order.
    #[verifier::when_used_as_spec(spec_alternate)]
    pub fn alternate(&self) -> (other: Self)
        ensures
            other == self.spec_alternate(),
    {
        match self {
            DataOrder::RowMajor => DataOrder::ColMajor,
            DataOrder::ColMajor => DataOrder::RowMajor,
        }
    }
}

/// The number of elements of an array of this shape: the product of its sizes.
pub open spec fn shape_product(shape: Seq<usize>) -> nat
    decreases shape.len(),
{
    if shape.len() == 0 {
        1
    } else {
        shape_product(shape.drop_last()) * (shape.last() as nat)
    }
}

/// One index for each axis, each below the size of its axis.
pub open spec fn valid_indices(shape: Seq<usize>, indices: Seq<usize>) -> bool {
    &&& indices.len() == shape.len()
    &&& forall|d: int| 0 <= d < shape.len() ==> indices[d] < shape[d]
}

/// The column-major offset: the stride of the first axis is 1, the stride of
/// every other axis is the stride of the axis before it times that axis's
/// size, and the offset is the sum of each index times the stride of its axis.
pub open spec fn col_major_offset(shape: Seq<usize>, indices: Seq<usize>) -> nat
    decreases shape.len(),
{
    if shape.len() == 0 || indices.len() != shape.len() {
        0
    } else {
        col_major_offset(shape.drop_last(), indices.drop_last()) + (indices.last() as nat)
            * shape_product(shape.drop_last())
    }
}

/// The row-major offset: the column-major formula with the axes taken in
/// reverse.
pub open spec fn row_major_offset(shape: Seq<usize>, indices: Seq<usize>) -> nat {
    col_major_offset(shape.reverse(), indices.reverse())
}

/// The offset of `indices` in the buffer of an array of shape `shape` laid out
/// in `order`.
pub open spec fn offset_spec(shape: Seq<usize>, order: DataOrder, indices: Seq<usize>) -> nat {
    match order {
        DataOrder::ColMajor => col_major_offset(shape, indices),
        DataOrder::RowMajor => row_major_offset(shape, indices),
    }
}

/// The stride of axis `d`: by how much the offset grows when the index on
/// that axis grows by one. Column-major it is the product of the sizes of the
/// axes before `d`, so 1 for the first axis and for every other axis the
/// stride of the axis before it times that axis's size; row-major it is the
/// product of the sizes of the axes after `d`.
pub open spec fn stride(shape: Seq<usize>, order: DataOrder, d: int) -> nat {
    match order {
        DataOrder::ColMajor => shape_product(shape.take(d)),
        DataOrder::RowMajor => shape_product(shape.skip(d + 1)),
    }
}

/// The product of a shape with one more axis.
pub proof fn lemma_product_push(shape: Seq<usize>, size: usize)
    ensures
        shape_product(shape.push(size)) == shape_product(shape) * (size as nat),
{
    assert(shape.push(size).drop_last() =~= shape);
}

/// The product of two shapes laid end to end is the product of their products.
pub proof fn lemma_product_concat(front: Seq<usize>, back: Seq<usize>)
    ensures
        shape_product(front + back) == shape_product(front) * shape_product(back),
    decreases back.len(),
{
    if back.len() == 0 {
        assert(front + back =~= front);
        assert(shape_product(back) == 1);
        assert(shape_product(front) * 1 == shape_product(front));
    } else {
        lemma_product_concat(front, back.drop_last());
        assert((front + back).drop_last() =~= front + back.drop_last());
        assert((front + back).last() == back.last());
        let a = shape_product(front) as int;
        let b = shape_product(back.drop_last()) as int;
        let c = back.last() as int;
        assert(shape_product(front + back) == (a * b) * c);
        assert(shape_product(back) == b * c);
        assert((a * b) * c == a * (b * c)) by (nonlinear_arith);
    }
}

/// Reversing the axes keeps the number of elements.
pub proof fn lemma_product_reverse(shape: Seq<usize>)
    ensures
        shape_product(shape.reverse()) == shape_product(shape),
    decreases shape.len(),
{
    if shape.len() == 0 {
        assert(shape.reverse() =~= shape);
    } else {
        let head = seq![shape.last()];
        lemma_product_reverse(shape.drop_last());
        assert(shape.reverse() =~= head + shape.drop_last().reverse());
        lemma_product_concat(head, shape.drop_last().reverse());
        assert(head =~= Seq::<usize>::empty().push(shape.last()));
        lemma_product_push(Seq::<usize>::empty(), shape.last());
        assert(shape_product(Seq::<usize>::empty()) == 1);
        assert(shape_product(head) == 1 * (shape.last() as nat));
        let a = shape.last() as int;
        let b = shape_product(shape.drop_last()) as int;
        assert(a * b == b * a) by (nonlinear_arith);
    }
}

/// A shape with an axis of size zero holds no element.
pub proof fn lemma_product_zero(shape: Seq<usize>, d: int)
    requires
        0 <= d < shape.len(),
        shape[d] == 0,
    ensures
        shape_product(shape) == 0,
    decreases shape.len(),
{
    if d == shape.len() - 1 {
        let a = shape_product(shape.drop_last()) as int;
        assert(a * 0 == 0) by (nonlinear_arith);
    } else {
        lemma_product_zero(shape.drop_last(), d);
        let c = shape.last() as int;
        assert(0 * c == 0) by (nonlinear_arith);
    }
}

/// Where every axis has at least one place, the first `n` axes alone hold no
/// more elements than the whole shape, and at least one.
pub proof fn lemma_product_prefix(shape: Seq<usize>, n: int)
    requires
        0 <= n <= shape.len(),
        forall|d: int| 0 <= d < shape.len() ==> shape[d] >= 1,
    ensures
        1 <= shape_product(shape.take(n)) <= shape_product(shape),
    decreases shape.len() - n,
{
    if n == shape.len() {
        assert(shape.take(n) =~= shape);
        lemma_product_positive(shape);
    } else {
        lemma_product_prefix(shape, n + 1);
        assert(shape.take(n + 1).drop_last() =~= shape.take(n));
        let a = shape_product(shape.take(n)) as int;
        let c = shape[n] as int;
        assert(c >= 1 && a >= 0 && a * c >= 1 ==> 1 <= a <= a * c) by (nonlinear_arith);
    }
}

/// Where every axis has at least one place, the shape holds at least one
/// element.
pub proof fn lemma_product_positive(shape: Seq<usize>)
    requires
        forall|d: int| 0 <= d < shape.len() ==> shape[d] >= 1,
    ensures
        shape_product(shape) >= 1,
    decreases shape.len(),
{
    if shape.len() > 0 {
        lemma_product_positive(shape.drop_last());
        let a = shape_product(shape.drop_last()) as int;
        let c = shape.last() as int;
        assert(a >= 1 && c >= 1 ==> a * c >= 1) by (nonlinear_arith);
    }
}

/// An array of two axes or more that holds an element: every axis has a place
/// at least, and the elements are those of as many two-dimensional slices as
/// the axes after the second hold places, each of as many elements as the
/// first two axes hold.
pub proof fn lemma_slices_make_up_the_array(shape: Seq<usize>)
    requires
        shape.len() >= 2,
        shape_product(shape) > 0,
    ensures
        forall|d: int| 0 <= d < shape.len() ==> shape[d] >= 1,
        shape_product(shape) == (shape[0] * shape[1]) * shape_product(shape.skip(2)),
        1 <= shape[0] * shape[1] <= shape_product(shape),
        1 <= shape_product(shape.skip(2)) <= shape_product(shape),
{
    assert forall|d: int| 0 <= d < shape.len() implies shape[d] >= 1 by {
        if shape[d] == 0 {
            lemma_product_zero(shape, d);
        }
    }
    assert(shape =~= shape.take(2) + shape.skip(2));
    assert(shape.take(2) =~= seq![shape[0], shape[1]]);
    lemma_product_concat(shape.take(2), shape.skip(2));
    assert(shape_product(seq![shape[0], shape[1]]) == shape[0] * shape[1]) by {
        let pair = seq![shape[0], shape[1]];
        assert(pair.drop_last() =~= seq![shape[0]]);
        assert(seq![shape[0]].drop_last() =~= Seq::<usize>::empty());
        assert(shape_product(Seq::<usize>::empty()) == 1);
        assert(shape_product(seq![shape[0]]) == 1 * (shape[0] as nat));
    }
    lemma_product_positive(shape.skip(2));
    lemma_product_positive(shape.take(2));
    let block = shape[0] * shape[1];
    let above = shape_product(shape.skip(2)) as int;
    assert(block <= block * above && above <= block * above) by (nonlinear_arith)
        requires
            block >= 1,
            above >= 1,
    ;
}

/// A valid index lands inside the buffer, column-major.
pub proof fn lemma_col_major_offset_in_bounds(shape: Seq<usize>, indices: Seq<usize>)
    requires
        valid_indices(shape, indices),
    ensures
        col_major_offset(shape, indices) < shape_product(shape),
    decreases shape.len(),
{
    if shape.len() > 0 {
        lemma_col_major_offset_in_bounds(shape.drop_last(), indices.drop_last());
        let o = col_major_offset(shape.drop_last(), indices.drop_last()) as int;
        let p = shape_product(shape.drop_last()) as int;
        let x = indices.last() as int;
        let s = shape.last() as int;
        assert(0 <= o < p && 0 <= x < s ==> o + x * p < p * s) by (nonlinear_arith);
    }
}

/// A valid index lands inside the buffer, in either order.
pub proof fn lemma_offset_in_bounds(shape: Seq<usize>, order: DataOrder, indices: Seq<usize>)
    requires
        valid_indices(shape, indices),
    ensures
        offset_spec(shape, order, indices) < shape_product(shape),
{
    match order {
        DataOrder::ColMajor => {
            lemma_col_major_offset_in_bounds(shape, indices);
        },
        DataOrder::RowMajor => {
            lemma_col_major_offset_in_bounds(shape.reverse(), indices.reverse());
            lemma_product_reverse(shape);
        },
    }
}

/// The axes of a shape and of an index as the offset formula walks them: as
/// they stand for column-major, reversed for row-major.
pub open spec fn walk_order(axes: Seq<usize>, order: DataOrder) -> Seq<usize> {
    match order {
        DataOrder::ColMajor => axes,
        DataOrder::RowMajor => axes.reverse(),
    }
}

/// With one axis the offset is the index itself, in either order.
pub proof fn lemma_offset_rank_one(size: usize, order: DataOrder, i: usize)
    ensures
        offset_spec(seq![size], order, seq![i]) == i,
        shape_product(seq![size]) == size,
{
    let shape = seq![size];
    let indices = seq![i];
    assert(shape.reverse() =~= shape);
    assert(indices.reverse() =~= indices);
    assert(shape.drop_last() =~= Seq::<usize>::empty());
    assert(indices.drop_last() =~= Seq::<usize>::empty());
    assert(shape_product(Seq::<usize>::empty()) == 1);
    assert(col_major_offset(Seq::<usize>::empty(), Seq::<usize>::empty()) == 0);
    assert(col_major_offset(shape, indices) == 0 + (i as nat) * 1);
    assert(shape_product(shape) == 1 * (size as nat));
}

/// With two axes the offset has a closed form: `i + j * rows` column-major,
/// `j + i * cols` row-major.
pub proof fn lemma_offset_rank_two(rows: usize, cols: usize, i: usize, j: usize)
    ensures
        offset_spec(seq![rows, cols], DataOrder::ColMajor, seq![i, j]) == i + j * rows,
        offset_spec(seq![rows, cols], DataOrder::RowMajor, seq![i, j]) == j + i * cols,
        shape_product(seq![rows, cols]) == rows * cols,
{
    lemma_offset_rank_one(rows, DataOrder::ColMajor, i);
    lemma_offset_rank_one(cols, DataOrder::ColMajor, j);
    let shape = seq![rows, cols];
    let indices = seq![i, j];
    assert(shape.drop_last() =~= seq![rows]);
    assert(indices.drop_last() =~= seq![i]);
    assert(col_major_offset(shape, indices) == i + (j as nat) * (rows as nat));
    assert(shape.reverse() =~= seq![cols, rows]);
    assert(indices.reverse() =~= seq![j, i]);
    assert(seq![cols, rows].drop_last() =~= seq![cols]);
    assert(seq![j, i].drop_last() =~= seq![j]);
    assert(col_major_offset(seq![cols, rows], seq![j, i]) == j + (i as nat) * (cols as nat));
    assert(shape_product(shape) == (rows as nat) * (cols as nat));
}

/// Column-major, the first stride is 1 and every other stride is the stride
/// of the axis before it times that axis's size.
pub proof fn lemma_col_major_strides(shape: Seq<usize>, d: int)
    requires
        0 <= d < shape.len(),
    ensures
        stride(shape, DataOrder::ColMajor, 0) == 1,
        d > 0 ==> stride(shape, DataOrder::ColMajor, d) == stride(shape, DataOrder::ColMajor, d - 1)
            * shape[d - 1],
{
    assert(shape.take(0) =~= Seq::<usize>::empty());
    if d > 0 {
        assert(shape.take(d).drop_last() =~= shape.take(d - 1));
    }
}

/// Column-major, one step along axis `d` moves the offset by the product of
/// the sizes of the axes before `d`.
pub proof fn lemma_col_major_offset_step(shape: Seq<usize>, indices: Seq<usize>, d: int)
    requires
        indices.len() == shape.len(),
        0 <= d < shape.len(),
        indices[d] < usize::MAX,
    ensures
        col_major_offset(shape, indices.update(d, (indices[d] + 1) as usize)) == col_major_offset(
            shape,
            indices,
        ) + shape_product(shape.take(d)),
    decreases shape.len(),
{
    let moved = indices.update(d, (indices[d] + 1) as usize);
    if d == shape.len() - 1 {
        assert(moved.drop_last() =~= indices.drop_last());
        assert(shape.take(d) =~= shape.drop_last());
        let below = shape_product(shape.drop_last()) as int;
        let at = indices.last() as int;
        assert((at + 1) * below == at * below + below) by (nonlinear_arith);
    } else {
        lemma_col_major_offset_step(shape.drop_last(), indices.drop_last(), d);
        assert(moved.drop_last() =~= indices.drop_last().update(
            d,
            (indices.drop_last()[d] + 1) as usize,
        ));
        assert(shape.drop_last().take(d) =~= shape.take(d));
    }
}

/// One step along axis `d` moves the offset by the stride of that axis.
pub proof fn lemma_offset_step(shape: Seq<usize>, order: DataOrder, indices: Seq<usize>, d: int)
    requires
        indices.len() == shape.len(),
        0 <= d < shape.len(),
        indices[d] < usize::MAX,
    ensures
        offset_spec(shape, order, indices.update(d, (indices[d] + 1) as usize)) == offset_spec(
            shape,
            order,
            indices,
        ) + stride(shape, order, d),
{
    match order {
        DataOrder::ColMajor => {
            lemma_col_major_offset_step(shape, indices, d);
        },
        DataOrder::RowMajor => {
            let mirrored = shape.len() - 1 - d;
            let moved = indices.update(d, (indices[d] + 1) as usize);
            lemma_col_major_offset_step(shape.reverse(), indices.reverse(), mirrored);
            assert(moved.reverse() =~= indices.reverse().update(
                mirrored,
                (indices.reverse()[mirrored] + 1) as usize,
            ));
            assert(shape.reverse().take(mirrored) =~= shape.skip(d + 1).reverse());
            lemma_product_reverse(shape.skip(d + 1));
        },
    }
}

/// Column-major, the index of zeros has the offset zero.
pub proof fn lemma_col_major_offset_of_zeros(shape: Seq<usize>, indices: Seq<usize>)
    requires
        indices.len() == shape.len(),
        forall|d: int| 0 <= d < indices.len() ==> indices[d] == 0,
    ensures
        col_major_offset(shape, indices) == 0,
    decreases shape.len(),
{
    if shape.len() > 0 {
        lemma_col_major_offset_of_zeros(shape.drop_last(), indices.drop_last());
        let below = shape_product(shape.drop_last()) as int;
        assert(0 * below == 0) by (nonlinear_arith);
    }
}

/// The index of zeros has the offset zero, in either order. With
/// [`lemma_offset_step`] this makes the offset the sum of each index times
/// the stride of its axis.
pub proof fn lemma_offset_of_zeros(shape: Seq<usize>, order: DataOrder, indices: Seq<usize>)
    requires
        indices.len() == shape.len(),
        forall|d: int| 0 <= d < indices.len() ==> indices[d] == 0,
    ensures
        offset_spec(shape, order, indices) == 0,
{
    match order {
        DataOrder::ColMajor => {
            lemma_col_major_offset_of_zeros(shape, indices);
        },
        DataOrder::RowMajor => {
            lemma_col_major_offset_of_zeros(shape.reverse(), indices.reverse());
        },
    }
}

/// Two valid indices with one column-major offset are one index.
pub proof fn lemma_col_major_offset_is_injective(
    shape: Seq<usize>,
    indices: Seq<usize>,
    others: Seq<usize>,
)
    requires
        valid_indices(shape, indices),
        valid_indices(shape, others),
        col_major_offset(shape, indices) == col_major_offset(shape, others),
    ensures
        indices == others,
    decreases shape.len(),
{
    if shape.len() == 0 {
        assert(indices =~= others);
    } else {
        let stride = shape_product(shape.drop_last()) as int;
        let below = col_major_offset(shape.drop_last(), indices.drop_last()) as int;
        let other_below = col_major_offset(shape.drop_last(), others.drop_last()) as int;
        let last = indices.last() as int;
        let other_last = others.last() as int;
        lemma_col_major_offset_in_bounds(shape.drop_last(), indices.drop_last());
        lemma_col_major_offset_in_bounds(shape.drop_last(), others.drop_last());
        assert(last == other_last && below == other_below) by (nonlinear_arith)
            requires
                below + last * stride == other_below + other_last * stride,
                0 <= below < stride,
                0 <= other_below < stride,
                0 <= last,
                0 <= other_last,
        ;
        lemma_col_major_offset_is_injective(
            shape.drop_last(),
            indices.drop_last(),
            others.drop_last(),
        );
        assert(indices =~= indices.drop_last().push(indices.last()));
        assert(others =~= others.drop_last().push(others.last()));
    }
}

/// Two valid indices with one offset are one index, in either order: no two
/// elements of an array share a place in its buffer.
pub proof fn lemma_offset_is_injective(
    shape: Seq<usize>,
    order: DataOrder,
    indices: Seq<usize>,
    others: Seq<usize>,
)
    requires
        valid_indices(shape, indices),
        valid_indices(shape, others),
        offset_spec(shape, order, indices) == offset_spec(shape, order, others),
    ensures
        indices == others,
{
    match order {
        DataOrder::ColMajor => {
            lemma_col_major_offset_is_injective(shape, indices, others);
        },
        DataOrder::RowMajor => {
            lemma_col_major_offset_is_injective(
                shape.reverse(),
                indices.reverse(),
                others.reverse(),
            );
            assert(indices =~= indices.reverse().reverse());
            assert(others =~= others.reverse().reverse());
        },
    }
}

/// With two axes, two valid indices with one offset are one index.
pub proof fn lemma_offset_rank_two_is_injective(
    rows: usize,
    cols: usize,
    order: DataOrder,
    i: usize,
    j: usize,
    other_i: usize,
    other_j: usize,
)
    requires
        i < rows,
        j < cols,
        other_i < rows,
        other_j < cols,
        offset_spec(seq![rows, cols], order, seq![i, j]) == offset_spec(
            seq![rows, cols],
            order,
            seq![other_i, other_j],
        ),
    ensures
        i == other_i,
        j == other_j,
{
    assert(valid_indices(seq![rows, cols], seq![i, j]));
    assert(valid_indices(seq![rows, cols], seq![other_i, other_j]));
    lemma_offset_is_injective(seq![rows, cols], order, seq![i, j], seq![other_i, other_j]);
    assert(seq![i, j][0] == seq![other_i, other_j][0]);
    assert(seq![i, j][1] == seq![other_i, other_j][1]);
}

/// The number of elements of an array of shape `shape`, unless it is more
/// than any buffer can hold.
pub fn element_count(shape: &[usize]) -> (count: Option<usize>)
    ensures
        shape_product(shape@) <= usize::MAX ==> count == Some(shape_product(shape@) as usize),
        shape_product(shape@) > usize::MAX ==> count == None::<usize>,
{
    let rank: usize = shape.len();
    let mut d: usize = 0;
    while d < rank
        invariant
            d <= rank,
            rank == shape@.len(),
            forall|e: int| 0 <= e < d ==> shape@[e] >= 1,
        decreases rank - d,
    {
        if shape[d] == 0 {
            proof {
                lemma_product_zero(shape@, d as int);
            }
            return Some(0);
        }
        d += 1;
    }
    let mut product: usize = 1;
    let mut d: usize = 0;
    while d < rank
        invariant
            d <= rank,
            rank == shape@.len(),
            forall|e: int| 0 <= e < rank ==> shape@[e] >= 1,
            product == shape_product(shape@.take(d as int)),
        decreases rank - d,
    {
        proof {
            assert(shape@.take(d + 1).drop_last() =~= shape@.take(d as int));
            lemma_product_prefix(shape@, d + 1);
        }
        match product.checked_mul(shape[d]) {
            Some(next) => {
                product = next;
            },
            None => {
                return None;
            },
        }
        d += 1;
    }
    proof {
        assert(shape@.take(rank as int) =~= shape@);
    }
    Some(product)
}

/// Whether an array of shape `shape` holds exactly `len` elements.
pub fn shape_holds(shape: &[usize], len: usize) -> (holds: bool)
    ensures
        holds == (shape_product(shape@) == len),
{
    match element_count(shape) {
        Some(count) => count == len,
        None => false,
    }
}

/// The offset of the element `(i, j)` of a `rows` by `cols` matrix: the closed
/// form for two axes, equal to the general formula.
pub fn offset_rank_two(rows: usize, cols: usize, order: DataOrder, i: usize, j: usize) -> (at: usize)
    requires
        i < rows,
        j < cols,
        rows * cols <= usize::MAX,
    ensures
        at == offset_spec(seq![rows, cols], order, seq![i, j]),
        at < rows * cols,
{
    proof {
        lemma_offset_rank_two(rows, cols, i, j);
        assert(valid_indices(seq![rows, cols], seq![i, j]));
        lemma_offset_in_bounds(seq![rows, cols], order, seq![i, j]);
    }
    match order {
        DataOrder::ColMajor => {
            assert(j * rows <= rows * cols) by (nonlinear_arith)
                requires
                    j < cols,
            ;
            i + j * rows
        },
        DataOrder::RowMajor => {
            assert(i * cols <= rows * cols) by (nonlinear_arith)
                requires
                    i < rows,
                    cols >= 0,
            ;
            j + i * cols
        },
    }
}

/// The offset by the general formula, whatever the rank: each index times the
/// stride of its axis, the strides built up one axis after the other.
pub fn offset_general(shape: &[usize], order: DataOrder, indices: &[usize]) -> (at: usize)
    requires
        valid_indices(shape@, indices@),
        shape_product(shape@) <= usize::MAX,
    ensures
        at == offset_spec(shape@, order, indices@),
        at < shape_product(shape@),
{
    let rank: usize = shape.len();
    let ghost axes = walk_order(shape@, order);
    let ghost places = walk_order(indices@, order);
    proof {
        lemma_offset_in_bounds(shape@, order, indices@);
        lemma_product_reverse(shape@);
        assert(valid_indices(axes, places));
    }
    let mut at: usize = 0;
    let mut stride: usize = 1;
    let mut step: usize = 0;
    while step < rank
        invariant
            step <= rank,
            rank == shape@.len(),
            rank == indices@.len(),
            axes == walk_order(shape@, order),
            places == walk_order(indices@, order),
            valid_indices(axes, places),
            shape_product(axes) <= usize::MAX,
            stride == shape_product(axes.take(step as int)),
            at == col_major_offset(axes.take(step as int), places.take(step as int)),
        decreases rank - step,
    {
        let d: usize = match order {
            DataOrder::ColMajor => step,
            DataOrder::RowMajor => rank - 1 - step,
        };
        let size: usize = shape[d];
        let place: usize = indices[d];
        proof {
            assert(size == axes[step as int]);
            assert(place == places[step as int]);
            assert(axes.take(step + 1).drop_last() =~= axes.take(step as int));
            assert(places.take(step + 1).drop_last() =~= places.take(step as int));
            assert(valid_indices(axes.take(step as int), places.take(step as int)));
            lemma_col_major_offset_in_bounds(axes.take(step as int), places.take(step as int));
            lemma_product_prefix(axes, step + 1);
            assert(at + place * stride < stride * size && place * stride <= stride * size)
                by (nonlinear_arith)
                requires
                    at < stride,
                    place < size,
            ;
        }
        at = at + place * stride;
        stride = stride * size;
        step += 1;
    }
    proof {
        assert(axes.take(rank as int) =~= axes);
        assert(places.take(rank as int) =~= places);
    }
    at
}

/// The offset in the buffer of the element at `indices`, for an array of shape
/// `shape` laid out in `order`. It allocates nothing.
///
/// The index is refused unless it has one entry for each axis, each below the
/// size of its axis. One and two axes take a closed form; the result is that
/// of the general formula in every case.
pub fn offset(shape: &[usize], order: DataOrder, indices: &[usize]) -> (at: Result<usize, ArrayError>)
    requires
        shape_product(shape@) <= usize::MAX,
    ensures
        valid_indices(shape@, indices@) ==> at == Ok::<usize, ArrayError>(
            offset_spec(shape@, order, indices@) as usize,
        ) && offset_spec(shape@, order, indices@) < shape_product(shape@),
        !valid_indices(shape@, indices@) ==> at == Err::<usize, ArrayError>(
            ArrayError::IndexOutOfBounds,
        ),
{
    let rank: usize = shape.len();
    if indices.len() != rank {
        return Err(ArrayError::IndexOutOfBounds);
    }
    let mut d: usize = 0;
    while d < rank
        invariant
            d <= rank,
            rank == shape@.len(),
            rank == indices@.len(),
            forall|e: int| 0 <= e < d ==> indices@[e] < shape@[e],
        decreases rank - d,
    {
        if indices[d] >= shape[d] {
            return Err(ArrayError::IndexOutOfBounds);
        }
        d += 1;
    }
    proof {
        lemma_offset_in_bounds(shape@, order, indices@);
    }
    if rank == 1 {
        proof {
            assert(shape@ =~= seq![shape@[0]]);
            assert(indices@ =~= seq![indices@[0]]);
            lemma_offset_rank_one(shape@[0], order, indices@[0]);
        }
        Ok(indices[0])
    } else if rank == 2 {
        proof {
            assert(shape@ =~= seq![shape@[0], shape@[1]]);
            assert(indices@ =~= seq![indices@[0], indices@[1]]);
            lemma_offset_rank_two(shape@[0], shape@[1], indices@[0], indices@[1]);
        }
        Ok(offset_rank_two(shape[0], shape[1], order, indices[0], indices[1]))
    } else {
        Ok(offset_general(shape, order, indices))
    }
}

/// The index whose column-major offset in an array of shape `shape` is `at`:
/// the inverse of the offset formula. With the axes after the second for
/// `shape`, it tells which two-dimensional slice of an array comes `at`-th.
///
/// It is refused unless `at` is below the number of elements of the shape.
pub fn col_major_indices(shape: &[usize], at: usize) -> (found: Result<Vec<usize>, ArrayError>)
    ensures
        at < shape_product(shape@) ==> found is Ok && valid_indices(shape@, found->Ok_0@)
            && col_major_offset(shape@, found->Ok_0@) == at,
        at >= shape_product(shape@) ==> found is Err && found->Err_0
            == ArrayError::IndexOutOfBounds,
{
    let rank: usize = shape.len();
    let mut indices: Vec<usize> = Vec::with_capacity(rank);
    let mut remainder: usize = at;
    let mut d: usize = 0;
    proof {
        assert(shape@.take(0) =~= Seq::<usize>::empty());
        assert(shape_product(shape@.take(0)) == 1);
        assert(col_major_offset(shape@.take(0), indices@) == 0);
        assert(remainder * 1 == at);
    }
    while d < rank
        invariant
            d <= rank,
            rank == shape@.len(),
            indices@.len() == d,
            valid_indices(shape@.take(d as int), indices@),
            col_major_offset(shape@.take(d as int), indices@) + remainder * shape_product(
                shape@.take(d as int),
            ) == at,
        decreases rank - d,
    {
        let size: usize = shape[d];
        if size == 0 {
            proof {
                lemma_product_zero(shape@, d as int);
            }
            return Err(ArrayError::IndexOutOfBounds);
        }
        let ghost before = indices@;
        let digit: usize = remainder % size;
        let next: usize = remainder / size;
        indices.push(digit);
        proof {
            let stride = shape_product(shape@.take(d as int)) as int;
            assert(shape@.take(d + 1).drop_last() =~= shape@.take(d as int));
            assert(indices@.drop_last() =~= before);
            assert(remainder == next * size + digit) by (nonlinear_arith)
                requires
                    digit == remainder % size,
                    next == remainder / size,
                    size > 0,
            ;
            assert(digit * stride + next * (stride * size) == remainder * stride)
                by (nonlinear_arith)
                requires
                    remainder == next * size + digit,
            ;
            assert forall|e: int| 0 <= e < d + 1 implies indices@[e] < shape@.take(d + 1)[e] by {
                if e < d {
                    assert(before[e] < shape@.take(d as int)[e]);
                }
            }
        }
        remainder = next;
        d += 1;
    }
    proof {
        assert(shape@.take(rank as int) =~= shape@);
        lemma_col_major_offset_in_bounds(shape@, indices@);
        let total = shape_product(shape@) as int;
        if remainder != 0 {
            assert(remainder * total >= total) by (nonlinear_arith)
                requires
                    remainder >= 1,
                    total >= 0,
            ;
        }
    }
    if remainder != 0 {
        return Err(ArrayError::IndexOutOfBounds);
    }
    Ok(indices)
}

} // verus!
