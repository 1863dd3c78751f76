//! Selections along the axes of an array. What a selection keeps of each axis
//! is worked out here; taking the selected elements out is deferred.

use vstd::prelude::*;
use crate::array::Array;
use crate::error::ArrayError;
use crate::scalar::Scalar;

verus! {

/// What a selection takes of one axis.
#[derive(Debug, Clone, Copy)]
pub enum Axes {
    /// The whole axis.
    FullAxis,
    /// The places from the first number to the second, both included.
    Range(usize, usize),
    /// One place, which removes the axis.
    Slot(usize),
}

/// The number of places that `axis` keeps of an axis of size `size`: the size
/// for the whole axis, the length of a range, and 0 for a single place, whose
/// axis disappears.
pub open spec fn axis_extent(size: usize, axis: Axes) -> int {
    match axis {
        Axes::FullAxis => size as int,
        Axes::Range(from, to) => to - from + 1,
        Axes::Slot(_) => 0,
    }
}

/// A selection fits a shape when it says something of every axis, and each of
/// its ranges runs forward and has a length that a `usize` can hold.
pub open spec fn selection_fits(shape: Seq<usize>, slices: Seq<Axes>) -> bool {
    &&& slices.len() == shape.len()
    &&& forall|d: int|
        0 <= d < slices.len() ==> (#[trigger] slices[d] matches Axes::Range(from, to) ==> from
            <= to && to - from < usize::MAX)
}

/// What a selection keeps of each axis of a shape.
pub open spec fn slice_indicator(shape: Seq<usize>, slices: Seq<Axes>) -> Seq<usize> {
    Seq::new(shape.len(), |d: int| axis_extent(shape[d], slices[d]) as usize)
}

/// The shape of what is selected: what the selection keeps of each axis, the
/// axes of which it keeps nothing left out.
pub open spec fn sliced_shape(shape: Seq<usize>, slices: Seq<Axes>) -> Seq<usize> {
    slice_indicator(shape, slices).filter(|extent: usize| extent != 0)
}

impl<T: Scalar> Array<T> {
    /// Whether a selection says something of every axis.
    fn check_slice_legitimacy(&self, slices: &[Axes]) -> (legitimate: bool)
        ensures
            legitimate == (slices@.len() == self@.shape.len()),
    {
        self.rank() == slices.len()
    }

    /// A view of the selected part of the array. Taking elements out is
    /// deferred: a selection that says something of every axis is answered
    /// with [`ArrayError::NotImplemented`], whatever it says of them, and any
    /// other with [`ArrayError::IndexOutOfBounds`].
    pub fn slice_view(&self, slices: &[Axes]) -> (result: Result<&Array<T>, ArrayError>)
        ensures
            result is Err,
            result->Err_0 == if slices@.len() == self@.shape.len() {
                ArrayError::NotImplemented
            } else {
                ArrayError::IndexOutOfBounds
            },
    {
        if !self.check_slice_legitimacy(slices) {
            return Err(ArrayError::IndexOutOfBounds);
        }
        Err(ArrayError::NotImplemented)
    }

    /// The selected part of the array as an array of its own. Taking elements
    /// out is deferred: a selection that says something of every axis is
    /// answered with [`ArrayError::NotImplemented`], whatever it says of them,
    /// and any other with [`ArrayError::IndexOutOfBounds`]. The array is left
    /// as it was.
    pub fn slice(&mut self, slices: &[Axes]) -> (result: Result<Array<T>, ArrayError>)
        ensures
            final(self)@ == old(self)@,
            result is Err,
            result->Err_0 == if slices@.len() == old(self)@.shape.len() {
                ArrayError::NotImplemented
            } else {
                ArrayError::IndexOutOfBounds
            },
    {
        if !self.check_slice_legitimacy(slices) {
            return Err(ArrayError::IndexOutOfBounds);
        }
        Err(ArrayError::NotImplemented)
    }

    /// What a selection keeps of each axis: the size of an axis taken whole,
    /// the length of a range, and 0 in place of an axis of which one place is
    /// taken.
    ///
    /// The selection is refused unless it fits the shape.
    pub fn compute_slice_indicator_vector(&self, slices: &[Axes]) -> (result: Result<
        Vec<usize>,
        ArrayError,
    >)
        ensures
            selection_fits(self@.shape, slices@) ==> result is Ok && result->Ok_0@
                == slice_indicator(self@.shape, slices@),
            !selection_fits(self@.shape, slices@) ==> result is Err && result->Err_0
                == ArrayError::IndexOutOfBounds,
    {
        if !self.check_slice_legitimacy(slices) {
            return Err(ArrayError::IndexOutOfBounds);
        }
        let shape = self.shape();
        let rank: usize = slices.len();
        let mut indicator: Vec<usize> = Vec::with_capacity(rank);
        let mut d: usize = 0;
        while d < rank
            invariant
                d <= rank,
                rank == slices@.len(),
                rank == shape@.len(),
                shape@ == self@.shape,
                indicator@.len() == d,
                forall|e: int|
                    0 <= e < d ==> (#[trigger] slices@[e] matches Axes::Range(from, to) ==> from
                        <= to && to - from < usize::MAX),
                forall|e: int|
                    0 <= e < d ==> #[trigger] indicator@[e] == axis_extent(shape@[e], slices@[e]),
            decreases rank - d,
        {
            match slices[d] {
                Axes::FullAxis => {
                    indicator.push(shape[d]);
                },
                Axes::Range(from, to) => {
                    if from > to || to - from == usize::MAX {
                        return Err(ArrayError::IndexOutOfBounds);
                    }
                    indicator.push(to - from + 1);
                },
                Axes::Slot(_) => {
                    indicator.push(0);
                },
            }
            d += 1;
        }
        proof {
            assert(indicator@ =~= slice_indicator(self@.shape, slices@));
        }
        Ok(indicator)
    }

    /// The shape of what a selection selects: what it keeps of each axis, the
    /// axes of which it keeps nothing left out.
    ///
    /// The selection is refused unless it fits the shape.
    pub fn compute_new_shape(&self, slices: &[Axes]) -> (result: Result<Vec<usize>, ArrayError>)
        ensures
            selection_fits(self@.shape, slices@) ==> result is Ok && result->Ok_0@ == sliced_shape(
                self@.shape,
                slices@,
            ),
            !selection_fits(self@.shape, slices@) ==> result is Err && result->Err_0
                == ArrayError::IndexOutOfBounds,
    {
        let indicator = match self.compute_slice_indicator_vector(slices) {
            Ok(indicator) => indicator,
            Err(error) => {
                return Err(error);
            },
        };
        let ghost kept = |extent: usize| extent != 0;
        let len: usize = indicator.len();
        let mut shape: Vec<usize> = Vec::with_capacity(len);
        let mut d: usize = 0;
        proof {
            reveal(Seq::filter);
            assert(indicator@.take(0) =~= Seq::<usize>::empty());
        }
        while d < len
            invariant
                d <= len,
                len == indicator@.len(),
                kept == (|extent: usize| extent != 0),
                shape@ == indicator@.take(d as int).filter(kept),
            decreases len - d,
        {
            proof {
                reveal(Seq::filter);
                assert(indicator@.take(d + 1).drop_last() =~= indicator@.take(d as int));
            }
            if indicator[d] != 0 {
                shape.push(indicator[d]);
            }
            d += 1;
        }
        proof {
            assert(indicator@.take(len as int) =~= indicator@);
        }
        Ok(shape)
    }
}

} // verus!
