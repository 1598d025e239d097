//! The arrays that the solver is handed: the dense array of expected best
//! qualities, indexed by instance, algorithm and number of replicas, and the
//! one-dimensional arrays of values and of algorithms.
use vstd::prelude::*;
use ndarray::{Array1, Array3, ShapeError};
use crate::datastructures::Algorithm;

verus! {

/// The error type of `ndarray` for shapes. Its values are carried through
/// unopened.
#[verifier::external_type_specification]
#[verifier::external_body]
pub struct ExShapeError(ndarray::ShapeError);

/// A rank-3 array of qualities, held by `ndarray`.
#[verifier::external_body]
pub struct QualityTensor {
    cells: Array3<u64>,
}

/// The elements of the array, row by row: the last axis runs fastest.
pub uninterp spec fn tensor_cells(tensor: QualityTensor) -> Seq<u64>;

/// The lengths of the three axes of the array.
pub uninterp spec fn tensor_shape(tensor: QualityTensor) -> Seq<int>;

/// An axis of length zero does not count towards the size that `ndarray`
/// checks.
pub open spec fn axis_unit(length: int) -> int {
    if length == 0 {
        1
    } else {
        length
    }
}

/// The shape that an array of `ndarray` over `len` elements can have: the
/// axis lengths multiply to `len`, and the axis lengths other than zero
/// multiply to at most `isize::MAX`.
pub open spec fn shape_fits(d0: int, d1: int, d2: int, len: int) -> bool {
    &&& d0 * d1 * d2 == len
    &&& axis_unit(d0) * axis_unit(d1) * axis_unit(d2) <= isize::MAX
}

/// The place of the element `(i, j, s)` in the row-by-row order.
pub open spec fn flat_index(shape: Seq<int>, i: int, j: int, s: int) -> int {
    (i * shape[1] + j) * shape[2] + s
}

/// Calls `Array3::from_shape_vec` of `ndarray` with a plain shape. The
/// contract claims that the call succeeds exactly on the shapes described by
/// [`shape_fits`], and that the array then has the given shape and holds the
/// given elements in row-by-row order.
#[verifier::external_body]
fn array_from_shape_vec(d0: usize, d1: usize, d2: usize, cells: Vec<u64>) -> (r: Result<QualityTensor, ShapeError>)
    ensures
        r is Ok <==> shape_fits(d0 as int, d1 as int, d2 as int, cells@.len() as int),
        r is Ok ==> tensor_shape(r->Ok_0) == seq![d0 as int, d1 as int, d2 as int] && tensor_cells(
            r->Ok_0,
        ) == cells@,
{
    match Array3::from_shape_vec((d0, d1, d2), cells) {
        Ok(cells) => Ok(QualityTensor { cells }),
        Err(e) => Err(e),
    }
}

/// Calls `dim` of `ndarray`: the lengths of the three axes.
#[verifier::external_body]
fn array_dim(tensor: &QualityTensor) -> (d: (usize, usize, usize))
    ensures
        tensor_shape(*tensor) == seq![d.0 as int, d.1 as int, d.2 as int],
{
    tensor.cells.dim()
}

/// Indexes the array of `ndarray` with `[i, j, s]`, which is defined for
/// indices within the shape.
#[verifier::external_body]
fn array_get(tensor: &QualityTensor, i: usize, j: usize, s: usize) -> (value: u64)
    requires
        tensor_shape(*tensor).len() == 3,
        i < tensor_shape(*tensor)[0],
        j < tensor_shape(*tensor)[1],
        s < tensor_shape(*tensor)[2],
    ensures
        value == tensor_cells(*tensor)[flat_index(tensor_shape(*tensor), i as int, j as int,
            s as int)],
{
    tensor.cells[[i, j, s]]
}

/// Why elements do not form an array of a given shape.
#[derive(Debug, Clone, Copy, PartialEq, Eq)]
pub enum TensorError {
    /// The number of elements is not the one the shape asks for, or the shape
    /// is too large.
    Shape,
}

impl QualityTensor {
    /// The elements of the array in row-by-row order.
    pub open spec fn cells(self) -> Seq<u64> {
        tensor_cells(self)
    }

    /// The lengths of the axes of the array.
    pub open spec fn shape(self) -> Seq<int> {
        tensor_shape(self)
    }

    /// Arranges elements, given row by row, as an array of the shape
    /// `(d0, d1, d2)`.
    pub fn from_cells(d0: usize, d1: usize, d2: usize, cells: Vec<u64>) -> (r: Result<QualityTensor, TensorError>)
        ensures
            r is Ok <==> shape_fits(d0 as int, d1 as int, d2 as int, cells@.len() as int),
            r is Ok ==> r->Ok_0.shape() == seq![d0 as int, d1 as int, d2 as int] && r->Ok_0.cells()
                == cells@,
    {
        match array_from_shape_vec(d0, d1, d2, cells) {
            Ok(tensor) => Ok(tensor),
            Err(_) => Err(TensorError::Shape),
        }
    }

    /// The lengths of the three axes.
    pub fn dim(&self) -> (d: (usize, usize, usize))
        ensures
            self.shape() == seq![d.0 as int, d.1 as int, d.2 as int],
    {
        array_dim(self)
    }

    /// The element at `(i, j, s)`, if the array has one there.
    pub fn get(&self, i: usize, j: usize, s: usize) -> (r: Option<u64>)
        ensures
            self.shape().len() == 3,
            r is Some <==> i < self.shape()[0] && j < self.shape()[1] && s < self.shape()[2],
            r is Some ==> r->Some_0 == self.cells()[flat_index(self.shape(), i as int, j as int,
                s as int)],
    {
        let (d0, d1, d2) = array_dim(self);
        if i < d0 && j < d1 && s < d2 {
            Some(array_get(self, i, j, s))
        } else {
            None
        }
    }
}

/// A one-dimensional array of numbers, held by `ndarray`.
#[verifier::external_body]
pub struct ValueArray {
    values: Array1<u64>,
}

/// The elements of the array in their order.
pub uninterp spec fn value_array_items(array: ValueArray) -> Seq<u64>;

/// Calls `Array1::from_vec` of `ndarray`, which keeps the elements and their
/// order.
#[verifier::external_body]
fn values_from_vec(values: Vec<u64>) -> (array: ValueArray)
    ensures
        value_array_items(array) == values@,
{
    ValueArray { values: Array1::from_vec(values) }
}

/// Calls `len` of `ndarray`: the number of elements.
#[verifier::external_body]
fn values_len(array: &ValueArray) -> (n: usize)
    ensures
        n == value_array_items(*array).len(),
{
    array.values.len()
}

/// Indexes the array of `ndarray`, which is defined for an index below the
/// number of elements.
#[verifier::external_body]
fn values_get(array: &ValueArray, i: usize) -> (value: u64)
    requires
        i < value_array_items(*array).len(),
    ensures
        value == value_array_items(*array)[i as int],
{
    array.values[i]
}

impl View for ValueArray {
    type V = Seq<u64>;

    open spec fn view(&self) -> Seq<u64> {
        value_array_items(*self)
    }
}

impl ValueArray {
    /// The array of the given elements.
    pub fn from_vec(values: Vec<u64>) -> (array: ValueArray)
        ensures
            array@ == values@,
    {
        values_from_vec(values)
    }

    /// The number of elements.
    pub fn len(&self) -> (n: usize)
        ensures
            n == self@.len(),
    {
        values_len(self)
    }

    /// The element at `i`, if there is one.
    pub fn get(&self, i: usize) -> (r: Option<u64>)
        ensures
            r is Some <==> i < self@.len(),
            r is Some ==> r->Some_0 == self@[i as int],
    {
        if i < values_len(self) {
            Some(values_get(self, i))
        } else {
            None
        }
    }

    /// The elements as a vector.
    pub fn to_vec(&self) -> (values: Vec<u64>)
        ensures
            values@ == self@,
    {
        let n = values_len(self);
        let mut values: Vec<u64> = Vec::new();
        let mut i: usize = 0;
        while i < n
            invariant
                i <= n,
                n == self@.len(),
                values@ == self@.take(i as int),
            decreases n - i,
        {
            values.push(values_get(self, i));
            proof {
                assert(self@.take(i + 1) =~= self@.take(i as int).push(self@[i as int]));
            }
            i += 1;
        }
        proof {
            assert(self@.take(n as int) =~= self@);
        }
        values
    }
}

/// A one-dimensional array of algorithms, held by `ndarray`.
#[verifier::external_body]
pub struct AlgorithmArray {
    algorithms: Array1<Algorithm>,
}

/// The elements of the array in their order.
pub uninterp spec fn algorithm_array_items(array: AlgorithmArray) -> Seq<Algorithm>;

/// Calls `Array1::from_vec` of `ndarray`, which keeps the elements and their
/// order.
#[verifier::external_body]
fn algorithms_from_vec(algorithms: Vec<Algorithm>) -> (array: AlgorithmArray)
    ensures
        algorithm_array_items(array) == algorithms@,
{
    AlgorithmArray { algorithms: Array1::from_vec(algorithms) }
}

/// Calls `len` of `ndarray`: the number of elements.
#[verifier::external_body]
fn algorithms_len(array: &AlgorithmArray) -> (n: usize)
    ensures
        n == algorithm_array_items(*array).len(),
{
    array.algorithms.len()
}

/// Indexes the array of `ndarray`, which is defined for an index below the
/// number of elements.
#[verifier::external_body]
fn algorithms_get(array: &AlgorithmArray, i: usize) -> (algorithm: &Algorithm)
    requires
        i < algorithm_array_items(*array).len(),
    ensures
        *algorithm == algorithm_array_items(*array)[i as int],
{
    &array.algorithms[i]
}

impl View for AlgorithmArray {
    type V = Seq<Algorithm>;

    open spec fn view(&self) -> Seq<Algorithm> {
        algorithm_array_items(*self)
    }
}

impl AlgorithmArray {
    /// The array of the given elements.
    pub fn from_vec(algorithms: Vec<Algorithm>) -> (array: AlgorithmArray)
        ensures
            array@ == algorithms@,
    {
        algorithms_from_vec(algorithms)
    }

    /// The number of elements.
    pub fn len(&self) -> (n: usize)
        ensures
            n == self@.len(),
    {
        algorithms_len(self)
    }

    /// The element at `i`, if there is one.
    pub fn get(&self, i: usize) -> (r: Option<&Algorithm>)
        ensures
            r is Some <==> i < self@.len(),
            r is Some ==> *r->Some_0 == self@[i as int],
    {
        if i < algorithms_len(self) {
            Some(algorithms_get(self, i))
        } else {
            None
        }
    }

    /// The elements as a vector.
    pub fn to_vec(&self) -> (algorithms: Vec<Algorithm>)
        ensures
            algorithms@ == self@,
    {
        let n = algorithms_len(self);
        let mut algorithms: Vec<Algorithm> = Vec::new();
        let mut i: usize = 0;
        while i < n
            invariant
                i <= n,
                n == self@.len(),
                algorithms@ == self@.take(i as int),
            decreases n - i,
        {
            algorithms.push(algorithms_get(self, i).clone());
            proof {
                assert(self@.take(i + 1) =~= self@.take(i as int).push(self@[i as int]));
            }
            i += 1;
        }
        proof {
            assert(self@.take(n as int) =~= self@);
        }
        algorithms
    }
}

} // verus!
