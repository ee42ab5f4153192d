use vstd::prelude::*;

verus! {

/// The shape of a matrix given to a constructor.
#[derive(Clone, Copy, Debug, PartialEq, Eq, Structural)]
pub enum Shape {
    /// A square matrix of the given size.
    Square(usize),
    /// A matrix with the given numbers of rows and columns.
    Rectangular(usize, usize),
}

impl Shape {
    /// The number of rows that the shape describes.
    pub open spec fn spec_rows(self) -> usize {
        match self {
            Shape::Square(size) => size,
            Shape::Rectangular(rows, _) => rows,
        }
    }

    /// The number of columns that the shape describes.
    pub open spec fn spec_columns(self) -> usize {
        match self {
            Shape::Square(size) => size,
            Shape::Rectangular(_, columns) => columns,
        }
    }

    /// Returns the numbers of rows and columns.
    pub fn dimensions(self) -> (r: (usize, usize))
        ensures
            r == (self.spec_rows(), self.spec_columns()),
    {
        match self {
            Shape::Square(size) => (size, size),
            Shape::Rectangular(rows, columns) => (rows, columns),
        }
    }
}

/// The axis along which a compressed matrix groups its nonzeros.
#[derive(Clone, Copy, Debug, PartialEq, Eq, Structural)]
pub enum Major {
    /// Offsets delimit rows; indices are column positions.
    Row,
    /// Offsets delimit columns; indices are row positions.
    Column,
}

/// The half of a triangular matrix that is stored.
#[derive(Clone, Copy, Debug, PartialEq, Eq, Structural)]
pub enum Part {
    /// Entries on and below the diagonal.
    Lower,
    /// Entries on and above the diagonal.
    Upper,
}

/// The smaller of two sizes.
pub open spec fn min_size(a: usize, b: usize) -> usize {
    if a < b {
        a
    } else {
        b
    }
}

} // verus!
