use vstd::prelude::*;

use crate::element::Element;

verus! {

/// A band matrix.
///
/// The stored diagonals lie one after another in the buffer, each padded to
/// the number of columns.
#[derive(Clone, Debug, PartialEq)]
pub struct Band<T: Element> {
    /// The number of rows.
    pub rows: usize,
    /// The number of columns.
    pub columns: usize,
    /// The number of stored diagonals above the main one.
    pub superdiagonals: usize,
    /// The number of stored diagonals below the main one.
    pub subdiagonals: usize,
    /// The stored diagonals.
    pub values: Vec<T>,
}

impl<T: Element> Band<T> {
    /// The buffer holds each stored diagonal at full width.
    pub open spec fn wf(&self) -> bool {
        self.values@.len() == (self.superdiagonals + self.subdiagonals + 1) * self.columns
    }
}

} // verus!
