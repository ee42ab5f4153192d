//! Storage formats for rectangular matrices (dense, diagonal, banded,
//! triangular and compressed sparse), the conversions between them, and the
//! sparse arithmetic kernels.
//!
//! Every format is generic over an [`Element`]; the kernels also need a
//! [`Number`]. Each format states its invariant as a `wf` spec function, and
//! each conversion states, entry by entry, the matrix it produces.
pub mod algebra;
pub mod band;
pub mod compressed;
pub mod dense;
pub mod diagonal;
pub mod element;
pub mod shape;
pub mod triangular;

pub use band::Band;
pub use compressed::Compressed;
pub use dense::Dense;
pub use diagonal::Diagonal;
pub use element::{Element, Number};
pub use shape::{Major, Part, Shape};
pub use triangular::Triangular;
