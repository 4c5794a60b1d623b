//! Verified cores of a collection of small puzzle solvers.  The
//! centerpiece is the orthogonal-polygon rectangle search: a scanline
//! point-in-polygon oracle, a rectangle validator, and a pruned
//! parallel maximum-area search, all specified against a brute-force
//! ray-casting model.

pub mod beams;
pub mod circuits;
pub mod dial;
pub mod digitmax;
pub mod machines;
pub mod maximizer;
pub mod parsing;
pub mod polygon;
pub mod presents;
pub mod produce;
pub mod rolls;
pub mod scanline;
pub mod repdigits;
pub mod worksheet;
