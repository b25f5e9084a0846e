//! Segment tree variants over caller-supplied algebra.
//!
//! |                            | range query | range update | note                               |
//! | -------------------------- | ----------- | ------------ | ---------------------------------- |
//! | [`SegmentTree`]            | yes         | no           |                                    |
//! | [`DynamicSegmentTree`]     | yes         | no           | large or negative index domains    |
//! | [`DualSegmentTree`]        | no          | yes          |                                    |
//! | [`LazySegmentTree`]        | yes         | yes          |                                    |
//! | [`DynamicLazySegmentTree`] | yes         | yes          | large or negative index domains    |
//! | [`AssignSegmentTree`]      | yes         | yes          | updates are range assignments      |
//!
//! Every engine is generic over a [`Monoid`] or a [`MonoidAction`]; the laws of
//! the algebra are proof obligations of the trait, and each engine's contract
//! is stated over the plain sequence (or map) of elements it represents.

pub mod acts;
pub mod algebra;
pub mod assign;
mod bits;
pub mod dual;
pub mod dynamic;
pub mod dynamic_lazy;
pub mod lazy;
pub mod normal;
pub mod ops;
pub mod ring;
pub mod traits;
pub mod utility;

pub use assign::AssignSegmentTree;
pub use dual::DualSegmentTree;
pub use dynamic::DynamicSegmentTree;
pub use dynamic_lazy::DynamicLazySegmentTree;
pub use lazy::LazySegmentTree;
pub use normal::SegmentTree;
pub use traits::{Monoid, MonoidAction, Size};
pub use utility::RangeArg;
