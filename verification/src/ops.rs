//! Predefined monoids.

pub mod add;
pub mod affine;
pub mod assign;
pub mod assign_or;
pub mod bit_and;
pub mod bit_or;
pub mod bit_xor;
pub mod gcd;
pub mod lcm;
pub mod max;
pub mod min;
pub mod mul;

pub use add::Add;
pub use affine::Affine;
pub use assign::Assign;
pub use assign_or::AssignOr;
pub use bit_and::BitAnd;
pub use bit_or::BitOr;
pub use bit_xor::BitXor;
pub use gcd::GCD;
pub use lcm::LCM;
pub use max::Max;
pub use min::Min;
pub use mul::Mul;
