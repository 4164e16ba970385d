pub mod text;
pub mod parser;
pub mod transpiler;
pub mod macros;
pub mod bigint;
pub mod signed;
pub mod gcd;
pub mod fraction;
pub mod base;
pub mod terminal;
pub mod value;
pub mod safe_types;
pub mod bits;
pub mod random;
