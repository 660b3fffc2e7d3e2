//! FEEL numbers: decimal128 arithmetic and text on top of a wider decimal type.

pub mod arithmetic;
pub mod backend;
pub mod compare;
pub mod convert;
pub mod decimal;
pub mod digits;
pub mod display;
pub mod errors;
pub mod grammar;
pub mod java;
pub mod laws;
pub mod literal;
pub mod number;
pub mod number_laws;
pub mod operators;
pub mod power_laws;
pub mod powers;
pub mod remainders;
pub mod results;
pub mod rounding;
pub mod rounding_laws;
pub mod scales;
pub mod text_laws;

pub use decimal::Decimal;
pub use digits::{compare_to_half, increment};
pub use errors::NumberError;
pub use java::{evaluate_external_java_function, interpret_response, not_invoked, JavaCall, JavaRequest};
pub use number::FeelNumber;
