pub mod errors;
pub mod literal;
pub mod matrix;
pub mod problem;
pub mod rational;
pub mod tax;
pub mod task;
pub mod simplex;
pub mod tableau;
