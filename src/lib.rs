//! Streaming statistics over a fixed-size sliding window of integer samples:
//! a running least-squares fit and a running median.
//!
//! Samples are `i64` values on whatever fixed-point scale the caller picks;
//! results are exact ratios of integers.
pub mod window;
pub mod value;
pub mod lin_reg;
pub mod smm;
pub mod method;

pub use lin_reg::LinReg;
pub use smm::SMM;
pub use value::{Error, Ratio};
pub use window::Window;
pub use method::Method;
