pub mod alp;
pub mod bitplane;
pub mod error;

pub use alp::Control;
pub use alp::DataFormat;
pub use bitplane::Bitplanes;
pub use error::AlpError;
pub use error::AlpResult;
