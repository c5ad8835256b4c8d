//! Two checksums computed side by side, CRC-32C (Castagnoli) and CRC-64/XZ,
//! in one go, incrementally, or over a rolling window, with runs of zero
//! bytes folded in at constant cost.

pub mod crc;
pub mod dual_crc;
pub mod gf;
pub mod rolling_dual_crc;
pub mod tables;
pub mod zeros;

pub use crate::dual_crc::DualCrc;
pub use crate::rolling_dual_crc::RollingDualCrc;
pub use crate::zeros::Zeros;
