//! Read-only probe for basic Linux host telemetry.
//!
//! The probe answers three independent queries: the kernel release string,
//! the system uptime in seconds and the available memory in kilobytes. The
//! operating system hands each query raw text (a command's standard output
//! or a pseudo-file's content); everything after that read — token scanning,
//! numeral parsing and error classification — is implemented and verified
//! here. Callers perform the read and pass the bytes in.

pub mod decimal;
pub mod error;
pub mod laws;
pub mod probe;
pub mod text;

pub use crate::decimal::Decimal;
pub use crate::error::SysInfoLinuxError;
pub use crate::probe::SystemInfo;
