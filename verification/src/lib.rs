//! An on-demand CPU profiling pipeline: filter and aggregate captured call
//! stacks into a report, encode the report in the profile wire format and
//! compress it.

pub mod aggregate;
pub mod compress;
pub mod decode;
pub mod encode;
pub mod error;
pub mod frame;
pub mod report;
pub mod sampler;
pub mod session;
pub mod table;
pub mod wire;
