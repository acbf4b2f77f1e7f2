//! Ingestion core of a sensor telemetry gateway: checks the wire form of a
//! telemetry record, decodes it, builds a timestamped data point and decides
//! the response that a device receives.

pub mod schema;
pub mod decode;
pub mod point;
pub mod gateway;
