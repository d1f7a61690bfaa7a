//! Smart-meter telegram ingestion: register extraction, frame assembly and
//! load queries over the stored time series.
pub mod frame;
pub mod number;
pub mod query;
