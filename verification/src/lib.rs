//! Vectorized push-down query execution: a columnar batch data model,
//! pull-based executors, a hash aggregation engine with a fast and a slow
//! grouping strategy, and the error taxonomy they report through.

pub mod aggr;
pub mod codec;
pub mod data;
pub mod error;
pub mod exec;
pub mod expr;
pub mod scan;

