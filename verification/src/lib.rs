//! A verified mirror of a catalog event stream: records arriving as
//! (key, value) byte pairs are kept in a raw family and, where the value
//! decodes to a status projection, in a projection family, which a
//! status-filtered scan serves for audit queries.

pub mod codec;
pub mod consumer;
pub mod query;
pub mod record;
pub mod store;
