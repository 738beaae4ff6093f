//! A persistent store of travel-planning entities: locations, activities,
//! trips and transportation legs, each kept in a durable table keyed by a
//! per-kind monotonically allocated identifier.

pub mod model;
pub mod codec;
pub mod table;
pub mod totals;
pub mod store;
