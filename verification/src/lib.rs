//! Point selection for one shard of a vector collection.
//!
//! * [`aggregator`] groups scored points by a payload key;
//! * [`scroll`] pages through the points of a shard by id, by the value of a
//!   field, or at random.
pub mod aggregator;
pub mod aggregator_laws;
pub mod arrange;
pub mod assoc;
pub mod collection_laws;
pub mod content_laws;
pub mod draw_laws;
pub mod error;
pub mod grouping_laws;
pub mod groups;
pub mod json;
pub mod order;
pub mod order_laws;
pub mod page_laws;
pub mod point;
pub mod random;
pub mod records;
pub mod scroll;
pub mod scroll_laws;
pub mod selection_laws;
pub mod shard_laws;
pub mod terms;
pub mod views;
