//! An indexed skip list: a sequence of items that can be edited at any
//! position in logarithmic time, where positions are measured in a size that
//! each item reports for itself.

pub mod item;
pub mod common;
pub mod model;
pub mod node;
pub mod skiplist;
pub mod cursor;
pub mod links;
pub mod notes;
pub mod splice;
pub mod unsplice;
pub mod insert;
pub mod delete;
pub mod replace;
pub mod locate;
pub mod modify;
pub mod position;
pub mod iter;
pub mod check;
pub mod api;
pub mod laws;

pub use crate::api::Edit;
pub use crate::api::SimpleApi;
pub use crate::common::UnitItem;
pub use crate::item::userlen_of_slice;
pub use crate::item::ListItem;
pub use crate::iter::ListItemIter;
pub use crate::node::height_for;
pub use crate::node::ItemMarker;
pub use crate::node::LastMarker;
pub use crate::node::NotifyTarget;
pub use crate::node::SkipEntry;
pub use crate::skiplist::SkipList;
