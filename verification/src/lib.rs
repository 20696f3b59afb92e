//! Space-time identifiers on a power-of-two grid, and sets of them.
//!
//! A [`id::SpaceTimeId`] names a box of cells: a zoom level, one range on each
//! of the three spatial axes, a time interval length and a range of time
//! indices. A [`set::SpaceTimeIdSet`] holds such boxes and offers union,
//! intersection, complement and comparison of the volumes they cover.

pub mod id;
pub mod laws;
pub mod set;
