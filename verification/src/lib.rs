//! A time-indexed photo archive for a network camera.
//!
//! Raw camera samples are decoded to RGB images ([`frame`]), captured photos
//! are kept in an index ordered by capture time ([`photo_index`]), an operator
//! selects a time range with a small query language ([`predicate`]), and the
//! selected photos are packaged into one archive while progress is reported
//! ([`archive`]).

pub mod archive;
pub mod calendar;
pub mod capture;
pub mod directory;
pub mod durable;
pub mod frame;
pub mod order;
pub mod packaging;
pub mod photo_index;
pub mod predicate;
pub mod text;
