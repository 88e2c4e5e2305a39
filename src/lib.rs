//! Watch-progress records for serialized media: a title-keyed store of
//! entries, their one-line text format, and episode ranges.

pub mod entry;
pub mod episodes;
pub mod memories;
pub mod text;
