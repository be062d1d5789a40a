//! Tags embedded in file names, in the form `name[tag1 tag2].ext`.
//!
//! A name is split once, when it is read, into the bytes before the tag
//! segment, the set of tags, and the bytes after it. Tags can then be added
//! and removed, and the name written back in a canonical form.
pub mod order;
pub mod tagset;
pub mod scan;
pub mod name_tag;
pub mod laws;

pub use name_tag::{NameTag, NameTagError};
