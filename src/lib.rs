//! Metadata records of terahertz measurements (the dotThz convention), and
//! their layout as attributes of a group in a hierarchical container.
//!
//! The library computes which attributes a record is written as, and which
//! record a group's attributes stand for; reading and writing the container
//! itself is left to the caller.
pub mod annotations;
pub mod codec;
pub mod descriptor;
pub mod identity;
pub mod meta;
pub mod round_trip;
pub mod text;

pub use codec::{decode_meta_data, encode_meta_data, stale_annotation_names, AttrValue, Attribute};
pub use descriptor::{pack, unpack};
pub use identity::{compose_identity, parse_identity};
pub use meta::DotthzMetaData;
