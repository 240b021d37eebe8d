//! Parsing of DNS names, as they appear in a DNS packet, with verified contracts.
//!
//! A name is a sequence of length-prefixed labels, ended by a zero byte, where a
//! compression pointer may redirect reading to an earlier place in the packet
//! (RFC 1035 section 4.1.4, RFC 9267).
//!
//! - `model`: the label walk as spec functions, with the lemmas about it;
//! - `label_iter`: the executable walk, [`LabelIter`];
//! - `name`: [`Name`] and [`StrName`];
//! - `text`: text forms of labels, and the calls into `std::str` and `hex`;
//! - `laws`: what holds of every name.
mod error;
pub mod label_iter;
pub mod laws;
pub mod model;
pub mod name;
pub mod text;

pub use error::Error;
pub use label_iter::LabelIter;
pub use name::{Name, NameView, StrName};
