//! Accumulating diagnostics while checking the attributes of a declaration.
//!
//! Attribute entries are collected block by block, then checked for repeated
//! kinds and for kinds that tolerate no company. Every check hands back a
//! best-effort value together with whatever it had to complain about.

pub mod attr;
pub mod error;
pub mod theorems;

pub use attr::{
    check_exclusive, known_attribute, parse_attrs, resolve_kind, scan_blocks, unique, AttrBlock,
    AttrNamespace, Kind, Tagged, WithSpan,
};
pub use error::{MaybeError, OkMaybe};
