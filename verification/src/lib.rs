//! Configuration embedding, modelled as a verified interpreter: configuration
//! text is parsed into a `Value` tree, an ordered sequence of trees is merged
//! (deep merge for tables, replace for everything else), the merged tree is
//! compiled into a representation with canonical key encodings, and nested
//! data is read back through typed, path-directed conversion.
//!
//! A fully static rendition of this design would resolve every access at
//! build time through generated types; here the same rules are stated as
//! contracts and checked by Verus, and a rejected access is reported as an
//! error value rather than a failed build.

pub mod convert;
pub mod env;
pub mod format;
pub mod get;
pub mod key;
pub mod path;
pub mod repr;
pub mod strutil;
pub mod value;
