//! A library for reading and writing textual, property-list-style font
//! sources: an untyped value tree with its parser and serializer, a typed
//! mapping layer with an explicit "unknown fields" catch-all, the compact
//! string encodings used for points, affine transforms and path nodes, and
//! the font/glyph/layer document model.

pub mod error;
pub mod font;
pub mod geom;
pub mod interp;
pub mod masters;
pub mod num;
pub mod parse;
pub mod plist;
pub mod roundtrip;
pub mod schema;
pub mod schema_rt;
pub mod schema_x;
pub mod ser;
pub mod text;

pub use error::{Error, SchemaError, ValueKind};
pub use font::{Anchor, Component, Font, Glyph, GuideLine, Layer, Path};
pub use geom::{Affine, FormatError, FormatTarget, Node, NodeType, Point};
pub use interp::InterpType;
pub use masters::LayerMap;
pub use num::Num;
pub use parse::{ParseError, ParseErrorKind};
pub use plist::Plist;
pub use schema_x::{load_document, save_document};
