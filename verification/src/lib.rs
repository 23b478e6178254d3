//! Filter-join of RNAcentral Rfam annotations against an identifier set.
//!
//! The library reads two tab-separated inputs as text: an identifier file
//! (header row plus one identifier per row in the first column) and an
//! annotation table (nine fixed columns, no header).  It builds the set of
//! identifiers, keeps exactly the annotation rows whose identifier is in the
//! set, groups them by identifier in first-occurrence order, and can render
//! the grouped result as JSON.

pub mod groups;
pub mod idset;
pub mod json;
pub mod join;
pub mod num;
pub mod rnacentral;
pub mod text;

pub use groups::AnnotationMap;
pub use idset::IdentifierSet;
pub use rnacentral::{ParseError, RfamAnnotation, parse, load_identifiers, parse_annotations,
    filter_join};
