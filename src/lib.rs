//! A catalogue of retro-game metadata: reading game records out of XML
//! databases, re-extracting a game's XML fragment, deriving filter facets,
//! querying the resulting index, and the small pieces of logic that a
//! front end needs around it (highlighting, file names, thumbnails).

pub mod text;
pub mod events;
pub mod platform;
pub mod games;
pub mod extract;
pub mod index;
pub mod query;
pub mod highlight;
pub mod xml_spans;
pub mod names;
pub mod thumbnails;
pub mod image_cache;
