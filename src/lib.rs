//! Parsing, inspecting, changing and writing out URIs after RFC 3986, without allocation: every
//! part of a parsed URI is a view into the text it was parsed from, and percent-encoded octets
//! stay as they are.
pub mod error;
pub mod grammar;
pub mod laws;
pub mod model;
pub mod parser;
pub mod render;
pub mod scan;
pub mod segments;
mod stable;
mod text;
pub mod uri;

pub use error::Error;
pub use render::Buffer;
pub use uri::{FromUri, Host, ToUri, Uri};
