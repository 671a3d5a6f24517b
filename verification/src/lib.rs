//! Standalone HTML and MHTML/MHT frontends of a document converter.
//!
//! Every function here carries a contract that Verus proves. The outside
//! crates (`encoding_rs`, `scraper`, `mail_parser`) are reached only
//! through the trusted items of `charset`, `dom` and `mhtml`.
pub mod limits;
pub mod error;
pub mod text;
pub mod tags;
pub mod preflight;
pub mod mime;
pub mod uri;
pub mod charset;
pub mod dom;
pub mod model;
pub mod html;
pub mod mhtml;
pub mod resources;
