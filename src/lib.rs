//! Reshapes nested JSON documents into flat records, driven by a table of
//! "destination field -> dotted source path" rules, together with the small
//! decisions of the scanning service built around it.
//!
//! - `json`: the JSON values the library works on, and their model.
//! - `mapping`: compiling a rule table and projecting documents with it.
//! - `laws`: what holds of every projection.
//! - `auth`, `response`, `crawl`, `store`: checking API keys, checking the
//!   scanning service's answers, crawl requests and targets, and the rows
//!   stored for a projected value.
pub mod json;
pub mod mapping;
pub mod laws;
pub mod auth;
pub mod response;
pub mod crawl;
pub mod store;
