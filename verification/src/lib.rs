pub mod error;
pub mod json;
pub mod pattern;
pub mod schema;
pub mod text;
pub mod validate;
pub mod suture;
pub mod compile;
pub mod stitch;
pub mod manifest;
pub mod laws;
pub mod shape;
pub mod roundtrip;
pub mod iterate;
pub mod wellformed;
pub mod outcomes;
pub mod gathered;
