//! Tooling for working on the launcher: what a frame drawn without a compositor
//! measures out to, and the file those measurements are kept in.
pub mod measure;
pub mod reference;
