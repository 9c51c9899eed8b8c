//! Loading, binary decoding and link-time resolution for Java class files.
//!
//! The crate decodes the nested binary class-file format into typed records,
//! parses field and method descriptors, and drives a cycle-safe class loading
//! engine that resolves super-class chains on demand.  Decoding is proved to
//! be the exact inverse of the record encoders, and the loading engine's
//! contracts pin down which fault every malformed or inconsistent input
//! produces.

#![allow(non_camel_case_types)]
#![allow(non_snake_case)]

pub mod attribute;
pub mod class;
pub mod class_array;
pub mod class_file;
pub mod class_loader;
pub mod class_path;
pub mod codec;
pub mod constant_pool;
pub mod field;
pub mod lazy;
pub mod method;
