//! Snapshots of a source directory of files to translate, the translatability flag of
//! each file, and the plans that mirror the untranslatable files into one directory per
//! target language.

pub mod builder;
pub mod config;
pub mod fspath;
pub mod locator;
pub mod mirror;
pub mod project;
pub mod snapshot;
