//! Inspection of compiled Java class archives: a verified resolver that turns
//! compact method-descriptor strings into structured type trees, and the
//! orchestration that applies it to every method of every class in an archive.

pub mod jar_analyzer;
pub mod type_resolver;
