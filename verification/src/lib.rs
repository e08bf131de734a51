//! Sample-library analysis for Ableton Live projects: taxonomy flattening,
//! sample classification, artifact filtering, de-duplication, ranking, and
//! the `.als` project-file reader.

pub mod cancel;
pub mod text;
pub mod paths;
pub mod error;
pub mod taxonomy;
pub mod parse;
pub mod classify;
pub mod dedup;
pub mod rank;
pub mod readonly;
pub mod discover;
pub mod copy;
pub mod scan;
