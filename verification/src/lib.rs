//! Ranking of browser search suggestions: query tokenisation, URL
//! normalisation and match scoring, verified with Verus.

pub mod processing;
pub mod scoring;
pub mod text;
pub mod types;
pub mod url_utils;
