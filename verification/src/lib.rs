//! Quran search core: Arabic normalization, the query language, the
//! root/lemma index and the construction of full-text search queries.
pub mod db;
pub mod parser;
pub mod text;
pub mod normalize;
pub mod roots;
pub mod search;
