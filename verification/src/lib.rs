pub mod cache;
pub mod chdio;
pub mod classify;
pub mod fscore;
pub mod geometry;
pub mod index;
pub mod laws;
pub mod track;
pub mod view;
