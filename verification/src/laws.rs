//! What holds of the library as a whole, beyond the contract of each
//! function.
pub mod cascade;
pub mod characters;
pub mod css;
pub mod declarations;
pub mod documents;
pub mod drops;
pub mod elements;
pub mod grid;
pub mod hidden;
pub mod ink;
pub mod lines;
pub mod lists;
pub mod notes;
pub mod numbers;
pub mod output;
pub mod parts;
pub mod sections;
pub mod selectors;
pub mod spans;
pub mod style;
pub mod tags;
pub mod text;
pub mod views;
pub mod walk;
pub mod words;
