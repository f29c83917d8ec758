//! Office documents and ebooks as a small model of blocks and inlines.
//!
//! - [`html`] turns a body of (X)HTML into blocks: [`css`] reads stylesheets,
//!   [`cascade`] decides which declarations apply to an element, [`tags`],
//!   [`lists`], [`rows`] and [`grid`] say what elements, lists and tables
//!   come to. [`walk`] is the description that the conversion is held to.
//! - [`docx`] turns a Word package into a document, and [`notes`] drops the
//!   notes that only hidden content refers to.
//! - [`laws`] states what holds of all this as a whole.
//!
//! What a frontend decides by itself - where links lead, what an image is,
//! what a package holds - comes in through [`hooks`] and [`package`].
pub mod cascade;
pub mod chars;
pub mod css;
pub mod docx;
pub mod error;
pub mod grid;
pub mod hooks;
pub mod html;
pub mod inlines;
pub mod laws;
pub mod lists;
pub mod model;
pub mod notes;
pub mod number;
pub mod package;
pub mod rows;
pub mod style;
pub mod tags;
pub mod walk;
pub mod xml;
pub mod zero;
