//! Tools for preparing translated web-novel chapters: fetching a chapter
//! from syosetu.com, renaming characters through a rule file, rendering
//! parallel texts as HTML and planning line-by-line translation.

pub mod text;
pub mod replace;
pub mod json;
pub mod replacements;
pub mod renderer;
pub mod ncode;
pub mod translator;
