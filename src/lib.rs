//! Optimal line breaking and rendering of paragraphs into fixed-width text,
//! and the walk over a FictionBook document that feeds it.
pub mod breaking;
pub mod document;
pub mod layout;
pub mod render;
pub mod text;
pub mod theorems;
pub mod words;
