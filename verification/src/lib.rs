//! Markdown Studio's document logic: ordering and naming of imported
//! Markdown files, the text layout and escaping rules of each export
//! format, and the byte-exact writers for the PDF, DOCX (a stored ZIP
//! package) and HTML outputs.

pub mod color;
pub mod docx;
pub mod escape;
pub mod export;
pub mod html;
pub mod layout;
pub mod library;
pub mod markdown;
pub mod model;
pub mod pages;
pub mod pdf;
pub mod store;
pub mod text;
pub mod zip;
