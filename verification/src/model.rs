//! The documents and export settings that the writers read.

use vstd::prelude::*;

verus! {

/// One Markdown source of a project.
pub struct StudioFile {
    /// The name shown for the file (its file stem when imported).
    pub name: String,
    /// Where the file was read from, if it came from disk.
    pub path: Option<String>,
    /// The Markdown text.
    pub content: String,
}

/// The colour and typeface tokens of a theme.
pub struct ThemeTokens {
    pub id: String,
    pub name: String,
    pub mode: String,
    /// Page background, as `#rrggbb`.
    pub paper: String,
    /// Text colour, as `#rrggbb`.
    pub ink: String,
    pub muted: String,
    /// Accent colour, as `#rrggbb`.
    pub accent: String,
    pub rule: String,
    pub code_bg: String,
    pub font_body: String,
    pub font_heading: String,
}

/// What an export adds around the documents.
pub struct ExportOptions {
    /// Whether a table of contents comes first.
    pub toc: bool,
    /// Whether pages carry their number.
    pub page_numbers: bool,
    pub header_left: String,
    pub header_center: String,
    pub header_right: String,
    pub footer_left: String,
    pub footer_center: String,
    pub footer_right: String,
}

/// A collection to export: its title, its files in order, its theme and
/// typeface, and the export options.
pub struct ExportRequest {
    pub name: String,
    pub files: Vec<StudioFile>,
    pub theme: ThemeTokens,
    pub typeface: String,
    pub export_options: ExportOptions,
}

} // verus!
