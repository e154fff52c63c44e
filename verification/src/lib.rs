//! The decisions behind Suzuri's writing environment: which markdown markers a live preview hides
//! and which blocks it draws, how tables and frontmatter are edited through their widgets, how
//! citations resolve against a bibliography, and when a newer release is worth announcing.
//!
//! Everything here works on plain values: text, byte offsets into it, and small enums. Drawing,
//! files and the network belong to the application around this library.

pub mod text;
pub mod text_laws;
pub mod numbers;
pub mod path;
pub mod chains;
pub mod citation;
pub mod bib_dates;
pub mod bib_source;
pub mod bib_links;
pub mod bibliography;
pub mod cite_menu;
pub mod bibliography_laws;
pub mod reference_laws;
pub mod syntax;
pub mod markers;
pub mod document;
pub mod extraction;
pub mod inline_layer;
pub mod scans;
pub mod extract;
pub mod block_bounds;
pub mod walk_laws;
pub mod block_walk_laws;
pub mod scan_laws;
pub mod embed_laws;
pub mod callout_laws;
pub mod image_laws;
pub mod link_laws;
pub mod property_laws;
pub mod release_laws;
pub mod screen_laws;
pub mod table_screen_laws;
pub mod source_laws;
pub mod marker_laws;
pub mod wikilink;
pub mod embed;
pub mod section_laws;
pub mod callout;
pub mod image;
pub mod heading;
pub mod highlights;
pub mod decorations;
pub mod reconcile;
pub mod preview_laws;
pub mod widget_laws;
pub mod edits;
pub mod cards;
pub mod inline_editor;
pub mod addon;
pub mod pass;
pub mod table;
pub mod table_edit;
pub mod table_widget;
pub mod table_laws;
pub mod table_round_trip;
pub mod cell_laws;
pub mod line_splits;
pub mod delimiter_laws;
pub mod table_buffer;
pub mod table_reading_laws;
pub mod frontmatter;
pub mod frontmatter_laws;
pub mod new_property;
pub mod update;
pub mod version_laws;
