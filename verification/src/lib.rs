//! A PDF engine whose logic is proved: reading, writing and editing of documents.
use vstd::prelude::*;

pub mod affine;
pub mod annots;
pub mod appearance;
pub mod arith;
pub mod bytes;
pub mod canvas;
pub mod cmap;
pub mod cms_parts;
pub mod compact;
pub mod compact_numbers;
pub mod content;
pub mod copying;
pub mod crypt;
pub mod crypt_keeps;
pub mod decimal;
pub mod display;
pub mod document;
pub mod edit;
pub mod edit_model;
pub mod edits_show;
pub mod encoding;
pub mod error;
pub mod exact;
pub mod extract;
pub mod face_tables;
pub mod faces;
pub mod fields_listed;
pub mod filters;
pub mod filters_undo;
pub mod font;
pub mod font_says;
pub mod form;
pub mod geometry;
pub mod glyph_names;
pub mod glyphs_found;
pub mod history;
pub mod image;
pub mod image_shows;
pub mod interp;
pub mod jpeg;
pub mod jpeg_codes;
pub mod jpeg_scans;
pub mod kept;
pub mod lasting;
pub mod lexer;
pub mod listings;
pub mod literals;
pub mod lzw_codes;
pub mod marks;
pub mod new_files;
pub mod number;
pub mod object;
pub mod operator_names;
pub mod operators;
pub mod outline;
pub mod page;
pub mod page_edit;
pub mod page_inherits;
pub mod page_order;
pub mod page_pixels;
pub mod page_save;
pub mod page_text;
pub mod page_tree;
pub mod paint_jobs;
pub mod painting;
pub mod parser;
pub mod reach;
pub mod reading;
pub mod render_cache;
pub mod reopen;
pub mod roundtrip;
pub mod save;
pub mod search;
pub mod sections_say;
pub mod selection;
pub mod session;
pub mod sessions_show;
pub mod shows;
pub mod sign_text;
pub mod signature;
pub mod summary;
pub mod table;
pub mod text;
pub mod text_breaks;
pub mod text_finds;
pub mod tokens_say;
pub mod transforms;
pub mod widths;
pub mod writer;
pub mod xref;
