//! The core of a diff viewer and review tool: parsing unified diffs, building
//! the row model that front ends draw, and keeping the review file.

pub mod anchor;
pub mod anchor_laws;
pub mod commands;
pub mod compare_laws;
pub mod content_laws;
pub mod date_laws;
pub mod exclude;
pub mod file_laws;
pub mod git_output;
pub mod git_source;
pub mod goto;
pub mod goto_laws;
pub mod highlight;
pub mod hunk_laws;
pub mod json;
pub mod lifecycle;
pub mod listing_laws;
pub mod load_laws;
pub mod model;
pub mod paint_laws;
pub mod painter;
pub mod painter_laws;
pub mod parser;
pub mod parser_laws;
pub mod projection;
pub mod projection_laws;
pub mod protocol;
pub mod protocol_laws;
pub mod review;
pub mod review_json;
pub mod review_laws;
pub mod rootio;
pub mod row_laws;
pub mod rows;
pub mod sanitize;
pub mod sanitize_laws;
pub mod search;
pub mod search_laws;
pub mod source;
pub mod stack;
pub mod stack_laws;
pub mod store;
pub mod sys;
pub mod text;
pub mod tree;
pub mod tree_laws;
pub mod util;
pub mod view;
pub mod view_laws;
pub mod view_state;
pub mod watch;
pub mod watch_laws;
pub mod wire;
pub mod wire_laws;
pub mod worddiff;
pub mod worddiff_laws;
