//! Verified core of a dependency-lockfile comparison tool.

pub mod cargo_lock;
pub mod cargo_manifest;
pub mod collections;
pub mod compare;
pub mod declarations;
pub mod ecosystem;
pub mod error;
pub mod external;
pub mod git;
pub mod glob;
pub mod json;
pub mod json_grammar;
pub mod json_writing;
pub mod manifest_writing;
pub mod member_search;
pub mod members;
pub mod messages;
pub mod npm;
pub mod npm_records;
pub mod npm_writing;
pub mod options;
pub mod options_writing;
pub mod order;
pub mod path;
pub mod project;
pub mod report;
pub mod report_lines;
pub mod revision;
pub mod run;
pub mod scanner;
pub mod source;
pub mod text;
pub mod text_writing;
pub mod toml;
pub mod toml_writing;
pub mod working_tree;
pub mod workspace;
pub mod workspace_tables;
pub mod workspace_writing;
