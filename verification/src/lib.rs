//! Incremental compilation of LaTeX Beamer slides.
pub mod artifacts;
pub mod cleanup;
pub mod context;
pub mod digest;
pub mod document;
pub mod frames;
pub mod fs_utils;
pub mod guard;
pub mod gzip;
pub mod latexcompile;
pub mod lines;
pub mod logs;
pub mod numbers;
pub mod options;
pub mod path_order;
pub mod path_parts;
pub mod path_text;
pub mod paths;
pub mod patterns;
pub mod plan;
pub mod prepare;
pub mod presentation;
pub mod process_file;
pub mod related;
pub mod search;
pub mod sections;
pub mod sync_map;
pub mod synctex;
pub mod tex;
pub mod text;
pub mod united;
