//! The verified core of a disk usage analyzer: the file tree, the scan that
//! fills it, the state the terminal browser moves through, and the text it
//! shows. Reading the disk and painting the terminal are left to callers.

pub mod accounting;
pub mod aggregation;
pub mod app;
pub mod arrival;
pub mod assembly;
pub mod builder;
pub mod cache;
pub mod cli;
pub mod contents;
pub mod crew;
pub mod deletion;
pub mod directories;
pub mod effects;
pub mod expansion;
pub mod extensions;
pub mod history;
pub mod keys;
pub mod layout;
pub mod navigation;
pub mod node;
pub mod overlays;
pub mod painting;
pub mod panel;
pub mod path_map;
pub mod paths;
pub mod profile;
pub mod removal;
pub mod scanner;
pub mod screen;
pub mod sizes;
pub mod sorting;
pub mod strings;
pub mod style;
pub mod text;
pub mod text_map;
pub mod tree;
pub mod ui;
pub mod worker;
