//! Workspace dependency resolution for manifest-driven multi-repository projects.
pub mod text;
pub mod pattern;
pub mod paths;
pub mod url_ops;
pub mod name_map;
pub mod dep;
pub mod resolver;
pub mod manifest;
pub mod config;
pub mod west;
pub mod resolve;
pub mod fetch_git2;
pub mod lock;
pub mod lockfile;
