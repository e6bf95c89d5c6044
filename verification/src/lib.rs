//! The core of tomesole, a careful terminal client for Library Genesis.

pub mod args;
pub mod args_laws;
pub mod bytes;
pub mod commands;
pub mod config;
pub mod config_laws;
pub mod cover;
pub mod double;
pub mod embedded;
pub mod embedded_laws;
pub mod error;
pub mod graphics;
pub mod history;
pub mod html;
pub mod jpeg;
pub mod jpeg_headers;
pub mod jpeg_laws;
pub mod keyed;
pub mod launch;
pub mod line;
pub mod model;
pub mod net;
pub mod order;
pub mod order_laws;
pub mod pages_laws;
pub mod path;
pub mod path_laws;
pub mod picture_laws;
pub mod prompt_laws;
pub mod query;
pub mod query_laws;
pub mod screen;
pub mod sign_laws;
pub mod term;
pub mod text;
pub mod theme;
pub mod tui;
pub mod tui_keys;
pub mod tui_laws;
pub mod ui;
pub mod ui_laws;
pub mod view;
pub mod view_laws;
