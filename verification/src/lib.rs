//! The core of the logd log viewer: everything it decides and computes, apart
//! from the windows it draws and the files, processes and servers it talks to.

pub mod app;
pub mod dock;
pub mod filters;
pub mod i18n;
pub mod json;
pub mod layout;
pub mod live_log;
pub mod log_analysis;
pub mod log_view;
pub mod marks;
pub mod menus;
pub mod order;
pub mod pattern;
pub mod platform;
pub mod regex_table;
pub mod results;
pub mod search;
pub mod settings;
pub mod status;
pub mod table_panel;
pub mod tabs;
pub mod text;
pub mod theme;
pub mod title_bar;
pub mod updater;
