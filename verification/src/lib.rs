//! The logic of servio, an HTTP server for static files with live reload.

pub mod banner;
pub mod calendar;
pub mod guard;
pub mod ignore;
pub mod list;
pub mod listing;
pub mod percent;
pub mod refresh;
pub mod serve;
pub mod settings;
pub mod text;
pub mod version;
pub mod watch;
