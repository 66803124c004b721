//! Finds the applications that a desktop offers, from their desktop entry
//! files, and tells how the one that a user chooses is started.
//!
//! The library reads no file and runs no program. It is handed what was
//! read: the environment, the text of each desktop entry file with the time
//! at which the file was last modified, what the cache file held, what was
//! found at the paths where a program is looked for, and what the chooser
//! wrote. It hands back what is to be done with it.

#![allow(non_snake_case)]

pub mod app_launcher;
pub mod app_map;
pub mod desktop_entry;
pub mod desktop_entry_cache;
pub mod entry_map;
pub mod exec;
pub mod locale;
pub mod text;
pub mod utils;
pub mod xdg;

pub use crate::locale::get_locale_keys;
pub use crate::xdg::XDGManager;
