pub mod colours;
pub mod desktop_files;
pub mod discovery;
pub mod exec_lines;
pub mod formats;
pub mod journey;
pub mod keyboard;
pub mod launching;
pub mod measuring;
pub mod places;
pub mod recents;
pub mod requests;
pub mod screen;
pub mod search;
pub mod session;
pub mod settings;
pub mod strings;
pub mod system;
