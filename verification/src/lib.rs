pub mod action;
pub mod app;
pub mod cache;
pub mod client;
pub mod clipboard;
pub mod config;
pub mod denylist;
pub mod desktop;
pub mod dev;
pub mod editor;
pub mod font;
pub mod ids;
pub mod keys;
pub mod launch;
pub mod laws;
pub mod platform;
pub mod present;
pub mod protocol;
pub mod shm;
pub mod socket;
pub mod theme;
pub mod ui;
pub mod wire;
