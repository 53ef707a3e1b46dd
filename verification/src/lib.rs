//! A terminal music player's verified core: playlists, stream metadata, the
//! file browser, key handling and the player's decisions.
pub mod text;
pub mod config;
pub mod m3u;
pub mod icy;
pub mod paths;
pub mod browser;
pub mod player;
pub mod app;
pub mod ui;
pub mod audio;
