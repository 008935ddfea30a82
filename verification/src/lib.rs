//! Core logic of the Sonic music player: lyric parsing (LRC, QRC and the
//! encrypted KRC format), playback navigation over the music library, and the
//! small decision tables behind the tray icon and the cover cache.

pub mod text;
pub mod lyrics;
pub mod krc;
pub mod locate;
pub mod library;
pub mod player;
pub mod tray;
pub mod format;
pub mod covers;
pub mod queue;
pub mod browse;
pub mod order;
pub mod scan;
pub mod folders;
pub mod groups;
pub mod theme;
