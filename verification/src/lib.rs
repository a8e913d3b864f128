//! Iwaks music-library core: verified domain logic for a local music
//! player (search queries, scan classification, playback queue, transport
//! decisions, playlists and lyrics parsing).

pub mod fts;
pub mod lrc;
pub mod paths;
pub mod playlist;
pub mod queue;
pub mod scan;
pub mod tags;
pub mod text;
pub mod time;
pub mod track;
pub mod transport;
