//! Builds playlists of tracks that sound like a set of seed tracks.
//!
//! The library holds the selection logic: genre groups and their patterns,
//! the normalised metadata of a track, the settings derived from a request,
//! and the two selection engines (`mixer` for a mix of several seeds, `lister`
//! for the neighbours of one track). The feature store, the spatial index and
//! the anomaly ranking work on floating-point vectors; the program around the
//! library runs them and hands each candidate to an engine.

pub mod text;
pub mod genres;
pub mod track;
pub mod params;
pub mod mixer;
pub mod ordering;
pub mod chance;
pub mod laws;
pub mod lister;
