//! The catalogue of a library once its tracks are checked: artists, albums and tracks.

use vstd::prelude::*;

verus! {

/// An album of the catalogue.
pub struct Album {
    pub title: String,
    pub artist: Box<Artist>,
    pub tracks: Vec<Track>,
    pub year: u32,
}

/// An artist of the catalogue.
pub struct Artist {
    pub name: String,
    pub albums: Vec<Album>,
    pub genre: String,
}

/// A track of the catalogue.
pub struct Track {
    pub title: String,
    pub artist: Box<Artist>,
    pub album: Box<Album>,
    pub genre: String,
    pub duration: u32,
    pub isrc: String,
    pub bitrate: u32,
    pub track_number: u32,
    pub disc_number: u32,
    pub year: u32,
    pub file_path: String,
}

} // verus!
