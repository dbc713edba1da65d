//! A track's metadata as the store holds it, and the normalised form that
//! the selection works on.

use vstd::prelude::*;
use vstd::string::*;
use crate::text::{distinct, lower_of, parse_genres, str_set, tag_genres, to_lower};

verus! {

/// One track's row of metadata, as read from the store. `bpm` is the tempo
/// already turned into beats per minute.
pub struct Metadata {
    pub file: String,
    pub title: Option<String>,
    pub artist: Option<String>,
    pub album_artist: Option<String>,
    pub album: Option<String>,
    pub genre: Option<String>,
    pub duration: Option<u32>,
    pub bpm: i16,
}

/// A track with its text fields normalised for comparison.
pub struct Track {
    pub id: u64,
    pub file: String,
    /// Title, in lower case.
    pub title: String,
    /// Artist as tagged.
    pub orig_artist: String,
    /// Artist, in lower case.
    pub artist: String,
    /// Album artist, in lower case.
    pub album_artist: String,
    /// Album name in lower case, `::`, and the album artist, or the artist
    /// where there is none.
    pub album: String,
    /// Genres, trimmed and in lower case, each once.
    pub genres: Vec<String>,
    /// Duration in seconds; 0 when unknown.
    pub duration: u32,
    /// The album artist marks a compilation.
    pub is_various: bool,
    pub bpm: i16,
}

/// The text of an optional field; an absent one is empty.
pub open spec fn text_of(o: Option<String>) -> Seq<char> {
    match o {
        Some(s) => s@,
        None => Seq::empty(),
    }
}

/// The album key: album name, `::`, and the album artist or else the artist.
pub open spec fn album_key(album: Seq<char>, album_artist: Seq<char>, artist: Seq<char>) -> Seq<
    char,
> {
    if album_artist.len() == 0 {
        album + "::"@ + artist
    } else {
        album + "::"@ + album_artist
    }
}

/// Whether an album artist (in lower case) marks a compilation.
pub open spec fn marks_various(album_artist: Seq<char>) -> bool {
    album_artist.len() > 0 && (album_artist == "various"@ || album_artist == "various artists"@)
}

/// What `Track::from_metadata` makes of a row.
pub open spec fn normalised(t: Track, id: u64, m: Metadata) -> bool {
    &&& t.id == id
    &&& t.file@ == m.file@
    &&& t.title@ == lower_of(text_of(m.title))
    &&& text_of(m.title).len() == 0 ==> t.title@.len() == 0
    &&& text_of(m.artist).len() == 0 ==> t.artist@.len() == 0
    &&& text_of(m.album_artist).len() == 0 ==> t.album_artist@.len() == 0
    &&& t.orig_artist@ == text_of(m.artist)
    &&& t.artist@ == lower_of(text_of(m.artist))
    &&& t.album_artist@ == lower_of(text_of(m.album_artist))
    &&& t.album@ == album_key(lower_of(text_of(m.album)), t.album_artist@, t.artist@)
    &&& t.is_various == marks_various(t.album_artist@)
    &&& distinct(t.genres@)
    &&& str_set(t.genres@) == tag_genres(text_of(m.genre))
    &&& t.duration == match m.duration {
        Some(d) => d,
        None => 0u32,
    }
    &&& t.bpm == m.bpm
}

fn text_or_empty(o: &Option<String>) -> (r: String)
    ensures
        r@ == text_of(*o),
{
    match o {
        Some(s) => s.clone(),
        None => String::new(),
    }
}

impl Track {
    /// Normalises the row of track `id`.
    pub fn from_metadata(id: u64, m: &Metadata) -> (r: Track)
        ensures
            normalised(r, id, *m),
    {
        let title = to_lower(text_or_empty(&m.title).as_str());
        let orig_artist = text_or_empty(&m.artist);
        let artist = to_lower(orig_artist.as_str());
        let album_artist = to_lower(text_or_empty(&m.album_artist).as_str());
        let album_name = to_lower(text_or_empty(&m.album).as_str());
        let with_sep = album_name.concat("::");
        let mut is_various = false;
        let album;
        if album_artist.as_str().is_empty() {
            album = with_sep.concat(artist.as_str());
        } else {
            let various = String::from_str("various");
            let various_artists = String::from_str("various artists");
            is_various = album_artist == various || album_artist == various_artists;
            album = with_sep.concat(album_artist.as_str());
        }
        let genres = parse_genres(text_or_empty(&m.genre).as_str());
        let duration = match m.duration {
            Some(d) => d,
            None => 0,
        };
        Track {
            id,
            file: m.file.clone(),
            title,
            orig_artist,
            artist,
            album_artist,
            album,
            genres,
            duration,
            is_various,
            bpm: m.bpm,
        }
    }
}

} // verus!
