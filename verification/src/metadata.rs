//! The record kept for each audio file, and the comparisons made on its tags.

use crate::text::{chars_of, normal_form, normalize, split, split_at_each, text_of, views};
use crate::utils::url_encoded;
use vstd::prelude::*;
use vstd::string::StringExecFns;

verus! {

/// What is known of one audio file. A `size` of zero stands for a size that is not known.
#[derive(Debug, PartialEq, Eq, Hash)]
pub struct SongMetadata {
    pub title: Option<String>,
    pub artist: Option<String>,
    pub album: Option<String>,
    pub isrc: Option<String>,
    pub duration: Option<u32>,
    pub size: u64,
    pub file_path: Option<String>,
}

/// A record as plain values.
pub struct SongRecord {
    pub title: Option<Seq<char>>,
    pub artist: Option<Seq<char>>,
    pub album: Option<Seq<char>>,
    pub isrc: Option<Seq<char>>,
    pub duration: Option<u32>,
    pub size: u64,
    pub file_path: Option<Seq<char>>,
}

/// The characters of an optional text.
pub open spec fn text_view(t: Option<String>) -> Option<Seq<char>> {
    match t {
        Some(s) => Some(s@),
        None => None,
    }
}

/// The key of an optional text; a missing text has the empty key.
pub open spec fn text_key(t: Option<Seq<char>>) -> Seq<char> {
    match t {
        Some(s) => normal_form(s),
        None => Seq::empty(),
    }
}

/// Whether a record carries a recording code that is not empty. An empty code stands for a
/// missing one.
pub open spec fn has_code(s: SongRecord) -> bool {
    s.isrc is Some && s.isrc->0.len() > 0
}

impl View for SongMetadata {
    type V = SongRecord;

    open spec fn view(&self) -> SongRecord {
        SongRecord {
            title: text_view(self.title),
            artist: text_view(self.artist),
            album: text_view(self.album),
            isrc: text_view(self.isrc),
            duration: self.duration,
            size: self.size,
            file_path: text_view(self.file_path),
        }
    }
}

/// A copy of an optional text.
pub fn clone_text(t: &Option<String>) -> (r: Option<String>)
    ensures
        r == *t,
{
    match t {
        Some(s) => Some(s.clone()),
        None => None,
    }
}

/// Whether two optional texts are the same.
pub fn same_text(a: &Option<String>, b: &Option<String>) -> (same: bool)
    ensures
        same == (text_view(*a) == text_view(*b)),
{
    match (a, b) {
        (Some(x), Some(y)) => *x == *y,
        (None, None) => true,
        _ => false,
    }
}

impl Clone for SongMetadata {
    fn clone(&self) -> (r: Self)
        ensures
            r == *self,
    {
        SongMetadata {
            title: clone_text(&self.title),
            artist: clone_text(&self.artist),
            album: clone_text(&self.album),
            isrc: clone_text(&self.isrc),
            duration: self.duration,
            size: self.size,
            file_path: clone_text(&self.file_path),
        }
    }
}

/// The text that the field `key` holds in the JSON object that `body` writes, as
/// `serde_json` reads it; none where `body` is no JSON object, or has no such field, or the
/// field holds no text.
pub uninterp spec fn json_text_of(body: Seq<char>, key: Seq<char>) -> Option<Seq<char>>;

/// Calls `serde_json::from_str`, then `Value::get` and `Value::as_str` on what it parsed.
/// Assumed, not proved: the result depends on the two texts alone, and is what
/// `json_text_of` names. Nothing is said of which texts are JSON.
#[verifier::external_body]
fn json_text(body: &str, key: &str) -> (text: Option<String>)
    ensures
        text_view(text) == json_text_of(body@, key@),
{
    let value: serde_json::Value = serde_json::from_str(body).ok()?;
    value.get(key)?.as_str().map(|s| s.to_string())
}

/// Calls `urlencoding::encode`. Assumed, not proved: of the bytes of the text in UTF-8,
/// ASCII letters, digits, `-`, `.`, `_` and `~` stay, and every other byte becomes `%` and
/// its two hexadecimal digits in upper case.
#[verifier::external_body]
fn url_encode(s: &str) -> (encoded: String)
    ensures
        encoded@ == url_encoded(s@),
{
    urlencoding::encode(s).into_owned()
}

/// The encoding of an optional tag for a URL, empty where the tag is missing.
pub open spec fn encoded_or_empty(t: Option<Seq<char>>) -> Seq<char> {
    match t {
        Some(s) => url_encoded(s),
        None => Seq::empty(),
    }
}

/// The address at which the lyrics of a record are asked for; none for a record without
/// title or artist.
pub open spec fn lyrics_url(s: SongRecord) -> Option<Seq<char>> {
    if s.title is None || s.artist is None {
        None
    } else {
        Some(
            "https://lrclib.net/api/get?track_name="@ + url_encoded(s.title->0) + "&artist_name="@
                + url_encoded(s.artist->0) + "&album_name="@ + encoded_or_empty(s.album) + "&isrc="@
                + encoded_or_empty(s.isrc),
        )
    }
}

/// Lyrics under the header of a record: a line for the title and a line for the artist,
/// each only where the record has one.
pub open spec fn with_header(s: SongRecord, lyrics: Seq<char>) -> Seq<char> {
    let title = match s.title {
        Some(t) => "[ti:"@ + t + "]\n"@,
        None => Seq::empty(),
    };
    let artist = match s.artist {
        Some(a) => "[ar:"@ + a + "]\n"@,
        None => Seq::empty(),
    };
    title + artist + lyrics
}

/// The lyrics to store: the synced ones where there are any, else the plain ones, under
/// the header of the record.
pub open spec fn chosen_lyrics(s: SongRecord, synced: Option<Seq<char>>, plain: Option<Seq<char>>) -> Option<
    Seq<char>,
> {
    match synced {
        Some(l) => Some(with_header(s, l)),
        None => match plain {
            Some(l) => Some(with_header(s, l)),
            None => None,
        },
    }
}

/// Whether the artist of `a` is one of the artists of `b`, which are separated by `;`.
/// Where `a` names no artist, or `b` has no artist tag, they match.
pub open spec fn artists_match(a: SongRecord, b: SongRecord) -> bool {
    let own = text_key(a.artist);
    if own.len() > 0 && b.artist is Some {
        let names = split_at_each(b.artist->0, ';');
        exists|i: int| 0 <= i < names.len() && normal_form(#[trigger] names[i]) == own
    } else {
        true
    }
}

/// How a record is named in a report: artist, then title.
pub open spec fn label_of(s: SongRecord) -> Seq<char> {
    (match s.artist {
        Some(a) => a,
        None => "Unknown Artist"@,
    }) + " - "@ + (match s.title {
        Some(t) => t,
        None => "Unknown Title"@,
    })
}

impl SongMetadata {
    /// The record of a file of which nothing is known but its path.
    pub fn untagged(path: String) -> (song: SongMetadata)
        ensures
            song@ == (SongRecord {
                title: None,
                artist: None,
                album: None,
                isrc: None,
                duration: None,
                size: 0,
                file_path: Some(path@),
            }),
    {
        SongMetadata {
            title: None,
            artist: None,
            album: None,
            isrc: None,
            duration: None,
            size: 0,
            file_path: Some(path),
        }
    }

    /// Whether two records say the same of their files, field by field.
    pub fn same_as(&self, other: &SongMetadata) -> (same: bool)
        ensures
            same == (self@ == other@),
    {
        same_text(&self.title, &other.title) && same_text(&self.artist, &other.artist) && same_text(
            &self.album,
            &other.album,
        ) && same_text(&self.isrc, &other.isrc) && self.duration == other.duration && self.size == other.size
            && same_text(&self.file_path, &other.file_path)
    }

    /// How the record is named in a report.
    pub fn label(&self) -> (label: String)
        ensures
            label@ == label_of(self@),
    {
        let mut label = match &self.artist {
            Some(a) => a.clone(),
            None => String::from_str("Unknown Artist"),
        };
        label.append(" - ");
        match &self.title {
            Some(t) => label.append(t.as_str()),
            None => label.append("Unknown Title"),
        }
        label
    }

    /// The address at which the lyrics of the record are asked for.
    pub fn request_lyrics_url(&self) -> (url: Option<String>)
        ensures
            text_view(url) == lyrics_url(self@),
    {
        match (&self.title, &self.artist) {
            (Some(title), Some(artist)) => {
                let mut url = String::from_str("https://lrclib.net/api/get?track_name=");
                url.append(url_encode(title.as_str()).as_str());
                url.append("&artist_name=");
                url.append(url_encode(artist.as_str()).as_str());
                url.append("&album_name=");
                match &self.album {
                    Some(album) => url.append(url_encode(album.as_str()).as_str()),
                    None => {},
                }
                url.append("&isrc=");
                match &self.isrc {
                    Some(isrc) => url.append(url_encode(isrc.as_str()).as_str()),
                    None => {},
                }
                assert(url@ =~= lyrics_url(self@)->0);
                Some(url)
            },
            _ => None,
        }
    }

    /// Lyrics under the header of the record.
    pub fn improve_lyrics_format(&self, lyrics: &str) -> (improved: String)
        ensures
            improved@ == with_header(self@, lyrics@),
    {
        let mut improved = String::new();
        match &self.title {
            Some(title) => {
                improved.append("[ti:");
                improved.append(title.as_str());
                improved.append("]\n");
            },
            None => {},
        }
        match &self.artist {
            Some(artist) => {
                improved.append("[ar:");
                improved.append(artist.as_str());
                improved.append("]\n");
            },
            None => {},
        }
        improved.append(lyrics);
        assert(improved@ =~= with_header(self@, lyrics@));
        improved
    }

    /// The lyrics to store of those that an answer holds.
    pub fn choose_lyrics(&self, synced: &Option<String>, plain: &Option<String>) -> (lyrics: Option<String>)
        ensures
            text_view(lyrics) == chosen_lyrics(self@, text_view(*synced), text_view(*plain)),
    {
        match synced {
            Some(l) => Some(self.improve_lyrics_format(l.as_str())),
            None => match plain {
                Some(l) => Some(self.improve_lyrics_format(l.as_str())),
                None => None,
            },
        }
    }

    /// The lyrics to store of the answer of the lyrics service, a JSON object: the text of
    /// its field `syncedLyrics`, else of its field `plainLyrics`, under the header of the
    /// record.
    pub fn lyrics_from_response(&self, response: &str) -> (lyrics: Option<String>)
        ensures
            text_view(lyrics) == chosen_lyrics(
                self@,
                json_text_of(response@, "syncedLyrics"@),
                json_text_of(response@, "plainLyrics"@),
            ),
    {
        let synced = json_text(response, "syncedLyrics");
        let plain = json_text(response, "plainLyrics");
        self.choose_lyrics(&synced, &plain)
    }

    /// Whether the artist of this record is one of the artists of `other`.
    pub fn matches_metadata(&self, other: &SongMetadata) -> (matches: bool)
        ensures
            matches == artists_match(self@, other@),
    {
        let own = SongMetadata::normalize_str(&self.artist);
        if own.as_str().is_empty() {
            return true;
        }
        match &other.artist {
            None => true,
            Some(artists) => {
                let names = split(&chars_of(artists.as_str()), ';');
                let mut i: usize = 0;
                while i < names.len()
                    invariant
                        i <= names.len(),
                        own@ == text_key(self@.artist),
                        other@.artist == Some(artists@),
                        views(names@) == split_at_each(artists@, ';'),
                        forall|j: int| 0 <= j < i ==> normal_form(#[trigger] views(names@)[j]) != own@,
                    decreases names.len() - i,
                {
                    let name = text_of(&names[i], 0, names[i].len());
                    assert(name@ == views(names@)[i as int]) by {
                        assert(names@[i as int]@.subrange(0, names@[i as int]@.len() as int) == names@[i as int]@);
                    }
                    if normalize(name.as_str()) == own {
                        proof {
                            assert(other@.artist == Some(artists@));
                            let all = split_at_each(other@.artist->0, ';');
                            assert(all.len() == names@.len());
                            assert(0 <= i < all.len() && normal_form(all[i as int]) == own@);
                            assert(own@ == text_key(self@.artist));
                        }
                        return true;
                    }
                    i += 1;
                }
                false
            },
        }
    }

    /// The key of an optional tag.
    pub fn normalize_str(input: &Option<String>) -> (key: String)
        ensures
            key@ == text_key(text_view(*input)),
    {
        match input {
            Some(s) => normalize(s.as_str()),
            None => String::new(),
        }
    }
}

} // verus!
