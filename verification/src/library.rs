//! The snapshot of a music library: the records of one scan.

use crate::fileops::{is_audio_file, is_audio_path};
use crate::metadata::{artists_match, clone_text, text_key, text_view, SongMetadata, SongRecord};
use crate::text::{chars_of, parse_unsigned, unsigned_of};
use vstd::prelude::*;

verus! {

/// Whether `song` is a version of what `query` asks for: the titles have one key and the
/// artist of `song` is one of the artists of `query`. With `exact` the albums have one
/// key too.
pub open spec fn is_version_of(song: SongRecord, query: SongRecord, exact: bool) -> bool {
    text_key(song.title) == text_key(query.title) && artists_match(song, query) && (exact ==> text_key(
        song.album,
    ) == text_key(query.album))
}

/// Where the first version of `query` stands among `songs`; their number where there is
/// none.
pub open spec fn first_version(songs: Seq<SongMetadata>, query: SongRecord, exact: bool) -> int
    decreases songs.len(),
{
    if songs.len() == 0 || is_version_of(songs[0]@, query, exact) {
        0
    } else {
        1 + first_version(songs.drop_first(), query, exact)
    }
}

/// The song found for `query`: the first version from the album that `query` names, else
/// the first version from any album.
pub open spec fn found_song(songs: Seq<SongMetadata>, query: SongRecord) -> Option<int> {
    if first_version(songs, query, true) < songs.len() {
        Some(first_version(songs, query, true))
    } else if first_version(songs, query, false) < songs.len() {
        Some(first_version(songs, query, false))
    } else {
        None
    }
}

/// `first_version` is the position before which no version stands and at which one does.
pub proof fn lemma_first_version_at(songs: Seq<SongMetadata>, query: SongRecord, exact: bool, n: int)
    requires
        0 <= n <= songs.len(),
        forall|i: int| 0 <= i < n ==> !is_version_of(#[trigger] songs[i]@, query, exact),
        n == songs.len() || is_version_of(songs[n]@, query, exact),
    ensures
        first_version(songs, query, exact) == n,
    decreases n,
{
    if n > 0 {
        let rest = songs.drop_first();
        assert forall|i: int| 0 <= i < n - 1 implies !is_version_of(#[trigger] rest[i]@, query, exact) by {
            assert(rest[i] == songs[i + 1]);
        }
        lemma_first_version_at(rest, query, exact, n - 1);
    }
}

/// The records found under the library's paths. Built once for a run and read from then on.
pub struct Library {
    path: Vec<String>,
    songs: Vec<SongMetadata>,
}

impl Library {
    /// The records of the library, in the order of the scan.
    pub closed spec fn records(&self) -> Seq<SongMetadata> {
        self.songs@
    }

    /// The paths that were scanned.
    pub closed spec fn roots(&self) -> Seq<String> {
        self.path@
    }

    /// The library of the given records, found under the given paths.
    pub fn new(path: Vec<String>, songs: Vec<SongMetadata>) -> (library: Library)
        ensures
            library.records() == songs@,
            library.roots() == path@,
    {
        Library { path, songs }
    }

    /// The records of the library.
    pub fn songs(&self) -> (songs: &Vec<SongMetadata>)
        ensures
            songs@ == self.records(),
    {
        &self.songs
    }

    /// Where the first version of `query` stands in the library, if there is one.
    fn first_version_at(&self, query: &SongMetadata, exact: bool) -> (r: Option<usize>)
        ensures
            match r {
                Some(i) => i < self.records().len() && i == first_version(self.records(), query@, exact),
                None => first_version(self.records(), query@, exact) == self.records().len(),
            },
    {
        let title = SongMetadata::normalize_str(&query.title);
        let album = SongMetadata::normalize_str(&query.album);
        let mut i: usize = 0;
        while i < self.songs.len()
            invariant
                i <= self.songs.len(),
                title@ == text_key(query@.title),
                album@ == text_key(query@.album),
                forall|j: int| 0 <= j < i ==> !is_version_of(#[trigger] self.songs@[j]@, query@, exact),
            decreases self.songs.len() - i,
        {
            let song = &self.songs[i];
            if SongMetadata::normalize_str(&song.title) == title && song.matches_metadata(query) && (!exact
                || SongMetadata::normalize_str(&song.album) == album) {
                proof {
                    lemma_first_version_at(self.songs@, query@, exact, i as int);
                }
                return Some(i);
            }
            i += 1;
        }
        proof {
            lemma_first_version_at(self.songs@, query@, exact, self.songs@.len() as int);
        }
        None
    }

    /// The song of the library that stands for `query`: the first version from the album
    /// that `query` names, else the first version from any album.
    pub fn find_song(&self, query: &SongMetadata) -> (found: Option<usize>)
        ensures
            found is Some == found_song(self.records(), query@) is Some,
            found matches Some(i) ==> i < self.records().len() && i == found_song(self.records(), query@)->0,
    {
        match self.first_version_at(query, true) {
            Some(i) => Some(i),
            None => self.first_version_at(query, false),
        }
    }

    /// The paths that were scanned.
    pub fn paths(&self) -> (paths: &Vec<String>)
        ensures
            paths@ == self.roots(),
    {
        &self.path
    }
}

/// The tags of a file as they were read, each a text.
#[derive(Debug)]
pub struct RawTags {
    pub title: Option<String>,
    pub artist: Option<String>,
    pub album: Option<String>,
    pub genre: Option<String>,
    pub track_number: Option<String>,
    pub disc_number: Option<String>,
    pub year: Option<String>,
    pub isrc: Option<String>,
}

/// A track as it was scanned: what its file told, unchecked.
#[derive(Debug)]
pub struct DirtyTrack {
    pub title: Option<String>,
    pub artist: Option<String>,
    pub album: Option<String>,
    pub genre: Option<String>,
    pub duration: Option<u32>,
    pub isrc: Option<String>,
    pub bitrate: Option<u32>,
    pub track_number: Option<u32>,
    pub disc_number: Option<u32>,
    pub year: Option<u32>,
    pub file_path: Option<String>,
}

/// The tracks found under one path.
pub struct DirtyLibrary {
    pub path: String,
    pub tracks: Vec<DirtyTrack>,
}

/// The number that a tag writes, if it writes one that fits.
pub open spec fn number_of_tag(tag: Option<Seq<char>>) -> Option<u32> {
    match tag {
        Some(s) => match unsigned_of(s, u32::MAX as nat) {
            Some(n) => Some(n as u32),
            None => None,
        },
        None => None,
    }
}

/// Whether nothing is known of the track but its path.
pub open spec fn is_blank(t: DirtyTrack) -> bool {
    t.title is None && t.artist is None && t.album is None && t.genre is None && t.duration is None
        && t.isrc is None && t.bitrate is None && t.track_number is None && t.disc_number is None
        && t.year is None
}

/// The number that a tag writes.
fn parse_tag(tag: &Option<String>) -> (n: Option<u32>)
    ensures
        n == number_of_tag(text_view(*tag)),
{
    match tag {
        Some(s) => {
            let v = chars_of(s.as_str());
            assert(v@.subrange(0, v@.len() as int) == v@);
            match parse_unsigned(&v, 0, v.len(), 0xFFFF_FFFF) {
                Some(n) => Some(n as u32),
                None => None,
            }
        },
        None => None,
    }
}

impl Default for DirtyTrack {
    fn default() -> (track: Self)
        ensures
            is_blank(track),
            track.file_path is None,
    {
        DirtyTrack {
            title: None,
            artist: None,
            album: None,
            genre: None,
            duration: None,
            isrc: None,
            bitrate: None,
            track_number: None,
            disc_number: None,
            year: None,
            file_path: None,
        }
    }
}

impl DirtyTrack {
    /// The track of the file at `path`, of which nothing else is known yet.
    pub fn from_path(path: String) -> (track: DirtyTrack)
        ensures
            is_blank(track),
            track.file_path == Some(path),
    {
        DirtyTrack {
            title: None,
            artist: None,
            album: None,
            genre: None,
            duration: None,
            isrc: None,
            bitrate: None,
            track_number: None,
            disc_number: None,
            year: None,
            file_path: Some(path),
        }
    }

    /// Takes over what was read from the file: the tags, where the file has any, with the
    /// numbers that the number tags write, then the duration in whole seconds, as far as
    /// it fits in thirty-two bits, and the bitrate.
    pub fn fill_metadata(&mut self, tags: &Option<RawTags>, seconds: u64, bitrate: Option<u32>)
        ensures
            final(self).file_path == old(self).file_path,
            final(self).duration == Some((seconds % 0x1_0000_0000) as u32),
            final(self).bitrate == bitrate,
            match *tags {
                Some(t) => {
                    &&& final(self).title == t.title
                    &&& final(self).artist == t.artist
                    &&& final(self).album == t.album
                    &&& final(self).genre == t.genre
                    &&& final(self).isrc == t.isrc
                    &&& final(self).track_number == number_of_tag(text_view(t.track_number))
                    &&& final(self).disc_number == number_of_tag(text_view(t.disc_number))
                    &&& final(self).year == number_of_tag(text_view(t.year))
                },
                None => {
                    &&& final(self).title == old(self).title
                    &&& final(self).artist == old(self).artist
                    &&& final(self).album == old(self).album
                    &&& final(self).genre == old(self).genre
                    &&& final(self).isrc == old(self).isrc
                    &&& final(self).track_number == old(self).track_number
                    &&& final(self).disc_number == old(self).disc_number
                    &&& final(self).year == old(self).year
                },
            },
    {
        match tags {
            Some(t) => {
                self.title = clone_text(&t.title);
                self.artist = clone_text(&t.artist);
                self.album = clone_text(&t.album);
                self.genre = clone_text(&t.genre);
                self.track_number = parse_tag(&t.track_number);
                self.disc_number = parse_tag(&t.disc_number);
                self.year = parse_tag(&t.year);
                self.isrc = clone_text(&t.isrc);
            },
            None => {},
        }
        self.duration = Some((seconds % 0x1_0000_0000) as u32);
        self.bitrate = bitrate;
    }
}

/// The paths of audio files among `files`, in their order.
pub open spec fn audio_paths(files: Seq<String>) -> Seq<String> {
    files.filter(|f: String| is_audio_path(f@))
}

impl DirtyLibrary {
    /// The library of the files found under `path`: one track for each file with the
    /// extension of a supported audio file, in the order of the files, with nothing known
    /// of it but its path.
    pub fn new(path: String, files: Vec<String>) -> (library: DirtyLibrary)
        ensures
            library.path == path,
            library.tracks@.len() == audio_paths(files@).len(),
            forall|i: int|
                0 <= i < library.tracks@.len() ==> is_blank(#[trigger] library.tracks@[i])
                    && library.tracks@[i].file_path == Some(audio_paths(files@)[i]),
    {
        let mut tracks: Vec<DirtyTrack> = Vec::new();
        let mut i: usize = 0;
        assert(files@.take(0) =~= Seq::<String>::empty());
        while i < files.len()
            invariant
                i <= files.len(),
                tracks@.len() == audio_paths(files@.take(i as int)).len(),
                forall|k: int|
                    0 <= k < tracks@.len() ==> is_blank(#[trigger] tracks@[k]) && tracks@[k].file_path == Some(
                        audio_paths(files@.take(i as int))[k],
                    ),
            decreases files.len() - i,
        {
            proof {
                let next = files@.take(i + 1);
                assert(next.drop_last() == files@.take(i as int));
                assert(next.last() == files@[i as int]);
                reveal(Seq::filter);
            }
            if is_audio_file(files[i].as_str()) {
                tracks.push(DirtyTrack::from_path(files[i].clone()));
            }
            i += 1;
        }
        assert(files@.take(files@.len() as int) == files@);
        DirtyLibrary { path, tracks }
    }
}

} // verus!
