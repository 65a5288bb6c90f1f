//! Playlists: lists of wanted songs, completed from the library.

use crate::cluster::{
    at, clusters_of, first_fit, is_clustering, is_symmetric_transitive, lemma_clusters_are_classes, link_of,
    slot, together, Linkage,
};
use crate::library::{found_song, Library};
use crate::metadata::{label_of, SongMetadata};
use crate::text::{decimal_of, push_decimal};
use vstd::prelude::*;
use vstd::string::StringExecFns;

verus! {

/// A song as a playlist file names it.
#[derive(Debug, Default)]
pub struct BasicTrackInfo {
    pub track_name: String,
    pub album_name: String,
    pub artist_names: String,
}

/// A playlist: the songs it holds and those that the library lacks.
pub struct Playlist {
    pub name: String,
    pub songs: Vec<SongMetadata>,
    pub missing_songs: Vec<SongMetadata>,
}

impl From<BasicTrackInfo> for SongMetadata {
    /// The record that stands for a song named in a playlist file: its title, artist and
    /// album, and nothing else.
    fn from(value: BasicTrackInfo) -> (song: SongMetadata) {
        SongMetadata {
            title: Some(value.track_name),
            artist: Some(value.artist_names),
            album: Some(value.album_name),
            isrc: None,
            duration: None,
            size: 0,
            file_path: None,
        }
    }
}

impl vstd::std_specs::convert::FromSpecImpl<BasicTrackInfo> for SongMetadata {
    open spec fn obeys_from_spec() -> bool {
        true
    }

    open spec fn from_spec(value: BasicTrackInfo) -> SongMetadata {
        SongMetadata {
            title: Some(value.track_name),
            artist: Some(value.artist_names),
            album: Some(value.album_name),
            isrc: None,
            duration: None,
            size: 0,
            file_path: None,
        }
    }
}

/// The songs of the library found for the wanted songs, in the order of the wanted songs.
pub open spec fn completed(library: Seq<SongMetadata>, songs: Seq<SongMetadata>) -> Seq<SongMetadata>
    decreases songs.len(),
{
    if songs.len() == 0 {
        Seq::empty()
    } else {
        match found_song(library, songs.last()@) {
            Some(i) => completed(library, songs.drop_last()).push(library[i]),
            None => completed(library, songs.drop_last()),
        }
    }
}

/// The wanted songs for which the library has none, in their order.
pub open spec fn lacking(library: Seq<SongMetadata>, songs: Seq<SongMetadata>) -> Seq<SongMetadata>
    decreases songs.len(),
{
    if songs.len() == 0 {
        Seq::empty()
    } else {
        match found_song(library, songs.last()@) {
            Some(i) => lacking(library, songs.drop_last()),
            None => lacking(library, songs.drop_last()).push(songs.last()),
        }
    }
}

impl Playlist {
    /// The playlist of the given name and wanted songs, with none missing yet.
    pub fn new(name: String, songs: Vec<SongMetadata>) -> (playlist: Playlist)
        ensures
            playlist.name == name,
            playlist.songs == songs,
            playlist.missing_songs@.len() == 0,
    {
        Playlist { name, songs, missing_songs: Vec::new() }
    }

    /// Replaces each wanted song by the song of the library that stands for it, and moves
    /// the wanted songs that the library lacks to the missing ones.
    pub fn filter_and_complete_from_library(&mut self, library: &Library)
        ensures
            final(self).name == old(self).name,
            final(self).songs@ == completed(library.records(), old(self).songs@),
            final(self).missing_songs@ == old(self).missing_songs@ + lacking(
                library.records(),
                old(self).songs@,
            ),
    {
        let mut completed_songs: Vec<SongMetadata> = Vec::new();
        let mut i: usize = 0;
        let ghost missing_before = self.missing_songs@;
        assert(self.songs@.take(0) =~= Seq::<SongMetadata>::empty());
        while i < self.songs.len()
            invariant
                i <= self.songs.len(),
                self.songs == old(self).songs,
                self.name == old(self).name,
                completed_songs@ == completed(library.records(), self.songs@.take(i as int)),
                self.missing_songs@ == missing_before + lacking(library.records(), self.songs@.take(i as int)),
            decreases self.songs.len() - i,
        {
            proof {
                let next = self.songs@.take(i + 1);
                assert(next.drop_last() == self.songs@.take(i as int));
                assert(next.last() == self.songs@[i as int]);
            }
            match library.find_song(&self.songs[i]) {
                Some(at) => {
                    completed_songs.push(library.songs()[at].clone());
                },
                None => {
                    let wanted = self.songs[i].clone();
                    self.missing_songs.push(wanted);
                    assert(self.missing_songs@ =~= missing_before + lacking(
                        library.records(),
                        self.songs@.take(i + 1),
                    ));
                },
            }
            i += 1;
        }
        assert(self.songs@.take(self.songs@.len() as int) == self.songs@);
        self.songs = completed_songs;
    }
}

/// A name with the number of times it was met.
#[derive(Debug)]
pub struct Count {
    pub label: String,
    pub count: usize,
}

/// What the playlists lack: the missing songs and their artists, each with the number of
/// times it is missing, the most often missing first.
pub struct MissingReport {
    pub songs: Vec<Count>,
    pub artists: Vec<Count>,
}

/// The texts of a list.
pub open spec fn texts(names: Seq<String>) -> Seq<Seq<char>> {
    names.map_values(|n: String| n@)
}

/// How often a name stands in a list.
pub open spec fn occurrences(names: Seq<Seq<char>>, name: Seq<char>) -> nat {
    names.filter(|n: Seq<char>| n == name).len()
}

/// Whether a list of counts holds a name.
pub open spec fn counts_name(t: Seq<Count>, name: Seq<char>) -> bool {
    exists|i: int| 0 <= i < t.len() && (#[trigger] t[i]).label@ == name
}

/// The counts of a list of names: one count for each name that stands in the list, with
/// the number of times it stands there.
pub open spec fn is_tally(names: Seq<Seq<char>>, t: Seq<Count>) -> bool {
    &&& forall|i: int| 0 <= i < t.len() ==> (#[trigger] t[i]).count == occurrences(names, t[i].label@)
    &&& forall|i: int| 0 <= i < t.len() ==> (#[trigger] t[i]).count > 0
    &&& forall|i: int, j: int| 0 <= i < j < t.len() ==> (#[trigger] t[i]).label@ != (#[trigger] t[j]).label@
    &&& forall|k: int| 0 <= k < names.len() ==> counts_name(t, #[trigger] names[k])
}

/// Whether no count comes after a smaller one.
pub open spec fn is_falling(t: Seq<Count>) -> bool {
    forall|i: int, j: int| 0 <= i < j < t.len() ==> (#[trigger] t[i]).count >= (#[trigger] t[j]).count
}

/// The songs that the playlists lack, playlist by playlist.
pub open spec fn missing_of(playlists: Seq<Playlist>) -> Seq<SongMetadata>
    decreases playlists.len(),
{
    if playlists.len() == 0 {
        Seq::empty()
    } else {
        missing_of(playlists.drop_last()) + playlists.last().missing_songs@
    }
}

/// The names of the songs in a report.
pub open spec fn labels_of(songs: Seq<SongMetadata>) -> Seq<Seq<char>> {
    songs.map_values(|s: SongMetadata| label_of(s@))
}

/// The artist tags of the songs that have one.
pub open spec fn artist_tags_of(songs: Seq<SongMetadata>) -> Seq<Seq<char>> {
    songs.filter(|s: SongMetadata| s@.artist is Some).map_values(|s: SongMetadata| s@.artist->0)
}

/// The line of a count in a report: the number in square brackets, then the name.
pub open spec fn line_of(c: Count) -> Seq<char> {
    "["@ + decimal_of(c.count as nat) + "] "@ + c.label@
}

/// What one more name adds to the occurrences of a name.
pub proof fn lemma_occurrences_push(names: Seq<Seq<char>>, more: Seq<char>, name: Seq<char>)
    ensures
        occurrences(names.push(more), name) == occurrences(names, name) + (if more == name {
            1nat
        } else {
            0nat
        }),
        occurrences(names, name) <= names.len(),
{
    reveal(Seq::filter);
    assert(names.push(more).drop_last() == names);
    names.lemma_filter_len(|n: Seq<char>| n == name);
}

/// A name that stands nowhere in a list occurs no times.
pub proof fn lemma_occurrences_none(names: Seq<Seq<char>>, name: Seq<char>)
    requires
        forall|k: int| 0 <= k < names.len() ==> #[trigger] names[k] != name,
    ensures
        occurrences(names, name) == 0,
    decreases names.len(),
{
    reveal(Seq::filter);
    if names.len() > 0 {
        let rest = names.drop_last();
        assert forall|k: int| 0 <= k < rest.len() implies #[trigger] rest[k] != name by {
            assert(rest[k] == names[k]);
        }
        lemma_occurrences_none(rest, name);
    }
}

/// Counts how often each name stands in a list.
pub fn tally(names: &Vec<String>) -> (t: Vec<Count>)
    ensures
        is_tally(texts(names@), t@),
{
    let mut t: Vec<Count> = Vec::new();
    let mut k: usize = 0;
    assert(texts(names@).take(0) =~= Seq::<Seq<char>>::empty());
    assert(is_tally(Seq::<Seq<char>>::empty(), t@));
    while k < names.len()
        invariant
            k <= names.len(),
            is_tally(texts(names@).take(k as int), t@),
        decreases names.len() - k,
    {
        let ghost seen = texts(names@).take(k as int);
        let ghost name = names@[k as int]@;
        let ghost before = t@;
        assert(texts(names@).take(k + 1) == seen.push(name));
        let mut i: usize = 0;
        while i < t.len() && t[i].label != names[k]
            invariant
                i <= t.len(),
                t@ == before,
                name == names@[k as int]@,
                k < names.len(),
                forall|j: int| 0 <= j < i ==> (#[trigger] before[j]).label@ != name,
            decreases t.len() - i,
        {
            i += 1;
        }
        if i < t.len() {
            proof {
                lemma_occurrences_push(seen, name, name);
            }
            t[i].count = t[i].count + 1;
            proof {
                let after = t@;
                assert forall|j: int| 0 <= j < after.len() implies (#[trigger] after[j]).count == occurrences(
                    seen.push(name),
                    after[j].label@,
                ) && after[j].count > 0 by {
                    lemma_occurrences_push(seen, name, after[j].label@);
                    assert(before[j].count == occurrences(seen, before[j].label@));
                    if j != i {
                        if j < i {
                            assert(before[j].label@ != before[i as int].label@);
                        } else {
                            assert(before[i as int].label@ != before[j].label@);
                        }
                    }
                }
                assert forall|x: int, y: int| 0 <= x < y < after.len() implies (#[trigger] after[x]).label@ != (
                #[trigger] after[y]).label@ by {
                    assert(before[x].label@ != before[y].label@);
                }
                assert forall|m: int| 0 <= m < seen.push(name).len() implies counts_name(
                    after,
                    #[trigger] seen.push(name)[m],
                ) by {
                    if m < seen.len() {
                        assert(counts_name(before, seen[m]));
                        let j = choose|j: int| 0 <= j < before.len() && (#[trigger] before[j]).label@ == seen[m];
                        assert(after[j].label@ == seen[m]);
                    } else {
                        assert(after[i as int].label@ == name);
                    }
                }
            }
        } else {
            proof {
                assert forall|m: int| 0 <= m < seen.len() implies #[trigger] seen[m] != name by {
                    if seen[m] == name {
                        assert(counts_name(before, seen[m]));
                        let j = choose|j: int| 0 <= j < before.len() && (#[trigger] before[j]).label@ == seen[m];
                        assert(before[j].label@ != name);
                    }
                }
                lemma_occurrences_none(seen, name);
                lemma_occurrences_push(seen, name, name);
            }
            t.push(Count { label: names[k].clone(), count: 1 });
            proof {
                let after = t@;
                let last = before.len() as int;
                assert(after[last].label@ == name);
                assert forall|j: int| 0 <= j < after.len() implies (#[trigger] after[j]).count == occurrences(
                    seen.push(name),
                    after[j].label@,
                ) && after[j].count > 0 by {
                    lemma_occurrences_push(seen, name, after[j].label@);
                    if j < last {
                        assert(after[j] == before[j]);
                        assert(before[j].count == occurrences(seen, before[j].label@));
                        assert(before[j].label@ != name);
                    }
                }
                assert forall|x: int, y: int| 0 <= x < y < after.len() implies (#[trigger] after[x]).label@ != (
                #[trigger] after[y]).label@ by {
                    assert(after[x] == before[x]);
                    if y < last {
                        assert(after[y] == before[y]);
                        assert(before[x].label@ != before[y].label@);
                    } else {
                        assert(before[x].label@ != name);
                    }
                }
                assert forall|m: int| 0 <= m < seen.push(name).len() implies counts_name(
                    after,
                    #[trigger] seen.push(name)[m],
                ) by {
                    if m < seen.len() {
                        assert(counts_name(before, seen[m]));
                        let j = choose|j: int| 0 <= j < before.len() && (#[trigger] before[j]).label@ == seen[m];
                        assert(after[j] == before[j]);
                        assert(after[j].label@ == seen[m]);
                    } else {
                        assert(after[last].label@ == name);
                    }
                }
            }
        }
        k += 1;
    }
    assert(texts(names@).take(names@.len() as int) == texts(names@));
    t
}

/// Whether `c` stands in `all` at position `from` or later.
pub open spec fn counted_from(all: Seq<Count>, from: int, c: Count) -> bool {
    exists|i: int| from <= i < all.len() && 0 <= i && #[trigger] all[i] == c
}

/// Puts the counts of a tally in falling order, the most often met first.
fn sort_by_count(names: Ghost<Seq<Seq<char>>>, counts: Vec<Count>) -> (sorted: Vec<Count>)
    requires
        is_tally(names@, counts@),
    ensures
        is_tally(names@, sorted@),
        is_falling(sorted@),
        sorted@.len() == counts@.len(),
{
    let ghost all = counts@;
    let mut rest = counts;
    let mut sorted: Vec<Count> = Vec::new();
    while rest.len() > 0
        invariant
            is_tally(names@, all),
            rest@.len() <= all.len(),
            rest@ == all.take(rest@.len() as int),
            sorted@.len() + rest@.len() == all.len(),
            is_falling(sorted@),
            forall|i: int| rest@.len() <= i < all.len() ==> sorted@.contains(#[trigger] all[i]),
            forall|j: int| 0 <= j < sorted@.len() ==> counted_from(all, rest@.len() as int, #[trigger] sorted@[j]),
            forall|i: int, j: int|
                0 <= i < j < sorted@.len() ==> (#[trigger] sorted@[i]).label@ != (#[trigger] sorted@[j]).label@,
        decreases rest@.len(),
    {
        let ghost m = rest@.len() - 1;
        let entry = rest.pop().unwrap();
        assert(entry == all[m]);
        assert(rest@ =~= all.take(m));
        let ghost before = sorted@;
        assert forall|j: int| 0 <= j < before.len() implies (#[trigger] before[j]).label@ != entry.label@ by {
            assert(counted_from(all, m + 1, before[j]));
            let i = choose|i: int| m + 1 <= i < all.len() && 0 <= i && #[trigger] all[i] == before[j];
            assert(all[m].label@ != all[i].label@);
        }
        let mut at: usize = 0;
        while at < sorted.len() && sorted[at].count > entry.count
            invariant
                at <= sorted@.len(),
                sorted@ == before,
                forall|j: int| 0 <= j < at ==> (#[trigger] before[j]).count > entry.count,
            decreases sorted@.len() - at,
        {
            at += 1;
        }
        proof {
            assert forall|j: int| at <= j < before.len() implies (#[trigger] before[j]).count <= entry.count by {
                if j > at {
                    assert(before[at as int].count >= before[j].count);
                }
            }
        }
        sorted.insert(at, entry);
        proof {
            let after = sorted@;
            assert(after == before.insert(at as int, entry));
            assert(after[at as int] == entry);
            assert forall|i: int, j: int| 0 <= i < j < after.len() implies (#[trigger] after[i]).count >= (
            #[trigger] after[j]).count && after[i].label@ != after[j].label@ by {
                if i < at && j > at {
                    assert(after[i] == before[i] && after[j] == before[j - 1]);
                    assert(before[i].count >= before[j - 1].count);
                } else if i < at && j < at {
                    assert(after[i] == before[i] && after[j] == before[j]);
                    assert(before[i].count >= before[j].count);
                } else if i > at {
                    assert(after[i] == before[i - 1] && after[j] == before[j - 1]);
                    assert(before[i - 1].count >= before[j - 1].count);
                } else if i == at {
                    assert(after[j] == before[j - 1]);
                } else {
                    assert(after[i] == before[i]);
                }
            }
            assert forall|i: int| m <= i < all.len() implies after.contains(#[trigger] all[i]) by {
                if i == m {
                    assert(after[at as int] == all[i]);
                } else {
                    let j = choose|j: int| 0 <= j < before.len() && before[j] == all[i];
                    if j < at {
                        assert(after[j] == all[i]);
                    } else {
                        assert(after[j + 1] == all[i]);
                    }
                }
            }
            assert forall|j: int| 0 <= j < after.len() implies counted_from(all, m, #[trigger] after[j]) by {
                if j == at {
                    assert(all[m] == after[j]);
                } else {
                    let k = if j < at {
                        j
                    } else {
                        j - 1
                    };
                    assert(after[j] == before[k]);
                    assert(counted_from(all, m + 1, before[k]));
                    let i = choose|i: int| m + 1 <= i < all.len() && 0 <= i && #[trigger] all[i] == before[k];
                    assert(all[i] == after[j]);
                }
            }
        }
    }
    proof {
        let out = sorted@;
        assert forall|j: int| 0 <= j < out.len() implies (#[trigger] out[j]).count == occurrences(
            names@,
            out[j].label@,
        ) && out[j].count > 0 by {
            assert(counted_from(all, 0, out[j]));
            let i = choose|i: int| 0 <= i < all.len() && 0 <= i && #[trigger] all[i] == out[j];
            assert(all[i].count == occurrences(names@, all[i].label@));
        }
        assert forall|k: int| 0 <= k < names@.len() implies counts_name(out, #[trigger] names@[k]) by {
            assert(counts_name(all, names@[k]));
            let i = choose|i: int| 0 <= i < all.len() && (#[trigger] all[i]).label@ == names@[k];
            assert(out.contains(all[i]));
            let j = choose|j: int| 0 <= j < out.len() && out[j] == all[i];
            assert(out[j].label@ == names@[k]);
        }
    }
    sorted
}

/// The songs that the playlists lack, playlist by playlist.
fn gather_missing(playlists: &Vec<Playlist>) -> (songs: Vec<SongMetadata>)
    ensures
        songs@ == missing_of(playlists@),
{
    let mut songs: Vec<SongMetadata> = Vec::new();
    let mut p: usize = 0;
    assert(playlists@.take(0) =~= Seq::<Playlist>::empty());
    while p < playlists.len()
        invariant
            p <= playlists.len(),
            songs@ == missing_of(playlists@.take(p as int)),
        decreases playlists.len() - p,
    {
        let ghost done = songs@;
        let missing = &playlists[p].missing_songs;
        proof {
            let next = playlists@.take(p + 1);
            assert(next.drop_last() == playlists@.take(p as int));
            assert(next.last() == playlists@[p as int]);
        }
        let mut i: usize = 0;
        while i < missing.len()
            invariant
                i <= missing.len(),
                songs@ == done + missing@.take(i as int),
            decreases missing.len() - i,
        {
            songs.push(missing[i].clone());
            assert(missing@.take(i + 1) == missing@.take(i as int).push(missing@[i as int]));
            i += 1;
        }
        assert(missing@.take(missing@.len() as int) == missing@);
        p += 1;
    }
    assert(playlists@.take(playlists@.len() as int) == playlists@);
    songs
}

/// The names of the songs in a report.
fn labels(songs: &Vec<SongMetadata>) -> (names: Vec<String>)
    ensures
        texts(names@) == labels_of(songs@),
{
    let mut names: Vec<String> = Vec::new();
    let mut i: usize = 0;
    while i < songs.len()
        invariant
            i <= songs.len(),
            names@.len() == i,
            forall|k: int| 0 <= k < i ==> (#[trigger] names@[k])@ == label_of(songs@[k]@),
        decreases songs.len() - i,
    {
        names.push(songs[i].label());
        i += 1;
    }
    assert(texts(names@) =~= labels_of(songs@));
    names
}

/// The artist tags of the songs that have one.
fn artist_tags(songs: &Vec<SongMetadata>) -> (names: Vec<String>)
    ensures
        texts(names@) == artist_tags_of(songs@),
{
    let mut names: Vec<String> = Vec::new();
    let mut i: usize = 0;
    let ghost tagged = |s: SongMetadata| s@.artist is Some;
    let ghost tag = |s: SongMetadata| s@.artist->0;
    assert(songs@.take(0) =~= Seq::<SongMetadata>::empty());
    assert(texts(names@) =~= artist_tags_of(songs@.take(0)));
    while i < songs.len()
        invariant
            i <= songs.len(),
            texts(names@) == artist_tags_of(songs@.take(i as int)),
        decreases songs.len() - i,
    {
        let ghost before = texts(names@);
        proof {
            let next = songs@.take(i + 1);
            assert(next.drop_last() == songs@.take(i as int));
            assert(next.last() == songs@[i as int]);
            reveal(Seq::filter);
        }
        match &songs[i].artist {
            Some(artist) => {
                names.push(artist.clone());
                assert(texts(names@) =~= before.push(artist@));
                assert(artist_tags_of(songs@.take(i + 1)) =~= artist_tags_of(songs@.take(i as int)).push(artist@));
            },
            None => {},
        }
        i += 1;
    }
    assert(songs@.take(songs@.len() as int) == songs@);
    names
}

/// Reports what the playlists lack: each missing song and each artist of a missing song
/// with the number of times it is missing, the most often missing first. There is no
/// report where nothing is missing.
pub fn generate_missing_report(playlists: &Vec<Playlist>) -> (report: Option<MissingReport>)
    ensures
        report is None == (missing_of(playlists@).len() == 0),
        report matches Some(r) ==> is_tally(labels_of(missing_of(playlists@)), r.songs@) && is_falling(r.songs@)
            && is_tally(artist_tags_of(missing_of(playlists@)), r.artists@) && is_falling(r.artists@),
{
    let missing = gather_missing(playlists);
    if missing.len() == 0 {
        return None;
    }
    let names = labels(&missing);
    let songs = sort_by_count(Ghost(texts(names@)), tally(&names));
    let tags = artist_tags(&missing);
    let artists = sort_by_count(Ghost(texts(tags@)), tally(&tags));
    Some(MissingReport { songs, artists })
}

/// The records of a list, compared field by field.
pub struct RecordLink<'a> {
    pub songs: &'a Vec<SongMetadata>,
}

impl<'a> Linkage for RecordLink<'a> {
    open spec fn count(&self) -> nat {
        self.songs@.len()
    }

    open spec fn linked(&self, rep: int, item: int) -> bool {
        self.songs@[rep]@ == self.songs@[item]@
    }

    fn size(&self) -> (n: usize) {
        self.songs.len()
    }

    fn test(&self, rep: usize, item: usize) -> (r: bool) {
        self.songs[rep].same_as(&self.songs[item])
    }
}

/// Whether records `a` and `b` of a list say the same, field by field.
pub open spec fn record_link(songs: Seq<SongMetadata>) -> spec_fn(int, int) -> bool {
    |a: int, b: int| songs[a]@ == songs[b]@
}

/// The classes of equal records of a list: each class holds the positions of the records
/// that say the same, in rising order, and the classes stand in the order of their first
/// members.
pub fn distinct_songs(songs: &Vec<SongMetadata>) -> (classes: Vec<Vec<usize>>)
    ensures
        is_clustering(record_link(songs@), classes@, songs@.len() as int),
        forall|a: int, b: int|
            0 <= a < songs@.len() && 0 <= b < songs@.len() ==> #[trigger] together(classes@, a, b) == (songs@[a]@
                == songs@[b]@),
{
    let link = RecordLink { songs };
    let classes = first_fit(&link);
    proof {
        assert(clusters_of(&link, classes@, songs@.len() as int));
        assert(link_of(&link) =~= record_link(songs@));
        assert(is_symmetric_transitive(record_link(songs@), songs@.len() as int));
        assert forall|a: int, b: int| 0 <= a < songs@.len() && 0 <= b < songs@.len() implies #[trigger] together(
            classes@,
            a,
            b,
        ) == (songs@[a]@ == songs@[b]@) by {
            lemma_clusters_are_classes(record_link(songs@), classes@, songs@.len() as int, a, b);
        }
    }
    classes
}

/// The first record of each class.
pub open spec fn firsts(songs: Seq<SongMetadata>, classes: Seq<Vec<usize>>) -> Seq<SongMetadata> {
    Seq::new(classes.len(), |k: int| songs[classes[k]@[0] as int])
}

/// What the playlists lack, song by song.
pub struct MissingSummary {
    /// The songs that the playlists lack, playlist by playlist.
    pub missing: Vec<SongMetadata>,
    /// The classes of equal records among them: one class for each missing song, with as
    /// many members as playlists lack it.
    pub classes: Vec<Vec<usize>>,
    /// The artists of the missing songs, each with the number of missing songs that name
    /// them, the most often named first.
    pub artists: Vec<Count>,
}

/// Sums up what the playlists lack: each missing song once, with the places where it is
/// missing, and each artist with the number of missing songs, each song counted once.
pub fn summarize_missing(playlists: &Vec<Playlist>) -> (summary: MissingSummary)
    ensures
        summary.missing@ == missing_of(playlists@),
        is_clustering(record_link(summary.missing@), summary.classes@, summary.missing@.len() as int),
        forall|a: int, b: int|
            0 <= a < summary.missing@.len() && 0 <= b < summary.missing@.len() ==> #[trigger] together(
                summary.classes@,
                a,
                b,
            ) == (summary.missing@[a]@ == summary.missing@[b]@),
        is_tally(artist_tags_of(firsts(summary.missing@, summary.classes@)), summary.artists@),
        is_falling(summary.artists@),
{
    let missing = gather_missing(playlists);
    let classes = distinct_songs(&missing);
    let mut once: Vec<SongMetadata> = Vec::new();
    let mut k: usize = 0;
    while k < classes.len()
        invariant
            k <= classes.len(),
            is_clustering(record_link(missing@), classes@, missing@.len() as int),
            once@.len() == k,
            forall|j: int| 0 <= j < k ==> once@[j] == missing@[classes@[j]@[0] as int],
        decreases classes.len() - k,
    {
        assert(classes@[k as int]@.len() > 0);
        assert(slot(classes@, k as int, 0));
        assert(0 <= at(classes@, k as int, 0) < missing@.len());
        once.push(missing[classes[k][0]].clone());
        k += 1;
    }
    assert(once@ =~= firsts(missing@, classes@));
    let tags = artist_tags(&once);
    let artists = sort_by_count(Ghost(texts(tags@)), tally(&tags));
    MissingSummary { missing, classes, artists }
}

impl Count {
    /// The line of the count in a report.
    pub fn line(&self) -> (line: String)
        ensures
            line@ == line_of(*self),
    {
        let mut line = String::from_str("[");
        push_decimal(&mut line, self.count as u64);
        line.append("] ");
        line.append(self.label.as_str());
        assert(line@ =~= line_of(*self));
        line
    }
}

} // verus!
