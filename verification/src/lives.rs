//! Live albums: the albums whose names tell of a concert, artist by artist.

use crate::hierarchy::{
    album_key, albums_in_order, artist_holds, artist_key, group_songs, has_entry, is_grouped, is_grouping,
    is_in_order, ArtistEntry,
};
use crate::library::Library;
use crate::metadata::{SongMetadata, SongRecord};
use crate::text::{
    chars_of, comes_before, contains, has_substring, lemma_lex_irreflexive, lemma_lex_total,
    lemma_lex_transitive, lex_before, lowercase_of,
};
use vstd::prelude::*;
use vstd::string::StringExecFns;

verus! {

/// The upper-case form of a character, one character or more, as `char::to_uppercase`
/// takes it from the Unicode tables.
pub uninterp spec fn uppercase_of(c: char) -> Seq<char>;

/// Calls `char::to_uppercase` and collects what it yields. Assumed, not proved: the
/// result depends on the character alone, and is what `uppercase_of` names.
#[verifier::external_body]
fn upper(c: char) -> (r: String)
    ensures
        r@ == uppercase_of(c),
{
    c.to_uppercase().collect()
}

/// Calls `Path::parent` and `Path::file_name`: the name of the folder that holds the file
/// at `path`, as the platform reads the path. Nothing is assumed of the result.
#[verifier::external_body]
fn parent_folder(path: &str) -> (name: Option<String>) {
    std::path::Path::new(path).parent().and_then(|p| p.file_name()).map(|s| s.to_string_lossy().to_string())
}

/// Whether an album name tells of a live recording, whatever its case.
pub open spec fn live_name(album: Seq<char>) -> bool {
    let s = lowercase_of(album);
    has_substring(s, "live"@) || has_substring(s, "concert"@) || has_substring(s, "tour"@) || has_substring(
        s,
        "performance"@,
    ) || has_substring(s, "unplugged"@) || has_substring(s, "sessions"@) || has_substring(s, "bbc"@)
        || has_substring(s, " at the "@) || has_substring(s, " in "@)
}

/// Whether an album name tells of a live recording.
pub fn is_live_album(album: &str) -> (live: bool)
    ensures
        live == live_name(album@),
{
    let lower = album.to_lowercase();
    let s = chars_of(lower.as_str());
    contains(&s, &chars_of("live")) || contains(&s, &chars_of("concert")) || contains(&s, &chars_of("tour"))
        || contains(&s, &chars_of("performance")) || contains(&s, &chars_of("unplugged")) || contains(
        &s,
        &chars_of("sessions"),
    ) || contains(&s, &chars_of("bbc")) || contains(&s, &chars_of(" at the ")) || contains(
        &s,
        &chars_of(" in "),
    )
}

/// A text with its first character in upper case.
pub open spec fn titlecased(s: Seq<char>) -> Seq<char> {
    if s.len() == 0 {
        s
    } else {
        uppercase_of(s[0]) + s.drop_first()
    }
}

/// A text with its first character in upper case.
pub fn titlecase(s: &str) -> (r: String)
    ensures
        r@ == titlecased(s@),
{
    let letters = chars_of(s);
    if letters.len() == 0 {
        return String::new();
    }
    let mut r = upper(letters[0]);
    let ghost head = r@;
    let mut i: usize = 1;
    while i < letters.len()
        invariant
            1 <= i <= letters.len(),
            r@ == head + letters@.subrange(1, i as int),
        decreases letters.len() - i,
    {
        r.push(letters[i]);
        i += 1;
        assert(letters@.subrange(1, i as int) == letters@.subrange(1, i - 1).push(letters@[i - 1]));
    }
    assert(letters@.subrange(1, letters@.len() as int) == letters@.drop_first());
    r
}

/// Whether a record belongs to a live album: it names an artist and an album, has a path,
/// and the album name tells of a live recording.
pub open spec fn is_live_song(s: SongRecord) -> bool {
    s.artist is Some && s.album is Some && s.file_path is Some && live_name(s.album->0)
}

/// The records of live albums, in their order.
pub open spec fn live_songs(songs: Seq<SongMetadata>) -> Seq<SongMetadata> {
    songs.filter(|s: SongMetadata| is_live_song(s@))
}

/// Whether a record belongs to a live album.
pub fn is_live(song: &SongMetadata) -> (live: bool)
    ensures
        live == is_live_song(song@),
{
    match (&song.artist, &song.album, &song.file_path) {
        (Some(_), Some(album), Some(_)) => is_live_album(album.as_str()),
        _ => false,
    }
}

/// The records of live albums.
fn select_live(songs: &Vec<SongMetadata>) -> (live: Vec<SongMetadata>)
    ensures
        live@ == live_songs(songs@),
{
    let mut live: Vec<SongMetadata> = Vec::new();
    let mut i: usize = 0;
    assert(songs@.take(0) =~= Seq::<SongMetadata>::empty());
    while i < songs.len()
        invariant
            i <= songs.len(),
            live@ == live_songs(songs@.take(i as int)),
        decreases songs.len() - i,
    {
        proof {
            let next = songs@.take(i + 1);
            assert(next.drop_last() == songs@.take(i as int));
            assert(next.last() == songs@[i as int]);
            reveal(Seq::filter);
        }
        if is_live(&songs[i]) {
            live.push(songs[i].clone());
        }
        i += 1;
    }
    assert(songs@.take(songs@.len() as int) == songs@);
    live
}

/// Whether no entry comes after one whose key comes after its own.
pub open spec fn is_sorted_by_key(h: Seq<ArtistEntry>) -> bool {
    forall|i: int, j: int| 0 <= i < j < h.len() ==> lex_before((#[trigger] h[i]).key@, (#[trigger] h[j]).key@)
}

/// Whether the two lists hold the same entries.
pub open spec fn same_entries(a: Seq<ArtistEntry>, b: Seq<ArtistEntry>) -> bool {
    &&& forall|i: int| 0 <= i < a.len() ==> b.contains(#[trigger] a[i])
    &&& forall|j: int| 0 <= j < b.len() ==> a.contains(#[trigger] b[j])
}

/// Whether `entry` stands in `all` at position `from` or later.
pub open spec fn stands_from(all: Seq<ArtistEntry>, from: int, entry: ArtistEntry) -> bool {
    exists|i: int| from <= i < all.len() && 0 <= i && #[trigger] all[i] == entry
}

/// Puts entries with different keys in the order of their keys.
fn sort_by_key(entries: Vec<ArtistEntry>) -> (sorted: Vec<ArtistEntry>)
    requires
        forall|i: int, j: int|
            0 <= i < j < entries@.len() ==> (#[trigger] entries@[i]).key@ != (#[trigger] entries@[j]).key@,
    ensures
        is_sorted_by_key(sorted@),
        same_entries(entries@, sorted@),
{
    let ghost all = entries@;
    let mut rest = entries;
    let mut sorted: Vec<ArtistEntry> = Vec::new();
    while rest.len() > 0
        invariant
            rest@.len() <= all.len(),
            rest@ == all.take(rest@.len() as int),
            forall|i: int, j: int| 0 <= i < j < all.len() ==> (#[trigger] all[i]).key@ != (#[trigger] all[j]).key@,
            is_sorted_by_key(sorted@),
            forall|i: int| rest@.len() <= i < all.len() ==> sorted@.contains(#[trigger] all[i]),
            forall|j: int| 0 <= j < sorted@.len() ==> stands_from(all, rest@.len() as int, #[trigger] sorted@[j]),
        decreases rest@.len(),
    {
        let ghost m = rest@.len() - 1;
        let entry = rest.pop().unwrap();
        assert(entry == all[m]);
        assert(rest@ =~= all.take(m));
        let key = chars_of(entry.key.as_str());
        let mut at: usize = 0;
        let ghost before = sorted@;
        assert forall|j: int| 0 <= j < before.len() implies (#[trigger] before[j]).key@ != entry.key@ by {
            assert(stands_from(all, m + 1, before[j]));
            let i = choose|i: int| m + 1 <= i < all.len() && 0 <= i && #[trigger] all[i] == before[j];
            assert(all[m].key@ != all[i].key@);
        }
        while at < sorted.len() && comes_before(&chars_of(sorted[at].key.as_str()), &key)
            invariant
                at <= sorted@.len(),
                sorted@ == before,
                key@ == entry.key@,
                forall|j: int| 0 <= j < at ==> lex_before((#[trigger] before[j]).key@, key@),
            decreases sorted@.len() - at,
        {
            at += 1;
        }
        proof {
            if at < before.len() {
                lemma_lex_total(before[at as int].key@, key@);
            }
            assert forall|j: int| at <= j < before.len() implies lex_before(key@, (#[trigger] before[j]).key@) by {
                if j > at {
                    assert(lex_before(before[at as int].key@, before[j].key@));
                    lemma_lex_transitive(key@, before[at as int].key@, before[j].key@);
                }
            }
        }
        sorted.insert(at, entry);
        proof {
            let after = sorted@;
            assert(after == before.insert(at as int, entry));
            assert(after[at as int] == entry);
            assert forall|i: int, j: int| 0 <= i < j < after.len() implies lex_before(
                (#[trigger] after[i]).key@,
                (#[trigger] after[j]).key@,
            ) by {
                if i < at && j > at {
                    assert(after[i] == before[i] && after[j] == before[j - 1]);
                } else if i < at && j < at {
                    assert(after[i] == before[i] && after[j] == before[j]);
                } else if i > at {
                    assert(after[i] == before[i - 1] && after[j] == before[j - 1]);
                } else if i == at {
                    assert(after[j] == before[j - 1]);
                } else {
                    assert(after[i] == before[i]);
                }
            }
            assert forall|i: int| m <= i < all.len() implies after.contains(#[trigger] all[i]) by {
                if i == m {
                    assert(after[at as int] == all[i]);
                } else {
                    let j = choose|j: int| 0 <= j < before.len() && before[j] == all[i];
                    if j < at {
                        assert(after[j] == all[i]);
                    } else {
                        assert(after[j + 1] == all[i]);
                    }
                }
            }
            assert forall|j: int| 0 <= j < after.len() implies stands_from(all, m, #[trigger] after[j]) by {
                if j == at {
                    assert(all[m] == after[j]);
                } else {
                    let k = if j < at {
                        j
                    } else {
                        j - 1
                    };
                    assert(after[j] == before[k]);
                    assert(stands_from(all, m + 1, before[k]));
                    let i = choose|i: int| m + 1 <= i < all.len() && 0 <= i && #[trigger] all[i] == before[k];
                    assert(all[i] == after[j]);
                }
            }
        }
    }
    proof {
        assert forall|j: int| 0 <= j < sorted@.len() implies all.contains(#[trigger] sorted@[j]) by {
            assert(stands_from(all, 0, sorted@[j]));
            let i = choose|i: int| 0 <= i < all.len() && 0 <= i && #[trigger] all[i] == sorted@[j];
            assert(all[i] == sorted@[j]);
        }
    }
    sorted
}

/// The same entries, whatever their order, group the same records.
pub proof fn lemma_grouping_reordered(
    h: Seq<ArtistEntry>,
    sorted: Seq<ArtistEntry>,
    songs: Seq<SongMetadata>,
    strict: bool,
)
    requires
        is_grouping(h, songs, strict),
        is_in_order(h, songs, strict),
        same_entries(h, sorted),
        is_sorted_by_key(sorted),
    ensures
        is_grouping(sorted, songs, strict),
        forall|j: int| 0 <= j < sorted.len() ==> albums_in_order(#[trigger] sorted[j], songs, strict),
{
    assert forall|j: int| 0 <= j < sorted.len() implies albums_in_order(#[trigger] sorted[j], songs, strict) by {
        assert(h.contains(sorted[j]));
        let i = choose|i: int| 0 <= i < h.len() && h[i] == sorted[j];
        assert(albums_in_order(h[i], songs, strict));
    }
    assert forall|j: int| 0 <= j < sorted.len() implies artist_holds(
        #[trigger] sorted[j],
        songs,
        strict,
    ) by {
        assert(h.contains(sorted[j]));
        let i = choose|i: int| 0 <= i < h.len() && h[i] == sorted[j];
        assert(artist_holds(h[i], songs, strict));
    }
    assert forall|i: int, j: int| 0 <= i < j < sorted.len() implies (#[trigger] sorted[i]).key@ != (
    #[trigger] sorted[j]).key@ by {
        lemma_lex_irreflexive(sorted[i].key@);
    }
    assert forall|a: Seq<char>, b: Seq<char>| #[trigger] has_entry(h, a, b) implies has_entry(sorted, a, b) by {
        let (i, x) = choose|i: int, x: int|
            0 <= i < h.len() && 0 <= x < h[i].albums@.len() && (#[trigger] h[i]).key@ == a && (
            #[trigger] h[i].albums@[x]).key@ == b;
        assert(sorted.contains(h[i]));
        let j = choose|j: int| 0 <= j < sorted.len() && sorted[j] == h[i];
        assert(sorted[j].key@ == a && sorted[j].albums@[x].key@ == b);
    }
    assert forall|k: int|
        0 <= k < songs.len() && is_grouped(#[trigger] songs[k]@, strict) implies has_entry(
        sorted,
        artist_key(songs[k]@),
        album_key(songs[k]@),
    ) by {
        assert(has_entry(h, artist_key(songs[k]@), album_key(songs[k]@)));
    }
}

/// What is done about the live albums of one artist.
#[derive(Debug, Clone, Copy, PartialEq, Eq, Structural)]
pub enum LiveStep {
    /// The artist has no live album.
    Nothing,
    /// The albums are listed and nothing is asked.
    Describe,
    /// The operator is asked whether to delete the one album.
    AskDelete,
    /// The operator is shown the menu for several albums.
    ShowMenu,
}

/// The step for an artist with this many live albums: in a dry run they are only listed,
/// one album is asked about, and several get the menu.
pub open spec fn live_step_for(albums: nat, dry_run: bool) -> LiveStep {
    if albums == 0 {
        LiveStep::Nothing
    } else if dry_run {
        LiveStep::Describe
    } else if albums == 1 {
        LiveStep::AskDelete
    } else {
        LiveStep::ShowMenu
    }
}

/// The step for an artist with this many live albums.
pub fn live_step(albums: usize, dry_run: bool) -> (step: LiveStep)
    ensures
        step == live_step_for(albums as nat, dry_run),
{
    if albums == 0 {
        LiveStep::Nothing
    } else if dry_run {
        LiveStep::Describe
    } else if albums == 1 {
        LiveStep::AskDelete
    } else {
        LiveStep::ShowMenu
    }
}

/// The live albums of a library with what is done about them.
pub struct LivePlan {
    /// The artists in the order of their keys, each with their live albums.
    pub artists: Vec<ArtistEntry>,
    /// For each artist the step that their albums call for.
    pub steps: Vec<LiveStep>,
}

/// Lists the live albums of a library: the artists in the order of their keys, each with
/// their live albums in the order of their first records and the records of each album,
/// and the step that each artist calls for. Nothing is asked and no file is touched.
pub fn run(library: &Library, dry_run: bool) -> (plan: LivePlan)
    ensures
        is_grouping(plan.artists@, live_songs(library.records()), false),
        is_sorted_by_key(plan.artists@),
        forall|i: int|
            0 <= i < plan.artists@.len() ==> albums_in_order(
                #[trigger] plan.artists@[i],
                live_songs(library.records()),
                false,
            ),
        plan.steps@.len() == plan.artists@.len(),
        forall|i: int|
            0 <= i < plan.steps@.len() ==> #[trigger] plan.steps@[i] == live_step_for(
                plan.artists@[i].albums@.len(),
                dry_run,
            ),
{
    let live = select_live(library.songs());
    let grouped = group_songs(&live, false);
    let ghost h = grouped@;
    let artists = sort_by_key(grouped);
    proof {
        lemma_grouping_reordered(h, artists@, live@, false);
    }
    let mut steps: Vec<LiveStep> = Vec::new();
    let mut i: usize = 0;
    while i < artists.len()
        invariant
            i <= artists.len(),
            steps@.len() == i,
            forall|k: int|
                0 <= k < i ==> #[trigger] steps@[k] == live_step_for(artists@[k].albums@.len(), dry_run),
        decreases artists.len() - i,
    {
        steps.push(live_step(artists[i].albums.len(), dry_run));
        i += 1;
    }
    LivePlan { artists, steps }
}

/// The name under which an album is shown: the name of its folder, where one was found.
pub open spec fn shown_name(folder: Option<Seq<char>>) -> Seq<char> {
    match folder {
        Some(name) => name,
        None => "Unknown Album"@,
    }
}

/// The name under which an album is shown, given the name of its folder.
pub fn display_name(folder: Option<String>) -> (name: String)
    ensures
        name@ == shown_name(crate::metadata::text_view(folder)),
{
    match folder {
        Some(name) => name,
        None => String::from_str("Unknown Album"),
    }
}

/// The name under which the album of the file at `path` is shown. Which folder holds the
/// file is for the platform to read from the path, so nothing is stated of the result.
pub fn album_display_name(path: &str) -> (name: String) {
    display_name(parent_folder(path))
}

} // verus!
