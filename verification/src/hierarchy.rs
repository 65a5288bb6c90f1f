//! The hierarchy of a library: its records by artist, then by album.

use crate::metadata::{text_key, SongMetadata, SongRecord};
use vstd::prelude::*;

verus! {

/// An album of one artist with the songs found for it.
pub struct AlbumEntry {
    /// The key of the album's name.
    pub key: String,
    /// The album's name as the first of its songs gives it.
    pub name: String,
    pub songs: Vec<SongMetadata>,
}

/// An artist with the albums found for them.
pub struct ArtistEntry {
    /// The key of the artist's name.
    pub key: String,
    /// The artist's name as the first of their songs gives it.
    pub name: String,
    pub albums: Vec<AlbumEntry>,
}

/// The key of a record's artist.
pub open spec fn artist_key(s: SongRecord) -> Seq<char> {
    text_key(s.artist)
}

/// The key of a record's album.
pub open spec fn album_key(s: SongRecord) -> Seq<char> {
    text_key(s.album)
}

/// Whether a record names both an artist and an album.
pub open spec fn catalogued(s: SongRecord) -> bool {
    artist_key(s).len() > 0 && album_key(s).len() > 0
}

/// The records of `songs` with the given artist and album keys, in their order.
pub open spec fn songs_of(songs: Seq<SongMetadata>, artist: Seq<char>, album: Seq<char>) -> Seq<
    SongMetadata,
> {
    songs.filter(|s: SongMetadata| artist_key(s@) == artist && album_key(s@) == album)
}

/// Whether a record is grouped: with `strict` only if it names an artist and an album.
pub open spec fn is_grouped(s: SongRecord, strict: bool) -> bool {
    strict ==> catalogued(s)
}

/// The name that a tag gives: the tag itself, and the key where the tag is missing.
pub open spec fn named_by(tag: Option<Seq<char>>, key: Seq<char>) -> Seq<char> {
    match tag {
        Some(t) => t,
        None => key,
    }
}

/// The album entry holds all the records of `songs` with its key and the artist's, in
/// their order, at least one, and is named as the first of them names its album. With
/// `strict` its key is not empty.
pub open spec fn album_holds(album: AlbumEntry, artist: Seq<char>, songs: Seq<SongMetadata>, strict: bool) -> bool {
    &&& strict ==> album.key@.len() > 0
    &&& album.songs@ == songs_of(songs, artist, album.key@)
    &&& album.songs@.len() > 0
    &&& album.name@ == named_by(album.songs@[0]@.album, album.key@)
}

/// The artist entry has at least one album, each holding its records, no two under one
/// key, and is named as the first record of the first album names its artist. With
/// `strict` its key is not empty.
pub open spec fn artist_holds(entry: ArtistEntry, songs: Seq<SongMetadata>, strict: bool) -> bool {
    &&& strict ==> entry.key@.len() > 0
    &&& entry.albums@.len() > 0
    &&& forall|x: int|
        0 <= x < entry.albums@.len() ==> album_holds(#[trigger] entry.albums@[x], entry.key@, songs, strict)
    &&& forall|x: int, y: int|
        0 <= x < y < entry.albums@.len() ==> (#[trigger] entry.albums@[x]).key@
            != (#[trigger] entry.albums@[y]).key@
    &&& entry.name@ == named_by(entry.albums@[0].songs@[0]@.artist, entry.key@)
}

/// Whether the hierarchy has an album under the two keys.
pub open spec fn has_entry(h: Seq<ArtistEntry>, artist: Seq<char>, album: Seq<char>) -> bool {
    exists|i: int, x: int|
        0 <= i < h.len() && 0 <= x < h[i].albums@.len() && (#[trigger] h[i]).key@ == artist
            && (#[trigger] h[i].albums@[x]).key@ == album
}

/// The grouping of `songs`: one entry for each artist key, one album for each album key
/// under it, and every grouped record in its album.
pub open spec fn is_grouping(h: Seq<ArtistEntry>, songs: Seq<SongMetadata>, strict: bool) -> bool {
    &&& forall|i: int| 0 <= i < h.len() ==> artist_holds(#[trigger] h[i], songs, strict)
    &&& forall|i: int, j: int|
        0 <= i < j < h.len() ==> (#[trigger] h[i]).key@ != (#[trigger] h[j]).key@
    &&& forall|k: int|
        0 <= k < songs.len() && is_grouped(#[trigger] songs[k]@, strict) ==> has_entry(
            h,
            artist_key(songs[k]@),
            album_key(songs[k]@),
        )
}

/// The hierarchy of `songs`: one entry for each artist key, one album for each album key
/// under it, and every record that names both an artist and an album in its album.
pub open spec fn is_hierarchy(h: Seq<ArtistEntry>, songs: Seq<SongMetadata>) -> bool {
    is_grouping(h, songs, true)
}

/// Where the first record that `pred` holds of stands; the number of records where it
/// holds of none.
pub open spec fn first_where(songs: Seq<SongMetadata>, pred: spec_fn(SongMetadata) -> bool) -> int
    decreases songs.len(),
{
    if songs.len() == 0 || pred(songs[0]) {
        0
    } else {
        1 + first_where(songs.drop_first(), pred)
    }
}

/// Where the first grouped record of an artist stands.
pub open spec fn artist_first(songs: Seq<SongMetadata>, strict: bool, artist: Seq<char>) -> int {
    first_where(songs, |s: SongMetadata| is_grouped(s@, strict) && artist_key(s@) == artist)
}

/// Where the first grouped record of an album stands.
pub open spec fn album_first(songs: Seq<SongMetadata>, strict: bool, artist: Seq<char>, album: Seq<char>) -> int {
    first_where(
        songs,
        |s: SongMetadata| is_grouped(s@, strict) && artist_key(s@) == artist && album_key(s@) == album,
    )
}

/// The albums of the entry stand in the order of their first records.
pub open spec fn albums_in_order(entry: ArtistEntry, songs: Seq<SongMetadata>, strict: bool) -> bool {
    &&& forall|x: int|
        0 <= x < entry.albums@.len() ==> album_first(songs, strict, entry.key@, (#[trigger] entry.albums@[x]).key@)
            < songs.len()
    &&& forall|x: int, y: int|
        0 <= x < y < entry.albums@.len() ==> album_first(
            songs,
            strict,
            entry.key@,
            (#[trigger] entry.albums@[x]).key@,
        ) < album_first(songs, strict, entry.key@, (#[trigger] entry.albums@[y]).key@)
}

/// The artists stand in the order of their first records, and so do the albums of each.
pub open spec fn is_in_order(h: Seq<ArtistEntry>, songs: Seq<SongMetadata>, strict: bool) -> bool {
    &&& forall|i: int| 0 <= i < h.len() ==> artist_first(songs, strict, (#[trigger] h[i]).key@) < songs.len()
    &&& forall|i: int, j: int|
        0 <= i < j < h.len() ==> artist_first(songs, strict, (#[trigger] h[i]).key@) < artist_first(
            songs,
            strict,
            (#[trigger] h[j]).key@,
        )
    &&& forall|i: int| 0 <= i < h.len() ==> albums_in_order(#[trigger] h[i], songs, strict)
}

/// What one more record does to the place of the first record that `pred` holds of.
pub proof fn lemma_first_where_push(songs: Seq<SongMetadata>, s: SongMetadata, pred: spec_fn(SongMetadata) -> bool)
    ensures
        0 <= first_where(songs, pred) <= songs.len(),
        first_where(songs.push(s), pred) == if first_where(songs, pred) < songs.len() {
            first_where(songs, pred)
        } else if pred(s) {
            songs.len() as int
        } else {
            songs.len() as int + 1
        },
    decreases songs.len(),
{
    let more = songs.push(s);
    if songs.len() == 0 {
        assert(more[0] == s);
        assert(more.drop_first().len() == 0);
        assert(first_where(more.drop_first(), pred) == 0);
    } else if pred(songs[0]) {
        assert(more[0] == songs[0]);
    } else {
        assert(more[0] == songs[0]);
        lemma_first_where_push(songs.drop_first(), s, pred);
        assert(more.drop_first() == songs.drop_first().push(s));
    }
}

/// Where `pred` holds of no record the first place is the number of records.
pub proof fn lemma_first_where_none(songs: Seq<SongMetadata>, pred: spec_fn(SongMetadata) -> bool)
    requires
        forall|k: int| 0 <= k < songs.len() ==> !pred(#[trigger] songs[k]),
    ensures
        first_where(songs, pred) == songs.len(),
    decreases songs.len(),
{
    if songs.len() > 0 {
        let rest = songs.drop_first();
        assert forall|k: int| 0 <= k < rest.len() implies !pred(#[trigger] rest[k]) by {
            assert(rest[k] == songs[k + 1]);
        }
        lemma_first_where_none(rest, pred);
    }
}

/// One more record keeps the entries in the order of their first records: an entry that
/// was there keeps its first record, and a new entry has the new record for its first.
proof fn lemma_order_extends(
    h: Seq<ArtistEntry>,
    d: Seq<ArtistEntry>,
    songs: Seq<SongMetadata>,
    s: SongMetadata,
    strict: bool,
)
    requires
        is_grouping(h, songs, strict),
        is_in_order(h, songs, strict),
        is_grouping(d, songs.push(s), strict),
        h.len() <= d.len() <= h.len() + 1,
        forall|i: int|
            0 <= i < h.len() ==> (#[trigger] d[i]).key@ == h[i].key@ && h[i].albums@.len() <= d[i].albums@.len()
                <= h[i].albums@.len() + 1,
        forall|i: int, x: int|
            0 <= i < h.len() && 0 <= x < h[i].albums@.len() ==> (#[trigger] d[i].albums@[x]).key@
                == h[i].albums@[x].key@,
        forall|i: int|
            0 <= i < h.len() && (#[trigger] d[i]).albums@.len() == h[i].albums@.len() + 1 ==> d[i].key@
                == artist_key(s@) && d[i].albums@[h[i].albums@.len() as int].key@ == album_key(s@) && is_grouped(
                s@,
                strict,
            ),
        d.len() == h.len() + 1 ==> d[h.len() as int].key@ == artist_key(s@) && d[h.len() as int].albums@.len()
            == 1 && d[h.len() as int].albums@[0].key@ == album_key(s@) && is_grouped(s@, strict),
    ensures
        is_in_order(d, songs.push(s), strict),
{
    let more = songs.push(s);
    let n = songs.len() as int;
    // An artist that was there keeps its first record.
    assert forall|i: int| 0 <= i < h.len() implies artist_first(more, strict, (#[trigger] d[i]).key@)
        == artist_first(songs, strict, h[i].key@) && artist_first(songs, strict, h[i].key@) < n by {
        lemma_first_where_push(
            songs,
            s,
            |r: SongMetadata| is_grouped(r@, strict) && artist_key(r@) == h[i].key@,
        );
        assert(artist_first(songs, strict, h[i].key@) < n);
    }
    // An album that was there keeps its first record.
    assert forall|i: int, x: int| 0 <= i < h.len() && 0 <= x < h[i].albums@.len() implies album_first(
        more,
        strict,
        d[i].key@,
        (#[trigger] d[i].albums@[x]).key@,
    ) == album_first(songs, strict, h[i].key@, h[i].albums@[x].key@) && album_first(
        songs,
        strict,
        h[i].key@,
        h[i].albums@[x].key@,
    ) < n by {
        lemma_first_where_push(
            songs,
            s,
            |r: SongMetadata|
                is_grouped(r@, strict) && artist_key(r@) == h[i].key@ && album_key(r@) == h[i].albums@[x].key@,
        );
        assert(albums_in_order(h[i], songs, strict));
        assert(album_first(songs, strict, h[i].key@, h[i].albums@[x].key@) < n);
    }
    // A new artist has the new record for its first.
    if d.len() == h.len() + 1 {
        let last = h.len() as int;
        let key = artist_key(s@);
        assert forall|k: int| 0 <= k < n implies !(is_grouped(#[trigger] songs[k]@, strict) && artist_key(songs[k]@)
            == key) by {
            if is_grouped(songs[k]@, strict) && artist_key(songs[k]@) == key {
                assert(has_entry(h, artist_key(songs[k]@), album_key(songs[k]@)));
                let (i, x) = choose|i: int, x: int|
                    0 <= i < h.len() && 0 <= x < h[i].albums@.len() && (#[trigger] h[i]).key@ == key && (
                    #[trigger] h[i].albums@[x]).key@ == album_key(songs[k]@);
                assert(d[i].key@ != d[last].key@);
            }
        }
        lemma_first_where_none(songs, |r: SongMetadata| is_grouped(r@, strict) && artist_key(r@) == key);
        lemma_first_where_push(songs, s, |r: SongMetadata| is_grouped(r@, strict) && artist_key(r@) == key);
        assert(artist_first(more, strict, d[last].key@) == n);
        lemma_first_where_none(
            songs,
            |r: SongMetadata| is_grouped(r@, strict) && artist_key(r@) == key && album_key(r@) == album_key(s@),
        );
        lemma_first_where_push(
            songs,
            s,
            |r: SongMetadata| is_grouped(r@, strict) && artist_key(r@) == key && album_key(r@) == album_key(s@),
        );
        assert(album_first(more, strict, d[last].key@, d[last].albums@[0].key@) == n);
        assert(albums_in_order(d[last], more, strict));
    }
    // A new album of an artist that was there has the new record for its first.
    assert forall|i: int| 0 <= i < h.len() implies albums_in_order(#[trigger] d[i], more, strict) by {
        assert(albums_in_order(h[i], songs, strict));
        if d[i].albums@.len() == h[i].albums@.len() + 1 {
            let last = h[i].albums@.len() as int;
            let key = artist_key(s@);
            let album = album_key(s@);
            assert(artist_holds(d[i], more, strict));
            assert forall|k: int| 0 <= k < n implies !(is_grouped(#[trigger] songs[k]@, strict) && artist_key(
                songs[k]@,
            ) == key && album_key(songs[k]@) == album) by {
                if is_grouped(songs[k]@, strict) && artist_key(songs[k]@) == key && album_key(songs[k]@) == album {
                    assert(has_entry(h, key, album));
                    let (j, x) = choose|j: int, x: int|
                        0 <= j < h.len() && 0 <= x < h[j].albums@.len() && (#[trigger] h[j]).key@ == key && (
                        #[trigger] h[j].albums@[x]).key@ == album;
                    if j < i {
                        assert(h[j].key@ != h[i].key@);
                    } else if i < j {
                        assert(h[i].key@ != h[j].key@);
                    }
                    assert(d[i].albums@[x].key@ != d[i].albums@[last].key@);
                }
            }
            lemma_first_where_none(
                songs,
                |r: SongMetadata| is_grouped(r@, strict) && artist_key(r@) == key && album_key(r@) == album,
            );
            lemma_first_where_push(
                songs,
                s,
                |r: SongMetadata| is_grouped(r@, strict) && artist_key(r@) == key && album_key(r@) == album,
            );
            assert(album_first(more, strict, d[i].key@, d[i].albums@[last].key@) == n);
        }
        assert forall|x: int| 0 <= x < d[i].albums@.len() implies album_first(
            more,
            strict,
            d[i].key@,
            (#[trigger] d[i].albums@[x]).key@,
        ) < more.len() by {}
        assert forall|x: int, y: int| 0 <= x < y < d[i].albums@.len() implies album_first(
            more,
            strict,
            d[i].key@,
            (#[trigger] d[i].albums@[x]).key@,
        ) < album_first(more, strict, d[i].key@, (#[trigger] d[i].albums@[y]).key@) by {
            if y < h[i].albums@.len() {
                assert(album_first(songs, strict, h[i].key@, h[i].albums@[x].key@) < album_first(
                    songs,
                    strict,
                    h[i].key@,
                    h[i].albums@[y].key@,
                ));
            }
        }
    }
    assert forall|i: int, j: int| 0 <= i < j < d.len() implies artist_first(more, strict, (#[trigger] d[i]).key@)
        < artist_first(more, strict, (#[trigger] d[j]).key@) by {
        if j < h.len() {
            assert(artist_first(songs, strict, h[i].key@) < artist_first(songs, strict, h[j].key@));
        }
    }
}

/// What one more record adds to the records under two keys.
pub proof fn lemma_songs_of_push(songs: Seq<SongMetadata>, s: SongMetadata, artist: Seq<char>, album: Seq<char>)
    ensures
        songs_of(songs.push(s), artist, album) == if artist_key(s@) == artist && album_key(s@) == album {
            songs_of(songs, artist, album).push(s)
        } else {
            songs_of(songs, artist, album)
        },
{
    reveal(Seq::filter);
    assert(songs.push(s).drop_last() == songs);
}

/// Records under two keys exist only where some record has those keys.
pub proof fn lemma_songs_of_none(songs: Seq<SongMetadata>, artist: Seq<char>, album: Seq<char>)
    requires
        forall|k: int|
            0 <= k < songs.len() ==> !(artist_key(#[trigger] songs[k]@) == artist && album_key(songs[k]@)
                == album),
    ensures
        songs_of(songs, artist, album).len() == 0,
    decreases songs.len(),
{
    reveal(Seq::filter);
    if songs.len() > 0 {
        let rest = songs.drop_last();
        assert forall|k: int| 0 <= k < rest.len() implies !(artist_key(#[trigger] rest[k]@) == artist
            && album_key(rest[k]@) == album) by {
            assert(rest[k] == songs[k]);
        }
        lemma_songs_of_none(rest, artist, album);
    }
}

/// A record that names no artist or no album leaves the hierarchy as it is.
proof fn lemma_song_skipped(h: Seq<ArtistEntry>, songs: Seq<SongMetadata>, s: SongMetadata, strict: bool)
    requires
        is_grouping(h, songs, strict),
        strict,
        !catalogued(s@),
    ensures
        is_grouping(h, songs.push(s), strict),
{
    let more = songs.push(s);
    assert forall|i: int| 0 <= i < h.len() implies artist_holds(#[trigger] h[i], more, strict) by {
        assert(artist_holds(h[i], songs, strict));
        assert forall|x: int| 0 <= x < h[i].albums@.len() implies album_holds(
            #[trigger] h[i].albums@[x],
            h[i].key@,
            more,
            strict,
        ) by {
            assert(album_holds(h[i].albums@[x], h[i].key@, songs, strict));
            lemma_songs_of_push(songs, s, h[i].key@, h[i].albums@[x].key@);
        }
    }
    assert forall|k: int| 0 <= k < more.len() && is_grouped(#[trigger] more[k]@, strict) implies has_entry(
        h,
        artist_key(more[k]@),
        album_key(more[k]@),
    ) by {
        assert(more[k] == songs[k]);
    }
}

/// The other entries of an artist stay as they are when a record with another album key
/// or another artist key comes.
proof fn lemma_album_kept(
    album: AlbumEntry,
    artist: Seq<char>,
    songs: Seq<SongMetadata>,
    s: SongMetadata,
    strict: bool,
)
    requires
        album_holds(album, artist, songs, strict),
        !(artist_key(s@) == artist && album_key(s@) == album.key@),
    ensures
        album_holds(album, artist, songs.push(s), strict),
{
    lemma_songs_of_push(songs, s, artist, album.key@);
}

/// Every record of the longer list has an entry once the new record has one.
proof fn lemma_entries_kept(
    h: Seq<ArtistEntry>,
    d: Seq<ArtistEntry>,
    songs: Seq<SongMetadata>,
    s: SongMetadata,
    strict: bool,
)
    requires
        is_grouping(h, songs, strict),
        has_entry(d, artist_key(s@), album_key(s@)),
        forall|a: Seq<char>, b: Seq<char>| #[trigger] has_entry(h, a, b) ==> has_entry(d, a, b),
    ensures
        forall|k: int|
            0 <= k < songs.push(s).len() && is_grouped(#[trigger] songs.push(s)[k]@, strict) ==> has_entry(
                d,
                artist_key(songs.push(s)[k]@),
                album_key(songs.push(s)[k]@),
            ),
{
    let more = songs.push(s);
    assert forall|k: int| 0 <= k < more.len() && is_grouped(#[trigger] more[k]@, strict) implies has_entry(
        d,
        artist_key(more[k]@),
        album_key(more[k]@),
    ) by {
        if k < songs.len() {
            assert(more[k] == songs[k]);
            assert(has_entry(h, artist_key(songs[k]@), album_key(songs[k]@)));
        }
    }
}

/// A record joins the album that has its keys.
proof fn lemma_song_joins(
    h: Seq<ArtistEntry>,
    d: Seq<ArtistEntry>,
    songs: Seq<SongMetadata>,
    s: SongMetadata,
    i: int,
    x: int,
    strict: bool,
)
    requires
        is_grouping(h, songs, strict),
        is_grouped(s@, strict),
        0 <= i < h.len(),
        0 <= x < h[i].albums@.len(),
        h[i].key@ == artist_key(s@),
        h[i].albums@[x].key@ == album_key(s@),
        d.len() == h.len(),
        forall|j: int| 0 <= j < h.len() && j != i ==> d[j] == h[j],
        d[i].key == h[i].key,
        d[i].name == h[i].name,
        d[i].albums@.len() == h[i].albums@.len(),
        forall|y: int| 0 <= y < h[i].albums@.len() && y != x ==> d[i].albums@[y] == h[i].albums@[y],
        d[i].albums@[x].key == h[i].albums@[x].key,
        d[i].albums@[x].name == h[i].albums@[x].name,
        d[i].albums@[x].songs@ == h[i].albums@[x].songs@.push(s),
    ensures
        is_grouping(d, songs.push(s), strict),
{
    let more = songs.push(s);
    assert(artist_holds(h[i], songs, strict));
    assert forall|j: int| 0 <= j < d.len() implies artist_holds(#[trigger] d[j], more, strict) by {
        assert(artist_holds(h[j], songs, strict));
        assert forall|y: int| 0 <= y < d[j].albums@.len() implies album_holds(
            #[trigger] d[j].albums@[y],
            d[j].key@,
            more,
            strict,
        ) by {
            assert(album_holds(h[j].albums@[y], h[j].key@, songs, strict));
            if j == i && y == x {
                lemma_songs_of_push(songs, s, h[i].key@, h[i].albums@[x].key@);
            } else {
                if j == i {
                    if y < x {
                        assert(h[i].albums@[y].key@ != h[i].albums@[x].key@);
                    } else {
                        assert(h[i].albums@[x].key@ != h[i].albums@[y].key@);
                    }
                } else if j < i {
                    assert(h[j].key@ != h[i].key@);
                } else {
                    assert(h[i].key@ != h[j].key@);
                }
                lemma_album_kept(h[j].albums@[y], h[j].key@, songs, s, strict);
            }
        }
        assert forall|y: int, z: int| 0 <= y < z < d[j].albums@.len() implies (#[trigger] d[j].albums@[y]).key@
            != (#[trigger] d[j].albums@[z]).key@ by {
            assert(h[j].albums@[y].key@ != h[j].albums@[z].key@);
        }
        assert(album_holds(h[j].albums@[0], h[j].key@, songs, strict));
    }
    assert forall|j: int, k: int| 0 <= j < k < d.len() implies (#[trigger] d[j]).key@ != (
    #[trigger] d[k]).key@ by {
        assert(h[j].key@ != h[k].key@);
    }
    assert forall|a: Seq<char>, b: Seq<char>| #[trigger] has_entry(h, a, b) implies has_entry(d, a, b) by {
        let (j, y) = choose|j: int, y: int|
            0 <= j < h.len() && 0 <= y < h[j].albums@.len() && (#[trigger] h[j]).key@ == a && (
            #[trigger] h[j].albums@[y]).key@ == b;
        assert(d[j].key@ == a && d[j].albums@[y].key@ == b);
    }
    assert(d[i].key@ == artist_key(s@) && d[i].albums@[x].key@ == album_key(s@));
    lemma_entries_kept(h, d, songs, s, strict);
}

/// A record opens a new album under the artist that has its artist key.
proof fn lemma_album_opens(
    h: Seq<ArtistEntry>,
    d: Seq<ArtistEntry>,
    songs: Seq<SongMetadata>,
    s: SongMetadata,
    i: int,
    strict: bool,
)
    requires
        is_grouping(h, songs, strict),
        is_grouped(s@, strict),
        0 <= i < h.len(),
        h[i].key@ == artist_key(s@),
        forall|y: int| 0 <= y < h[i].albums@.len() ==> (#[trigger] h[i].albums@[y]).key@ != album_key(s@),
        d.len() == h.len(),
        forall|j: int| 0 <= j < h.len() && j != i ==> d[j] == h[j],
        d[i].key == h[i].key,
        d[i].name == h[i].name,
        d[i].albums@.len() == h[i].albums@.len() + 1,
        forall|y: int| 0 <= y < h[i].albums@.len() ==> d[i].albums@[y] == h[i].albums@[y],
        d[i].albums@[h[i].albums@.len() as int].key@ == album_key(s@),
        d[i].albums@[h[i].albums@.len() as int].name@ == named_by(s@.album, album_key(s@)),
        d[i].albums@[h[i].albums@.len() as int].songs@ == seq![s],
    ensures
        is_grouping(d, songs.push(s), strict),
{
    let more = songs.push(s);
    let last = h[i].albums@.len() as int;
    assert(artist_holds(h[i], songs, strict));
    assert(songs_of(songs, artist_key(s@), album_key(s@)).len() == 0) by {
        assert forall|k: int| 0 <= k < songs.len() implies !(artist_key(#[trigger] songs[k]@) == artist_key(s@)
            && album_key(songs[k]@) == album_key(s@)) by {
            if artist_key(songs[k]@) == artist_key(s@) && album_key(songs[k]@) == album_key(s@) {
                assert(is_grouped(songs[k]@, strict));
                assert(has_entry(h, artist_key(s@), album_key(s@)));
                let (j, y) = choose|j: int, y: int|
                    0 <= j < h.len() && 0 <= y < h[j].albums@.len() && (#[trigger] h[j]).key@
                        == artist_key(s@) && (#[trigger] h[j].albums@[y]).key@ == album_key(s@);
                if j < i {
                    assert(h[j].key@ != h[i].key@);
                } else if i < j {
                    assert(h[i].key@ != h[j].key@);
                }
                assert(h[i].albums@[y].key@ != album_key(s@));
            }
        }
        lemma_songs_of_none(songs, artist_key(s@), album_key(s@));
    }
    assert forall|j: int| 0 <= j < d.len() implies artist_holds(#[trigger] d[j], more, strict) by {
        assert(artist_holds(h[j], songs, strict));
        assert forall|y: int| 0 <= y < d[j].albums@.len() implies album_holds(
            #[trigger] d[j].albums@[y],
            d[j].key@,
            more,
            strict,
        ) by {
            if j == i && y == last {
                lemma_songs_of_push(songs, s, artist_key(s@), album_key(s@));
                assert(songs_of(songs, artist_key(s@), album_key(s@)).push(s) =~= seq![s]);
            } else {
                assert(album_holds(h[j].albums@[y], h[j].key@, songs, strict));
                if j < i {
                    assert(h[j].key@ != h[i].key@);
                } else if i < j {
                    assert(h[i].key@ != h[j].key@);
                }
                lemma_album_kept(h[j].albums@[y], h[j].key@, songs, s, strict);
            }
        }
        assert forall|y: int, z: int| 0 <= y < z < d[j].albums@.len() implies (#[trigger] d[j].albums@[y]).key@
            != (#[trigger] d[j].albums@[z]).key@ by {
            if j == i && z == last {
                assert(h[i].albums@[y].key@ != album_key(s@));
            } else {
                assert(h[j].albums@[y].key@ != h[j].albums@[z].key@);
            }
        }
        assert(album_holds(h[j].albums@[0], h[j].key@, songs, strict));
    }
    assert forall|j: int, k: int| 0 <= j < k < d.len() implies (#[trigger] d[j]).key@ != (
    #[trigger] d[k]).key@ by {
        assert(h[j].key@ != h[k].key@);
    }
    assert forall|a: Seq<char>, b: Seq<char>| #[trigger] has_entry(h, a, b) implies has_entry(d, a, b) by {
        let (j, y) = choose|j: int, y: int|
            0 <= j < h.len() && 0 <= y < h[j].albums@.len() && (#[trigger] h[j]).key@ == a && (
            #[trigger] h[j].albums@[y]).key@ == b;
        assert(d[j].key@ == a && d[j].albums@[y].key@ == b);
    }
    assert(d[i].key@ == artist_key(s@) && d[i].albums@[last].key@ == album_key(s@));
    lemma_entries_kept(h, d, songs, s, strict);
}

/// A record opens a new artist, with one album, where none has its artist key.
proof fn lemma_artist_opens(
    h: Seq<ArtistEntry>,
    d: Seq<ArtistEntry>,
    songs: Seq<SongMetadata>,
    s: SongMetadata,
    strict: bool,
)
    requires
        is_grouping(h, songs, strict),
        is_grouped(s@, strict),
        forall|j: int| 0 <= j < h.len() ==> (#[trigger] h[j]).key@ != artist_key(s@),
        d.len() == h.len() + 1,
        forall|j: int| 0 <= j < h.len() ==> d[j] == h[j],
        d[h.len() as int].key@ == artist_key(s@),
        d[h.len() as int].name@ == named_by(s@.artist, artist_key(s@)),
        d[h.len() as int].albums@.len() == 1,
        d[h.len() as int].albums@[0].key@ == album_key(s@),
        d[h.len() as int].albums@[0].name@ == named_by(s@.album, album_key(s@)),
        d[h.len() as int].albums@[0].songs@ == seq![s],
    ensures
        is_grouping(d, songs.push(s), strict),
{
    let more = songs.push(s);
    let last = h.len() as int;
    assert(songs_of(songs, artist_key(s@), album_key(s@)).len() == 0) by {
        assert forall|k: int| 0 <= k < songs.len() implies !(artist_key(#[trigger] songs[k]@) == artist_key(s@)
            && album_key(songs[k]@) == album_key(s@)) by {
            if artist_key(songs[k]@) == artist_key(s@) && album_key(songs[k]@) == album_key(s@) {
                assert(is_grouped(songs[k]@, strict));
                assert(has_entry(h, artist_key(s@), album_key(s@)));
                let (j, y) = choose|j: int, y: int|
                    0 <= j < h.len() && 0 <= y < h[j].albums@.len() && (#[trigger] h[j]).key@
                        == artist_key(s@) && (#[trigger] h[j].albums@[y]).key@ == album_key(s@);
                assert(h[j].key@ != artist_key(s@));
            }
        }
        lemma_songs_of_none(songs, artist_key(s@), album_key(s@));
    }
    assert forall|j: int| 0 <= j < d.len() implies artist_holds(#[trigger] d[j], more, strict) by {
        if j == last {
            lemma_songs_of_push(songs, s, artist_key(s@), album_key(s@));
            assert(songs_of(songs, artist_key(s@), album_key(s@)).push(s) =~= seq![s]);
            assert(album_holds(d[j].albums@[0], d[j].key@, more, strict));
        } else {
            assert(artist_holds(h[j], songs, strict));
            assert(h[j].key@ != artist_key(s@));
            assert forall|y: int| 0 <= y < d[j].albums@.len() implies album_holds(
                #[trigger] d[j].albums@[y],
                d[j].key@,
                more,
                strict,
            ) by {
                assert(album_holds(h[j].albums@[y], h[j].key@, songs, strict));
                lemma_album_kept(h[j].albums@[y], h[j].key@, songs, s, strict);
            }
            assert(album_holds(h[j].albums@[0], h[j].key@, songs, strict));
        }
    }
    assert forall|j: int, k: int| 0 <= j < k < d.len() implies (#[trigger] d[j]).key@ != (
    #[trigger] d[k]).key@ by {
        if k == last {
            assert(h[j].key@ != artist_key(s@));
        } else {
            assert(h[j].key@ != h[k].key@);
        }
    }
    assert forall|a: Seq<char>, b: Seq<char>| #[trigger] has_entry(h, a, b) implies has_entry(d, a, b) by {
        let (j, y) = choose|j: int, y: int|
            0 <= j < h.len() && 0 <= y < h[j].albums@.len() && (#[trigger] h[j]).key@ == a && (
            #[trigger] h[j].albums@[y]).key@ == b;
        assert(d[j].key@ == a && d[j].albums@[y].key@ == b);
    }
    assert(d[last].key@ == artist_key(s@) && d[last].albums@[0].key@ == album_key(s@));
    lemma_entries_kept(h, d, songs, s, strict);
}

/// Where the artist with the given key stands, if there is one.
fn find_artist(h: &Vec<ArtistEntry>, key: &String) -> (r: Option<usize>)
    ensures
        match r {
            Some(i) => i < h.len() && h@[i as int].key@ == key@,
            None => forall|j: int| 0 <= j < h.len() ==> (#[trigger] h@[j]).key@ != key@,
        },
{
    let mut i: usize = 0;
    while i < h.len()
        invariant
            i <= h.len(),
            forall|j: int| 0 <= j < i ==> (#[trigger] h@[j]).key@ != key@,
        decreases h.len() - i,
    {
        if h[i].key == *key {
            return Some(i);
        }
        i += 1;
    }
    None
}

/// Where the album with the given key stands, if there is one.
fn find_album(albums: &Vec<AlbumEntry>, key: &String) -> (r: Option<usize>)
    ensures
        match r {
            Some(x) => x < albums.len() && albums@[x as int].key@ == key@,
            None => forall|y: int| 0 <= y < albums.len() ==> (#[trigger] albums@[y]).key@ != key@,
        },
{
    let mut x: usize = 0;
    while x < albums.len()
        invariant
            x <= albums.len(),
            forall|y: int| 0 <= y < x ==> (#[trigger] albums@[y]).key@ != key@,
        decreases albums.len() - x,
    {
        if albums[x].key == *key {
            return Some(x);
        }
        x += 1;
    }
    None
}

/// The tag itself, and the key in its place where the tag is missing.
fn display_name(tag: &Option<String>, key: &String) -> (name: String)
    ensures
        match *tag {
            Some(t) => name@ == t@,
            None => name@ == key@,
        },
{
    match tag {
        Some(t) => t.clone(),
        None => key.clone(),
    }
}

/// Groups the records that name an artist and an album by artist, then by album.
pub fn build_hierarchy(songs: &Vec<SongMetadata>) -> (h: Vec<ArtistEntry>)
    ensures
        is_hierarchy(h@, songs@),
        is_in_order(h@, songs@, true),
{
    group_songs(songs, true)
}

/// Groups records by the key of their artist, then by the key of their album. With
/// `strict` the records that name no artist or no album are left out.
pub fn group_songs(songs: &Vec<SongMetadata>, strict: bool) -> (h: Vec<ArtistEntry>)
    ensures
        is_grouping(h@, songs@, strict),
        is_in_order(h@, songs@, strict),
{
    let mut h: Vec<ArtistEntry> = Vec::new();
    let mut k: usize = 0;
    assert(songs@.take(0) =~= Seq::<SongMetadata>::empty());
    while k < songs.len()
        invariant
            k <= songs.len(),
            is_grouping(h@, songs@.take(k as int), strict),
            is_in_order(h@, songs@.take(k as int), strict),
        decreases songs.len() - k,
    {
        let song = &songs[k];
        let ghost seen = songs@.take(k as int);
        let ghost before = h@;
        assert(songs@.take(k + 1) == seen.push(*song));
        let artist_norm = SongMetadata::normalize_str(&song.artist);
        let album_norm = SongMetadata::normalize_str(&song.album);
        if strict && (artist_norm.as_str().is_empty() || album_norm.as_str().is_empty()) {
            proof {
                lemma_song_skipped(before, seen, *song, strict);
                lemma_order_extends(before, h@, seen, *song, strict);
            }
        } else {
            let album_name = display_name(&song.album, &album_norm);
            match find_artist(&h, &artist_norm) {
                Some(i) => {
                    match find_album(&h[i].albums, &album_norm) {
                        Some(x) => {
                            h[i].albums[x].songs.push(song.clone());
                            proof {
                                lemma_song_joins(before, h@, seen, *song, i as int, x as int, strict);
                                lemma_order_extends(before, h@, seen, *song, strict);
                            }
                        },
                        None => {
                            let mut first: Vec<SongMetadata> = Vec::new();
                            first.push(song.clone());
                            h[i].albums.push(AlbumEntry { key: album_norm, name: album_name, songs: first });
                            proof {
                                lemma_album_opens(before, h@, seen, *song, i as int, strict);
                                lemma_order_extends(before, h@, seen, *song, strict);
                            }
                        },
                    }
                },
                None => {
                    let artist_name = display_name(&song.artist, &artist_norm);
                    let mut first: Vec<SongMetadata> = Vec::new();
                    first.push(song.clone());
                    let mut albums: Vec<AlbumEntry> = Vec::new();
                    albums.push(AlbumEntry { key: album_norm, name: album_name, songs: first });
                    h.push(ArtistEntry { key: artist_norm, name: artist_name, albums });
                    proof {
                        lemma_artist_opens(before, h@, seen, *song, strict);
                        lemma_order_extends(before, h@, seen, *song, strict);
                    }
                },
            }
        }
        k += 1;
    }
    assert(songs@.take(songs@.len() as int) == songs@);
    h
}

} // verus!
