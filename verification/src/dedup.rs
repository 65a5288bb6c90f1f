//! Albums of one artist: which songs two albums share, how the albums relate, and what
//! that calls for.

use crate::duplicates::{
    default_policy, detail_holds, find_duplicates, is_candidate_grouping, standard_policy, Duplicates,
};
use crate::hierarchy::{build_hierarchy, is_hierarchy, is_in_order, AlbumEntry, ArtistEntry};
use crate::library::Library;
use crate::metadata::{has_code, text_key, SongMetadata, SongRecord};
use crate::resolve::{action_for, resolve, Action};
use vstd::prelude::*;

verus! {

/// How the songs of a first album relate to those of a second.
#[derive(Debug, Clone, Copy, PartialEq, Eq, Structural)]
pub enum AlbumRelation {
    /// Every song of each album is found in the other.
    Identical,
    /// The first album lies within the second, which has more songs.
    Subset,
    /// The second album lies within the first, which has more songs.
    Superset,
    /// Some songs are shared, and neither album lies within the other.
    PartialOverlap,
    /// No song of the first album is found in the second.
    Disjoint,
}

/// What comparing two albums gives.
pub struct ComparisonData {
    pub relation: AlbumRelation,
}

/// The distance between two sizes.
pub open spec fn size_gap(a: u64, b: u64) -> int {
    if a >= b {
        a - b
    } else {
        b - a
    }
}

/// Whether two records stand for one song. Where both carry a code the codes decide,
/// whatever the titles and sizes. Otherwise the titles must have one key, both records
/// must have a path and a known size, and the gap between the sizes must be under a
/// hundredth of the first; what cannot be told is taken for different.
pub open spec fn same_song(a: SongRecord, b: SongRecord) -> bool {
    if has_code(a) && has_code(b) {
        a.isrc->0 == b.isrc->0
    } else if text_key(a.title) != text_key(b.title) {
        false
    } else if a.file_path is Some && b.file_path is Some && a.size > 0 && b.size > 0 {
        size_gap(a.size, b.size) < a.size / 100
    } else {
        false
    }
}

/// Whether `song` stands for one song with some member of `album`.
pub open spec fn found_in(song: SongRecord, album: Seq<SongMetadata>) -> bool {
    exists|j: int| 0 <= j < album.len() && same_song(song, #[trigger] album[j]@)
}

/// The number of songs of `a` that are found in `b`.
pub open spec fn match_count(a: Seq<SongMetadata>, b: Seq<SongMetadata>) -> nat {
    a.filter(|s: SongMetadata| found_in(s@, b)).len()
}

/// The relation that `matches` songs found give between albums of `a` and `b` songs.
pub open spec fn relation_of(matches: nat, a: nat, b: nat) -> AlbumRelation {
    if matches == 0 {
        AlbumRelation::Disjoint
    } else if matches == a && matches == b {
        AlbumRelation::Identical
    } else if matches == a && matches < b {
        AlbumRelation::Subset
    } else if matches == b && matches < a {
        AlbumRelation::Superset
    } else {
        AlbumRelation::PartialOverlap
    }
}

/// The relation of a first album to a second.
pub open spec fn relation_between(a: Seq<SongMetadata>, b: Seq<SongMetadata>) -> AlbumRelation {
    relation_of(match_count(a, b), a.len(), b.len())
}

/// The relation read from the second album's side.
pub open spec fn swapped(r: AlbumRelation) -> AlbumRelation {
    match r {
        AlbumRelation::Subset => AlbumRelation::Superset,
        AlbumRelation::Superset => AlbumRelation::Subset,
        other => other,
    }
}

/// Where each album has as many songs found in the other as the other has in it, comparing
/// them the other way round turns subset into superset and back, and keeps every other
/// relation.
pub proof fn lemma_compare_swapped(a: Seq<SongMetadata>, b: Seq<SongMetadata>)
    requires
        match_count(a, b) == match_count(b, a),
    ensures
        relation_between(b, a) == swapped(relation_between(a, b)),
{
}

/// Whether every song of an album carries a code that is not empty, and no two songs carry
/// the same.
pub open spec fn is_well_coded(a: Seq<SongMetadata>) -> bool {
    &&& forall|i: int| 0 <= i < a.len() ==> has_code((#[trigger] a[i])@)
    &&& forall|i: int, j: int| 0 <= i < j < a.len() ==> (#[trigger] a[i])@.isrc != (#[trigger] a[j])@.isrc
}

/// Two conditions that agree on every member of a list let equally many members through.
proof fn lemma_filter_len_same(
    s: Seq<SongMetadata>,
    p: spec_fn(SongMetadata) -> bool,
    q: spec_fn(SongMetadata) -> bool,
)
    requires
        forall|i: int| 0 <= i < s.len() ==> p(#[trigger] s[i]) == q(s[i]),
    ensures
        s.filter(p).len() == s.filter(q).len(),
    decreases s.len(),
{
    reveal(Seq::filter);
    if s.len() > 0 {
        let rest = s.drop_last();
        assert forall|i: int| 0 <= i < rest.len() implies p(#[trigger] rest[i]) == q(rest[i]) by {
            assert(rest[i] == s[i]);
        }
        lemma_filter_len_same(rest, p, q);
    }
}

/// A condition that lets through one member more than another, and otherwise the same,
/// lets through one more.
proof fn lemma_filter_len_one_more(
    s: Seq<SongMetadata>,
    p: spec_fn(SongMetadata) -> bool,
    q: spec_fn(SongMetadata) -> bool,
    j: int,
)
    requires
        0 <= j < s.len(),
        !p(s[j]),
        q(s[j]),
        forall|i: int| 0 <= i < s.len() && i != j ==> p(#[trigger] s[i]) == q(s[i]),
    ensures
        s.filter(q).len() == s.filter(p).len() + 1,
    decreases s.len(),
{
    reveal(Seq::filter);
    let rest = s.drop_last();
    if j == s.len() - 1 {
        assert forall|i: int| 0 <= i < rest.len() implies p(#[trigger] rest[i]) == q(rest[i]) by {
            assert(rest[i] == s[i]);
        }
        lemma_filter_len_same(rest, p, q);
    } else {
        assert(rest[j] == s[j]);
        assert forall|i: int| 0 <= i < rest.len() && i != j implies p(#[trigger] rest[i]) == q(rest[i]) by {
            assert(rest[i] == s[i]);
        }
        lemma_filter_len_one_more(rest, p, q, j);
    }
}

/// Between two albums whose songs all carry codes, no code twice within an album, each
/// has as many songs found in the other as the other has in it.
pub proof fn lemma_match_count_symmetric(a: Seq<SongMetadata>, b: Seq<SongMetadata>)
    requires
        is_well_coded(a),
        is_well_coded(b),
    ensures
        match_count(a, b) == match_count(b, a),
    decreases a.len(),
{
    reveal(Seq::filter);
    let in_b = |s: SongMetadata| found_in(s@, b);
    let in_a = |s: SongMetadata| found_in(s@, a);
    if a.len() == 0 {
        lemma_filter_len_same(b, in_a, |s: SongMetadata| false);
        assert(b.filter(|s: SongMetadata| false).len() == 0) by {
            b.lemma_filter_len(|s: SongMetadata| false);
            if b.filter(|s: SongMetadata| false).len() > 0 {
                b.lemma_filter_pred(|s: SongMetadata| false, 0);
            }
        }
    } else {
        let rest = a.drop_last();
        let x = a.last();
        let in_rest = |s: SongMetadata| found_in(s@, rest);
        assert forall|i: int| 0 <= i < rest.len() implies rest[i] == a[i] by {}
        assert(is_well_coded(rest)) by {
            assert forall|i: int| 0 <= i < rest.len() implies has_code((#[trigger] rest[i])@) by {
                assert(rest[i] == a[i]);
            }
            assert forall|i: int, j: int| 0 <= i < j < rest.len() implies (#[trigger] rest[i])@.isrc != (
            #[trigger] rest[j])@.isrc by {
                assert(rest[i] == a[i] && rest[j] == a[j]);
            }
        }
        lemma_match_count_symmetric(rest, b);
        assert(a.filter(in_b).len() == rest.filter(in_b).len() + (if found_in(x@, b) {
            1int
        } else {
            0int
        }));
        // A song of the second album is found in the first where it is found among the
        // other songs of the first, or has the code of the last.
        assert forall|i: int| 0 <= i < b.len() implies in_a(#[trigger] b[i]) == (in_rest(b[i]) || b[i]@.isrc
            == x@.isrc) by {
            assert(a[a.len() - 1] == x);
            if found_in(b[i]@, rest) {
                let k = choose|k: int| 0 <= k < rest.len() && same_song(b[i]@, #[trigger] rest[k]@);
                assert(same_song(b[i]@, a[k]@));
            }
            if b[i]@.isrc == x@.isrc {
                assert(same_song(b[i]@, a[a.len() - 1]@));
            }
            if found_in(b[i]@, a) {
                let k = choose|k: int| 0 <= k < a.len() && same_song(b[i]@, #[trigger] a[k]@);
                if k < rest.len() {
                    assert(same_song(b[i]@, rest[k]@));
                }
            }
        }
        if found_in(x@, b) {
            let j = choose|j: int| 0 <= j < b.len() && same_song(x@, #[trigger] b[j]@);
            assert(b[j]@.isrc == x@.isrc);
            assert(!in_rest(b[j])) by {
                if found_in(b[j]@, rest) {
                    let k = choose|k: int| 0 <= k < rest.len() && same_song(b[j]@, #[trigger] rest[k]@);
                    assert(a[k]@.isrc != a[a.len() - 1]@.isrc);
                }
            }
            assert forall|i: int| 0 <= i < b.len() && i != j implies in_rest(#[trigger] b[i]) == in_a(b[i]) by {
                if i < j {
                    assert(b[i]@.isrc != b[j]@.isrc);
                } else {
                    assert(b[j]@.isrc != b[i]@.isrc);
                }
            }
            lemma_filter_len_one_more(b, in_rest, in_a, j);
        } else {
            assert forall|i: int| 0 <= i < b.len() implies in_rest(#[trigger] b[i]) == in_a(b[i]) by {
                if b[i]@.isrc == x@.isrc {
                    assert(same_song(x@, b[i]@));
                }
            }
            lemma_filter_len_same(b, in_rest, in_a);
        }
    }
}

/// Between two albums whose songs all carry codes, no code twice within an album,
/// comparing the other way round turns subset into superset and back, and keeps every
/// other relation.
pub proof fn lemma_compare_swapped_by_codes(a: Seq<SongMetadata>, b: Seq<SongMetadata>)
    requires
        is_well_coded(a),
        is_well_coded(b),
    ensures
        relation_between(b, a) == swapped(relation_between(a, b)),
{
    lemma_match_count_symmetric(a, b);
}

/// Whether two records stand for one song.
pub fn is_same_song(a: &SongMetadata, b: &SongMetadata) -> (same: bool)
    ensures
        same == same_song(a@, b@),
{
    match (&a.isrc, &b.isrc) {
        (Some(x), Some(y)) => {
            if !x.as_str().is_empty() && !y.as_str().is_empty() {
                return *x == *y;
            }
        },
        _ => {},
    }
    let title_a = SongMetadata::normalize_str(&a.title);
    let title_b = SongMetadata::normalize_str(&b.title);
    if title_a != title_b {
        return false;
    }
    if a.file_path.is_some() && b.file_path.is_some() && a.size > 0 && b.size > 0 {
        let gap: u64 = if a.size >= b.size {
            a.size - b.size
        } else {
            b.size - a.size
        };
        return gap < a.size / 100;
    }
    false
}

/// Whether `song` stands for one song with some member of `album`.
pub fn is_found_in(song: &SongMetadata, album: &Vec<SongMetadata>) -> (found: bool)
    ensures
        found == found_in(song@, album@),
{
    let mut j: usize = 0;
    while j < album.len()
        invariant
            j <= album.len(),
            forall|i: int| 0 <= i < j ==> !same_song(song@, #[trigger] album@[i]@),
        decreases album.len() - j,
    {
        if is_same_song(song, &album[j]) {
            return true;
        }
        j += 1;
    }
    false
}

/// Compares two albums by the songs of the first that are found in the second.
pub fn compare_albums(a: &AlbumEntry, b: &AlbumEntry) -> (data: ComparisonData)
    ensures
        data.relation == relation_between(a.songs@, b.songs@),
{
    let mut matches: usize = 0;
    let mut i: usize = 0;
    let ghost found = |s: SongMetadata| found_in(s@, b.songs@);
    while i < a.songs.len()
        invariant
            i <= a.songs.len(),
            matches <= i,
            found == |s: SongMetadata| found_in(s@, b.songs@),
            matches == a.songs@.take(i as int).filter(found).len(),
        decreases a.songs.len() - i,
    {
        proof {
            let next = a.songs@.take(i + 1);
            assert(next.drop_last() == a.songs@.take(i as int));
            assert(next.last() == a.songs@[i as int]);
            reveal(Seq::filter);
        }
        if is_found_in(&a.songs[i], &b.songs) {
            matches += 1;
        }
        i += 1;
    }
    assert(a.songs@.take(a.songs@.len() as int) == a.songs@);
    let a_len = a.songs.len();
    let b_len = b.songs.len();
    let relation = if matches == 0 {
        AlbumRelation::Disjoint
    } else if matches == a_len && matches == b_len {
        AlbumRelation::Identical
    } else if matches == a_len && matches < b_len {
        AlbumRelation::Subset
    } else if matches == b_len && matches < a_len {
        AlbumRelation::Superset
    } else {
        AlbumRelation::PartialOverlap
    };
    ComparisonData { relation }
}

/// Whether some album of the artist under another key than `exclude`, with more than two
/// songs, holds `song`.
pub open spec fn found_elsewhere(albums: Seq<AlbumEntry>, exclude: Seq<char>, song: SongRecord) -> bool {
    exists|y: int|
        0 <= y < albums.len() && is_parent(#[trigger] albums[y], exclude, song)
}

/// Whether `album` stands under another key than `exclude`, has more than two songs and
/// holds `song`.
pub open spec fn is_parent(album: AlbumEntry, exclude: Seq<char>, song: SongRecord) -> bool {
    album.key@ != exclude && album.songs@.len() > 2 && found_in(song, album.songs@)
}

/// Whether album `x` is a redundant single: it has at most two songs, and each of them is
/// held by another album of the artist that has more than two.
pub open spec fn is_redundant_single(albums: Seq<AlbumEntry>, x: int) -> bool {
    &&& albums[x].songs@.len() <= 2
    &&& forall|p: int|
        0 <= p < albums[x].songs@.len() ==> found_elsewhere(
            albums,
            albums[x].key@,
            #[trigger] albums[x].songs@[p]@,
        )
}

/// The first album of the artist, under another key than `exclude_album_key` and with more
/// than two songs, that holds `query`.
pub fn find_song_in_other_albums(query: &SongMetadata, artist: &ArtistEntry, exclude_album_key: &String) -> (r:
    Option<usize>)
    ensures
        r is Some == found_elsewhere(artist.albums@, exclude_album_key@, query@),
        r matches Some(y) ==> y < artist.albums@.len() && is_parent(
            artist.albums@[y as int],
            exclude_album_key@,
            query@,
        ) && forall|z: int| 0 <= z < y ==> !is_parent(#[trigger] artist.albums@[z], exclude_album_key@, query@),
{
    let mut y: usize = 0;
    while y < artist.albums.len()
        invariant
            y <= artist.albums.len(),
            forall|z: int| 0 <= z < y ==> !is_parent(#[trigger] artist.albums@[z], exclude_album_key@, query@),
        decreases artist.albums.len() - y,
    {
        let album = &artist.albums[y];
        if album.key != *exclude_album_key && album.songs.len() > 2 && is_found_in(query, &album.songs) {
            return Some(y);
        }
        y += 1;
    }
    None
}

/// Marks the redundant singles among the albums of an artist. No album with more than two
/// songs is marked.
pub fn redundant_singles(artist: &ArtistEntry) -> (marks: Vec<bool>)
    ensures
        marks@.len() == artist.albums@.len(),
        forall|x: int| 0 <= x < marks@.len() ==> marks@[x] == is_redundant_single(artist.albums@, x),
        forall|x: int| 0 <= x < marks@.len() && marks@[x] ==> artist.albums@[x].songs@.len() <= 2,
{
    let mut marks: Vec<bool> = Vec::new();
    let mut x: usize = 0;
    while x < artist.albums.len()
        invariant
            x <= artist.albums.len(),
            marks@.len() == x,
            forall|z: int| 0 <= z < x ==> marks@[z] == is_redundant_single(artist.albums@, z),
        decreases artist.albums.len() - x,
    {
        let album = &artist.albums[x];
        let mut single = album.songs.len() <= 2;
        let mut p: usize = 0;
        while single && p < album.songs.len()
            invariant
                x < artist.albums.len(),
                album == artist.albums@[x as int],
                p <= album.songs.len(),
                single ==> album.songs@.len() <= 2,
                single ==> forall|q: int|
                    0 <= q < p ==> found_elsewhere(artist.albums@, album.key@, #[trigger] album.songs@[q]@),
                !single ==> !is_redundant_single(artist.albums@, x as int),
            decreases album.songs.len() - p + (if single { 1int } else { 0int }),
        {
            if find_song_in_other_albums(&album.songs[p], artist, &album.key).is_none() {
                single = false;
            } else {
                p += 1;
            }
        }
        marks.push(single);
        x += 1;
    }
    marks
}

/// Whether the file of `b` may be replaced by a hard link to the file of `a`: the two
/// records stand for one song, each has a path, the paths differ and the sizes are equal.
pub open spec fn linkable(a: SongRecord, b: SongRecord) -> bool {
    same_song(a, b) && a.file_path is Some && b.file_path is Some && a.file_path->0 != b.file_path->0
        && a.size == b.size
}

/// The linkable pairs of song `i` of the first album with the songs before `upto` of the
/// second.
pub open spec fn linkable_row(a: Seq<SongMetadata>, b: Seq<SongMetadata>, i: int, upto: int) -> Seq<
    (usize, usize),
>
    decreases upto,
{
    if upto <= 0 {
        Seq::empty()
    } else if linkable(a[i]@, b[upto - 1]@) {
        linkable_row(a, b, i, upto - 1).push((i as usize, (upto - 1) as usize))
    } else {
        linkable_row(a, b, i, upto - 1)
    }
}

/// The linkable pairs of the songs before `upto` of the first album with the songs of the
/// second, row by row.
pub open spec fn linkable_pairs(a: Seq<SongMetadata>, b: Seq<SongMetadata>, upto: int) -> Seq<
    (usize, usize),
>
    decreases upto,
{
    if upto <= 0 {
        Seq::empty()
    } else {
        linkable_pairs(a, b, upto - 1) + linkable_row(a, b, upto - 1, b.len() as int)
    }
}

/// Whether the file of `b` may be replaced by a hard link to the file of `a`.
pub fn is_linkable(a: &SongMetadata, b: &SongMetadata) -> (r: bool)
    ensures
        r == linkable(a@, b@),
{
    if !is_same_song(a, b) {
        return false;
    }
    match (&a.file_path, &b.file_path) {
        (Some(p), Some(q)) => *p != *q && a.size == b.size,
        _ => false,
    }
}

/// The pairs of songs, one of each album, whose files may be hard-linked: the positions in
/// the first and in the second album, in the order of the first, then of the second.
pub fn try_hard_link_albums(a: &AlbumEntry, b: &AlbumEntry) -> (pairs: Vec<(usize, usize)>)
    ensures
        pairs@ == linkable_pairs(a.songs@, b.songs@, a.songs@.len() as int),
{
    let mut pairs: Vec<(usize, usize)> = Vec::new();
    let mut i: usize = 0;
    while i < a.songs.len()
        invariant
            i <= a.songs.len(),
            pairs@ == linkable_pairs(a.songs@, b.songs@, i as int),
        decreases a.songs.len() - i,
    {
        let ghost done = pairs@;
        let mut j: usize = 0;
        while j < b.songs.len()
            invariant
                i < a.songs.len(),
                j <= b.songs.len(),
                pairs@ == done + linkable_row(a.songs@, b.songs@, i as int, j as int),
            decreases b.songs.len() - j,
        {
            if is_linkable(&a.songs[i], &b.songs[j]) {
                pairs.push((i, j));
            }
            j += 1;
        }
        i += 1;
    }
    pairs
}

/// What was found of two albums of one artist.
#[derive(Debug, Clone, Copy, PartialEq, Eq, Structural)]
pub struct Finding {
    /// The position of the first album.
    pub first: usize,
    /// The position of the second album, after the first.
    pub second: usize,
    /// How the first album relates to the second.
    pub relation: AlbumRelation,
    /// What that calls for.
    pub action: Action,
}

/// What is found of albums `i` and `j`.
pub open spec fn finding_of(albums: Seq<AlbumEntry>, dry_run: bool, hard_links: bool, i: int, j: int) -> Finding {
    let relation = relation_between(albums[i].songs@, albums[j].songs@);
    Finding { first: i as usize, second: j as usize, relation, action: action_for(relation, dry_run, hard_links) }
}

/// Whether album `i` is set aside: `skip` has a mark for it, and the mark is set.
pub open spec fn is_set_aside(skip: Seq<bool>, i: int) -> bool {
    0 <= i < skip.len() && skip[i]
}

/// Whether albums `i` and `j` are reported: neither is set aside and they share a song.
pub open spec fn is_reported(albums: Seq<AlbumEntry>, skip: Seq<bool>, i: int, j: int) -> bool {
    !is_set_aside(skip, i) && !is_set_aside(skip, j) && relation_between(albums[i].songs@, albums[j].songs@)
        != AlbumRelation::Disjoint
}

/// What is found of album `i` and the albums after it, before `upto`.
pub open spec fn row_findings(
    albums: Seq<AlbumEntry>,
    skip: Seq<bool>,
    dry_run: bool,
    hard_links: bool,
    i: int,
    upto: int,
) -> Seq<Finding>
    decreases upto,
{
    if upto <= i + 1 || upto <= 0 {
        Seq::empty()
    } else if is_reported(albums, skip, i, upto - 1) {
        row_findings(albums, skip, dry_run, hard_links, i, upto - 1).push(
            finding_of(albums, dry_run, hard_links, i, upto - 1),
        )
    } else {
        row_findings(albums, skip, dry_run, hard_links, i, upto - 1)
    }
}

/// What is found of each album before `upto` and the albums after it.
pub open spec fn all_findings(
    albums: Seq<AlbumEntry>,
    skip: Seq<bool>,
    dry_run: bool,
    hard_links: bool,
    upto: int,
) -> Seq<Finding>
    decreases upto,
{
    if upto <= 0 {
        Seq::empty()
    } else {
        all_findings(albums, skip, dry_run, hard_links, upto - 1) + row_findings(
            albums,
            skip,
            dry_run,
            hard_links,
            upto - 1,
            albums.len() as int,
        )
    }
}

/// Compares each album of an artist with each album after it, but for those that `skip`
/// sets aside, and reports the pairs that share a song with what they call for.
pub fn process_albums(artist: &ArtistEntry, skip: &Vec<bool>, dry_run: bool, use_hard_links: bool) -> (found:
    Vec<Finding>)
    ensures
        found@ == all_findings(artist.albums@, skip@, dry_run, use_hard_links, artist.albums@.len() as int),
{
    let n = artist.albums.len();
    let mut found: Vec<Finding> = Vec::new();
    let mut i: usize = 0;
    while i < n
        invariant
            n == artist.albums@.len(),
            i <= n,
            found@ == all_findings(artist.albums@, skip@, dry_run, use_hard_links, i as int),
        decreases n - i,
    {
        let ghost done = found@;
        let mut j: usize = i + 1;
        while j < n
            invariant
                n == artist.albums@.len(),
                i < n,
                i + 1 <= j <= n,
                found@ == done + row_findings(artist.albums@, skip@, dry_run, use_hard_links, i as int, j as int),
            decreases n - j,
        {
            let aside = (i < skip.len() && skip[i]) || (j < skip.len() && skip[j]);
            if !aside {
                let relation = compare_albums(&artist.albums[i], &artist.albums[j]).relation;
                if relation != AlbumRelation::Disjoint {
                    let action = resolve(relation, dry_run, use_hard_links);
                    found.push(Finding { first: i, second: j, relation, action });
                }
            }
            j += 1;
        }
        i += 1;
    }
    found
}

/// What a run found for one artist.
pub struct ArtistPlan {
    /// For each album, whether it is a redundant single, to be removed without asking.
    pub singles: Vec<bool>,
    /// What was found of the other albums, pair by pair.
    pub findings: Vec<Finding>,
}

/// What a run found: the artists with their albums and a plan for each, and the duplicate
/// recordings.
pub struct Analysis {
    pub artists: Vec<ArtistEntry>,
    pub plans: Vec<ArtistPlan>,
    /// The candidate groups of the library, the clusters of each group and the record to
    /// keep of each cluster, under the standard policy and without regard to album names.
    pub duplicates: Duplicates,
}

/// The plan holds the redundant singles of the artist and what is found of the other
/// albums.
pub open spec fn plan_holds(artist: ArtistEntry, plan: ArtistPlan, dry_run: bool, hard_links: bool) -> bool {
    &&& plan.singles@.len() == artist.albums@.len()
    &&& forall|x: int|
        0 <= x < plan.singles@.len() ==> plan.singles@[x] == is_redundant_single(artist.albums@, x)
    &&& forall|x: int| 0 <= x < plan.singles@.len() && plan.singles@[x] ==> artist.albums@[x].songs@.len() <= 2
    &&& plan.findings@ == all_findings(
        artist.albums@,
        plan.singles@,
        dry_run,
        hard_links,
        artist.albums@.len() as int,
    )
}

/// Analyses a library: its artists with their albums, the redundant singles of each, what
/// is found of each pair of the other albums, and its duplicate recordings: the candidate
/// groups, each split into clusters that partition it, with the record to keep of each
/// cluster. Nothing is asked and no file is touched.
pub fn run(library: &Library, dry_run: bool, use_hard_links: bool) -> (found: Analysis)
    ensures
        is_hierarchy(found.artists@, library.records()),
        is_in_order(found.artists@, library.records(), true),
        found.plans@.len() == found.artists@.len(),
        forall|i: int|
            0 <= i < found.plans@.len() ==> plan_holds(
                found.artists@[i],
                #[trigger] found.plans@[i],
                dry_run,
                use_hard_links,
            ),
        is_candidate_grouping(library.records(), found.duplicates.groups@),
        found.duplicates.details@.len() == found.duplicates.groups@.len(),
        forall|i: int|
            0 <= i < found.duplicates.groups@.len() ==> detail_holds(
                library.records(),
                standard_policy(),
                false,
                (#[trigger] found.duplicates.groups@[i])@,
                found.duplicates.details@[i],
            ),
{
    let artists = build_hierarchy(library.songs());
    let mut plans: Vec<ArtistPlan> = Vec::new();
    let mut i: usize = 0;
    while i < artists.len()
        invariant
            i <= artists.len(),
            plans@.len() == i,
            forall|k: int|
                0 <= k < i ==> plan_holds(artists@[k], #[trigger] plans@[k], dry_run, use_hard_links),
        decreases artists.len() - i,
    {
        let singles = redundant_singles(&artists[i]);
        let findings = process_albums(&artists[i], &singles, dry_run, use_hard_links);
        plans.push(ArtistPlan { singles, findings });
        i += 1;
    }
    let duplicates = find_duplicates(library.songs(), default_policy(), false);
    Analysis { artists, plans, duplicates }
}

} // verus!
