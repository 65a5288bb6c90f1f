use muman::dedup::{
    compare_albums, find_song_in_other_albums, is_same_song, process_albums, redundant_singles, run,
    try_hard_link_albums, AlbumRelation, Finding,
};
use muman::hierarchy::{build_hierarchy, AlbumEntry, ArtistEntry};
use muman::library::Library;
use muman::metadata::SongMetadata;
use muman::resolve::{Action, Step};

fn song(title: &str, artist: &str, album: &str, isrc: Option<&str>, size: u64, path: &str) -> SongMetadata {
    SongMetadata {
        title: Some(title.to_string()),
        artist: Some(artist.to_string()),
        album: Some(album.to_string()),
        isrc: isrc.map(|s| s.to_string()),
        duration: None,
        size,
        file_path: Some(path.to_string()),
    }
}

fn coded(code: &str) -> SongMetadata {
    song(code, "X", "A", Some(code), 1000, code)
}

fn album(key: &str, songs: Vec<SongMetadata>) -> AlbumEntry {
    AlbumEntry { key: key.to_string(), name: key.to_string(), songs }
}

#[test]
fn same_song_by_equal_codes_whatever_the_rest() {
    let a = song("One", "X", "A", Some("A1"), 10, "/a");
    let b = song("Two", "Y", "B", Some("A1"), 99_000_000, "/b");
    assert!(is_same_song(&a, &b));
}

#[test]
fn different_codes_veto_close_sizes() {
    let a = song("Song", "X", "A", Some("A1"), 10_000_000, "/a");
    let b = song("Song", "X", "A", Some("B2"), 10_000_001, "/b");
    assert!(!is_same_song(&a, &b));
}

#[test]
fn same_song_falls_back_to_title_and_size() {
    let a = song("Song!", "X", "A", None, 10_000_000, "/a");
    let near = song("SONG", "X", "B", None, 10_099_999, "/b");
    let edge = song("song", "X", "B", None, 10_100_000, "/c");
    let other = song("Other", "X", "B", None, 10_000_000, "/d");
    assert!(is_same_song(&a, &near));
    assert!(!is_same_song(&a, &edge));
    assert!(!is_same_song(&a, &other));
}

#[test]
fn same_song_needs_known_sizes() {
    let a = song("Song", "X", "A", None, 0, "/a");
    let b = song("Song", "X", "A", None, 0, "/b");
    assert!(!is_same_song(&a, &b));
    let c = song("Song", "X", "A", Some("A1"), 0, "/c");
    assert!(!is_same_song(&a, &c));
}

#[test]
fn two_empty_codes_decide_nothing() {
    let a = SongMetadata { file_path: None, ..song("One", "X", "A", Some(""), 1000, "") };
    let b = SongMetadata { file_path: None, ..song("Two", "X", "A", Some(""), 1000, "") };
    assert!(!is_same_song(&a, &b));
    let c = song("One", "X", "A", Some(""), 1000, "/c");
    let d = song("Two", "X", "A", Some(""), 1000, "/d");
    assert!(!is_same_song(&c, &d));
    let e = song("one!", "X", "A", Some(""), 1000, "/e");
    assert!(is_same_song(&c, &e));
    let far = song("One", "X", "A", Some(""), 5000, "/f");
    assert!(!is_same_song(&c, &far));
}

#[test]
fn same_song_needs_both_paths_without_codes() {
    let with = song("Song", "X", "A", None, 1000, "/a");
    let without = SongMetadata { file_path: None, ..song("Song", "X", "A", None, 1000, "") };
    assert!(is_same_song(&with, &with.clone()));
    assert!(!is_same_song(&with, &without));
    assert!(!is_same_song(&without, &with));
    assert!(!is_same_song(&without, &without.clone()));
    let coded_a = SongMetadata { file_path: None, ..song("Song", "X", "A", Some("A1"), 0, "") };
    let coded_b = SongMetadata { file_path: None, ..song("Else", "Y", "B", Some("A1"), 0, "") };
    assert!(is_same_song(&coded_a, &coded_b));
}

#[test]
fn same_song_with_one_empty_code_falls_back() {
    let a = song("Song", "X", "A", Some(""), 1000, "/a");
    let b = song("Song", "X", "A", Some("B2"), 1000, "/b");
    assert!(is_same_song(&a, &b));
    let c = song("Else", "X", "A", Some("B2"), 1000, "/c");
    assert!(!is_same_song(&a, &c));
}

#[test]
fn same_song_tolerance_is_a_hundredth_of_the_first() {
    let small = song("Song", "X", "A", None, 1000, "/a");
    let large = song("Song", "X", "A", None, 1009, "/b");
    assert!(is_same_song(&small, &large));
    let larger = song("Song", "X", "A", None, 1010, "/c");
    assert!(!is_same_song(&small, &larger));
    assert!(!is_same_song(&song("Song", "X", "A", None, 99, "/d"), &song("Song", "X", "A", None, 99, "/e")));
}

#[test]
fn subset_album_is_flagged_for_deletion() {
    let a = album("a", vec![coded("1"), coded("2"), coded("3")]);
    let b = album("b", vec![coded("1"), coded("2"), coded("3"), coded("4"), coded("5")]);
    assert_eq!(compare_albums(&a, &b).relation, AlbumRelation::Subset);
    assert_eq!(compare_albums(&b, &a).relation, AlbumRelation::Superset);
    let artist = ArtistEntry { key: "x".to_string(), name: "X".to_string(), albums: vec![a, b] };
    let found = process_albums(&artist, &vec![false, false], false, false);
    assert_eq!(
        found,
        vec![Finding {
            first: 0,
            second: 1,
            relation: AlbumRelation::Subset,
            action: Action::Perform(Step::ConfirmFirst),
        }]
    );
}

#[test]
fn compare_albums_names_each_relation() {
    let one = album("a", vec![coded("1"), coded("2")]);
    let same = album("b", vec![coded("2"), coded("1")]);
    let apart = album("c", vec![coded("8"), coded("9")]);
    let mixed = album("d", vec![coded("1"), coded("9")]);
    let empty = album("e", vec![]);
    assert_eq!(compare_albums(&one, &same).relation, AlbumRelation::Identical);
    assert_eq!(compare_albums(&one, &apart).relation, AlbumRelation::Disjoint);
    assert_eq!(compare_albums(&one, &mixed).relation, AlbumRelation::PartialOverlap);
    assert_eq!(compare_albums(&mixed, &one).relation, AlbumRelation::PartialOverlap);
    assert_eq!(compare_albums(&one, &empty).relation, AlbumRelation::Disjoint);
    assert_eq!(compare_albums(&empty, &one).relation, AlbumRelation::Disjoint);
}

#[test]
fn compare_albums_counts_songs_of_the_first() {
    let twice = album("a", vec![coded("1"), coded("1")]);
    let once = album("b", vec![coded("1")]);
    assert_eq!(compare_albums(&twice, &once).relation, AlbumRelation::PartialOverlap);
    assert_eq!(compare_albums(&once, &twice).relation, AlbumRelation::Subset);
}

#[test]
fn hierarchy_groups_by_artist_then_album() {
    let songs = vec![
        song("One", "The Band", "First", None, 1, "/1"),
        song("Two", "THE BAND!", "first", None, 2, "/2"),
        song("Three", "Other", "First", None, 3, "/3"),
        song("Four", "the band", "Second", None, 4, "/4"),
        SongMetadata { artist: None, ..song("Five", "x", "First", None, 5, "/5") },
        SongMetadata { album: Some("!!".to_string()), ..song("Six", "The Band", "x", None, 6, "/6") },
    ];
    let h = build_hierarchy(&songs);
    assert_eq!(h.len(), 2);
    assert_eq!(h[0].key, "the band");
    assert_eq!(h[0].name, "The Band");
    assert_eq!(h[0].albums.len(), 2);
    assert_eq!(h[0].albums[0].key, "first");
    assert_eq!(h[0].albums[0].name, "First");
    assert_eq!(h[0].albums[0].songs, vec![songs[0].clone(), songs[1].clone()]);
    assert_eq!(h[0].albums[1].key, "second");
    assert_eq!(h[0].albums[1].songs, vec![songs[3].clone()]);
    assert_eq!(h[1].key, "other");
    assert_eq!(h[1].albums[0].songs, vec![songs[2].clone()]);
}

#[test]
fn hierarchy_of_nothing_is_empty() {
    assert_eq!(build_hierarchy(&vec![]).len(), 0);
}

#[test]
fn single_found_in_a_full_album_is_redundant() {
    let artist = ArtistEntry {
        key: "x".to_string(),
        name: "X".to_string(),
        albums: vec![
            album("single", vec![coded("1")]),
            album("full", vec![coded("1"), coded("2"), coded("3")]),
            album("pair", vec![coded("1"), coded("9")]),
            album("other single", vec![coded("2"), coded("3")]),
            album("short", vec![coded("1"), coded("2")]),
        ],
    };
    assert_eq!(redundant_singles(&artist), vec![true, false, false, true, true]);
}

#[test]
fn album_with_more_than_two_tracks_is_never_a_redundant_single() {
    let full = vec![coded("1"), coded("2"), coded("3")];
    let artist = ArtistEntry {
        key: "x".to_string(),
        name: "X".to_string(),
        albums: vec![album("a", full.clone()), album("b", full.clone()), album("c", vec![coded("1")])],
    };
    assert_eq!(redundant_singles(&artist), vec![false, false, true]);
}

#[test]
fn single_is_not_redundant_against_small_albums() {
    let artist = ArtistEntry {
        key: "x".to_string(),
        name: "X".to_string(),
        albums: vec![album("a", vec![coded("1")]), album("b", vec![coded("1"), coded("2")])],
    };
    assert_eq!(redundant_singles(&artist), vec![false, false]);
}

#[test]
fn find_song_skips_the_excluded_album_and_small_ones() {
    let artist = ArtistEntry {
        key: "x".to_string(),
        name: "X".to_string(),
        albums: vec![
            album("small", vec![coded("1")]),
            album("own", vec![coded("1"), coded("2"), coded("3")]),
            album("none", vec![coded("7"), coded("8"), coded("9")]),
            album("parent", vec![coded("3"), coded("2"), coded("1")]),
        ],
    };
    assert_eq!(find_song_in_other_albums(&coded("1"), &artist, &"own".to_string()), Some(3));
    assert_eq!(find_song_in_other_albums(&coded("1"), &artist, &"parent".to_string()), Some(1));
    assert_eq!(find_song_in_other_albums(&coded("5"), &artist, &"own".to_string()), None);
}

#[test]
fn process_albums_skips_marked_and_disjoint_pairs() {
    let artist = ArtistEntry {
        key: "x".to_string(),
        name: "X".to_string(),
        albums: vec![
            album("a", vec![coded("1"), coded("2")]),
            album("b", vec![coded("1"), coded("2")]),
            album("c", vec![coded("9")]),
            album("d", vec![coded("1"), coded("9"), coded("7")]),
        ],
    };
    let found = process_albums(&artist, &vec![false, true, false, false], true, true);
    let pairs: Vec<(usize, usize, AlbumRelation, Action)> =
        found.iter().map(|f| (f.first, f.second, f.relation, f.action)).collect();
    assert_eq!(
        pairs,
        vec![
            (0, 3, AlbumRelation::PartialOverlap, Action::Describe(Step::LinkShared)),
            (2, 3, AlbumRelation::Subset, Action::Describe(Step::ConfirmFirst)),
        ]
    );
    let all = process_albums(&artist, &vec![], false, false);
    let pairs: Vec<(usize, usize, AlbumRelation, Action)> =
        all.iter().map(|f| (f.first, f.second, f.relation, f.action)).collect();
    assert_eq!(
        pairs,
        vec![
            (0, 1, AlbumRelation::Identical, Action::Perform(Step::ChooseOne)),
            (0, 3, AlbumRelation::PartialOverlap, Action::NoOp),
            (1, 3, AlbumRelation::PartialOverlap, Action::NoOp),
            (2, 3, AlbumRelation::Subset, Action::Perform(Step::ConfirmFirst)),
        ]
    );
}

#[test]
fn linkable_pairs_need_two_paths_and_equal_sizes() {
    let a = album(
        "a",
        vec![
            song("s", "X", "A", Some("1"), 100, "/a/1"),
            song("t", "X", "A", Some("2"), 100, "/a/2"),
            SongMetadata { file_path: None, ..song("u", "X", "A", Some("3"), 100, "") },
        ],
    );
    let b = album(
        "b",
        vec![
            song("t", "X", "B", Some("2"), 100, "/b/2"),
            song("s", "X", "B", Some("1"), 101, "/b/1"),
            song("s", "X", "B", Some("1"), 100, "/a/1"),
            song("s", "X", "B", Some("1"), 100, "/b/1b"),
            song("u", "X", "B", Some("3"), 100, "/b/3"),
        ],
    );
    assert_eq!(try_hard_link_albums(&a, &b), vec![(0, 3), (1, 0)]);
}

#[test]
fn run_plans_each_artist() {
    let mut songs = Vec::new();
    for code in ["1", "2", "3"] {
        songs.push(song(code, "X", "Full", Some(code), 1000, &format!("/full/{}", code)));
    }
    songs.push(song("1", "x", "Single", Some("1"), 1000, "/single/1"));
    for code in ["1", "2", "3"] {
        songs.push(song(code, "X", "Full (Deluxe)", Some(code), 1000, &format!("/deluxe/{}", code)));
    }
    songs.push(song("9", "X", "Full (Deluxe)", Some("9"), 1000, "/deluxe/9"));
    songs.push(song("1", "Y", "Alone", Some("1"), 1000, "/y/1"));
    let library = Library::new(vec!["/".to_string()], songs);
    let found = run(&library, false, true);
    assert_eq!(found.artists.len(), 2);
    assert_eq!(found.plans.len(), 2);
    assert_eq!(found.artists[0].key, "x");
    assert_eq!(found.plans[0].singles, vec![false, true, false]);
    let pairs: Vec<(usize, usize, AlbumRelation, Action)> =
        found.plans[0].findings.iter().map(|f| (f.first, f.second, f.relation, f.action)).collect();
    assert_eq!(pairs, vec![(0, 2, AlbumRelation::Subset, Action::Perform(Step::ConfirmFirst))]);
    assert_eq!(found.plans[1].singles, vec![false]);
    assert!(found.plans[1].findings.is_empty());
    assert_eq!(found.duplicates.groups, vec![vec![0, 3, 4], vec![1, 5], vec![2, 6]]);
    assert_eq!(found.duplicates.details.len(), 3);
    assert_eq!(found.duplicates.details[0].clusters, vec![vec![0, 1, 2]]);
    assert_eq!(found.duplicates.details[0].keepers, vec![0]);
    for (group, detail) in found.duplicates.groups.iter().zip(found.duplicates.details.iter()) {
        let mut members: Vec<usize> = detail.clusters.iter().flatten().copied().collect();
        members.sort();
        assert_eq!(members, (0..group.len()).collect::<Vec<usize>>());
    }
}

#[test]
fn comparing_the_other_way_round_swaps_subset_and_superset() {
    let albums = vec![
        album("a", vec![coded("1"), coded("2")]),
        album("b", vec![coded("2"), coded("1")]),
        album("c", vec![coded("1"), coded("2"), coded("3")]),
        album("d", vec![coded("1"), coded("9")]),
        album("e", vec![coded("7")]),
        album("f", vec![]),
    ];
    for a in &albums {
        for b in &albums {
            let there = compare_albums(a, b).relation;
            let back = compare_albums(b, a).relation;
            let swapped = match there {
                AlbumRelation::Subset => AlbumRelation::Superset,
                AlbumRelation::Superset => AlbumRelation::Subset,
                other => other,
            };
            assert_eq!(back, swapped, "{} {}", a.key, b.key);
        }
    }
}
