use muman::metadata::SongMetadata;
use muman::playlists::{
    distinct_songs, generate_missing_report, summarize_missing, tally, BasicTrackInfo, Count, Playlist,
};

fn wanted(title: &str, artist: Option<&str>) -> SongMetadata {
    let mut song = SongMetadata::from(BasicTrackInfo {
        track_name: title.to_string(),
        album_name: String::new(),
        artist_names: artist.unwrap_or("").to_string(),
    });
    if artist.is_none() {
        song.artist = None;
    }
    song
}

fn playlist(name: &str, missing: Vec<SongMetadata>) -> Playlist {
    let mut playlist = Playlist::new(name.to_string(), Vec::new());
    playlist.missing_songs = missing;
    playlist
}

fn pairs(counts: &Vec<Count>) -> Vec<(&str, usize)> {
    counts.iter().map(|c| (c.label.as_str(), c.count)).collect()
}

#[test]
fn tally_counts_each_name_once() {
    let names: Vec<String> = ["b", "a", "b", "c", "b", "a"].iter().map(|s| s.to_string()).collect();
    assert_eq!(pairs(&tally(&names)), vec![("b", 3), ("a", 2), ("c", 1)]);
    assert!(tally(&Vec::new()).is_empty());
}

#[test]
fn report_puts_the_most_missing_first() {
    let playlists = vec![
        playlist("one", vec![wanted("T1", Some("A")), wanted("T2", Some("B")), wanted("T3", None)]),
        playlist("two", vec![]),
        playlist("three", vec![wanted("T2", Some("B")), wanted("T4", Some("B")), wanted("T1", Some("A"))]),
        playlist("four", vec![wanted("T2", Some("B"))]),
    ];
    let report = generate_missing_report(&playlists).unwrap();
    assert_eq!(
        pairs(&report.songs),
        vec![("B - T2", 3), ("A - T1", 2), ("Unknown Artist - T3", 1), ("B - T4", 1)]
    );
    assert_eq!(pairs(&report.artists), vec![("B", 4), ("A", 2)]);
}

#[test]
fn nothing_missing_gives_no_report() {
    assert!(generate_missing_report(&vec![]).is_none());
    assert!(generate_missing_report(&vec![playlist("a", vec![]), playlist("b", vec![])]).is_none());
}

#[test]
fn report_without_artists_has_no_artist_counts() {
    let report = generate_missing_report(&vec![playlist("a", vec![wanted("T", None)])]).unwrap();
    assert_eq!(pairs(&report.songs), vec![("Unknown Artist - T", 1)]);
    assert!(report.artists.is_empty());
}

#[test]
fn count_is_written_in_brackets() {
    assert_eq!(Count { label: "A - T".to_string(), count: 12 }.line(), "[12] A - T");
    assert_eq!(Count { label: String::new(), count: 0 }.line(), "[0] ");
    assert_eq!(Count { label: "x".to_string(), count: 1000000 }.line(), "[1000000] x");
}

#[test]
fn records_are_the_same_field_by_field() {
    let a = wanted("T", Some("A"));
    assert!(a.same_as(&a.clone()));
    assert!(!a.same_as(&wanted("T", Some("B"))));
    assert!(!a.same_as(&wanted("T", None)));
    assert!(!a.same_as(&wanted("t", Some("A"))));
    let mut sized = a.clone();
    sized.size = 1;
    assert!(!a.same_as(&sized));
    let mut timed = a.clone();
    timed.duration = Some(1);
    assert!(!a.same_as(&timed));
    let mut placed = a.clone();
    placed.file_path = Some(String::new());
    assert!(!a.same_as(&placed));
}

#[test]
fn distinct_songs_are_classes_of_equal_records() {
    let mut other_album = wanted("T1", Some("A"));
    other_album.album = Some("Else".to_string());
    let songs = vec![
        wanted("T1", Some("A")),
        wanted("T2", Some("B")),
        wanted("T1", Some("A")),
        other_album,
        wanted("T2", Some("B")),
        wanted("T1", Some("A")),
    ];
    assert_eq!(distinct_songs(&songs), vec![vec![0, 2, 5], vec![1, 4], vec![3]]);
    assert!(distinct_songs(&Vec::new()).is_empty());
}

#[test]
fn summary_counts_each_missing_song_once_for_its_artist() {
    let playlists = vec![
        playlist("one", vec![wanted("T1", Some("A")), wanted("T2", Some("B")), wanted("T3", None)]),
        playlist("two", vec![wanted("T2", Some("B")), wanted("T4", Some("B")), wanted("T1", Some("A"))]),
        playlist("three", vec![wanted("T2", Some("B"))]),
    ];
    let summary = summarize_missing(&playlists);
    assert_eq!(summary.missing.len(), 7);
    assert_eq!(summary.classes, vec![vec![0, 5], vec![1, 3, 6], vec![2], vec![4]]);
    assert_eq!(pairs(&summary.artists), vec![("B", 2), ("A", 1)]);
    let none = summarize_missing(&vec![]);
    assert!(none.missing.is_empty() && none.classes.is_empty() && none.artists.is_empty());
}
