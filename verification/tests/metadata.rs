use muman::cache::{parse_datetime_to_u32, Cache};
use muman::library::{DirtyLibrary, DirtyTrack, Library, RawTags};
use muman::lives::{album_display_name, display_name, is_live, is_live_album, live_step, run, titlecase, LiveStep};
use muman::metadata::SongMetadata;
use muman::playlists::{BasicTrackInfo, Playlist};
use muman::utils::encode_url;

fn song(title: &str, artist: &str, album: &str, path: &str) -> SongMetadata {
    SongMetadata {
        title: Some(title.to_string()),
        artist: Some(artist.to_string()),
        album: Some(album.to_string()),
        isrc: None,
        duration: None,
        size: 0,
        file_path: Some(path.to_string()),
    }
}

fn wanted(title: &str, artists: &str, album: &str) -> SongMetadata {
    SongMetadata::from(BasicTrackInfo {
        track_name: title.to_string(),
        album_name: album.to_string(),
        artist_names: artists.to_string(),
    })
}

#[test]
fn encode_url_keeps_unreserved_bytes() {
    assert_eq!(encode_url("AZaz09-_.~"), "AZaz09-_.~");
    assert_eq!(encode_url(""), "");
    assert_eq!(encode_url("a b"), "a%20b");
    assert_eq!(encode_url("a/b?c=d&e"), "a%2Fb%3Fc%3Dd%26e");
    assert_eq!(encode_url("é"), "%C3%A9");
    assert_eq!(encode_url("東"), "%E6%9D%B1");
    assert_eq!(encode_url("\u{0}\u{7f}@[`{"), "%00%7F%40%5B%60%7B");
}

#[test]
fn lyrics_url_encodes_each_tag() {
    let mut s = song("Don't Stop", "AC/DC", "Best & More", "/p");
    s.isrc = Some("US-1".to_string());
    assert_eq!(
        s.request_lyrics_url().unwrap(),
        "https://lrclib.net/api/get?track_name=Don%27t%20Stop&artist_name=AC%2FDC&album_name=Best%20%26%20More&isrc=US-1"
    );
    s.album = None;
    s.isrc = None;
    assert_eq!(
        s.request_lyrics_url().unwrap(),
        "https://lrclib.net/api/get?track_name=Don%27t%20Stop&artist_name=AC%2FDC&album_name=&isrc="
    );
    s.title = None;
    assert_eq!(s.request_lyrics_url(), None);
    let mut t = song("T", "A", "B", "/p");
    t.artist = None;
    assert_eq!(t.request_lyrics_url(), None);
}

#[test]
fn lyrics_get_a_header() {
    let s = song("Title", "Artist", "Album", "/p");
    assert_eq!(s.improve_lyrics_format("la la"), "[ti:Title]\n[ar:Artist]\nla la");
    let mut bare = song("Title", "Artist", "Album", "/p");
    bare.title = None;
    assert_eq!(bare.improve_lyrics_format("la"), "[ar:Artist]\nla");
    bare.artist = None;
    assert_eq!(bare.improve_lyrics_format("la"), "la");
}

#[test]
fn synced_lyrics_come_first() {
    let s = song("T", "A", "B", "/p");
    let both = r#"{"id": 3, "plainLyrics": "plain", "syncedLyrics": "[00:01.00] synced"}"#;
    assert_eq!(s.lyrics_from_response(both).unwrap(), "[ti:T]\n[ar:A]\n[00:01.00] synced");
    let plain = r#"{"plainLyrics": "plain", "syncedLyrics": null}"#;
    assert_eq!(s.lyrics_from_response(plain).unwrap(), "[ti:T]\n[ar:A]\nplain");
    assert_eq!(s.lyrics_from_response(r#"{"plainLyrics": 3}"#), None);
    assert_eq!(s.lyrics_from_response("{}"), None);
    assert_eq!(s.lyrics_from_response("not json"), None);
    assert_eq!(s.lyrics_from_response(r#"["syncedLyrics"]"#), None);
    let escaped = r#"{"syncedLyrics": "a\nb \"c\""}"#;
    assert_eq!(s.lyrics_from_response(escaped).unwrap(), "[ti:T]\n[ar:A]\na\nb \"c\"");
}

#[test]
fn choose_lyrics_prefers_synced() {
    let s = song("T", "A", "B", "/p");
    let synced = Some("s".to_string());
    let plain = Some("p".to_string());
    assert_eq!(s.choose_lyrics(&synced, &plain).unwrap(), "[ti:T]\n[ar:A]\ns");
    assert_eq!(s.choose_lyrics(&None, &plain).unwrap(), "[ti:T]\n[ar:A]\np");
    assert_eq!(s.choose_lyrics(&None, &None), None);
}

#[test]
fn label_names_artist_then_title() {
    assert_eq!(song("T", "A", "B", "/p").label(), "A - T");
    let mut s = song("T", "A", "B", "/p");
    s.title = None;
    assert_eq!(s.label(), "A - Unknown Title");
    s.artist = None;
    assert_eq!(s.label(), "Unknown Artist - Unknown Title");
}

#[test]
fn untagged_record_has_only_a_path() {
    let s = SongMetadata::untagged("/music/a.flac".to_string());
    assert_eq!(
        s,
        SongMetadata {
            title: None,
            artist: None,
            album: None,
            isrc: None,
            duration: None,
            size: 0,
            file_path: Some("/music/a.flac".to_string()),
        }
    );
}

#[test]
fn artist_matches_one_of_several() {
    let own = song("T", "Queen", "B", "/p");
    assert!(own.matches_metadata(&wanted("T", "David Bowie;Queen", "B")));
    assert!(own.matches_metadata(&wanted("T", "QUEEN!", "B")));
    assert!(own.matches_metadata(&wanted("T", " queen ; other", "B")));
    assert!(!own.matches_metadata(&wanted("T", "David Bowie", "B")));
    assert!(!own.matches_metadata(&wanted("T", "Queens", "B")));
    assert!(!own.matches_metadata(&wanted("T", "", "B")));
    assert!(!own.matches_metadata(&wanted("T", ";", "B")));
    let mut other = wanted("T", "x", "B");
    other.artist = None;
    assert!(own.matches_metadata(&other));
    let mut unnamed = song("T", "!!!", "B", "/p");
    assert!(unnamed.matches_metadata(&wanted("T", "Anyone", "B")));
    unnamed.artist = None;
    assert!(unnamed.matches_metadata(&wanted("T", "Anyone", "B")));
}

#[test]
fn find_song_prefers_the_named_album() {
    let library = Library::new(
        vec!["/music".to_string()],
        vec![
            song("Other", "Queen", "Jazz", "/0"),
            song("Song", "Queen", "Live Killers", "/1"),
            song("Song", "Other", "Jazz", "/2"),
            song("SONG", "queen", "Jazz!", "/3"),
            song("Song", "Queen", "Jazz", "/4"),
        ],
    );
    assert_eq!(library.songs().len(), 5);
    assert_eq!(library.paths(), &vec!["/music".to_string()]);
    assert_eq!(library.find_song(&wanted("Song", "Queen", "Jazz")), Some(3));
    assert_eq!(library.find_song(&wanted("Song", "Queen", "Unknown")), Some(1));
    assert_eq!(library.find_song(&wanted("Song", "A;Other", "Live Killers")), Some(2));
    assert_eq!(library.find_song(&wanted("Song", "Nobody", "Jazz")), None);
    assert_eq!(library.find_song(&wanted("Missing", "Queen", "Jazz")), None);
}

#[test]
fn playlist_is_completed_from_the_library() {
    let library = Library::new(
        vec![],
        vec![song("One", "A", "X", "/1"), song("Two", "B", "Y", "/2"), song("Two", "B", "Z", "/3")],
    );
    let mut playlist = Playlist::new(
        "mix".to_string(),
        vec![wanted("two", "B", "Z"), wanted("Three", "C", "X"), wanted("ONE", "A;B", ""), wanted("One", "B", "X")],
    );
    assert!(playlist.missing_songs.is_empty());
    playlist.missing_songs.push(wanted("Earlier", "E", "E"));
    playlist.filter_and_complete_from_library(&library);
    assert_eq!(playlist.name, "mix");
    assert_eq!(playlist.songs, vec![song("Two", "B", "Z", "/3"), song("One", "A", "X", "/1")]);
    assert_eq!(
        playlist.missing_songs,
        vec![wanted("Earlier", "E", "E"), wanted("Three", "C", "X"), wanted("One", "B", "X")]
    );
}

#[test]
fn track_info_becomes_a_wanted_record() {
    let s = wanted("T", "A;B", "L");
    assert_eq!(s.title.as_deref(), Some("T"));
    assert_eq!(s.artist.as_deref(), Some("A;B"));
    assert_eq!(s.album.as_deref(), Some("L"));
    assert_eq!((s.isrc, s.duration, s.size, s.file_path), (None, None, 0, None));
    let blank = SongMetadata::from(BasicTrackInfo::default());
    assert_eq!(blank.title.as_deref(), Some(""));
}

#[test]
fn live_albums_by_name() {
    for name in [
        "Live at Leeds", "ALIVE", "MTV Unplugged", "The Concert in Central Park", "World Tour 1995",
        "BBC Sessions", "Peel sessions", "A Night at the Opera", "Made in Japan", "Performance",
    ] {
        assert!(is_live_album(name), "{:?}", name);
    }
    for name in ["Abbey Road", "Nevermind", "", "Session", "In Utero", "At the"] {
        assert!(!is_live_album(name), "{:?}", name);
    }
}

#[test]
fn titlecase_raises_the_first_character() {
    assert_eq!(titlecase("queen"), "Queen");
    assert_eq!(titlecase("Queen"), "Queen");
    assert_eq!(titlecase(""), "");
    assert_eq!(titlecase("élan vital"), "Élan vital");
    assert_eq!(titlecase("ßeta"), "SSeta");
    assert_eq!(titlecase("1 up"), "1 up");
}

#[test]
fn live_songs_need_artist_album_and_path() {
    assert!(is_live(&song("T", "A", "Live in Paris", "/p")));
    assert!(!is_live(&song("T", "A", "Studio", "/p")));
    let mut s = song("T", "A", "Live in Paris", "/p");
    s.file_path = None;
    assert!(!is_live(&s));
    let mut s = song("T", "A", "Live in Paris", "/p");
    s.artist = None;
    assert!(!is_live(&s));
    let mut s = song("T", "A", "Live in Paris", "/p");
    s.album = None;
    assert!(!is_live(&s));
}

#[test]
fn live_run_lists_artists_in_key_order() {
    let library = Library::new(
        vec![],
        vec![
            song("1", "Zappa", "Live in NY", "/z/ny/1"),
            song("2", "Queen", "Live Killers", "/q/lk/2"),
            song("3", "Queen", "Jazz", "/q/jazz/3"),
            song("4", "!!!", "Live!", "/x/live/4"),
            song("5", "queen", "LIVE KILLERS", "/q/lk/5"),
            song("6", "Queen", "Live at Wembley", "/q/w/6"),
            song("7", "ABBA", "Live", "/a/live/7"),
        ],
    );
    let plan = run(&library, false);
    let keys: Vec<&str> = plan.artists.iter().map(|a| a.key.as_str()).collect();
    assert_eq!(keys, vec!["", "abba", "queen", "zappa"]);
    assert_eq!(plan.steps, vec![LiveStep::AskDelete, LiveStep::AskDelete, LiveStep::ShowMenu, LiveStep::AskDelete]);
    let queen = &plan.artists[2];
    assert_eq!(queen.name, "Queen");
    assert_eq!(queen.albums.len(), 2);
    assert_eq!(queen.albums[0].key, "live killers");
    assert_eq!(queen.albums[0].name, "Live Killers");
    let paths: Vec<&str> = queen.albums[0].songs.iter().map(|s| s.file_path.as_deref().unwrap()).collect();
    assert_eq!(paths, vec!["/q/lk/2", "/q/lk/5"]);
    assert_eq!(queen.albums[1].key, "live at wembley");
    assert_eq!(plan.artists[0].name, "!!!");
    let dry = run(&library, true);
    assert_eq!(dry.steps, vec![LiveStep::Describe; 4]);
    let none = run(&Library::new(vec![], vec![]), false);
    assert!(none.artists.is_empty() && none.steps.is_empty());
}

#[test]
fn live_steps() {
    assert_eq!(live_step(0, false), LiveStep::Nothing);
    assert_eq!(live_step(0, true), LiveStep::Nothing);
    assert_eq!(live_step(1, false), LiveStep::AskDelete);
    assert_eq!(live_step(2, false), LiveStep::ShowMenu);
    assert_eq!(live_step(1, true), LiveStep::Describe);
    assert_eq!(live_step(9, true), LiveStep::Describe);
}

#[test]
fn album_is_shown_under_its_folder_name() {
    assert_eq!(display_name(Some("Folder".to_string())), "Folder");
    assert_eq!(display_name(None), "Unknown Album");
    assert_eq!(album_display_name("/music/Queen/Live Killers/01.flac"), "Live Killers");
    assert_eq!(album_display_name("01.flac"), "Unknown Album");
}

#[test]
fn datetime_is_packed_into_one_number() {
    assert_eq!(parse_datetime_to_u32("14:05 23/11/25"), Some(2511231405));
    assert_eq!(parse_datetime_to_u32("  1:2   3/4/5 "), Some(504030102));
    assert_eq!(parse_datetime_to_u32("0:0 0/0/0"), Some(0));
    assert_eq!(parse_datetime_to_u32("14:05\t23/11/25\n"), Some(2511231405));
    assert_eq!(parse_datetime_to_u32("95:67 92/94/42"), Some(4294929567));
    assert_eq!(parse_datetime_to_u32("72:95 96/94/42"), Some(4294967295));
    assert_eq!(parse_datetime_to_u32("72:96 96/94/42"), None);
    assert_eq!(parse_datetime_to_u32("0:0 0/0/43"), None);
    for text in [
        "", "14:05", "14:05 23/11", "14 23/11/25", "14:05:00 23/11/25", "14:05 23/11/25 x", "a:05 23/11/25",
        "14:05 23/11/", "14:05 23-11-25", "14:-5 23/11/25", "14:05 23/11/25/1",
    ] {
        assert_eq!(parse_datetime_to_u32(text), None, "{:?}", text);
    }
}

#[test]
fn cache_is_written_line_by_line() {
    assert_eq!(Cache::new(), Cache { last_scan: None, scan_count: None });
    assert_eq!(Cache::new().to_text(), "");
    let full = Cache { last_scan: Some(2511231405), scan_count: Some(1200) };
    assert_eq!(full.to_text(), "last_scan: 14:5 23/11/25\nscan_count: 1200\n");
    assert_eq!(Cache { last_scan: Some(0), scan_count: None }.to_text(), "last_scan: 0:0 0/0/0\n");
    assert_eq!(Cache { last_scan: None, scan_count: Some(0) }.to_text(), "scan_count: 0\n");
    assert_eq!(
        Cache { last_scan: Some(u32::MAX), scan_count: None }.to_text(),
        "last_scan: 72:95 96/94/42\n"
    );
}

#[test]
fn cache_is_read_line_by_line() {
    let full = Cache { last_scan: Some(2511231405), scan_count: Some(1200) };
    assert_eq!(Cache::from_text(&full.to_text()), full);
    assert_eq!(Cache::from_text(""), Cache::new());
    assert_eq!(Cache::from_text("nothing here\n\n"), Cache::new());
    assert_eq!(
        Cache::from_text("  scan_count :  7 \r\nlast_scan: 1:2 3/4/5\r\nother: 1"),
        Cache { last_scan: Some(504030102), scan_count: Some(7) }
    );
    assert_eq!(
        Cache::from_text("scan_count: 1\nscan_count: x\nscan_count: 2\nscan_count:"),
        Cache { last_scan: None, scan_count: Some(2) }
    );
    assert_eq!(Cache::from_text("last_scan: 14:05\nScan_count: 3"), Cache::new());
    assert_eq!(Cache::from_text("last_scan 1:2 3/4/5"), Cache::new());
}

#[test]
fn scanned_library_keeps_audio_files() {
    let files: Vec<String> =
        ["/m/a.flac", "/m/cover.jpg", "/m/b.FLAC", "/m/.flac", "/m/c.mp3"].iter().map(|s| s.to_string()).collect();
    let library = DirtyLibrary::new("/m".to_string(), files);
    assert_eq!(library.path, "/m");
    let paths: Vec<&str> = library.tracks.iter().map(|t| t.file_path.as_deref().unwrap()).collect();
    assert_eq!(paths, vec!["/m/a.flac", "/m/b.FLAC"]);
    assert!(library.tracks.iter().all(|t| t.title.is_none() && t.duration.is_none() && t.year.is_none()));
}

#[test]
fn track_takes_over_tags_and_properties() {
    let mut track = DirtyTrack::from_path("/m/a.flac".to_string());
    assert!(track.title.is_none() && track.bitrate.is_none());
    assert!(DirtyTrack::default().file_path.is_none());
    let tags = RawTags {
        title: Some("T".to_string()),
        artist: Some("A".to_string()),
        album: None,
        genre: Some("Rock".to_string()),
        track_number: Some("07".to_string()),
        disc_number: Some("1/2".to_string()),
        year: Some("1977".to_string()),
        isrc: Some("GB-1".to_string()),
    };
    track.fill_metadata(&Some(tags), 4294967296 + 215, Some(900));
    assert_eq!(track.title.as_deref(), Some("T"));
    assert_eq!(track.artist.as_deref(), Some("A"));
    assert_eq!(track.album, None);
    assert_eq!(track.genre.as_deref(), Some("Rock"));
    assert_eq!(track.track_number, Some(7));
    assert_eq!(track.disc_number, None);
    assert_eq!(track.year, Some(1977));
    assert_eq!(track.isrc.as_deref(), Some("GB-1"));
    assert_eq!(track.duration, Some(215));
    assert_eq!(track.bitrate, Some(900));
    assert_eq!(track.file_path.as_deref(), Some("/m/a.flac"));
    track.fill_metadata(&None, 3, None);
    assert_eq!(track.title.as_deref(), Some("T"));
    assert_eq!(track.year, Some(1977));
    assert_eq!(track.duration, Some(3));
    assert_eq!(track.bitrate, None);
}
