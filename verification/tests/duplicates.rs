use muman::duplicates::{
    classify, default_policy, find_duplicates, group_candidates, is_above, is_same_content, plan_cluster,
    rank, select_keeper, IdentityPolicy, Signal,
};
use muman::metadata::SongMetadata;

fn song(title: &str, artist: &str, album: Option<&str>, isrc: Option<&str>, size: u64, path: &str) -> SongMetadata {
    SongMetadata {
        title: Some(title.to_string()),
        artist: Some(artist.to_string()),
        album: album.map(|s| s.to_string()),
        isrc: isrc.map(|s| s.to_string()),
        duration: None,
        size,
        file_path: Some(path.to_string()),
    }
}

fn timed(seconds: Option<u32>, size: u64) -> SongMetadata {
    SongMetadata { duration: seconds, ..song("Song", "X", None, None, size, "/p") }
}

fn policy(signal: Signal) -> IdentityPolicy {
    IdentityPolicy { signal, size_percent: 5, duration_tolerance: 3 }
}

fn album_of(name: &str, tracks: usize) -> Vec<SongMetadata> {
    (0..tracks)
        .map(|i| song(&format!("{} track {}", name, i), "X", Some(name), None, 1000, &format!("/{}/{}", name, i)))
        .collect()
}

#[test]
fn equal_codes_make_one_cluster_whatever_the_size() {
    let group = vec![
        song("Song", "X", None, Some("A1"), 10_000_000, "/a"),
        song("Song", "X", None, Some("A1"), 10_200_000, "/b"),
    ];
    assert_eq!(classify(&group, default_policy()), vec![vec![0, 1]]);
    let far = vec![
        song("Song", "X", None, Some("A1"), 1, "/a"),
        song("Song", "X", None, Some("A1"), 4_000_000_000, "/b"),
    ];
    assert_eq!(classify(&far, default_policy()), vec![vec![0, 1]]);
}

#[test]
fn keeper_of_equal_codes_goes_by_album_tier_not_size() {
    let mut library = album_of("Full", 3);
    let on_album = SongMetadata { isrc: Some("A1".to_string()), size: 10_000_000, ..library[0].clone() };
    library[0] = on_album.clone();
    let loose = song("Full track 0", "X", Some("Single"), Some("A1"), 10_200_000, "/s");
    library.push(loose.clone());
    let cluster = vec![loose.clone(), on_album.clone()];
    assert_eq!(classify(&cluster, default_policy()), vec![vec![0, 1]]);
    assert_eq!(select_keeper(&cluster, &library, false), Some(1));
    assert_eq!(select_keeper(&vec![on_album, loose], &library, false), Some(0));
}

#[test]
fn different_codes_are_different_whatever_the_size() {
    let a = SongMetadata { duration: Some(200), ..song("Song", "X", None, Some("A1"), 10_000_000, "/a") };
    let b = SongMetadata { duration: Some(200), ..song("Song", "X", None, Some("B2"), 10_000_000, "/b") };
    for signal in [Signal::Size, Signal::Duration, Signal::Both, Signal::Either] {
        assert!(!is_same_content(&a, &b, policy(signal)));
    }
    assert_eq!(classify(&vec![a, b], default_policy()), vec![vec![0], vec![1]]);
}

#[test]
fn size_signal_compares_with_the_larger_size() {
    let p = policy(Signal::Size);
    assert!(is_same_content(&timed(None, 1000), &timed(None, 1052), p));
    assert!(is_same_content(&timed(None, 1052), &timed(None, 1000), p));
    assert!(!is_same_content(&timed(None, 1000), &timed(None, 1053), p));
    assert!(!is_same_content(&timed(None, 100), &timed(None, 95), p));
    assert!(is_same_content(&timed(None, 100), &timed(None, 96), p));
    assert!(!is_same_content(&timed(None, 0), &timed(None, 0), p));
    assert!(!is_same_content(&timed(Some(10), 0), &timed(Some(10), 5), p));
    assert!(is_same_content(&timed(None, u64::MAX), &timed(None, u64::MAX - 1), p));
}

#[test]
fn duration_signal_needs_both_durations() {
    let p = policy(Signal::Duration);
    assert!(is_same_content(&timed(Some(200), 1), &timed(Some(202), 900), p));
    assert!(is_same_content(&timed(Some(202), 1), &timed(Some(200), 900), p));
    assert!(!is_same_content(&timed(Some(200), 1), &timed(Some(203), 1), p));
    assert!(!is_same_content(&timed(None, 1000), &timed(Some(200), 1000), p));
    assert!(!is_same_content(&timed(None, 1000), &timed(None, 1000), p));
}

#[test]
fn combined_signals() {
    let close_size = (timed(Some(100), 1000), timed(Some(200), 1001));
    let close_time = (timed(Some(100), 1000), timed(Some(101), 5000));
    let close_both = (timed(Some(100), 1000), timed(Some(101), 1001));
    assert!(!is_same_content(&close_size.0, &close_size.1, policy(Signal::Both)));
    assert!(is_same_content(&close_size.0, &close_size.1, policy(Signal::Either)));
    assert!(!is_same_content(&close_time.0, &close_time.1, policy(Signal::Both)));
    assert!(is_same_content(&close_time.0, &close_time.1, policy(Signal::Either)));
    assert!(is_same_content(&close_both.0, &close_both.1, policy(Signal::Both)));
}

#[test]
fn empty_code_counts_as_missing() {
    let a = song("Song", "X", None, Some(""), 1000, "/a");
    let b = song("Song", "X", None, Some(""), 5000, "/b");
    let c = song("Song", "X", None, Some("A1"), 1001, "/c");
    assert!(!is_same_content(&a, &b, default_policy()));
    assert!(is_same_content(&a, &c, default_policy()));
}

#[test]
fn default_policy_compares_sizes_within_five_hundredths() {
    let p = default_policy();
    assert_eq!(p, IdentityPolicy { signal: Signal::Size, size_percent: 5, duration_tolerance: 3 });
}

#[test]
fn clusters_partition_the_group() {
    let group = vec![
        timed(None, 1000),
        timed(None, 2000),
        timed(None, 1010),
        timed(None, 0),
        timed(None, 2050),
        timed(None, 990),
        timed(None, 0),
    ];
    let clusters = classify(&group, default_policy());
    assert_eq!(clusters, vec![vec![0, 2, 5], vec![1, 4], vec![3], vec![6]]);
    let mut all: Vec<usize> = clusters.into_iter().flatten().collect();
    all.sort();
    assert_eq!(all, (0..group.len()).collect::<Vec<usize>>());
    assert_eq!(classify(&vec![], default_policy()), Vec::<Vec<usize>>::new());
}

#[test]
fn records_are_compared_with_first_members_only() {
    let group = vec![timed(None, 1000), timed(None, 1040), timed(None, 1080)];
    assert_eq!(classify(&group, default_policy()), vec![vec![0, 1], vec![2]]);
    let coded = vec![
        timed(None, 1000),
        SongMetadata { isrc: Some("A1".to_string()), ..timed(None, 1001) },
        SongMetadata { isrc: Some("A1".to_string()), ..timed(None, 2000) },
    ];
    assert_eq!(classify(&coded, default_policy()), vec![vec![0, 1], vec![2]]);
    let mixed = vec![
        timed(None, 1000),
        SongMetadata { isrc: Some("A1".to_string()), ..timed(None, 1001) },
        SongMetadata { isrc: Some("B2".to_string()), ..timed(None, 999) },
    ];
    assert_eq!(classify(&mixed, default_policy()), vec![vec![0, 1, 2]]);
}

#[test]
fn candidates_share_title_and_artist_keys() {
    let songs = vec![
        song("Song", "X", None, None, 1, "/0"),
        song("Other", "X", None, None, 1, "/1"),
        song("SONG!", "x", Some("B"), None, 1, "/2"),
        song("Song", "Y", None, None, 1, "/3"),
        song("!!!", "X", None, None, 1, "/4"),
        song("...", "X", None, None, 1, "/5"),
        song("other", "X", None, None, 1, "/6"),
        song("song", "X.", None, None, 1, "/7"),
        SongMetadata { title: None, ..song("", "X", None, None, 1, "/8") },
        SongMetadata { title: None, ..song("", "X", None, None, 1, "/9") },
    ];
    assert_eq!(group_candidates(&songs), vec![vec![0, 2, 7], vec![1, 6]]);
    assert_eq!(group_candidates(&vec![]), Vec::<Vec<usize>>::new());
}

#[test]
fn candidates_with_missing_artist_share_the_empty_key() {
    let songs = vec![
        SongMetadata { artist: None, ..song("Song", "", None, None, 1, "/0") },
        song("Song", "?", None, None, 1, "/1"),
    ];
    assert_eq!(group_candidates(&songs), vec![vec![0, 1]]);
}

#[test]
fn rank_reads_tier_code_keyword_and_path() {
    let mut library = album_of("Full", 3);
    library.extend(album_of("Pair", 2));
    let loose = song("Loose", "X", None, None, 1, "/loose");
    let r = rank(&library[0], &library, true);
    assert_eq!((r.tier, r.coded, r.keyword), (2, false, 1));
    assert_eq!(r.path, "/Full/0".chars().collect::<Vec<char>>());
    assert_eq!(rank(&library[3], &library, true).tier, 1);
    assert_eq!(rank(&loose, &library, true).tier, 0);
    let unknown = song("t", "X", Some("Nowhere"), Some("A1"), 1, "/n");
    let r = rank(&unknown, &library, true);
    assert_eq!((r.tier, r.coded), (1, true));
    assert!(!rank(&song("t", "X", None, Some(""), 1, "/n"), &library, true).coded);
    let punctuated = song("t", "X", Some("!!!"), None, 1, "/n");
    assert_eq!(rank(&punctuated, &library, true).tier, 0);
}

#[test]
fn keywords_penalise_compilations_and_favour_deluxe() {
    let library = Vec::new();
    let level = |album: &str, on: bool| rank(&song("t", "X", Some(album), None, 1, "/p"), &library, on).keyword;
    assert_eq!(level("Greatest Hits", true), 0);
    assert_eq!(level("The BEST OF X", true), 0);
    assert_eq!(level("Song (Radio Edit)", true), 0);
    assert_eq!(level("Special Edition", true), 0);
    assert_eq!(level("Remixes", true), 0);
    assert_eq!(level("Album (Deluxe)", true), 2);
    assert_eq!(level("Greatest Hits (Deluxe)", true), 0);
    assert_eq!(level("Album", true), 1);
    assert_eq!(level("Bestof", true), 1);
    assert_eq!(level("Greatest Hits", false), 1);
    assert_eq!(level("Album (Deluxe)", false), 1);
    assert_eq!(rank(&song("t", "X", None, None, 1, "/p"), &library, true).keyword, 1);
}

#[test]
fn ranks_break_ties_in_order() {
    let library = album_of("Full", 3);
    let make = |album: Option<&str>, isrc: Option<&str>, path: &str| {
        rank(&song("t", "X", album, isrc, 1, path), &library, true)
    };
    let full = make(Some("Full"), None, "/zzzzzzzz");
    let small_coded = make(Some("Small"), Some("A1"), "/a");
    let small = make(Some("Small"), None, "/a");
    let small_deluxe = make(Some("Small Deluxe"), None, "/zzzz");
    let small_radio = make(Some("Small Radio"), Some("A1"), "/a");
    let small_long = make(Some("Small"), None, "/aa");
    let small_later = make(Some("Small"), None, "/b");
    assert!(is_above(&full, &small_coded));
    assert!(!is_above(&small_coded, &full));
    assert!(is_above(&small_coded, &small_deluxe));
    assert!(is_above(&small_deluxe, &small));
    assert!(is_above(&small_coded, &small_radio));
    assert!(is_above(&small, &small_long));
    assert!(is_above(&small, &small_later));
    assert!(is_above(&small_later, &small_long));
    assert!(!is_above(&small, &small));
}

#[test]
fn keeper_does_not_depend_on_the_order() {
    let library = album_of("Full", 3);
    let members = vec![
        song("t", "X", Some("Small"), None, 1, "/b"),
        song("t", "X", Some("Full"), None, 1, "/long/path"),
        song("t", "X", Some("Small"), Some("A1"), 1, "/c"),
        song("t", "X", Some("Full"), None, 1, "/long/pata"),
        song("t", "X", None, Some("A1"), 1, "/a"),
    ];
    let orders: [[usize; 5]; 6] =
        [[0, 1, 2, 3, 4], [4, 3, 2, 1, 0], [3, 0, 4, 1, 2], [1, 3, 0, 2, 4], [2, 4, 1, 0, 3], [0, 2, 4, 3, 1]];
    for order in orders {
        let cluster: Vec<SongMetadata> = order.iter().map(|&i| members[i].clone()).collect();
        let keeper = select_keeper(&cluster, &library, true).unwrap();
        assert_eq!(cluster[keeper], members[3]);
    }
    assert_eq!(select_keeper(&vec![], &library, true), None);
    assert_eq!(select_keeper(&vec![members[0].clone()], &library, true), Some(0));
}

#[test]
fn keeper_is_the_first_of_equals() {
    let again = song("t", "X", None, None, 1, "/same");
    assert_eq!(select_keeper(&vec![again.clone(), again.clone()], &vec![], false), Some(0));
}

#[test]
fn plan_keeps_one_and_removes_the_others() {
    let group = vec![10, 20, 30, 40];
    let plan = plan_cluster(&group, &vec![0, 2, 3], 1, false).unwrap();
    assert_eq!(plan.keep, 30);
    assert_eq!(plan.remove, vec![10, 40]);
    assert!(!plan.describe_only);
    let alone = plan_cluster(&group, &vec![1], 0, true).unwrap();
    assert_eq!(alone.keep, 20);
    assert!(alone.remove.is_empty());
    assert!(alone.describe_only);
    assert!(plan_cluster(&group, &vec![0, 2], 2, false).is_none());
    assert!(plan_cluster(&group, &vec![0, 4], 0, false).is_none());
    assert!(plan_cluster(&group, &vec![], 0, false).is_none());
}

#[test]
fn find_duplicates_runs_the_stages() {
    let mut library = album_of("Full", 3);
    library.push(song("Full track 1", "X", Some("Single"), None, 1010, "/single/1"));
    library.push(song("Full track 1", "X", None, None, 5000, "/loose"));
    library.push(song("Unique", "X", None, None, 1000, "/unique"));
    let found = find_duplicates(&library, default_policy(), false);
    assert_eq!(found.groups, vec![vec![1, 3, 4]]);
    assert_eq!(found.details.len(), 1);
    assert_eq!(found.details[0].clusters, vec![vec![0, 1], vec![2]]);
    assert_eq!(found.details[0].keepers, vec![0, 0]);
    let plan =
        plan_cluster(&found.groups[0], &found.details[0].clusters[0], found.details[0].keepers[0], false).unwrap();
    assert_eq!(plan.keep, 1);
    assert_eq!(plan.remove, vec![3]);
}
