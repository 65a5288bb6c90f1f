use muman::dedup::AlbumRelation;
use muman::fileops::{is_audio_file, link_step, may_remove_directory, LinkStep};
use muman::resolve::{
    after_choice, after_confirm, menu_choice, parse_char, parse_choice, parse_yes_no, resolve, Action,
    MenuChoice, Outcome, Step,
};

#[test]
fn resolve_follows_the_table() {
    for hard in [false, true] {
        assert_eq!(resolve(AlbumRelation::Disjoint, false, hard), Action::NoOp);
        assert_eq!(resolve(AlbumRelation::Identical, false, hard), Action::Perform(Step::ChooseOne));
        assert_eq!(resolve(AlbumRelation::Subset, false, hard), Action::Perform(Step::ConfirmFirst));
        assert_eq!(resolve(AlbumRelation::Superset, false, hard), Action::Perform(Step::ConfirmSecond));
    }
    assert_eq!(resolve(AlbumRelation::PartialOverlap, false, true), Action::Perform(Step::LinkShared));
    assert_eq!(resolve(AlbumRelation::PartialOverlap, false, false), Action::NoOp);
}

#[test]
fn dry_run_only_describes() {
    assert_eq!(resolve(AlbumRelation::Disjoint, true, true), Action::NoOp);
    assert_eq!(resolve(AlbumRelation::Identical, true, false), Action::Describe(Step::ChooseOne));
    assert_eq!(resolve(AlbumRelation::Subset, true, false), Action::Describe(Step::ConfirmFirst));
    assert_eq!(resolve(AlbumRelation::Superset, true, true), Action::Describe(Step::ConfirmSecond));
    assert_eq!(resolve(AlbumRelation::PartialOverlap, true, true), Action::Describe(Step::LinkShared));
    assert_eq!(resolve(AlbumRelation::PartialOverlap, true, false), Action::NoOp);
}

#[test]
fn choice_between_identical_albums() {
    assert_eq!(after_choice(1, true), Outcome::DeleteFirst);
    assert_eq!(after_choice(2, false), Outcome::DeleteSecond);
    assert_eq!(after_choice(0, true), Outcome::LinkShared);
    assert_eq!(after_choice(0, false), Outcome::Nothing);
    assert_eq!(after_choice(3, true), Outcome::LinkShared);
    assert_eq!(after_choice(usize::MAX, false), Outcome::Nothing);
}

#[test]
fn confirmation_deletes_the_subset_album_only() {
    assert_eq!(after_confirm(Step::ConfirmFirst, true), Outcome::DeleteFirst);
    assert_eq!(after_confirm(Step::ConfirmFirst, false), Outcome::Nothing);
    assert_eq!(after_confirm(Step::ConfirmSecond, true), Outcome::DeleteSecond);
    assert_eq!(after_confirm(Step::ConfirmSecond, false), Outcome::Nothing);
    assert_eq!(after_confirm(Step::LinkShared, false), Outcome::LinkShared);
    assert_eq!(after_confirm(Step::ChooseOne, true), Outcome::Nothing);
}

#[test]
fn yes_is_y_or_yes_in_any_case() {
    for input in ["y", "Y", "yes", "YES", " Yes \n", "\ty\r\n"] {
        assert!(parse_yes_no(input), "{:?}", input);
    }
    for input in ["", "\n", "n", "no", "ye", "yess", "yep", "y e s", "1", "oui"] {
        assert!(!parse_yes_no(input), "{:?}", input);
    }
}

#[test]
fn choice_is_the_number_typed_or_zero() {
    assert_eq!(parse_choice("1\n"), 1);
    assert_eq!(parse_choice("  2  "), 2);
    assert_eq!(parse_choice("+2"), 2);
    assert_eq!(parse_choice("007"), 7);
    assert_eq!(parse_choice(""), 0);
    assert_eq!(parse_choice("\n"), 0);
    assert_eq!(parse_choice("one"), 0);
    assert_eq!(parse_choice("-1"), 0);
    assert_eq!(parse_choice("1 2"), 0);
    assert_eq!(parse_choice("99999999999999999999999999"), 0);
    assert_eq!(parse_choice(&usize::MAX.to_string()), usize::MAX);
}

#[test]
fn first_character_of_a_reply() {
    assert_eq!(parse_char("d\n"), 'd');
    assert_eq!(parse_char("  Delete"), 'd');
    assert_eq!(parse_char("Q"), 'q');
    assert_eq!(parse_char(""), ' ');
    assert_eq!(parse_char("  \n"), ' ');
}

#[test]
fn menu_entries() {
    assert_eq!(menu_choice('d'), MenuChoice::DeleteAll);
    assert_eq!(menu_choice('s'), MenuChoice::SelectEach);
    assert_eq!(menu_choice('q'), MenuChoice::Quit);
    assert_eq!(menu_choice('k'), MenuChoice::KeepAll);
    assert_eq!(menu_choice(' '), MenuChoice::KeepAll);
    assert_eq!(menu_choice('D'), MenuChoice::KeepAll);
}

#[test]
fn hard_link_needs_equal_sizes_and_two_files() {
    assert_eq!(link_step(10, 10, false), LinkStep::Relink);
    assert_eq!(link_step(10, 10, true), LinkStep::Skip);
    assert_eq!(link_step(10, 11, false), LinkStep::Skip);
    assert_eq!(link_step(0, 0, false), LinkStep::Relink);
}

#[test]
fn audio_files_end_in_flac() {
    for path in ["a.flac", "/music/X/Album/01 Song.FLAC", "a.b.Flac", "dir.d/x.flac", "..flac", "a..flac"] {
        assert!(is_audio_file(path), "{:?}", path);
    }
    for path in [
        "", "flac", ".flac", "/music/.flac", "a.mp3", "a.flac.txt", "a.flac/", "a.flac/b", "a.flacc", "a.fla",
        "a.flac ", "a.ﬂac", "a.flaç", "cover.jpg",
    ] {
        assert!(!is_audio_file(path), "{:?}", path);
    }
}

#[test]
fn directory_goes_only_without_audio() {
    let names = |list: &[&str]| list.iter().map(|s| s.to_string()).collect::<Vec<String>>();
    assert!(may_remove_directory(&names(&[])));
    assert!(may_remove_directory(&names(&["cover.jpg", "notes.txt"])));
    assert!(!may_remove_directory(&names(&["cover.jpg", "02.flac"])));
    assert!(!may_remove_directory(&names(&["01.FLAC"])));
}
