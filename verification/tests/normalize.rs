use muman::metadata::SongMetadata;
use muman::text::{
    chars_of, collapse, comes_before, contains, have_same_letters, letters, normalize, parse_unsigned,
    settled_key, split,
};

fn chars(s: &str) -> Vec<char> {
    s.chars().collect()
}

#[test]
fn normalize_ignores_case_and_punctuation() {
    assert_eq!(normalize("Beggin'!"), normalize("BEGGIN"));
    assert_eq!(normalize("Beggin'!"), "beggin");
}

#[test]
fn normalize_is_idempotent_on_examples() {
    for text in ["Beggin'!", "  Hello,  World!  ", "ÉCOLE (Live)", "", "   ", "a-b_c", "ΑΣ! Β", "a \t b"] {
        let once = normalize(text);
        assert_eq!(normalize(&once), once);
    }
}

#[test]
fn normalize_trims_and_collapses_white_space() {
    assert_eq!(normalize("  The  Wall \t"), "the wall");
    assert_eq!(normalize("a   b"), "a b");
    assert_eq!(normalize("a\t\n b\u{3000}c"), "a b c");
    assert_eq!(normalize("a - b"), "a b");
    assert_eq!(normalize("a\tb"), "a b");
    assert_eq!(normalize("!?"), "");
    assert_eq!(normalize(" ! a ! "), "a");
    assert_eq!(normalize("   "), "");
}

#[test]
fn white_space_is_the_listed_code_points() {
    let listed = |c: char| {
        let n = c as u32;
        (0x09..=0x0D).contains(&n)
            || n == 0x20
            || n == 0x85
            || n == 0xA0
            || n == 0x1680
            || (0x2000..=0x200A).contains(&n)
            || n == 0x2028
            || n == 0x2029
            || n == 0x202F
            || n == 0x205F
            || n == 0x3000
    };
    for code in 0..=0x10FFFFu32 {
        if let Some(c) = char::from_u32(code) {
            assert_eq!(c.is_whitespace(), listed(c), "{:x}", code);
        }
    }
}

#[test]
fn collapse_makes_each_run_one_blank() {
    let chars = |s: &str| s.chars().collect::<Vec<char>>();
    assert_eq!(collapse(&chars("a  b")), chars("a b"));
    assert_eq!(collapse(&chars("  a \t b  ")), chars(" a b "));
    assert_eq!(collapse(&chars("\n")), chars(" "));
    assert_eq!(collapse(&chars("")), chars(""));
    assert_eq!(collapse(&chars("ab")), chars("ab"));
}

#[test]
fn letters_are_lowercased_and_stripped() {
    assert_eq!(letters("Beggin'!"), "beggin".chars().collect::<Vec<char>>());
    assert_eq!(letters(" A-b  C "), " ab  c ".chars().collect::<Vec<char>>());
}

#[test]
fn settled_key_is_the_key_where_it_is_stable() {
    for text in ["Beggin'!", "  Hello,  World!  ", "ÉCOLE (Live)", "", "ΑΣ! Β", "İstanbul"] {
        let key = settled_key(text).unwrap();
        assert_eq!(key, normalize(text));
        assert_eq!(normalize(&key), key);
    }
}

#[test]
fn same_letters_whatever_case_and_punctuation() {
    assert!(have_same_letters("Beggin'!", "BEGGIN"));
    assert!(have_same_letters("a.b", "AB"));
    assert!(!have_same_letters("a b", "ab"));
    assert!(!have_same_letters("abc", "abd"));
    assert!(have_same_letters("", "?!"));
}

#[test]
fn normalize_keeps_letters_of_other_scripts() {
    assert_eq!(normalize("Beyoncé"), "beyoncé");
    assert_eq!(normalize("東京 事変"), "東京 事変");
}

#[test]
fn normalize_str_of_missing_tag_is_empty() {
    assert_eq!(SongMetadata::normalize_str(&None), "");
    assert_eq!(SongMetadata::normalize_str(&Some("Song #1".to_string())), "song 1");
}

#[test]
fn chars_of_gives_the_characters() {
    assert_eq!(chars_of("añb"), vec!['a', 'ñ', 'b']);
    assert_eq!(chars_of(""), Vec::<char>::new());
}

#[test]
fn contains_finds_substrings() {
    assert!(contains(&chars("live at leeds"), &chars("live")));
    assert!(contains(&chars("alive"), &chars("live")));
    assert!(contains(&chars("abc"), &chars("")));
    assert!(contains(&chars(""), &chars("")));
    assert!(!contains(&chars("liv"), &chars("live")));
    assert!(!contains(&chars("studio"), &chars("live")));
    assert!(contains(&chars("xxlive"), &chars("live")));
}

#[test]
fn comes_before_orders_as_strings_do() {
    let words = ["", "a", "ab", "b", "B", "é", "aa", "a/b", "a b"];
    for a in words {
        for b in words {
            assert_eq!(comes_before(&chars(a), &chars(b)), a < b, "{:?} {:?}", a, b);
        }
    }
}

#[test]
fn split_cuts_at_each_separator() {
    assert_eq!(split(&chars("a;b"), ';'), vec![chars("a"), chars("b")]);
    assert_eq!(split(&chars(""), ';'), vec![chars("")]);
    assert_eq!(split(&chars("a;"), ';'), vec![chars("a"), chars("")]);
    assert_eq!(split(&chars(";;"), ';'), vec![chars(""), chars(""), chars("")]);
    assert_eq!(split(&chars("abc"), ';'), vec![chars("abc")]);
}

#[test]
fn parse_unsigned_reads_as_the_standard_parser_does() {
    for text in ["0", "7", "+7", "007", "42", "4294967295", "4294967296", "", "+", "-1", "1a", " 1", "++1", "１"] {
        let v = chars(text);
        let expected = text.parse::<u32>().ok().map(|n| n as u64);
        assert_eq!(parse_unsigned(&v, 0, v.len(), u32::MAX as u64), expected, "{:?}", text);
    }
}

#[test]
fn parse_unsigned_reads_a_part() {
    let v = chars("ab123cd");
    assert_eq!(parse_unsigned(&v, 2, 5, 1000), Some(123));
    assert_eq!(parse_unsigned(&v, 2, 5, 122), None);
    assert_eq!(parse_unsigned(&v, 2, 2, 1000), None);
    assert_eq!(parse_unsigned(&v, 1, 5, 1000), None);
}

#[test]
fn normalize_is_idempotent_on_every_character_of_the_basic_plane() {
    for code in 0..=0xFFFFu32 {
        if let Some(c) = char::from_u32(code) {
            let text = format!("a{}b {} {}", c, c, c);
            let once = normalize(&text);
            assert_eq!(normalize(&once), once, "{:?}", c);
        }
    }
}
