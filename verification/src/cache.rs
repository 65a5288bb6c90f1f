//! What is remembered of the last scan, and the text in which it is kept.

use crate::text::{
    chars_of, decimal_of, index_of, lemma_index_of_at, lemma_skip_leading_at, lemma_skip_leading_shape,
    parse_unsigned, push_decimal, skip_leading, slice_of, split, split_at_each, trim_bounds, trimmed,
    unsigned_of, views, whitespace,
};
use vstd::prelude::*;
use vstd::string::StringExecFns;

verus! {

/// When the library was last scanned and how many files the scan found.
#[derive(Debug, Clone, Copy, PartialEq, Eq, Structural)]
pub struct Cache {
    /// The time of the last scan as one number: the year, then month, day, hour and minute
    /// with two decimal digits each.
    pub last_scan: Option<u32>,
    pub scan_count: Option<usize>,
}

/// The length of the first word of a text: where white space first stands in it, and its
/// length where none does.
pub open spec fn first_space(s: Seq<char>) -> int
    decreases s.len(),
{
    if s.len() == 0 || whitespace(s[0]) {
        0
    } else {
        1 + first_space(s.drop_first())
    }
}

/// The words of a text: what stands between white space.
pub open spec fn words_of(s: Seq<char>) -> Seq<Seq<char>>
    decreases s.len(),
    via words_decreases
{
    let t = skip_leading(s);
    if t.len() == 0 {
        Seq::empty()
    } else {
        seq![t.take(first_space(t))] + words_of(t.skip(first_space(t)))
    }
}

#[via_fn]
proof fn words_decreases(s: Seq<char>) {
    let t = skip_leading(s);
    if t.len() != 0 {
        let n = lemma_skip_leading_shape(s);
        lemma_first_space_range(t);
    }
}

/// The first word of a text that begins with no white space is not empty, and ends within
/// the text.
pub proof fn lemma_first_space_range(s: Seq<char>)
    ensures
        0 <= first_space(s) <= s.len(),
        s.len() > 0 && !whitespace(s[0]) ==> first_space(s) >= 1,
    decreases s.len(),
{
    if s.len() > 0 && !whitespace(s[0]) {
        lemma_first_space_range(s.drop_first());
    }
}

/// `first_space` is the position before which no white space stands and at which some
/// does.
pub proof fn lemma_first_space_at(s: Seq<char>, n: int)
    requires
        0 <= n <= s.len(),
        forall|i: int| 0 <= i < n ==> !whitespace(#[trigger] s[i]),
        n == s.len() || whitespace(s[n]),
    ensures
        first_space(s) == n,
    decreases n,
{
    if n > 0 {
        let t = s.drop_first();
        assert forall|i: int| 0 <= i < n - 1 implies !whitespace(#[trigger] t[i]) by {
            assert(t[i] == s[i + 1]);
        }
        lemma_first_space_at(t, n - 1);
    }
}

/// The time that a text writes as hour, `:`, minute, white space, day, `/`, month, `/`,
/// year, taken as one number; none where the text is written otherwise or the number does
/// not fit.
pub open spec fn datetime_of(s: Seq<char>) -> Option<u32> {
    let words = words_of(s);
    if words.len() != 2 {
        None
    } else {
        let time = split_at_each(words[0], ':');
        let date = split_at_each(words[1], '/');
        if time.len() != 2 || date.len() != 3 {
            None
        } else {
            let max = u32::MAX as nat;
            let hour = unsigned_of(time[0], max);
            let minute = unsigned_of(time[1], max);
            let day = unsigned_of(date[0], max);
            let month = unsigned_of(date[1], max);
            let year = unsigned_of(date[2], max);
            if hour is None || minute is None || day is None || month is None || year is None {
                None
            } else {
                let stamp = year->0 * 100000000 + month->0 * 1000000 + day->0 * 10000 + hour->0 * 100
                    + minute->0;
                if stamp <= u32::MAX {
                    Some(stamp as u32)
                } else {
                    None
                }
            }
        }
    }
}

/// The words of a text.
fn words(v: &Vec<char>) -> (pieces: Vec<Vec<char>>)
    ensures
        views(pieces@) == words_of(v@),
{
    let mut pieces: Vec<Vec<char>> = Vec::new();
    let mut i: usize = 0;
    assert(v@.skip(0) == v@);
    assert(views(pieces@) =~= Seq::<Seq<char>>::empty());
    loop
        invariant
            i <= v.len(),
            words_of(v@) == views(pieces@) + words_of(v@.skip(i as int)),
        ensures
            views(pieces@) == words_of(v@),
        decreases v.len() - i,
    {
        let ghost from = i;
        let ghost rest = v@.skip(i as int);
        while i < v.len() && v[i].is_whitespace()
            invariant
                from <= i <= v.len(),
                forall|k: int| from <= k < i ==> whitespace(#[trigger] v@[k]),
            decreases v.len() - i,
        {
            i += 1;
        }
        let ghost t = v@.skip(i as int);
        proof {
            assert forall|k: int| 0 <= k < i - from implies whitespace(#[trigger] rest[k]) by {
                assert(rest[k] == v@[from + k]);
            }
            if i < v.len() {
                assert(rest[i - from] == v@[i as int]);
            }
            lemma_skip_leading_at(rest, i - from);
            assert(rest.subrange(i - from, rest.len() as int) == t);
        }
        if i == v.len() {
            assert(words_of(rest) =~= Seq::<Seq<char>>::empty());
            assert(words_of(v@) =~= views(pieces@));
            break;
        }
        let start: usize = i;
        while i < v.len() && !v[i].is_whitespace()
            invariant
                start <= i <= v.len(),
                forall|k: int| start <= k < i ==> !whitespace(#[trigger] v@[k]),
            decreases v.len() - i,
        {
            i += 1;
        }
        let piece = slice_of(v, start, i);
        proof {
            assert forall|k: int| 0 <= k < i - start implies !whitespace(#[trigger] t[k]) by {
                assert(t[k] == v@[start + k]);
            }
            if i < v.len() {
                assert(t[i - start] == v@[i as int]);
            }
            lemma_first_space_at(t, i - start);
            assert(t.take(i - start) == v@.subrange(start as int, i as int));
            assert(t.skip(i - start) == v@.skip(i as int));
            assert(words_of(rest) == seq![piece@] + words_of(v@.skip(i as int)));
        }
        let ghost before = views(pieces@);
        pieces.push(piece);
        assert(views(pieces@) =~= before.push(piece@));
        assert(before + (seq![piece@] + words_of(v@.skip(i as int))) =~= views(pieces@) + words_of(
            v@.skip(i as int),
        ));
    }
    pieces
}

/// The number that a text writes, at most `u32::MAX`.
fn number(v: &Vec<char>) -> (n: Option<u32>)
    ensures
        n is Some == unsigned_of(v@, u32::MAX as nat) is Some,
        n matches Some(x) ==> x == unsigned_of(v@, u32::MAX as nat)->0,
{
    assert(v@.subrange(0, v@.len() as int) == v@);
    match parse_unsigned(v, 0, v.len(), 0xFFFF_FFFF) {
        Some(x) => Some(x as u32),
        None => None,
    }
}

/// Reads a time written as hour, `:`, minute, white space, day, `/`, month, `/`, year.
pub fn parse_datetime_to_u32(datetime: &str) -> (stamp: Option<u32>)
    ensures
        stamp == datetime_of(datetime@),
{
    parse_datetime(&chars_of(datetime))
}

/// Reads a time from its characters.
fn parse_datetime(v: &Vec<char>) -> (stamp: Option<u32>)
    ensures
        stamp == datetime_of(v@),
{
    let parts = words(v);
    if parts.len() != 2 {
        return None;
    }
    assert(views(parts@)[0] == parts@[0]@ && views(parts@)[1] == parts@[1]@);
    let time = split(&parts[0], ':');
    let date = split(&parts[1], '/');
    if time.len() != 2 || date.len() != 3 {
        return None;
    }
    assert(views(time@)[0] == time@[0]@ && views(time@)[1] == time@[1]@);
    assert(views(date@)[0] == date@[0]@ && views(date@)[1] == date@[1]@ && views(date@)[2] == date@[2]@);
    let hour = number(&time[0]);
    let minute = number(&time[1]);
    let day = number(&date[0]);
    let month = number(&date[1]);
    let year = number(&date[2]);
    match (hour, minute, day, month, year) {
        (Some(h), Some(mi), Some(d), Some(mo), Some(y)) => {
            let total: u64 = (y as u64) * 100000000 + (mo as u64) * 1000000 + (d as u64) * 10000 + (h as u64)
                * 100 + (mi as u64);
            if total <= 0xFFFF_FFFF {
                Some(total as u32)
            } else {
                None
            }
        },
        _ => None,
    }
}

/// What a cache holds, as two plain values.
pub type CacheView = (Option<u32>, Option<usize>);

/// What a line of the cache file sets: the name before the first `:` and the value after
/// it, both trimmed; none for a line without `:`.
pub open spec fn entry_of(line: Seq<char>) -> Option<(Seq<char>, Seq<char>)> {
    let i = index_of(line, ':');
    if i >= line.len() {
        None
    } else {
        Some((trimmed(line.take(i)), trimmed(line.skip(i + 1))))
    }
}

/// The cache after a line was read: `last_scan` sets the time and `scan_count` the count,
/// each only where its value can be read; any other line changes nothing.
pub open spec fn after_line(cache: CacheView, line: Seq<char>) -> CacheView {
    match entry_of(line) {
        None => cache,
        Some((name, value)) => if name == "last_scan"@ {
            match datetime_of(value) {
                Some(stamp) => (Some(stamp), cache.1),
                None => cache,
            }
        } else if name == "scan_count"@ {
            match unsigned_of(value, usize::MAX as nat) {
                Some(count) => (cache.0, Some(count as usize)),
                None => cache,
            }
        } else {
            cache
        },
    }
}

/// The cache after the lines were read in order, starting from nothing.
pub open spec fn after_lines(lines: Seq<Seq<char>>) -> CacheView
    decreases lines.len(),
{
    if lines.len() == 0 {
        (None, None)
    } else {
        after_line(after_lines(lines.drop_last()), lines.last())
    }
}

/// The line that keeps the time of the last scan.
pub open spec fn last_scan_line(stamp: u32) -> Seq<char> {
    "last_scan: "@ + decimal_of(((stamp / 100) % 100) as nat) + ":"@ + decimal_of((stamp % 100) as nat) + " "@
        + decimal_of(((stamp / 10000) % 100) as nat) + "/"@ + decimal_of(((stamp / 1000000) % 100) as nat)
        + "/"@ + decimal_of((stamp / 100000000) as nat) + "\n"@
}

/// The line that keeps the number of files.
pub open spec fn scan_count_line(count: usize) -> Seq<char> {
    "scan_count: "@ + decimal_of(count as nat) + "\n"@
}

/// The text that keeps a cache: a line for the time, then a line for the count, each only
/// where the cache has the value.
pub open spec fn text_of_cache(cache: Cache) -> Seq<char> {
    (match cache.last_scan {
        Some(stamp) => last_scan_line(stamp),
        None => Seq::empty(),
    }) + (match cache.scan_count {
        Some(count) => scan_count_line(count),
        None => Seq::empty(),
    })
}

/// Whether the characters of `v` from `from` up to `to` are the text `word`.
fn is_word(v: &Vec<char>, from: usize, to: usize, word: &str) -> (r: bool)
    requires
        from <= to <= v.len(),
    ensures
        r == (v@.subrange(from as int, to as int) == word@),
{
    let w = chars_of(word);
    if w.len() != to - from {
        return false;
    }
    let mut i: usize = 0;
    while i < w.len()
        invariant
            from <= to <= v.len(),
            w@ == word@,
            w@.len() == to - from,
            i <= w.len(),
            forall|k: int| 0 <= k < i ==> v@[from + k] == w@[k],
        decreases w.len() - i,
    {
        if v[from + i] != w[i] {
            assert(v@.subrange(from as int, to as int)[i as int] == v@[from + i]);
            return false;
        }
        i += 1;
    }
    assert(v@.subrange(from as int, to as int) =~= w@);
    true
}

impl Cache {
    /// The cache that remembers nothing.
    pub fn new() -> (cache: Cache)
        ensures
            cache.last_scan is None,
            cache.scan_count is None,
    {
        Cache { last_scan: None, scan_count: None }
    }

    /// The text that keeps the cache.
    pub fn to_text(&self) -> (text: String)
        ensures
            text@ == text_of_cache(*self),
    {
        let mut text = String::new();
        match self.last_scan {
            Some(stamp) => {
                text.append("last_scan: ");
                push_decimal(&mut text, ((stamp / 100) % 100) as u64);
                text.append(":");
                push_decimal(&mut text, (stamp % 100) as u64);
                text.append(" ");
                push_decimal(&mut text, ((stamp / 10000) % 100) as u64);
                text.append("/");
                push_decimal(&mut text, ((stamp / 1000000) % 100) as u64);
                text.append("/");
                push_decimal(&mut text, (stamp / 100000000) as u64);
                text.append("\n");
                assert(text@ =~= last_scan_line(stamp));
            },
            None => {},
        }
        let ghost first = text@;
        match self.scan_count {
            Some(count) => {
                text.append("scan_count: ");
                push_decimal(&mut text, count as u64);
                text.append("\n");
                assert(text@ =~= first + scan_count_line(count));
            },
            None => {},
        }
        assert(text@ =~= text_of_cache(*self));
        text
    }

    /// Reads a cache from the text that keeps it, line by line. A line that cannot be read
    /// is passed over, and of two lines for one value the later one counts.
    pub fn from_text(content: &str) -> (cache: Cache)
        ensures
            (cache.last_scan, cache.scan_count) == after_lines(split_at_each(content@, '\n')),
    {
        let lines = split(&chars_of(content), '\n');
        let mut cache = Cache::new();
        let mut i: usize = 0;
        assert(views(lines@).take(0) =~= Seq::<Seq<char>>::empty());
        while i < lines.len()
            invariant
                i <= lines.len(),
                (cache.last_scan, cache.scan_count) == after_lines(views(lines@).take(i as int)),
            decreases lines.len() - i,
        {
            let line = &lines[i];
            proof {
                let next = views(lines@).take(i + 1);
                assert(next.drop_last() == views(lines@).take(i as int));
                assert(next.last() == line@);
            }
            let mut colon: usize = 0;
            while colon < line.len() && line[colon] != ':'
                invariant
                    colon <= line.len(),
                    forall|k: int| 0 <= k < colon ==> #[trigger] line@[k] != ':',
                decreases line.len() - colon,
            {
                colon += 1;
            }
            proof {
                lemma_index_of_at(line@, ':', colon as int);
            }
            if colon < line.len() {
                let name = slice_of(line, 0, colon);
                let value = slice_of(line, colon + 1, line.len());
                assert(name@ == line@.take(colon as int));
                assert(value@ == line@.skip(colon + 1));
                let (name_from, name_to) = trim_bounds(&name);
                let (value_from, value_to) = trim_bounds(&value);
                let word = slice_of(&value, value_from, value_to);
                if is_word(&name, name_from, name_to, "last_scan") {
                    match parse_datetime(&word) {
                        Some(stamp) => {
                            cache.last_scan = Some(stamp);
                        },
                        None => {},
                    }
                } else if is_word(&name, name_from, name_to, "scan_count") {
                    assert(word@.subrange(0, word@.len() as int) == word@);
                    match parse_unsigned(&word, 0, word.len(), usize::MAX as u64) {
                        Some(count) => {
                            cache.scan_count = Some(count as usize);
                        },
                        None => {},
                    }
                }
            }
            i += 1;
        }
        assert(views(lines@).take(lines@.len() as int) == views(lines@));
        cache
    }
}

} // verus!
