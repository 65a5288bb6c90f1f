//! Text keys: the normal form under which titles, artists and albums are compared.

use vstd::prelude::*;

verus! {

/// The lowercase form of a text, as `str::to_lowercase` takes it from the Unicode tables.
pub uninterp spec fn lowercase_of(s: Seq<char>) -> Seq<char>;

/// Whether a character is a letter or a digit, as `char::is_alphanumeric` takes it from
/// the Unicode tables.
pub uninterp spec fn alphanumeric(c: char) -> bool;

/// Whether a character is white space: one of the code points that have the Unicode
/// property White_Space.
pub open spec fn whitespace(c: char) -> bool {
    let n = c as u32;
    (0x09 <= n <= 0x0D) || n == 0x20 || n == 0x85 || n == 0xA0 || n == 0x1680 || (0x2000 <= n <= 0x200A)
        || n == 0x2028 || n == 0x2029 || n == 0x202F || n == 0x205F || n == 0x3000
}

/// Assumed of `str::to_lowercase`, not proved: the result depends on the text alone, and
/// is what `lowercase_of` names. Nothing is said of what that form is.
pub assume_specification[ str::to_lowercase ](s: &str) -> (r: String)
    ensures
        r@ == lowercase_of(s@),
;

/// Assumed of `char::is_alphanumeric`, not proved: the result depends on the character
/// alone, and is what `alphanumeric` names.
pub assume_specification[ char::is_alphanumeric ](c: char) -> (r: bool)
    ensures
        r == alphanumeric(c),
;

/// Assumed of `char::is_whitespace`, not proved: it holds of the code points that have
/// the Unicode property White_Space, which `whitespace` lists, and of no other.
pub assume_specification[ char::is_whitespace ](c: char) -> (r: bool)
    ensures
        r == whitespace(c),
;

/// Assumed of `String::push`, not proved: the character is appended at the end of the
/// text, and what was there stays.
pub assume_specification[ String::push ](s: &mut String, c: char)
    ensures
        final(s)@ == old(s)@.push(c),
;

/// A character that a key keeps: a letter, a digit or white space.
pub open spec fn kept(c: char) -> bool {
    alphanumeric(c) || whitespace(c)
}

/// The kept characters of a text, in order.
pub open spec fn keep_only(s: Seq<char>) -> Seq<char> {
    s.filter(|c: char| kept(c))
}

/// The text without its leading white space.
pub open spec fn skip_leading(s: Seq<char>) -> Seq<char>
    decreases s.len(),
{
    if s.len() > 0 && whitespace(s[0]) {
        skip_leading(s.drop_first())
    } else {
        s
    }
}

/// The text without its trailing white space.
pub open spec fn skip_trailing(s: Seq<char>) -> Seq<char>
    decreases s.len(),
{
    if s.len() > 0 && whitespace(s.last()) {
        skip_trailing(s.drop_last())
    } else {
        s
    }
}

/// The text without the white space around it.
pub open spec fn trimmed(s: Seq<char>) -> Seq<char> {
    skip_trailing(skip_leading(s))
}

/// The text with each run of white space made one blank.
pub open spec fn collapsed(s: Seq<char>) -> Seq<char>
    decreases s.len(),
{
    if s.len() == 0 {
        s
    } else if !whitespace(s.last()) {
        collapsed(s.drop_last()).push(s.last())
    } else if s.len() >= 2 && whitespace(s[s.len() - 2]) {
        collapsed(s.drop_last())
    } else {
        collapsed(s.drop_last()).push(' ')
    }
}

/// The letters of a text: lowercased, letters, digits and white space only.
pub open spec fn letters_of(s: Seq<char>) -> Seq<char> {
    keep_only(lowercase_of(s))
}

/// The key of a text: lowercased, letters, digits and white space only, each run of white
/// space made one blank, and no white space at either end.
pub open spec fn normal_form(s: Seq<char>) -> Seq<char> {
    trimmed(collapsed(letters_of(s)))
}

/// Whether every white space of a text is a blank that follows no white space.
pub open spec fn is_single_spaced(s: Seq<char>) -> bool {
    forall|i: int|
        0 <= i < s.len() && whitespace(#[trigger] s[i]) ==> s[i] == ' ' && (i == 0 || !whitespace(s[i - 1]))
}

/// The characters of a text, in order.
pub fn chars_of(s: &str) -> (v: Vec<char>)
    ensures
        v@ == s@,
{
    let mut v: Vec<char> = Vec::new();
    for c in it: s.chars()
        invariant
            v@ == it.seq().take(it.index() as int),
            it.seq() == s@,
    {
        v.push(c);
    }
    v
}

/// The text made of the characters of `v` from `from` up to `to`.
pub(crate) fn text_of(v: &Vec<char>, from: usize, to: usize) -> (s: String)
    requires
        from <= to <= v.len(),
    ensures
        s@ == v@.subrange(from as int, to as int),
{
    let mut s = String::new();
    let mut i: usize = from;
    while i < to
        invariant
            from <= i <= to <= v.len(),
            s@ == v@.subrange(from as int, i as int),
        decreases to - i,
    {
        s.push(v[i]);
        i += 1;
        assert(v@.subrange(from as int, i as int) == v@.subrange(from as int, i - 1).push(
            v@[i - 1],
        ));
    }
    s
}

/// Leading white space is skipped up to the first other character.
pub proof fn lemma_skip_leading_at(s: Seq<char>, n: int)
    requires
        0 <= n <= s.len(),
        forall|i: int| 0 <= i < n ==> whitespace(#[trigger] s[i]),
        n == s.len() || !whitespace(s[n]),
    ensures
        skip_leading(s) == s.subrange(n, s.len() as int),
    decreases n,
{
    if n == 0 {
        assert(s.subrange(0, s.len() as int) == s);
    } else {
        let t = s.drop_first();
        assert forall|i: int| 0 <= i < n - 1 implies whitespace(#[trigger] t[i]) by {
            assert(t[i] == s[i + 1]);
        }
        lemma_skip_leading_at(t, n - 1);
        assert(t.subrange(n - 1, t.len() as int) == s.subrange(n, s.len() as int));
    }
}

/// Trailing white space is skipped down to the last other character.
pub proof fn lemma_skip_trailing_at(s: Seq<char>, n: int)
    requires
        0 <= n <= s.len(),
        forall|i: int| n <= i < s.len() ==> whitespace(#[trigger] s[i]),
        n == 0 || !whitespace(s[n - 1]),
    ensures
        skip_trailing(s) == s.subrange(0, n),
    decreases s.len() - n,
{
    if n == s.len() {
        assert(s.subrange(0, n) == s);
    } else {
        let t = s.drop_last();
        lemma_skip_trailing_at(t, n);
        assert(t.subrange(0, n) == s.subrange(0, n));
    }
}

/// What `skip_leading` leaves is the end of the text, and begins with no white space.
pub proof fn lemma_skip_leading_shape(s: Seq<char>) -> (n: int)
    ensures
        0 <= n <= s.len(),
        skip_leading(s) == s.subrange(n, s.len() as int),
        n == s.len() || !whitespace(s[n]),
    decreases s.len(),
{
    if s.len() > 0 && whitespace(s[0]) {
        let t = s.drop_first();
        let m = lemma_skip_leading_shape(t);
        assert(t.subrange(m, t.len() as int) == s.subrange(m + 1, s.len() as int));
        m + 1
    } else {
        assert(s.subrange(0, s.len() as int) == s);
        0
    }
}

/// What `skip_trailing` leaves is the start of the text, and ends with no white space.
pub proof fn lemma_skip_trailing_shape(s: Seq<char>) -> (n: int)
    ensures
        0 <= n <= s.len(),
        skip_trailing(s) == s.subrange(0, n),
        n == 0 || !whitespace(s[n - 1]),
    decreases s.len(),
{
    if s.len() > 0 && whitespace(s.last()) {
        let t = s.drop_last();
        let m = lemma_skip_trailing_shape(t);
        assert(t.subrange(0, m) == s.subrange(0, m));
        m
    } else {
        assert(s.subrange(0, s.len() as int) == s);
        s.len() as int
    }
}

/// A text of kept characters only is what `keep_only` makes of it.
pub proof fn lemma_keep_only_kept(s: Seq<char>)
    requires
        forall|i: int| 0 <= i < s.len() ==> kept(#[trigger] s[i]),
    ensures
        keep_only(s) == s,
    decreases s.len(),
{
    reveal(Seq::filter);
    if s.len() > 0 {
        lemma_keep_only_kept(s.drop_last());
        assert(s.drop_last().push(s.last()) == s);
    }
}

/// A trimmed text is empty or has no white space at either end, and trimming it again
/// changes nothing.
pub proof fn lemma_trimmed_twice(s: Seq<char>)
    ensures
        trimmed(s).len() == 0 || (!whitespace(trimmed(s)[0]) && !whitespace(trimmed(s).last())),
        trimmed(trimmed(s)) == trimmed(s),
        forall|i: int| 0 <= i < trimmed(s).len() ==> s.contains(#[trigger] trimmed(s)[i]),
{
    let a = lemma_skip_leading_shape(s);
    let tail = skip_leading(s);
    let b = lemma_skip_trailing_shape(tail);
    let t = trimmed(s);
    assert(t == s.subrange(a, a + b));
    assert forall|i: int| 0 <= i < t.len() implies s.contains(#[trigger] t[i]) by {
        assert(t[i] == s[a + i]);
    }
    if t.len() > 0 {
        assert(t[0] == tail[0]);
        assert(!whitespace(tail[0]));
        assert(t.last() == tail[b - 1]);
    }
    lemma_skip_leading_at(t, 0);
    assert(t.subrange(0, t.len() as int) == t);
    lemma_skip_trailing_at(t, t.len() as int);
}

/// What `trimmed` leaves is a part of the text.
pub proof fn lemma_trimmed_range(s: Seq<char>) -> (r: (int, int))
    ensures
        0 <= r.0 <= r.1 <= s.len(),
        trimmed(s) == s.subrange(r.0, r.1),
{
    let a = lemma_skip_leading_shape(s);
    let b = lemma_skip_trailing_shape(skip_leading(s));
    assert(trimmed(s) == s.subrange(a, a + b));
    (a, a + b)
}

/// Collapsing keeps kept characters kept, leaves every white space a blank that follows
/// no white space, and ends in white space exactly where the text does.
pub proof fn lemma_collapsed_shape(s: Seq<char>)
    ensures
        is_single_spaced(collapsed(s)),
        (forall|i: int| 0 <= i < s.len() ==> kept(#[trigger] s[i])) ==> (forall|i: int|
            0 <= i < collapsed(s).len() ==> kept(#[trigger] collapsed(s)[i])),
        s.len() > 0 ==> collapsed(s).len() > 0 && whitespace(collapsed(s).last()) == whitespace(s.last()),
        s.len() == 0 ==> collapsed(s).len() == 0,
    decreases s.len(),
{
    if s.len() > 0 {
        let rest = s.drop_last();
        lemma_collapsed_shape(rest);
        let c = collapsed(rest);
        assert(whitespace(' '));
        if rest.len() > 0 {
            assert(rest.last() == s[s.len() - 2]);
        }
        if (forall|i: int| 0 <= i < s.len() ==> kept(#[trigger] s[i])) {
            assert forall|i: int| 0 <= i < rest.len() implies kept(#[trigger] rest[i]) by {
                assert(rest[i] == s[i]);
            }
        }
    }
}

/// Collapsing changes nothing in a text whose every white space is a blank that follows
/// no white space.
pub proof fn lemma_collapsed_single_spaced(s: Seq<char>)
    requires
        is_single_spaced(s),
    ensures
        collapsed(s) == s,
    decreases s.len(),
{
    if s.len() > 0 {
        let rest = s.drop_last();
        assert forall|i: int| 0 <= i < rest.len() && whitespace(#[trigger] rest[i]) implies rest[i] == ' ' && (i
            == 0 || !whitespace(rest[i - 1])) by {
            assert(rest[i] == s[i]);
            if i > 0 {
                assert(rest[i - 1] == s[i - 1]);
            }
        }
        lemma_collapsed_single_spaced(rest);
        assert(rest.push(s.last()) == s);
        if whitespace(s.last()) {
            assert(s[s.len() - 1] == ' ');
        }
    }
}

/// A key holds letters, digits and blanks only, no two blanks in a row, and neither
/// begins nor ends with a blank.
pub proof fn lemma_normal_form_is_clean(s: Seq<char>)
    ensures
        forall|i: int| 0 <= i < normal_form(s).len() ==> kept(#[trigger] normal_form(s)[i]),
        is_single_spaced(normal_form(s)),
        normal_form(s).len() == 0 || (!whitespace(normal_form(s)[0]) && !whitespace(normal_form(s).last())),
{
    let letters = letters_of(s);
    let squeezed = collapsed(letters);
    let key = normal_form(s);
    assert forall|i: int| 0 <= i < letters.len() implies kept(#[trigger] letters[i]) by {
        lowercase_of(s).lemma_filter_pred(|c: char| kept(c), i);
    }
    lemma_collapsed_shape(letters);
    lemma_trimmed_twice(squeezed);
    let (a, b) = lemma_trimmed_range(squeezed);
    assert forall|i: int| 0 <= i < key.len() implies kept(#[trigger] key[i]) by {
        assert(key[i] == squeezed[a + i]);
    }
    assert forall|i: int| 0 <= i < key.len() && whitespace(#[trigger] key[i]) implies key[i] == ' ' && (i == 0
        || !whitespace(key[i - 1])) by {
        assert(key[i] == squeezed[a + i]);
        if i > 0 {
            assert(key[i - 1] == squeezed[a + i - 1]);
        }
    }
}

/// Normalizing a key again returns the key, provided that lowercasing leaves the key as it
/// is.
pub proof fn lemma_normal_form_of_lowered_key(s: Seq<char>)
    requires
        lowercase_of(normal_form(s)) == normal_form(s),
    ensures
        normal_form(normal_form(s)) == normal_form(s),
{
    let key = normal_form(s);
    lemma_normal_form_is_clean(s);
    lemma_keep_only_kept(key);
    lemma_collapsed_single_spaced(key);
    lemma_trimmed_twice(collapsed(letters_of(s)));
}

/// Texts that have the same letters have one key: the key depends on neither case nor
/// punctuation.
pub proof fn lemma_normal_form_ignores_case_and_punctuation(a: Seq<char>, b: Seq<char>)
    requires
        letters_of(a) == letters_of(b),
    ensures
        normal_form(a) == normal_form(b),
{
}

/// Whether `needle` stands in `hay` at position `at`.
pub open spec fn occurs_at(hay: Seq<char>, needle: Seq<char>, at: int) -> bool {
    0 <= at && at + needle.len() <= hay.len() && hay.subrange(at, at + needle.len()) == needle
}

/// Whether `needle` stands somewhere in `hay`.
pub open spec fn has_substring(hay: Seq<char>, needle: Seq<char>) -> bool {
    exists|at: int| occurs_at(hay, needle, at)
}

/// Whether `needle` stands in `hay` at position `at`.
pub(crate) fn matches_at(hay: &Vec<char>, needle: &Vec<char>, at: usize) -> (r: bool)
    requires
        at + needle.len() <= hay.len(),
    ensures
        r == occurs_at(hay@, needle@, at as int),
{
    let mut k: usize = 0;
    while k < needle.len()
        invariant
            k <= needle.len(),
            at + needle.len() <= hay.len(),
            forall|j: int| 0 <= j < k ==> hay@[at + j] == needle@[j],
        decreases needle.len() - k,
    {
        if hay[at + k] != needle[k] {
            proof {
                let part = hay@.subrange(at as int, at + needle.len());
                assert(part[k as int] == hay@[at + k]);
            }
            return false;
        }
        k += 1;
    }
    assert(hay@.subrange(at as int, at + needle.len()) =~= needle@);
    true
}

/// Whether `needle` stands somewhere in `hay`.
pub fn contains(hay: &Vec<char>, needle: &Vec<char>) -> (r: bool)
    ensures
        r == has_substring(hay@, needle@),
{
    if needle.len() > hay.len() {
        return false;
    }
    let last: usize = hay.len() - needle.len();
    let mut at: usize = 0;
    while at < last
        invariant
            last == hay.len() - needle.len(),
            needle.len() <= hay.len(),
            at <= last,
            forall|j: int| 0 <= j < at ==> !occurs_at(hay@, needle@, j),
        decreases last - at,
    {
        if matches_at(hay, needle, at) {
            return true;
        }
        at += 1;
    }
    matches_at(hay, needle, last)
}

/// Whether `a` comes strictly before `b` in the order of their characters, a proper prefix
/// before the longer text.
pub open spec fn lex_before(a: Seq<char>, b: Seq<char>) -> bool
    decreases a.len(),
{
    if b.len() == 0 {
        false
    } else if a.len() == 0 {
        true
    } else if a[0] != b[0] {
        a[0] < b[0]
    } else {
        lex_before(a.drop_first(), b.drop_first())
    }
}

/// No text comes before itself.
pub proof fn lemma_lex_irreflexive(a: Seq<char>)
    ensures
        !lex_before(a, a),
    decreases a.len(),
{
    if a.len() > 0 {
        lemma_lex_irreflexive(a.drop_first());
    }
}

/// Of two texts that differ, one comes before the other, and never both.
pub proof fn lemma_lex_total(a: Seq<char>, b: Seq<char>)
    ensures
        a != b ==> (lex_before(a, b) || lex_before(b, a)),
        !(lex_before(a, b) && lex_before(b, a)),
    decreases a.len(),
{
    if a.len() == 0 || b.len() == 0 {
        if a.len() == 0 && b.len() == 0 {
            assert(a =~= b);
        }
    } else if a[0] == b[0] {
        let ta = a.drop_first();
        let tb = b.drop_first();
        lemma_lex_total(ta, tb);
        if ta == tb {
            assert forall|i: int| 0 <= i < a.len() implies a[i] == b[i] by {
                if i > 0 {
                    assert(a[i] == ta[i - 1]);
                    assert(b[i] == tb[i - 1]);
                }
            }
            assert(a.len() == ta.len() + 1);
            assert(b.len() == tb.len() + 1);
            assert(a =~= b);
        }
    }
}

/// The order of texts is transitive.
pub proof fn lemma_lex_transitive(a: Seq<char>, b: Seq<char>, c: Seq<char>)
    requires
        lex_before(a, b),
        lex_before(b, c),
    ensures
        lex_before(a, c),
    decreases a.len(),
{
    if a.len() > 0 && b.len() > 0 && c.len() > 0 {
        if a[0] == b[0] && b[0] == c[0] {
            lemma_lex_transitive(a.drop_first(), b.drop_first(), c.drop_first());
        }
    }
}

/// Whether `a` comes strictly before `b`.
pub fn comes_before(a: &Vec<char>, b: &Vec<char>) -> (r: bool)
    ensures
        r == lex_before(a@, b@),
{
    let mut i: usize = 0;
    assert(a@.skip(0) =~= a@ && b@.skip(0) =~= b@);
    while i < a.len() && i < b.len()
        invariant
            i <= a.len(),
            i <= b.len(),
            lex_before(a@, b@) == lex_before(a@.skip(i as int), b@.skip(i as int)),
        decreases a.len() - i,
    {
        let x: char = a[i];
        let y: char = b[i];
        proof {
            let ra = a@.skip(i as int);
            let rb = b@.skip(i as int);
            assert(ra[0] == x && rb[0] == y);
            assert(ra.drop_first() =~= a@.skip(i + 1));
            assert(rb.drop_first() =~= b@.skip(i + 1));
        }
        if x != y {
            return x < y;
        }
        i += 1;
    }
    proof {
        let ra = a@.skip(i as int);
        let rb = b@.skip(i as int);
        assert(ra.len() == a.len() - i);
        assert(rb.len() == b.len() - i);
    }
    i < b.len()
}

/// Where the text without the white space around it begins and ends.
pub fn trim_bounds(v: &Vec<char>) -> (r: (usize, usize))
    ensures
        r.0 <= r.1 <= v.len(),
        v@.subrange(r.0 as int, r.1 as int) == trimmed(v@),
{
    let mut start: usize = 0;
    while start < v.len() && v[start].is_whitespace()
        invariant
            start <= v.len(),
            forall|i: int| 0 <= i < start ==> whitespace(#[trigger] v@[i]),
        decreases v.len() - start,
    {
        start += 1;
    }
    let mut end: usize = v.len();
    while end > start && v[end - 1].is_whitespace()
        invariant
            start <= end <= v.len(),
            forall|i: int| end <= i < v.len() ==> whitespace(#[trigger] v@[i]),
        decreases end,
    {
        end -= 1;
    }
    proof {
        let all = v@;
        let tail = all.subrange(start as int, all.len() as int);
        lemma_skip_leading_at(all, start as int);
        lemma_skip_trailing_at(tail, end - start);
        assert(tail.subrange(0, end - start) == all.subrange(start as int, end as int));
    }
    (start, end)
}

/// The characters of `v` from `from` up to `to`.
pub(crate) fn slice_of(v: &Vec<char>, from: usize, to: usize) -> (part: Vec<char>)
    requires
        from <= to <= v.len(),
    ensures
        part@ == v@.subrange(from as int, to as int),
{
    let mut part: Vec<char> = Vec::new();
    let mut i: usize = from;
    while i < to
        invariant
            from <= i <= to <= v.len(),
            part@ == v@.subrange(from as int, i as int),
        decreases to - i,
    {
        part.push(v[i]);
        i += 1;
        assert(v@.subrange(from as int, i as int) == v@.subrange(from as int, i - 1).push(
            v@[i - 1],
        ));
    }
    part
}

/// Whether a character is one of the ten digits.
pub open spec fn is_digit(c: char) -> bool {
    '0' <= c <= '9'
}

/// The number that a text of digits writes in base ten.
pub open spec fn digits_value(s: Seq<char>) -> nat
    decreases s.len(),
{
    if s.len() == 0 {
        0
    } else {
        (digits_value(s.drop_last()) * 10 + (s.last() as u32 - '0' as u32)) as nat
    }
}

/// Whether a text is made of digits only.
pub open spec fn all_digits(s: Seq<char>) -> bool {
    forall|i: int| 0 <= i < s.len() ==> is_digit(#[trigger] s[i])
}

/// A text without the plus sign that may stand before a number.
pub open spec fn unsigned_body(s: Seq<char>) -> Seq<char> {
    if s.len() > 0 && s[0] == '+' {
        s.drop_first()
    } else {
        s
    }
}

/// The number that a text writes, if it is one or more digits, with or without a plus sign
/// before them, and the number is at most `max`.
pub open spec fn unsigned_of(s: Seq<char>, max: nat) -> Option<nat> {
    let body = unsigned_body(s);
    if body.len() > 0 && all_digits(body) && digits_value(body) <= max {
        Some(digits_value(body))
    } else {
        None
    }
}

/// The digits read so far never write more than all of them.
pub proof fn lemma_digits_value_grows(s: Seq<char>, k: int)
    requires
        0 <= k <= s.len(),
        all_digits(s),
    ensures
        digits_value(s.take(k)) <= digits_value(s),
    decreases s.len() - k,
{
    if k == s.len() {
        assert(s.take(k) == s);
    } else {
        lemma_digits_value_grows(s, k + 1);
        let next = s.take(k + 1);
        assert(next.drop_last() == s.take(k));
        assert(is_digit(s[k]));
        assert(next.last() == s[k]);
    }
}

/// Reads the number that the characters of `v` from `from` up to `to` write.
pub fn parse_unsigned(v: &Vec<char>, from: usize, to: usize, max: u64) -> (r: Option<u64>)
    requires
        from <= to <= v.len(),
    ensures
        r is Some == unsigned_of(v@.subrange(from as int, to as int), max as nat) is Some,
        r is Some ==> r->0 == unsigned_of(v@.subrange(from as int, to as int), max as nat)->0,
{
    let ghost text = v@.subrange(from as int, to as int);
    let mut i: usize = from;
    if i < to && v[i] == '+' {
        i += 1;
    }
    let first: usize = i;
    let ghost body = unsigned_body(text);
    assert(body == v@.subrange(first as int, to as int));
    if first == to {
        return None;
    }
    let mut acc: u64 = 0;
    while i < to
        invariant
            from <= first <= i <= to <= v.len(),
            body == v@.subrange(first as int, to as int),
            body == unsigned_body(v@.subrange(from as int, to as int)),
            body.len() > 0,
            all_digits(body.take(i - first)),
            acc == digits_value(body.take(i - first)),
            acc <= max,
        decreases to - i,
    {
        let c: char = v[i];
        proof {
            let next = body.take(i - first + 1);
            assert(next.drop_last() == body.take(i - first));
            assert(next.last() == c);
            assert(body[i - first] == c);
        }
        if c < '0' || c > '9' {
            assert(!is_digit(body[i - first]));
            assert(!all_digits(body));
            return None;
        }
        let d: u64 = (c as u32 - '0' as u32) as u64;
        assert(digits_value(body.take(i - first + 1)) == acc * 10 + d);
        if d > max || acc > (max - d) / 10 {
            proof {
                if all_digits(body) {
                    lemma_digits_value_grows(body, i - first + 1);
                }
            }
            return None;
        }
        acc = acc * 10 + d;
        i += 1;
    }
    assert(body.take(to - first) == body);
    Some(acc)
}

/// The digits that write a number in base ten.
pub open spec fn decimal_of(n: nat) -> Seq<char>
    decreases n,
{
    if n < 10 {
        seq![(0x30 + n) as u8 as char]
    } else {
        decimal_of(n / 10).push((0x30 + n % 10) as u8 as char)
    }
}

/// Appends the digits of a number.
pub fn push_decimal(s: &mut String, n: u64)
    ensures
        final(s)@ == old(s)@ + decimal_of(n as nat),
    decreases n,
{
    if n >= 10 {
        push_decimal(s, n / 10);
    }
    let ghost before = s@;
    let digit: u8 = 0x30 + (n % 10) as u8;
    s.push(digit as char);
    assert(s@ =~= old(s)@ + decimal_of(n as nat));
}

/// Where `sep` first stands in a text; the length of the text where it stands nowhere.
pub open spec fn index_of(s: Seq<char>, sep: char) -> int
    decreases s.len(),
{
    if s.len() == 0 || s[0] == sep {
        0
    } else {
        1 + index_of(s.drop_first(), sep)
    }
}

/// The pieces of a text between the occurrences of `sep`.
pub open spec fn split_at_each(s: Seq<char>, sep: char) -> Seq<Seq<char>>
    decreases s.len(),
    via split_decreases
{
    let i = index_of(s, sep);
    if i >= s.len() {
        seq![s]
    } else {
        seq![s.take(i)] + split_at_each(s.skip(i + 1), sep)
    }
}

#[via_fn]
proof fn split_decreases(s: Seq<char>, sep: char) {
    lemma_index_of_range(s, sep);
}

/// `index_of` lies within the text or at its end.
pub proof fn lemma_index_of_range(s: Seq<char>, sep: char)
    ensures
        0 <= index_of(s, sep) <= s.len(),
    decreases s.len(),
{
    if s.len() > 0 && s[0] != sep {
        lemma_index_of_range(s.drop_first(), sep);
    }
}

/// `index_of` is the position up to which no `sep` stands and at which one does.
pub proof fn lemma_index_of_at(s: Seq<char>, sep: char, n: int)
    requires
        0 <= n <= s.len(),
        forall|i: int| 0 <= i < n ==> #[trigger] s[i] != sep,
        n == s.len() || s[n] == sep,
    ensures
        index_of(s, sep) == n,
    decreases n,
{
    if n > 0 {
        let t = s.drop_first();
        assert forall|i: int| 0 <= i < n - 1 implies #[trigger] t[i] != sep by {
            assert(t[i] == s[i + 1]);
        }
        lemma_index_of_at(t, sep, n - 1);
    }
}

/// The texts that a list of character vectors holds.
pub open spec fn views(pieces: Seq<Vec<char>>) -> Seq<Seq<char>> {
    pieces.map_values(|p: Vec<char>| p@)
}

/// The pieces of a text between the occurrences of `sep`.
pub fn split(v: &Vec<char>, sep: char) -> (pieces: Vec<Vec<char>>)
    ensures
        views(pieces@) == split_at_each(v@, sep),
{
    let mut pieces: Vec<Vec<char>> = Vec::new();
    let mut start: usize = 0;
    let mut i: usize = 0;
    assert(v@.skip(0) == v@);
    assert(views(pieces@) =~= Seq::<Seq<char>>::empty());
    while i < v.len()
        invariant
            start <= i <= v.len(),
            forall|j: int| start <= j < i ==> #[trigger] v@[j] != sep,
            split_at_each(v@, sep) == views(pieces@) + split_at_each(v@.skip(start as int), sep),
        decreases v.len() - i,
    {
        if v[i] == sep {
            let piece = slice_of(v, start, i);
            proof {
                let rest = v@.skip(start as int);
                assert forall|j: int| 0 <= j < i - start implies #[trigger] rest[j] != sep by {
                    assert(rest[j] == v@[start + j]);
                }
                lemma_index_of_at(rest, sep, i - start);
                assert(rest.take(i - start) == v@.subrange(start as int, i as int));
                assert(rest.skip(i - start + 1) == v@.skip(i + 1));
            }
            let ghost before = views(pieces@);
            pieces.push(piece);
            assert(views(pieces@) =~= before.push(piece@));
            start = i + 1;
        }
        i += 1;
    }
    let piece = slice_of(v, start, v.len());
    proof {
        let rest = v@.skip(start as int);
        assert forall|j: int| 0 <= j < rest.len() implies #[trigger] rest[j] != sep by {
            assert(rest[j] == v@[start + j]);
        }
        lemma_index_of_at(rest, sep, rest.len() as int);
        assert(rest == v@.subrange(start as int, v@.len() as int));
    }
    let ghost before = views(pieces@);
    pieces.push(piece);
    assert(views(pieces@) =~= before.push(piece@));
    pieces
}

/// The letters of a text.
pub fn letters(text: &str) -> (kept: Vec<char>)
    ensures
        kept@ == letters_of(text@),
{
    let lower = text.to_lowercase();
    let mut kept: Vec<char> = Vec::new();
    for c in it: lower.as_str().chars()
        invariant
            it.seq() == lower@,
            kept@ == keep_only(it.seq().take(it.index() as int)),
    {
        proof {
            let done = it.seq().take(it.index() as int);
            let next = it.seq().take(it.index() + 1);
            assert(next.drop_last() == done);
            assert(next.last() == c);
            reveal(Seq::filter);
        }
        if c.is_alphanumeric() || c.is_whitespace() {
            kept.push(c);
        }
    }
    assert(lower@.take(lower@.len() as int) == lower@);
    kept
}

/// The text with each run of white space made one blank.
pub fn collapse(v: &Vec<char>) -> (squeezed: Vec<char>)
    ensures
        squeezed@ == collapsed(v@),
{
    let mut squeezed: Vec<char> = Vec::new();
    let mut i: usize = 0;
    assert(v@.take(0) =~= Seq::<char>::empty());
    while i < v.len()
        invariant
            i <= v.len(),
            squeezed@ == collapsed(v@.take(i as int)),
        decreases v.len() - i,
    {
        let c: char = v[i];
        proof {
            let next = v@.take(i + 1);
            assert(next.drop_last() == v@.take(i as int));
            assert(next.last() == c);
            if i > 0 {
                assert(next[next.len() - 2] == v@[i - 1]);
            }
        }
        if !c.is_whitespace() {
            squeezed.push(c);
        } else if i == 0 || !v[i - 1].is_whitespace() {
            squeezed.push(' ');
        }
        i += 1;
    }
    assert(v@.take(v@.len() as int) == v@);
    squeezed
}

/// The key of a text.
pub fn normalize(text: &str) -> (key: String)
    ensures
        key@ == normal_form(text@),
{
    let squeezed = collapse(&letters(text));
    let (start, end) = trim_bounds(&squeezed);
    text_of(&squeezed, start, end)
}

/// Whether two lists hold the same characters.
fn same_chars(a: &Vec<char>, b: &Vec<char>) -> (same: bool)
    ensures
        same == (a@ == b@),
{
    if a.len() != b.len() {
        return false;
    }
    let mut i: usize = 0;
    while i < a.len()
        invariant
            a.len() == b.len(),
            i <= a.len(),
            forall|k: int| 0 <= k < i ==> a@[k] == b@[k],
        decreases a.len() - i,
    {
        if a[i] != b[i] {
            return false;
        }
        i += 1;
    }
    assert(a@ =~= b@);
    true
}

/// The key of a text where normalizing the key again returns it, and none where it does
/// not: that is where lowercasing changes the key.
pub fn settled_key(text: &str) -> (key: Option<String>)
    ensures
        key is Some == (lowercase_of(normal_form(text@)) == normal_form(text@)),
        key matches Some(k) ==> k@ == normal_form(text@) && normal_form(k@) == k@,
{
    let key = normalize(text);
    let lowered = key.as_str().to_lowercase();
    if lowered == key {
        proof {
            lemma_normal_form_of_lowered_key(text@);
        }
        Some(key)
    } else {
        None
    }
}

/// Whether two texts have the same letters, whatever their case and punctuation. Where
/// they have, they have one key.
pub fn have_same_letters(a: &str, b: &str) -> (same: bool)
    ensures
        same == (letters_of(a@) == letters_of(b@)),
        same ==> normal_form(a@) == normal_form(b@),
{
    let same = same_chars(&letters(a), &letters(b));
    proof {
        if same {
            lemma_normal_form_ignores_case_and_punctuation(a@, b@);
        }
    }
    same
}

} // verus!
