//! Duplicate recordings: candidate groups of records under one title and artist, and the
//! clusters of each group that are taken for one recording.

use crate::cluster::{
    at, clusters_of, first_fit, holds, is_clustering, is_ordered, is_symmetric_transitive,
    lemma_clusters_are_classes, link_of, slot, together, Linkage,
};
use crate::dedup::size_gap;
use crate::hierarchy::{album_key, artist_key, lemma_songs_of_push, songs_of};
use crate::metadata::{has_code, text_key, SongMetadata, SongRecord};
use crate::text::{
    chars_of, comes_before, contains, has_substring, lemma_lex_irreflexive, lemma_lex_total,
    lemma_lex_transitive, lex_before, lowercase_of,
};
use vstd::prelude::*;

verus! {

/// The signal that decides where a recording code is missing.
#[derive(Debug, Clone, Copy, PartialEq, Eq, Structural)]
pub enum Signal {
    /// The file sizes are close.
    Size,
    /// The durations are close.
    Duration,
    /// Both are close.
    Both,
    /// One of them is close.
    Either,
}

/// How two records without recording codes are compared.
#[derive(Debug, Clone, Copy, PartialEq, Eq, Structural)]
pub struct IdentityPolicy {
    pub signal: Signal,
    /// Sizes are close where their gap is under this many hundredths of the larger.
    pub size_percent: u64,
    /// Durations are close where they differ by less than this many seconds.
    pub duration_tolerance: u32,
}

/// Sizes within five hundredths.
pub const DEFAULT_SIZE_PERCENT: u64 = 5;

/// Durations within three seconds.
pub const DEFAULT_DURATION_TOLERANCE: u32 = 3;

/// The larger of two sizes.
pub open spec fn larger(a: u64, b: u64) -> u64 {
    if a >= b {
        a
    } else {
        b
    }
}

/// Whether two sizes are known and close.
pub open spec fn sizes_close(a: u64, b: u64, percent: u64) -> bool {
    a > 0 && b > 0 && size_gap(a, b) * 100 < percent * larger(a, b)
}

/// Whether two durations are known and close.
pub open spec fn durations_close(a: Option<u32>, b: Option<u32>, tolerance: u32) -> bool {
    a is Some && b is Some && (if a->0 >= b->0 {
        a->0 - b->0
    } else {
        b->0 - a->0
    }) < tolerance
}

/// Whether the signal of the policy takes two records for one recording.
pub open spec fn signal_agrees(a: SongRecord, b: SongRecord, policy: IdentityPolicy) -> bool {
    let by_size = sizes_close(a.size, b.size, policy.size_percent);
    let by_duration = durations_close(a.duration, b.duration, policy.duration_tolerance);
    match policy.signal {
        Signal::Size => by_size,
        Signal::Duration => by_duration,
        Signal::Both => by_size && by_duration,
        Signal::Either => by_size || by_duration,
    }
}

/// Whether two records are taken for one recording. Where both carry a code the codes
/// decide, whatever the sizes and durations; otherwise the signal of the policy decides,
/// and what it cannot tell is taken for different.
pub open spec fn same_content(a: SongRecord, b: SongRecord, policy: IdentityPolicy) -> bool {
    if has_code(a) && has_code(b) {
        a.isrc->0 == b.isrc->0
    } else {
        signal_agrees(a, b, policy)
    }
}

/// The policy that compares sizes, with the default bounds.
pub open spec fn standard_policy() -> IdentityPolicy {
    IdentityPolicy {
        signal: Signal::Size,
        size_percent: DEFAULT_SIZE_PERCENT,
        duration_tolerance: DEFAULT_DURATION_TOLERANCE,
    }
}

/// The policy that compares sizes, with the default bounds.
pub fn default_policy() -> (policy: IdentityPolicy)
    ensures
        policy == standard_policy(),
{
    IdentityPolicy {
        signal: Signal::Size,
        size_percent: DEFAULT_SIZE_PERCENT,
        duration_tolerance: DEFAULT_DURATION_TOLERANCE,
    }
}

/// Whether a tag is there and not empty.
fn is_present(tag: &Option<String>) -> (r: bool)
    ensures
        r == (tag is Some && tag->0@.len() > 0),
{
    match tag {
        Some(t) => !t.as_str().is_empty(),
        None => false,
    }
}

/// Whether two sizes are known and close.
fn are_sizes_close(a: u64, b: u64, percent: u64) -> (r: bool)
    ensures
        r == sizes_close(a, b, percent),
{
    if a == 0 || b == 0 {
        return false;
    }
    let gap: u64 = if a >= b {
        a - b
    } else {
        b - a
    };
    let top: u64 = if a >= b {
        a
    } else {
        b
    };
    assert(gap * 100 <= u64::MAX * 100 && percent * top <= u64::MAX * u64::MAX) by (nonlinear_arith)
        requires
            gap <= u64::MAX,
            percent <= u64::MAX,
            top <= u64::MAX,
            0 <= gap,
            0 <= percent,
            0 <= top,
    ;
    let left: u128 = (gap as u128) * 100;
    let right: u128 = (percent as u128) * (top as u128);
    left < right
}

/// Whether two durations are known and close.
fn are_durations_close(a: Option<u32>, b: Option<u32>, tolerance: u32) -> (r: bool)
    ensures
        r == durations_close(a, b, tolerance),
{
    match (a, b) {
        (Some(x), Some(y)) => {
            let gap: u32 = if x >= y {
                x - y
            } else {
                y - x
            };
            gap < tolerance
        },
        _ => false,
    }
}

/// Whether two records are taken for one recording.
pub fn is_same_content(a: &SongMetadata, b: &SongMetadata, policy: IdentityPolicy) -> (same: bool)
    ensures
        same == same_content(a@, b@, policy),
{
    if is_present(&a.isrc) && is_present(&b.isrc) {
        match (&a.isrc, &b.isrc) {
            (Some(x), Some(y)) => *x == *y,
            _ => false,
        }
    } else {
        match policy.signal {
            Signal::Size => are_sizes_close(a.size, b.size, policy.size_percent),
            Signal::Duration => are_durations_close(a.duration, b.duration, policy.duration_tolerance),
            Signal::Both => are_sizes_close(a.size, b.size, policy.size_percent) && are_durations_close(
                a.duration,
                b.duration,
                policy.duration_tolerance,
            ),
            Signal::Either => are_sizes_close(a.size, b.size, policy.size_percent) || are_durations_close(
                a.duration,
                b.duration,
                policy.duration_tolerance,
            ),
        }
    }
}

/// Two records that both carry a code are one recording exactly when the codes are equal,
/// whatever the policy, the sizes and the durations.
pub proof fn lemma_codes_decide(a: SongRecord, b: SongRecord, policy: IdentityPolicy)
    requires
        has_code(a),
        has_code(b),
    ensures
        same_content(a, b, policy) == (a.isrc->0 == b.isrc->0),
{
}

/// Whether two records are candidates for one recording: their titles have one key, which
/// is not empty, and their artists have one key.
pub open spec fn candidate_pair(a: SongRecord, b: SongRecord) -> bool {
    text_key(a.title).len() > 0 && text_key(a.title) == text_key(b.title) && text_key(a.artist)
        == text_key(b.artist)
}

/// Whether records `a` and `b` of a list are candidates for one recording.
pub open spec fn candidate_link(songs: Seq<SongMetadata>) -> spec_fn(int, int) -> bool {
    |a: int, b: int| candidate_pair(songs[a]@, songs[b]@)
}

/// The candidate groups of a list of records: each group holds two records or more, in
/// rising order, the groups stand in the order of their first members, no record stands
/// twice, and two different records share a group exactly when they are candidates for one
/// recording.
pub open spec fn is_candidate_grouping(songs: Seq<SongMetadata>, g: Seq<Vec<usize>>) -> bool {
    &&& is_ordered(g)
    &&& forall|k: int| 0 <= k < g.len() ==> (#[trigger] g[k])@.len() >= 2
    &&& forall|k: int, p: int| slot(g, k, p) ==> 0 <= #[trigger] at(g, k, p) < songs.len()
    &&& forall|j: int, p: int, k: int, q: int|
        slot(g, j, p) && slot(g, k, q) && #[trigger] at(g, j, p) == #[trigger] at(g, k, q) ==> j == k && p
            == q
    &&& forall|a: int, b: int|
        0 <= a < songs.len() && 0 <= b < songs.len() && a != b ==> #[trigger] together(g, a, b)
            == candidate_pair(songs[a]@, songs[b]@)
}

/// The title and artist keys of each record of a list.
pub struct KeyLink {
    pub keys: Vec<(String, String)>,
}

impl Linkage for KeyLink {
    open spec fn count(&self) -> nat {
        self.keys@.len()
    }

    open spec fn linked(&self, rep: int, item: int) -> bool {
        self.keys@[rep].0@.len() > 0 && self.keys@[rep].0@ == self.keys@[item].0@ && self.keys@[rep].1@
            == self.keys@[item].1@
    }

    fn size(&self) -> (n: usize) {
        self.keys.len()
    }

    fn test(&self, rep: usize, item: usize) -> (r: bool) {
        let a = &self.keys[rep];
        let b = &self.keys[item];
        !a.0.as_str().is_empty() && a.0 == b.0 && a.1 == b.1
    }
}

/// The title and artist keys of each record.
fn keys_of(songs: &Vec<SongMetadata>) -> (keys: Vec<(String, String)>)
    ensures
        keys@.len() == songs@.len(),
        forall|i: int|
            0 <= i < songs@.len() ==> (#[trigger] keys@[i]).0@ == text_key(songs@[i]@.title) && keys@[i].1@
                == text_key(songs@[i]@.artist),
{
    let mut keys: Vec<(String, String)> = Vec::new();
    let mut i: usize = 0;
    while i < songs.len()
        invariant
            i <= songs.len(),
            keys@.len() == i,
            forall|j: int|
                0 <= j < i ==> (#[trigger] keys@[j]).0@ == text_key(songs@[j]@.title) && keys@[j].1@
                    == text_key(songs@[j]@.artist),
        decreases songs.len() - i,
    {
        let title = SongMetadata::normalize_str(&songs[i].title);
        let artist = SongMetadata::normalize_str(&songs[i].artist);
        keys.push((title, artist));
        i += 1;
    }
    keys
}

/// A copy of a list of positions.
fn copy_positions(v: &Vec<usize>) -> (r: Vec<usize>)
    ensures
        r@ == v@,
{
    let mut r: Vec<usize> = Vec::new();
    let mut i: usize = 0;
    while i < v.len()
        invariant
            i <= v.len(),
            r@ == v@.take(i as int),
        decreases v.len() - i,
    {
        r.push(v[i]);
        i += 1;
        assert(v@.take(i as int) == v@.take(i - 1).push(v@[i - 1]));
    }
    assert(v@.take(v@.len() as int) == v@);
    r
}

/// The clusters of two members or more, taken in order from the classes of the candidate
/// link, are the candidate groups: `src` gives for each group the cluster that it is.
proof fn lemma_groups_from_clusters(
    songs: Seq<SongMetadata>,
    c: Seq<Vec<usize>>,
    g: Seq<Vec<usize>>,
    src: Seq<int>,
)
    requires
        is_clustering(candidate_link(songs), c, songs.len() as int),
        src.len() == g.len(),
        forall|k: int| 0 <= k < g.len() ==> 0 <= #[trigger] src[k] < c.len() && g[k]@ == c[src[k]]@,
        forall|j: int, k: int| 0 <= j < k < g.len() ==> #[trigger] src[j] < #[trigger] src[k],
        forall|k: int| 0 <= k < g.len() ==> (#[trigger] g[k])@.len() >= 2,
        forall|m: int|
            0 <= m < c.len() && (#[trigger] c[m])@.len() >= 2 ==> exists|k: int|
                0 <= k < g.len() && #[trigger] src[k] == m,
    ensures
        is_candidate_grouping(songs, g),
{
    let n = songs.len() as int;
    let link = candidate_link(songs);
    assert forall|k: int, p: int| slot(g, k, p) implies slot(c, src[k], p) && at(g, k, p) == at(
        c,
        src[k],
        p,
    ) by {}
    assert forall|k: int, p: int, q: int| slot(g, k, p) && slot(g, k, q) && p < q implies #[trigger] at(
        g,
        k,
        p,
    ) < #[trigger] at(g, k, q) by {
        assert(at(c, src[k], p) < at(c, src[k], q));
    }
    assert forall|j: int, k: int| 0 <= j < k < g.len() implies #[trigger] at(g, j, 0) < #[trigger] at(
        g,
        k,
        0,
    ) by {
        assert(src[j] < src[k]);
        assert(slot(g, j, 0) && slot(g, k, 0));
        assert(at(c, src[j], 0) < at(c, src[k], 0));
    }
    assert forall|k: int, p: int| slot(g, k, p) implies 0 <= #[trigger] at(g, k, p) < n by {
        assert(0 <= at(c, src[k], p) < n);
    }
    assert forall|j: int, p: int, k: int, q: int|
        slot(g, j, p) && slot(g, k, q) && #[trigger] at(g, j, p) == #[trigger] at(g, k, q) implies j == k
        && p == q by {
        assert(at(c, src[j], p) == at(c, src[k], q));
        assert(src[j] == src[k] && p == q);
        if j < k {
            assert(src[j] < src[k]);
        } else if k < j {
            assert(src[k] < src[j]);
        }
    }
    assert(is_symmetric_transitive(link, n));
    assert forall|a: int, b: int| 0 <= a < n && 0 <= b < n && a != b implies #[trigger] together(g, a, b)
        == candidate_pair(songs[a]@, songs[b]@) by {
        lemma_clusters_are_classes(link, c, n, a, b);
        assert(link(a, b) == candidate_pair(songs[a]@, songs[b]@));
        if together(g, a, b) {
            let (k, p, q) = choose|k: int, p: int, q: int|
                slot(g, k, p) && slot(g, k, q) && at(g, k, p) == a && at(g, k, q) == b;
            assert(slot(c, src[k], p) && slot(c, src[k], q) && at(c, src[k], p) == a && at(c, src[k], q) == b);
            assert(together(c, a, b));
        }
        if together(c, a, b) {
            let (m, p, q) = choose|m: int, p: int, q: int|
                slot(c, m, p) && slot(c, m, q) && at(c, m, p) == a && at(c, m, q) == b;
            assert(p != q);
            assert(c[m]@.len() >= 2);
            let k = choose|k: int| 0 <= k < g.len() && #[trigger] src[k] == m;
            assert(slot(g, k, p) && slot(g, k, q) && at(g, k, p) == a && at(g, k, q) == b);
            assert(together(g, a, b));
        }
    }
}

/// Groups the records by the keys of title and artist. Records whose title has the empty
/// key, and records that are alone under their keys, stand in no group.
pub fn group_candidates(songs: &Vec<SongMetadata>) -> (groups: Vec<Vec<usize>>)
    ensures
        is_candidate_grouping(songs@, groups@),
{
    let link = KeyLink { keys: keys_of(songs) };
    let c = first_fit(&link);
    proof {
        let by_keys = link_of(&link);
        let by_songs = candidate_link(songs@);
        assert(clusters_of(&link, c@, songs@.len() as int));
        assert forall|a: int, b: int| 0 <= a < songs@.len() && 0 <= b < songs@.len() implies #[trigger] by_keys(
            a,
            b,
        ) == by_songs(a, b) by {}
        assert forall|k: int, p: int| slot(c@, k, p) && p > 0 implies by_songs(
            at(c@, k, 0),
            #[trigger] at(c@, k, p),
        ) by {
            assert(slot(c@, k, 0));
            assert(by_keys(at(c@, k, 0), at(c@, k, p)));
        }
        assert forall|j: int, k: int, p: int| 0 <= j < k && slot(c@, k, p) implies !by_songs(
            #[trigger] at(c@, j, 0),
            #[trigger] at(c@, k, p),
        ) by {
            assert(c@[j]@.len() > 0);
            assert(slot(c@, j, 0));
            assert(!by_keys(at(c@, j, 0), at(c@, k, p)));
        }
    }
    let mut groups: Vec<Vec<usize>> = Vec::new();
    let ghost mut src: Seq<int> = Seq::empty();
    let mut m: usize = 0;
    while m < c.len()
        invariant
            m <= c.len(),
            src.len() == groups@.len(),
            forall|k: int|
                0 <= k < groups@.len() ==> 0 <= #[trigger] src[k] < m && groups@[k]@ == c@[src[k]]@,
            forall|j: int, k: int| 0 <= j < k < groups@.len() ==> #[trigger] src[j] < #[trigger] src[k],
            forall|k: int| 0 <= k < groups@.len() ==> (#[trigger] groups@[k])@.len() >= 2,
            forall|i: int|
                0 <= i < m && (#[trigger] c@[i])@.len() >= 2 ==> exists|k: int|
                    0 <= k < groups@.len() && #[trigger] src[k] == i,
        decreases c.len() - m,
    {
        if c[m].len() >= 2 {
            let group = copy_positions(&c[m]);
            let ghost old_src = src;
            let ghost old_len = groups@.len() as int;
            groups.push(group);
            proof {
                src = src.push(m as int);
                assert forall|i: int| 0 <= i < m + 1 && (#[trigger] c@[i])@.len() >= 2 implies exists|k: int|
                    0 <= k < groups@.len() && #[trigger] src[k] == i by {
                    if i < m {
                        let k = choose|k: int| 0 <= k < old_len && #[trigger] old_src[k] == i;
                        assert(src[k] == i);
                    } else {
                        assert(src[old_len] == i);
                    }
                }
            }
        }
        m += 1;
    }
    proof {
        lemma_groups_from_clusters(songs@, c@, groups@, src);
    }
    groups
}

/// The records of one candidate group, compared under a policy.
pub struct ContentLink<'a> {
    pub songs: &'a Vec<SongMetadata>,
    pub policy: IdentityPolicy,
}

impl<'a> Linkage for ContentLink<'a> {
    open spec fn count(&self) -> nat {
        self.songs@.len()
    }

    open spec fn linked(&self, rep: int, item: int) -> bool {
        same_content(self.songs@[rep]@, self.songs@[item]@, self.policy)
    }

    fn size(&self) -> (n: usize) {
        self.songs.len()
    }

    fn test(&self, rep: usize, item: usize) -> (r: bool) {
        is_same_content(&self.songs[rep], &self.songs[item], self.policy)
    }
}

/// Whether records `a` and `b` of a group are taken for one recording.
pub open spec fn content_link(group: Seq<SongMetadata>, policy: IdentityPolicy) -> spec_fn(int, int) -> bool {
    |a: int, b: int| same_content(group[a]@, group[b]@, policy)
}

/// Splits a candidate group into clusters of records taken for one recording. Each record
/// is compared with the first member of each cluster in turn and joins the first that it
/// is taken for one recording with. Every record of the group stands in exactly one
/// cluster.
pub fn classify(group: &Vec<SongMetadata>, policy: IdentityPolicy) -> (clusters: Vec<Vec<usize>>)
    ensures
        is_clustering(content_link(group@, policy), clusters@, group@.len() as int),
{
    let link = ContentLink { songs: group, policy };
    let clusters = first_fit(&link);
    proof {
        assert(clusters_of(&link, clusters@, group@.len() as int));
        assert(link_of(&link) =~= content_link(group@, policy));
    }
    clusters
}

/// The clusters of a group partition it: every record of the group stands in a cluster,
/// no record stands in two clusters or twice in one, and no cluster holds anything else.
pub proof fn lemma_clusters_partition(group: Seq<SongMetadata>, policy: IdentityPolicy, c: Seq<Vec<usize>>)
    requires
        is_clustering(content_link(group, policy), c, group.len() as int),
    ensures
        forall|m: int| 0 <= m < group.len() ==> #[trigger] holds(c, m),
        forall|j: int, p: int, k: int, q: int|
            slot(c, j, p) && slot(c, k, q) && #[trigger] at(c, j, p) == #[trigger] at(c, k, q) ==> j == k && p
                == q,
        forall|k: int, p: int| slot(c, k, p) ==> 0 <= #[trigger] at(c, k, p) < group.len(),
{
}

/// A group in which every record carries a code is compared consistently: the codes alone
/// decide.
pub proof fn lemma_coded_group_is_consistent(group: Seq<SongMetadata>, policy: IdentityPolicy)
    requires
        forall|i: int| 0 <= i < group.len() ==> has_code(#[trigger] group[i]@),
    ensures
        is_symmetric_transitive(content_link(group, policy), group.len() as int),
{
    let link = content_link(group, policy);
    assert forall|a: int, b: int, c: int|
        0 <= a < group.len() && 0 <= b < group.len() && 0 <= c < group.len() && #[trigger] link(a, b)
            && #[trigger] link(b, c) implies link(a, c) by {
        assert(has_code(group[a]@) && has_code(group[b]@) && has_code(group[c]@));
    }
    assert forall|a: int, b: int|
        0 <= a < group.len() && 0 <= b < group.len() && #[trigger] link(a, b) implies link(b, a) by {
        assert(has_code(group[a]@) && has_code(group[b]@));
    }
}

/// Where the comparison of a group is symmetric and transitive, two records that carry
/// equal codes share a cluster, whatever their sizes and durations.
pub proof fn lemma_equal_codes_share_cluster(
    group: Seq<SongMetadata>,
    policy: IdentityPolicy,
    c: Seq<Vec<usize>>,
    a: int,
    b: int,
)
    requires
        is_clustering(content_link(group, policy), c, group.len() as int),
        is_symmetric_transitive(content_link(group, policy), group.len() as int),
        0 <= a < group.len(),
        0 <= b < group.len(),
        has_code(group[a]@),
        has_code(group[b]@),
        group[a]@.isrc->0 == group[b]@.isrc->0,
    ensures
        together(c, a, b),
{
    lemma_clusters_are_classes(content_link(group, policy), c, group.len() as int, a, b);
}

/// Where the comparison of a group is symmetric and transitive, two records that carry
/// different codes share no cluster, whatever their sizes and durations.
pub proof fn lemma_different_codes_share_no_cluster(
    group: Seq<SongMetadata>,
    policy: IdentityPolicy,
    c: Seq<Vec<usize>>,
    a: int,
    b: int,
)
    requires
        is_clustering(content_link(group, policy), c, group.len() as int),
        is_symmetric_transitive(content_link(group, policy), group.len() as int),
        0 <= a < group.len(),
        0 <= b < group.len(),
        has_code(group[a]@),
        has_code(group[b]@),
        group[a]@.isrc->0 != group[b]@.isrc->0,
    ensures
        !together(c, a, b),
{
    lemma_clusters_are_classes(content_link(group, policy), c, group.len() as int, a, b);
}

/// In a group in which every record carries a code, two records share a cluster exactly
/// when their codes are equal, whatever their sizes and durations.
pub proof fn lemma_coded_group_clusters_by_code(
    group: Seq<SongMetadata>,
    policy: IdentityPolicy,
    c: Seq<Vec<usize>>,
    a: int,
    b: int,
)
    requires
        is_clustering(content_link(group, policy), c, group.len() as int),
        forall|i: int| 0 <= i < group.len() ==> has_code(#[trigger] group[i]@),
        0 <= a < group.len(),
        0 <= b < group.len(),
    ensures
        together(c, a, b) == (group[a]@.isrc->0 == group[b]@.isrc->0),
{
    lemma_coded_group_is_consistent(group, policy);
    lemma_clusters_are_classes(content_link(group, policy), c, group.len() as int, a, b);
}

/// What a record is ranked by, from the first to the last tie-break.
pub struct RankKey {
    /// Two for a record of an album with more than two songs in the library, one for a
    /// record of a smaller album, zero for a record that names no album.
    pub tier: nat,
    /// Whether the record carries a recording code.
    pub coded: bool,
    /// Zero for an album name that tells of a compilation or an edit, two for a deluxe
    /// release, one otherwise and wherever names are not looked at.
    pub keyword: nat,
    /// The path of the file.
    pub path: Seq<char>,
}

/// The rank of a record as computed.
pub struct Rank {
    pub tier: u8,
    pub coded: bool,
    pub keyword: u8,
    pub path: Vec<char>,
}

impl View for Rank {
    type V = RankKey;

    open spec fn view(&self) -> RankKey {
        RankKey { tier: self.tier as nat, coded: self.coded, keyword: self.keyword as nat, path: self.path@ }
    }
}

/// The number of records of the library in the album of a record.
pub open spec fn album_size(library: Seq<SongMetadata>, s: SongRecord) -> nat {
    songs_of(library, artist_key(s), album_key(s)).len()
}

/// The tier of a record by the album it belongs to.
pub open spec fn tier_of(library: Seq<SongMetadata>, s: SongRecord) -> nat {
    if album_key(s).len() == 0 {
        0
    } else if album_size(library, s) > 2 {
        2
    } else {
        1
    }
}

/// Whether a lowercased album name tells of a compilation or an edit.
pub open spec fn is_penalized(name: Seq<char>) -> bool {
    has_substring(name, "radio"@) || has_substring(name, "special"@) || has_substring(name, "greatest"@)
        || has_substring(name, "best of"@) || has_substring(name, "remix"@)
}

/// The level that the album name of a record gives it.
pub open spec fn keyword_of(s: SongRecord, use_keywords: bool) -> nat {
    if !use_keywords || s.album is None {
        1
    } else if is_penalized(lowercase_of(s.album->0)) {
        0
    } else if has_substring(lowercase_of(s.album->0), "deluxe"@) {
        2
    } else {
        1
    }
}

/// The path of a record, empty where it has none.
pub open spec fn path_of(s: SongRecord) -> Seq<char> {
    match s.file_path {
        Some(p) => p,
        None => Seq::empty(),
    }
}

/// What a record is ranked by.
pub open spec fn rank_key(library: Seq<SongMetadata>, use_keywords: bool, s: SongRecord) -> RankKey {
    RankKey {
        tier: tier_of(library, s),
        coded: has_code(s),
        keyword: keyword_of(s, use_keywords),
        path: path_of(s),
    }
}

/// Whether the first key ranks above the second: by the higher tier, then by the code,
/// then by the higher keyword level, then by the shorter path, then by the path that
/// comes first.
pub open spec fn ranks_above(a: RankKey, b: RankKey) -> bool {
    if a.tier != b.tier {
        a.tier > b.tier
    } else if a.coded != b.coded {
        a.coded
    } else if a.keyword != b.keyword {
        a.keyword > b.keyword
    } else if a.path.len() != b.path.len() {
        a.path.len() < b.path.len()
    } else {
        lex_before(a.path, b.path)
    }
}

/// Whether record `a` ranks above record `b`.
pub open spec fn outranks(library: Seq<SongMetadata>, use_keywords: bool, a: SongRecord, b: SongRecord) -> bool {
    ranks_above(rank_key(library, use_keywords, a), rank_key(library, use_keywords, b))
}

/// Of two different keys one ranks above the other, never both, and no key ranks above
/// itself.
pub proof fn lemma_rank_total(a: RankKey, b: RankKey)
    ensures
        a != b ==> (ranks_above(a, b) || ranks_above(b, a)),
        !(ranks_above(a, b) && ranks_above(b, a)),
        !ranks_above(a, a),
{
    lemma_lex_total(a.path, b.path);
    lemma_lex_irreflexive(a.path);
}

/// Ranking above carries over.
pub proof fn lemma_rank_transitive(a: RankKey, b: RankKey, c: RankKey)
    requires
        ranks_above(a, b),
        ranks_above(b, c),
    ensures
        ranks_above(a, c),
{
    if a.tier == b.tier && b.tier == c.tier && a.coded == b.coded && b.coded == c.coded && a.keyword
        == b.keyword && b.keyword == c.keyword && a.path.len() == b.path.len() && b.path.len()
        == c.path.len() {
        lemma_lex_transitive(a.path, b.path, c.path);
    }
}

/// Whether the first rank is above the second.
pub fn is_above(a: &Rank, b: &Rank) -> (r: bool)
    ensures
        r == ranks_above(a@, b@),
{
    if a.tier != b.tier {
        a.tier > b.tier
    } else if a.coded != b.coded {
        a.coded
    } else if a.keyword != b.keyword {
        a.keyword > b.keyword
    } else if a.path.len() != b.path.len() {
        a.path.len() < b.path.len()
    } else {
        comes_before(&a.path, &b.path)
    }
}

/// The tier of a record by the album it belongs to.
fn tier(library: &Vec<SongMetadata>, song: &SongMetadata) -> (t: u8)
    ensures
        t == tier_of(library@, song@),
{
    let album = SongMetadata::normalize_str(&song.album);
    if album.as_str().is_empty() {
        return 0;
    }
    let artist = SongMetadata::normalize_str(&song.artist);
    let mut count: usize = 0;
    let mut i: usize = 0;
    while i < library.len()
        invariant
            i <= library.len(),
            count <= i,
            artist@ == artist_key(song@),
            album@ == album_key(song@),
            count == songs_of(library@.take(i as int), artist@, album@).len(),
        decreases library.len() - i,
    {
        proof {
            assert(library@.take(i + 1) == library@.take(i as int).push(library@[i as int]));
            lemma_songs_of_push(library@.take(i as int), library@[i as int], artist@, album@);
        }
        let other_artist = SongMetadata::normalize_str(&library[i].artist);
        let other_album = SongMetadata::normalize_str(&library[i].album);
        if other_artist == artist && other_album == album {
            count += 1;
        }
        i += 1;
    }
    assert(library@.take(library@.len() as int) == library@);
    if count > 2 {
        2
    } else {
        1
    }
}

/// The level that the album name of a record gives it.
fn keyword(song: &SongMetadata, use_keywords: bool) -> (k: u8)
    ensures
        k == keyword_of(song@, use_keywords),
{
    if !use_keywords {
        return 1;
    }
    match &song.album {
        None => 1,
        Some(name) => {
            let lower = name.as_str().to_lowercase();
            let letters = chars_of(lower.as_str());
            if contains(&letters, &chars_of("radio")) || contains(&letters, &chars_of("special")) || contains(
                &letters,
                &chars_of("greatest"),
            ) || contains(&letters, &chars_of("best of")) || contains(&letters, &chars_of("remix")) {
                0
            } else if contains(&letters, &chars_of("deluxe")) {
                2
            } else {
                1
            }
        },
    }
}

/// What a record is ranked by among the records of the library.
pub fn rank(song: &SongMetadata, library: &Vec<SongMetadata>, use_keywords: bool) -> (r: Rank)
    ensures
        r@ == rank_key(library@, use_keywords, song@),
{
    let coded = match &song.isrc {
        Some(code) => !code.as_str().is_empty(),
        None => false,
    };
    let path = match &song.file_path {
        Some(p) => chars_of(p.as_str()),
        None => Vec::new(),
    };
    Rank { tier: tier(library, song), coded, keyword: keyword(song, use_keywords), path }
}

/// Whether member `k` is the keeper of a cluster: no member ranks above it, and it ranks
/// above every member before it.
pub open spec fn is_keeper(library: Seq<SongMetadata>, use_keywords: bool, c: Seq<SongMetadata>, k: int) -> bool {
    &&& 0 <= k < c.len()
    &&& forall|j: int| 0 <= j < c.len() ==> !outranks(library, use_keywords, #[trigger] c[j]@, c[k]@)
    &&& forall|j: int| 0 <= j < k ==> outranks(library, use_keywords, c[k]@, #[trigger] c[j]@)
}

/// The member of a cluster to keep: the one that ranks highest. An empty cluster has none.
pub fn select_keeper(cluster: &Vec<SongMetadata>, library: &Vec<SongMetadata>, use_keywords: bool) -> (keeper:
    Option<usize>)
    ensures
        keeper is None == (cluster@.len() == 0),
        keeper matches Some(k) ==> is_keeper(library@, use_keywords, cluster@, k as int),
{
    if cluster.len() == 0 {
        return None;
    }
    let mut best: usize = 0;
    let mut best_rank = rank(&cluster[0], library, use_keywords);
    let mut j: usize = 1;
    proof {
        lemma_rank_total(best_rank@, best_rank@);
    }
    while j < cluster.len()
        invariant
            1 <= j <= cluster.len(),
            best < j,
            best_rank@ == rank_key(library@, use_keywords, cluster@[best as int]@),
            forall|i: int|
                0 <= i < j ==> !outranks(library@, use_keywords, #[trigger] cluster@[i]@, cluster@[best as int]@),
            forall|i: int|
                0 <= i < best ==> outranks(library@, use_keywords, cluster@[best as int]@, #[trigger] cluster@[i]@),
        decreases cluster.len() - j,
    {
        let next = rank(&cluster[j], library, use_keywords);
        if is_above(&next, &best_rank) {
            proof {
                let new_key = next@;
                let old_key = best_rank@;
                assert forall|i: int| 0 <= i < j + 1 implies !outranks(
                    library@,
                    use_keywords,
                    #[trigger] cluster@[i]@,
                    cluster@[j as int]@,
                ) by {
                    let key = rank_key(library@, use_keywords, cluster@[i]@);
                    lemma_rank_total(key, new_key);
                    if ranks_above(key, new_key) {
                        lemma_rank_transitive(key, new_key, old_key);
                    }
                }
                assert forall|i: int| 0 <= i < j implies outranks(
                    library@,
                    use_keywords,
                    cluster@[j as int]@,
                    #[trigger] cluster@[i]@,
                ) by {
                    let key = rank_key(library@, use_keywords, cluster@[i]@);
                    lemma_rank_total(old_key, key);
                    if old_key != key {
                        lemma_rank_transitive(new_key, old_key, key);
                    }
                }
            }
            best = j;
            best_rank = next;
        }
        j += 1;
    }
    Some(best)
}

/// The keeper does not depend on the order of the cluster: two clusters of the same
/// records, no two of them under one path, keep the same record.
pub proof fn lemma_keeper_ignores_order(
    library: Seq<SongMetadata>,
    use_keywords: bool,
    a: Seq<SongMetadata>,
    b: Seq<SongMetadata>,
    ka: int,
    kb: int,
)
    requires
        forall|i: int| 0 <= i < a.len() ==> b.contains(#[trigger] a[i]),
        forall|j: int| 0 <= j < b.len() ==> a.contains(#[trigger] b[j]),
        forall|i: int, j: int|
            0 <= i < a.len() && 0 <= j < a.len() && i != j ==> path_of(#[trigger] a[i]@) != path_of(
                #[trigger] a[j]@,
            ),
        is_keeper(library, use_keywords, a, ka),
        is_keeper(library, use_keywords, b, kb),
    ensures
        a[ka] == b[kb],
{
    assert(b.contains(a[ka]));
    let j = choose|j: int| 0 <= j < b.len() && b[j] == a[ka];
    assert(a.contains(b[kb]));
    let i = choose|i: int| 0 <= i < a.len() && a[i] == b[kb];
    if i != ka {
        assert(path_of(a[i]@) != path_of(a[ka]@));
        lemma_rank_total(rank_key(library, use_keywords, a[i]@), rank_key(library, use_keywords, a[ka]@));
        assert(!outranks(library, use_keywords, a[i]@, a[ka]@));
        assert(!outranks(library, use_keywords, b[j]@, b[kb]@));
    }
}

/// The records at the given positions, in the order of the positions.
pub open spec fn picked(songs: Seq<SongMetadata>, positions: Seq<usize>) -> Seq<SongMetadata> {
    Seq::new(positions.len(), |i: int| songs[positions[i] as int])
}

/// Copies of the records at the given positions.
fn pick(songs: &Vec<SongMetadata>, positions: &Vec<usize>) -> (r: Vec<SongMetadata>)
    requires
        forall|i: int| 0 <= i < positions@.len() ==> #[trigger] positions@[i] < songs@.len(),
    ensures
        r@ == picked(songs@, positions@),
{
    let mut r: Vec<SongMetadata> = Vec::new();
    let mut i: usize = 0;
    while i < positions.len()
        invariant
            i <= positions.len(),
            forall|j: int| 0 <= j < positions@.len() ==> #[trigger] positions@[j] < songs@.len(),
            r@.len() == i,
            forall|j: int| 0 <= j < i ==> r@[j] == songs@[positions@[j] as int],
        decreases positions.len() - i,
    {
        r.push(songs[positions[i]].clone());
        i += 1;
    }
    assert(r@ =~= picked(songs@, positions@));
    r
}

/// The clusters of one candidate group with the keeper of each.
pub struct GroupClusters {
    /// The clusters, each a list of positions in the group.
    pub clusters: Vec<Vec<usize>>,
    /// For each cluster the position in it of the record to keep.
    pub keepers: Vec<usize>,
}

/// The duplicates of a library.
pub struct Duplicates {
    /// The candidate groups, each a list of positions in the library.
    pub groups: Vec<Vec<usize>>,
    /// For each group its clusters.
    pub details: Vec<GroupClusters>,
}

/// The detail holds the clusters of the group with these members and the keeper of each
/// cluster.
pub open spec fn detail_holds(
    library: Seq<SongMetadata>,
    policy: IdentityPolicy,
    use_keywords: bool,
    members: Seq<usize>,
    detail: GroupClusters,
) -> bool {
    let group = picked(library, members);
    &&& is_clustering(content_link(group, policy), detail.clusters@, group.len() as int)
    &&& detail.keepers@.len() == detail.clusters@.len()
    &&& forall|k: int|
        0 <= k < detail.clusters@.len() ==> is_keeper(
            library,
            use_keywords,
            picked(group, (#[trigger] detail.clusters@[k])@),
            detail.keepers@[k] as int,
        )
}

/// The clusters of one group of records with the keeper of each.
fn cluster_group(
    library: &Vec<SongMetadata>,
    members: &Vec<usize>,
    policy: IdentityPolicy,
    use_keywords: bool,
) -> (detail: GroupClusters)
    requires
        forall|i: int| 0 <= i < members@.len() ==> #[trigger] members@[i] < library@.len(),
    ensures
        detail_holds(library@, policy, use_keywords, members@, detail),
{
    let group = pick(library, members);
    let clusters = classify(&group, policy);
    let mut keepers: Vec<usize> = Vec::new();
    let mut k: usize = 0;
    while k < clusters.len()
        invariant
            k <= clusters.len(),
            keepers@.len() == k,
            is_clustering(content_link(group@, policy), clusters@, group@.len() as int),
            forall|j: int|
                0 <= j < k ==> is_keeper(
                    library@,
                    use_keywords,
                    picked(group@, (#[trigger] clusters@[j])@),
                    keepers@[j] as int,
                ),
        decreases clusters.len() - k,
    {
        assert forall|p: int| 0 <= p < clusters@[k as int]@.len() implies #[trigger] clusters@[k as int]@[p]
            < group@.len() by {
            assert(slot(clusters@, k as int, p));
            assert(at(clusters@, k as int, p) < group@.len());
        }
        let own = pick(&group, &clusters[k]);
        let keeper = match select_keeper(&own, library, use_keywords) {
            Some(best) => best,
            None => 0,
        };
        assert(clusters@[k as int]@.len() > 0);
        keepers.push(keeper);
        k += 1;
    }
    GroupClusters { clusters, keepers }
}

/// Finds the duplicates of a library: its candidate groups, the clusters of each group,
/// and the record to keep of each cluster.
pub fn find_duplicates(library: &Vec<SongMetadata>, policy: IdentityPolicy, use_keywords: bool) -> (found:
    Duplicates)
    ensures
        is_candidate_grouping(library@, found.groups@),
        found.details@.len() == found.groups@.len(),
        forall|i: int|
            0 <= i < found.groups@.len() ==> detail_holds(
                library@,
                policy,
                use_keywords,
                (#[trigger] found.groups@[i])@,
                found.details@[i],
            ),
{
    let groups = group_candidates(library);
    let mut details: Vec<GroupClusters> = Vec::new();
    let mut i: usize = 0;
    while i < groups.len()
        invariant
            i <= groups.len(),
            details@.len() == i,
            is_candidate_grouping(library@, groups@),
            forall|j: int|
                0 <= j < i ==> detail_holds(
                    library@,
                    policy,
                    use_keywords,
                    (#[trigger] groups@[j])@,
                    details@[j],
                ),
        decreases groups.len() - i,
    {
        assert forall|p: int| 0 <= p < groups@[i as int]@.len() implies #[trigger] groups@[i as int]@[p]
            < library@.len() by {
            assert(slot(groups@, i as int, p));
            assert(at(groups@, i as int, p) < library@.len());
        }
        let detail = cluster_group(library, &groups[i], policy, use_keywords);
        details.push(detail);
        i += 1;
    }
    Duplicates { groups, details }
}

/// What is done about one cluster: one record is kept and the others are removed.
pub struct ClusterPlan {
    /// The position in the library of the record to keep.
    pub keep: usize,
    /// The positions in the library of the records to remove.
    pub remove: Vec<usize>,
    /// Whether the removals are only to be reported: nothing is deleted then.
    pub describe_only: bool,
}

/// Whether the keeper is a member of the cluster and the members are members of the group.
pub open spec fn is_plannable(group: Seq<usize>, cluster: Seq<usize>, keeper: usize) -> bool {
    keeper < cluster.len() && forall|p: int| 0 <= p < cluster.len() ==> #[trigger] cluster[p] < group.len()
}

/// The positions in the library of the members of a cluster but the keeper.
pub open spec fn removals(group: Seq<usize>, cluster: Seq<usize>, keeper: usize) -> Seq<usize> {
    Seq::new((cluster.len() - 1) as nat, |i: int| group[cluster.remove(keeper as int)[i] as int])
}

/// Plans a cluster of confirmed duplicates: the keeper is kept and every other member is
/// removed, without asking; in a dry run the removals are only reported. There is no plan
/// where the keeper or a member is out of range.
pub fn plan_cluster(group: &Vec<usize>, cluster: &Vec<usize>, keeper: usize, dry_run: bool) -> (plan: Option<
    ClusterPlan,
>)
    ensures
        plan is Some == is_plannable(group@, cluster@, keeper),
        plan matches Some(p) ==> p.keep == group@[cluster@[keeper as int] as int] && p.remove@ == removals(
            group@,
            cluster@,
            keeper,
        ) && p.describe_only == dry_run,
{
    if keeper >= cluster.len() {
        return None;
    }
    let mut remove: Vec<usize> = Vec::new();
    let mut p: usize = 0;
    while p < cluster.len()
        invariant
            keeper < cluster.len(),
            p <= cluster.len(),
            forall|q: int| 0 <= q < p ==> #[trigger] cluster@[q] < group@.len(),
            remove@.len() == (if p <= keeper { p as int } else { p - 1 }),
            forall|i: int|
                0 <= i < remove@.len() ==> #[trigger] remove@[i] == group@[cluster@.remove(keeper as int)[i] as int],
        decreases cluster.len() - p,
    {
        if cluster[p] >= group.len() {
            return None;
        }
        if p != keeper {
            remove.push(group[cluster[p]]);
        }
        p += 1;
    }
    assert(remove@ =~= removals(group@, cluster@, keeper));
    Some(ClusterPlan { keep: group[cluster[keeper]], remove, describe_only: dry_run })
}

} // verus!
