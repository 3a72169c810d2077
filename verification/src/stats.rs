//! Statistics over all videos of a library: how many there are of each
//! extension, resolution, codec, duration and bitrate, as plain-text tables.
//!
//! A missing audio stream is counted as `(none)`, anything else that is not
//! known as `(unknown)`. The first four tables list the biggest count first;
//! duration and bitrate are listed by magnitude.
use vstd::prelude::*;
use vstd::arithmetic::power2::{lemma2_to64, pow2};
use crate::order::{lemma_map_count, views, Ranked};
use crate::path::{Part, Path};
use crate::probe::{law_container_rate_wins, shown_rate, MetaInfo, ProbeCache, ProbeMeta};
use crate::scan::{ext_of_path, ext_text};
use crate::strings::{
    byte_len, dec, decimal, holds, law_padding, lemma_holds, pad_left, pad_right, padded_left,
    padded_right, text_le,
};
use crate::tally::{
    counts_fall, law_rows_add_up, law_rows_tell_every_count, lemma_lists_sorted, lists, row_le,
    rows_count_desc, sum_counts, total, Tally,
};

verus! {

// ---- magnitudes ----

/// How many magnitudes there are.
pub const BUCKETS: usize = 12;

/// The first magnitude from `i` on that `v` stays below, each bound being twice
/// the one before it; the last has none.
pub open spec fn bucket_from(v: nat, i: nat, bound: nat) -> nat
    decreases BUCKETS - i,
{
    if i + 1 >= BUCKETS {
        (BUCKETS - 1) as nat
    } else if v < bound {
        i
    } else {
        bucket_from(v, i + 1, 2 * bound)
    }
}

/// The magnitude of `v`: below 1, below 2, below 4 and so on, and 1024 or more.
pub open spec fn bucket_of(v: nat) -> nat {
    bucket_from(v, 0, 1)
}

/// The magnitude of `v`.
pub fn bucket_for(v: u64) -> (r: usize)
    ensures
        r == bucket_of(v as nat),
        r < BUCKETS,
{
    let mut i: usize = 0;
    let mut bound: u64 = 1;
    while i + 1 < BUCKETS && v >= bound
        invariant
            i < BUCKETS,
            bound <= 0x1000,
            i == 0 ==> bound == 1,
            i == 1 ==> bound == 2,
            i == 2 ==> bound == 4,
            i == 3 ==> bound == 8,
            i == 4 ==> bound == 16,
            i == 5 ==> bound == 32,
            i == 6 ==> bound == 64,
            i == 7 ==> bound == 128,
            i == 8 ==> bound == 256,
            i == 9 ==> bound == 512,
            i == 10 ==> bound == 1024,
            bucket_from(v as nat, i as nat, bound as nat) == bucket_of(v as nat),
        decreases BUCKETS - i,
    {
        i = i + 1;
        bound = 2 * bound;
    }
    i
}

/// The span of a magnitude, without its unit.
pub open spec fn span_text(i: usize) -> Seq<char> {
    match i {
        0 => "<1"@,
        1 => "1-2"@,
        2 => "2-4"@,
        3 => "4-8"@,
        4 => "8-16"@,
        5 => "16-32"@,
        6 => "32-64"@,
        7 => "64-128"@,
        8 => "128-256"@,
        9 => "256-512"@,
        10 => "512-1024"@,
        _ => "1024+"@,
    }
}

/// The label of a magnitude.
pub open spec fn bucket_label(i: usize, unit: Seq<char>) -> Seq<char> {
    span_text(i) + " "@ + unit
}

fn label(i: usize, unit: &str) -> (r: String)
    ensures
        r@ == bucket_label(i, unit@),
{
    let span: &str = match i {
        0 => "<1",
        1 => "1-2",
        2 => "2-4",
        3 => "4-8",
        4 => "8-16",
        5 => "16-32",
        6 => "32-64",
        7 => "64-128",
        8 => "128-256",
        9 => "256-512",
        10 => "512-1024",
        _ => "1024+",
    };
    let mut r: String = span.to_owned();
    r.append(" ");
    r.append(unit);
    r
}

// ---- what one video adds ----

/// What one video adds to the statistics.
#[derive(Debug)]
pub struct VideoStat {
    pub ext: String,
    pub resolution: String,
    pub video_codec: String,
    pub audio_codec: String,
    pub duration_bucket: usize,
    pub bitrate_bucket: Option<usize>,
}

/// The view of a `VideoStat`.
pub struct StatInfo {
    pub ext: Seq<char>,
    pub resolution: Seq<char>,
    pub video_codec: Seq<char>,
    pub audio_codec: Seq<char>,
    pub duration_bucket: usize,
    pub bitrate_bucket: Option<usize>,
}

impl View for VideoStat {
    type V = StatInfo;

    open spec fn view(&self) -> StatInfo {
        StatInfo {
            ext: self.ext@,
            resolution: self.resolution@,
            video_codec: self.video_codec@,
            audio_codec: self.audio_codec@,
            duration_bucket: self.duration_bucket,
            bitrate_bucket: self.bitrate_bucket,
        }
    }
}

/// What an absent value is counted as.
pub open spec fn none_label() -> Seq<char> {
    "(none)"@
}

/// What a value that is not known is counted as.
pub open spec fn unknown_label() -> Seq<char> {
    "(unknown)"@
}

/// A text, or the label for what is not known where it is missing or empty.
pub open spec fn or_unknown(o: Option<Seq<char>>) -> Seq<char> {
    match o {
        Some(s) => if s.len() > 0 {
            s
        } else {
            unknown_label()
        },
        None => unknown_label(),
    }
}

/// A picture size as it is counted.
pub open spec fn resolution_text(w: u32, h: u32) -> Seq<char> {
    if w > 0 && h > 0 {
        dec(w as nat) + "x"@ + dec(h as nat)
    } else {
        unknown_label()
    }
}

/// The magnitude of a duration in whole minutes.
pub open spec fn duration_bucket(minutes: i64) -> usize {
    if minutes < 0 {
        0
    } else {
        bucket_of(minutes as nat) as usize
    }
}

/// What a video adds to the statistics. A rate of zero is not known.
pub open spec fn stat_info(src: Seq<Part>, m: MetaInfo) -> StatInfo {
    StatInfo {
        ext: or_unknown(ext_text(src)),
        resolution: resolution_text(m.video.width, m.video.height),
        video_codec: or_unknown(m.video.codec),
        audio_codec: match m.audio {
            Some(a) => or_unknown(a.codec),
            None => none_label(),
        },
        duration_bucket: duration_bucket(m.duration.minutes),
        bitrate_bucket: match shown_rate(m) {
            Some(b) => if b > 0 {
                Some(bucket_of((b / 1_000_000) as nat) as usize)
            } else {
                None
            },
            None => None,
        },
    }
}

/// A text, or the label for what is not known where it is missing or empty.
fn known_or(o: &Option<String>) -> (r: String)
    ensures
        r@ == or_unknown(crate::probe::opt_text(*o)),
{
    match o {
        Some(s) => if s.as_str().is_empty() {
            "(unknown)".to_owned()
        } else {
            s.clone()
        },
        None => "(unknown)".to_owned(),
    }
}

impl VideoStat {
    /// What a video adds to the statistics.
    pub fn from_probe(src: &Path, meta: &ProbeMeta) -> (r: VideoStat)
        ensures
            r@ == stat_info(src@, meta@),
            r.duration_bucket < BUCKETS,
            r.bitrate_bucket matches Some(i) ==> i < BUCKETS,
    {
        let ext: String = known_or(&ext_of_path(src));
        let w: u32 = meta.video.width;
        let h: u32 = meta.video.height;
        let resolution: String = if w > 0 && h > 0 {
            let mut t: String = decimal(w as u64);
            let u: String = decimal(h as u64);
            t.append("x");
            t.append(u.as_str());
            t
        } else {
            "(unknown)".to_owned()
        };
        let video_codec: String = known_or(&meta.video.codec);
        let audio_codec: String = match &meta.audio {
            Some(a) => known_or(&a.codec),
            None => "(none)".to_owned(),
        };
        let minutes: i64 = meta.duration.minutes;
        let duration_bucket: usize = if minutes < 0 {
            0
        } else {
            bucket_for(minutes as u64)
        };
        let bitrate_bucket: Option<usize> = match meta.rate() {
            Some(b) => if b > 0 {
                Some(bucket_for(b / 1_000_000))
            } else {
                None
            },
            None => None,
        };
        VideoStat { ext, resolution, video_codec, audio_codec, duration_bucket, bitrate_bucket }
    }
}

// ---- the counts ----

/// The keys that the videos are counted under, by one of their dimensions.
pub open spec fn exts(seen: Seq<StatInfo>) -> Seq<Seq<char>> {
    seen.map_values(|s: StatInfo| s.ext)
}

pub open spec fn resolutions(seen: Seq<StatInfo>) -> Seq<Seq<char>> {
    seen.map_values(|s: StatInfo| s.resolution)
}

pub open spec fn video_codecs(seen: Seq<StatInfo>) -> Seq<Seq<char>> {
    seen.map_values(|s: StatInfo| s.video_codec)
}

pub open spec fn audio_codecs(seen: Seq<StatInfo>) -> Seq<Seq<char>> {
    seen.map_values(|s: StatInfo| s.audio_codec)
}

/// How many videos have a duration of the magnitude `i`.
pub open spec fn duration_count(seen: Seq<StatInfo>, i: int) -> nat
    decreases seen.len(),
{
    if seen.len() == 0 {
        0
    } else {
        duration_count(seen.drop_last(), i) + if seen.last().duration_bucket == i {
            1nat
        } else {
            0nat
        }
    }
}

/// How many videos have a bitrate of the magnitude `i`, or none where `i` is
/// none.
pub open spec fn bitrate_count(seen: Seq<StatInfo>, i: Option<usize>) -> nat
    decreases seen.len(),
{
    if seen.len() == 0 {
        0
    } else {
        bitrate_count(seen.drop_last(), i) + if seen.last().bitrate_bucket == i {
            1nat
        } else {
            0nat
        }
    }
}

/// Every magnitude is one of the twelve.
pub open spec fn in_range(s: StatInfo) -> bool {
    s.duration_bucket < BUCKETS && (s.bitrate_bucket matches Some(i) ==> i < BUCKETS)
}

/// The counts over a number of videos.
pub struct Stats {
    by_ext: Tally,
    by_resolution: Tally,
    by_video_codec: Tally,
    by_audio_codec: Tally,
    by_duration: Vec<usize>,
    by_bitrate: Vec<usize>,
    bitrate_unknown: usize,
    seen: Ghost<Seq<StatInfo>>,
}

impl View for Stats {
    type V = Seq<StatInfo>;

    closed spec fn view(&self) -> Seq<StatInfo> {
        self.seen@
    }
}

fn zeros() -> (r: Vec<usize>)
    ensures
        r@.len() == BUCKETS,
        forall|i: int| 0 <= i < BUCKETS ==> r@[i] == 0,
{
    let mut r: Vec<usize> = Vec::new();
    for k in 0..BUCKETS
        invariant
            r@.len() == k,
            forall|i: int| 0 <= i < k ==> r@[i] == 0,
    {
        r.push(0);
    }
    r
}

proof fn lemma_count_bounds(seen: Seq<StatInfo>)
    ensures
        forall|i: int| #[trigger] duration_count(seen, i) <= seen.len(),
        forall|i: Option<usize>| #[trigger] bitrate_count(seen, i) <= seen.len(),
    decreases seen.len(),
{
    if seen.len() > 0 {
        lemma_count_bounds(seen.drop_last());
        assert forall|i: int| #[trigger] duration_count(seen, i) <= seen.len() by {
            assert(duration_count(seen.drop_last(), i) <= seen.len() - 1);
        }
        assert forall|i: Option<usize>| #[trigger] bitrate_count(seen, i) <= seen.len() by {
            assert(bitrate_count(seen.drop_last(), i) <= seen.len() - 1);
        }
    }
}

/// Counting one more key.
proof fn lemma_keys_push(keys: Seq<Seq<char>>, k: Seq<char>)
    ensures
        keys.push(k).to_multiset() == keys.to_multiset().insert(k),
        keys.to_multiset().count(k) <= keys.len(),
{
    broadcast use vstd::multiset::group_multiset_axioms;

    keys.to_multiset_ensures();
}

impl Stats {
    /// The counts are those of the videos seen.
    #[verifier::type_invariant]
    closed spec fn wf(self) -> bool {
        &&& self.by_ext@ == exts(self.seen@).to_multiset()
        &&& self.by_resolution@ == resolutions(
            self.seen@,
        ).to_multiset()
        &&& self.by_video_codec@ == video_codecs(
            self.seen@,
        ).to_multiset()
        &&& self.by_audio_codec@ == audio_codecs(
            self.seen@,
        ).to_multiset()
        &&& self.by_duration@.len() == BUCKETS && self.by_bitrate@.len() == BUCKETS
        &&& forall|i: int|
            0 <= i < BUCKETS ==> #[trigger] self.by_duration@[i] == duration_count(self.seen@, i)
        &&& forall|i: int|
            0 <= i < BUCKETS ==> #[trigger] self.by_bitrate@[i] == bitrate_count(
                self.seen@,
                Some(i as usize),
            )
        &&& self.bitrate_unknown == bitrate_count(self.seen@, None)
        &&& forall|i: int| 0 <= i < self.seen@.len() ==> in_range(#[trigger] self.seen@[i])
        &&& self.seen@.len() <= usize::MAX
    }

    /// The counts over no videos.
    pub fn new() -> (r: Stats)
        ensures
            r@ == Seq::<StatInfo>::empty(),
    {
        let ghost none: Seq<StatInfo> = Seq::empty();
        proof {
            let keys: Seq<Seq<char>> = Seq::empty();
            assert(exts(none) =~= keys && resolutions(none) =~= keys && video_codecs(none) =~= keys
                && audio_codecs(none) =~= keys);
            keys.to_multiset_ensures();
            assert(keys.to_multiset() =~= vstd::multiset::Multiset::empty()) by {
                broadcast use vstd::multiset::group_multiset_axioms;

                assert forall|k: Seq<char>| #[trigger] keys.to_multiset().count(k) == 0 by {}
            }
        }
        Stats {
            by_ext: Tally::new(),
            by_resolution: Tally::new(),
            by_video_codec: Tally::new(),
            by_audio_codec: Tally::new(),
            by_duration: zeros(),
            by_bitrate: zeros(),
            bitrate_unknown: 0,
            seen: Ghost(none),
        }
    }

    /// Counts one more video.
    pub fn add(&mut self, s: &VideoStat)
        requires
            old(self)@.len() < usize::MAX,
            in_range(s@),
        ensures
            final(self)@ == old(self)@.push(s@),
    {
        let mut before: Stats = Stats::new();
        std::mem::swap(&mut before, self);
        proof {
            use_type_invariant(&before);
        }
        let ghost was = before.seen@;
        let ghost next = was.push(s@);
        let mut by_ext: Tally = before.by_ext;
        let mut by_resolution: Tally = before.by_resolution;
        let mut by_video_codec: Tally = before.by_video_codec;
        let mut by_audio_codec: Tally = before.by_audio_codec;
        let mut by_duration: Vec<usize> = before.by_duration;
        let mut by_bitrate: Vec<usize> = before.by_bitrate;
        let mut bitrate_unknown: usize = before.bitrate_unknown;
        proof {
            lemma_count_bounds(was);
            lemma_keys_push(exts(was), s@.ext);
            lemma_keys_push(resolutions(was), s@.resolution);
            lemma_keys_push(video_codecs(was), s@.video_codec);
            lemma_keys_push(audio_codecs(was), s@.audio_codec);
            assert(exts(next) =~= exts(was).push(s@.ext));
            assert(resolutions(next) =~= resolutions(was).push(s@.resolution));
            assert(video_codecs(next) =~= video_codecs(was).push(s@.video_codec));
            assert(audio_codecs(next) =~= audio_codecs(was).push(s@.audio_codec));
            assert(next.drop_last() =~= was);
        }
        by_ext.add(s.ext.as_str());
        by_resolution.add(s.resolution.as_str());
        by_video_codec.add(s.video_codec.as_str());
        by_audio_codec.add(s.audio_codec.as_str());
        let d: usize = s.duration_bucket;
        let n: usize = by_duration[d];
        by_duration.set(d, n + 1);
        match s.bitrate_bucket {
            Some(i) => {
                let n: usize = by_bitrate[i];
                by_bitrate.set(i, n + 1);
            },
            None => {
                bitrate_unknown = bitrate_unknown + 1;
            },
        }
        *self = Stats {
            by_ext,
            by_resolution,
            by_video_codec,
            by_audio_codec,
            by_duration,
            by_bitrate,
            bitrate_unknown,
            seen: Ghost(next),
        };
    }
}

/// What the videos of which something is known add, in their order.
pub open spec fn known_stats(videos: Seq<Seq<Part>>, known: Map<Seq<Part>, MetaInfo>) -> Seq<
    StatInfo,
>
    decreases videos.len(),
{
    if videos.len() == 0 {
        Seq::empty()
    } else {
        let front = known_stats(videos.drop_last(), known);
        let v = videos.last();
        if known.contains_key(v) {
            front.push(stat_info(v, known[v]))
        } else {
            front
        }
    }
}

impl Stats {
    /// The counts over the given videos, from what is known of them. A video of
    /// which nothing is known is left out.
    pub fn from_cache(videos: &Vec<Path>, cache: &ProbeCache) -> (r: Stats)
        ensures
            r@ == known_stats(views(videos@), cache@),
    {
        let mut stats: Stats = Stats::new();
        let ghost all = views(videos@);
        for i in 0..videos.len()
            invariant
                all == views(videos@),
                stats@ == known_stats(all.take(i as int), cache@),
                stats@.len() <= i,
        {
            assert(all.take(i as int + 1).drop_last() =~= all.take(i as int));
            assert(all[i as int] == videos@[i as int]@);
            match cache.get(&videos[i]) {
                Some(meta) => {
                    let s: VideoStat = VideoStat::from_probe(&videos[i], &meta);
                    stats.add(&s);
                },
                None => {},
            }
        }
        assert(all.take(all.len() as int) =~= all);
        stats
    }
}

// ---- rows ----

/// The rows of a table that lists the biggest count first.
pub open spec fn falling_rows(keys: Seq<Seq<char>>) -> Seq<(Seq<char>, usize)> {
    choose|rows: Seq<(Seq<char>, usize)>| #[trigger]
        lists(rows, keys.to_multiset()) && counts_fall(rows)
}

/// There is only one way to list the same counts, the biggest first.
pub proof fn lemma_rows_unique(
    a: Seq<(Seq<char>, usize)>,
    b: Seq<(Seq<char>, usize)>,
    m: vstd::multiset::Multiset<Seq<char>>,
)
    requires
        lists(a, m),
        lists(b, m),
        counts_fall(a),
        counts_fall(b),
    ensures
        a == b,
{
    lemma_rows_agree(a, b, m, a.len() as int);
    lemma_rows_agree(b, a, m, b.len() as int);
    assert(a =~= b);
}

/// The first `n` rows of two listings agree.
proof fn lemma_rows_agree(
    a: Seq<(Seq<char>, usize)>,
    b: Seq<(Seq<char>, usize)>,
    m: vstd::multiset::Multiset<Seq<char>>,
    n: int,
)
    requires
        lists(a, m),
        lists(b, m),
        counts_fall(a),
        counts_fall(b),
        0 <= n <= a.len(),
    ensures
        n <= b.len(),
        forall|i: int| 0 <= i < n ==> #[trigger] a[i] == b[i],
    decreases n,
{
    if n > 0 {
        let i = n - 1;
        lemma_rows_agree(a, b, m, i);
        assert(m.count(a[i].0) > 0);
        let k = choose|k: int| 0 <= k < b.len() && (#[trigger] b[k]).0 == a[i].0;
        assert(b[k] == a[i]);
        if k < i {
            assert(a[k] == b[k]);
            assert(a[k].0 != a[i].0);
        }
        assert(i < b.len());
        assert(m.count(b[i].0) > 0);
        let l = choose|l: int| 0 <= l < a.len() && (#[trigger] a[l]).0 == b[i].0;
        assert(a[l] == b[i]);
        if l < i {
            assert(b[l] == a[l]);
            assert(b[l].0 != b[i].0);
        }
        if k > i {
            assert(row_le(b[i], b[k]));
            assert(l > i ==> row_le(a[i], a[l]));
            if l == i {
                assert(a[i] == b[i]);
            } else {
                lemma_row_antisymmetric(a[i], b[i]);
            }
        }
    }
}

proof fn lemma_row_antisymmetric(a: (Seq<char>, usize), b: (Seq<char>, usize))
    requires
        row_le(a, b),
        row_le(b, a),
    ensures
        a == b,
{
    crate::strings::lemma_char_order();
    crate::order::lex_antisymmetric(a.0, b.0, crate::strings::char_lt());
}

/// The rows of a table by magnitude: those that occur, in ascending order.
pub open spec fn magnitude_rows(counts: Seq<usize>, unit: Seq<char>) -> Seq<(Seq<char>, usize)>
    decreases counts.len(),
{
    if counts.len() == 0 {
        Seq::empty()
    } else {
        let front = magnitude_rows(counts.drop_last(), unit);
        if counts.last() > 0 {
            front.push((bucket_label((counts.len() - 1) as usize, unit), counts.last()))
        } else {
            front
        }
    }
}

/// The rows of a table by magnitude.
pub fn rows_magnitude(counts: &Vec<usize>, unit: &str) -> (r: Vec<(String, usize)>)
    ensures
        views(r@) == magnitude_rows(counts@, unit@),
{
    let mut r: Vec<(String, usize)> = Vec::new();
    for i in 0..counts.len()
        invariant
            views(r@) == magnitude_rows(counts@.take(i as int), unit@),
    {
        assert(counts@.take(i as int + 1).drop_last() =~= counts@.take(i as int));
        if counts[i] > 0 {
            let ghost was = views(r@);
            let t: String = label(i, unit);
            let ghost row = (t@, counts@[i as int]);
            r.push((t, counts[i]));
            assert(views(r@) =~= was.push(row));
        }
    }
    assert(counts@.take(counts@.len() as int) =~= counts@);
    r
}

// ---- tables ----

/// The width of the first column.
pub open spec fn value_width(label: Seq<char>, rows: Seq<(Seq<char>, usize)>) -> nat
    decreases rows.len(),
{
    if rows.len() == 0 {
        byte_len(label)
    } else {
        let w = value_width(label, rows.drop_last());
        let n = byte_len(rows.last().0);
        if n > w {
            n
        } else {
            w
        }
    }
}

/// The width of the second column.
pub open spec fn count_width(rows: Seq<(Seq<char>, usize)>) -> nat
    decreases rows.len(),
{
    if rows.len() == 0 {
        5
    } else {
        let w = count_width(rows.drop_last());
        let n = dec(rows.last().1 as nat).len();
        if n > w {
            n
        } else {
            w
        }
    }
}

/// One line of a table: the first column aligned left, the second right.
pub open spec fn table_line(v: Seq<char>, c: Seq<char>, vw: nat, cw: nat) -> Seq<char> {
    "  "@ + pad_right(v, vw) + "  "@ + pad_left(c, cw, ' ') + "\n"@
}

/// The lines of the rows of a table.
pub open spec fn row_lines(rows: Seq<(Seq<char>, usize)>, vw: nat, cw: nat) -> Seq<char>
    decreases rows.len(),
{
    if rows.len() == 0 {
        Seq::empty()
    } else {
        row_lines(rows.drop_last(), vw, cw) + table_line(
            rows.last().0,
            dec(rows.last().1 as nat),
            vw,
            cw,
        )
    }
}

/// A table: its title, its heading, and its rows.
pub open spec fn table_text(label: Seq<char>, rows: Seq<(Seq<char>, usize)>) -> Seq<char> {
    let vw = value_width(label, rows);
    let cw = count_width(rows);
    "By "@ + label + ":\n"@ + table_line(label, "count"@, vw, cw) + row_lines(rows, vw, cw)
}

fn push_line(out: &mut String, v: &str, c: &str, vw: usize, cw: usize)
    ensures
        final(out)@ == old(out)@ + table_line(v@, c@, vw as nat, cw as nat),
{
    let a: String = padded_right(v, vw);
    let b: String = padded_left(c, cw, ' ');
    out.append("  ");
    out.append(a.as_str());
    out.append("  ");
    out.append(b.as_str());
    out.append("\n");
    assert(out@ =~= old(out)@ + table_line(v@, c@, vw as nat, cw as nat));
}

/// Appends a table to `out`; `rows` are in the order in which they are shown.
pub fn render_table(out: &mut String, label: &str, rows: &Vec<(String, usize)>)
    ensures
        final(out)@ == old(out)@ + table_text(label@, views(rows@)),
{
    let ghost all = views(rows@);
    let mut vw: usize = label.as_bytes().len();
    let mut cw: usize = 5;
    for i in 0..rows.len()
        invariant
            all == views(rows@),
            vw == value_width(label@, all.take(i as int)),
            cw == count_width(all.take(i as int)),
    {
        assert(all.take(i as int + 1).drop_last() =~= all.take(i as int));
        assert(all[i as int] == (rows@[i as int].0@, rows@[i as int].1));
        let n: usize = rows[i].0.as_str().as_bytes().len();
        if n > vw {
            vw = n;
        }
        let d: String = decimal(rows[i].1 as u64);
        let k: usize = d.as_str().unicode_len();
        if k > cw {
            cw = k;
        }
    }
    assert(all.take(all.len() as int) =~= all);
    out.append("By ");
    out.append(label);
    out.append(":\n");
    push_line(out, label, "count", vw, cw);
    let ghost head = out@;
    for i in 0..rows.len()
        invariant
            all == views(rows@),
            out@ == head + row_lines(all.take(i as int), vw as nat, cw as nat),
    {
        assert(all.take(i as int + 1).drop_last() =~= all.take(i as int));
        assert(all[i as int] == (rows@[i as int].0@, rows@[i as int].1));
        let ghost before = out@;
        let d: String = decimal(rows[i].1 as u64);
        push_line(out, rows[i].0.as_str(), d.as_str(), vw, cw);
        assert(out@ =~= head + row_lines(all.take(i as int + 1), vw as nat, cw as nat));
    }
    assert(all.take(all.len() as int) =~= all);
    assert(out@ =~= old(out)@ + table_text(label@, all));
}

// ---- the report ----

/// The counts by duration.
pub open spec fn duration_counts(seen: Seq<StatInfo>) -> Seq<usize> {
    Seq::new(BUCKETS as nat, |i: int| duration_count(seen, i) as usize)
}

/// The counts by bitrate.
pub open spec fn bitrate_counts(seen: Seq<StatInfo>) -> Seq<usize> {
    Seq::new(BUCKETS as nat, |i: int| bitrate_count(seen, Some(i as usize)) as usize)
}

/// The rows of the bitrate table: those that are known by magnitude, and then
/// the ones that are not.
pub open spec fn bitrate_rows(seen: Seq<StatInfo>) -> Seq<(Seq<char>, usize)> {
    let rows = magnitude_rows(bitrate_counts(seen), "Mbps"@);
    let unknown = bitrate_count(seen, None);
    if unknown > 0 {
        rows.push((unknown_label(), unknown as usize))
    } else {
        rows
    }
}

/// The whole report.
pub open spec fn report(seen: Seq<StatInfo>) -> Seq<char> {
    "Statistics for "@ + dec(seen.len()) + " video(s)\n\n"@ + table_text(
        "extension"@,
        falling_rows(exts(seen)),
    ) + "\n"@ + table_text("resolution"@, falling_rows(resolutions(seen))) + "\n"@ + table_text(
        "video codec"@,
        falling_rows(video_codecs(seen)),
    ) + "\n"@ + table_text("audio codec"@, falling_rows(audio_codecs(seen))) + "\n"@ + table_text(
        "duration"@,
        magnitude_rows(duration_counts(seen), "min"@),
    ) + "\n"@ + table_text("bitrate"@, bitrate_rows(seen))
}

/// The rows of a tally, the biggest count first.
fn falling(t: &Tally, keys: Ghost<Seq<Seq<char>>>) -> (r: Vec<(String, usize)>)
    requires
        t@ == keys@.to_multiset(),
    ensures
        views(r@) == falling_rows(keys@),
        sum_counts(views(r@)) == keys@.len(),
{
    let r: Vec<(String, usize)> = rows_count_desc(t);
    proof {
        let rows = views(r@);
        let m = keys@.to_multiset();
        assert(lists(rows, m) && counts_fall(rows));
        lemma_rows_unique(rows, falling_rows(keys@), m);
        law_rows_add_up(rows, m);
        keys@.to_multiset_ensures();
    }
    r
}

impl Stats {
    /// The report as plain text: how many videos there are, and a table for
    /// each dimension.
    pub fn render(&self) -> (r: String)
        ensures
            r@ == report(self@),
    {
        proof {
            use_type_invariant(self);
            lemma_count_bounds(self@);
            assert(self.by_duration@ =~= duration_counts(self@));
            assert(self.by_bitrate@ =~= bitrate_counts(self@));
        }
        let by_ext: Vec<(String, usize)> = falling(&self.by_ext, Ghost(exts(self@)));
        let n: usize = total(&by_ext);
        let mut out: String = "Statistics for ".to_owned();
        let count: String = decimal(n as u64);
        out.append(count.as_str());
        out.append(" video(s)\n\n");
        render_table(&mut out, "extension", &by_ext);
        out.append("\n");
        let rows: Vec<(String, usize)> = falling(&self.by_resolution, Ghost(resolutions(self@)));
        render_table(&mut out, "resolution", &rows);
        out.append("\n");
        let rows: Vec<(String, usize)> = falling(&self.by_video_codec, Ghost(video_codecs(self@)));
        render_table(&mut out, "video codec", &rows);
        out.append("\n");
        let rows: Vec<(String, usize)> = falling(&self.by_audio_codec, Ghost(audio_codecs(self@)));
        render_table(&mut out, "audio codec", &rows);
        out.append("\n");
        let rows: Vec<(String, usize)> = rows_magnitude(&self.by_duration, "min");
        render_table(&mut out, "duration", &rows);
        out.append("\n");
        let mut rows: Vec<(String, usize)> = rows_magnitude(&self.by_bitrate, "Mbps");
        if self.bitrate_unknown > 0 {
            let ghost was = views(rows@);
            rows.push(("(unknown)".to_owned(), self.bitrate_unknown));
            assert(views(rows@) =~= was.push((unknown_label(), self.bitrate_unknown)));
        }
        render_table(&mut out, "bitrate", &rows);
        out
    }
}

impl Default for Stats {
    /// The counts over no videos.
    fn default() -> (r: Stats)
        ensures
            r@ == Seq::<StatInfo>::empty(),
    {
        Stats::new()
    }
}

// ---- laws ----

/// Some listing of the keys, in no particular order.
proof fn lemma_listing(keys: Seq<Seq<char>>) -> (rows: Seq<(Seq<char>, usize)>)
    requires
        keys.len() <= usize::MAX,
    ensures
        lists(rows, keys.to_multiset()),
    decreases keys.len(),
{
    broadcast use vstd::multiset::group_multiset_axioms;

    keys.to_multiset_ensures();
    if keys.len() == 0 {
        let rows: Seq<(Seq<char>, usize)> = Seq::empty();
        assert forall|k: Seq<char>| #[trigger] keys.to_multiset().count(k) > 0 implies false by {
            assert(keys.contains(k));
        }
        rows
    } else {
        let front = keys.drop_last();
        let key = keys.last();
        let before = lemma_listing(front);
        let m = front.to_multiset();
        lemma_keys_push(front, key);
        assert(keys =~= front.push(key));
        assert(keys.to_multiset() == m.insert(key));
        if exists|i: int| 0 <= i < before.len() && (#[trigger] before[i]).0 == key {
            let i = choose|i: int| 0 <= i < before.len() && (#[trigger] before[i]).0 == key;
            let rows = before.update(i, (key, (before[i].1 + 1) as usize));
            assert forall|k: Seq<char>| #[trigger] m.insert(key).count(k) > 0 implies exists|j: int|
                0 <= j < rows.len() && (#[trigger] rows[j]).0 == k by {
                if k == key {
                    assert(rows[i].0 == k);
                } else {
                    assert(m.count(k) > 0);
                    let j = choose|j: int| 0 <= j < before.len() && (#[trigger] before[j]).0 == k;
                    assert(rows[j].0 == k);
                }
            }
            assert forall|j: int| 0 <= j < rows.len() implies (#[trigger] rows[j]).1 > 0 && rows[j].1
                == m.insert(key).count(rows[j].0) by {
                assert(before[j].1 == m.count(before[j].0));
                if j != i {
                    assert(before[j].0 != before[i].0);
                }
            }
            rows
        } else {
            let rows = before.push((key, 1usize));
            assert(m.count(key) == 0);
            assert forall|k: Seq<char>| #[trigger] m.insert(key).count(k) > 0 implies exists|j: int|
                0 <= j < rows.len() && (#[trigger] rows[j]).0 == k by {
                if k == key {
                    assert(rows[before.len() as int].0 == k);
                } else {
                    assert(m.count(k) > 0);
                    let j = choose|j: int| 0 <= j < before.len() && (#[trigger] before[j]).0 == k;
                    assert(rows[j].0 == k);
                }
            }
            assert forall|j: int| 0 <= j < rows.len() implies (#[trigger] rows[j]).1 > 0 && rows[j].1
                == m.insert(key).count(rows[j].0) by {
                if j < before.len() {
                    assert(rows[j] == before[j]);
                }
            }
            rows
        }
    }
}

proof fn lemma_row_order()
    ensures
        vstd::relations::total_ordering(|a: (Seq<char>, usize), b: (Seq<char>, usize)| row_le(a, b)),
{
    let leq = |a: (Seq<char>, usize), b: (Seq<char>, usize)| row_le(a, b);
    assert forall|a: (Seq<char>, usize), b: (Seq<char>, usize)|
        #[trigger] leq(a, b) || #[trigger] leq(b, a) by {
        <(String, usize)>::le_total(a, b);
    }
    assert forall|a: (Seq<char>, usize)| #[trigger] leq(a, a) by {
        <(String, usize)>::le_total(a, a);
    }
    assert forall|a: (Seq<char>, usize), b: (Seq<char>, usize)|
        #[trigger] leq(a, b) && #[trigger] leq(b, a) implies a == b by {
        lemma_row_antisymmetric(a, b);
    }
    assert forall|a: (Seq<char>, usize), b: (Seq<char>, usize), c: (Seq<char>, usize)|
        #[trigger] leq(a, b) && #[trigger] leq(b, c) implies leq(a, c) by {
        <(String, usize)>::le_transitive(a, b, c);
    }
}

/// The rows of a table that lists the biggest count first hold every key once,
/// with its count, in falling order of the counts and, where those agree, in
/// ascending order of the keys; and the counts add up to the number of keys.
pub proof fn law_falling_rows(keys: Seq<Seq<char>>)
    requires
        keys.len() <= usize::MAX,
    ensures
        lists(falling_rows(keys), keys.to_multiset()),
        counts_fall(falling_rows(keys)),
        sum_counts(falling_rows(keys)) == keys.len(),
{
    let m = keys.to_multiset();
    let leq = |a: (Seq<char>, usize), b: (Seq<char>, usize)| row_le(a, b);
    let rows = lemma_listing(keys);
    let listed = rows.sort_by(leq);
    lemma_row_order();
    rows.lemma_sort_by_ensures(leq);
    assert forall|i: int, j: int| 0 <= i <= j < listed.len() implies row_le(
        #[trigger] listed[i],
        #[trigger] listed[j],
    ) by {
        if i == j {
            <(String, usize)>::le_total(listed[i], listed[j]);
        } else {
            assert(leq(listed[i], listed[j]));
        }
    }
    lemma_lists_sorted(rows, listed, m);
    law_rows_add_up(falling_rows(keys), m);
    keys.to_multiset_ensures();
}

/// The sum of a list of counts.
pub open spec fn sum_of(counts: Seq<usize>) -> nat
    decreases counts.len(),
{
    if counts.len() == 0 {
        0
    } else {
        sum_of(counts.drop_last()) + counts.last() as nat
    }
}

/// Leaving out the magnitudes that do not occur leaves out no video.
proof fn lemma_magnitudes_add_up(counts: Seq<usize>, unit: Seq<char>)
    ensures
        sum_counts(magnitude_rows(counts, unit)) == sum_of(counts),
    decreases counts.len(),
{
    if counts.len() > 0 {
        lemma_magnitudes_add_up(counts.drop_last(), unit);
        let rows = magnitude_rows(counts, unit);
        if counts.last() > 0 {
            assert(rows.drop_last() =~= magnitude_rows(counts.drop_last(), unit));
        }
    }
}

/// Adding up the first `k` counts by duration, one video more or less.
proof fn lemma_duration_sum(seen: Seq<StatInfo>, k: int)
    requires
        0 <= k <= BUCKETS,
        seen.len() <= usize::MAX,
        forall|i: int| 0 <= i < seen.len() ==> in_range(#[trigger] seen[i]),
    ensures
        seen.len() == 0 ==> sum_of(duration_counts(seen).take(k)) == 0,
        seen.len() > 0 ==> sum_of(duration_counts(seen).take(k)) == sum_of(
            duration_counts(seen.drop_last()).take(k),
        ) + if seen.last().duration_bucket < k {
            1nat
        } else {
            0nat
        },
    decreases k,
{
    lemma_count_bounds(seen);
    if seen.len() > 0 {
        lemma_count_bounds(seen.drop_last());
    }
    if k > 0 {
        lemma_duration_sum(seen, k - 1);
        let c = duration_counts(seen);
        assert(c.take(k).drop_last() =~= c.take(k - 1));
        if seen.len() > 0 {
            let d = duration_counts(seen.drop_last());
            assert(d.take(k).drop_last() =~= d.take(k - 1));
        }
    }
}

/// Adding up the first `k` counts by bitrate, one video more or less.
proof fn lemma_bitrate_sum(seen: Seq<StatInfo>, k: int)
    requires
        0 <= k <= BUCKETS,
        seen.len() <= usize::MAX,
        forall|i: int| 0 <= i < seen.len() ==> in_range(#[trigger] seen[i]),
    ensures
        seen.len() == 0 ==> sum_of(bitrate_counts(seen).take(k)) == 0,
        seen.len() > 0 ==> sum_of(bitrate_counts(seen).take(k)) == sum_of(
            bitrate_counts(seen.drop_last()).take(k),
        ) + if seen.last().bitrate_bucket matches Some(i) && i < k {
            1nat
        } else {
            0nat
        },
    decreases k,
{
    lemma_count_bounds(seen);
    if seen.len() > 0 {
        lemma_count_bounds(seen.drop_last());
    }
    if k > 0 {
        lemma_bitrate_sum(seen, k - 1);
        let c = bitrate_counts(seen);
        assert(c.take(k).drop_last() =~= c.take(k - 1));
        if seen.len() > 0 {
            let d = bitrate_counts(seen.drop_last());
            assert(d.take(k).drop_last() =~= d.take(k - 1));
        }
    }
}

proof fn lemma_magnitude_totals(seen: Seq<StatInfo>)
    requires
        seen.len() <= usize::MAX,
        forall|i: int| 0 <= i < seen.len() ==> in_range(#[trigger] seen[i]),
    ensures
        sum_of(duration_counts(seen)) == seen.len(),
        sum_of(bitrate_counts(seen)) + bitrate_count(seen, None) == seen.len(),
    decreases seen.len(),
{
    let k = BUCKETS as int;
    lemma_duration_sum(seen, k);
    lemma_bitrate_sum(seen, k);
    assert(duration_counts(seen).take(k) =~= duration_counts(seen));
    assert(bitrate_counts(seen).take(k) =~= bitrate_counts(seen));
    if seen.len() > 0 {
        let front = seen.drop_last();
        assert forall|i: int| 0 <= i < front.len() implies in_range(#[trigger] front[i]) by {
            assert(front[i] == seen[i]);
        }
        lemma_magnitude_totals(front);
        assert(duration_counts(front).take(k) =~= duration_counts(front));
        assert(bitrate_counts(front).take(k) =~= bitrate_counts(front));
        assert(in_range(seen[seen.len() - 1]));
    }
}

/// Every table of the report accounts for every video: the counts of each add
/// up to the number in its first line.
pub proof fn law_every_table_adds_up(seen: Seq<StatInfo>)
    requires
        seen.len() <= usize::MAX,
        forall|i: int| 0 <= i < seen.len() ==> in_range(#[trigger] seen[i]),
    ensures
        sum_counts(falling_rows(exts(seen))) == seen.len(),
        sum_counts(falling_rows(resolutions(seen))) == seen.len(),
        sum_counts(falling_rows(video_codecs(seen))) == seen.len(),
        sum_counts(falling_rows(audio_codecs(seen))) == seen.len(),
        sum_counts(magnitude_rows(duration_counts(seen), "min"@)) == seen.len(),
        sum_counts(bitrate_rows(seen)) == seen.len(),
{
    law_falling_rows(exts(seen));
    law_falling_rows(resolutions(seen));
    law_falling_rows(video_codecs(seen));
    law_falling_rows(audio_codecs(seen));
    lemma_magnitudes_add_up(duration_counts(seen), "min"@);
    lemma_magnitudes_add_up(bitrate_counts(seen), "Mbps"@);
    lemma_magnitude_totals(seen);
    lemma_count_bounds(seen);
    let rows = magnitude_rows(bitrate_counts(seen), "Mbps"@);
    let unknown = bitrate_count(seen, None);
    if unknown > 0 {
        assert(bitrate_rows(seen).drop_last() =~= rows);
    }
}

/// A text has at most as many characters as bytes.
proof fn lemma_chars_fit(s: Seq<char>)
    ensures
        s.len() <= byte_len(s),
    decreases s.len(),
{
    if s.len() > 0 {
        lemma_chars_fit(s.drop_first());
        assert(vstd::utf8::encode_scalar(s[0] as u32).len() > 0);
    }
}

/// No entry of a table is wider than its column.
proof fn lemma_columns_hold(label: Seq<char>, rows: Seq<(Seq<char>, usize)>, i: int)
    requires
        0 <= i < rows.len(),
    ensures
        byte_len(rows[i].0) <= value_width(label, rows),
        dec(rows[i].1 as nat).len() <= count_width(rows),
    decreases rows.len(),
{
    if i < rows.len() - 1 {
        assert(rows.drop_last()[i] == rows[i]);
        lemma_columns_hold(label, rows.drop_last(), i);
    }
}

proof fn lemma_heading_holds(label: Seq<char>, rows: Seq<(Seq<char>, usize)>)
    ensures
        byte_len(label) <= value_width(label, rows),
        5 <= count_width(rows),
    decreases rows.len(),
{
    if rows.len() > 0 {
        lemma_heading_holds(label, rows.drop_last());
    }
}

/// The lines of a table line up: each row has as many characters as the
/// heading.
pub proof fn law_lines_align(label: Seq<char>, rows: Seq<(Seq<char>, usize)>, i: int)
    requires
        0 <= i < rows.len(),
    ensures
        table_line(
            rows[i].0,
            dec(rows[i].1 as nat),
            value_width(label, rows),
            count_width(rows),
        ).len() == table_line(label, "count"@, value_width(label, rows), count_width(rows)).len(),
{
    lemma_columns_hold(label, rows, i);
    lemma_heading_holds(label, rows);
    lemma_chars_fit(rows[i].0);
    lemma_chars_fit(label);
    reveal_strlit("count");
}

/// The magnitudes are consecutive powers of two: what lies in the magnitude
/// `i` is at least half of its bound and below it, the first holding only
/// zero and the last everything from 1024 on.
pub proof fn law_magnitudes(v: nat, i: nat)
    ensures
        bucket_of(v) < BUCKETS,
        bucket_of(v) == 0 <==> v < 1,
        0 < i < BUCKETS - 1 ==> (bucket_of(v) == i <==> pow2((i - 1) as nat) <= v < pow2(i)),
        bucket_of(v) == BUCKETS - 1 <==> v >= 1024,
{
    reveal_with_fuel(bucket_from, 13);
    lemma2_to64();
}

// ---- what is counted, and how it is shown ----

/// The label of a magnitude tells its bounds: each but the first and the last
/// reads as its two powers of two with a dash between them.
pub proof fn law_labels_tell_the_bounds(i: usize, unit: Seq<char>)
    requires
        i < BUCKETS,
    ensures
        i == 0 ==> bucket_label(i, unit) == "<1"@ + " "@ + unit,
        0 < i < BUCKETS - 1 ==> bucket_label(i, unit) == dec(pow2((i - 1) as nat)) + "-"@ + dec(
            pow2(i as nat),
        ) + " "@ + unit,
        i == BUCKETS - 1 ==> bucket_label(i, unit) == dec(pow2((i - 1) as nat)) + "+"@ + " "@ + unit,
{
    lemma2_to64();
    lemma_powers_in_decimal();
    reveal_strlit("-");
    reveal_strlit("+");
    if i == 1 {
        reveal_strlit("1-2");
        assert(span_text(i) =~= dec(1) + "-"@ + dec(2));
    } else if i == 2 {
        reveal_strlit("2-4");
        assert(span_text(i) =~= dec(2) + "-"@ + dec(4));
    } else if i == 3 {
        reveal_strlit("4-8");
        assert(span_text(i) =~= dec(4) + "-"@ + dec(8));
    } else if i == 4 {
        reveal_strlit("8-16");
        assert(span_text(i) =~= dec(8) + "-"@ + dec(16));
    } else if i == 5 {
        reveal_strlit("16-32");
        assert(span_text(i) =~= dec(16) + "-"@ + dec(32));
    } else if i == 6 {
        reveal_strlit("32-64");
        assert(span_text(i) =~= dec(32) + "-"@ + dec(64));
    } else if i == 7 {
        reveal_strlit("64-128");
        assert(span_text(i) =~= dec(64) + "-"@ + dec(128));
    } else if i == 8 {
        reveal_strlit("128-256");
        assert(span_text(i) =~= dec(128) + "-"@ + dec(256));
    } else if i == 9 {
        reveal_strlit("256-512");
        assert(span_text(i) =~= dec(256) + "-"@ + dec(512));
    } else if i == 10 {
        reveal_strlit("512-1024");
        assert(span_text(i) =~= dec(512) + "-"@ + dec(1024));
    } else if i == 11 {
        reveal_strlit("1024+");
        assert(span_text(i) =~= dec(1024) + "+"@);
    }
}

proof fn lemma_powers_in_decimal()
    ensures
        dec(1) == seq!['1'],
        dec(2) == seq!['2'],
        dec(4) == seq!['4'],
        dec(8) == seq!['8'],
        dec(16) == seq!['1', '6'],
        dec(32) == seq!['3', '2'],
        dec(64) == seq!['6', '4'],
        dec(128) == seq!['1', '2', '8'],
        dec(256) == seq!['2', '5', '6'],
        dec(512) == seq!['5', '1', '2'],
        dec(1024) == seq!['1', '0', '2', '4'],
{
    assert(dec(3) =~= seq!['3']);
    assert(dec(5) =~= seq!['5']);
    assert(dec(6) =~= seq!['6']);
    assert(dec(10) =~= dec(1).push('0'));
    assert(dec(12) =~= dec(1).push('2'));
    assert(dec(25) =~= dec(2).push('5'));
    assert(dec(51) =~= dec(5).push('1'));
    assert(dec(102) =~= dec(10).push('2'));
    assert(dec(16) =~= dec(1).push('6'));
    assert(dec(32) =~= dec(3).push('2'));
    assert(dec(64) =~= dec(6).push('4'));
    assert(dec(128) =~= dec(12).push('8'));
    assert(dec(256) =~= dec(25).push('6'));
    assert(dec(512) =~= dec(51).push('2'));
    assert(dec(1024) =~= dec(102).push('4'));
}

/// A video is counted under its own extension, picture size and codecs. A
/// video without an audio stream is counted as `(none)` there, and whatever
/// else is not known as `(unknown)`.
pub proof fn law_what_a_video_is_counted_under(src: Seq<Part>, m: MetaInfo)
    ensures
        ({
            let s = stat_info(src, m);
            &&& ext_text(src) is Some && ext_text(src)->0.len() > 0 ==> s.ext == ext_text(src)->0
            &&& ext_text(src) is None || ext_text(src)->0.len() == 0 ==> s.ext == "(unknown)"@
            &&& m.video.width > 0 && m.video.height > 0 ==> s.resolution == dec(
                m.video.width as nat,
            ).push('x') + dec(m.video.height as nat)
            &&& m.video.width == 0 || m.video.height == 0 ==> s.resolution == "(unknown)"@
            &&& m.video.codec is Some && m.video.codec->0.len() > 0 ==> s.video_codec
                == m.video.codec->0
            &&& m.video.codec is None || m.video.codec->0.len() == 0 ==> s.video_codec
                == "(unknown)"@
            &&& m.audio is None ==> s.audio_codec == "(none)"@
            &&& m.audio is Some && m.audio->0.codec is Some && m.audio->0.codec->0.len() > 0
                ==> s.audio_codec == m.audio->0.codec->0
            &&& m.audio is Some && (m.audio->0.codec is None || m.audio->0.codec->0.len() == 0)
                ==> s.audio_codec == "(unknown)"@
        }),
{
    reveal_strlit("x");
    let w = dec(m.video.width as nat);
    let h = dec(m.video.height as nat);
    assert(w + "x"@ + h =~= w.push('x') + h);
}

/// A duration is counted in the magnitude in which its minutes lie: less than
/// one, from one to two, from two to four and so on, and 1024 or more.
pub proof fn law_duration_magnitude(src: Seq<Part>, m: MetaInfo, i: nat)
    ensures
        ({
            let b = stat_info(src, m).duration_bucket;
            let t = m.duration.minutes;
            &&& b < BUCKETS
            &&& b == 0 <==> t < 1
            &&& 0 < i < BUCKETS - 1 ==> (b == i <==> pow2((i - 1) as nat) <= t < pow2(i))
            &&& b == BUCKETS - 1 <==> t >= 1024
        }),
{
    lemma2_to64();
    if m.duration.minutes >= 0 {
        law_magnitudes(m.duration.minutes as nat, i);
    }
    if 0 < i < BUCKETS - 1 {
        vstd::arithmetic::power2::lemma_pow2_pos((i - 1) as nat);
    }
}

/// A rate is counted in the magnitude in which its millions of bits per second
/// lie. It is the rate of the container wherever that is known, whatever the
/// video stream tells, and only otherwise that of the stream; a rate of zero is
/// not known.
pub proof fn law_bitrate_magnitude(src: Seq<Part>, m: MetaInfo, b: u64, i: nat)
    requires
        m.bit_rate == Some(b) || (m.bit_rate is None && m.video.bit_rate == Some(b)),
    ensures
        ({
            let k = stat_info(src, m).bitrate_bucket;
            &&& b == 0 ==> k is None
            &&& b > 0 ==> k is Some && k->0 < BUCKETS
            &&& b > 0 ==> (k == Some(0usize) <==> b < 1_000_000)
            &&& b > 0 && 0 < i < BUCKETS - 1 ==> (k == Some(i as usize) <==> pow2((i - 1) as nat)
                * 1_000_000 <= b < pow2(i) * 1_000_000)
            &&& b > 0 ==> (k == Some((BUCKETS - 1) as usize) <==> b >= 1_024_000_000)
        }),
{
    law_container_rate_wins(m);
    let v = (b / 1_000_000) as nat;
    law_magnitudes(v, i);
    let lo = pow2((i - 1) as nat);
    let hi = pow2(i);
    assert(lo <= v <==> lo * 1_000_000 <= b);
    assert(v < hi <==> b < hi * 1_000_000);
}

/// A video of which neither the container nor the stream tells a rate is
/// counted as one whose rate is not known.
pub proof fn law_unknown_rates_are_counted_apart(src: Seq<Part>, m: MetaInfo)
    requires
        m.bit_rate is None,
        m.video.bit_rate is None,
    ensures
        stat_info(src, m).bitrate_bucket is None,
{
}

/// Every count by magnitude is the number of videos of that magnitude.
pub proof fn law_magnitudes_are_counted(seen: Seq<StatInfo>, i: int, k: Option<usize>)
    ensures
        duration_count(seen, i) == seen.filter(|s: StatInfo| s.duration_bucket == i).len(),
        bitrate_count(seen, k) == seen.filter(|s: StatInfo| s.bitrate_bucket == k).len(),
    decreases seen.len(),
{
    reveal(Seq::filter);
    if seen.len() > 0 {
        law_magnitudes_are_counted(seen.drop_last(), i, k);
    }
}

/// Every row of the first four tables tells how many videos have its value, and
/// every value that some video has gets a row; the bigger counts come first,
/// and equal counts in the order of the values.
pub proof fn law_tables_count_the_videos(seen: Seq<StatInfo>, v: Seq<char>)
    requires
        seen.len() <= usize::MAX,
    ensures
        ({
            let n = seen.filter(|s: StatInfo| s.ext == v).len();
            n > 0 ==> falling_rows(exts(seen)).contains((v, n as usize))
        }),
        ({
            let n = seen.filter(|s: StatInfo| s.resolution == v).len();
            n > 0 ==> falling_rows(resolutions(seen)).contains((v, n as usize))
        }),
        ({
            let n = seen.filter(|s: StatInfo| s.video_codec == v).len();
            n > 0 ==> falling_rows(video_codecs(seen)).contains((v, n as usize))
        }),
        ({
            let n = seen.filter(|s: StatInfo| s.audio_codec == v).len();
            n > 0 ==> falling_rows(audio_codecs(seen)).contains((v, n as usize))
        }),
{
    lemma_map_count(seen, |s: StatInfo| s.ext, v, |s: StatInfo| s.ext == v);
    lemma_map_count(seen, |s: StatInfo| s.resolution, v, |s: StatInfo| s.resolution == v);
    lemma_map_count(seen, |s: StatInfo| s.video_codec, v, |s: StatInfo| s.video_codec == v);
    lemma_map_count(seen, |s: StatInfo| s.audio_codec, v, |s: StatInfo| s.audio_codec == v);
    lemma_row_of(exts(seen), v);
    lemma_row_of(resolutions(seen), v);
    lemma_row_of(video_codecs(seen), v);
    lemma_row_of(audio_codecs(seen), v);
}

proof fn lemma_row_of(keys: Seq<Seq<char>>, v: Seq<char>)
    requires
        keys.len() <= usize::MAX,
    ensures
        keys.to_multiset().count(v) > 0 ==> falling_rows(keys).contains(
            (v, keys.to_multiset().count(v) as usize),
        ),
{
    law_falling_rows(keys);
    let rows = falling_rows(keys);
    if keys.to_multiset().count(v) > 0 {
        let i = choose|i: int| 0 <= i < rows.len() && (#[trigger] rows[i]).0 == v;
        law_rows_tell_every_count(rows, keys.to_multiset(), v, i, i);
    }
}

/// A table lists the biggest count first, each value once, and values with
/// equal counts in ascending order.
pub proof fn law_biggest_count_first(keys: Seq<Seq<char>>, i: int, j: int)
    requires
        keys.len() <= usize::MAX,
        0 <= i < j < falling_rows(keys).len(),
    ensures
        falling_rows(keys)[i].1 >= falling_rows(keys)[j].1,
        falling_rows(keys)[i].0 != falling_rows(keys)[j].0,
        falling_rows(keys)[i].1 == falling_rows(keys)[j].1 ==> text_le(
            falling_rows(keys)[i].0,
            falling_rows(keys)[j].0,
        ),
        falling_rows(keys)[j].1 > 0,
{
    law_falling_rows(keys);
    let rows = falling_rows(keys);
    assert(row_le(rows[i], rows[j]));
    law_rows_tell_every_count(rows, keys.to_multiset(), rows[i].0, i, j);
    law_rows_tell_every_count(rows, keys.to_multiset(), rows[j].0, j, i);
}

/// A table by magnitude lists those that occur and no others, each with its
/// count, from the smallest to the largest.
pub proof fn law_magnitudes_are_listed_in_order(counts: Seq<usize>, unit: Seq<char>, k: int, l: int)
    requires
        0 <= k < l < magnitude_rows(counts, unit).len(),
    ensures
        exists|i: int, j: int|
            0 <= i < j < counts.len() && #[trigger] counts[i] > 0 && #[trigger] counts[j] > 0
                && magnitude_rows(counts, unit)[k] == (bucket_label(i as usize, unit), counts[i])
                && magnitude_rows(counts, unit)[l] == (bucket_label(j as usize, unit), counts[j]),
    decreases counts.len(),
{
    let n = counts.len() - 1;
    let c = counts.drop_last();
    let front = magnitude_rows(c, unit);
    let rows = magnitude_rows(counts, unit);
    if l < front.len() {
        law_magnitudes_are_listed_in_order(c, unit, k, l);
        let (i, j) = choose|i: int, j: int|
            0 <= i < j < c.len() && #[trigger] c[i] > 0 && #[trigger] c[j] > 0 && front[k] == (
                bucket_label(i as usize, unit),
                c[i],
            ) && front[l] == (bucket_label(j as usize, unit), c[j]);
        assert(counts[i] == c[i] && counts[j] == c[j]);
        assert(rows[k] == front[k] && rows[l] == front[l]);
    } else {
        let i = lemma_magnitude_of(c, unit, k);
        assert(counts[i] == c[i]);
        assert(rows[k] == front[k]);
        assert(counts[n] > 0);
    }
}

proof fn lemma_magnitude_of(counts: Seq<usize>, unit: Seq<char>, k: int) -> (i: int)
    requires
        0 <= k < magnitude_rows(counts, unit).len(),
    ensures
        0 <= i < counts.len(),
        counts[i] > 0,
        magnitude_rows(counts, unit)[k] == (bucket_label(i as usize, unit), counts[i]),
    decreases counts.len(),
{
    let c = counts.drop_last();
    let front = magnitude_rows(c, unit);
    if k < front.len() {
        let i = lemma_magnitude_of(c, unit, k);
        assert(counts[i] == c[i]);
        i
    } else {
        counts.len() - 1
    }
}

/// Every magnitude that occurs has its row.
pub proof fn law_every_magnitude_is_listed(counts: Seq<usize>, unit: Seq<char>, i: int)
    requires
        0 <= i < counts.len(),
        counts[i] > 0,
    ensures
        magnitude_rows(counts, unit).contains((bucket_label(i as usize, unit), counts[i])),
    decreases counts.len(),
{
    let n = counts.len() - 1;
    let c = counts.drop_last();
    let front = magnitude_rows(c, unit);
    let rows = magnitude_rows(counts, unit);
    if i < n {
        law_every_magnitude_is_listed(c, unit, i);
        let row = (bucket_label(i as usize, unit), counts[i]);
        let k = front.index_of(row);
        assert(rows[k] == row);
    } else {
        assert(rows[front.len() as int] == (bucket_label(i as usize, unit), counts[i]));
    }
}

/// The statistics cover every video of which something is known, in the order
/// of the videos, and no other; where all are known, each is counted.
pub proof fn law_statistics_cover_every_known_video(
    videos: Seq<Seq<Part>>,
    known: Map<Seq<Part>, MetaInfo>,
)
    ensures
        known_stats(videos, known) == videos.filter(
            |v: Seq<Part>| known.contains_key(v),
        ).map_values(|v: Seq<Part>| stat_info(v, known[v])),
        (forall|i: int| 0 <= i < videos.len() ==> known.contains_key(#[trigger] videos[i]))
            ==> known_stats(videos, known).len() == videos.len() && forall|i: int|
            0 <= i < videos.len() ==> #[trigger] known_stats(videos, known)[i] == stat_info(
                videos[i],
                known[videos[i]],
            ),
    decreases videos.len(),
{
    reveal(Seq::filter);
    let p = |v: Seq<Part>| known.contains_key(v);
    let f = |v: Seq<Part>| stat_info(v, known[v]);
    if videos.len() > 0 {
        let front = videos.drop_last();
        let last = videos.last();
        law_statistics_cover_every_known_video(front, known);
        assert(videos[videos.len() - 1] == last);
        if known.contains_key(last) {
            assert(videos.filter(p) == front.filter(p).push(last));
            assert(front.filter(p).push(last).map_values(f) =~= front.filter(p).map_values(f).push(
                f(last),
            ));
        }
        if forall|i: int| 0 <= i < videos.len() ==> known.contains_key(#[trigger] videos[i]) {
            assert forall|i: int| 0 <= i < front.len() implies known.contains_key(
                #[trigger] front[i],
            ) by {
                assert(front[i] == videos[i]);
            }
            assert forall|i: int| 0 <= i < videos.len() implies #[trigger] known_stats(
                videos,
                known,
            )[i] == stat_info(videos[i], known[videos[i]]) by {
                if i < front.len() {
                    assert(known_stats(front, known)[i] == stat_info(front[i], known[front[i]]));
                }
            }
        }
    } else {
        assert(videos.filter(p).map_values(f) =~= Seq::<StatInfo>::empty());
    }
}

/// The first column of a table is as wide as its widest entry, the heading
/// among them, and no wider; the second likewise, and at least as wide as its
/// heading.
pub proof fn law_columns_are_as_wide_as_needed(label: Seq<char>, rows: Seq<(Seq<char>, usize)>)
    ensures
        value_width(label, rows) >= byte_len(label),
        forall|i: int|
            0 <= i < rows.len() ==> value_width(label, rows) >= byte_len((#[trigger] rows[i]).0)
                && count_width(rows) >= dec(rows[i].1 as nat).len(),
        value_width(label, rows) == byte_len(label) || exists|i: int|
            0 <= i < rows.len() && value_width(label, rows) == byte_len((#[trigger] rows[i]).0),
        count_width(rows) >= 5,
        count_width(rows) == 5 || exists|i: int|
            0 <= i < rows.len() && count_width(rows) == dec((#[trigger] rows[i]).1 as nat).len(),
    decreases rows.len(),
{
    lemma_heading_holds(label, rows);
    assert forall|i: int| 0 <= i < rows.len() implies value_width(label, rows) >= byte_len(
        (#[trigger] rows[i]).0,
    ) && count_width(rows) >= dec(rows[i].1 as nat).len() by {
        lemma_columns_hold(label, rows, i);
    }
    if rows.len() > 0 {
        let front = rows.drop_last();
        law_columns_are_as_wide_as_needed(label, front);
        let n = rows.len() - 1;
        assert(rows[n] == rows.last());
        if value_width(label, rows) == value_width(label, front) && value_width(label, front)
            != byte_len(label) {
            let i = choose|i: int|
                0 <= i < front.len() && value_width(label, front) == byte_len(
                    (#[trigger] front[i]).0,
                );
            assert(rows[i] == front[i]);
        }
        if count_width(rows) == count_width(front) && count_width(front) != 5 {
            let i = choose|i: int|
                0 <= i < front.len() && count_width(front) == dec(
                    (#[trigger] front[i]).1 as nat,
                ).len();
            assert(rows[i] == front[i]);
        }
    }
}

/// A table has a title, a heading and a line for each of its rows, in their
/// order; two lists of rows one after the other give their lines one after the
/// other.
pub proof fn law_tables_show_every_row(
    a: Seq<(Seq<char>, usize)>,
    row: (Seq<char>, usize),
    b: Seq<(Seq<char>, usize)>,
    vw: nat,
    cw: nat,
)
    ensures
        row_lines(Seq::empty(), vw, cw) == Seq::<char>::empty(),
        row_lines(a + seq![row] + b, vw, cw) == row_lines(a, vw, cw) + table_line(
            row.0,
            dec(row.1 as nat),
            vw,
            cw,
        ) + row_lines(b, vw, cw),
    decreases b.len(),
{
    let all = a + seq![row] + b;
    if b.len() == 0 {
        assert(all =~= a.push(row));
        assert(all.drop_last() =~= a);
        assert(b =~= Seq::<(Seq<char>, usize)>::empty());
        assert(row_lines(all, vw, cw) =~= row_lines(a, vw, cw) + table_line(
            row.0,
            dec(row.1 as nat),
            vw,
            cw,
        ) + row_lines(b, vw, cw));
    } else {
        law_tables_show_every_row(a, row, b.drop_last(), vw, cw);
        assert(all.drop_last() =~= a + seq![row] + b.drop_last());
        assert(all.last() == b.last());
        assert(row_lines(all, vw, cw) =~= row_lines(a, vw, cw) + table_line(
            row.0,
            dec(row.1 as nat),
            vw,
            cw,
        ) + row_lines(b, vw, cw));
    }
}

/// A line of a table shows its value behind two spaces and its count at its
/// end, with nothing but spaces between them, two at least.
pub proof fn law_table_lines_show_value_and_count(v: Seq<char>, c: Seq<char>, vw: nat, cw: nat)
    ensures
        ("  "@ + v).is_prefix_of(table_line(v, c, vw, cw)),
        (c + "\n"@).is_suffix_of(table_line(v, c, vw, cw)),
        table_line(v, c, vw, cw).len() >= v.len() + c.len() + 5,
        v.len() <= vw && c.len() <= cw ==> table_line(v, c, vw, cw).len() == vw + cw + 5,
        forall|i: int|
            v.len() + 2 <= i < table_line(v, c, vw, cw).len() - 1 - c.len()
                ==> #[trigger] table_line(v, c, vw, cw)[i] == ' ',
{
    reveal_strlit("  ");
    reveal_strlit("\n");
    let line = table_line(v, c, vw, cw);
    let end = c + "\n"@;
    law_padding(v, vw, ' ');
    law_padding(c, cw, ' ');
    assert(line.take(("  "@ + v).len() as int) =~= "  "@ + v) by {
        let p = pad_right(v, vw);
        assert forall|i: int| 0 <= i < v.len() implies p[i] == v[i] by {}
    }
    assert(line.skip(line.len() - end.len()) =~= end) by {
        let p = pad_left(c, cw, ' ');
        assert forall|i: int| 0 <= i < c.len() implies p[p.len() - c.len() + i] == c[i] by {
            assert(p.skip(p.len() - c.len())[i] == c[i]);
        }
    }
}

/// The report begins with the number of videos and holds all six tables: by
/// extension, resolution, video codec, audio codec, duration and bitrate.
pub proof fn law_report_holds_every_table(seen: Seq<StatInfo>)
    ensures
        ("Statistics for "@ + dec(seen.len()) + " video(s)\n\n"@).is_prefix_of(report(seen)),
        holds(report(seen), table_text("extension"@, falling_rows(exts(seen)))),
        holds(report(seen), table_text("resolution"@, falling_rows(resolutions(seen)))),
        holds(report(seen), table_text("video codec"@, falling_rows(video_codecs(seen)))),
        holds(report(seen), table_text("audio codec"@, falling_rows(audio_codecs(seen)))),
        holds(
            report(seen),
            table_text("duration"@, magnitude_rows(duration_counts(seen), "min"@)),
        ),
        table_text("bitrate"@, bitrate_rows(seen)).is_suffix_of(report(seen)),
{
    lemma_six_parts(
        "Statistics for "@ + dec(seen.len()) + " video(s)\n\n"@,
        "\n"@,
        table_text("extension"@, falling_rows(exts(seen))),
        table_text("resolution"@, falling_rows(resolutions(seen))),
        table_text("video codec"@, falling_rows(video_codecs(seen))),
        table_text("audio codec"@, falling_rows(audio_codecs(seen))),
        table_text("duration"@, magnitude_rows(duration_counts(seen), "min"@)),
        table_text("bitrate"@, bitrate_rows(seen)),
    );
}

/// What stands in a text of a head and six parts.
proof fn lemma_six_parts(
    head: Seq<char>,
    gap: Seq<char>,
    a: Seq<char>,
    b: Seq<char>,
    c: Seq<char>,
    d: Seq<char>,
    e: Seq<char>,
    f: Seq<char>,
)
    ensures
        ({
            let t = head + a + gap + b + gap + c + gap + d + gap + e + gap + f;
            &&& head.is_prefix_of(t)
            &&& holds(t, a)
            &&& holds(t, b)
            &&& holds(t, c)
            &&& holds(t, d)
            &&& holds(t, e)
            &&& f.is_suffix_of(t)
        }),
{
    let t = head + a + gap + b + gap + c + gap + d + gap + e + gap + f;
    let t1 = head;
    let t2 = t1 + a + gap;
    let t3 = t2 + b + gap;
    let t4 = t3 + c + gap;
    let t5 = t4 + d + gap;
    let r5 = gap + f;
    let r4 = gap + e + r5;
    let r3 = gap + d + r4;
    let r2 = gap + c + r3;
    let r1 = gap + b + r2;
    assert(t =~= t1 + a + r1);
    assert(t =~= t2 + b + r2);
    assert(t =~= t3 + c + r3);
    assert(t =~= t4 + d + r4);
    assert(t =~= t5 + e + r5);
    lemma_holds(t1, a, r1);
    lemma_holds(t2, b, r2);
    lemma_holds(t3, c, r3);
    lemma_holds(t4, d, r4);
    lemma_holds(t5, e, r5);
    assert(t.take(head.len() as int) =~= head);
    assert(t.skip(t.len() - f.len()) =~= f);
}

/// A table begins with its title and its heading.
pub proof fn law_tables_have_a_heading(label: Seq<char>, rows: Seq<(Seq<char>, usize)>)
    ensures
        ("By "@ + label + ":\n"@ + "  "@ + label).is_prefix_of(table_text(label, rows)),
        row_lines(rows, value_width(label, rows), count_width(rows)).is_suffix_of(
            table_text(label, rows),
        ),
{
    let vw = value_width(label, rows);
    let cw = count_width(rows);
    let title = "By "@ + label + ":\n"@;
    let line = table_line(label, "count"@, vw, cw);
    let body = row_lines(rows, vw, cw);
    let t = table_text(label, rows);
    law_table_lines_show_value_and_count(label, "count"@, vw, cw);
    let head = "  "@ + label;
    assert(t =~= title + line + body);
    assert forall|i: int| 0 <= i < head.len() implies line[i] == head[i] by {}
    assert(t.take((title + head).len() as int) =~= title + head);
    assert(title + head =~= "By "@ + label + ":\n"@ + "  "@ + label);
    assert(t.skip(t.len() - body.len()) =~= body);
}

/// Where some rates are not known, the table by bitrate counts these videos in
/// a last row; otherwise it has no such row.
pub proof fn law_unknown_rates_come_last(seen: Seq<StatInfo>)
    requires
        seen.len() <= usize::MAX,
    ensures
        ({
            let n = seen.filter(|s: StatInfo| s.bitrate_bucket is None).len();
            let known = magnitude_rows(bitrate_counts(seen), "Mbps"@);
            &&& n > 0 ==> bitrate_rows(seen) == known.push(("(unknown)"@, n as usize))
            &&& n == 0 ==> bitrate_rows(seen) == known
        }),
{
    lemma_unknown_count(seen);
}

proof fn lemma_unknown_count(seen: Seq<StatInfo>)
    ensures
        bitrate_count(seen, None) == seen.filter(|s: StatInfo| s.bitrate_bucket is None).len(),
    decreases seen.len(),
{
    reveal(Seq::filter);
    if seen.len() > 0 {
        lemma_unknown_count(seen.drop_last());
    }
}

}
