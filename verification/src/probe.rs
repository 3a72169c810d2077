//! What is known of a video: reading the probe's report, and keeping the
//! results so that each video is probed at most once.
use vstd::prelude::*;
use crate::assoc::SortedMap;
use crate::path::{Part, Path};
use crate::strings::{
    dec, from_chars, law_numbers_are_read_back, lossy, lossy_text, parse_number,
    parsed_number, same, texts, to_chars, trim, trimmed,
};

verus! {

// ---- the probe's report ----

/// The report of one probe, as far as it is read.
#[derive(Debug)]
pub struct FfprobeOutput {
    pub format: FfprobeFormat,
    pub streams: Vec<FfprobeStream>,
}

/// What the report says of the container.
#[derive(Debug)]
pub struct FfprobeFormat {
    pub duration: Option<String>,
    pub size: Option<String>,
    pub bit_rate: Option<String>,
}

/// What the report says of one stream.
#[derive(Debug)]
pub struct FfprobeStream {
    pub codec_type: Option<String>,
    pub codec_name: Option<String>,
    pub width: Option<u32>,
    pub height: Option<u32>,
    pub r_frame_rate: Option<String>,
    pub avg_frame_rate: Option<String>,
    pub bit_rate: Option<String>,
    pub channels: Option<u32>,
    pub sample_rate: Option<String>,
}

/// A duration in the three forms that are used of it.
#[derive(Debug, Clone, Copy, PartialEq, Eq, Structural)]
pub struct Duration {
    /// The number of seconds as the probe gave it, as an IEEE 754 bit pattern.
    pub bits: u64,
    /// Whole seconds, rounded.
    pub secs: i64,
    /// Whole minutes, rounded down.
    pub minutes: i64,
}

/// What is known of a video.
#[derive(Debug)]
pub struct ProbeMeta {
    pub duration: Duration,
    /// The size of the file in bytes.
    pub size_bytes: u64,
    /// The average rate of the container, in bits per second.
    pub bit_rate: Option<u64>,
    /// The first video stream.
    pub video: VideoMeta,
    /// The first audio stream, if there is one.
    pub audio: Option<AudioMeta>,
}

/// What is known of a video stream.
#[derive(Debug)]
pub struct VideoMeta {
    pub codec: Option<String>,
    pub width: u32,
    pub height: u32,
    /// The average frame rate, with three decimals.
    pub fps: Option<String>,
    /// The rate of the stream, in bits per second.
    pub bit_rate: Option<u64>,
}

/// What is known of an audio stream.
#[derive(Debug)]
pub struct AudioMeta {
    pub codec: Option<String>,
    pub channels: u32,
    pub sample_rate: u32,
}

/// Why a report could not be used.
#[derive(Debug, Clone, Copy, PartialEq, Eq, Structural)]
pub enum ProbeError {
    /// The container has no duration, or none that is a number.
    NoDuration,
    /// There is no video stream.
    NoVideo,
}

/// The words for an error.
pub open spec fn probe_error_text(e: ProbeError) -> Seq<char> {
    match e {
        ProbeError::NoDuration => "missing/invalid format.duration"@,
        ProbeError::NoVideo => "no video stream"@,
    }
}

impl ProbeError {
    /// The words for this error.
    pub fn message(&self) -> (r: String)
        ensures
            r@ == probe_error_text(*self),
    {
        match self {
            ProbeError::NoDuration => "missing/invalid format.duration".to_owned(),
            ProbeError::NoVideo => "no video stream".to_owned(),
        }
    }
}

// ---- views ----

/// The view of a `ProbeMeta`.
pub struct MetaInfo {
    pub duration: Duration,
    pub size_bytes: u64,
    pub bit_rate: Option<u64>,
    pub video: VideoInfo,
    pub audio: Option<AudioInfo>,
}

/// The view of a `VideoMeta`.
pub struct VideoInfo {
    pub codec: Option<Seq<char>>,
    pub width: u32,
    pub height: u32,
    pub fps: Option<Seq<char>>,
    pub bit_rate: Option<u64>,
}

/// The view of an `AudioMeta`.
pub struct AudioInfo {
    pub codec: Option<Seq<char>>,
    pub channels: u32,
    pub sample_rate: u32,
}

/// The text in an optional string.
pub open spec fn opt_text(o: Option<String>) -> Option<Seq<char>> {
    match o {
        Some(s) => Some(s@),
        None => None,
    }
}

impl View for AudioMeta {
    type V = AudioInfo;

    open spec fn view(&self) -> AudioInfo {
        AudioInfo {
            codec: opt_text(self.codec),
            channels: self.channels,
            sample_rate: self.sample_rate,
        }
    }
}

impl View for VideoMeta {
    type V = VideoInfo;

    open spec fn view(&self) -> VideoInfo {
        VideoInfo {
            codec: opt_text(self.codec),
            width: self.width,
            height: self.height,
            fps: opt_text(self.fps),
            bit_rate: self.bit_rate,
        }
    }
}

impl View for ProbeMeta {
    type V = MetaInfo;

    open spec fn view(&self) -> MetaInfo {
        MetaInfo {
            duration: self.duration,
            size_bytes: self.size_bytes,
            bit_rate: self.bit_rate,
            video: self.video@,
            audio: match self.audio {
                Some(a) => Some(a@),
                None => None,
            },
        }
    }
}

/// A copy of an optional string.
pub fn copied_text(o: &Option<String>) -> (r: Option<String>)
    ensures
        opt_text(r) == opt_text(*o),
{
    match o {
        Some(s) => Some(s.clone()),
        None => None,
    }
}

impl Clone for AudioMeta {
    /// A copy.
    fn clone(&self) -> (r: AudioMeta)
        ensures
            r@ == self@,
    {
        AudioMeta {
            codec: copied_text(&self.codec),
            channels: self.channels,
            sample_rate: self.sample_rate,
        }
    }
}

impl Clone for VideoMeta {
    /// A copy.
    fn clone(&self) -> (r: VideoMeta)
        ensures
            r@ == self@,
    {
        VideoMeta {
            codec: copied_text(&self.codec),
            width: self.width,
            height: self.height,
            fps: copied_text(&self.fps),
            bit_rate: self.bit_rate,
        }
    }
}

impl Clone for ProbeMeta {
    /// A copy.
    fn clone(&self) -> (r: ProbeMeta)
        ensures
            r@ == self@,
    {
        let audio: Option<AudioMeta> = match &self.audio {
            Some(a) => Some(a.clone()),
            None => None,
        };
        ProbeMeta {
            duration: self.duration,
            size_bytes: self.size_bytes,
            bit_rate: self.bit_rate,
            video: self.video.clone(),
            audio,
        }
    }
}

// ---- running the probe ----

/// The arguments of the probe before the path of the video.
pub open spec fn ffprobe_words() -> Seq<Seq<char>> {
    seq![
        "-hide_banner"@,
        "-loglevel"@,
        "error"@,
        "-of"@,
        "json"@,
        "-show_format"@,
        "-show_streams"@,
    ]
}

/// The arguments of the probe before the path of the video.
pub fn ffprobe_args() -> (r: Vec<String>)
    ensures
        texts(r@) == ffprobe_words(),
{
    let r: Vec<String> = vec![
        "-hide_banner".to_owned(),
        "-loglevel".to_owned(),
        "error".to_owned(),
        "-of".to_owned(),
        "json".to_owned(),
        "-show_format".to_owned(),
        "-show_streams".to_owned(),
    ];
    assert(texts(r@) =~= ffprobe_words());
    r
}

/// The words for a probe that ended badly, with what it wrote.
pub open spec fn probe_failure_text(stderr: Seq<u8>) -> Seq<char> {
    "ffprobe failed: "@ + trim(lossy_text(stderr))
}

/// The words for a probe that ended badly, with what it wrote.
pub fn probe_failure(stderr: &[u8]) -> (r: String)
    ensures
        r@ == probe_failure_text(stderr@),
{
    let t: String = lossy(stderr);
    let t: String = trimmed(t.as_str());
    let mut m: String = "ffprobe failed: ".to_owned();
    m.append(t.as_str());
    m
}

// ---- reading the report ----

/// Whether a stream is of the given kind.
pub open spec fn is_kind(s: FfprobeStream, kind: Seq<char>) -> bool {
    opt_text(s.codec_type) == Some(kind)
}

/// The position of the first stream of the given kind.
pub open spec fn first_stream(streams: Seq<FfprobeStream>, kind: Seq<char>) -> Option<int>
    decreases streams.len(),
{
    if streams.len() == 0 {
        None
    } else {
        match first_stream(streams.drop_last(), kind) {
            Some(i) => Some(i),
            None => if is_kind(streams.last(), kind) {
                Some(streams.len() - 1)
            } else {
                None
            },
        }
    }
}

/// The text of a video stream's average frame rate; the nominal rate counts
/// only where that is missing.
pub open spec fn rate_text(s: FfprobeStream) -> Option<Seq<char>> {
    match s.avg_frame_rate {
        Some(t) => Some(t@),
        None => opt_text(s.r_frame_rate),
    }
}

/// The number in an optional text.
pub open spec fn number_in(o: Option<String>, max: nat) -> Option<nat> {
    match o {
        Some(s) => parse_number(s@, max),
        None => None,
    }
}

/// The number in an optional text, zero where there is none.
pub open spec fn number_or_zero(o: Option<String>, max: nat) -> nat {
    match number_in(o, max) {
        Some(n) => n,
        None => 0,
    }
}

/// The rate in an optional text; zero counts as unknown.
pub open spec fn rate_in(o: Option<String>) -> Option<u64> {
    match number_in(o, u64::MAX as nat) {
        Some(n) => if n > 0 {
            Some(n as u64)
        } else {
            None
        },
        None => None,
    }
}

pub open spec fn or_zero(o: Option<u32>) -> u32 {
    match o {
        Some(n) => n,
        None => 0,
    }
}

/// What a report says of a video stream, its frame rate being `fps`.
pub open spec fn video_info(s: FfprobeStream, fps: Option<Seq<char>>) -> VideoInfo {
    VideoInfo {
        codec: opt_text(s.codec_name),
        width: or_zero(s.width),
        height: or_zero(s.height),
        fps,
        bit_rate: rate_in(s.bit_rate),
    }
}

/// What a report says of an audio stream.
pub open spec fn audio_info(s: FfprobeStream) -> AudioInfo {
    AudioInfo {
        codec: opt_text(s.codec_name),
        channels: or_zero(s.channels),
        sample_rate: number_or_zero(s.sample_rate, u32::MAX as nat) as u32,
    }
}

/// What a report says of a video, given its duration and its frame rate.
pub open spec fn meta_info(
    out: FfprobeOutput,
    duration: Option<Duration>,
    fps: Option<Seq<char>>,
) -> Result<MetaInfo, ProbeError> {
    match duration {
        None => Err(ProbeError::NoDuration),
        Some(d) => match first_stream(out.streams@, "video"@) {
            None => Err(ProbeError::NoVideo),
            Some(v) => Ok(
                MetaInfo {
                    duration: d,
                    size_bytes: number_or_zero(out.format.size, u64::MAX as nat) as u64,
                    bit_rate: rate_in(out.format.bit_rate),
                    video: video_info(out.streams@[v], fps),
                    audio: match first_stream(out.streams@, "audio"@) {
                        Some(a) => Some(audio_info(out.streams@[a])),
                        None => None,
                    },
                },
            ),
        },
    }
}

/// The first stream of the given kind.
fn find_stream<'a>(streams: &'a Vec<FfprobeStream>, kind: &str) -> (r: Option<&'a FfprobeStream>)
    ensures
        match r {
            Some(s) => first_stream(streams@, kind@) matches Some(i) && 0 <= i < streams@.len()
                && streams@[i] == *s,
            None => first_stream(streams@, kind@) is None,
        },
{
    for i in 0..streams.len()
        invariant
            first_stream(streams@.take(i as int), kind@) is None,
    {
        assert(streams@.take(i as int + 1).drop_last() =~= streams@.take(i as int));
        let hit = match &streams[i].codec_type {
            Some(t) => same(t.as_str(), kind),
            None => false,
        };
        if hit {
            proof {
                lemma_first_later(streams@, kind@, i as int + 1);
            }
            return Some(&streams[i]);
        }
    }
    assert(streams@.take(streams@.len() as int) =~= streams@);
    None
}

proof fn lemma_first_later(streams: Seq<FfprobeStream>, kind: Seq<char>, k: int)
    requires
        0 <= k <= streams.len(),
        first_stream(streams.take(k), kind) is Some,
    ensures
        first_stream(streams, kind) == first_stream(streams.take(k), kind),
    decreases streams.len(),
{
    if k < streams.len() {
        assert(streams.drop_last().take(k) =~= streams.take(k));
        lemma_first_later(streams.drop_last(), kind, k);
    } else {
        assert(streams.take(k) =~= streams);
    }
}

/// The number in an optional text.
fn read_number(o: &Option<String>, max: u64) -> (r: Option<u64>)
    ensures
        match r {
            Some(n) => number_in(*o, max as nat) == Some(n as nat),
            None => number_in(*o, max as nat) is None,
        },
{
    match o {
        Some(s) => parsed_number(s.as_str(), max),
        None => None,
    }
}

/// The rate in an optional text; zero counts as unknown.
fn read_rate(o: &Option<String>) -> (r: Option<u64>)
    ensures
        r == rate_in(*o),
{
    match read_number(o, u64::MAX) {
        Some(n) => if n > 0 {
            Some(n)
        } else {
            None
        },
        None => None,
    }
}

/// The average frame rate of the first video stream as the report spells it.
pub fn frame_rate_text(out: &FfprobeOutput) -> (r: Option<String>)
    ensures
        opt_text(r) == match first_stream(out.streams@, "video"@) {
            Some(v) => rate_text(out.streams@[v]),
            None => None,
        },
{
    match find_stream(&out.streams, "video") {
        Some(s) => match &s.avg_frame_rate {
            Some(t) => Some(t.clone()),
            None => copied_text(&s.r_frame_rate),
        },
        None => None,
    }
}

/// The position of the first `c` in `s`.
pub open spec fn first_char(s: Seq<char>, c: char) -> Option<int>
    decreases s.len(),
{
    if s.len() == 0 {
        None
    } else if s[0] == c {
        Some(0)
    } else {
        match first_char(s.drop_first(), c) {
            Some(i) => Some(i + 1),
            None => None,
        }
    }
}

/// The two sides of a ratio such as `24000/1001`, parted at the first slash.
pub open spec fn ratio_sides(s: Seq<char>) -> Option<(Seq<char>, Seq<char>)> {
    match first_char(s, '/') {
        Some(i) => Some((s.take(i), s.skip(i + 1))),
        None => None,
    }
}

proof fn lemma_first_char(s: Seq<char>, c: char, i: int)
    requires
        0 <= i <= s.len(),
        forall|j: int| 0 <= j < i ==> s[j] != c,
    ensures
        i < s.len() && s[i] == c ==> first_char(s, c) == Some(i),
        i == s.len() ==> first_char(s, c) is None,
    decreases s.len(),
{
    if i > 0 {
        lemma_first_char(s.drop_first(), c, i - 1);
    }
}

/// The two sides of a ratio such as `24000/1001`, parted at the first slash.
pub fn parse_rational(s: &str) -> (r: Option<(String, String)>)
    ensures
        match r {
            Some(p) => ratio_sides(s@) == Some((p.0@, p.1@)),
            None => ratio_sides(s@) is None,
        },
{
    let v: Vec<char> = to_chars(s);
    let n: usize = v.len();
    for i in 0..n
        invariant
            v@ == s@,
            n == v@.len(),
            forall|j: int| 0 <= j < i ==> s@[j] != '/',
    {
        if v[i] == '/' {
            proof {
                lemma_first_char(s@, '/', i as int);
            }
            let a: String = from_chars(&v, 0, i);
            let b: String = from_chars(&v, i + 1, n);
            assert(a@ =~= s@.take(i as int));
            assert(b@ =~= s@.skip(i as int + 1));
            return Some((a, b));
        }
    }
    proof {
        lemma_first_char(s@, '/', n as int);
    }
    None
}

/// What a report says of a video. `duration` is the number that its duration
/// spells, if it spells one, and `fps` the value of its frame rate.
pub fn probe(out: &FfprobeOutput, duration: Option<Duration>, fps: Option<String>) -> (r: Result<
    ProbeMeta,
    ProbeError,
>)
    ensures
        match r {
            Ok(m) => meta_info(*out, duration, opt_text(fps)) == Ok::<MetaInfo, ProbeError>(m@),
            Err(e) => meta_info(*out, duration, opt_text(fps)) == Err::<MetaInfo, ProbeError>(e),
        },
{
    let duration: Duration = match duration {
        Some(d) => d,
        None => {
            return Err(ProbeError::NoDuration);
        },
    };
    let size_bytes: u64 = match read_number(&out.format.size, u64::MAX) {
        Some(n) => n,
        None => 0,
    };
    let bit_rate: Option<u64> = read_rate(&out.format.bit_rate);
    let v: &FfprobeStream = match find_stream(&out.streams, "video") {
        Some(s) => s,
        None => {
            return Err(ProbeError::NoVideo);
        },
    };
    let video: VideoMeta = VideoMeta {
        codec: copied_text(&v.codec_name),
        width: match v.width {
            Some(n) => n,
            None => 0,
        },
        height: match v.height {
            Some(n) => n,
            None => 0,
        },
        fps,
        bit_rate: read_rate(&v.bit_rate),
    };
    let audio: Option<AudioMeta> = match find_stream(&out.streams, "audio") {
        Some(a) => {
            let sample_rate: u32 = match read_number(&a.sample_rate, u32::MAX as u64) {
                Some(n) => n as u32,
                None => 0,
            };
            Some(
                AudioMeta {
                    codec: copied_text(&a.codec_name),
                    channels: match a.channels {
                        Some(n) => n,
                        None => 0,
                    },
                    sample_rate,
                },
            )
        },
        None => None,
    };
    Ok(ProbeMeta { duration, size_bytes, bit_rate, video, audio })
}

/// The rate that is shown and counted: that of the container, or else that of
/// the video stream.
pub open spec fn shown_rate(m: MetaInfo) -> Option<u64> {
    match m.bit_rate {
        Some(b) => Some(b),
        None => m.video.bit_rate,
    }
}

impl ProbeMeta {
    /// The rate that is shown and counted: that of the container, or else that
    /// of the video stream.
    pub fn rate(&self) -> (r: Option<u64>)
        ensures
            r == shown_rate(self@),
    {
        match self.bit_rate {
            Some(b) => Some(b),
            None => self.video.bit_rate,
        }
    }
}

// ---- the cache ----

/// The results of all probes so far.
pub struct ProbeCache {
    known: SortedMap<Path, ProbeMeta>,
}

impl View for ProbeCache {
    type V = Map<Seq<Part>, MetaInfo>;

    closed spec fn view(&self) -> Map<Seq<Part>, MetaInfo> {
        self.known@.map_values(|m: ProbeMeta| m@)
    }
}

/// What the cache answers to a request.
pub enum Answer {
    /// Here is what is known.
    Known(ProbeMeta),
    /// Nothing is known yet: probe, and ask again with the result.
    Probe,
    /// The probe failed, for the given reason.
    Failed(String),
}

/// The view of an `Answer`.
pub enum AnswerInfo {
    Known(MetaInfo),
    Probe,
    Failed(Seq<char>),
}

impl View for Answer {
    type V = AnswerInfo;

    open spec fn view(&self) -> AnswerInfo {
        match self {
            Answer::Known(m) => AnswerInfo::Known(m@),
            Answer::Probe => AnswerInfo::Probe,
            Answer::Failed(e) => AnswerInfo::Failed(e@),
        }
    }
}

/// The view of the outcome of a probe.
pub open spec fn outcome_info(r: Option<Result<ProbeMeta, String>>) -> Option<
    Result<MetaInfo, Seq<char>>,
> {
    match r {
        Some(Ok(m)) => Some(Ok(m@)),
        Some(Err(e)) => Some(Err(e@)),
        None => None,
    }
}

/// One request to the cache: what it knows afterwards, and its answer.
/// `probed` is the outcome of a probe made for this request, if one was made.
pub open spec fn cache_step(
    known: Map<Seq<Part>, MetaInfo>,
    src: Seq<Part>,
    probed: Option<Result<MetaInfo, Seq<char>>>,
) -> (Map<Seq<Part>, MetaInfo>, AnswerInfo) {
    if known.contains_key(src) {
        (known, AnswerInfo::Known(known[src]))
    } else {
        match probed {
            None => (known, AnswerInfo::Probe),
            Some(Ok(m)) => (known.insert(src, m), AnswerInfo::Known(m)),
            Some(Err(e)) => (known, AnswerInfo::Failed(e)),
        }
    }
}

impl ProbeCache {
    /// A cache that knows nothing.
    pub fn new() -> (r: ProbeCache)
        ensures
            r@ == Map::<Seq<Part>, MetaInfo>::empty(),
    {
        let r = ProbeCache { known: SortedMap::new() };
        assert(r@ =~= Map::<Seq<Part>, MetaInfo>::empty());
        r
    }

    /// What is known of `src`, without a probe.
    pub fn get(&self, src: &Path) -> (r: Option<ProbeMeta>)
        ensures
            r is Some <==> self@.contains_key(src@),
            r matches Some(m) ==> m@ == self@[src@],
    {
        match self.known.get(src) {
            Some(m) => Some(m.clone()),
            None => None,
        }
    }

    /// What is known of `src`. Where that is nothing, the outcome of a probe is
    /// asked for; a result is kept, a failure is handed on and not kept.
    pub fn get_or_probe(&mut self, src: &Path, probed: Option<Result<ProbeMeta, String>>) -> (r:
        Answer)
        ensures
            (final(self)@, r@) == cache_step(old(self)@, src@, outcome_info(probed)),
    {
        match self.get(src) {
            Some(m) => Answer::Known(m),
            None => match probed {
                None => Answer::Probe,
                Some(Err(e)) => Answer::Failed(e),
                Some(Ok(m)) => {
                    let kept: ProbeMeta = m.clone();
                    self.known.set(src.clone(), kept);
                    assert(self@ =~= old(self)@.insert(src@, m@));
                    Answer::Known(m)
                },
            },
        }
    }
}

impl Default for ProbeCache {
    /// A cache that knows nothing.
    fn default() -> (r: ProbeCache)
        ensures
            r@ == Map::<Seq<Part>, MetaInfo>::empty(),
    {
        ProbeCache::new()
    }
}

/// What the cache knows after a run of requests.
pub open spec fn cache_run(
    known: Map<Seq<Part>, MetaInfo>,
    requests: Seq<(Seq<Part>, Option<Result<MetaInfo, Seq<char>>>)>,
) -> Map<Seq<Part>, MetaInfo>
    decreases requests.len(),
{
    if requests.len() == 0 {
        known
    } else {
        let before = cache_run(known, requests.drop_last());
        cache_step(before, requests.last().0, requests.last().1).0
    }
}

/// A video is probed at most once: once the cache has answered with a result,
/// it gives the same result ever after, whatever it is asked in between, and
/// never asks for a probe of that video again.
pub proof fn law_probed_at_most_once(
    known: Map<Seq<Part>, MetaInfo>,
    src: Seq<Part>,
    probed: Option<Result<MetaInfo, Seq<char>>>,
    between: Seq<(Seq<Part>, Option<Result<MetaInfo, Seq<char>>>)>,
    later: Option<Result<MetaInfo, Seq<char>>>,
)
    requires
        cache_step(known, src, probed).1 is Known,
    ensures
        cache_step(cache_run(cache_step(known, src, probed).0, between), src, later) == (
            cache_run(cache_step(known, src, probed).0, between),
            cache_step(known, src, probed).1,
        ),
    decreases between.len(),
{
    if between.len() > 0 {
        law_probed_at_most_once(known, src, probed, between.drop_last(), later);
    }
}

/// A failed probe leaves no trace, and a request never touches what is known
/// of other videos.
pub proof fn law_requests_are_independent(
    known: Map<Seq<Part>, MetaInfo>,
    src: Seq<Part>,
    probed: Option<Result<MetaInfo, Seq<char>>>,
    other: Seq<Part>,
)
    requires
        other != src,
    ensures
        probed matches Some(Err(_)) ==> cache_step(known, src, probed).0 == known,
        cache_step(known, src, probed).0.contains_key(other) <==> known.contains_key(other),
        known.contains_key(other) ==> cache_step(known, src, probed).0[other] == known[other],
{
}

// ---- laws of the report ----

/// Whether the stream at `i` is the first of the given kind: its type is that
/// kind, and that of no earlier one is.
pub open spec fn is_first(streams: Seq<FfprobeStream>, kind: Seq<char>, i: int) -> bool {
    &&& 0 <= i < streams.len()
    &&& streams[i].codec_type is Some && streams[i].codec_type->0@ == kind
    &&& forall|j: int|
        0 <= j < i ==> (#[trigger] streams[j]).codec_type is None || streams[j].codec_type->0@
            != kind
}

/// Whether no stream is of the given kind.
pub open spec fn has_none(streams: Seq<FfprobeStream>, kind: Seq<char>) -> bool {
    forall|j: int|
        0 <= j < streams.len() ==> (#[trigger] streams[j]).codec_type is None
            || streams[j].codec_type->0@ != kind
}

/// The first stream of a kind is found wherever there is one.
pub proof fn law_first_stream(streams: Seq<FfprobeStream>, kind: Seq<char>)
    ensures
        first_stream(streams, kind) is None <==> has_none(streams, kind),
        first_stream(streams, kind) matches Some(i) ==> is_first(streams, kind, i),
        forall|i: int| #[trigger] is_first(streams, kind, i) ==> first_stream(streams, kind) == Some(i),
    decreases streams.len(),
{
    if streams.len() > 0 {
        let front = streams.drop_last();
        law_first_stream(front, kind);
        assert(streams[streams.len() - 1] == streams.last());
        assert forall|j: int| 0 <= j < front.len() implies #[trigger] streams[j] == front[j] by {}
        assert(has_none(streams, kind) ==> has_none(front, kind));
        if first_stream(front, kind) is Some {
            assert(is_first(streams, kind, first_stream(front, kind)->0));
        }
        assert forall|i: int| #[trigger] is_first(streams, kind, i) implies first_stream(streams, kind)
            == Some(i) by {
            if i < front.len() {
                assert(is_first(front, kind, i));
            } else {
                assert(has_none(front, kind));
            }
        }
    }
}

/// A report can be used exactly where it has a duration and a stream of type
/// `video`; a missing duration is told before a missing stream.
pub proof fn law_usable_reports(
    out: FfprobeOutput,
    duration: Option<Duration>,
    fps: Option<Seq<char>>,
)
    ensures
        duration is None ==> meta_info(out, duration, fps) == Err::<MetaInfo, ProbeError>(
            ProbeError::NoDuration,
        ),
        duration is Some && has_none(out.streams@, "video"@) ==> meta_info(out, duration, fps)
            == Err::<MetaInfo, ProbeError>(ProbeError::NoVideo),
        duration is Some && !has_none(out.streams@, "video"@) ==> meta_info(out, duration, fps) is Ok,
{
    law_first_stream(out.streams@, "video"@);
}

/// The audio of a video is absent exactly where no stream of its report is of
/// type `audio`; otherwise it is that of the first such stream, with zeros for
/// what the stream does not tell.
pub proof fn law_audio_is_the_first_audio_stream(
    out: FfprobeOutput,
    duration: Option<Duration>,
    fps: Option<Seq<char>>,
)
    requires
        meta_info(out, duration, fps) is Ok,
    ensures
        ({
            let m = meta_info(out, duration, fps)->Ok_0;
            let all = out.streams@;
            &&& m.audio is None <==> has_none(all, "audio"@)
            &&& forall|i: int| #[trigger]
                is_first(all, "audio"@, i) ==> {
                    &&& m.audio is Some
                    &&& all[i].codec_name is Some <==> m.audio->0.codec is Some
                    &&& all[i].codec_name is Some ==> m.audio->0.codec == Some(
                        all[i].codec_name->0@,
                    )
                    &&& all[i].channels is Some ==> m.audio->0.channels == all[i].channels->0
                    &&& all[i].channels is None ==> m.audio->0.channels == 0
                    &&& all[i].sample_rate is None || parse_number(
                        all[i].sample_rate->0@,
                        u32::MAX as nat,
                    ) is None ==> m.audio->0.sample_rate == 0
                    &&& forall|n: u32|
                        all[i].sample_rate is Some && all[i].sample_rate->0@ == #[trigger] dec(
                            n as nat,
                        ) ==> m.audio->0.sample_rate == n
                }
        }),
{
    let all = out.streams@;
    law_first_stream(all, "audio"@);
    assert forall|i: int| #[trigger] is_first(all, "audio"@, i) implies (forall|n: u32|
        all[i].sample_rate is Some && all[i].sample_rate->0@ == #[trigger] dec(n as nat)
            ==> number_or_zero(all[i].sample_rate, u32::MAX as nat) == n) by {
        assert forall|n: u32|
            all[i].sample_rate is Some && all[i].sample_rate->0@ == #[trigger] dec(
                n as nat,
            ) implies number_or_zero(all[i].sample_rate, u32::MAX as nat) == n by {
            law_numbers_are_read_back(n as nat, u32::MAX as nat);
        }
    }
}

/// The picture of a video is that of the first stream of type `video`, with
/// zeros for a size that the stream does not tell; its duration and its frame
/// rate are those it was given.
pub proof fn law_video_is_the_first_video_stream(
    out: FfprobeOutput,
    duration: Option<Duration>,
    fps: Option<Seq<char>>,
    i: int,
)
    requires
        meta_info(out, duration, fps) is Ok,
        is_first(out.streams@, "video"@, i),
    ensures
        ({
            let m = meta_info(out, duration, fps)->Ok_0;
            let s = out.streams@[i];
            &&& duration == Some(m.duration)
            &&& m.video.fps == fps
            &&& s.codec_name is None ==> m.video.codec is None
            &&& s.codec_name is Some ==> m.video.codec == Some(s.codec_name->0@)
            &&& s.width is Some ==> m.video.width == s.width->0
            &&& s.width is None ==> m.video.width == 0
            &&& s.height is Some ==> m.video.height == s.height->0
            &&& s.height is None ==> m.video.height == 0
        }),
{
    law_first_stream(out.streams@, "video"@);
}

/// Sizes and rates are read as the report spells them. What is missing or is no
/// number counts as no rate and as a size of zero, and a rate of zero counts as
/// none.
pub proof fn law_sizes_and_rates_are_read(
    out: FfprobeOutput,
    duration: Option<Duration>,
    fps: Option<Seq<char>>,
    i: int,
    n: u64,
)
    requires
        meta_info(out, duration, fps) is Ok,
        is_first(out.streams@, "video"@, i),
    ensures
        ({
            let m = meta_info(out, duration, fps)->Ok_0;
            let f = out.format;
            let s = out.streams@[i];
            let rate = if n == 0 {
                None
            } else {
                Some(n)
            };
            &&& f.size is None || parse_number(f.size->0@, u64::MAX as nat) is None ==> m.size_bytes
                == 0
            &&& f.size is Some && f.size->0@ == dec(n as nat) ==> m.size_bytes == n
            &&& f.bit_rate is None || parse_number(f.bit_rate->0@, u64::MAX as nat) is None
                ==> m.bit_rate is None
            &&& f.bit_rate is Some && f.bit_rate->0@ == dec(n as nat) ==> m.bit_rate == rate
            &&& s.bit_rate is None || parse_number(s.bit_rate->0@, u64::MAX as nat) is None
                ==> m.video.bit_rate is None
            &&& s.bit_rate is Some && s.bit_rate->0@ == dec(n as nat) ==> m.video.bit_rate == rate
            &&& !(m.bit_rate == Some(0u64)) && !(m.video.bit_rate == Some(0u64))
        }),
{
    law_first_stream(out.streams@, "video"@);
    law_numbers_are_read_back(n as nat, u64::MAX as nat);
}

/// Whenever the container reports a rate, that is the rate of the video,
/// whatever its stream reports; only where it reports none is it the stream's.
pub proof fn law_container_rate_wins(m: MetaInfo)
    ensures
        m.bit_rate is Some ==> shown_rate(m) == m.bit_rate,
        m.bit_rate is None ==> shown_rate(m) == m.video.bit_rate,
        forall|other: MetaInfo|
            other.bit_rate == m.bit_rate && m.bit_rate is Some ==> #[trigger] shown_rate(other)
                == shown_rate(m),
{
}

/// The average frame rate counts wherever the report tells one, whatever the
/// nominal rate is; that counts only where the average is missing.
pub proof fn law_average_frame_rate_wins(s: FfprobeStream)
    ensures
        s.avg_frame_rate is Some ==> rate_text(s) == Some(s.avg_frame_rate->0@),
        s.avg_frame_rate is None && s.r_frame_rate is Some ==> rate_text(s) == Some(
            s.r_frame_rate->0@,
        ),
        s.avg_frame_rate is None && s.r_frame_rate is None ==> rate_text(s) is None,
{
}

/// A ratio is parted at its first slash, and nothing is lost; a text without a
/// slash is no ratio.
pub proof fn law_ratio_is_parted_at_its_first_slash(s: Seq<char>)
    ensures
        ratio_sides(s) is None <==> !s.contains('/'),
        ratio_sides(s) matches Some(p) ==> s == p.0.push('/') + p.1 && !p.0.contains('/'),
{
    if s.contains('/') {
        let k = s.index_of_first('/');
        s.index_of_first_ensures('/');
        let i = k->0;
        lemma_first_char(s, '/', i);
        assert(s =~= s.take(i).push('/') + s.skip(i + 1));
        assert forall|j: int| 0 <= j < i implies s.take(i)[j] != '/' by {
            assert(s[j] != '/');
        }
    } else {
        assert forall|j: int| 0 <= j < s.len() implies s[j] != '/' by {
            assert(s.contains(s[j]));
        }
        lemma_first_char(s, '/', s.len() as int);
    }
}

/// The cache asks for a probe exactly where it knows nothing and is given no
/// outcome. A result is kept and handed on as it is, a failure is handed on
/// with its words, and what is known is handed on whatever else is given.
pub proof fn law_cache_answers(
    known: Map<Seq<Part>, MetaInfo>,
    src: Seq<Part>,
    probed: Option<Result<MetaInfo, Seq<char>>>,
)
    ensures
        ({
            let (after, answer) = cache_step(known, src, probed);
            &&& answer is Probe <==> !known.contains_key(src) && probed is None
            &&& known.contains_key(src) ==> answer == AnswerInfo::Known(known[src]) && after == known
            &&& !known.contains_key(src) && probed is Some && probed->0 is Ok ==> answer
                == AnswerInfo::Known(probed->0->Ok_0) && after.contains_key(src) && after[src]
                == probed->0->Ok_0
            &&& !known.contains_key(src) && probed is Some && probed->0 is Err ==> answer
                == AnswerInfo::Failed(probed->0->Err_0) && !after.contains_key(src)
            &&& !known.contains_key(src) && probed is None ==> after == known
        }),
{
}

/// What is said of a probe that ended badly is what the probe wrote, without
/// the white space around it.
pub proof fn law_probe_failures_are_told(stderr: Seq<u8>)
    ensures
        trim(lossy_text(stderr)).is_suffix_of(probe_failure_text(stderr)),
        "ffprobe failed: "@.is_prefix_of(probe_failure_text(stderr)),
        probe_failure_text(stderr).len() == "ffprobe failed: "@.len() + trim(
            lossy_text(stderr),
        ).len(),
{
    let head = "ffprobe failed: "@;
    let t = trim(lossy_text(stderr));
    let m = probe_failure_text(stderr);
    assert(m.skip(m.len() - t.len()) =~= t);
    assert(m.take(head.len() as int) =~= head);
}

}
