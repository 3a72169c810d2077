use screens::path::Path;
use screens::probe::{
    ffprobe_args, frame_rate_text, parse_rational, probe, probe_failure, Answer, Duration,
    FfprobeFormat, FfprobeOutput, FfprobeStream, ProbeCache, ProbeError, ProbeMeta,
};

fn some(s: &str) -> Option<String> {
    Some(s.to_string())
}

fn stream(kind: &str, codec: &str) -> FfprobeStream {
    FfprobeStream {
        codec_type: some(kind),
        codec_name: some(codec),
        width: None,
        height: None,
        r_frame_rate: None,
        avg_frame_rate: None,
        bit_rate: None,
        channels: None,
        sample_rate: None,
    }
}

fn minute() -> Duration {
    Duration { bits: 60.0f64.to_bits(), secs: 60, minutes: 1 }
}

fn report() -> FfprobeOutput {
    let mut v = stream("video", "h264");
    v.width = Some(1920);
    v.height = Some(1080);
    v.r_frame_rate = some("24000/1001");
    v.avg_frame_rate = some("25/1");
    v.bit_rate = some("0");
    let mut a = stream("audio", "aac");
    a.channels = Some(2);
    a.sample_rate = some("48000");
    FfprobeOutput {
        format: FfprobeFormat {
            duration: some("60.0"),
            size: some("1234567"),
            bit_rate: some("800000"),
        },
        streams: vec![stream("data", "bin"), a, v, stream("video", "mjpeg"), stream("audio", "ac3")],
    }
}

fn meta() -> ProbeMeta {
    probe(&report(), Some(minute()), some("23.976")).unwrap()
}

#[test]
fn the_first_streams_count() {
    let m = meta();
    assert_eq!(m.duration, minute());
    assert_eq!(m.size_bytes, 1234567);
    assert_eq!(m.bit_rate, Some(800000));
    assert_eq!(m.video.codec, some("h264"));
    assert_eq!((m.video.width, m.video.height), (1920, 1080));
    assert_eq!(m.video.fps, some("23.976"));
    assert_eq!(m.video.bit_rate, None);
    let a = m.audio.clone().unwrap();
    assert_eq!(a.codec, some("aac"));
    assert_eq!((a.channels, a.sample_rate), (2, 48000));
    assert_eq!(m.rate(), Some(800000));
}

#[test]
fn missing_values_read_as_zero() {
    let mut r = report();
    r.format.size = some("-1");
    r.format.bit_rate = some("x");
    r.streams = vec![stream("video", "h264"), stream("audio", "aac")];
    r.streams[0].bit_rate = some("+700000");
    r.streams[1].sample_rate = some("4294967296");
    let m = probe(&r, Some(minute()), None).unwrap();
    assert_eq!(m.size_bytes, 0);
    assert_eq!(m.bit_rate, None);
    assert_eq!((m.video.width, m.video.height), (0, 0));
    assert_eq!(m.rate(), Some(700000));
    let a = m.audio.unwrap();
    assert_eq!((a.channels, a.sample_rate), (0, 0));
}

#[test]
fn a_duration_and_a_video_stream_are_needed() {
    let e = probe(&report(), None, None).unwrap_err();
    assert_eq!(e, ProbeError::NoDuration);
    assert_eq!(e.message(), "missing/invalid format.duration");
    let mut r = report();
    r.streams = vec![stream("audio", "aac")];
    let e = probe(&r, Some(minute()), None).unwrap_err();
    assert_eq!(e, ProbeError::NoVideo);
    assert_eq!(e.message(), "no video stream");
    assert_eq!(probe(&r, None, None).unwrap_err(), ProbeError::NoDuration);
    assert!(frame_rate_text(&r).is_none());
}

#[test]
fn the_frame_rate_is_the_average_one() {
    let mut r = report();
    r.streams[2].r_frame_rate = some("60/1");
    r.streams[2].avg_frame_rate = some("30/1");
    assert_eq!(frame_rate_text(&r), some("30/1"));
    r.streams[2].avg_frame_rate = None;
    assert_eq!(frame_rate_text(&r), some("60/1"));
    r.streams[2].r_frame_rate = None;
    assert_eq!(frame_rate_text(&r), None);
}

#[test]
fn ratios_are_parted_at_the_first_slash() {
    assert_eq!(parse_rational("24000/1001"), Some(("24000".to_string(), "1001".to_string())));
    assert_eq!(parse_rational("a/b/c"), Some(("a".to_string(), "b/c".to_string())));
    assert_eq!(parse_rational("/"), Some((String::new(), String::new())));
    assert_eq!(parse_rational("25"), None);
}

#[test]
fn the_probe_is_called_for_json() {
    assert_eq!(
        ffprobe_args(),
        vec!["-hide_banner", "-loglevel", "error", "-of", "json", "-show_format", "-show_streams"]
    );
    assert_eq!(probe_failure(b"  bad file\xff\n"), "ffprobe failed: bad file\u{fffd}");
}

#[test]
fn the_cache_asks_for_a_probe_once() {
    let src = Path::parse(b"/r/a.mp4");
    let other = Path::parse(b"/r/b.mp4");
    let mut cache = ProbeCache::new();
    assert!(cache.get(&src).is_none());
    assert!(matches!(cache.get_or_probe(&src, None), Answer::Probe));
    match cache.get_or_probe(&src, Some(Err("broken".to_string()))) {
        Answer::Failed(e) => assert_eq!(e, "broken"),
        _ => panic!("a failure is handed on"),
    }
    assert!(matches!(cache.get_or_probe(&src, None), Answer::Probe));
    assert!(matches!(cache.get_or_probe(&src, Some(Ok(meta()))), Answer::Known(_)));
    match cache.get_or_probe(&src, None) {
        Answer::Known(m) => assert_eq!(m.size_bytes, 1234567),
        _ => panic!("a result is kept"),
    }
    let mut second = meta();
    second.size_bytes = 1;
    match cache.get_or_probe(&src, Some(Ok(second))) {
        Answer::Known(m) => assert_eq!(m.size_bytes, 1234567),
        _ => panic!("the first result stays"),
    }
    assert!(cache.get(&other).is_none());
    assert!(ProbeCache::default().get(&src).is_none());
}
