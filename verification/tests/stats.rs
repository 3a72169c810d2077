use screens::path::Path;
use screens::probe::{Answer, AudioMeta, Duration, ProbeCache, ProbeMeta, VideoMeta};
use screens::stats::{bucket_for, render_table, rows_magnitude, Stats, VideoStat};
use screens::tally::{rows_count_desc, Tally};

fn meta(w: u32, h: u32, video: &str, audio: Option<&str>, minutes: i64, bps: Option<u64>) -> ProbeMeta {
    ProbeMeta {
        duration: Duration { bits: 0, secs: 0, minutes },
        size_bytes: 0,
        bit_rate: bps,
        video: VideoMeta {
            codec: Some(video.to_string()),
            width: w,
            height: h,
            fps: None,
            bit_rate: None,
        },
        audio: audio.map(|a| AudioMeta {
            codec: Some(a.to_string()),
            channels: 2,
            sample_rate: 44100,
        }),
    }
}

fn p(s: &str) -> Path {
    Path::parse(s.as_bytes())
}

fn library() -> (Vec<Path>, ProbeCache) {
    let mut cache = ProbeCache::new();
    let videos = vec![p("/r/a.mp4"), p("/r/b.MP4"), p("/r/c.mkv"), p("/r/d.webm")];
    let metas = vec![
        meta(1920, 1080, "h264", Some("aac"), 70, Some(1_500_000)),
        meta(1280, 720, "h264", Some("aac"), 5, Some(1_999_999)),
        meta(640, 480, "mpeg4", Some("aac"), 0, Some(999_999)),
        meta(320, 240, "vp8", Some("vorbis"), 0, Some(1)),
    ];
    for (v, m) in videos.iter().zip(metas) {
        assert!(matches!(cache.get_or_probe(v, Some(Ok(m))), Answer::Known(_)));
    }
    (videos, cache)
}

#[test]
fn the_report_has_six_tables() {
    let (videos, cache) = library();
    let want = "Statistics for 4 video(s)

By extension:
  extension  count
  mp4            2
  mkv            1
  webm           1

By resolution:
  resolution  count
  1280x720        1
  1920x1080       1
  320x240         1
  640x480         1

By video codec:
  video codec  count
  h264             2
  mpeg4            1
  vp8              1

By audio codec:
  audio codec  count
  aac              3
  vorbis           1

By duration:
  duration    count
  <1 min          2
  4-8 min         1
  64-128 min      1

By bitrate:
  bitrate   count
  <1 Mbps       2
  1-2 Mbps      2
";
    assert_eq!(Stats::from_cache(&videos, &cache).render(), want);
}

#[test]
fn unknown_values_have_their_own_rows() {
    let mut m = meta(0, 720, "", None, -3, None);
    let s = VideoStat::from_probe(&p("/r/noext"), &m);
    assert_eq!(s.ext, "(unknown)");
    assert_eq!(s.resolution, "(unknown)");
    assert_eq!(s.video_codec, "(unknown)");
    assert_eq!(s.audio_codec, "(none)");
    assert_eq!(s.duration_bucket, 0);
    assert_eq!(s.bitrate_bucket, None);
    m.bit_rate = Some(0);
    assert_eq!(VideoStat::from_probe(&p("/r/noext"), &m).bitrate_bucket, None);
    m.bit_rate = None;
    m.video.bit_rate = Some(3_000_000);
    m.video.codec = None;
    m.audio = Some(AudioMeta { codec: None, channels: 0, sample_rate: 0 });
    m.duration.minutes = i64::MAX;
    let s = VideoStat::from_probe(&p("/r/dot."), &m);
    assert_eq!(s.ext, "(unknown)");
    assert_eq!(s.video_codec, "(unknown)");
    assert_eq!(s.audio_codec, "(unknown)");
    assert_eq!(s.duration_bucket, 11);
    assert_eq!(s.bitrate_bucket, Some(2));

    let mut stats = Stats::default();
    stats.add(&VideoStat::from_probe(&p("/r/noext"), &meta(1, 1, "x", None, 2, None)));
    let text = stats.render();
    assert!(text.ends_with("By bitrate:\n  bitrate    count\n  (unknown)      1\n"));
    assert!(text.contains("By duration:\n  duration  count\n  2-4 min       1\n"));
}

#[test]
fn videos_that_were_not_probed_are_left_out() {
    let (mut videos, cache) = library();
    videos.push(p("/r/unprobed.mp4"));
    let text = Stats::from_cache(&videos, &cache).render();
    assert!(text.starts_with("Statistics for 4 video(s)\n\n"));
    assert!(Stats::new().render().starts_with("Statistics for 0 video(s)\n\nBy extension:\n  extension  count\n\n"));
}

#[test]
fn magnitudes_double() {
    let want = [(0, 0), (1, 1), (2, 2), (3, 2), (4, 3), (7, 3), (8, 4), (16, 5), (32, 6), (64, 7),
        (128, 8), (256, 9), (512, 10), (1023, 10), (1024, 11), (u64::MAX, 11)];
    for (v, i) in want {
        assert_eq!(bucket_for(v), i);
    }
    assert_eq!(
        rows_magnitude(&vec![1, 0, 0, 2, 0, 0, 0, 0, 0, 0, 0, 3], "min"),
        vec![("<1 min".to_string(), 1), ("4-8 min".to_string(), 2), ("1024+ min".to_string(), 3)]
    );
    assert!(rows_magnitude(&Vec::new(), "min").is_empty());
}

#[test]
fn the_biggest_count_comes_first() {
    let mut t = Tally::new();
    for k in ["b", "a", "c", "c", "ab"] {
        t.add(k);
    }
    let rows = rows_count_desc(&t);
    let keys: Vec<&str> = rows.iter().map(|(k, _)| k.as_str()).collect();
    assert_eq!(keys, vec!["c", "a", "ab", "b"]);
    assert_eq!(rows.iter().map(|(_, n)| n).sum::<usize>(), 5);
}

#[test]
fn lines_of_a_table_align() {
    let mut out = "x".to_string();
    render_table(&mut out, "kind", &vec![("é".to_string(), 1234567), ("longer".to_string(), 2)]);
    assert_eq!(out, "xBy kind:\n  kind      count\n  é       1234567\n  longer        2\n");
    let widths: Vec<usize> = out.lines().skip(1).map(|l| l.chars().count()).collect();
    assert_eq!(widths, vec![17, 17, 17]);
}

#[test]
fn every_table_adds_up() {
    let (videos, cache) = library();
    let mut stats = Stats::from_cache(&videos, &cache);
    stats.add(&VideoStat::from_probe(&p("/r/e.mp4"), &meta(0, 0, "", None, 2000, None)));
    let text = stats.render();
    assert!(text.starts_with("Statistics for 5 video(s)\n"));
    let tables: Vec<&str> = text.split("\nBy ").skip(1).collect();
    assert_eq!(tables.len(), 6);
    for t in tables {
        let sum: usize = t
            .lines()
            .skip(2)
            .filter(|l| !l.is_empty())
            .map(|l| l.rsplit(' ').next().unwrap().parse::<usize>().unwrap())
            .sum();
        assert_eq!(sum, 5, "{t}");
    }
}
