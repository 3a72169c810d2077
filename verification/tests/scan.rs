use screens::path::Path;
use screens::scan::{
    collect_videos, fmt_ext, keep_entry, non_video_by_ext, skip_lines, warn_skipped_files, Skipped,
    VideoExts,
};

fn p(s: &str) -> Path {
    Path::parse(s.as_bytes())
}

fn raw(list: &[&str]) -> Vec<String> {
    list.iter().map(|e| e.to_string()).collect()
}

fn exts(list: &[&str]) -> VideoExts {
    VideoExts::from_cli(&raw(list)).unwrap()
}

#[test]
fn extensions_are_trimmed_and_lowered() {
    let e = exts(&[" MP4 ", "mkv", "", "  ", "mkv"]);
    assert!(e.is_video(&p("a/b.mp4")));
    assert!(e.is_video(&p("a/b.Mp4")));
    assert!(e.is_video(&p("a/b.MKV")));
    assert!(!e.is_video(&p("a/b.avi")));
    assert!(!e.is_video(&p("a/mp4")));
    assert!(!e.is_video(&p("a/.mp4")));
    assert!(!e.is_empty());
}

#[test]
fn unreadable_extensions_are_no_videos() {
    assert!(!exts(&["mp4"]).is_video(&Path::parse(b"a/b.\xff")));
}

#[test]
fn dots_are_refused() {
    assert_eq!(
        VideoExts::from_cli(&raw(&["mp4", ".mkv", "a.b", ".MKV"])).unwrap_err(),
        "--video-exts entries must not include a leading dot (got: .mkv, a.b)"
    );
}

#[test]
fn an_empty_list_is_refused() {
    for list in [raw(&[]), raw(&["", "   "])] {
        assert_eq!(
            VideoExts::from_cli(&list).unwrap_err(),
            "--video-exts must list at least one extension"
        );
    }
}

#[test]
fn output_trees_are_left_out() {
    assert!(!keep_entry(true, b"Screens", "Screens", "Frames"));
    assert!(!keep_entry(true, b"Frames", "Screens", "Frames"));
    assert!(keep_entry(false, b"Screens", "Screens", "Frames"));
    assert!(keep_entry(true, b"screens", "Screens", "Frames"));
    assert!(keep_entry(true, b"a", "Screens", "Frames"));
}

#[test]
fn videos_are_sorted_by_components() {
    let files =
        vec![p("/r/b.mp4"), p("/r/a/z.mkv"), p("/r/a.b/c.mp4"), p("/r/a/x.txt"), p("/r/a/b.MP4")];
    let got: Vec<String> =
        collect_videos(&files, &exts(&["mp4", "mkv"])).iter().map(|p| p.display()).collect();
    assert_eq!(got, vec!["/r/a/b.MP4", "/r/a/z.mkv", "/r/a.b/c.mp4", "/r/b.mp4"]);
}

#[test]
fn skipped_files_are_counted_by_extension() {
    let files = vec![
        p("/r/b.mp4"),
        p("/r/x.TXT"),
        p("/r/a/y.txt"),
        p("/r/README"),
        p("/r/a/Makefile"),
        p("/r/z.srt"),
        p("/r/dot."),
    ];
    let e = exts(&["mp4"]);
    let got = non_video_by_ext(&p("/r"), &files, &e);
    assert_eq!(
        got.by_ext,
        vec![("".to_string(), 3), ("srt".to_string(), 1), ("txt".to_string(), 2)]
    );
    let bare: Vec<String> = got.no_ext_paths.iter().map(|p| p.display()).collect();
    assert_eq!(bare, vec!["README", "a/Makefile", "dot."]);
    let total: usize = got.by_ext.iter().map(|(_, n)| n).sum();
    assert_eq!(total + collect_videos(&files, &e).len(), files.len());
}

#[test]
fn extensions_are_shown_with_a_dot() {
    assert_eq!(fmt_ext("rmvb"), ".rmvb");
    assert_eq!(fmt_ext(""), "(no extension)");
}

#[test]
fn warnings_end_in_a_summary() {
    let skipped = Skipped {
        by_ext: vec![("".to_string(), 1), ("txt".to_string(), 2)],
        no_ext_paths: vec![Path::parse(b"a/\xffb")],
    };
    assert_eq!(
        warn_skipped_files(&skipped, 0),
        vec![
            "skipped 1 file(s) of type (no extension) (not in --video-exts)".to_string(),
            "skipped 2 file(s) of type .txt (not in --video-exts)".to_string(),
            "skipped file without extension: a/\u{fffd}b".to_string(),
            "skipped 3 file(s) across 2 extension(s) under root; no eligible videos found — the directory appears video-only but uses formats this run does not cover (extend --video-exts if any are video)".to_string(),
        ]
    );
    assert_eq!(
        warn_skipped_files(&skipped, 7)[3],
        "skipped 3 non-video file(s) across 2 extension(s) under root (7 eligible video(s) also found) — mixed videos and other content"
    );
    assert!(skip_lines(&Vec::new(), &Vec::new(), 3).is_empty());
}

#[test]
fn the_order_of_the_walk_does_not_matter() {
    let mut files = vec![p("/r/b.mp4"), p("/r/a/z.mp4"), p("/r/a.b/c.mp4"), p("/r/b.mp4")];
    let e = exts(&["mp4"]);
    let one: Vec<String> = collect_videos(&files, &e).iter().map(|p| p.display()).collect();
    files.reverse();
    let two: Vec<String> =
        collect_videos(&files, &e.clone()).iter().map(|p| p.display()).collect();
    assert_eq!(one, two);
    assert_eq!(one.len(), 4);
}

#[test]
fn every_file_without_an_extension_is_listed() {
    let files = vec![p("/r/README"), p("/r/notes.")];
    let got = non_video_by_ext(&p("/r"), &files, &exts(&["mp4"]));
    assert_eq!(got.by_ext, vec![("".to_string(), 2)]);
    let bare: Vec<String> = got.no_ext_paths.iter().map(|p| p.display()).collect();
    assert_eq!(bare, vec!["README", "notes."]);
}
