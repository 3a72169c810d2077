use screens::assoc::SortedSet;
use screens::orphans::{
    cleanup_frame_orphans, cleanup_orphans, clear_video_frames, find_frame_orphans, find_orphans,
    frame_orphan_report, next_removal, removed_files, sheet_orphan_report, source_exists,
    source_path, sweep_order, Removal,
};
use screens::path::Path;
use screens::paths::{
    frame_file_path, frame_parent_dir, rel_frame_source, rel_source, sheet_path, tree_root,
    PathError,
};

fn p(s: &str) -> Path {
    Path::parse(s.as_bytes())
}

fn s(p: &Path) -> String {
    p.display()
}

fn set(names: &[&str]) -> SortedSet<Path> {
    let mut r = SortedSet::new();
    for n in names {
        r.insert(p(n));
    }
    r
}

#[test]
fn sheet_keeps_the_complete_file_name() {
    let sheet = sheet_path(&p("/root"), "Screens", &p("/root/a/b/video.mkv")).unwrap();
    assert_eq!(sheet.to_bytes(), b"/root/Screens/a/b/video.mkv.jpg".to_vec());
    let back = rel_source(&p("/root"), "Screens", &sheet).unwrap();
    assert_eq!(back.to_bytes(), b"a/b/video.mkv".to_vec());
    assert_eq!(s(&p("/root").join(&back)), "/root/a/b/video.mkv");
}

#[test]
fn many_dots_are_kept() {
    let sheet = sheet_path(&p("/r"), "Screens", &p("/r/Movie.2024.1080p.mp4")).unwrap();
    assert_eq!(s(&sheet), "/r/Screens/Movie.2024.1080p.mp4.jpg");
    let back = rel_source(&p("/r"), "Screens", &sheet).unwrap();
    assert_eq!(s(&back), "Movie.2024.1080p.mp4");
}

#[test]
fn formats_do_not_collide() {
    let a = sheet_path(&p("/r"), "Screens", &p("/r/movie.mp4")).unwrap();
    let b = sheet_path(&p("/r"), "Screens", &p("/r/movie.mkv")).unwrap();
    assert!(!a.same(&b));
}

#[test]
fn sources_outside_the_root_are_refused() {
    let e = sheet_path(&p("/r"), "Screens", &p("/other/a.mp4")).unwrap_err();
    assert_eq!(e, PathError::NotUnderRoot);
    assert_eq!(e.message(), "source video is not under --root");
    assert_eq!(
        frame_parent_dir(&p("/r"), "Frames", &p("/other/a.mp4")).unwrap_err(),
        PathError::NotUnderRoot
    );
}

#[test]
fn names_must_be_readable() {
    let bad = Path::parse(b"/r/\xff.mp4");
    let e = sheet_path(&p("/r"), "Screens", &bad).unwrap_err();
    assert_eq!(e, PathError::NoFileName);
    assert_eq!(e.message(), "source video has no file name");
    assert_eq!(
        frame_file_path(&p("/r"), "Frames", &bad, 1).unwrap_err(),
        PathError::NoFileName
    );
    assert_eq!(
        sheet_path(&p("/r"), "Screens", &p("/r/..")).unwrap_err(),
        PathError::NoFileName
    );
}

#[test]
fn files_outside_a_tree_have_no_source() {
    let e = rel_source(&p("/r"), "Screens", &p("/r/a.mp4.jpg")).unwrap_err();
    assert_eq!(e, PathError::NotInScreens);
    assert_eq!(e.message(), "sheet is not under the screens tree");
    let e = rel_frame_source(&p("/r"), "Frames", &p("/r/a.mp4.0001.jpg")).unwrap_err();
    assert_eq!(e, PathError::NotInFrames);
    assert_eq!(e.message(), "frame is not under the frames tree");
}

#[test]
fn frames_are_numbered_with_four_digits() {
    let root = p("/r");
    let src = p("/r/a/b/movie.mp4");
    let f = frame_file_path(&root, "Frames", &src, 1).unwrap();
    assert_eq!(s(&f), "/r/Frames/a/b/movie.mp4.0001.jpg");
    assert_eq!(s(&rel_frame_source(&root, "Frames", &f).unwrap()), "a/b/movie.mp4");
    let f = frame_file_path(&root, "Frames", &src, 12345).unwrap();
    assert_eq!(s(&f), "/r/Frames/a/b/movie.mp4.12345.jpg");
    assert_eq!(s(&rel_frame_source(&root, "Frames", &f).unwrap()), "a/b/movie.mp4");
    assert_eq!(s(&frame_parent_dir(&root, "Frames", &src).unwrap()), "/r/Frames/a/b");
    assert_eq!(s(&tree_root(&root, "Frames")), "/r/Frames");
}

#[test]
fn frames_and_sheets_have_different_names() {
    let root = p("/r");
    let src = p("/r/movie.mp4");
    let sheet = sheet_path(&root, "Out", &src).unwrap();
    for n in [1, 2, 9999, 10000] {
        let f = frame_file_path(&root, "Out", &src, n).unwrap();
        assert!(!f.same(&sheet));
        let g = frame_file_path(&root, "Out", &src, n + 1).unwrap();
        assert!(!f.same(&g));
    }
    assert!(!sheet_path(&root, "Screens", &p("/r/x.mp4.0001"))
        .unwrap()
        .same(&frame_file_path(&root, "Frames", &p("/r/x.mp4"), 1).unwrap()));
}

#[test]
fn paths_are_taken_apart_once() {
    assert_eq!(s(&p("/a//b/./c/")), "/a/b/c");
    assert_eq!(s(&p("./a")), "./a");
    assert_eq!(s(&p("a/../b")), "a/../b");
    assert_eq!(s(&p("/")), "/");
    assert_eq!(s(&p("")), "");
    assert!(p("/a/b").same(&p("/a/./b//")));
    assert_eq!(p("/a/b").strip_prefix(&p("/a")).map(|r| s(&r)), Some("b".to_string()));
    assert!(p("/ab").strip_prefix(&p("/a")).is_none());
}

#[test]
fn extensions_are_those_of_the_file_system() {
    assert_eq!(p("a/b.tar.gz").extension(), Some(b"gz".to_vec()));
    assert_eq!(p("a/.bashrc").extension(), None);
    assert_eq!(p("a/b.").extension(), Some(Vec::new()));
    assert_eq!(p("a/b").extension(), None);
    assert_eq!(s(&p("a/b.tar.gz").without_ext()), "a/b.tar");
    assert_eq!(s(&p("a/.bashrc").without_ext()), "a/.bashrc");
    assert!(p("a/..").extension().is_none());
    assert!(p("/").parent().is_none());
}

#[test]
fn unreadable_bytes_are_replaced_when_shown() {
    assert_eq!(Path::parse(b"/r/a\xffb").display(), "/r/a\u{fffd}b");
}

#[test]
fn sources_are_matched_exactly() {
    let present = set(&["/r/a/movie.mp4"]);
    assert!(source_exists(&present, &p("/r"), &p("a/movie.mp4")));
    assert!(!source_exists(&present, &p("/r"), &p("a/movie.mkv")));
    assert_eq!(s(&source_path(&p("/r"), &p("a/movie.mp4"))), "/r/a/movie.mp4");
}

#[test]
fn sheets_without_a_source_are_orphans() {
    let root = p("/r");
    let files = vec![
        p("/r/Screens/z.mp4.jpg"),
        p("/r/Screens/a/kept.mp4.jpg"),
        p("/r/Screens/a/notes.txt"),
        p("/r/Screens/a/b.mkv.jpg"),
        p("/r/Screens/a/b.mkv.JPG"),
    ];
    let present = set(&["/r/a/kept.mp4"]);
    let got = find_orphans(&root, "Screens", &files, &present).unwrap();
    let got: Vec<String> = got.iter().map(s).collect();
    assert_eq!(got, vec!["/r/Screens/a/b.mkv.jpg", "/r/Screens/z.mp4.jpg"]);
    let stray = vec![p("/r/elsewhere/x.jpg")];
    assert_eq!(
        find_orphans(&root, "Screens", &stray, &present).unwrap_err(),
        PathError::NotInScreens
    );
    assert!(find_orphans(&root, "Screens", &Vec::new(), &present).unwrap().is_empty());
}

#[test]
fn sheets_of_present_sources_are_no_orphans() {
    let root = p("/r");
    let src = p("/r/d.e/a.b.mp4");
    let files = vec![sheet_path(&root, "Screens", &src).unwrap()];
    let present = set(&["/r/d.e/a.b.mp4"]);
    assert!(find_orphans(&root, "Screens", &files, &present).unwrap().is_empty());
    assert_eq!(find_orphans(&root, "Screens", &files, &set(&[])).unwrap().len(), 1);
}

#[test]
fn frames_need_a_number_and_a_source() {
    let root = p("/r");
    let files = vec![
        p("/r/Frames/a/movie.mp4.0001.jpg"),
        p("/r/Frames/a/movie.mp4.001.jpg"),
        p("/r/Frames/a/movie.mp4.00001.jpg"),
        p("/r/Frames/a/movie.mp4.000x.jpg"),
        p("/r/Frames/a/gone.mp4.0001.jpg"),
        p("/r/Frames/cover.jpg"),
        p("/r/Frames/readme.txt"),
    ];
    let present = set(&["/r/a/movie.mp4"]);
    let got = find_frame_orphans(&root, "Frames", &files, &present).unwrap();
    let got: Vec<String> = got.iter().map(s).collect();
    assert_eq!(
        got,
        vec![
            "/r/Frames/a/gone.mp4.0001.jpg",
            "/r/Frames/a/movie.mp4.00001.jpg",
            "/r/Frames/a/movie.mp4.000x.jpg",
            "/r/Frames/a/movie.mp4.001.jpg",
            "/r/Frames/cover.jpg",
        ]
    );
    assert_eq!(
        find_frame_orphans(&root, "Frames", &vec![p("/r/x.jpg")], &present).unwrap_err(),
        PathError::NotInFrames
    );
}

#[test]
fn frames_up_to_number_9999_live_with_their_source() {
    let root = p("/r");
    let src = p("/r/movie.mp4");
    let present = set(&["/r/movie.mp4"]);
    for (n, orphan) in [(1, false), (9999, false), (10000, true)] {
        let files = vec![frame_file_path(&root, "Frames", &src, n).unwrap()];
        let got = find_frame_orphans(&root, "Frames", &files, &present).unwrap();
        assert_eq!(!got.is_empty(), orphan);
    }
}

#[test]
fn removals_are_counted_up_to_the_first_failure() {
    let orphans = vec![p("/r/S/a.jpg"), p("/r/S/b.jpg"), p("/r/S/c.jpg")];
    let fine = vec![Removal::Removed, Removal::AlreadyGone, Removal::Removed];
    assert_eq!(cleanup_orphans(&orphans, &fine).unwrap(), 2);
    assert_eq!(cleanup_frame_orphans(&orphans, &fine).unwrap(), 2);
    let bad = vec![Removal::Removed, Removal::Failed("denied".to_string())];
    assert_eq!(
        cleanup_orphans(&orphans, &bad).unwrap_err(),
        "failed to remove orphan /r/S/b.jpg: denied"
    );
    assert_eq!(
        cleanup_frame_orphans(&orphans, &bad).unwrap_err(),
        "failed to remove orphan frame /r/S/b.jpg: denied"
    );
    assert_eq!(cleanup_orphans(&Vec::new(), &Vec::new()).unwrap(), 0);
    let names: Vec<String> = removed_files(&orphans, &fine).iter().map(s).collect();
    assert_eq!(names, vec!["/r/S/a.jpg", "/r/S/c.jpg"]);
}

#[test]
fn removals_go_on_until_one_fails() {
    let orphans = vec![p("/r/S/a.jpg"), p("/r/S/b.jpg")];
    let mut outcomes = Vec::new();
    assert_eq!(next_removal(&orphans, &outcomes), Some(0));
    outcomes.push(Removal::AlreadyGone);
    assert_eq!(next_removal(&orphans, &outcomes), Some(1));
    outcomes.push(Removal::Removed);
    assert_eq!(next_removal(&orphans, &outcomes), None);
    let failed = vec![Removal::Failed("denied".to_string())];
    assert_eq!(next_removal(&orphans, &failed), None);
    assert_eq!(next_removal(&Vec::new(), &Vec::new()), None);
}

#[test]
fn orphans_are_reported_one_by_one() {
    let orphans = vec![p("/r/S/a.jpg"), p("/r/S/b.jpg")];
    assert_eq!(
        sheet_orphan_report(&orphans),
        vec!["found 2 orphan sheet(s)", "orphan sheet: /r/S/a.jpg", "orphan sheet: /r/S/b.jpg"]
    );
    assert_eq!(frame_orphan_report(&Vec::new()), vec!["found 0 orphan frame file(s)"]);
    assert_eq!(frame_orphan_report(&orphans)[1], "orphan frame: /r/S/a.jpg");
}

#[test]
fn sweeping_goes_from_the_bottom_up() {
    let base = p("/r/S");
    let dirs = vec![p("/r/S"), p("/r/S/a"), p("/r/S/a/b"), p("/r/S/c"), p("/r/S/a/b/d")];
    let removed = vec![p("/r/S/a/b/d/x.jpg"), p("/r/S/c/y.jpg")];
    let got: Vec<String> = sweep_order(&base, &dirs, &removed).iter().map(s).collect();
    assert_eq!(got, vec!["/r/S/a/b/d", "/r/S/a/b", "/r/S/a", "/r/S/c"]);
}

#[test]
fn directories_that_were_empty_before_stay() {
    let base = p("/r/S");
    let dirs = vec![p("/r/S"), p("/r/S/old"), p("/r/S/a"), p("/r/S/a/old"), p("/r"), p("/")];
    assert!(sweep_order(&base, &dirs, &Vec::new()).is_empty());
    let removed = vec![p("/r/S/a/x.jpg"), p("/r/S/y.jpg")];
    let got: Vec<String> = sweep_order(&base, &dirs, &removed).iter().map(s).collect();
    assert_eq!(got, vec!["/r/S/a"]);
}

#[test]
fn clearing_spares_other_videos() {
    let root = p("/r");
    let src = p("/r/a/movie.mp4");
    let names: Vec<Vec<u8>> = [
        "movie.mp4.0001.jpg",
        "movie.mp4.0002.jpg",
        "movie.mp4.12345.jpg",
        "movie.mp4.000a.jpg",
        "movie.mp4.jpg",
        "movie.mp4.0001.png",
        "movie.mkv.0001.jpg",
        "other.movie.mp4.0001.jpg",
        "movie.mp4.0001.0001.jpg",
    ]
    .iter()
    .map(|n| n.as_bytes().to_vec())
    .collect();
    let got = clear_video_frames(&root, "Frames", &src, &names).unwrap();
    let got: Vec<String> = got.iter().map(s).collect();
    assert_eq!(got, vec!["/r/Frames/a/movie.mp4.0001.jpg", "/r/Frames/a/movie.mp4.0002.jpg"]);
    assert_eq!(
        clear_video_frames(&root, "Frames", &p("/x/movie.mp4"), &names).unwrap_err(),
        PathError::NotUnderRoot
    );
    assert_eq!(
        clear_video_frames(&root, "Frames", &Path::parse(b"/r/\xff.mp4"), &names).unwrap_err(),
        PathError::NoFileName
    );
}

#[test]
fn outputs_stay_in_their_tree() {
    let root = p("/r");
    for src in [p("/r/a.mp4"), p("/r/x/../y/b.mp4")] {
        let sheet = sheet_path(&root, "Screens", &src).unwrap();
        assert!(sheet.strip_prefix(&tree_root(&root, "Screens")).is_some());
        let frame = frame_file_path(&root, "Frames", &src, 3).unwrap();
        assert!(frame.strip_prefix(&tree_root(&root, "Frames")).is_some());
    }
}

#[test]
fn sources_are_never_orphans() {
    let root = p("/r");
    let files = vec![p("/r/a/cover.jpg"), p("/r/b.mp4")];
    assert_eq!(
        find_orphans(&root, "Screens", &files, &set(&[])).unwrap_err(),
        PathError::NotInScreens
    );
    assert_eq!(
        find_frame_orphans(&root, "Frames", &files, &set(&[])).unwrap_err(),
        PathError::NotInFrames
    );
    let videos = vec![p("/r/b.mp4"), p("/r/c/d.mkv")];
    assert!(find_orphans(&root, "Screens", &videos, &set(&[])).unwrap().is_empty());
    assert!(find_frame_orphans(&root, "Frames", &videos, &set(&[])).unwrap().is_empty());
}

#[test]
fn spellings_survive_being_read_again() {
    for spelling in ["/", "/a", "a", ".", "..", "./a/../b", "/a/b.c/..d", "a b/c"] {
        let once = p(spelling);
        assert_eq!(s(&once), spelling);
        assert!(Path::parse(&once.to_bytes()).same(&once));
    }
}
