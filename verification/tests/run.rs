use screens::cli::{
    advance, check_flags, check_root, check_tools, family_file, family_file_shown, font_file_error,
    resolve_font_path, FcMatch, Flags, FontSource, Plan, RunError, Stage,
};
use screens::path::Path;
use screens::paths::PathError;
use screens::picture::{native_frame, Picture, Rgb};
use screens::sheet::Layout;
use screens::worker::{
    cell_count, corrupt, decoding_failure, frame_jobs, task_for, worker_count, Progress, SheetWork,
    Task,
};

fn flags() -> Flags {
    Flags {
        quality: 85,
        thumb_mp_ok: true,
        font_size: 22,
        screens_dir: "Screens".to_string(),
        frames_dir: "Frames".to_string(),
    }
}

fn hard(r: Result<(), RunError>) -> String {
    let e = r.unwrap_err();
    assert_eq!(e.code(), 2);
    e.message().to_string()
}

#[test]
fn flags_are_checked_in_order() {
    assert!(check_flags(&flags()).is_ok());
    for q in [0, 101] {
        assert_eq!(hard(check_flags(&Flags { quality: q, ..flags() })), "--quality must be in 1..=100");
    }
    assert_eq!(
        hard(check_flags(&Flags { thumb_mp_ok: false, font_size: 0, ..flags() })),
        "--thumb-mp must be > 0"
    );
    assert_eq!(hard(check_flags(&Flags { font_size: 0, ..flags() })), "--font-size must be >= 1");
    for d in ["", "a/b", "a\\b"] {
        assert_eq!(
            hard(check_flags(&Flags { screens_dir: d.to_string(), ..flags() })),
            "--screens-dir must be a single path component"
        );
        assert_eq!(
            hard(check_flags(&Flags { frames_dir: d.to_string(), ..flags() })),
            "--frames-dir must be a single path component"
        );
    }
    assert_eq!(
        hard(check_flags(&Flags { frames_dir: "Screens".to_string(), ..flags() })),
        "--frames-dir must differ from --screens-dir"
    );
}

#[test]
fn the_root_must_be_a_directory() {
    assert!(check_root("x", true, None).is_ok());
    assert_eq!(hard(check_root("x", false, None)), "ROOT x is not a directory");
    assert_eq!(hard(check_root("x", true, Some("denied".to_string()))), "ROOT x: denied");
}

#[test]
fn both_tools_are_needed() {
    assert!(check_tools(true, true).is_ok());
    assert_eq!(hard(check_tools(false, false)), "ffmpeg not found on PATH");
    assert_eq!(hard(check_tools(true, false)), "ffprobe not found on PATH");
}

#[test]
fn fonts_are_files_or_families() {
    assert_eq!(resolve_font_path(true, false).unwrap(), FontSource::File);
    assert_eq!(resolve_font_path(false, true).unwrap(), FontSource::Family);
    assert_eq!(
        resolve_font_path(false, false).unwrap_err().message(),
        "fc-match not found on PATH (needed to resolve --font family names; pass --font <PATH> to a font file, or install fontconfig)"
    );
}

#[test]
fn families_are_resolved_by_what_was_written() {
    assert_eq!(family_file("Mono", FcMatch::Wrote(b" /f/Mono.ttf\n".to_vec())).unwrap(), "/f/Mono.ttf");
    let e = family_file("No \"such\"", FcMatch::Wrote(b" \n".to_vec())).unwrap_err();
    assert_eq!(
        e.message(),
        "fc-match returned no font file for --font \"No \\\"such\\\"\"; is the family installed?"
    );
    assert_eq!(e.code(), 2);
    let e = family_file("Mono", FcMatch::Failed(Some(3))).unwrap_err();
    assert_eq!(e.message(), "fc-match failed for --font \"Mono\" (exit Some(3))");
    let e = family_file_shown("?", FcMatch::NotStarted("gone".to_string())).unwrap_err();
    assert_eq!(e.message(), "running fc-match: gone");
    assert_eq!(font_file_error("/f", "denied").message(), "reading font /f: denied");
}

fn run(plan: Plan, failing: Option<Stage>) -> (Vec<Stage>, u8) {
    let mut seen = Vec::new();
    let mut stage = Stage::Flags;
    while stage != Stage::Done {
        seen.push(stage);
        let outcome =
            if failing == Some(stage) { Err("broken".to_string()) } else { Ok(()) };
        match advance(stage, plan, outcome) {
            Ok(next) => stage = next,
            Err(e) => {
                assert_eq!(e.message(), "broken");
                return (seen, e.code());
            }
        }
    }
    (seen, 0)
}

#[test]
fn exit_codes_tell_how_far_a_run_came() {
    let plan = Plan { cleanup: true, any_videos: true };
    let (all, code) = run(plan, None);
    assert_eq!((all.len(), code), (12, 0));
    for (i, s) in all.iter().enumerate() {
        let (seen, code) = run(plan, Some(*s));
        assert_eq!(seen.len(), i + 1);
        assert_eq!(code, if i < 5 { 2 } else { 1 });
    }
    let (seen, _) = run(Plan { cleanup: false, any_videos: false }, None);
    assert!(!seen.contains(&Stage::Cleanup) && !seen.contains(&Stage::FrameCleanup));
    assert!(!seen.contains(&Stage::Stats));
    assert!(seen.contains(&Stage::Skipped));
}

#[test]
fn existing_sheets_are_skipped_unless_forced() {
    assert_eq!(task_for(false, true), Task::Skip);
    assert_eq!(task_for(true, true), Task::Process);
    assert_eq!(task_for(false, false), Task::Process);
    assert_eq!(worker_count(0), 1);
    assert_eq!(worker_count(8), 8);
}

#[test]
fn progress_is_counted() {
    let src = Path::parse(b"/r/a.mp4");
    let dest = Path::parse(b"/r/Screens/a.mp4.jpg");
    let mut p = Progress::new(3);
    assert_eq!(p.wrote(&dest), "[1/3] wrote /r/Screens/a.mp4.jpg");
    assert_eq!(
        p.skip(&src, &dest),
        "/r/a.mp4: sheet already exists, skipping (1 skipped so far; use --force to regenerate) -> /r/Screens/a.mp4.jpg"
    );
    assert_eq!(p.wrote(&dest), "[2/3] wrote /r/Screens/a.mp4.jpg");
    assert_eq!(p.processed(), 2);
    assert_eq!(
        p.closing(),
        vec![
            "processed 2/3 video(s)",
            "skipped 1 video(s) with existing sheet(s); pass --force to regenerate"
        ]
    );
    assert_eq!(Progress::new(0).closing(), vec!["processed 0/0 video(s)"]);
    assert_eq!(corrupt(&src, "why"), "/r/a.mp4: corrupt (why)");
    assert_eq!(decoding_failure(4, "why"), "decoding frame 4 (why)");
}

#[test]
fn every_cell_gets_a_frame() {
    let root = Path::parse(b"/r");
    let src = Path::parse(b"/r/a/movie.mp4");
    assert_eq!(cell_count(4, 3), Some(12));
    assert_eq!(cell_count(65536, 65536), None);
    let plan = frame_jobs(&root, "Frames", &src, 12, true).unwrap();
    assert_eq!(plan.clear.as_ref().unwrap().display(), "/r/Frames/a");
    let jobs = plan.jobs;
    assert_eq!(jobs.len(), 12);
    assert_eq!(jobs[0].number, 1);
    assert_eq!(jobs[11].point, (12, 13));
    assert_eq!(jobs[11].png, "frame_0011.png");
    assert_eq!(
        jobs[11].keep.as_ref().unwrap().display(),
        "/r/Frames/a/movie.mp4.0012.jpg"
    );
    let plan = frame_jobs(&root, "Frames", &src, 12, false).unwrap();
    assert!(plan.clear.is_none());
    let plain = plan.jobs;
    for (a, b) in jobs.iter().zip(&plain) {
        assert_eq!((a.number, a.point, &a.png), (b.number, b.point, &b.png));
        assert!(b.keep.is_none());
    }
    let outside = Path::parse(b"/x/movie.mp4");
    assert_eq!(
        frame_jobs(&root, "Frames", &outside, 1, true).unwrap_err(),
        PathError::NotUnderRoot
    );
    assert!(frame_jobs(&root, "Frames", &outside, 1, false).is_ok());
}

#[test]
fn every_video_is_worked_on() {
    let exists = [true, false, true, true];
    let dest = Path::parse(b"/r/Screens/a.mp4.jpg");
    for (force, written) in [(false, 1), (true, 4)] {
        let mut p = Progress::new(exists.len());
        for e in exists {
            match task_for(force, e) {
                Task::Skip => p.skip(&dest, &dest),
                Task::Process => p.wrote(&dest),
            };
        }
        assert_eq!(p.processed(), written);
    }
}

fn png(w: u32, h: u32, c: u8) -> Vec<u8> {
    let img = image::RgbImage::from_pixel(w, h, image::Rgb([c, c, c]));
    let mut out = std::io::Cursor::new(Vec::new());
    img.write_to(&mut out, image::ImageFormat::Png).unwrap();
    out.into_inner()
}

#[test]
fn sheets_are_made_from_intermediate_images() {
    let layout = Layout { gap: 2, outer: 0, font_size: 22, header_pad: 8, jpeg_q: 100 };
    let mut work = SheetWork::new(2, 1, 16, 16);
    work.add_frame(&png(64, 64, 200)).unwrap();
    let e = work.add_frame(b"no image").unwrap_err();
    assert_eq!(e, decoding_failure(1, &native_frame(b"no image").unwrap_err()));
    assert_eq!(work.len(), 1);
    work.add_frame(&png(32, 40, 90)).unwrap();
    let header = Picture::from_pixel(38, 8, Rgb { r: 0, g: 0, b: 0 });
    let file = work.finish(&header, 8, &layout).unwrap();
    let img = image::load_from_memory(&file).unwrap().to_rgb8();
    assert_eq!((img.width(), img.height()), (38, 28));
    let near = |x: u32, y: u32, want: u8| {
        let c = img.get_pixel(x, y)[0];
        assert!(c.abs_diff(want) < 12, "{c} at {x},{y}");
    };
    near(10, 18, 200);
    near(28, 18, 90);
    near(10, 3, 0);
    let huge = Layout { gap: 40000, ..layout };
    assert!(work.finish(&header, 8, &huge).is_none());
    let beyond = Layout { gap: u32::MAX, ..layout };
    assert!(work.finish(&header, 8, &beyond).is_none());
    let mut again = SheetWork::new(2, 1, 16, 16);
    again.add_frame(&png(64, 64, 200)).unwrap();
    again.add_frame(&png(32, 40, 90)).unwrap();
    assert_eq!(again.finish(&header, 8, &layout).unwrap(), file);
}
