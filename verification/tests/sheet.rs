use screens::path::Path;
use screens::picture::{native_frame, thumbnail, write_jpeg, Picture, Rgb};
use screens::probe::{AudioMeta, Duration, ProbeMeta, VideoMeta};
use screens::sheet::{
    composite_sheet, format_audio_line, format_duration, format_video_line, header_lines,
    header_lines_sized, height_of_sheet, strip_for, width_of_sheet, Layout,
};
use screens::text::TextRenderer;

fn rgb(n: u8) -> Rgb {
    Rgb { r: n, g: n + 1, b: n + 2 }
}

fn pixel(p: &Picture, x: u32, y: u32) -> Rgb {
    let b = p.to_raw();
    let i = 3 * (y as usize * p.width() as usize + x as usize);
    Rgb { r: b[i], g: b[i + 1], b: b[i + 2] }
}

fn meta() -> ProbeMeta {
    ProbeMeta {
        duration: Duration { bits: 0, secs: 3_725, minutes: 62 },
        size_bytes: 1536,
        bit_rate: None,
        video: VideoMeta {
            codec: Some("h264".to_string()),
            width: 1920,
            height: 1080,
            fps: Some("23.976".to_string()),
            bit_rate: Some(12_345_678),
        },
        audio: Some(AudioMeta {
            codec: Some("aac".to_string()),
            channels: 2,
            sample_rate: 44_100,
        }),
    }
}

fn png(img: &image::RgbImage) -> Vec<u8> {
    let mut out = std::io::Cursor::new(Vec::new());
    img.write_to(&mut out, image::ImageFormat::Png).unwrap();
    out.into_inner()
}

#[test]
fn layout_has_defaults() {
    let l = Layout::default();
    assert_eq!((l.gap, l.outer, l.font_size, l.header_pad, l.jpeg_q), (4, 0, 22, 8, 85));
}

#[test]
fn durations_read_like_a_clock() {
    assert_eq!(format_duration(0), "00:00:00");
    assert_eq!(format_duration(59), "00:00:59");
    assert_eq!(format_duration(3_725), "01:02:05");
    assert_eq!(format_duration(86_399), "23:59:59");
    assert_eq!(format_duration(86_400), "1d00:00:00");
    assert_eq!(format_duration(200_000), "2d07:33:20");
    assert_eq!(format_duration(-3_661), "-1:-1:-1");
    assert_eq!(format_duration(-5), "00:00:-5");
    assert_eq!(format_duration(i64::MAX), "106751991167300d15:30:07");
    assert_eq!(format_duration(i64::MIN), "-15:-30:-8");
}

#[test]
fn the_header_has_four_lines() {
    let src = Path::parse(b"/r/a/movie.mp4");
    assert_eq!(
        header_lines(&src, &meta()),
        [
            "movie.mp4".to_string(),
            "Size: 1.50 KiB   Duration: 01:02:05".to_string(),
            "Video: h264  1920x1080  12,345 kb/s  23.976 fps".to_string(),
            "Audio: aac  2ch  44,100 Hz".to_string(),
        ]
    );
    let mut small = meta();
    small.size_bytes = 1023;
    assert_eq!(header_lines(&src, &small)[1], "Size: 1023 B   Duration: 01:02:05");
    assert_eq!(header_lines_sized(&src, &small, "tiny")[1], "Size: tiny   Duration: 01:02:05");
    assert_eq!(header_lines(&Path::parse(b"/r/\xff"), &small)[0], "<unknown>");
    assert_eq!(header_lines(&Path::parse(b"/"), &small)[0], "<unknown>");
}

#[test]
fn unknown_values_show_as_dashes() {
    let v = VideoMeta { codec: None, width: 0, height: 0, fps: None, bit_rate: None };
    assert_eq!(format_video_line(&v, None), "Video: —  0x0  —  — fps");
    assert_eq!(format_video_line(&v, Some(999)), "Video: —  0x0  0 kb/s  — fps");
    assert_eq!(
        format_video_line(&v, Some(1_234_567_890_000)),
        "Video: —  0x0  1,234,567,890 kb/s  — fps"
    );
    assert_eq!(format_audio_line(&None), "Audio: —");
    let a = AudioMeta { codec: None, channels: 6, sample_rate: 1_000_005 };
    assert_eq!(format_audio_line(&Some(a)), "Audio: —  6ch  1,000,005 Hz");
    assert_eq!(header_lines(&Path::parse(b"a"), &ProbeMeta { audio: None, ..meta() })[3], "Audio: —");
}

#[test]
fn a_strip_puts_every_row_on_its_own_line() {
    let rows = vec!["a".to_string(), "b".to_string(), "c".to_string()];
    let s = strip_for(rows, 29, 640, 8).unwrap();
    assert_eq!(s.ys, vec![8, 37, 66]);
    assert_eq!((s.x, s.width, s.height), (8, 640, 103));
    let c = s.canvas();
    assert_eq!((c.width(), c.height()), (640, 103));
    assert_eq!(pixel(&c, 639, 102), Rgb { r: 0, g: 0, b: 0 });
    let rows = vec!["a".to_string(), "b".to_string()];
    assert!(strip_for(rows, u32::MAX, 640, 8).is_none());
    assert!(strip_for(Vec::new(), 1, 640, u32::MAX).is_none());
    assert_eq!(strip_for(Vec::new(), 1, 640, 0).unwrap().canvas().height(), 1);
}

#[test]
fn malformed_fonts_are_refused() {
    match TextRenderer::from_bytes(b"no font".to_vec()) {
        Ok(_) => panic!("this is no font"),
        Err(m) => assert_eq!(m, "font data is malformed: InvalidFont"),
    }
}

#[test]
fn pictures_keep_their_bytes() {
    let bytes: Vec<u8> = (0..18).collect();
    let p = Picture::from_raw(3, 2, &bytes).unwrap();
    assert_eq!((p.width(), p.height()), (3, 2));
    assert_eq!(p.to_raw(), bytes);
    assert_eq!(pixel(&p, 1, 1), Rgb { r: 12, g: 13, b: 14 });
    assert!(Picture::from_raw(3, 2, &bytes[..17]).is_none());
    assert!(Picture::from_raw(3, 1, &bytes).is_none());
    assert!(Picture::from_raw(0, 5, &[]).is_some());
}

#[test]
fn pasting_cuts_off_what_does_not_fit() {
    let mut p = Picture::from_pixel(4, 3, rgb(0));
    p.overlay(&Picture::from_pixel(3, 3, rgb(100)), 2, 1);
    for y in 0..3 {
        for x in 0..4 {
            let want = if x >= 2 && y >= 1 { rgb(100) } else { rgb(0) };
            assert_eq!(pixel(&p, x, y), want);
        }
    }
    let before = p.to_raw();
    p.overlay(&Picture::from_pixel(3, 3, rgb(50)), 4, 0);
    p.overlay(&Picture::from_pixel(3, 3, rgb(50)), u32::MAX, u32::MAX);
    assert_eq!(p.to_raw(), before);
}

#[test]
fn every_frame_appears_in_its_cell() {
    let layout = Layout { gap: 2, outer: 3, font_size: 22, header_pad: 8, jpeg_q: 85 };
    let (cols, rows, tw, th, hh) = (3u32, 2u32, 4u32, 5u32, 7u32);
    let w = width_of_sheet(&layout, cols, tw).unwrap();
    let h = height_of_sheet(&layout, rows, th, hh).unwrap();
    assert_eq!((w, h), (26, 29));
    let header = Picture::from_pixel(w, hh, rgb(200));
    let frames: Vec<Picture> = (0..6).map(|k| Picture::from_pixel(tw, th, rgb(10 * k + 1))).collect();
    let sheet = composite_sheet(&header, hh, &frames, cols, rows, tw, th, &layout);
    assert_eq!((sheet.width(), sheet.height()), (w, h));
    for y in 0..h {
        for x in 0..w {
            let mut want = if y < hh { rgb(200) } else { Rgb { r: 0, g: 0, b: 0 } };
            for k in 0..6u32 {
                let cx = 3 + 2 + (k % 3) * 6;
                let cy = 3 + 7 + 2 + (k / 3) * 7;
                if cx <= x && x < cx + tw && cy <= y && y < cy + th {
                    want = rgb(10 * k as u8 + 1);
                }
            }
            assert_eq!(pixel(&sheet, x, y), want, "at {x},{y}");
        }
    }
}

#[test]
fn sheets_that_are_too_large_have_no_size() {
    let layout = Layout::default();
    assert!(width_of_sheet(&layout, u32::MAX, u32::MAX).is_none());
    assert!(height_of_sheet(&layout, 1, u32::MAX, 1).is_none());
    assert_eq!(width_of_sheet(&layout, 0, 10), Some(18));
}

#[test]
fn frames_are_read_and_scaled() {
    let mut img = image::RgbImage::from_pixel(8, 4, image::Rgb([10, 20, 30]));
    img.put_pixel(0, 0, image::Rgb([255, 0, 0]));
    let file = png(&img);
    let native = native_frame(&file).unwrap();
    assert_eq!((native.width(), native.height()), (8, 4));
    assert_eq!(native.to_raw(), img.as_raw().clone());
    let t = thumbnail(&file, 6, 6).unwrap();
    assert_eq!((t.width(), t.height()), (6, 6));
    assert_eq!(pixel(&t, 5, 5), Rgb { r: 10, g: 20, b: 30 });
    let want = image::DynamicImage::ImageRgb8(img)
        .resize_exact(6, 6, image::imageops::FilterType::Triangle)
        .to_rgb8();
    assert_eq!(t.to_raw(), want.into_raw());
    assert!(!native_frame(b"no image").unwrap_err().is_empty());
    assert_eq!(thumbnail(b"no image", 2, 2).unwrap_err(), native_frame(b"no image").unwrap_err());
    let refusal = image::load_from_memory_with_format(b"no image", image::ImageFormat::Png);
    assert_eq!(native_frame(b"no image").unwrap_err(), refusal.unwrap_err().to_string());
}

#[test]
fn sheets_are_written_as_jpeg() {
    let p = Picture::from_pixel(20, 10, Rgb { r: 250, g: 10, b: 10 });
    let file = write_jpeg(&p, 90).unwrap();
    let back = image::load_from_memory(&file).unwrap().to_rgb8();
    assert_eq!((back.width(), back.height()), (20, 10));
    let c = back.get_pixel(7, 7);
    assert!(c[0] > 230 && c[1] < 40 && c[2] < 40);
    assert_eq!(write_jpeg(&p, 0), write_jpeg(&p, 1));
    assert_eq!(write_jpeg(&p, 5000), write_jpeg(&p, 100));
    assert_ne!(write_jpeg(&p, 1), write_jpeg(&p, 100));
    assert!(write_jpeg(&Picture::from_pixel(0, 10, rgb(0)), 90).is_none());
    assert!(write_jpeg(&Picture::from_pixel(1, 65536, rgb(0)), 90).is_none());
    assert!(write_jpeg(&Picture::from_pixel(1, 65535, rgb(0)), 90).is_some());
}
