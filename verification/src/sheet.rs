//! Sheets: the text of the header, where everything goes, and putting the
//! picture together.
use vstd::prelude::*;
use crate::path::{file_name, Part, Path};
use crate::picture::{black, covers, filled, overlaid, raster_ok, Picture, Raster, Rgb};
use crate::probe::{
    law_container_rate_wins, opt_text, shown_rate, AudioInfo, AudioMeta, MetaInfo, ProbeMeta,
    VideoInfo, VideoMeta,
};
use crate::strings::{
    all_digits, byte_len, dec, decimal, decode, digit, holds, is_digit, lemma_dec_digits, lemma_holds,
    pad_left, padded_left, squeeze, text_of, texts,
};
use crate::text::{columns, line_rows, TextRenderer};

verus! {

// ---- layout ----

/// The measures of a sheet, in pixels, and the quality of its file.
#[derive(Debug, Clone, Copy, PartialEq, Eq, Structural)]
pub struct Layout {
    /// The gap between thumbnails.
    pub gap: u32,
    /// The margin around everything.
    pub outer: u32,
    pub font_size: u32,
    /// The space around the header text.
    pub header_pad: u32,
    pub jpeg_q: u32,
}

/// The measures where none are given.
pub open spec fn default_layout() -> Layout {
    Layout { gap: 4, outer: 0, font_size: 22, header_pad: 8, jpeg_q: 85 }
}

impl Default for Layout {
    /// The measures where none are given.
    fn default() -> (r: Layout)
        ensures
            r == default_layout(),
    {
        Layout { gap: 4, outer: 0, font_size: 22, header_pad: 8, jpeg_q: 85 }
    }
}

// ---- numbers in words ----

/// The size in words that `humansize` gives a number of bytes.
pub uninterp spec fn humansize_binary(bytes: u64) -> Seq<char>;

/// `humansize::format_size` with its binary units. The text depends on the
/// number alone; below 1024 it is the number itself, a space and `B`.
#[verifier::external_body]
fn humanize_size(bytes: u64) -> (r: String)
    ensures
        r@ == humansize_binary(bytes),
        bytes < 1024 ==> r@ == dec(bytes as nat) + " B"@,
{
    humansize::format_size(bytes, humansize::BINARY)
}

/// `n` in decimal with a comma before every three digits.
pub open spec fn with_commas(n: nat) -> Seq<char>
    decreases n,
{
    if n < 1000 {
        dec(n)
    } else {
        with_commas(n / 1000) + ","@ + pad_left(dec(n % 1000), 3, '0')
    }
}

/// `num_format::ToFormattedString` for the English locale: decimal digits in
/// groups of three, with commas between them.
#[verifier::external_body]
fn grouped(n: u64) -> (r: String)
    ensures
        r@ == with_commas(n as nat),
{
    num_format::ToFormattedString::to_formatted_string(&n, &num_format::Locale::en)
}

/// Division that rounds towards zero.
pub open spec fn quotient(a: int, b: int) -> int {
    if a >= 0 {
        a / b
    } else {
        -((-a) / b)
    }
}

/// What is left by a division that rounds towards zero.
pub open spec fn remainder(a: int, b: int) -> int {
    a - quotient(a, b) * b
}

/// `n` in at least two characters: a leading zero, or else a minus sign.
pub open spec fn two_digits(n: int) -> Seq<char> {
    if n >= 0 {
        pad_left(dec(n as nat), 2, '0')
    } else {
        "-"@ + dec((-n) as nat)
    }
}

/// Hours, minutes and seconds.
pub open spec fn clock_text(rem: int) -> Seq<char> {
    two_digits(quotient(rem, 3600)) + ":"@ + two_digits(quotient(remainder(rem, 3600), 60)) + ":"@
        + two_digits(remainder(rem, 60))
}

/// A duration in whole seconds, with the days in front if there are any.
pub open spec fn duration_text(total: int) -> Seq<char> {
    let days = quotient(total, 86400);
    let rem = total - days * 86400;
    if days > 0 {
        dec(days as nat) + "d"@ + clock_text(rem)
    } else {
        clock_text(rem)
    }
}

fn two(n: i64) -> (r: String)
    requires
        -1000000 < n < 1000000,
    ensures
        r@ == two_digits(n as int),
{
    if n >= 0 {
        let d: String = decimal(n as u64);
        padded_left(d.as_str(), 2, '0')
    } else {
        let d: String = decimal((-n) as u64);
        let mut m: String = "-".to_owned();
        m.append(d.as_str());
        m
    }
}

/// What a duration in whole seconds reads like.
pub fn format_duration(total: i64) -> (r: String)
    ensures
        r@ == duration_text(total as int),
{
    let days: i64 = total / 86400;
    let rem: i64 = total - days * 86400;
    let h: i64 = rem / 3600;
    let rest: i64 = rem % 3600;
    let m: i64 = rest / 60;
    let s: i64 = rem % 60;
    let mut out: String = String::new();
    if days > 0 {
        let d: String = decimal(days as u64);
        out.append(d.as_str());
        out.append("d");
    }
    let h: String = two(h);
    let m: String = two(m);
    let s: String = two(s);
    out.append(h.as_str());
    out.append(":");
    out.append(m.as_str());
    out.append(":");
    out.append(s.as_str());
    assert(out@ =~= duration_text(total as int));
    out
}

// ---- the header text ----

/// What stands for something that is not known.
pub open spec fn dash() -> Seq<char> {
    "—"@
}

/// A text, or a dash where there is none.
pub open spec fn or_dash(o: Option<Seq<char>>) -> Seq<char> {
    match o {
        Some(s) => s,
        None => dash(),
    }
}

fn known_or_dash(o: &Option<String>) -> (r: String)
    ensures
        r@ == or_dash(opt_text(*o)),
{
    match o {
        Some(s) => s.clone(),
        None => "—".to_owned(),
    }
}

/// A rate as it is shown.
pub open spec fn rate_text(rate: Option<u64>) -> Seq<char> {
    match rate {
        Some(b) => with_commas((b / 1000) as nat) + " kb/s"@,
        None => dash(),
    }
}

/// The header line about the video stream.
pub open spec fn video_line(v: VideoInfo, rate: Option<u64>) -> Seq<char> {
    "Video: "@ + or_dash(v.codec) + "  "@ + dec(v.width as nat) + "x"@ + dec(v.height as nat)
        + "  "@ + rate_text(rate) + "  "@ + or_dash(v.fps) + " fps"@
}

/// The header line about the video stream.
pub fn format_video_line(v: &VideoMeta, bit_rate: Option<u64>) -> (r: String)
    ensures
        r@ == video_line(v@, bit_rate),
{
    let codec: String = known_or_dash(&v.codec);
    let w: String = decimal(v.width as u64);
    let h: String = decimal(v.height as u64);
    let rate: String = match bit_rate {
        Some(b) => {
            let mut t: String = grouped(b / 1000);
            t.append(" kb/s");
            t
        },
        None => "—".to_owned(),
    };
    let fps: String = known_or_dash(&v.fps);
    let mut out: String = "Video: ".to_owned();
    out.append(codec.as_str());
    out.append("  ");
    out.append(w.as_str());
    out.append("x");
    out.append(h.as_str());
    out.append("  ");
    out.append(rate.as_str());
    out.append("  ");
    out.append(fps.as_str());
    out.append(" fps");
    out
}

/// The header line about the audio stream.
pub open spec fn audio_line(a: Option<AudioInfo>) -> Seq<char> {
    match a {
        Some(a) => "Audio: "@ + or_dash(a.codec) + "  "@ + dec(a.channels as nat) + "ch  "@
            + with_commas(a.sample_rate as nat) + " Hz"@,
        None => "Audio: —"@,
    }
}

/// The header line about the audio stream.
pub fn format_audio_line(a: &Option<AudioMeta>) -> (r: String)
    ensures
        r@ == audio_line(
            match *a {
                Some(m) => Some(m@),
                None => None,
            },
        ),
{
    match a {
        Some(a) => {
            let codec: String = known_or_dash(&a.codec);
            let channels: String = decimal(a.channels as u64);
            let rate: String = grouped(a.sample_rate as u64);
            let mut out: String = "Audio: ".to_owned();
            out.append(codec.as_str());
            out.append("  ");
            out.append(channels.as_str());
            out.append("ch  ");
            out.append(rate.as_str());
            out.append(" Hz");
            out
        },
        None => "Audio: —".to_owned(),
    }
}

/// The name of a video as it is shown.
pub open spec fn base_name(src: Seq<Part>) -> Seq<char> {
    match file_name(src) {
        Some(name) => match text_of(name) {
            Some(t) => t,
            None => "<unknown>"@,
        },
        None => "<unknown>"@,
    }
}

/// The four lines of a header: the name, the size and the duration, the video
/// stream, and the audio stream.
pub open spec fn header_text(src: Seq<Part>, m: MetaInfo, size: Seq<char>) -> Seq<Seq<char>> {
    seq![
        base_name(src),
        "Size: "@ + size + "   Duration: "@ + duration_text(m.duration.secs as int),
        video_line(m.video, shown_rate(m)),
        audio_line(m.audio),
    ]
}

/// The four lines of a header, the size being given in words.
pub fn header_lines_sized(src: &Path, meta: &ProbeMeta, size: &str) -> (r: [String; 4])
    ensures
        texts(r@) == header_text(src@, meta@, size@),
{
    let name: String = match src.file_name() {
        Some(name) => match decode(name.as_slice()) {
            Some(t) => t,
            None => "<unknown>".to_owned(),
        },
        None => "<unknown>".to_owned(),
    };
    let duration: String = format_duration(meta.duration.secs);
    let mut second: String = "Size: ".to_owned();
    second.append(size);
    second.append("   Duration: ");
    second.append(duration.as_str());
    let video: String = format_video_line(&meta.video, meta.rate());
    let audio: String = format_audio_line(&meta.audio);
    let r: [String; 4] = [name, second, video, audio];
    assert(texts(r@) =~= header_text(src@, meta@, size@));
    r
}

/// The four lines of a header.
pub fn header_lines(src: &Path, meta: &ProbeMeta) -> (r: [String; 4])
    ensures
        texts(r@) == header_text(src@, meta@, humansize_binary(meta.size_bytes)),
        meta.size_bytes < 1024 ==> texts(r@) == header_text(
            src@,
            meta@,
            dec(meta.size_bytes as nat) + " B"@,
        ),
{
    let size: String = humanize_size(meta.size_bytes);
    header_lines_sized(src, meta, size.as_str())
}

/// Every sheet has an audio line, and without an audio stream it says so.
pub proof fn law_audio_line_is_always_there(src: Seq<Part>, m: MetaInfo, size: Seq<char>)
    ensures
        header_text(src, m, size).len() == 4,
        m.audio is None ==> header_text(src, m, size)[3] == "Audio: —"@,
{
}

// ---- the header strip ----

/// The width that is left for text.
pub open spec fn text_width(sheet_w: u32, pad: u32) -> u32 {
    if sheet_w > 2 * pad {
        (sheet_w - 2 * pad) as u32
    } else {
        1
    }
}

/// The rows of all header lines, one line after the other.
pub open spec fn strip_rows(lines: Seq<Seq<char>>, glyph_w: u32, max_w: u32) -> Seq<Seq<char>>
    decreases lines.len(),
{
    if lines.len() == 0 {
        Seq::empty()
    } else {
        strip_rows(lines.drop_last(), glyph_w, max_w) + line_rows(lines.last(), glyph_w, max_w)
    }
}

/// Whether a header line is short enough for a single row.
pub open spec fn is_short(line: Seq<char>, glyph_w: u32, max_w: u32) -> bool {
    byte_len(squeeze(line)) < columns(glyph_w, max_w)
}

/// The header lines with single spaces between their words.
pub open spec fn tidy_lines(lines: Seq<Seq<char>>) -> Seq<Seq<char>> {
    lines.map_values(|l: Seq<char>| squeeze(l))
}

/// The height of a header strip.
pub open spec fn strip_height(rows: nat, line_height: u32, pad: u32) -> nat {
    2 * pad as nat + rows * line_height as nat
}

/// Where the text of a header goes: every row at the column `x` and at a line
/// of its own, in a strip of the given size.
#[derive(Debug)]
pub struct Strip {
    pub rows: Vec<String>,
    pub ys: Vec<u32>,
    pub x: u32,
    pub width: u32,
    pub height: u32,
}

/// The strip for the given rows.
pub open spec fn is_strip(
    s: Strip,
    rows: Seq<Seq<char>>,
    line_height: u32,
    sheet_w: u32,
    pad: u32,
) -> bool {
    &&& texts(s.rows@) == rows
    &&& s.x == pad
    &&& s.width == sheet_w
    &&& s.height == strip_height(rows.len(), line_height, pad)
    &&& s.ys@.len() == rows.len()
    &&& forall|k: int| 0 <= k < rows.len() ==> #[trigger] s.ys@[k] == pad + k * line_height
}

/// The strip for the given rows, unless it would be too high.
pub fn strip_for(rows: Vec<String>, line_height: u32, sheet_w: u32, pad: u32) -> (r: Option<Strip>)
    ensures
        r is Some <==> strip_height(rows@.len(), line_height, pad) <= u32::MAX,
        r matches Some(s) ==> is_strip(s, texts(rows@), line_height, sheet_w, pad),
{
    let n: usize = rows.len();
    let mut ys: Vec<u32> = Vec::new();
    let mut y: u64 = 2 * pad as u64;
    if y > u32::MAX as u64 {
        assert(n * line_height >= 0) by (nonlinear_arith);
        return None;
    }
    assert(0 * line_height == 0) by (nonlinear_arith);
    for k in 0..n
        invariant
            n == rows@.len(),
            y == 2 * pad + k * line_height,
            y <= u32::MAX,
            ys@.len() == k,
            forall|i: int| 0 <= i < k ==> #[trigger] ys@[i] == pad + i * line_height,
    {
        assert((k + 1) * line_height == k * line_height + line_height) by (nonlinear_arith);
        ys.push((y - pad as u64) as u32);
        y = y + line_height as u64;
        if y > u32::MAX as u64 {
            assert((k + 1) * line_height <= n * line_height) by (nonlinear_arith)
                requires
                    k < n,
            ;
            return None;
        }
    }
    Some(Strip { rows, ys, x: pad, width: sheet_w, height: y as u32 })
}

impl Strip {
    /// The picture that the text is to be drawn on.
    pub fn canvas(&self) -> (r: Picture)
        ensures
            r@ == filled(
                self.width as nat,
                if self.height == 0 {
                    1
                } else {
                    self.height as nat
                },
                black(),
            ),
    {
        let h: u32 = if self.height == 0 {
            1
        } else {
            self.height
        };
        Picture::from_pixel(self.width, h, Rgb { r: 0, g: 0, b: 0 })
    }
}

/// Lays the header lines out in a strip of the sheet's width: `glyph_w` is the
/// width of a glyph and `line_height` the height of a row, in pixels. There is
/// none where the strip would be too high. Lines that are all short enough take
/// one row each.
pub fn render_header_strip(
    renderer: &TextRenderer,
    lines: &[String; 4],
    glyph_w: u32,
    line_height: u32,
    sheet_w: u32,
    layout: &Layout,
) -> (r: Option<Strip>)
    ensures
        ({
            let rows = strip_rows(texts(lines@), glyph_w, text_width(sheet_w, layout.header_pad));
            &&& rows.len() >= 4
            &&& r is Some <==> strip_height(rows.len(), line_height, layout.header_pad) <= u32::MAX
            &&& r matches Some(s) ==> is_strip(s, rows, line_height, sheet_w, layout.header_pad)
            &&& (forall|i: int|
                0 <= i < 4 ==> is_short(
                    #[trigger] texts(lines@)[i],
                    glyph_w,
                    text_width(sheet_w, layout.header_pad),
                )) ==> rows == tidy_lines(texts(lines@))
        }),
{
    let pad: u32 = layout.header_pad;
    let max_w: u32 = if sheet_w as u64 > 2 * pad as u64 {
        (sheet_w as u64 - 2 * pad as u64) as u32
    } else {
        1
    };
    let mut rows: Vec<String> = Vec::new();
    let ghost all = texts(lines@);
    for i in 0..4
        invariant
            all == texts(lines@),
            lines@.len() == 4,
            texts(rows@) == strip_rows(all.take(i as int), glyph_w, max_w),
            rows@.len() >= i,
            (forall|k: int| 0 <= k < 4 ==> is_short(#[trigger] all[k], glyph_w, max_w)) ==> texts(
                rows@,
            ) == tidy_lines(all.take(i as int)),
    {
        assert(all.take(i as int + 1).drop_last() =~= all.take(i as int));
        let wrapped: Vec<String> = renderer.wrap_line(lines[i].as_str(), glyph_w, max_w);
        let ghost before = texts(rows@);
        for k in 0..wrapped.len()
            invariant
                texts(rows@) =~= before + texts(wrapped@).take(k as int),
        {
            let ghost was = texts(rows@);
            rows.push(wrapped[k].clone());
            assert(texts(rows@) =~= was.push(wrapped@[k as int]@));
        }
        assert(texts(wrapped@).take(wrapped@.len() as int) =~= texts(wrapped@));
        assert(rows@.len() == texts(rows@).len());
        assert(before.len() >= i);
        proof {
            if forall|k: int| 0 <= k < 4 ==> is_short(#[trigger] all[k], glyph_w, max_w) {
                assert(is_short(all[i as int], glyph_w, max_w));
                assert(texts(rows@) =~= tidy_lines(all.take(i as int + 1)));
            }
        }
    }
    assert(all.take(4) =~= all);
    strip_for(rows, line_height, sheet_w, pad)
}

// ---- the sheet ----

/// At least one.
pub open spec fn at_least_one(n: u32) -> int {
    if n == 0 {
        1
    } else {
        n as int
    }
}

/// The width of a sheet.
pub open spec fn sheet_width(layout: Layout, cols: u32, thumb_w: u32) -> int {
    2 * layout.outer + at_least_one(cols) * thumb_w + (at_least_one(cols) + 1) * layout.gap
}

/// The height of a sheet whose header is `header_h` high.
pub open spec fn sheet_height(layout: Layout, rows: u32, thumb_h: u32, header_h: u32) -> int {
    2 * layout.outer + header_h + at_least_one(rows) * thumb_h + (at_least_one(rows) + 1)
        * layout.gap
}

/// The left edge of the thumbnails in a column.
pub open spec fn cell_x(layout: Layout, col: int, thumb_w: u32) -> int {
    layout.outer + layout.gap + col * (thumb_w + layout.gap)
}

/// The upper edge of the thumbnails in a row.
pub open spec fn cell_y(layout: Layout, row: int, thumb_h: u32, header_h: u32) -> int {
    layout.outer + header_h + layout.gap + row * (thumb_h + layout.gap)
}

/// `base` with the first `k` frames pasted into their cells, left to right and
/// top to bottom.
pub open spec fn pasted(
    base: Raster,
    frames: Seq<Raster>,
    k: nat,
    layout: Layout,
    cols: int,
    thumb_w: u32,
    thumb_h: u32,
    header_h: u32,
) -> Raster
    decreases k,
{
    if k == 0 {
        base
    } else {
        let i = (k - 1) as int;
        overlaid(
            pasted(base, frames, (k - 1) as nat, layout, cols, thumb_w, thumb_h, header_h),
            frames[i],
            cell_x(layout, i % cols, thumb_w),
            cell_y(layout, i / cols, thumb_h, header_h),
        )
    }
}

/// A black sheet with the header at its top.
pub open spec fn sheet_base(header: Raster, width: int, height: int) -> Raster {
    overlaid(
        filled(
            if width == 0 {
                1
            } else {
                width as nat
            },
            if height == 0 {
                1
            } else {
                height as nat
            },
            black(),
        ),
        header,
        0,
        0,
    )
}

/// The views of the frames.
pub open spec fn rasters(frames: Seq<Picture>) -> Seq<Raster> {
    Seq::new(frames.len(), |i: int| frames[i]@)
}

/// A whole sheet.
pub open spec fn sheet_raster(
    header: Raster,
    header_h: u32,
    frames: Seq<Raster>,
    cols: u32,
    rows: u32,
    thumb_w: u32,
    thumb_h: u32,
    layout: Layout,
) -> Raster {
    pasted(
        sheet_base(
            header,
            sheet_width(layout, cols, thumb_w),
            sheet_height(layout, rows, thumb_h, header_h),
        ),
        frames,
        frames.len(),
        layout,
        at_least_one(cols),
        thumb_w,
        thumb_h,
        header_h,
    )
}

proof fn lemma_product(a: int, b: int)
    requires
        a >= 0,
        b >= 0,
    ensures
        a * b >= 0,
{
    assert(a * b >= 0) by (nonlinear_arith)
        requires
            a >= 0,
            b >= 0,
    ;
}

/// So many parts of one size with gaps around them, and a rest.
fn extent(rest: u64, parts: u32, size: u32, gap: u32) -> (r: Option<u32>)
    requires
        rest <= 0x4_0000_0000,
    ensures
        match r {
            Some(n) => n == rest + at_least_one(parts) * size + (at_least_one(parts) + 1) * gap,
            None => rest + at_least_one(parts) * size + (at_least_one(parts) + 1) * gap > u32::MAX,
        },
{
    let parts: u64 = if parts == 0 {
        1
    } else {
        parts as u64
    };
    assert(parts * size <= 0xffff_ffff * 0xffff_ffff) by (nonlinear_arith)
        requires
            parts <= 0xffff_ffff,
            size <= 0xffff_ffff,
    ;
    assert((parts + 1) * gap <= 0x1_0000_0000 * 0xffff_ffff) by (nonlinear_arith)
        requires
            parts <= 0xffff_ffff,
            gap <= 0xffff_ffff,
    ;
    proof {
        lemma_product(parts as int, size as int);
        lemma_product(parts + 1, gap as int);
    }
    let a: u64 = parts * size as u64;
    let b: u64 = (parts + 1) * gap as u64;
    if a > u32::MAX as u64 || b > u32::MAX as u64 || rest + a + b > u32::MAX as u64 {
        None
    } else {
        Some((rest + a + b) as u32)
    }
}

/// The width of a sheet, unless it is too large.
pub fn width_of_sheet(layout: &Layout, cols: u32, thumb_w: u32) -> (r: Option<u32>)
    ensures
        match r {
            Some(n) => n == sheet_width(*layout, cols, thumb_w),
            None => sheet_width(*layout, cols, thumb_w) > u32::MAX,
        },
{
    extent(2 * layout.outer as u64, cols, thumb_w, layout.gap)
}

/// The height of a sheet whose header is `header_h` high, unless it is too
/// large.
pub fn height_of_sheet(layout: &Layout, rows: u32, thumb_h: u32, header_h: u32) -> (r: Option<u32>)
    ensures
        match r {
            Some(n) => n == sheet_height(*layout, rows, thumb_h, header_h),
            None => sheet_height(*layout, rows, thumb_h, header_h) > u32::MAX,
        },
{
    extent(2 * layout.outer as u64 + header_h as u64, rows, thumb_h, layout.gap)
}

/// A cell of a full grid lies inside the sheet.
proof fn lemma_cell_inside(layout: Layout, at: int, parts: int, size: u32)
    requires
        0 <= at < parts,
    ensures
        at * (size + layout.gap) >= 0,
        layout.gap + at * (size + layout.gap) + size + layout.gap <= parts * size + (parts + 1)
            * layout.gap,
{
    let s = size as int;
    let g = layout.gap as int;
    assert(at * (s + g) >= 0) by (nonlinear_arith)
        requires
            at >= 0,
            s >= 0,
            g >= 0,
    ;
    assert(g + at * (s + g) + s + g <= parts * s + (parts + 1) * g) by (nonlinear_arith)
        requires
            0 <= at,
            at + 1 <= parts,
            s >= 0,
            g >= 0,
    ;
}

/// The column and the row of frame `k`.
proof fn lemma_cell_of(k: int, cols: int, rows: int)
    requires
        cols > 0,
        0 <= k < cols * rows,
    ensures
        0 <= k % cols < cols,
        0 <= k / cols < rows,
        k == (k / cols) * cols + k % cols,
{
    vstd::arithmetic::div_mod::lemma_fundamental_div_mod(k, cols);
    let q = k / cols;
    assert(q * cols == cols * q) by (nonlinear_arith);
    assert(0 <= q) by (nonlinear_arith)
        requires
            k >= 0,
            cols > 0,
            q == k / cols,
    ;
    assert(q < rows) by (nonlinear_arith)
        requires
            q * cols <= k,
            k < cols * rows,
            cols > 0,
    ;
}

/// Puts a sheet together: the header at the top, the frames below it in their
/// cells, everything else black. The grid is full.
pub fn composite_sheet(
    header: &Picture,
    header_h: u32,
    frames: &Vec<Picture>,
    cols: u32,
    rows: u32,
    thumb_w: u32,
    thumb_h: u32,
    layout: &Layout,
) -> (r: Picture)
    requires
        frames@.len() == cols * rows,
        sheet_width(*layout, cols, thumb_w) <= u32::MAX,
        sheet_height(*layout, rows, thumb_h, header_h) <= u32::MAX,
    ensures
        r@ == sheet_raster(
            header@,
            header_h,
            rasters(frames@),
            cols,
            rows,
            thumb_w,
            thumb_h,
            *layout,
        ),
{
    let width: u32 = match width_of_sheet(layout, cols, thumb_w) {
        Some(n) => n,
        None => 0,
    };
    let height: u32 = match height_of_sheet(layout, rows, thumb_h, header_h) {
        Some(n) => n,
        None => 0,
    };
    let w: u32 = if width == 0 {
        1
    } else {
        width
    };
    let h: u32 = if height == 0 {
        1
    } else {
        height
    };
    let mut sheet: Picture = Picture::from_pixel(w, h, Rgb { r: 0, g: 0, b: 0 });
    sheet.overlay(header, 0, 0);
    let ghost base = sheet@;
    let n: usize = frames.len();
    let ghost all = rasters(frames@);
    let mut col: u32 = 0;
    let mut row: u32 = 0;
    proof {
        if n > 0 {
            assert(cols > 0) by (nonlinear_arith)
                requires
                    cols * rows > 0,
            ;
            assert(0 * cols == 0) by (nonlinear_arith);
            vstd::arithmetic::div_mod::lemma_fundamental_div_mod_converse(0, cols as int, 0, 0);
        }
    }
    for k in 0..n
        invariant
            n == frames@.len(),
            n == cols * rows,
            all == rasters(frames@),
            sheet_width(*layout, cols, thumb_w) <= u32::MAX,
            sheet_height(*layout, rows, thumb_h, header_h) <= u32::MAX,
            n > 0 ==> cols > 0,
            k < n ==> col == (k as int) % (cols as int) && row == (k as int) / (cols as int),
            sheet@ == pasted(
                base,
                all,
                k as nat,
                *layout,
                at_least_one(cols),
                thumb_w,
                thumb_h,
                header_h,
            ),
    {
        proof {
            lemma_cell_of(k as int, cols as int, rows as int);
            lemma_cell_inside(*layout, col as int, cols as int, thumb_w);
            lemma_cell_inside(*layout, row as int, rows as int, thumb_h);
            lemma_product(cols as int, thumb_w as int);
            lemma_product(rows as int, thumb_h as int);
        }
        let x: u64 = layout.outer as u64 + layout.gap as u64 + col as u64 * (thumb_w as u64
            + layout.gap as u64);
        let y: u64 = layout.outer as u64 + header_h as u64 + layout.gap as u64 + row as u64 * (
        thumb_h as u64 + layout.gap as u64);
        sheet.overlay(&frames[k], x as u32, y as u32);
        assert(all[k as int] == frames@[k as int]@);
        proof {
            lemma_next_cell(k as int, cols as int);
        }
        if col + 1 < cols {
            col = col + 1;
        } else {
            col = 0;
            if k + 1 < n {
                proof {
                    lemma_cell_of(k + 1, cols as int, rows as int);
                }
                row = row + 1;
            }
        }
    }
    sheet
}

/// The next frame goes one column on, or into the first column of the next row.
proof fn lemma_next_cell(k: int, cols: int)
    requires
        cols > 0,
        k >= 0,
    ensures
        k % cols + 1 < cols ==> (k + 1) % cols == k % cols + 1 && (k + 1) / cols == k / cols,
        k % cols + 1 >= cols ==> (k + 1) % cols == 0 && (k + 1) / cols == k / cols + 1,
{
    let q = k / cols;
    let m = k % cols;
    vstd::arithmetic::div_mod::lemma_fundamental_div_mod(k, cols);
    vstd::arithmetic::div_mod::lemma_mod_bound(k, cols);
    if m + 1 < cols {
        assert(k + 1 == q * cols + (m + 1)) by (nonlinear_arith)
            requires
                k == cols * q + m,
        ;
        vstd::arithmetic::div_mod::lemma_fundamental_div_mod_converse(k + 1, cols, q, m + 1);
    } else {
        assert(k + 1 == (q + 1) * cols + 0) by (nonlinear_arith)
            requires
                k == cols * q + m,
                m + 1 == cols,
        ;
        vstd::arithmetic::div_mod::lemma_fundamental_div_mod_converse(k + 1, cols, q + 1, 0);
    }
}

// ---- laws of the sheet ----

/// A full grid of frames that all have the size of a thumbnail.
pub open spec fn full_grid(
    frames: Seq<Raster>,
    cols: u32,
    rows: u32,
    thumb_w: u32,
    thumb_h: u32,
) -> bool {
    &&& cols > 0
    &&& frames.len() == cols * rows
    &&& forall|k: int|
        0 <= k < frames.len() ==> raster_ok(#[trigger] frames[k]) && frames[k].width == thumb_w
            && frames[k].rows.len() == thumb_h
}

/// Whether the pixel at column `i` of row `j` lies in the cell of frame `k`.
pub open spec fn in_cell(
    layout: Layout,
    cols: u32,
    thumb_w: u32,
    thumb_h: u32,
    header_h: u32,
    k: int,
    i: int,
    j: int,
) -> bool {
    &&& cell_x(layout, k % (cols as int), thumb_w) <= i < cell_x(layout, k % (cols as int), thumb_w)
        + thumb_w
    &&& cell_y(layout, k / (cols as int), thumb_h, header_h) <= j < cell_y(
        layout,
        k / (cols as int),
        thumb_h,
        header_h,
    ) + thumb_h
}

/// Two spans of the same size, `a` and `b` steps on, share no place.
proof fn lemma_spans_apart(start: int, size: int, gap: int, a: int, b: int, at: int)
    requires
        size >= 0,
        gap >= 0,
        start + a * (size + gap) <= at < start + a * (size + gap) + size,
        start + b * (size + gap) <= at < start + b * (size + gap) + size,
    ensures
        a == b,
{
    if a < b {
        assert(b * (size + gap) >= a * (size + gap) + (size + gap)) by (nonlinear_arith)
            requires
                a + 1 <= b,
                size + gap >= 0,
        ;
    } else if b < a {
        assert(a * (size + gap) >= b * (size + gap) + (size + gap)) by (nonlinear_arith)
            requires
                b + 1 <= a,
                size + gap >= 0,
        ;
    }
}

/// No two frames share a pixel of the sheet.
pub proof fn law_cells_are_disjoint(
    layout: Layout,
    cols: u32,
    thumb_w: u32,
    thumb_h: u32,
    header_h: u32,
    a: int,
    b: int,
    i: int,
    j: int,
)
    requires
        cols > 0,
        0 <= a,
        0 <= b,
        in_cell(layout, cols, thumb_w, thumb_h, header_h, a, i, j),
        in_cell(layout, cols, thumb_w, thumb_h, header_h, b, i, j),
    ensures
        a == b,
{
    let c = cols as int;
    let g = layout.gap as int;
    lemma_spans_apart(layout.outer + layout.gap, thumb_w as int, g, a % c, b % c, i);
    lemma_spans_apart(
        layout.outer + header_h + layout.gap,
        thumb_h as int,
        g,
        a / c,
        b / c,
        j,
    );
    vstd::arithmetic::div_mod::lemma_fundamental_div_mod(a, c);
    vstd::arithmetic::div_mod::lemma_fundamental_div_mod(b, c);
}

/// Pasting changes no sizes.
proof fn lemma_pasted_size(
    base: Raster,
    frames: Seq<Raster>,
    k: nat,
    layout: Layout,
    cols: u32,
    thumb_w: u32,
    thumb_h: u32,
    header_h: u32,
)
    ensures
        ({
            let p = pasted(base, frames, k, layout, cols as int, thumb_w, thumb_h, header_h);
            &&& p.width == base.width
            &&& p.rows.len() == base.rows.len()
            &&& forall|j: int|
                0 <= j < base.rows.len() ==> (#[trigger] p.rows[j]).len() == base.rows[j].len()
        }),
    decreases k,
{
    if k > 0 {
        lemma_pasted_size(
            base,
            frames,
            (k - 1) as nat,
            layout,
            cols,
            thumb_w,
            thumb_h,
            header_h,
        );
    }
}

/// A sheet has the size that its layout gives it, and at least one pixel.
pub proof fn lemma_sheet_size(
    header: Raster,
    header_h: u32,
    frames: Seq<Raster>,
    cols: u32,
    rows: u32,
    thumb_w: u32,
    thumb_h: u32,
    layout: Layout,
)
    requires
        frames.len() == cols * rows,
    ensures
        ({
            let p = sheet_raster(header, header_h, frames, cols, rows, thumb_w, thumb_h, layout);
            let w = sheet_width(layout, cols, thumb_w);
            let h = sheet_height(layout, rows, thumb_h, header_h);
            &&& w >= 0 && h >= 0
            &&& p.width == if w == 0 {
                1
            } else {
                w
            }
            &&& p.rows.len() == if h == 0 {
                1
            } else {
                h
            }
        }),
{
    let w = sheet_width(layout, cols, thumb_w);
    let h = sheet_height(layout, rows, thumb_h, header_h);
    lemma_product(at_least_one(cols), thumb_w as int);
    lemma_product(at_least_one(cols) + 1, layout.gap as int);
    lemma_product(at_least_one(rows), thumb_h as int);
    lemma_product(at_least_one(rows) + 1, layout.gap as int);
    if cols > 0 {
        lemma_pasted_size(
            sheet_base(header, w, h),
            frames,
            frames.len(),
            layout,
            cols,
            thumb_w,
            thumb_h,
            header_h,
        );
    } else {
        assert(cols * rows == 0) by (nonlinear_arith)
            requires
                cols == 0,
        ;
    }
}

/// What pasting leaves at one pixel: that of the frame in whose cell it lies,
/// or else that of the base.
proof fn lemma_pasted_pixel(
    base: Raster,
    frames: Seq<Raster>,
    k: nat,
    layout: Layout,
    cols: u32,
    rows: u32,
    thumb_w: u32,
    thumb_h: u32,
    header_h: u32,
    i: int,
    j: int,
)
    requires
        full_grid(frames, cols, rows, thumb_w, thumb_h),
        k <= frames.len(),
        0 <= j < base.rows.len(),
        0 <= i < base.rows[j].len(),
    ensures
        ({
            let p = pasted(base, frames, k, layout, cols as int, thumb_w, thumb_h, header_h);
            let c = cols as int;
            &&& forall|m: int|
                0 <= m < k && #[trigger] in_cell(
                    layout,
                    cols,
                    thumb_w,
                    thumb_h,
                    header_h,
                    m,
                    i,
                    j,
                ) ==> p.rows[j][i] == frames[m].rows[j - cell_y(
                    layout,
                    m / c,
                    thumb_h,
                    header_h,
                )][i - cell_x(layout, m % c, thumb_w)]
            &&& (forall|m: int|
                0 <= m < k ==> !#[trigger] in_cell(
                    layout,
                    cols,
                    thumb_w,
                    thumb_h,
                    header_h,
                    m,
                    i,
                    j,
                )) ==> p.rows[j][i] == base.rows[j][i]
        }),
    decreases k,
{
    if k > 0 {
        let l = (k - 1) as nat;
        lemma_pasted_pixel(
            base,
            frames,
            l,
            layout,
            cols,
            rows,
            thumb_w,
            thumb_h,
            header_h,
            i,
            j,
        );
        lemma_pasted_size(base, frames, l, layout, cols, thumb_w, thumb_h, header_h);
        let before = pasted(base, frames, l, layout, cols as int, thumb_w, thumb_h, header_h);
        assert(before.rows[j].len() == base.rows[j].len());
        let top = frames[l as int];
        assert(raster_ok(top));
        if in_cell(layout, cols, thumb_w, thumb_h, header_h, l as int, i, j) {
            assert forall|m: int|
                0 <= m < k && #[trigger] in_cell(
                    layout,
                    cols,
                    thumb_w,
                    thumb_h,
                    header_h,
                    m,
                    i,
                    j,
                ) implies m == l by {
                law_cells_are_disjoint(
                    layout,
                    cols,
                    thumb_w,
                    thumb_h,
                    header_h,
                    m,
                    l as int,
                    i,
                    j,
                );
            }
        }
    }
}

/// The sheet shows every frame whole and unchanged in its cell.
pub proof fn law_frames_appear_in_their_cells(
    header: Raster,
    header_h: u32,
    frames: Seq<Raster>,
    cols: u32,
    rows: u32,
    thumb_w: u32,
    thumb_h: u32,
    layout: Layout,
    k: int,
    i: int,
    j: int,
)
    requires
        full_grid(frames, cols, rows, thumb_w, thumb_h),
        0 <= k < frames.len(),
        0 <= i < thumb_w,
        0 <= j < thumb_h,
    ensures
        ({
            let p = sheet_raster(header, header_h, frames, cols, rows, thumb_w, thumb_h, layout);
            let x = cell_x(layout, k % (cols as int), thumb_w);
            let y = cell_y(layout, k / (cols as int), thumb_h, header_h);
            &&& 0 <= y + j < p.rows.len()
            &&& 0 <= x + i < p.width
            &&& p.rows[y + j][x + i] == frames[k].rows[j][i]
        }),
{
    let c = cols as int;
    let x = cell_x(layout, k % c, thumb_w);
    let y = cell_y(layout, k / c, thumb_h, header_h);
    lemma_cell_of(k, c, rows as int);
    lemma_cell_inside(layout, k % c, c, thumb_w);
    lemma_cell_inside(layout, k / c, rows as int, thumb_h);
    let base = sheet_base(
        header,
        sheet_width(layout, cols, thumb_w),
        sheet_height(layout, rows, thumb_h, header_h),
    );
    assert(base.rows[y + j].len() == base.width);
    lemma_pasted_size(base, frames, frames.len(), layout, cols, thumb_w, thumb_h, header_h);
    lemma_pasted_pixel(
        base,
        frames,
        frames.len(),
        layout,
        cols,
        rows,
        thumb_w,
        thumb_h,
        header_h,
        x + i,
        y + j,
    );
    assert(in_cell(layout, cols, thumb_w, thumb_h, header_h, k, x + i, y + j));
}

/// Outside the cells the sheet shows the header where the header is, and black
/// everywhere else; and no cell reaches into the header.
pub proof fn law_rest_of_the_sheet(
    header: Raster,
    header_h: u32,
    frames: Seq<Raster>,
    cols: u32,
    rows: u32,
    thumb_w: u32,
    thumb_h: u32,
    layout: Layout,
    i: int,
    j: int,
)
    requires
        full_grid(frames, cols, rows, thumb_w, thumb_h),
        ({
            let p = sheet_raster(header, header_h, frames, cols, rows, thumb_w, thumb_h, layout);
            0 <= j < p.rows.len() && 0 <= i < p.width
        }),
        forall|m: int|
            0 <= m < frames.len() && j >= header_h ==> !#[trigger] in_cell(
                layout,
                cols,
                thumb_w,
                thumb_h,
                header_h,
                m,
                i,
                j,
            ),
    ensures
        ({
            let p = sheet_raster(header, header_h, frames, cols, rows, thumb_w, thumb_h, layout);
            p.rows[j][i] == if covers(header, 0, 0, i, j) {
                header.rows[j][i]
            } else {
                black()
            }
        }),
{
    let w = sheet_width(layout, cols, thumb_w);
    let h = sheet_height(layout, rows, thumb_h, header_h);
    let base = sheet_base(header, w, h);
    lemma_pasted_size(base, frames, frames.len(), layout, cols, thumb_w, thumb_h, header_h);
    assert forall|m: int| 0 <= m < frames.len() implies !#[trigger] in_cell(
        layout,
        cols,
        thumb_w,
        thumb_h,
        header_h,
        m,
        i,
        j,
    ) by {
        lemma_cell_of(m, cols as int, rows as int);
        lemma_cell_inside(layout, m / (cols as int), rows as int, thumb_h);
    }
    assert(base.rows[j].len() == base.width);
    lemma_pasted_pixel(
        base,
        frames,
        frames.len(),
        layout,
        cols,
        rows,
        thumb_w,
        thumb_h,
        header_h,
        i,
        j,
    );
}

// ---- laws of the layout ----

/// The grid is even: the first cell lies one gap inside the margin and, in
/// height, below the header; each cell lies one thumbnail and one gap beyond
/// the one before it; and behind the last there is one gap and the margin. No
/// column counts as one, and so does no row.
pub proof fn law_grid_is_even(
    layout: Layout,
    cols: u32,
    rows: u32,
    thumb_w: u32,
    thumb_h: u32,
    header_h: u32,
    k: int,
)
    requires
        cols > 0,
        rows > 0,
    ensures
        cell_x(layout, 0, thumb_w) == layout.outer + layout.gap,
        cell_x(layout, k + 1, thumb_w) == cell_x(layout, k, thumb_w) + thumb_w + layout.gap,
        sheet_width(layout, cols, thumb_w) == cell_x(layout, cols - 1, thumb_w) + thumb_w
            + layout.gap + layout.outer,
        cell_y(layout, 0, thumb_h, header_h) == layout.outer + header_h + layout.gap,
        cell_y(layout, k + 1, thumb_h, header_h) == cell_y(layout, k, thumb_h, header_h) + thumb_h
            + layout.gap,
        sheet_height(layout, rows, thumb_h, header_h) == cell_y(layout, rows - 1, thumb_h, header_h)
            + thumb_h + layout.gap + layout.outer,
        sheet_width(layout, 0, thumb_w) == sheet_width(layout, 1, thumb_w),
        sheet_height(layout, 0, thumb_h, header_h) == sheet_height(layout, 1, thumb_h, header_h),
{
    let g = layout.gap as int;
    let w = thumb_w as int;
    let h = thumb_h as int;
    let c = cols as int;
    let r = rows as int;
    assert(0 * (w + g) == 0 && 0 * (h + g) == 0) by (nonlinear_arith);
    assert((k + 1) * (w + g) == k * (w + g) + (w + g)) by (nonlinear_arith);
    assert((k + 1) * (h + g) == k * (h + g) + (h + g)) by (nonlinear_arith);
    assert(c * w + (c + 1) * g == g + (c - 1) * (w + g) + w + g) by (nonlinear_arith);
    assert(r * h + (r + 1) * g == g + (r - 1) * (h + g) + h + g) by (nonlinear_arith);
}

/// What is left of a sheet where nothing is drawn is black.
pub proof fn law_background_is_black(width: nat, height: nat, i: int, j: int)
    requires
        0 <= i < width,
        0 <= j < height,
    ensures
        filled(width, height, black()).rows[j][i] == (Rgb { r: 0, g: 0, b: 0 }),
        filled(width, height, black()).width == width,
        filled(width, height, black()).rows.len() == height,
{
}

/// The header text has its padding on both sides, wherever the sheet is wide
/// enough for that.
pub proof fn law_header_text_is_padded(sheet_w: u32, pad: u32)
    ensures
        sheet_w > 2 * pad ==> text_width(sheet_w, pad) + 2 * pad == sheet_w,
        sheet_w <= 2 * pad ==> text_width(sheet_w, pad) == 1,
{
}

/// The rows of a header stand one below the other, a line apart, with the
/// padding above the first, below the last and in front of each.
pub proof fn law_header_rows_are_stacked(
    s: Strip,
    rows: Seq<Seq<char>>,
    line_height: u32,
    sheet_w: u32,
    pad: u32,
    k: int,
)
    requires
        is_strip(s, rows, line_height, sheet_w, pad),
        0 <= k < rows.len(),
    ensures
        s.rows@.len() == rows.len(),
        s.rows@[k]@ == rows[k],
        s.x == pad,
        s.width == sheet_w,
        s.ys@.len() == rows.len(),
        s.ys@[0] == pad,
        k + 1 < rows.len() ==> s.ys@[k + 1] == s.ys@[k] + line_height,
        s.ys@[rows.len() - 1] + line_height + pad == s.height,
{
    let h = line_height as int;
    let n = rows.len() as int;
    assert(texts(s.rows@)[k] == s.rows@[k]@);
    assert(0 * h == 0) by (nonlinear_arith);
    assert((k + 1) * h == k * h + h) by (nonlinear_arith);
    assert(n * h == (n - 1) * h + h) by (nonlinear_arith);
    assert(s.ys@[0] == pad + 0 * line_height);
    assert(s.ys@[k] == pad + k * line_height);
    if k + 1 < n {
        assert(s.ys@[k + 1] == pad + (k + 1) * line_height);
    }
    assert(s.ys@[n - 1] == pad + (n - 1) * line_height);
}

/// The rows of a header are those of its four lines, in their order.
pub proof fn law_header_shows_all_lines(
    a: Seq<char>,
    b: Seq<char>,
    c: Seq<char>,
    d: Seq<char>,
    glyph_w: u32,
    max_w: u32,
)
    ensures
        strip_rows(seq![a, b, c, d], glyph_w, max_w) == line_rows(a, glyph_w, max_w) + line_rows(
            b,
            glyph_w,
            max_w,
        ) + line_rows(c, glyph_w, max_w) + line_rows(d, glyph_w, max_w),
{
    reveal_with_fuel(strip_rows, 5);
    let all = seq![a, b, c, d];
    assert(all.drop_last() =~= seq![a, b, c]);
    assert(seq![a, b, c].drop_last() =~= seq![a, b]);
    assert(seq![a, b].drop_last() =~= seq![a]);
    assert(seq![a].drop_last() =~= Seq::<Seq<char>>::empty());
    assert(strip_rows(seq![a], glyph_w, max_w) =~= line_rows(a, glyph_w, max_w));
}

// ---- laws of the header text ----

/// A clock of two digits each for hours, minutes and seconds.
pub open spec fn clock_digits(h: int, m: int, s: int) -> Seq<char> {
    seq![
        ('0' as u32 + h / 10) as char,
        ('0' as u32 + h % 10) as char,
        ':',
        ('0' as u32 + m / 10) as char,
        ('0' as u32 + m % 10) as char,
        ':',
        ('0' as u32 + s / 10) as char,
        ('0' as u32 + s % 10) as char,
    ]
}

/// A duration reads as the hours, minutes and seconds that it is made of, two
/// digits each, behind the days and a `d` where there are any.
pub proof fn law_duration_reads_as_a_clock(d: nat, h: int, m: int, s: int)
    requires
        0 <= h < 24,
        0 <= m < 60,
        0 <= s < 60,
    ensures
        d == 0 ==> duration_text(3600 * h + 60 * m + s) == clock_digits(h, m, s),
        d > 0 ==> duration_text(86400 * d + 3600 * h + 60 * m + s) == dec(d).push('d')
            + clock_digits(h, m, s),
{
    let rem = 3600 * h + 60 * m + s;
    let total = 86400 * d + rem;
    assert(total / 86400 == d);
    assert(rem / 3600 == h);
    assert((60 * m + s) / 60 == m);
    assert(rem / 60 == 60 * h + m);
    lemma_two_digits(h);
    lemma_two_digits(m);
    lemma_two_digits(s);
    reveal_strlit(":");
    reveal_strlit("d");
    assert(clock_text(rem) =~= clock_digits(h, m, s));
    if d > 0 {
        assert(duration_text(total) =~= dec(d).push('d') + clock_digits(h, m, s));
    }
}

proof fn lemma_two_digits(n: int)
    requires
        0 <= n < 100,
    ensures
        two_digits(n) == seq![('0' as u32 + n / 10) as char, ('0' as u32 + n % 10) as char],
{
    reveal_with_fuel(dec, 2);
    assert(two_digits(n) =~= seq![('0' as u32 + n / 10) as char, ('0' as u32 + n % 10) as char]);
}

/// The line about the video shows its codec, its size, its rate in thousands
/// of bits and its frame rate, with a dash for what is not known.
pub proof fn law_video_line_shows(v: VideoInfo, rate: Option<u64>)
    ensures
        v.codec is Some ==> ("Video: "@ + v.codec->0 + "  "@).is_prefix_of(video_line(v, rate)),
        v.codec is None ==> ("Video: "@ + "—"@ + "  "@).is_prefix_of(video_line(v, rate)),
        holds(video_line(v, rate), "  "@ + dec(v.width as nat) + "x"@ + dec(v.height as nat) + "  "@),
        rate is Some ==> holds(
            video_line(v, rate),
            "  "@ + with_commas((rate->0 / 1000) as nat) + " kb/s  "@,
        ),
        rate is None ==> holds(video_line(v, rate), "  "@ + "—"@ + "  "@),
        v.fps is Some ==> ("  "@ + v.fps->0 + " fps"@).is_suffix_of(video_line(v, rate)),
        v.fps is None ==> ("  "@ + "—"@ + " fps"@).is_suffix_of(video_line(v, rate)),
{
    let codec = or_dash(v.codec);
    let fps = or_dash(v.fps);
    let size = dec(v.width as nat) + "x"@ + dec(v.height as nat);
    let words = rate_text(rate);
    let gap = "  "@;
    assert(video_line(v, rate) =~= "Video: "@ + codec + gap + size + gap + words + gap + fps
        + " fps"@);
    lemma_parts_of_a_line("Video: "@ + codec, gap, size, words, fps + " fps"@);
    assert("Video: "@ + codec + gap + size + gap + words + gap + fps + " fps"@ =~= "Video: "@ + codec
        + gap + size + gap + words + gap + (fps + " fps"@));
    assert(gap + dec(v.width as nat) + "x"@ + dec(v.height as nat) + gap =~= gap + size + gap);
    assert(gap + (fps + " fps"@) =~= gap + fps + " fps"@);
    if rate is Some {
        let n = with_commas((rate->0 / 1000) as nat);
        reveal_strlit(" kb/s  ");
        reveal_strlit(" kb/s");
        reveal_strlit("  ");
        assert(" kb/s  "@ =~= " kb/s"@ + gap);
        assert(gap + n + " kb/s  "@ =~= gap + words + gap);
    }
}

/// What stands in a line of four parts.
proof fn lemma_parts_of_a_line(
    a: Seq<char>,
    gap: Seq<char>,
    b: Seq<char>,
    c: Seq<char>,
    d: Seq<char>,
)
    ensures
        ({
            let line = a + gap + b + gap + c + gap + d;
            &&& (a + gap).is_prefix_of(line)
            &&& holds(line, gap + b + gap)
            &&& holds(line, gap + c + gap)
            &&& (gap + d).is_suffix_of(line)
        }),
{
    let line = a + gap + b + gap + c + gap + d;
    assert(line.take((a + gap).len() as int) =~= a + gap);
    assert(line.skip(line.len() - (gap + d).len()) =~= gap + d);
    assert(line =~= a + (gap + b + gap) + (c + gap + d));
    lemma_holds(a, gap + b + gap, c + gap + d);
    assert(line =~= (a + gap + b) + (gap + c + gap) + d);
    lemma_holds(a + gap + b, gap + c + gap, d);
}

/// The line about the audio shows its codec, its channels and its sample rate;
/// without an audio stream it says only that.
pub proof fn law_audio_line_shows(a: AudioInfo)
    ensures
        audio_line(None) == "Audio: —"@,
        a.codec is Some ==> ("Audio: "@ + a.codec->0 + "  "@).is_prefix_of(audio_line(Some(a))),
        a.codec is None ==> ("Audio: "@ + "—"@ + "  "@).is_prefix_of(audio_line(Some(a))),
        holds(audio_line(Some(a)), "  "@ + dec(a.channels as nat) + "ch  "@),
        ("ch  "@ + with_commas(a.sample_rate as nat) + " Hz"@).is_suffix_of(audio_line(Some(a))),
{
    let line = audio_line(Some(a));
    let codec = or_dash(a.codec);
    let rate = with_commas(a.sample_rate as nat);
    let head = "Audio: "@ + codec + "  "@;
    let end = "ch  "@ + rate + " Hz"@;
    assert(line.take(head.len() as int) =~= head);
    assert(line.skip(line.len() - end.len()) =~= end);
    let mid = "  "@ + dec(a.channels as nat) + "ch  "@;
    assert(line =~= ("Audio: "@ + codec) + mid + (rate + " Hz"@));
    lemma_holds("Audio: "@ + codec, mid, rate + " Hz"@);
}

/// The header names the video, tells its size and its duration, and describes
/// its two streams, in four lines. Its rate is that of the container wherever
/// that is known, and only otherwise that of the video stream.
pub proof fn law_header_describes_the_video(src: Seq<Part>, m: MetaInfo, size: Seq<char>)
    ensures
        ({
            let h = header_text(src, m, size);
            &&& h.len() == 4
            &&& file_name(src) is Some && text_of(file_name(src)->0) is Some ==> h[0] == text_of(
                file_name(src)->0,
            )->0
            &&& file_name(src) is None || text_of(file_name(src)->0) is None ==> h[0]
                == "<unknown>"@
            &&& ("Size: "@ + size + " "@).is_prefix_of(h[1])
            &&& ("Duration: "@ + duration_text(m.duration.secs as int)).is_suffix_of(h[1])
            &&& m.bit_rate is Some ==> h[2] == video_line(m.video, m.bit_rate)
            &&& m.bit_rate is None ==> h[2] == video_line(m.video, m.video.bit_rate)
            &&& h[3] == audio_line(m.audio)
        }),
{
    let h = header_text(src, m, size);
    let d = duration_text(m.duration.secs as int);
    reveal_strlit("   Duration: ");
    reveal_strlit("Duration: ");
    reveal_strlit(" ");
    let head = "Size: "@ + size + " "@;
    let end = "Duration: "@ + d;
    assert(h[1].take(head.len() as int) =~= head);
    assert(h[1].skip(h[1].len() - end.len()) =~= end);
    law_container_rate_wins(m);
}

/// Wherever the container tells a rate, the header shows that one, whatever
/// the video stream tells.
pub proof fn law_header_shows_the_container_rate(
    src: Seq<Part>,
    m: MetaInfo,
    size: Seq<char>,
    b: u64,
)
    requires
        m.bit_rate == Some(b) || (m.bit_rate is None && m.video.bit_rate == Some(b)),
    ensures
        holds(
            header_text(src, m, size)[2],
            "  "@ + with_commas((b / 1000) as nat) + " kb/s  "@,
        ),
{
    law_header_describes_the_video(src, m, size);
    law_video_line_shows(m.video, Some(b));
}

/// Commas only part the digits of a number: without them it is the number in
/// decimal, and there are none below one thousand.
pub proof fn law_commas_only_part_digits(n: nat)
    ensures
        with_commas(n).filter(|c: char| c != ',') == dec(n),
        n < 1000 ==> with_commas(n) == dec(n),
        n >= 1000 ==> with_commas(n)[with_commas(n).len() - 4] == ',',
    decreases n,
{
    if n < 1000 {
        lemma_dec_digits(n);
        lemma_no_commas(dec(n));
    } else {
        law_commas_only_part_digits(n / 1000);
        lemma_last_three_digits(n);
        lemma_drop_comma(with_commas(n / 1000), pad_left(dec(n % 1000), 3, '0'));
    }
}

proof fn lemma_drop_comma(high: Seq<char>, low: Seq<char>)
    requires
        all_digits(low),
        low.len() == 3,
    ensures
        (high + ","@ + low).filter(|c: char| c != ',') == high.filter(|c: char| c != ',') + low,
        (high + ","@ + low)[(high + ","@ + low).len() - 4] == ',',
{
    let p = |c: char| c != ',';
    let comma = ","@;
    reveal_strlit(",");
    lemma_no_commas(low);
    Seq::filter_distributes_over_add(high + comma, low, p);
    Seq::filter_distributes_over_add(high, comma, p);
    assert(comma.filter(p) == Seq::<char>::empty()) by {
        assert(comma.len() == 1 && comma[0] == ',');
        assert(comma.drop_last() =~= Seq::<char>::empty());
        reveal_with_fuel(Seq::filter, 2);
    }
    assert(high.filter(p) + Seq::<char>::empty() =~= high.filter(p));
}

/// A number of at least four digits, parted before its last three.
proof fn lemma_last_three_digits(n: nat)
    requires
        n >= 1000,
    ensures
        pad_left(dec(n % 1000), 3, '0').len() == 3,
        all_digits(pad_left(dec(n % 1000), 3, '0')),
        dec(n) == dec(n / 1000) + pad_left(dec(n % 1000), 3, '0'),
{
    let m = n % 1000;
    let low = pad_left(dec(m), 3, '0');
    let digits = seq![
        digit((m / 100) as int),
        digit((m / 10 % 10) as int),
        digit((m % 10) as int),
    ];
    assert(low =~= digits) by {
        reveal_with_fuel(dec, 3);
        assert(m / 10 / 10 == m / 100);
    }
    assert(dec(n) =~= dec(n / 1000) + digits) by {
        let a = n / 10;
        let b = n / 100;
        assert(a / 10 == b && b / 10 == n / 1000);
        assert(n % 10 == m % 10 && a % 10 == m / 10 % 10 && b % 10 == m / 100);
        assert(dec(n) == dec(a).push(digit((n % 10) as int)));
        assert(dec(a) == dec(b).push(digit((a % 10) as int)));
        assert(dec(b) == dec(n / 1000).push(digit((b % 10) as int)));
    }
}

proof fn lemma_no_commas(s: Seq<char>)
    requires
        all_digits(s),
    ensures
        s.filter(|c: char| c != ',') == s,
    decreases s.len(),
{
    reveal(Seq::filter);
    if s.len() > 0 {
        let front = s.drop_last();
        assert forall|i: int| 0 <= i < front.len() implies is_digit(#[trigger] front[i]) by {
            assert(front[i] == s[i]);
        }
        lemma_no_commas(front);
        assert(is_digit(s[s.len() - 1]));
        assert(s =~= front.push(s.last()));
    }
}

/// A part of a duration below zero: a minus sign and its size, or two zeros
/// where it is nothing.
pub open spec fn minus_part(n: int) -> Seq<char> {
    if n == 0 {
        "00"@
    } else {
        "-"@ + dec(n as nat)
    }
}

/// A duration below zero reads as its hours, minutes and seconds, each with a
/// minus sign unless it is zero; its days are left out.
pub proof fn law_durations_below_zero(d: nat, h: int, m: int, s: int)
    requires
        0 <= h < 24,
        0 <= m < 60,
        0 <= s < 60,
        86400 * d + 3600 * h + 60 * m + s > 0,
    ensures
        duration_text(-(86400 * d + 3600 * h + 60 * m + s)) == minus_part(h) + ":"@ + minus_part(m)
            + ":"@ + minus_part(s),
{
    let rem = 3600 * h + 60 * m + s;
    let total = 86400 * d + rem;
    assert(total / 86400 == d);
    assert(rem / 3600 == h);
    assert((60 * m + s) / 60 == m);
    assert(rem / 60 == 60 * h + m);
    reveal_strlit("00");
    reveal_with_fuel(dec, 2);
    assert(two_digits(0) =~= "00"@);
    assert(quotient(-total, 86400) == -d);
    assert(clock_text(-rem) =~= minus_part(h) + ":"@ + minus_part(m) + ":"@ + minus_part(s)) by {
        assert(quotient(-rem, 3600) == -h);
        assert(remainder(-rem, 3600) == -(60 * m + s));
        assert(quotient(-(60 * m + s), 60) == -m);
        assert(remainder(-rem, 60) == -s);
    }
}

}
