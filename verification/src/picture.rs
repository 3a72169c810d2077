//! Pictures in 24-bit colour: making them, pasting one onto another, and
//! reading and writing image files.
use vstd::prelude::*;

verus! {

// ---- pictures ----

/// One pixel.
#[derive(Debug, Clone, Copy, PartialEq, Eq, Structural)]
pub struct Rgb {
    pub r: u8,
    pub g: u8,
    pub b: u8,
}

/// Black.
pub open spec fn black() -> Rgb {
    Rgb { r: 0, g: 0, b: 0 }
}

/// A picture: rows of pixels, all of the same width.
#[derive(Debug)]
pub struct Picture {
    width: u32,
    rows: Vec<Vec<Rgb>>,
}

/// The view of a picture.
#[verifier::ext_equal]
pub struct Raster {
    pub width: nat,
    pub rows: Seq<Seq<Rgb>>,
}

impl View for Picture {
    type V = Raster;

    closed spec fn view(&self) -> Raster {
        Raster {
            width: self.width as nat,
            rows: Seq::new(self.rows@.len(), |j: int| self.rows@[j]@),
        }
    }
}

/// Every row has the width of the picture, and both sizes are 32-bit numbers.
pub open spec fn raster_ok(p: Raster) -> bool {
    &&& p.width <= u32::MAX
    &&& p.rows.len() <= u32::MAX
    &&& forall|j: int| 0 <= j < p.rows.len() ==> (#[trigger] p.rows[j]).len() == p.width
}

/// A picture of one colour.
pub open spec fn filled(width: nat, height: nat, c: Rgb) -> Raster {
    Raster { width, rows: Seq::new(height, |j: int| Seq::new(width, |i: int| c)) }
}

/// Whether the pixel at column `i` of row `j` is covered by a picture `top`
/// whose corner lies at `(x, y)`.
pub open spec fn covers(top: Raster, x: int, y: int, i: int, j: int) -> bool {
    y <= j < y + top.rows.len() && x <= i < x + top.width
}

/// `bottom` with `top` pasted onto it at `(x, y)`; what reaches beyond the
/// edges is cut off.
pub open spec fn overlaid(bottom: Raster, top: Raster, x: int, y: int) -> Raster {
    Raster {
        width: bottom.width,
        rows: Seq::new(
            bottom.rows.len(),
            |j: int|
                Seq::new(
                    bottom.rows[j].len(),
                    |i: int|
                        if covers(top, x, y, i, j) {
                            top.rows[j - y][i - x]
                        } else {
                            bottom.rows[j][i]
                        },
                ),
        ),
    }
}

/// The bytes of a row: red, green and blue of each pixel in turn.
pub open spec fn row_bytes(row: Seq<Rgb>) -> Seq<u8>
    decreases row.len(),
{
    if row.len() == 0 {
        Seq::empty()
    } else {
        row_bytes(row.drop_last()) + seq![row.last().r, row.last().g, row.last().b]
    }
}

/// The bytes of all rows in turn.
pub open spec fn raster_bytes(rows: Seq<Seq<Rgb>>) -> Seq<u8>
    decreases rows.len(),
{
    if rows.len() == 0 {
        Seq::empty()
    } else {
        raster_bytes(rows.drop_last()) + row_bytes(rows.last())
    }
}

proof fn lemma_row_bytes_len(row: Seq<Rgb>)
    ensures
        row_bytes(row).len() == 3 * row.len(),
    decreases row.len(),
{
    if row.len() > 0 {
        lemma_row_bytes_len(row.drop_last());
    }
}

proof fn lemma_raster_bytes_len(rows: Seq<Seq<Rgb>>, width: nat)
    requires
        forall|j: int| 0 <= j < rows.len() ==> (#[trigger] rows[j]).len() == width,
    ensures
        raster_bytes(rows).len() == 3 * (width * rows.len()),
    decreases rows.len(),
{
    if rows.len() > 0 {
        let front = rows.drop_last();
        assert forall|j: int| 0 <= j < front.len() implies (#[trigger] front[j]).len() == width by {
            assert(front[j] == rows[j]);
        }
        lemma_raster_bytes_len(front, width);
        lemma_row_bytes_len(rows.last());
        let n = rows.len() as int;
        assert(width * n == width * (n - 1) + width) by (nonlinear_arith);
    } else {
        assert(width * 0 == 0) by (nonlinear_arith);
    }
}

proof fn lemma_row_bytes_injective(a: Seq<Rgb>, b: Seq<Rgb>)
    requires
        a.len() == b.len(),
        row_bytes(a) == row_bytes(b),
    ensures
        a == b,
    decreases a.len(),
{
    if a.len() > 0 {
        lemma_row_bytes_len(a.drop_last());
        lemma_row_bytes_len(b.drop_last());
        let n = row_bytes(a.drop_last()).len() as int;
        assert(row_bytes(a).take(n) =~= row_bytes(a.drop_last()));
        assert(row_bytes(b).take(n) =~= row_bytes(b.drop_last()));
        lemma_row_bytes_injective(a.drop_last(), b.drop_last());
        assert(row_bytes(a)[n] == a.last().r && row_bytes(b)[n] == b.last().r);
        assert(row_bytes(a)[n + 1] == a.last().g && row_bytes(b)[n + 1] == b.last().g);
        assert(row_bytes(a)[n + 2] == a.last().b && row_bytes(b)[n + 2] == b.last().b);
        assert(a =~= a.drop_last().push(a.last()));
        assert(b =~= b.drop_last().push(b.last()));
    } else {
        assert(a =~= b);
    }
}

/// Two pictures of the same size with the same bytes are the same: nothing is
/// lost when a picture is handed on as bytes.
pub proof fn law_bytes_determine_picture(a: Raster, b: Raster)
    requires
        raster_ok(a),
        raster_ok(b),
        a.width == b.width,
        a.rows.len() == b.rows.len(),
        raster_bytes(a.rows) == raster_bytes(b.rows),
    ensures
        a == b,
    decreases a.rows.len(),
{
    if a.rows.len() > 0 {
        let x = Raster { width: a.width, rows: a.rows.drop_last() };
        let y = Raster { width: b.width, rows: b.rows.drop_last() };
        assert forall|j: int| 0 <= j < x.rows.len() implies (#[trigger] x.rows[j]).len()
            == x.width by {
            assert(x.rows[j] == a.rows[j]);
        }
        assert forall|j: int| 0 <= j < y.rows.len() implies (#[trigger] y.rows[j]).len()
            == y.width by {
            assert(y.rows[j] == b.rows[j]);
        }
        let la = a.rows.last();
        let lb = b.rows.last();
        assert(a.rows[a.rows.len() - 1].len() == b.rows[b.rows.len() - 1].len());
        lemma_raster_bytes_len(x.rows, a.width);
        lemma_raster_bytes_len(y.rows, a.width);
        let n = raster_bytes(x.rows).len() as int;
        assert(raster_bytes(a.rows).take(n) =~= raster_bytes(x.rows));
        assert(raster_bytes(b.rows).take(n) =~= raster_bytes(y.rows));
        assert(raster_bytes(a.rows).skip(n) =~= row_bytes(la));
        assert(raster_bytes(b.rows).skip(n) =~= row_bytes(lb));
        law_bytes_determine_picture(x, y);
        lemma_row_bytes_injective(la, lb);
        assert(a.rows =~= x.rows.push(la));
        assert(b.rows =~= y.rows.push(lb));
    } else {
        assert(a.rows =~= b.rows);
    }
}

/// The rows of a picture, as sequences.
spec fn rows_of(rows: Seq<Vec<Rgb>>) -> Seq<Seq<Rgb>> {
    Seq::new(rows.len(), |j: int| rows[j]@)
}

impl Picture {
    /// A picture is always well formed.
    #[verifier::type_invariant]
    pub open spec fn wf(self) -> bool {
        raster_ok(self@)
    }

    /// The width in pixels.
    pub fn width(&self) -> (r: u32)
        ensures
            r == self@.width,
    {
        self.width
    }

    /// The height in pixels.
    pub fn height(&self) -> (r: u32)
        ensures
            r == self@.rows.len(),
    {
        proof {
            use_type_invariant(self);
        }
        self.rows.len() as u32
    }

    /// A picture of one colour.
    pub fn from_pixel(width: u32, height: u32, c: Rgb) -> (r: Picture)
        ensures
            r@ == filled(width as nat, height as nat, c),
    {
        let mut rows: Vec<Vec<Rgb>> = Vec::new();
        for j in 0..height
            invariant
                rows@.len() == j,
                forall|k: int|
                    0 <= k < j ==> (#[trigger] rows@[k])@ == Seq::new(width as nat, |i: int| c),
        {
            let mut row: Vec<Rgb> = Vec::new();
            for i in 0..width
                invariant
                    row@ =~= Seq::new(i as nat, |k: int| c),
            {
                row.push(c);
            }
            rows.push(row);
        }
        let ghost p = Picture { width, rows };
        assert(p@.rows =~= filled(width as nat, height as nat, c).rows);
        Picture { width, rows }
    }

    /// The picture with the given bytes, if their number is right.
    pub fn from_raw(width: u32, height: u32, bytes: &[u8]) -> (r: Option<Picture>)
        ensures
            r is Some <==> bytes@.len() == 3 * (width * height),
            r matches Some(p) ==> p@.width == width && p@.rows.len() == height && raster_bytes(
                p@.rows,
            ) == bytes@,
    {
        let n: usize = bytes.len();
        let mut rows: Vec<Vec<Rgb>> = Vec::new();
        let mut at: usize = 0;
        for j in 0..height
            invariant
                n == bytes@.len(),
                at <= n,
                rows@.len() == j,
                forall|k: int| 0 <= k < j ==> (#[trigger] rows_of(rows@)[k]).len() == width,
                raster_bytes(rows_of(rows@)) == bytes@.take(at as int),
        {
            let mut row: Vec<Rgb> = Vec::new();
            let ghost start = at as int;
            proof {
                lemma_raster_bytes_len(rows_of(rows@), width as nat);
            }
            for i in 0..width
                invariant
                    n == bytes@.len(),
                    j < height,
                    start == 3 * (width * j),
                    at == start + 3 * i,
                    at <= n,
                    row@.len() == i,
                    row_bytes(row@) == bytes@.subrange(start, at as int),
            {
                if n - at < 3 {
                    assert(width * j + width <= width * height) by (nonlinear_arith)
                        requires
                            j < height,
                    ;
                    return None;
                }
                let ghost was = row@;
                row.push(Rgb { r: bytes[at], g: bytes[at + 1], b: bytes[at + 2] });
                assert(row@.drop_last() =~= was);
                at = at + 3;
                assert(row_bytes(row@) =~= bytes@.subrange(start, at as int));
            }
            let ghost before = rows_of(rows@);
            let ghost line = row@;
            rows.push(row);
            assert(rows_of(rows@) =~= before.push(line));
            assert(rows_of(rows@).drop_last() =~= before);
            assert(raster_bytes(rows_of(rows@)) =~= bytes@.take(at as int));
        }
        proof {
            lemma_raster_bytes_len(rows_of(rows@), width as nat);
        }
        if at != n {
            return None;
        }
        assert(bytes@.take(n as int) =~= bytes@);
        let ghost p = Picture { width, rows };
        assert(p@.rows =~= rows_of(rows@));
        Some(Picture { width, rows })
    }

    /// The bytes of this picture, row by row.
    pub fn to_raw(&self) -> (r: Vec<u8>)
        ensures
            r@ == raster_bytes(self@.rows),
            r@.len() == 3 * (self@.width * self@.rows.len()),
    {
        proof {
            use_type_invariant(self);
            lemma_raster_bytes_len(self@.rows, self@.width);
        }
        let mut out: Vec<u8> = Vec::new();
        for j in 0..self.rows.len()
            invariant
                out@ == raster_bytes(self@.rows.take(j as int)),
        {
            let row: &Vec<Rgb> = &self.rows[j];
            let ghost start = out@;
            for i in 0..row.len()
                invariant
                    out@ == start + row_bytes(row@.take(i as int)),
            {
                let c: Rgb = row[i];
                out.push(c.r);
                out.push(c.g);
                out.push(c.b);
                assert(row@.take(i as int + 1).drop_last() =~= row@.take(i as int));
                assert(out@ =~= start + row_bytes(row@.take(i as int + 1)));
            }
            assert(row@.take(row@.len() as int) =~= row@);
            assert(self@.rows.take(j as int + 1).drop_last() =~= self@.rows.take(j as int));
            assert(self@.rows[j as int] == row@);
        }
        assert(self@.rows.take(self@.rows.len() as int) =~= self@.rows);
        out
    }

    /// Pastes `top` onto this picture at `(x, y)`; what reaches beyond the
    /// edges is cut off.
    pub fn overlay(&mut self, top: &Picture, x: u32, y: u32)
        ensures
            final(self)@ == overlaid(old(self)@, top@, x as int, y as int),
    {
        proof {
            use_type_invariant(&*self);
            use_type_invariant(top);
        }
        let ghost was = self@;
        let ghost want = overlaid(was, top@, x as int, y as int);
        let width: u32 = self.width;
        let mut rows: Vec<Vec<Rgb>> = Vec::new();
        std::mem::swap(&mut rows, &mut self.rows);
        let h: usize = rows.len();
        let th: usize = top.rows.len();
        assert(rows_of(rows@) =~= was.rows);
        assert(rows_of(top.rows@) =~= top@.rows);
        let mut j: usize = y as usize;
        while j < h && j - (y as usize) < th
            invariant
                raster_ok(was),
                raster_ok(top@),
                want == overlaid(was, top@, x as int, y as int),
                h == rows@.len(),
                h == was.rows.len(),
                th == top@.rows.len(),
                th == top.rows@.len(),
                rows_of(top.rows@) =~= top@.rows,
                width == was.width,
                y <= j,
                y < j ==> j <= h && j - y <= th,
                forall|k: int|
                    0 <= k < h ==> (#[trigger] rows@[k])@ == if y <= k < j {
                        want.rows[k]
                    } else {
                        was.rows[k]
                    },
            decreases h - j,
        {
            let src: &Vec<Rgb> = &top.rows[j - y as usize];
            let mut row: Vec<Rgb> = copied_row(&rows[j]);
            assert(rows@[j as int]@ == was.rows[j as int]);
            assert(src@ == top@.rows[j - y]);
            paste_row(&mut row, src, x);
            assert(row@ =~= want.rows[j as int]);
            rows.set(j, row);
            j = j + 1;
        }
        assert forall|k: int| 0 <= k < h implies (#[trigger] rows@[k])@ == want.rows[k] by {
            if !(y <= k < j) {
                assert(rows@[k]@ =~= want.rows[k]);
            }
        }
        assert(rows_of(rows@) =~= want.rows);
        self.rows = rows;
        assert(self@.rows =~= want.rows);
    }
}

/// A copy of a row.
fn copied_row(row: &Vec<Rgb>) -> (r: Vec<Rgb>)
    ensures
        r@ == row@,
{
    let mut r: Vec<Rgb> = Vec::new();
    for i in 0..row.len()
        invariant
            r@ == row@.take(i as int),
    {
        r.push(row[i]);
        assert(r@ =~= row@.take(i as int + 1));
    }
    assert(row@.take(row@.len() as int) =~= row@);
    r
}

/// Pastes the row `top` onto `row` from column `x` on.
fn paste_row(row: &mut Vec<Rgb>, top: &Vec<Rgb>, x: u32)
    ensures
        final(row)@ == Seq::new(
            old(row)@.len(),
            |i: int|
                if x <= i < x + top@.len() {
                    top@[i - x]
                } else {
                    old(row)@[i]
                },
        ),
{
    let ghost was = row@;
    let w: usize = row.len();
    let tw: usize = top.len();
    let mut i: usize = x as usize;
    while i < w && i - (x as usize) < tw
        invariant
            w == row@.len(),
            w == was.len(),
            tw == top@.len(),
            x <= i,
            x < i ==> i <= w && i - x <= tw,
            forall|k: int|
                0 <= k < w ==> #[trigger] row@[k] == if x <= k < i {
                    top@[k - x]
                } else {
                    was[k]
                },
        decreases w - i,
    {
        let c: Rgb = top[i - x as usize];
        row.set(i, c);
        i = i + 1;
    }
    assert(row@ =~= Seq::new(
        was.len(),
        |i: int|
            if x <= i < x + top@.len() {
                top@[i - x]
            } else {
                was[i]
            },
    ));
}

// ---- image files ----

/// `image::ImageError`: why an image could not be read or written.
#[verifier::external_type_specification]
#[verifier::external_body]
pub struct ExImageError(image::ImageError);

/// The words for an image that could not be read or written.
pub uninterp spec fn image_error_text(e: image::ImageError) -> Seq<char>;

/// The size and the bytes of the picture that a PNG file holds, in 24-bit
/// colour, as `image` reads it; the words for what is wrong where it is refused.
pub uninterp spec fn png_picture(png: Seq<u8>) -> Result<(u32, u32, Seq<u8>), Seq<char>>;

/// The bytes of the picture that a PNG file holds, scaled to the given size by
/// `image` with its triangle filter and then brought to 24-bit colour; nothing
/// where the file is refused.
pub uninterp spec fn scaled_png_picture(png: Seq<u8>, width: u32, height: u32) -> Option<Seq<u8>>;

/// The JPEG file that `image` writes for a picture in 24-bit colour.
pub uninterp spec fn jpeg_file(bytes: Seq<u8>, width: u32, height: u32, quality: u8) -> Seq<u8>;

/// Whether a JPEG file can hold a picture of this size.
pub open spec fn fits_jpeg(width: nat, height: nat) -> bool {
    1 <= width <= 65535 && 1 <= height <= 65535
}

/// `image::load_from_memory_with_format` reads a PNG file, and `to_rgb8` and
/// `into_raw` hand its pixels out as bytes, three for each pixel. What comes of
/// it, the words of a refusal among it, depends on the bytes of the file alone.
#[verifier::external_body]
fn read_png(png: &[u8]) -> (r: Result<(u32, u32, Vec<u8>), image::ImageError>)
    ensures
        match r {
            Ok(p) => png_picture(png@) == Ok::<(u32, u32, Seq<u8>), Seq<char>>((p.0, p.1, p.2@))
                && p.2@.len() == 3 * (p.0 * p.1),
            Err(e) => png_picture(png@) == Err::<(u32, u32, Seq<u8>), Seq<char>>(
                image_error_text(e),
            ),
        },
{
    let img = image::load_from_memory_with_format(png, image::ImageFormat::Png)?.to_rgb8();
    Ok((img.width(), img.height(), img.into_raw()))
}

/// `image::DynamicImage::resize_exact` scales the picture that a PNG file
/// holds to exactly the given size. The same files are refused as when they
/// are read without scaling, in the same words. What the filter makes of the pixels is only named.
#[verifier::external_body]
fn scale_png(png: &[u8], width: u32, height: u32) -> (r: Result<Vec<u8>, image::ImageError>)
    requires
        width <= 65535,
        height <= 65535,
    ensures
        match r {
            Ok(p) => scaled_png_picture(png@, width, height) == Some(p@) && p@.len() == 3 * (width
                * height),
            Err(e) => scaled_png_picture(png@, width, height) is None && png_picture(png@) == Err::<
                (u32, u32, Seq<u8>),
                Seq<char>,
            >(image_error_text(e)),
        },
        r is Ok <==> png_picture(png@) is Ok,
{
    let img = image::load_from_memory_with_format(png, image::ImageFormat::Png)?;
    let thumb = img.resize_exact(width, height, image::imageops::FilterType::Triangle);
    Ok(thumb.to_rgb8().into_raw())
}

/// The `Display` of `image::ImageError`. Its wording is only named.
#[verifier::external_body]
fn image_reason(e: &image::ImageError) -> (r: String)
    ensures
        r@ == image_error_text(*e),
{
    format!("{e}")
}

/// `image::codecs::jpeg::JpegEncoder::encode` writes a JPEG file. Into memory
/// it fails only for a size that the format cannot hold: one of zero, or of
/// more than 65535.
#[verifier::external_body]
fn encode_jpeg(
    bytes: &[u8],
    width: u32,
    height: u32,
    quality: u8,
) -> (r: Result<Vec<u8>, image::ImageError>)
    requires
        bytes@.len() == 3 * (width * height),
        1 <= quality <= 100,
    ensures
        r is Ok == fits_jpeg(width as nat, height as nat),
        r matches Ok(f) ==> f@ == jpeg_file(bytes@, width, height, quality),
{
    let mut out: Vec<u8> = Vec::new();
    let mut enc = image::codecs::jpeg::JpegEncoder::new_with_quality(&mut out, quality);
    enc.encode(bytes, width, height, image::ExtendedColorType::Rgb8)?;
    Ok(out)
}

/// The picture that a PNG file holds, at its own size, or why it cannot be
/// read.
pub fn native_frame(png: &[u8]) -> (r: Result<Picture, String>)
    ensures
        match r {
            Ok(p) => raster_ok(p@) && png_picture(png@) == Ok::<(u32, u32, Seq<u8>), Seq<char>>(
                (p@.width as u32, p@.rows.len() as u32, raster_bytes(p@.rows)),
            ),
            Err(m) => png_picture(png@) == Err::<(u32, u32, Seq<u8>), Seq<char>>(m@),
        },
{
    match read_png(png) {
        Ok(p) => {
            let w: u32 = p.0;
            let h: u32 = p.1;
            match Picture::from_raw(w, h, p.2.as_slice()) {
                Some(q) => {
                    proof {
                        use_type_invariant(&q);
                    }
                    Ok(q)
                },
                None => Err(String::new()),
            }
        },
        Err(e) => Err(image_reason(&e)),
    }
}

/// Whether `p` is the picture that a PNG file holds, scaled to the given size.
pub open spec fn is_thumb(p: Raster, png: Seq<u8>, w: u32, h: u32) -> bool {
    &&& raster_ok(p)
    &&& p.width == w
    &&& p.rows.len() == h
    &&& scaled_png_picture(png, w, h) == Some(raster_bytes(p.rows))
}

/// The picture that a PNG file holds, scaled to exactly the given size, or why
/// it cannot be read.
pub fn thumbnail(png: &[u8], width: u32, height: u32) -> (r: Result<Picture, String>)
    requires
        width <= 65535,
        height <= 65535,
    ensures
        match r {
            Ok(p) => is_thumb(p@, png@, width, height),
            Err(m) => png_picture(png@) == Err::<(u32, u32, Seq<u8>), Seq<char>>(m@),
        },
        r is Ok <==> png_picture(png@) is Ok,
{
    match scale_png(png, width, height) {
        Ok(bytes) => match Picture::from_raw(width, height, bytes.as_slice()) {
            Some(q) => {
                proof {
                    use_type_invariant(&q);
                }
                Ok(q)
            },
            None => Err(String::new()),
        },
        Err(e) => Err(image_reason(&e)),
    }
}

/// A quality brought into the range from 1 to 100.
pub open spec fn clamped_quality(q: u32) -> u8 {
    if q < 1 {
        1
    } else if q > 100 {
        100
    } else {
        q as u8
    }
}

/// The JPEG file for a picture, at a quality brought into the range from 1 to
/// 100. There is none for a picture that is empty or larger than 65535 pixels
/// either way.
pub fn write_jpeg(sheet: &Picture, q: u32) -> (r: Option<Vec<u8>>)
    ensures
        r is Some <==> fits_jpeg(sheet@.width, sheet@.rows.len()),
        r matches Some(f) ==> f@ == jpeg_file(
            raster_bytes(sheet@.rows),
            sheet@.width as u32,
            sheet@.rows.len() as u32,
            clamped_quality(q),
        ),
{
    let q: u8 = if q < 1 {
        1
    } else if q > 100 {
        100
    } else {
        q as u8
    };
    let bytes: Vec<u8> = sheet.to_raw();
    match encode_jpeg(bytes.as_slice(), sheet.width(), sheet.height(), q) {
        Ok(f) => Some(f),
        Err(_) => None,
    }
}

// ---- laws of pictures ----

proof fn lemma_row_byte(row: Seq<Rgb>, i: int)
    requires
        0 <= i < row.len(),
    ensures
        row_bytes(row).len() == 3 * row.len(),
        row_bytes(row)[3 * i] == row[i].r,
        row_bytes(row)[3 * i + 1] == row[i].g,
        row_bytes(row)[3 * i + 2] == row[i].b,
    decreases row.len(),
{
    let front = row.drop_last();
    lemma_row_bytes_len(row);
    lemma_row_bytes_len(front);
    if i < front.len() {
        lemma_row_byte(front, i);
    }
}

/// The bytes of a picture are its pixels, row by row from the top and from the
/// left within each row, three for each: red, green and blue.
pub proof fn law_bytes_are_the_pixels(rows: Seq<Seq<Rgb>>, width: nat, i: int, j: int)
    requires
        forall|k: int| 0 <= k < rows.len() ==> (#[trigger] rows[k]).len() == width,
        0 <= j < rows.len(),
        0 <= i < width,
    ensures
        raster_bytes(rows).len() == 3 * (width * rows.len()),
        0 <= 3 * (j * width + i),
        3 * (j * width + i) + 2 < raster_bytes(rows).len(),
        raster_bytes(rows)[3 * (j * width + i)] == rows[j][i].r,
        raster_bytes(rows)[3 * (j * width + i) + 1] == rows[j][i].g,
        raster_bytes(rows)[3 * (j * width + i) + 2] == rows[j][i].b,
    decreases rows.len(),
{
    let front = rows.drop_last();
    let n = rows.len() as int;
    let w = width as int;
    assert forall|k: int| 0 <= k < front.len() implies (#[trigger] front[k]).len() == width by {
        assert(front[k] == rows[k]);
    }
    lemma_raster_bytes_len(rows, width);
    lemma_raster_bytes_len(front, width);
    assert(0 <= j * w && j * w + w <= n * w && n * w == w * n && (n - 1) * w == w * (n - 1))
        by (nonlinear_arith)
        requires
            0 <= j,
            j + 1 <= n,
            0 <= w,
    ;
    assert(rows[n - 1] == rows.last());
    if j < n - 1 {
        law_bytes_are_the_pixels(front, width, i, j);
        assert(front[j] == rows[j]);
    } else {
        lemma_row_byte(rows.last(), i);
        let at = raster_bytes(front).len() as int;
        assert(at == 3 * (j * w));
        assert(raster_bytes(rows)[at + 3 * i] == row_bytes(rows.last())[3 * i]);
        assert(raster_bytes(rows)[at + 3 * i + 1] == row_bytes(rows.last())[3 * i + 1]);
        assert(raster_bytes(rows)[at + 3 * i + 2] == row_bytes(rows.last())[3 * i + 2]);
    }
}

/// Pasting puts each pixel of the upper picture where it belongs as far as the
/// lower one reaches, and leaves every other pixel and the size as they were.
pub proof fn law_pasting(bottom: Raster, top: Raster, x: int, y: int, i: int, j: int)
    requires
        raster_ok(bottom),
        0 <= j < bottom.rows.len(),
        0 <= i < bottom.width,
    ensures
        ({
            let p = overlaid(bottom, top, x, y);
            &&& p.width == bottom.width
            &&& p.rows.len() == bottom.rows.len()
            &&& p.rows[j].len() == bottom.width
            &&& 0 <= j - y < top.rows.len() && 0 <= i - x < top.width ==> p.rows[j][i] == top.rows[j
                - y][i - x]
            &&& !(0 <= j - y < top.rows.len() && 0 <= i - x < top.width) ==> p.rows[j][i]
                == bottom.rows[j][i]
        }),
{
    assert(bottom.rows[j].len() == bottom.width);
}

/// A quality from 1 to 100 is taken as it is, a smaller one as 1 and a larger
/// one as 100.
pub proof fn law_quality(q: u32)
    ensures
        1 <= q <= 100 ==> clamped_quality(q) == q,
        q < 1 ==> clamped_quality(q) == 1,
        q > 100 ==> clamped_quality(q) == 100,
{
}

/// A JPEG file holds pictures of 1 to 65535 pixels either way.
pub proof fn law_jpeg_sizes(width: nat, height: nat)
    ensures
        fits_jpeg(width, height) <==> 1 <= width && width < 0x10000 && 1 <= height && height
            < 0x10000,
{
}

/// A thumbnail has exactly the size that was asked for, and its pixels are
/// those of the scaled picture; there is only one for each file and size.
pub proof fn law_thumbnail_is_the_scaled_picture(
    p: Raster,
    q: Raster,
    png: Seq<u8>,
    w: u32,
    h: u32,
)
    requires
        is_thumb(p, png, w, h),
        is_thumb(q, png, w, h),
    ensures
        p.width == w,
        p.rows.len() == h,
        forall|j: int| 0 <= j < h ==> (#[trigger] p.rows[j]).len() == w,
        scaled_png_picture(png, w, h) == Some(raster_bytes(p.rows)),
        p == q,
{
    law_bytes_determine_picture(p, q);
}

}
