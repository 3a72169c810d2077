//! The header font, and breaking header lines into rows.
use vstd::prelude::*;
use crate::strings::{byte_len, is_space, lemma_squeeze_tidy, squeeze, squeezed, texts};

verus! {

// ---- the font ----

/// `ab_glyph::FontArc`: a font that can be drawn with.
#[verifier::external_type_specification]
#[verifier::external_body]
pub struct ExFontArc(ab_glyph::FontArc);

/// `ab_glyph::InvalidFont`: font data that could not be read.
#[verifier::external_type_specification]
#[verifier::external_body]
pub struct ExInvalidFont(ab_glyph::InvalidFont);

/// Whether `ab_glyph` can read a byte string as a font.
pub uninterp spec fn reads_as_font(bytes: Seq<u8>) -> bool;

/// The bytes of the font file that a font was read from.
pub uninterp spec fn font_data(font: ab_glyph::FontArc) -> Seq<u8>;

/// `ab_glyph::FontArc::try_from_vec` reads a font from the bytes of a font
/// file, or refuses them; which of the two depends on the bytes alone. The font
/// keeps all of the bytes that it was given. What it draws is left unsaid.
#[verifier::external_body]
fn read_font(bytes: Vec<u8>) -> (r: Result<ab_glyph::FontArc, ab_glyph::InvalidFont>)
    ensures
        r is Ok <==> reads_as_font(bytes@),
        r matches Ok(font) ==> font_data(font) == bytes@,
{
    ab_glyph::FontArc::try_from_vec(bytes)
}

/// The `Display` of `ab_glyph::InvalidFont`: always the one word
/// `InvalidFont`.
#[verifier::external_body]
fn font_reason(e: &ab_glyph::InvalidFont) -> (r: String)
    ensures
        r@ == "InvalidFont"@,
{
    format!("{e}")
}

/// The words for font data that could not be read.
pub open spec fn bad_font_text(reason: Seq<char>) -> Seq<char> {
    "font data is malformed: "@ + reason
}

/// A loaded font.
pub struct TextRenderer {
    font: ab_glyph::FontArc,
}

impl TextRenderer {
    /// Loads a font from the bytes of a font file.
    pub fn from_bytes(bytes: Vec<u8>) -> (r: Result<TextRenderer, String>)
        ensures
            r is Ok <==> reads_as_font(bytes@),
            r matches Ok(t) ==> font_data(t.font_spec()) == bytes@,
            r matches Err(m) ==> m@ == bad_font_text("InvalidFont"@),
    {
        match read_font(bytes) {
            Ok(font) => Ok(TextRenderer { font }),
            Err(e) => {
                let reason: String = font_reason(&e);
                let mut m: String = "font data is malformed: ".to_owned();
                m.append(reason.as_str());
                Err(m)
            },
        }
    }

    /// The font itself, for drawing.
    pub fn font(&self) -> (r: &ab_glyph::FontArc)
        ensures
            *r == self.font_spec(),
    {
        &self.font
    }

    /// The font that was loaded.
    pub closed spec fn font_spec(self) -> ab_glyph::FontArc {
        self.font
    }

    /// Breaks one header line into rows of at most `max_w` pixels, a glyph of
    /// the font being `glyph_w` pixels wide. White space between words is first
    /// brought down to single spaces; a word too long for a row is broken.
    pub fn wrap_line(&self, line: &str, glyph_w: u32, max_w: u32) -> (r: Vec<String>)
        ensures
            texts(r@) == line_rows(line@, glyph_w, max_w),
            r@.len() > 0,
            byte_len(squeeze(line@)) < columns(glyph_w, max_w) ==> texts(r@) == seq![
                squeeze(line@),
            ],
    {
        wrapped(line, glyph_w, max_w)
    }
}

// ---- rows ----

/// The rows into which `textwrap` breaks a text.
pub uninterp spec fn textwrap_rows(text: Seq<char>, width: nat) -> Seq<Seq<char>>;

/// How many glyphs fit into a row, at least one.
pub open spec fn columns(glyph_w: u32, max_w: u32) -> nat {
    let g: nat = if glyph_w == 0 {
        1
    } else {
        glyph_w as nat
    };
    let n = max_w as nat / g;
    if n == 0 {
        1
    } else {
        n
    }
}

/// The rows of one header line.
pub open spec fn line_rows(line: Seq<char>, glyph_w: u32, max_w: u32) -> Seq<Seq<char>> {
    textwrap_rows(squeeze(line), columns(glyph_w, max_w))
}

/// Breaks one header line into rows of at most `max_w` pixels, a glyph being
/// `glyph_w` pixels wide.
pub fn wrapped(line: &str, glyph_w: u32, max_w: u32) -> (r: Vec<String>)
    ensures
        texts(r@) == line_rows(line@, glyph_w, max_w),
        r@.len() > 0,
        byte_len(squeeze(line@)) < columns(glyph_w, max_w) ==> texts(r@) == seq![squeeze(line@)],
{
    let glyph_w: u32 = if glyph_w == 0 {
        1
    } else {
        glyph_w
    };
    let n: u32 = max_w / glyph_w;
    let cols: u32 = if n == 0 {
        1
    } else {
        n
    };
    let tidy: String = squeezed(line);
    proof {
        lemma_squeeze_tidy(line@);
        let t = squeeze(line@);
        assert forall|i: int| 0 <= i < t.len() implies t[i] != '\n' by {
            if is_space(t[i]) {
                assert(t[i] == ' ');
            }
        }
    }
    wrap_text(tidy.as_str(), cols as usize)
}

/// `textwrap::wrap` with the default options for a width, long words being
/// broken. The rows depend on the text and the width alone; there is always at
/// least one, and a text without line feeds, with fewer bytes than the width
/// and no space at its end is one row by itself.
#[verifier::external_body]
fn wrap_text(text: &str, width: usize) -> (r: Vec<String>)
    requires
        width > 0,
    ensures
        texts(r@) == textwrap_rows(text@, width as nat),
        r@.len() > 0,
        byte_len(text@) < width && !text@.contains('\n') && (text@.len() > 0 ==> text@.last()
            != ' ') ==> texts(r@) == seq![text@],
{
    textwrap::wrap(text, textwrap::Options::new(width).break_words(true))
        .into_iter()
        .map(|row| row.into_owned())
        .collect()
}

/// A row takes as many glyphs as fit into its width and not one more, but
/// always at least one.
pub proof fn law_rows_are_filled(glyph_w: u32, max_w: u32)
    requires
        glyph_w > 0,
    ensures
        columns(glyph_w, max_w) >= 1,
        glyph_w <= max_w ==> columns(glyph_w, max_w) * glyph_w <= max_w < (columns(glyph_w, max_w)
            + 1) * glyph_w,
        glyph_w > max_w ==> columns(glyph_w, max_w) == 1,
        columns(0, max_w) == columns(1, max_w),
{
    let g = glyph_w as int;
    let m = max_w as int;
    let n = m / g;
    vstd::arithmetic::div_mod::lemma_fundamental_div_mod(m, g);
    vstd::arithmetic::div_mod::lemma_mod_bound(m, g);
    assert(g * n == n * g) by (nonlinear_arith);
    assert((n + 1) * g == n * g + g) by (nonlinear_arith);
    if g <= m {
        assert(n >= 1) by (nonlinear_arith)
            requires
                m == g * n + m % g,
                m % g < g,
                g <= m,
                g > 0,
        ;
    } else {
        assert(n == 0) by (nonlinear_arith)
            requires
                m == g * n + m % g,
                0 <= m % g,
                0 <= m < g,
                n == m / g,
        ;
    }
}

/// A header line is broken only after its white space has been brought down to
/// single spaces: two lines of the same words give the same rows.
pub proof fn law_same_words_same_rows(a: Seq<char>, b: Seq<char>, glyph_w: u32, max_w: u32)
    requires
        squeeze(a) == squeeze(b),
    ensures
        line_rows(a, glyph_w, max_w) == line_rows(b, glyph_w, max_w),
        line_rows(a, glyph_w, max_w) == textwrap_rows(squeeze(a), columns(glyph_w, max_w)),
{
}

}
