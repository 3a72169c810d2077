use screens::sheet::{render_header_strip, Layout};
use screens::text::{wrapped, TextRenderer};

fn be16(out: &mut Vec<u8>, n: u16) {
    out.extend_from_slice(&n.to_be_bytes());
}

fn be32(out: &mut Vec<u8>, n: u32) {
    out.extend_from_slice(&n.to_be_bytes());
}

/// The smallest file that reads as a font: three tables and one empty glyph.
fn font() -> Vec<u8> {
    let mut head = vec![0u8; 54];
    head[18..20].copy_from_slice(&1000u16.to_be_bytes());
    let hhea = vec![0u8; 36];
    let mut maxp = Vec::new();
    be32(&mut maxp, 0x0000_5000);
    be16(&mut maxp, 1);
    let tables: [(&[u8; 4], &[u8]); 3] = [(b"head", &head), (b"hhea", &hhea), (b"maxp", &maxp)];
    let mut out = Vec::new();
    be32(&mut out, 0x0001_0000);
    for n in [3, 0, 0, 0] {
        be16(&mut out, n);
    }
    let mut at = 12 + 16 * 3;
    for (tag, data) in tables {
        out.extend_from_slice(tag);
        be32(&mut out, 0);
        be32(&mut out, at);
        be32(&mut out, data.len() as u32);
        at += data.len() as u32;
    }
    for (_, data) in tables {
        out.extend_from_slice(data);
    }
    out
}

fn lines() -> [String; 4] {
    ["one".to_string(), "two  words".to_string(), "three".to_string(), "four".to_string()]
}

#[test]
fn fonts_are_loaded_from_bytes() {
    let r = TextRenderer::from_bytes(font());
    assert!(r.is_ok());
    let mut broken = font();
    broken.truncate(60);
    match TextRenderer::from_bytes(broken) {
        Ok(_) => panic!("this is no font"),
        Err(m) => assert_eq!(m, "font data is malformed: InvalidFont"),
    }
}

#[test]
fn long_lines_are_broken_between_words() {
    assert_eq!(wrapped("alpha beta  gamma", 10, 119), vec!["alpha beta", "gamma"]);
    assert_eq!(wrapped("  alpha \n beta ", 10, 1000), vec!["alpha beta"]);
    assert_eq!(wrapped("abcdefgh", 10, 35), vec!["abc", "def", "gh"]);
    assert_eq!(wrapped("abc", 10, 5), vec!["a", "b", "c"]);
    assert_eq!(wrapped("abc", 0, 100), vec!["abc"]);
    assert_eq!(wrapped("", 10, 100), vec![""]);
    let r = TextRenderer::from_bytes(font()).unwrap_or_else(|m| panic!("{m}"));
    assert_eq!(r.wrap_line("alpha beta  gamma", 10, 119), vec!["alpha beta", "gamma"]);
}

#[test]
fn short_lines_take_one_row_each() {
    let r = TextRenderer::from_bytes(font()).unwrap_or_else(|m| panic!("{m}"));
    let layout = Layout::default();
    let s = render_header_strip(&r, &lines(), 10, 29, 640, &layout).unwrap();
    assert_eq!(s.rows, vec!["one", "two words", "three", "four"]);
    assert_eq!(s.ys, vec![8, 37, 66, 95]);
    assert_eq!(s.height, 132);
    let s = render_header_strip(&r, &lines(), 10, 29, 16 + 50, &layout).unwrap();
    assert_eq!(s.rows, vec!["one", "two", "words", "three", "four"]);
    let s = render_header_strip(&r, &lines(), 10, 1, 3, &layout).unwrap();
    assert_eq!(s.rows.len(), 3 + 3 + 5 + 5 + 4);
    assert!(render_header_strip(&r, &lines(), 10, u32::MAX, 640, &layout).is_none());
}
