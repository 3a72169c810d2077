//! Where sheets and kept frames go, and which source they belong to.
use vstd::prelude::*;
use crate::path::{
    dot, ext_dot, extend, file_name, join, law_parse_render, lemma_ext_dot, name_ext, name_ok,
    name_stem, parent, parse, path_wf, render, slash, strip_prefix, without_ext, Part, Path,
};
use crate::strings::{
    dec, decimal, decode, is_digit, lemma_dec_digits, lemma_dec_len, number, pad_left, padded_left,
    text_of, to_chars,
};

verus! {

/// Why a path could not be mirrored.
#[derive(Debug, Clone, Copy, PartialEq, Eq, Structural)]
pub enum PathError {
    /// The source does not lie under the root.
    NotUnderRoot,
    /// The source does not end in a readable file name.
    NoFileName,
    /// The sheet does not lie in the screens tree.
    NotInScreens,
    /// The frame does not lie in the frames tree.
    NotInFrames,
}

/// The words for a path error.
pub open spec fn path_error_text(e: PathError) -> Seq<char> {
    match e {
        PathError::NotUnderRoot => "source video is not under --root"@,
        PathError::NoFileName => "source video has no file name"@,
        PathError::NotInScreens => "sheet is not under the screens tree"@,
        PathError::NotInFrames => "frame is not under the frames tree"@,
    }
}

impl PathError {
    /// The words for this error.
    pub fn message(&self) -> (r: String)
        ensures
            r@ == path_error_text(*self),
    {
        match self {
            PathError::NotUnderRoot => "source video is not under --root".to_owned(),
            PathError::NoFileName => "source video has no file name".to_owned(),
            PathError::NotInScreens => "sheet is not under the screens tree".to_owned(),
            PathError::NotInFrames => "frame is not under the frames tree".to_owned(),
        }
    }
}

// ---- mirrored paths ----

/// `.jpg`, as bytes.
pub open spec fn dot_jpg() -> Seq<u8> {
    seq![0x2e, 0x6a, 0x70, 0x67]
}

/// `jpg`, as bytes.
pub open spec fn jpg() -> Seq<u8> {
    seq![0x6a, 0x70, 0x67]
}

/// The text of `s`, all of it ASCII, as bytes.
pub open spec fn ascii(s: Seq<char>) -> Seq<u8> {
    Seq::new(s.len(), |i: int| s[i] as u8)
}

/// Whether `b` is an ASCII digit.
pub open spec fn is_digit_byte(b: u8) -> bool {
    0x30 <= b <= 0x39
}

/// The number of a frame as it stands in a file name: at least four digits.
pub open spec fn frame_number(n: nat) -> Seq<u8> {
    ascii(pad_left(dec(n), 4, '0'))
}

/// The output tree `dir` under `root`.
pub open spec fn tree(root: Seq<Part>, dir: Seq<char>) -> Seq<Part> {
    join(root, parse(vstd::utf8::encode_utf8(dir)))
}

/// The directory of `rel`, empty where it has none.
pub open spec fn parent_or_empty(rel: Seq<Part>) -> Seq<Part> {
    match parent(rel) {
        Some(p) => p,
        None => Seq::empty(),
    }
}

/// The directory of the tree `dir` that mirrors the one of `src`.
pub open spec fn mirror_dir(root: Seq<Part>, dir: Seq<char>, src: Seq<Part>) -> Result<
    Seq<Part>,
    PathError,
> {
    match strip_prefix(src, root) {
        None => Err(PathError::NotUnderRoot),
        Some(rel) => Ok(join(tree(root, dir), parent_or_empty(rel))),
    }
}

/// The file name of `src`, if it is valid text.
pub open spec fn readable_name(src: Seq<Part>) -> Option<Seq<u8>> {
    match file_name(src) {
        Some(name) => if text_of(name) is Some {
            Some(name)
        } else {
            None
        },
        None => None,
    }
}

/// The file that mirrors `src` in the tree `dir`: its complete name with
/// `suffix` appended, in the mirrored directory.
pub open spec fn mirror(root: Seq<Part>, dir: Seq<char>, src: Seq<Part>, suffix: Seq<u8>) -> Result<
    Seq<Part>,
    PathError,
> {
    match mirror_dir(root, dir, src) {
        Err(e) => Err(e),
        Ok(d) => match readable_name(src) {
            None => Err(PathError::NoFileName),
            Some(name) => Ok(d.push(Part::Normal(name + suffix))),
        },
    }
}

/// The sheet of `src`.
pub open spec fn sheet_of(root: Seq<Part>, screens_dir: Seq<char>, src: Seq<Part>) -> Result<
    Seq<Part>,
    PathError,
> {
    mirror(root, screens_dir, src, dot_jpg())
}

/// What a frame file adds to the complete name of its source.
pub open spec fn frame_suffix(n: nat) -> Seq<u8> {
    seq![0x2eu8] + frame_number(n) + dot_jpg()
}

/// The file that keeps frame `n` of `src`.
pub open spec fn frame_of(root: Seq<Part>, frames_dir: Seq<char>, src: Seq<Part>, n: nat) -> Result<
    Seq<Part>,
    PathError,
> {
    mirror(root, frames_dir, src, frame_suffix(n))
}

/// The source of a sheet, as seen from the root.
pub open spec fn sheet_source(root: Seq<Part>, screens_dir: Seq<char>, sheet: Seq<Part>) -> Result<
    Seq<Part>,
    PathError,
> {
    match strip_prefix(sheet, tree(root, screens_dir)) {
        Some(rel) => Ok(without_ext(rel)),
        None => Err(PathError::NotInScreens),
    }
}

/// The source of a frame file, as seen from the root.
pub open spec fn frame_source(root: Seq<Part>, frames_dir: Seq<char>, frame: Seq<Part>) -> Result<
    Seq<Part>,
    PathError,
> {
    match strip_prefix(frame, tree(root, frames_dir)) {
        Some(rel) => Ok(without_ext(without_ext(rel))),
        None => Err(PathError::NotInFrames),
    }
}

/// A result is the one that `s` describes.
pub open spec fn path_outcome(r: Result<Path, PathError>, s: Result<Seq<Part>, PathError>) -> bool {
    match r {
        Ok(p) => s == Ok::<Seq<Part>, PathError>(p@),
        Err(e) => s == Err::<Seq<Part>, PathError>(e),
    }
}

/// The output tree `dir` under `root`.
pub fn tree_root(root: &Path, dir: &str) -> (r: Path)
    ensures
        r@ == tree(root@, dir@),
{
    root.join(&Path::parse(dir.as_bytes()))
}

/// The directory of the frames tree that mirrors the one of `src`:
/// `ROOT/<frames_dir>/<rel dir>/`.
pub fn frame_parent_dir(root: &Path, frames_dir: &str, src: &Path) -> (r: Result<Path, PathError>)
    ensures
        path_outcome(r, mirror_dir(root@, frames_dir@, src@)),
{
    match src.strip_prefix(root) {
        None => Err(PathError::NotUnderRoot),
        Some(rel) => {
            let t: Path = tree_root(root, frames_dir);
            let up: Path = match rel.parent() {
                Some(p) => p,
                None => Path::empty(),
            };
            Ok(t.join(&up))
        },
    }
}

/// The file that mirrors `src` in the tree `dir`, its name followed by `suffix`.
fn mirrored(root: &Path, dir: &str, src: &Path, suffix: &[u8]) -> (r: Result<Path, PathError>)
    requires
        suffix@.len() >= 2,
        !suffix@.contains(slash()),
    ensures
        path_outcome(r, mirror(root@, dir@, src@, suffix@)),
{
    proof {
        use_type_invariant(src);
    }
    match frame_parent_dir(root, dir, src) {
        Err(e) => Err(e),
        Ok(d) => match src.file_name() {
            None => Err(PathError::NoFileName),
            Some(name) => {
                if decode(name.as_slice()).is_none() {
                    return Err(PathError::NoFileName);
                }
                let mut full: Vec<u8> = name;
                extend(&mut full, suffix);
                proof {
                    lemma_longer_name_ok(src@, suffix@);
                }
                Ok(d.join_name(full))
            },
        },
    }
}

pub proof fn lemma_longer_name_ok(src: Seq<Part>, suffix: Seq<u8>)
    requires
        path_wf(src),
        file_name(src) is Some,
        suffix.len() >= 2,
        !suffix.contains(slash()),
    ensures
        name_ok(file_name(src)->0 + suffix),
{
    let name = file_name(src)->0;
    assert(src[src.len() - 1] == src.last());
    let full = name + suffix;
    assert forall|i: int| 0 <= i < full.len() implies full[i] != slash() by {
        if i < name.len() {
            assert(name.contains(name[i]));
        } else {
            assert(suffix.contains(suffix[i - name.len()]));
        }
    }
}

/// The sheet of a source video: `ROOT/<screens_dir>/<rel dir>/<name>.jpg`,
/// with the complete name of the source, extension and all.
pub fn sheet_path(root: &Path, screens_dir: &str, src: &Path) -> (r: Result<Path, PathError>)
    ensures
        path_outcome(r, sheet_of(root@, screens_dir@, src@)),
{
    let suffix: [u8; 4] = [0x2e, 0x6a, 0x70, 0x67];
    assert(suffix@ =~= dot_jpg());
    mirrored(root, screens_dir, src, suffix.as_slice())
}

/// The source of a sheet, as seen from the root: for
/// `ROOT/<screens_dir>/a/b/movie.mp4.jpg` it is `a/b/movie.mp4`.
pub fn rel_source(root: &Path, screens_dir: &str, sheet: &Path) -> (r: Result<Path, PathError>)
    ensures
        path_outcome(r, sheet_source(root@, screens_dir@, sheet@)),
{
    match sheet.strip_prefix(&tree_root(root, screens_dir)) {
        Some(rel) => Ok(rel.without_ext()),
        None => Err(PathError::NotInScreens),
    }
}

pub proof fn lemma_frame_number(n: nat)
    ensures
        frame_number(n).len() >= 4,
        forall|i: int| 0 <= i < frame_number(n).len() ==> is_digit_byte(#[trigger] frame_number(n)[i]),
        frame_number(n).len() == 4 <==> n < 10000,
{
    lemma_dec_digits(n);
    lemma_dec_len(n);
    let t = pad_left(dec(n), 4, '0');
    assert forall|i: int| 0 <= i < t.len() implies is_digit(#[trigger] t[i]) by {
        let k = t.len() - dec(n).len();
        if i >= k {
            assert(t[i] == dec(n)[i - k]);
        }
    }
}

/// The digits of a frame number, as bytes.
fn frame_digits(n: u32) -> (r: Vec<u8>)
    ensures
        r@ == frame_number(n as nat),
{
    let d: String = decimal(n as u64);
    let t: String = padded_left(d.as_str(), 4, '0');
    let v: Vec<char> = to_chars(t.as_str());
    let mut r: Vec<u8> = Vec::new();
    for i in 0..v.len()
        invariant
            v@ == t@,
            r@ =~= ascii(t@.take(i as int)),
    {
        r.push(v[i] as u8);
    }
    assert(t@.take(t@.len() as int) =~= t@);
    r
}

/// The file that keeps frame `frame_n` of a source video:
/// `ROOT/<frames_dir>/<rel dir>/<name>.<frame_n>.jpg`, the number padded with
/// zeros to four digits.
pub fn frame_file_path(root: &Path, frames_dir: &str, src: &Path, frame_n: u32) -> (r: Result<
    Path,
    PathError,
>)
    ensures
        path_outcome(r, frame_of(root@, frames_dir@, src@, frame_n as nat)),
{
    let mut suffix: Vec<u8> = Vec::new();
    suffix.push(0x2e);
    let d: Vec<u8> = frame_digits(frame_n);
    extend(&mut suffix, d.as_slice());
    let tail: [u8; 4] = [0x2e, 0x6a, 0x70, 0x67];
    extend(&mut suffix, tail.as_slice());
    assert(suffix@ =~= frame_suffix(frame_n as nat));
    proof {
        lemma_frame_suffix(frame_n as nat);
    }
    mirrored(root, frames_dir, src, suffix.as_slice())
}

proof fn lemma_frame_suffix(n: nat)
    ensures
        frame_suffix(n).len() >= 9,
        !frame_suffix(n).contains(slash()),
{
    lemma_frame_number(n);
    let s = frame_suffix(n);
    let k = frame_number(n).len();
    assert forall|i: int| 0 <= i < s.len() implies s[i] != slash() by {
        if 1 <= i < 1 + k {
            assert(s[i] == frame_number(n)[i - 1]);
        }
    }
}

/// The source of a frame file, as seen from the root: for
/// `ROOT/<frames_dir>/a/b/movie.mp4.0001.jpg` it is `a/b/movie.mp4`.
pub fn rel_frame_source(root: &Path, frames_dir: &str, frame: &Path) -> (r: Result<Path, PathError>)
    ensures
        path_outcome(r, frame_source(root@, frames_dir@, frame@)),
{
    match frame.strip_prefix(&tree_root(root, frames_dir)) {
        Some(rel) => Ok(rel.without_ext().without_ext()),
        None => Err(PathError::NotInFrames),
    }
}

// ---- laws of mirroring ----

/// A source that lies properly under the root: it has a name of its own
/// there, and what leads to it from the root is a relative path.
pub open spec fn lies_under(root: Seq<Part>, src: Seq<Part>) -> bool {
    &&& path_wf(src)
    &&& root.is_prefix_of(src)
    &&& root.len() < src.len()
    &&& root.len() > 0 || !(src[0] is Root || src[0] is Cur)
}

/// `name` with a tail behind it loses exactly that tail when the extension is
/// taken off, if the tail is a dot and then no dot.
pub proof fn lemma_stem_of_longer(name: Seq<u8>, tail: Seq<u8>)
    requires
        name.len() > 0,
        !tail.contains(dot()),
    ensures
        name_stem(name.push(dot()) + tail) == name,
        name_ext(name.push(dot()) + tail) == Some(tail),
{
    let full = name.push(dot()) + tail;
    lemma_ext_dot(full);
    assert(full[name.len() as int] == dot());
    assert forall|j: int| name.len() < j < full.len() implies full[j] != dot() by {
        assert(tail.contains(tail[j - name.len() - 1]));
    }
    assert(ext_dot(full) is Some);
    assert(ext_dot(full)->0 == name.len());
    assert(full.take(name.len() as int) =~= name);
    assert(full.skip(name.len() as int + 1) =~= tail);
}

/// What mirroring leaves behind the output tree: the way to the source with
/// the longer name.
pub proof fn lemma_mirror(root: Seq<Part>, dir: Seq<char>, src: Seq<Part>, suffix: Seq<u8>)
    requires
        lies_under(root, src),
        mirror(root, dir, src, suffix) is Ok,
    ensures
        file_name(src) is Some,
        name_ok(file_name(src)->0),
        tree(root, dir).is_prefix_of(mirror(root, dir, src, suffix)->Ok_0),
        strip_prefix(mirror(root, dir, src, suffix)->Ok_0, tree(root, dir)) == Some(
            src.skip(root.len() as int).drop_last().push(Part::Normal(file_name(src)->0 + suffix)),
        ),
        src.skip(root.len() as int) == src.skip(root.len() as int).drop_last().push(
            Part::Normal(file_name(src)->0),
        ),
        join(root, src.skip(root.len() as int)) == src,
{
    let rel = src.skip(root.len() as int);
    let up = rel.drop_last();
    let t = tree(root, dir);
    let name = file_name(src)->0;
    assert(src[src.len() - 1] == src.last());
    assert(rel.last() == src.last());
    assert(rel[0] == src[root.len() as int]);
    assert(parent(rel) == Some(up));
    assert(up.len() > 0 ==> up[0] == rel[0]);
    assert(join(t, up) =~= t + up);
    let out = mirror(root, dir, src, suffix)->Ok_0;
    assert(out =~= t + up.push(Part::Normal(name + suffix)));
    assert(out.skip(t.len() as int) =~= up.push(Part::Normal(name + suffix)));
    assert(rel =~= up.push(Part::Normal(name)));
    assert(join(root, rel) =~= src) by {
        if root.len() == 0 {
            assert(rel =~= src);
        } else {
            assert(root + rel =~= src);
        }
    }
}

/// Every sheet and every kept frame lies inside its output tree.
pub proof fn law_outputs_stay_in_their_tree(
    root: Seq<Part>,
    dir: Seq<char>,
    src: Seq<Part>,
    n: nat,
)
    requires
        lies_under(root, src),
    ensures
        sheet_of(root, dir, src) matches Ok(p) ==> tree(root, dir).is_prefix_of(p),
        frame_of(root, dir, src, n) matches Ok(p) ==> tree(root, dir).is_prefix_of(p),
{
    if sheet_of(root, dir, src) is Ok {
        lemma_mirror(root, dir, src, dot_jpg());
    }
    if frame_of(root, dir, src, n) is Ok {
        lemma_mirror(root, dir, src, frame_suffix(n));
    }
}

/// A sheet leads back to its source: the path recovered from the sheet is the
/// one that leads from the root to the source.
pub proof fn law_sheet_leads_to_source(root: Seq<Part>, screens_dir: Seq<char>, src: Seq<Part>)
    requires
        lies_under(root, src),
        sheet_of(root, screens_dir, src) is Ok,
    ensures
        sheet_source(root, screens_dir, sheet_of(root, screens_dir, src)->Ok_0) == Ok::<
            Seq<Part>,
            PathError,
        >(src.skip(root.len() as int)),
        join(root, src.skip(root.len() as int)) == src,
{
    lemma_mirror(root, screens_dir, src, dot_jpg());
    let rel = src.skip(root.len() as int);
    let up = rel.drop_last();
    let name = file_name(src)->0;
    let full = name + dot_jpg();
    assert(!jpg().contains(dot()));
    lemma_stem_of_longer(name, jpg());
    assert(full =~= name.push(dot()) + jpg());
    let out = up.push(Part::Normal(full));
    assert(out.drop_last() =~= up);
    assert(without_ext(out) =~= rel);
}

/// No two sources share a sheet, be it that only their extensions differ.
pub proof fn law_sheets_are_distinct(
    root: Seq<Part>,
    screens_dir: Seq<char>,
    a: Seq<Part>,
    b: Seq<Part>,
)
    requires
        lies_under(root, a),
        lies_under(root, b),
        sheet_of(root, screens_dir, a) is Ok,
        sheet_of(root, screens_dir, a) == sheet_of(root, screens_dir, b),
    ensures
        a == b,
{
    law_sheet_leads_to_source(root, screens_dir, a);
    law_sheet_leads_to_source(root, screens_dir, b);
}

/// A name with a frame suffix, taken apart from behind.
pub proof fn lemma_frame_name(name: Seq<u8>, n: nat)
    requires
        name.len() > 0,
    ensures
        name_stem(name + frame_suffix(n)) == name.push(dot()) + frame_number(n),
        name_ext(name + frame_suffix(n)) == Some(jpg()),
        name_stem(name_stem(name + frame_suffix(n))) == name,
        name_ext(name_stem(name + frame_suffix(n))) == Some(frame_number(n)),
{
    lemma_frame_number(n);
    let d = frame_number(n);
    assert(!d.contains(dot())) by {
        assert forall|i: int| 0 <= i < d.len() implies d[i] != dot() by {
            assert(is_digit_byte(d[i]));
        }
    }
    assert(!jpg().contains(dot()));
    let mid = name.push(dot()) + d;
    assert(name + frame_suffix(n) =~= mid.push(dot()) + jpg());
    lemma_stem_of_longer(mid, jpg());
    lemma_stem_of_longer(name, d);
}

/// A kept frame leads back to its source, whatever its number.
pub proof fn law_frame_leads_to_source(
    root: Seq<Part>,
    frames_dir: Seq<char>,
    src: Seq<Part>,
    n: nat,
)
    requires
        lies_under(root, src),
        frame_of(root, frames_dir, src, n) is Ok,
    ensures
        frame_source(root, frames_dir, frame_of(root, frames_dir, src, n)->Ok_0) == Ok::<
            Seq<Part>,
            PathError,
        >(src.skip(root.len() as int)),
        join(root, src.skip(root.len() as int)) == src,
{
    lemma_mirror(root, frames_dir, src, frame_suffix(n));
    let rel = src.skip(root.len() as int);
    let up = rel.drop_last();
    let name = file_name(src)->0;
    lemma_frame_name(name, n);
    lemma_frame_number(n);
    let mid = name.push(dot()) + frame_number(n);
    let out = up.push(Part::Normal(name + frame_suffix(n)));
    assert(out.drop_last() =~= up);
    assert(mid.len() > 2);
    assert(without_ext(out) =~= up.push(Part::Normal(mid)));
    assert(up.push(Part::Normal(mid)).drop_last() =~= up);
    assert(without_ext(without_ext(out)) =~= rel);
}

/// Leading zeros do not change a number.
proof fn lemma_padded_number(s: Seq<char>, k: nat)
    ensures
        number(Seq::new(k, |i: int| '0') + s) == number(s),
    decreases s.len() + k,
{
    let z = Seq::new(k, |i: int| '0');
    if s.len() > 0 {
        assert((z + s).drop_last() =~= z + s.drop_last());
        lemma_padded_number(s.drop_last(), k);
    } else if k > 0 {
        let y = Seq::new((k - 1) as nat, |i: int| '0');
        assert((z + s).drop_last() =~= y + s);
        lemma_padded_number(s, (k - 1) as nat);
    } else {
        assert(z + s =~= s);
    }
}

pub proof fn lemma_frame_number_injective(a: nat, b: nat)
    requires
        frame_number(a) == frame_number(b),
    ensures
        a == b,
{
    let s = pad_left(dec(a), 4, '0');
    let t = pad_left(dec(b), 4, '0');
    lemma_dec_digits(a);
    lemma_dec_digits(b);
    lemma_padded_number(dec(a), (4 - dec(a).len()) as nat);
    lemma_padded_number(dec(b), (4 - dec(b).len()) as nat);
    assert(number(s) == a && number(t) == b);
    assert(s =~= t) by {
        assert(s.len() == frame_number(a).len() && t.len() == frame_number(b).len());
        assert forall|i: int| 0 <= i < s.len() implies s[i] == t[i] by {
            assert(frame_number(a)[i] == s[i] as u8 && frame_number(b)[i] == t[i] as u8);
            lemma_padded_digit(a, i);
            lemma_padded_digit(b, i);
        }
    }
}

proof fn lemma_padded_digit(n: nat, i: int)
    requires
        0 <= i < pad_left(dec(n), 4, '0').len(),
    ensures
        is_digit(pad_left(dec(n), 4, '0')[i]),
{
    lemma_dec_digits(n);
    let t = pad_left(dec(n), 4, '0');
    let k = t.len() - dec(n).len();
    if i >= k {
        assert(t[i] == dec(n)[i - k]);
    }
}

/// No file keeps two different frames: neither of one source nor of two.
pub proof fn law_frames_are_distinct(
    root: Seq<Part>,
    frames_dir: Seq<char>,
    a: Seq<Part>,
    i: nat,
    b: Seq<Part>,
    j: nat,
)
    requires
        lies_under(root, a),
        lies_under(root, b),
        frame_of(root, frames_dir, a, i) is Ok,
        frame_of(root, frames_dir, a, i) == frame_of(root, frames_dir, b, j),
    ensures
        a == b,
        i == j,
{
    law_frame_leads_to_source(root, frames_dir, a, i);
    law_frame_leads_to_source(root, frames_dir, b, j);
    assert(a == b);
    let name = file_name(a)->0;
    lemma_mirror(root, frames_dir, a, frame_suffix(i));
    let x = frame_of(root, frames_dir, a, i)->Ok_0;
    let y = frame_of(root, frames_dir, b, j)->Ok_0;
    assert(x.last() == Part::Normal(name + frame_suffix(i)));
    assert(y.last() == Part::Normal(name + frame_suffix(j)));
    lemma_frame_name(name, i);
    lemma_frame_name(name, j);
    lemma_frame_number_injective(i, j);
}

/// A kept frame never has the name of its own source's sheet.
pub proof fn law_frame_is_not_its_sheet(root: Seq<Part>, dir: Seq<char>, src: Seq<Part>, n: nat)
    requires
        frame_of(root, dir, src, n) is Ok,
    ensures
        frame_of(root, dir, src, n) != sheet_of(root, dir, src),
{
    let name = file_name(src)->0;
    let x = frame_of(root, dir, src, n)->Ok_0;
    let y = sheet_of(root, dir, src)->Ok_0;
    assert(x.last() == Part::Normal(name + frame_suffix(n)));
    assert(y.last() == Part::Normal(name + dot_jpg()));
    lemma_frame_number(n);
    assert((name + frame_suffix(n)).len() != (name + dot_jpg()).len());
}

/// A proper directory name stands for itself when it is read as a path.
pub proof fn lemma_parse_name(name: Seq<u8>)
    requires
        name_ok(name),
    ensures
        parse(name) == seq![Part::Normal(name)],
{
    let s = seq![Part::Normal(name)];
    law_parse_render(s);
    assert(render(s) == name);
}

/// With two different proper names for the two output trees, no file is both
/// a sheet and a kept frame, whatever their sources.
pub proof fn law_trees_are_disjoint(
    root: Seq<Part>,
    screens_dir: Seq<char>,
    frames_dir: Seq<char>,
    a: Seq<Part>,
    b: Seq<Part>,
    n: nat,
)
    requires
        lies_under(root, a),
        lies_under(root, b),
        screens_dir != frames_dir,
        name_ok(vstd::utf8::encode_utf8(screens_dir)),
        name_ok(vstd::utf8::encode_utf8(frames_dir)),
        sheet_of(root, screens_dir, a) is Ok,
        frame_of(root, frames_dir, b, n) is Ok,
    ensures
        sheet_of(root, screens_dir, a) != frame_of(root, frames_dir, b, n),
{
    let x = vstd::utf8::encode_utf8(screens_dir);
    let y = vstd::utf8::encode_utf8(frames_dir);
    lemma_parse_name(x);
    lemma_parse_name(y);
    vstd::utf8::encode_utf8_decode_utf8(screens_dir);
    vstd::utf8::encode_utf8_decode_utf8(frames_dir);
    assert(x != y);
    law_outputs_stay_in_their_tree(root, screens_dir, a, n);
    law_outputs_stay_in_their_tree(root, frames_dir, b, n);
    let p = sheet_of(root, screens_dir, a)->Ok_0;
    let q = frame_of(root, frames_dir, b, n)->Ok_0;
    let k = root.len() as int;
    assert(tree(root, screens_dir)[k] == Part::Normal(x));
    assert(tree(root, frames_dir)[k] == Part::Normal(y));
    assert(p[k] == Part::Normal(x));
    assert(q[k] == Part::Normal(y));
}

// ---- where the outputs lie ----

/// The sheet of a video lies in the screens tree under the same directories as
/// the video under the root, and has the complete name of the video with
/// `.jpg` behind it.
pub proof fn law_sheet_mirrors_its_source(
    root: Seq<Part>,
    screens_dir: Seq<char>,
    way: Seq<Part>,
    name: Seq<u8>,
)
    requires
        lies_under(root, root + way.push(Part::Normal(name))),
        name_ok(vstd::utf8::encode_utf8(screens_dir)),
        text_of(name) is Some,
    ensures
        sheet_of(root, screens_dir, root + way.push(Part::Normal(name))) == Ok::<
            Seq<Part>,
            PathError,
        >(
            root.push(Part::Normal(vstd::utf8::encode_utf8(screens_dir))) + way.push(
                Part::Normal(name + seq![0x2eu8, 0x6au8, 0x70u8, 0x67u8]),
            ),
        ),
{
    lemma_mirrored(root, screens_dir, way, name, dot_jpg());
    assert(dot_jpg() =~= seq![0x2eu8, 0x6au8, 0x70u8, 0x67u8]);
}

/// A kept frame lies in the frames tree under the same directories as its
/// video under the root, and has the complete name of the video with a dot,
/// the number in four digits and `.jpg` behind it.
pub proof fn law_frame_mirrors_its_source(
    root: Seq<Part>,
    frames_dir: Seq<char>,
    way: Seq<Part>,
    name: Seq<u8>,
    n: nat,
)
    requires
        lies_under(root, root + way.push(Part::Normal(name))),
        name_ok(vstd::utf8::encode_utf8(frames_dir)),
        text_of(name) is Some,
        n < 10000,
    ensures
        frame_of(root, frames_dir, root + way.push(Part::Normal(name)), n) == Ok::<
            Seq<Part>,
            PathError,
        >(
            root.push(Part::Normal(vstd::utf8::encode_utf8(frames_dir))) + way.push(
                Part::Normal(
                    name + seq![
                        0x2eu8,
                        (0x30 + n / 1000) as u8,
                        (0x30 + n / 100 % 10) as u8,
                        (0x30 + n / 10 % 10) as u8,
                        (0x30 + n % 10) as u8,
                        0x2eu8,
                        0x6au8,
                        0x70u8,
                        0x67u8,
                    ],
                ),
            ),
        ),
{
    lemma_mirrored(root, frames_dir, way, name, frame_suffix(n));
    lemma_four_digits(n);
    assert(frame_suffix(n) =~= seq![
        0x2eu8,
        (0x30 + n / 1000) as u8,
        (0x30 + n / 100 % 10) as u8,
        (0x30 + n / 10 % 10) as u8,
        (0x30 + n % 10) as u8,
        0x2eu8,
        0x6au8,
        0x70u8,
        0x67u8,
    ]);
}

/// The four digits of a number below ten thousand.
pub proof fn lemma_four_digits(n: nat)
    requires
        n < 10000,
    ensures
        frame_number(n) == seq![
            (0x30 + n / 1000) as u8,
            (0x30 + n / 100 % 10) as u8,
            (0x30 + n / 10 % 10) as u8,
            (0x30 + n % 10) as u8,
        ],
{
    reveal_with_fuel(dec, 4);
    assert(n / 10 / 10 == n / 100 && n / 10 / 10 / 10 == n / 1000);
    let t = pad_left(dec(n), 4, '0');
    assert(t.len() == 4);
    assert(t[3] as u8 == 0x30 + n % 10);
    assert(t[2] as u8 == 0x30 + n / 10 % 10);
    assert(t[1] as u8 == 0x30 + n / 100 % 10);
    assert(t[0] as u8 == 0x30 + n / 1000);
}

proof fn lemma_mirrored(
    root: Seq<Part>,
    dir: Seq<char>,
    way: Seq<Part>,
    name: Seq<u8>,
    suffix: Seq<u8>,
)
    requires
        lies_under(root, root + way.push(Part::Normal(name))),
        name_ok(vstd::utf8::encode_utf8(dir)),
        text_of(name) is Some,
    ensures
        mirror(root, dir, root + way.push(Part::Normal(name)), suffix) == Ok::<
            Seq<Part>,
            PathError,
        >(
            root.push(Part::Normal(vstd::utf8::encode_utf8(dir))) + way.push(
                Part::Normal(name + suffix),
            ),
        ),
{
    let rel = way.push(Part::Normal(name));
    let src = root + rel;
    let d = vstd::utf8::encode_utf8(dir);
    lemma_parse_name(d);
    assert(src.skip(root.len() as int) =~= rel);
    assert(src.last() == Part::Normal(name));
    assert(rel.drop_last() =~= way);
    assert(tree(root, dir) =~= root.push(Part::Normal(d)));
    assert(way.len() > 0 ==> src[root.len() as int] == way[0]);
    assert(join(tree(root, dir), way) =~= root.push(Part::Normal(d)) + way);
    assert((root.push(Part::Normal(d)) + way).push(Part::Normal(name + suffix)) =~= root.push(
        Part::Normal(d),
    ) + way.push(Part::Normal(name + suffix)));
}

/// A video has a sheet exactly where it lies under the root and its name is
/// valid text; what is wrong otherwise is told, the place before the name.
pub proof fn law_which_videos_have_sheets(root: Seq<Part>, screens_dir: Seq<char>, src: Seq<Part>)
    ensures
        !root.is_prefix_of(src) ==> sheet_of(root, screens_dir, src) == Err::<Seq<Part>, PathError>(
            PathError::NotUnderRoot,
        ),
        root.is_prefix_of(src) && (file_name(src) is None || text_of(file_name(src)->0) is None)
            ==> sheet_of(root, screens_dir, src) == Err::<Seq<Part>, PathError>(
            PathError::NoFileName,
        ),
        root.is_prefix_of(src) && file_name(src) is Some && text_of(file_name(src)->0) is Some
            ==> sheet_of(root, screens_dir, src) is Ok,
{
}

/// A path outcome that fits its description is a path where that is one, and
/// the same error where that is an error.
pub proof fn law_path_outcomes(r: Result<Path, PathError>, s: Result<Seq<Part>, PathError>)
    requires
        path_outcome(r, s),
    ensures
        r is Ok <==> s is Ok,
        r matches Ok(p) ==> p@ == s->Ok_0,
        r matches Err(e) ==> e == s->Err_0,
{
}

/// A kept frame of number ten thousand or more has all its digits in its name.
pub proof fn law_long_frame_numbers(n: nat, i: int)
    requires
        n >= 10000,
        0 <= i < dec(n).len(),
    ensures
        frame_suffix(n).len() == dec(n).len() + 5,
        frame_suffix(n)[0] == 0x2e,
        frame_suffix(n)[i + 1] == dec(n)[i] as u8,
        frame_suffix(n).skip(dec(n).len() as int + 1) == seq![0x2eu8, 0x6au8, 0x70u8, 0x67u8],
{
    lemma_dec_len(n);
    let s = frame_suffix(n);
    assert(frame_number(n).len() == dec(n).len());
    assert(s[i + 1] == frame_number(n)[i]);
    assert(s.skip(dec(n).len() as int + 1) =~= seq![0x2eu8, 0x6au8, 0x70u8, 0x67u8]);
}

/// The directory that keeps the frames of a video mirrors the directory of the
/// video; a video outside the root has none.
pub proof fn law_frames_directory_mirrors_the_source(
    root: Seq<Part>,
    frames_dir: Seq<char>,
    way: Seq<Part>,
    name: Seq<u8>,
    other: Seq<Part>,
)
    requires
        lies_under(root, root + way.push(Part::Normal(name))),
        name_ok(vstd::utf8::encode_utf8(frames_dir)),
    ensures
        mirror_dir(root, frames_dir, root + way.push(Part::Normal(name))) == Ok::<
            Seq<Part>,
            PathError,
        >(root.push(Part::Normal(vstd::utf8::encode_utf8(frames_dir))) + way),
        !root.is_prefix_of(other) ==> mirror_dir(root, frames_dir, other) == Err::<
            Seq<Part>,
            PathError,
        >(PathError::NotUnderRoot),
{
    let rel = way.push(Part::Normal(name));
    let src = root + rel;
    let d = vstd::utf8::encode_utf8(frames_dir);
    lemma_parse_name(d);
    assert(src.skip(root.len() as int) =~= rel);
    assert(rel.drop_last() =~= way);
    assert(tree(root, frames_dir) =~= root.push(Part::Normal(d)));
    assert(way.len() > 0 ==> src[root.len() as int] == way[0]);
    assert(join(tree(root, frames_dir), way) =~= root.push(Part::Normal(d)) + way);
}

/// A generated file belongs to a source only where it lies in its tree.
pub proof fn law_sources_are_sought_only_in_the_tree(
    root: Seq<Part>,
    dir: Seq<char>,
    p: Seq<Part>,
)
    ensures
        sheet_source(root, dir, p) is Ok <==> tree(root, dir).is_prefix_of(p),
        frame_source(root, dir, p) is Ok <==> tree(root, dir).is_prefix_of(p),
        !tree(root, dir).is_prefix_of(p) ==> sheet_source(root, dir, p) == Err::<
            Seq<Part>,
            PathError,
        >(PathError::NotInScreens) && frame_source(root, dir, p) == Err::<Seq<Part>, PathError>(
            PathError::NotInFrames,
        ),
{
}

}
