//! Telling videos from other files, and reporting what was left out.
use vstd::prelude::*;
use vstd::utf8::encode_utf8;
use crate::assoc::{ascending, SortedSet};
use crate::order::{
    lemma_filter_count, lemma_filter_distinct, lemma_map_count, lemma_sorted_unique,
    sorted, views,
};
use crate::path::{
    dot, extension, file_name, lemma_ext_dot, same_bytes, shown, strip_prefix, Part, Path,
};
use crate::paths::lemma_stem_of_longer;
use crate::sort::stable_sort;
use crate::strings::{
    contains, dec, decimal, decode, holds, is_space, join, joined, law_trim, lemma_holds, lower,
    lowered, same, text_of, texts, trim, trimmed,
};
use crate::tally::{keys_ascend, law_rows_add_up, lists, sum_counts, total, Tally};

verus! {

// ---- video extensions ----

/// The extensions that mark a file as a video: in lower case, without a dot,
/// never empty, each listed once, and at least one of them.
#[derive(Debug)]
pub struct VideoExts {
    exts: Vec<String>,
}

impl View for VideoExts {
    type V = Set<Seq<char>>;

    closed spec fn view(&self) -> Set<Seq<char>> {
        texts(self.exts@).to_set()
    }
}

/// An extension as it is stored.
pub open spec fn ext_ok(e: Seq<char>) -> bool {
    e.len() > 0 && lower(e) == e && !e.contains('.')
}

/// An entry of the list as it is stored: trimmed, in lower case.
pub open spec fn normal_ext(raw: Seq<char>) -> Seq<char> {
    lower(trim(raw))
}

/// The entries that normalization leaves, each once, in the order in which
/// they first come.
pub open spec fn kept_exts(raw: Seq<Seq<char>>) -> Seq<Seq<char>>
    decreases raw.len(),
{
    if raw.len() == 0 {
        Seq::empty()
    } else {
        let done = kept_exts(raw.drop_last());
        let e = normal_ext(raw.last());
        if e.len() == 0 || done.contains(e) {
            done
        } else {
            done.push(e)
        }
    }
}

/// The entries among `kept` that hold a dot.
pub open spec fn dotted(kept: Seq<Seq<char>>) -> Seq<Seq<char>>
    decreases kept.len(),
{
    if kept.len() == 0 {
        Seq::empty()
    } else if kept.last().contains('.') {
        dotted(kept.drop_last()).push(kept.last())
    } else {
        dotted(kept.drop_last())
    }
}

/// Whether `e` is what normalization leaves of some entry.
pub open spec fn is_entry(raw: Seq<Seq<char>>, e: Seq<char>) -> bool {
    e.len() > 0 && exists|i: int| 0 <= i < raw.len() && #[trigger] normal_ext(raw[i]) == e
}

/// Each entry is kept, and nothing else is.
proof fn lemma_kept_exts(raw: Seq<Seq<char>>, e: Seq<char>)
    ensures
        kept_exts(raw).contains(e) <==> is_entry(raw, e),
    decreases raw.len(),
{
    if raw.len() > 0 {
        let front = raw.drop_last();
        lemma_kept_exts(front, e);
        let done = kept_exts(front);
        let last = normal_ext(raw.last());
        assert(raw[raw.len() - 1] == raw.last());
        if is_entry(front, e) {
            let i = choose|i: int| 0 <= i < front.len() && #[trigger] normal_ext(front[i]) == e;
            assert(normal_ext(raw[i]) == e);
        }
        if is_entry(raw, e) && e != last {
            let i = choose|i: int| 0 <= i < raw.len() && #[trigger] normal_ext(raw[i]) == e;
            assert(normal_ext(front[i]) == e);
        }
        if e == last && e.len() > 0 {
            assert(normal_ext(raw[raw.len() - 1]) == e);
            assert(done.push(e).contains(e)) by {
                assert(done.push(e)[done.len() as int] == e);
            }
        }
        if done.contains(e) {
            let i = done.index_of(e);
            assert(done.push(last)[i] == e);
        }
        if kept_exts(raw).contains(e) && !done.contains(e) {
            let i = kept_exts(raw).index_of(e);
            assert(i == done.len());
        }
    }
}

/// There are entries to refuse exactly where some kept one holds a dot.
proof fn lemma_dotted(kept: Seq<Seq<char>>)
    ensures
        dotted(kept).len() > 0 <==> exists|e: Seq<char>| #[trigger]
            kept.contains(e) && e.contains('.'),
    decreases kept.len(),
{
    if kept.len() > 0 {
        let front = kept.drop_last();
        lemma_dotted(front);
        assert(kept[kept.len() - 1] == kept.last());
        assert(kept.contains(kept.last()));
        if exists|e: Seq<char>| #[trigger] front.contains(e) && e.contains('.') {
            let e = choose|e: Seq<char>| #[trigger] front.contains(e) && e.contains('.');
            let i = front.index_of(e);
            assert(kept[i] == e);
            assert(kept.contains(e));
        }
        if exists|e: Seq<char>| #[trigger] kept.contains(e) && e.contains('.') {
            let e = choose|e: Seq<char>| #[trigger] kept.contains(e) && e.contains('.');
            let i = kept.index_of(e);
            if i < front.len() {
                assert(front[i] == e);
                assert(front.contains(e));
            }
        }
    }
}

/// The words with which entries that hold a dot are refused.
pub open spec fn dotted_text(bad: Seq<Seq<char>>) -> Seq<char> {
    "--video-exts entries must not include a leading dot (got: "@ + join(bad, ", "@) + ")"@
}

/// The extension of `p` in lower case, if it has one that is valid text.
pub open spec fn ext_text(p: Seq<Part>) -> Option<Seq<char>> {
    match extension(p) {
        Some(e) => match text_of(e) {
            Some(t) => Some(lower(t)),
            None => None,
        },
        None => None,
    }
}

/// Whether `p` has one of the given extensions, whatever its letter case.
pub open spec fn is_video(exts: Set<Seq<char>>, p: Seq<Part>) -> bool {
    match ext_text(p) {
        Some(e) => exts.contains(e),
        None => false,
    }
}

/// Whether `list` holds the text `s`.
fn listed(list: &Vec<String>, s: &str) -> (r: bool)
    ensures
        r == texts(list@).contains(s@),
{
    for i in 0..list.len()
        invariant
            forall|j: int| 0 <= j < i ==> texts(list@)[j] != s@,
    {
        if same(list[i].as_str(), s) {
            assert(texts(list@)[i as int] == s@);
            return true;
        }
    }
    false
}

/// The extension of `p` in lower case, if it has one that is valid text.
pub fn ext_of_path(p: &Path) -> (r: Option<String>)
    ensures
        match r {
            Some(e) => ext_text(p@) == Some(e@),
            None => ext_text(p@) is None,
        },
{
    match p.extension() {
        Some(e) => match decode(e.as_slice()) {
            Some(t) => Some(lowered(t.as_str())),
            None => None,
        },
        None => None,
    }
}

impl VideoExts {
    #[verifier::type_invariant]
    closed spec fn wf(self) -> bool {
        &&& self.exts@.len() > 0
        &&& texts(self.exts@).no_duplicates()
        &&& forall|i: int| 0 <= i < self.exts@.len() ==> ext_ok(#[trigger] texts(self.exts@)[i])
    }

    /// Reads the list of video extensions. Each entry is trimmed, put in lower
    /// case, and dropped if nothing is left of it. Entries that hold a dot are
    /// refused, and so is a list of which nothing is left.
    pub fn from_cli(raw: &[String]) -> (r: Result<VideoExts, String>)
        ensures
            match r {
                Ok(x) => dotted(kept_exts(texts(raw@))).len() == 0 && kept_exts(texts(raw@)).len()
                    > 0 && x@ == kept_exts(texts(raw@)).to_set() && forall|e: Seq<char>| #[trigger]
                    x@.contains(e) ==> ext_ok(e),
                Err(m) => if dotted(kept_exts(texts(raw@))).len() > 0 {
                    m@ == dotted_text(dotted(kept_exts(texts(raw@))))
                } else {
                    kept_exts(texts(raw@)).len() == 0 && m@
                        == "--video-exts must list at least one extension"@
                },
            },
            r matches Ok(x) ==> forall|e: Seq<char>| #[trigger]
                x@.contains(e) <==> is_entry(texts(raw@), e),
            r is Ok <==> (exists|e: Seq<char>| #[trigger] is_entry(texts(raw@), e)) && forall|
                e: Seq<char>,
            | #[trigger]
                is_entry(texts(raw@), e) ==> !e.contains('.'),
    {
        let mut exts: Vec<String> = Vec::new();
        for i in 0..raw.len()
            invariant
                texts(exts@) == kept_exts(texts(raw@).take(i as int)),
                texts(exts@).no_duplicates(),
                forall|j: int|
                    0 <= j < exts@.len() ==> (#[trigger] texts(exts@)[j]).len() > 0 && lower(
                        texts(exts@)[j],
                    ) == texts(exts@)[j],
        {
            let t: String = trimmed(raw[i].as_str());
            let e: String = lowered(t.as_str());
            let ghost was = texts(exts@);
            assert(texts(raw@).take(i as int + 1).drop_last() =~= texts(raw@).take(i as int));
            proof {
                crate::strings::lemma_lower_twice(t@);
            }
            if !e.as_str().is_empty() && !listed(&exts, e.as_str()) {
                exts.push(e);
                assert(texts(exts@) =~= was.push(e@));
            }
        }
        assert(texts(raw@).take(raw@.len() as int) =~= texts(raw@));
        let mut bad: Vec<String> = Vec::new();
        for i in 0..exts.len()
            invariant
                texts(bad@) == dotted(texts(exts@).take(i as int)),
                bad@.len() == 0 ==> forall|j: int|
                    0 <= j < i ==> !(#[trigger] texts(exts@)[j]).contains('.'),
        {
            let ghost was = texts(bad@);
            assert(texts(exts@).take(i as int + 1).drop_last() =~= texts(exts@).take(i as int));
            if contains(exts[i].as_str(), '.') {
                bad.push(exts[i].clone());
                assert(texts(bad@) =~= was.push(exts@[i as int]@));
            }
        }
        assert(texts(exts@).take(exts@.len() as int) =~= texts(exts@));
        assert(texts(bad@).len() == bad@.len());
        proof {
            let all = texts(raw@);
            let kept = kept_exts(all);
            lemma_dotted(kept);
            assert forall|e: Seq<char>| #[trigger] kept.contains(e) <==> is_entry(all, e) by {
                lemma_kept_exts(all, e);
            }
            if kept.len() > 0 {
                assert(kept.contains(kept[0]));
                assert(is_entry(all, kept[0]));
            }
            assert forall|e: Seq<char>| #[trigger] is_entry(all, e) <==> kept.contains(e) by {
                lemma_kept_exts(all, e);
            }
        }
        if bad.len() > 0 {
            let mut m: String = "--video-exts entries must not include a leading dot (got: ".to_owned();
            let list: String = joined(&bad, ", ");
            m.append(list.as_str());
            m.append(")");
            return Err(m);
        }
        assert(texts(exts@).len() == exts@.len());
        if exts.len() == 0 {
            return Err("--video-exts must list at least one extension".to_owned());
        }
        Ok(VideoExts { exts })
    }

    /// Whether `path` has a video extension, whatever its letter case.
    pub fn is_video(&self, path: &Path) -> (r: bool)
        ensures
            r == is_video(self@, path@),
    {
        match ext_of_path(path) {
            Some(e) => listed(&self.exts, e.as_str()),
            None => false,
        }
    }

    /// Whether there are no extensions at all; a list that was read has some.
    pub fn is_empty(&self) -> (r: bool)
        ensures
            r == (self@ == Set::<Seq<char>>::empty()),
            !r,
    {
        proof {
            use_type_invariant(self);
            assert(self@.contains(texts(self.exts@)[0]));
        }
        self.exts.len() == 0
    }
}

impl Clone for VideoExts {
    /// A copy of this list.
    fn clone(&self) -> (r: VideoExts)
        ensures
            r@ == self@,
    {
        proof {
            use_type_invariant(self);
        }
        let mut exts: Vec<String> = Vec::new();
        for i in 0..self.exts.len()
            invariant
                texts(exts@) =~= texts(self.exts@).take(i as int),
        {
            let ghost was = texts(exts@);
            exts.push(self.exts[i].clone());
            assert(texts(exts@) =~= was.push(self.exts@[i as int]@));
        }
        assert(texts(exts@) =~= texts(self.exts@));
        assert(exts@.len() == texts(exts@).len());
        VideoExts { exts }
    }
}

// ---- walking ----

/// Whether a walk goes on into an entry: directories named like one of the
/// two output trees are left out.
pub open spec fn walks_into(
    is_dir: bool,
    name: Seq<u8>,
    screens_dir: Seq<char>,
    frames_dir: Seq<char>,
) -> bool {
    !(is_dir && (name == encode_utf8(screens_dir) || name == encode_utf8(frames_dir)))
}

/// Whether a walk goes on into an entry.
pub fn keep_entry(is_dir: bool, name: &[u8], screens_dir: &str, frames_dir: &str) -> (r: bool)
    ensures
        r == walks_into(is_dir, name@, screens_dir@, frames_dir@),
{
    !(is_dir && (same_bytes(name, screens_dir.as_bytes()) || same_bytes(
        name,
        frames_dir.as_bytes(),
    )))
}

/// The videos among `files`, in their order.
pub open spec fn videos_among(files: Seq<Seq<Part>>, exts: Set<Seq<char>>) -> Seq<Seq<Part>> {
    files.filter(|p: Seq<Part>| is_video(exts, p))
}

/// The other files among `files`, in their order.
pub open spec fn skipped_among(files: Seq<Seq<Part>>, exts: Set<Seq<char>>) -> Seq<Seq<Part>> {
    files.filter(|p: Seq<Part>| !is_video(exts, p))
}

/// The videos among the files that a walk found, in path order.
pub fn collect_videos(files: &Vec<Path>, exts: &VideoExts) -> (r: Vec<Path>)
    ensures
        sorted::<Path>(views(r@)),
        views(r@).to_multiset() == videos_among(views(files@), exts@).to_multiset(),
{
    let mut out: Vec<Path> = Vec::new();
    let ghost all = views(files@);
    for i in 0..files.len()
        invariant
            all == views(files@),
            views(out@) == videos_among(all.take(i as int), exts@),
    {
        let ghost was = views(out@);
        assert(all.take(i as int + 1).drop_last() =~= all.take(i as int));
        reveal(Seq::filter);
        if exts.is_video(&files[i]) {
            out.push(files[i].clone());
            assert(views(out@) =~= was.push(all[i as int]));
        }
    }
    assert(all.take(all.len() as int) =~= all);
    stable_sort(out)
}

// ---- skipped files ----

/// The files that are no videos.
#[derive(Debug)]
pub struct Skipped {
    /// How many there are of each extension, by extension. Files without a
    /// readable extension stand under the empty string.
    pub by_ext: Vec<(String, usize)>,
    /// The files counted under the empty string, as seen from the root, in path
    /// order.
    pub no_ext_paths: Vec<Path>,
}

/// What a skipped file is counted under.
pub open spec fn skip_key(p: Seq<Part>) -> Seq<char> {
    match ext_text(p) {
        Some(e) => e,
        None => Seq::empty(),
    }
}

/// What the files are counted under.
pub open spec fn skip_keys(files: Seq<Seq<Part>>) -> Seq<Seq<char>> {
    files.map_values(|p: Seq<Part>| skip_key(p))
}

/// Whether a file has no extension to speak of: none at all, an empty one, or
/// one that is no valid text.
pub open spec fn is_bare(p: Seq<Part>) -> bool {
    skip_key(p).len() == 0
}

/// `rel` leads from the root to a file of `files` without an extension.
pub open spec fn names_bare_file(
    root: Seq<Part>,
    files: Seq<Seq<Part>>,
    rel: Seq<Part>,
) -> bool {
    exists|i: int|
        0 <= i < files.len() && is_bare(#[trigger] files[i]) && strip_prefix(files[i], root)
            == Some(rel)
}

/// Sorts the files that are no videos by their extension.
pub fn non_video_by_ext(root: &Path, files: &Vec<Path>, exts: &VideoExts) -> (r: Skipped)
    ensures
        lists(
            views(r.by_ext@),
            skip_keys(skipped_among(views(files@), exts@)).to_multiset(),
        ),
        keys_ascend(views(r.by_ext@)),
        sum_counts(views(r.by_ext@)) == skipped_among(views(files@), exts@).len(),
        ascending::<Path>(views(r.no_ext_paths@)),
        forall|rel: Seq<Part>|
            views(r.no_ext_paths@).contains(rel) <==> #[trigger] names_bare_file(
                root@,
                skipped_among(views(files@), exts@),
                rel,
            ),
{
    broadcast use vstd::multiset::group_multiset_axioms;

    let mut counts: Tally = Tally::new();
    let mut bare: SortedSet<Path> = SortedSet::new();
    let ghost all = views(files@);
    let ghost mut seen: Seq<Seq<Part>> = Seq::empty();
    proof {
        reveal(Seq::filter);
        assert(all.take(0) =~= Seq::<Seq<Part>>::empty());
        assert(skip_keys(seen) =~= Seq::<Seq<char>>::empty());
        seen.map_values(|p: Seq<Part>| skip_key(p)).to_multiset_ensures();
        assert(skip_keys(seen).to_multiset() =~= counts@);
    }
    for i in 0..files.len()
        invariant
            all == views(files@),
            seen == skipped_among(all.take(i as int), exts@),
            counts@ == skip_keys(seen).to_multiset(),
            counts@.len() <= i,
            forall|rel: Seq<Part>|
                bare@.contains(rel) <==> #[trigger] names_bare_file(root@, seen, rel),
    {
        let p: &Path = &files[i];
        proof {
            assert(all.take(i as int + 1).drop_last() =~= all.take(i as int));
            reveal(Seq::filter);
        }
        if !exts.is_video(p) {
            let ghost next = seen.push(p@);
            proof {
                assert(skip_keys(next) =~= skip_keys(seen).push(skip_key(p@)));
                skip_keys(seen).to_multiset_ensures();
            }
            let key: String = match ext_of_path(p) {
                Some(e) => e,
                None => String::new(),
            };
            assert(key@ == skip_key(p@));
            counts.add(key.as_str());
            proof {
                lemma_bare_more(root@, seen, p@);
            }
            if key.as_str().is_empty() {
                if let Some(rel) = p.strip_prefix(root) {
                    bare.insert(rel);
                }
            }
            proof {
                seen = next;
            }
        }
    }
    assert(all.take(all.len() as int) =~= all);
    let by_ext: Vec<(String, usize)> = counts.rows();
    proof {
        law_rows_add_up(views(by_ext@), counts@);
        skip_keys(seen).to_multiset_ensures();
    }
    let no_ext_paths: Vec<Path> = bare.into_vec();
    Skipped { by_ext, no_ext_paths }
}

proof fn lemma_bare_more(root: Seq<Part>, seen: Seq<Seq<Part>>, p: Seq<Part>)
    ensures
        forall|rel: Seq<Part>| #[trigger]
            names_bare_file(root, seen.push(p), rel) <==> names_bare_file(root, seen, rel) || (
            is_bare(p) && strip_prefix(p, root) == Some(rel)),
{
    let next = seen.push(p);
    assert forall|rel: Seq<Part>| #[trigger]
        names_bare_file(root, next, rel) <==> names_bare_file(root, seen, rel) || (is_bare(p)
            && strip_prefix(p, root) == Some(rel)) by {
        if names_bare_file(root, seen, rel) {
            let i = choose|i: int|
                0 <= i < seen.len() && is_bare(#[trigger] seen[i]) && strip_prefix(
                    seen[i],
                    root,
                ) == Some(rel);
            assert(next[i] == seen[i]);
        }
        if is_bare(p) && strip_prefix(p, root) == Some(rel) {
            assert(next[seen.len() as int] == p);
        }
        if names_bare_file(root, next, rel) {
            let i = choose|i: int|
                0 <= i < next.len() && is_bare(#[trigger] next[i]) && strip_prefix(
                    next[i],
                    root,
                ) == Some(rel);
            if i < seen.len() {
                assert(seen[i] == next[i]);
            }
        }
    }
}

/// An extension as it is shown.
pub open spec fn shown_ext(ext: Seq<char>) -> Seq<char> {
    if ext.len() == 0 {
        "(no extension)"@
    } else {
        "."@ + ext
    }
}

/// An extension as it is shown; the empty one reads `(no extension)`.
pub fn fmt_ext(ext: &str) -> (r: String)
    ensures
        r@ == shown_ext(ext@),
{
    if ext.is_empty() {
        "(no extension)".to_owned()
    } else {
        let mut r: String = ".".to_owned();
        r.append(ext);
        r
    }
}

/// The warning about the `n` skipped files of extension `ext`.
pub open spec fn ext_warning(ext: Seq<char>, n: usize) -> Seq<char> {
    "skipped "@ + dec(n as nat) + " file(s) of type "@ + shown_ext(ext) + " (not in --video-exts)"@
}

/// The warning about one skipped file without an extension.
pub open spec fn bare_warning(path: Seq<char>) -> Seq<char> {
    "skipped file without extension: "@ + path
}

/// The line that sums the warnings up.
pub open spec fn skip_summary(total: nat, kinds: nat, videos: nat) -> Seq<char> {
    if videos == 0 {
        "skipped "@ + dec(total) + " file(s) across "@ + dec(kinds)
            + " extension(s) under root; no eligible videos found — the directory appears video-only but uses formats this run does not cover (extend --video-exts if any are video)"@
    } else {
        "skipped "@ + dec(total) + " non-video file(s) across "@ + dec(kinds)
            + " extension(s) under root ("@ + dec(videos)
            + " eligible video(s) also found) — mixed videos and other content"@
    }
}

/// All warnings about skipped files: one for each extension, one for each file
/// without an extension, and a summary. Without skipped files there are none.
pub open spec fn skip_warnings(
    by_ext: Seq<(Seq<char>, usize)>,
    bare: Seq<Seq<char>>,
    videos: nat,
) -> Seq<Seq<char>> {
    if by_ext.len() == 0 {
        Seq::empty()
    } else {
        by_ext.map_values(|row: (Seq<char>, usize)| ext_warning(row.0, row.1)) + bare.map_values(
            |s: Seq<char>| bare_warning(s),
        ) + seq![skip_summary(sum_counts(by_ext), by_ext.len(), videos)]
    }
}

fn summary_line(total: usize, kinds: usize, videos: usize) -> (r: String)
    ensures
        r@ == skip_summary(total as nat, kinds as nat, videos as nat),
{
    let mut m: String = "skipped ".to_owned();
    let t: String = decimal(total as u64);
    let k: String = decimal(kinds as u64);
    m.append(t.as_str());
    if videos == 0 {
        m.append(" file(s) across ");
        m.append(k.as_str());
        m.append(
            " extension(s) under root; no eligible videos found — the directory appears video-only but uses formats this run does not cover (extend --video-exts if any are video)",
        );
    } else {
        m.append(" non-video file(s) across ");
        m.append(k.as_str());
        m.append(" extension(s) under root (");
        let v: String = decimal(videos as u64);
        m.append(v.as_str());
        m.append(" eligible video(s) also found) — mixed videos and other content");
    }
    m
}

/// The warnings about skipped files, `bare` being the files without an
/// extension as they are displayed.
pub fn skip_lines(by_ext: &Vec<(String, usize)>, bare: &Vec<String>, video_count: usize) -> (r: Vec<
    String,
>)
    requires
        sum_counts(views(by_ext@)) <= usize::MAX,
    ensures
        texts(r@) == skip_warnings(views(by_ext@), texts(bare@), video_count as nat),
{
    let mut r: Vec<String> = Vec::new();
    if by_ext.len() == 0 {
        assert(texts(r@) =~= Seq::<Seq<char>>::empty());
        return r;
    }
    let ghost one = |row: (Seq<char>, usize)| ext_warning(row.0, row.1);
    let ghost two = |s: Seq<char>| bare_warning(s);
    for i in 0..by_ext.len()
        invariant
            one == (|row: (Seq<char>, usize)| ext_warning(row.0, row.1)),
            texts(r@) =~= views(by_ext@).take(i as int).map_values(one),
    {
        let ghost was = texts(r@);
        let mut m: String = "skipped ".to_owned();
        let n: String = decimal(by_ext[i].1 as u64);
        let e: String = fmt_ext(by_ext[i].0.as_str());
        m.append(n.as_str());
        m.append(" file(s) of type ");
        m.append(e.as_str());
        m.append(" (not in --video-exts)");
        r.push(m);
        assert(texts(r@) =~= was.push(ext_warning(by_ext@[i as int].0@, by_ext@[i as int].1)));
        assert(views(by_ext@)[i as int] == (by_ext@[i as int].0@, by_ext@[i as int].1));
    }
    assert(views(by_ext@).take(by_ext@.len() as int) =~= views(by_ext@));
    let ghost head = texts(r@);
    for i in 0..bare.len()
        invariant
            two == (|s: Seq<char>| bare_warning(s)),
            texts(r@) =~= head + texts(bare@).take(i as int).map_values(two),
    {
        let ghost was = texts(r@);
        let mut m: String = "skipped file without extension: ".to_owned();
        m.append(bare[i].as_str());
        r.push(m);
        assert(texts(r@) =~= was.push(bare_warning(bare@[i as int]@)));
    }
    assert(texts(bare@).take(bare@.len() as int) =~= texts(bare@));
    let ghost most = texts(r@);
    let sum: usize = total(by_ext);
    r.push(summary_line(sum, by_ext.len(), video_count));
    assert(texts(r@) =~= most.push(
        skip_summary(sum_counts(views(by_ext@)), views(by_ext@).len(), video_count as nat),
    ));
    r
}

/// The paths as they are displayed.
pub open spec fn displayed(paths: Seq<Seq<Part>>) -> Seq<Seq<char>> {
    paths.map_values(|p: Seq<Part>| shown(p))
}

/// The warnings about skipped files.
pub fn warn_skipped_files(skipped: &Skipped, video_count: usize) -> (r: Vec<String>)
    requires
        sum_counts(views(skipped.by_ext@)) <= usize::MAX,
    ensures
        texts(r@) == skip_warnings(
            views(skipped.by_ext@),
            displayed(views(skipped.no_ext_paths@)),
            video_count as nat,
        ),
{
    let mut lines: Vec<String> = Vec::new();
    let ghost f = |p: Seq<Part>| shown(p);
    let ghost all = views(skipped.no_ext_paths@);
    for i in 0..skipped.no_ext_paths.len()
        invariant
            f == (|p: Seq<Part>| shown(p)),
            all == views(skipped.no_ext_paths@),
            texts(lines@) =~= all.take(i as int).map_values(f),
    {
        let ghost was = texts(lines@);
        lines.push(skipped.no_ext_paths[i].display());
        assert(texts(lines@) =~= was.push(f(all[i as int])));
    }
    assert(all.take(all.len() as int) =~= all);
    assert(texts(lines@) =~= displayed(all));
    skip_lines(&skipped.by_ext, &lines, video_count)
}

/// Letter case never decides whether a file is a video.
pub proof fn law_letter_case_is_ignored(exts: Set<Seq<char>>, p: Seq<Part>, q: Seq<Part>)
    requires
        extension(p) is Some,
        extension(q) is Some,
        text_of(extension(p)->0) is Some,
        text_of(extension(q)->0) is Some,
        lower(text_of(extension(p)->0)->0) == lower(text_of(extension(q)->0)->0),
    ensures
        is_video(exts, p) == is_video(exts, q),
{
}

/// Every file is either a video or counted among the skipped ones.
pub proof fn law_every_file_is_accounted_for(files: Seq<Seq<Part>>, exts: Set<Seq<char>>)
    ensures
        videos_among(files, exts).len() + skipped_among(files, exts).len() == files.len(),
    decreases files.len(),
{
    reveal(Seq::filter);
    if files.len() > 0 {
        law_every_file_is_accounted_for(files.drop_last(), exts);
    }
}

/// The videos come out in the same order however a walk came upon them.
pub proof fn law_walk_order_does_not_matter(
    exts: Set<Seq<char>>,
    a: Seq<Seq<Part>>,
    b: Seq<Seq<Part>>,
    from_a: Seq<Seq<Part>>,
    from_b: Seq<Seq<Part>>,
)
    requires
        a.to_multiset() == b.to_multiset(),
        sorted::<Path>(from_a),
        sorted::<Path>(from_b),
        from_a.to_multiset() == videos_among(a, exts).to_multiset(),
        from_b.to_multiset() == videos_among(b, exts).to_multiset(),
    ensures
        from_a == from_b,
{
    broadcast use vstd::multiset::group_multiset_axioms;

    let p = |f: Seq<Part>| is_video(exts, f);
    assert forall|x: Seq<Part>| #[trigger] a.filter(p).to_multiset().count(x) == b.filter(
        p,
    ).to_multiset().count(x) by {
        lemma_filter_count(a, p, x);
        lemma_filter_count(b, p, x);
    }
    assert(a.filter(p).to_multiset() =~= b.filter(p).to_multiset());
    assert(videos_among(a, exts) == a.filter(p) && videos_among(b, exts) == b.filter(p));
    lemma_sorted_unique::<Path>(from_a, from_b);
}

/// Every file without an extension is listed by itself: where a walk under the
/// root came upon each file once, as many are listed as are counted.
pub proof fn law_bare_files_are_all_listed(
    root: Seq<Part>,
    skipped: Seq<Seq<Part>>,
    listed: Seq<Seq<Part>>,
)
    requires
        skipped.no_duplicates(),
        forall|i: int| 0 <= i < skipped.len() ==> root.is_prefix_of(#[trigger] skipped[i]),
        ascending::<Path>(listed),
        forall|rel: Seq<Part>|
            listed.contains(rel) <==> #[trigger] names_bare_file(root, skipped, rel),
    ensures
        skip_keys(skipped).to_multiset().count(Seq::empty()) == listed.len(),
{
    let bare = skipped.filter(|p: Seq<Part>| is_bare(p));
    let rels = bare.map_values(|p: Seq<Part>| p.skip(root.len() as int));
    lemma_bare_count(skipped);
    lemma_filter_distinct(skipped, |p: Seq<Part>| is_bare(p));
    assert forall|i: int, j: int| 0 <= i < rels.len() && 0 <= j < rels.len() && i != j implies rels[i]
        != rels[j] by {
        lemma_bare_at(root, skipped, i);
        lemma_bare_at(root, skipped, j);
        assert(bare[i] != bare[j]);
        assert(bare[i] =~= root + rels[i]);
        assert(bare[j] =~= root + rels[j]);
    }
    assert(rels.no_duplicates());
    assert(listed.no_duplicates()) by {
        assert forall|i: int, j: int|
            0 <= i < listed.len() && 0 <= j < listed.len() && i != j implies listed[i]
            != listed[j] by {
            if i < j {
                assert(listed[i] != listed[j]);
            } else {
                assert(listed[j] != listed[i]);
            }
        }
    }
    assert forall|rel: Seq<Part>| rels.contains(rel) <==> listed.contains(rel) by {
        if rels.contains(rel) {
            let i = rels.index_of(rel);
            lemma_bare_at(root, skipped, i);
            let k = skipped.index_of(bare[i]);
            assert(skipped[k] == bare[i]);
            assert(strip_prefix(skipped[k], root) == Some(rel));
            assert(names_bare_file(root, skipped, rel));
        }
        if listed.contains(rel) {
            assert(names_bare_file(root, skipped, rel));
            let k = choose|k: int|
                0 <= k < skipped.len() && is_bare(#[trigger] skipped[k]) && strip_prefix(
                    skipped[k],
                    root,
                ) == Some(rel);
            skipped.lemma_filter_contains(|p: Seq<Part>| is_bare(p), k);
            let i = bare.index_of(skipped[k]);
            assert(rels[i] == rel);
        }
    }
    assert(rels.to_set() =~= listed.to_set());
    rels.unique_seq_to_set();
    listed.unique_seq_to_set();
}

/// Each of the files without an extension is one of the skipped ones.
proof fn lemma_bare_at(root: Seq<Part>, skipped: Seq<Seq<Part>>, i: int)
    requires
        0 <= i < skipped.filter(|p: Seq<Part>| is_bare(p)).len(),
        forall|k: int| 0 <= k < skipped.len() ==> root.is_prefix_of(#[trigger] skipped[k]),
    ensures
        skipped.contains(skipped.filter(|p: Seq<Part>| is_bare(p))[i]),
        is_bare(skipped.filter(|p: Seq<Part>| is_bare(p))[i]),
        root.is_prefix_of(skipped.filter(|p: Seq<Part>| is_bare(p))[i]),
{
    let f = |p: Seq<Part>| is_bare(p);
    let bare = skipped.filter(f);
    skipped.lemma_filter_pred(f, i);
    assert(bare.contains(bare[i]));
    skipped.lemma_filter_contains_rev(f, bare[i]);
    let k = skipped.index_of(bare[i]);
    assert(root.is_prefix_of(skipped[k]));
}

/// As many files are counted under the empty string as have no extension.
proof fn lemma_bare_count(skipped: Seq<Seq<Part>>)
    ensures
        skip_keys(skipped).to_multiset().count(Seq::empty()) == skipped.filter(
            |p: Seq<Part>| is_bare(p),
        ).len(),
    decreases skipped.len(),
{
    broadcast use vstd::multiset::group_multiset_axioms;

    reveal(Seq::filter);
    let none: Seq<char> = Seq::empty();
    let keys = skip_keys(skipped);
    keys.to_multiset_ensures();
    if skipped.len() > 0 {
        let front = skipped.drop_last();
        lemma_bare_count(front);
        let key = skip_key(skipped.last());
        assert(keys =~= skip_keys(front).push(key));
        skip_keys(front).to_multiset_ensures();
        if key.len() == 0 {
            assert(key =~= none);
        }
    } else if keys.to_multiset().count(none) > 0 {
        assert(keys.contains(none));
    }
}

// ---- laws of the scan ----

/// A walk leaves an entry out if and only if it is a directory whose name is
/// exactly the text of one of the two output names: not one that only begins
/// like it, not one in another letter case, and no file.
pub proof fn law_walk_leaves_out_only_output_trees(
    is_dir: bool,
    name: Seq<u8>,
    screens_dir: Seq<char>,
    frames_dir: Seq<char>,
)
    ensures
        !walks_into(is_dir, name, screens_dir, frames_dir) <==> is_dir && (text_of(name) == Some(
            screens_dir,
        ) || text_of(name) == Some(frames_dir)),
{
    lemma_same_text(name, screens_dir);
    lemma_same_text(name, frames_dir);
}

proof fn lemma_same_text(name: Seq<u8>, dir: Seq<char>)
    ensures
        name == encode_utf8(dir) <==> text_of(name) == Some(dir),
{
    vstd::utf8::encode_utf8_valid_utf8(dir);
    vstd::utf8::encode_utf8_decode_utf8(dir);
    if text_of(name) is Some {
        vstd::utf8::decode_utf8_encode_utf8(name);
    }
}

/// What comes of a walk: every video among the files it found is collected, as
/// often as it was found, and nothing else is.
pub proof fn law_every_video_is_collected(
    files: Seq<Seq<Part>>,
    exts: Set<Seq<char>>,
    collected: Seq<Seq<Part>>,
    p: Seq<Part>,
)
    requires
        collected.to_multiset() == videos_among(files, exts).to_multiset(),
    ensures
        collected.to_multiset().count(p) == if is_video(exts, p) {
            files.to_multiset().count(p)
        } else {
            0
        },
        collected.contains(p) <==> files.contains(p) && is_video(exts, p),
{
    broadcast use vstd::multiset::group_multiset_axioms;

    lemma_filter_count(files, |f: Seq<Part>| is_video(exts, f), p);
    files.to_multiset_ensures();
    collected.to_multiset_ensures();
}

/// A file whose name ends in a dot and an extension is a video exactly where
/// that extension, in lower case, is one of the list.
pub proof fn law_extension_makes_the_video(
    exts: Set<Seq<char>>,
    dir: Seq<Part>,
    stem: Seq<u8>,
    ext: Seq<char>,
)
    requires
        stem.len() > 0,
        !encode_utf8(ext).contains(dot()),
    ensures
        ext_text(dir.push(Part::Normal(stem.push(dot()) + encode_utf8(ext)))) == Some(lower(ext)),
        is_video(exts, dir.push(Part::Normal(stem.push(dot()) + encode_utf8(ext))))
            <==> exts.contains(lower(ext)),
        skip_key(dir.push(Part::Normal(stem.push(dot()) + encode_utf8(ext)))) == lower(ext),
        is_bare(dir.push(Part::Normal(stem.push(dot()) + encode_utf8(ext)))) <==> ext.len() == 0,
{
    lemma_stem_of_longer(stem, encode_utf8(ext));
    vstd::utf8::encode_utf8_valid_utf8(ext);
    vstd::utf8::encode_utf8_decode_utf8(ext);
}

/// A file whose name has no dot behind its first byte, or whose extension is
/// no valid text, is never a video, and is counted without an extension.
pub proof fn law_without_extension_no_video(exts: Set<Seq<char>>, p: Seq<Part>)
    requires
        match file_name(p) {
            Some(name) => (forall|i: int| 0 < i < name.len() ==> #[trigger] name[i] != dot()) || (exists|
                stem: Seq<u8>,
                tail: Seq<u8>,
            |
                stem.len() > 0 && !tail.contains(dot()) && !vstd::utf8::valid_utf8(tail) && name
                    == #[trigger] (stem.push(dot()) + tail)),
            None => true,
        },
    ensures
        !is_video(exts, p),
        skip_key(p).len() == 0,
        is_bare(p),
{
    if file_name(p) is Some {
        let name = file_name(p)->0;
        lemma_ext_dot(name);
        if exists|stem: Seq<u8>, tail: Seq<u8>|
            stem.len() > 0 && !tail.contains(dot()) && !vstd::utf8::valid_utf8(tail) && name
                == #[trigger] (stem.push(dot()) + tail) {
            let (stem, tail) = choose|stem: Seq<u8>, tail: Seq<u8>|
                stem.len() > 0 && !tail.contains(dot()) && !vstd::utf8::valid_utf8(tail) && name
                    == #[trigger] (stem.push(dot()) + tail);
            lemma_stem_of_longer(stem, tail);
        }
    }
}

/// An entry of the list of extensions is taken without the white space around
/// it and in lower case.
pub proof fn law_entries_are_normalized(before: Seq<char>, word: Seq<char>, after: Seq<char>)
    requires
        word.len() > 0,
        !is_space(word[0]),
        !is_space(word.last()),
        forall|i: int| 0 <= i < before.len() ==> is_space(#[trigger] before[i]),
        forall|i: int| 0 <= i < after.len() ==> is_space(#[trigger] after[i]),
    ensures
        normal_ext(before + word + after) == lower(word),
{
    let s = before + word + after;
    law_trim(s);
    let (i, j) = choose|i: int, j: int|
        0 <= i <= j <= s.len() && #[trigger] s.subrange(i, j) == trim(s) && (forall|k: int|
            0 <= k < i || j <= k < s.len() ==> is_space(#[trigger] s[k]));
    let a = before.len() as int;
    let b = a + word.len();
    assert(s[a] == word[0]);
    assert(s[b - 1] == word.last());
    assert(i <= a && b <= j);
    assert(trim(s).len() > 0);
    assert(trim(s)[0] == s[i]);
    assert(trim(s).last() == s[j - 1]);
    if i < a {
        assert(s[i] == before[i]);
    }
    if j > b {
        assert(s[j - 1] == after[j - 1 - b]);
    }
    assert(s.subrange(a, b) =~= word);
}

/// The list is refused with exactly those of its entries that hold a dot.
pub proof fn law_dotted_entries_are_named(kept: Seq<Seq<char>>, e: Seq<char>)
    ensures
        dotted(kept).contains(e) <==> kept.contains(e) && e.contains('.'),
    decreases kept.len(),
{
    if kept.len() > 0 {
        let front = kept.drop_last();
        law_dotted_entries_are_named(front, e);
        assert(kept[kept.len() - 1] == kept.last());
        let d = dotted(front);
        if d.contains(e) {
            let i = d.index_of(e);
            assert(d.push(kept.last())[i] == e);
        }
        if dotted(kept).contains(e) {
            let i = dotted(kept).index_of(e);
            if i < d.len() {
                assert(d[i] == e);
            }
        }
        if front.contains(e) {
            let i = front.index_of(e);
            assert(kept[i] == e);
        }
        if kept.contains(e) {
            let i = kept.index_of(e);
            if i < front.len() {
                assert(front[i] == e);
            } else if e.contains('.') {
                assert(d.push(e)[d.len() as int] == e);
            }
        }
    }
}

/// Each extension is counted as often as there are skipped files with it.
pub proof fn law_skipped_files_are_counted(skipped: Seq<Seq<Part>>, ext: Seq<char>)
    ensures
        skip_keys(skipped).to_multiset().count(ext) == skipped.filter(
            |p: Seq<Part>| skip_key(p) == ext,
        ).len(),
{
    lemma_map_count(
        skipped,
        |p: Seq<Part>| skip_key(p),
        ext,
        |p: Seq<Part>| skip_key(p) == ext,
    );
}

/// Without skipped files nothing is said. Otherwise there is a line for each
/// extension with its count and its name, one for each file without an
/// extension with its path, and a last one with the number of files and of
/// extensions, and that of the videos where there are any.
pub proof fn law_skip_warnings(
    by_ext: Seq<(Seq<char>, usize)>,
    bare: Seq<Seq<char>>,
    videos: nat,
    i: int,
)
    ensures
        by_ext.len() == 0 ==> skip_warnings(by_ext, bare, videos).len() == 0,
        by_ext.len() > 0 ==> skip_warnings(by_ext, bare, videos).len() == by_ext.len() + bare.len()
            + 1,
        0 <= i < by_ext.len() ==> holds(
            skip_warnings(by_ext, bare, videos)[i],
            dec(by_ext[i].1 as nat) + " file(s) of type "@ + (if by_ext[i].0.len() == 0 {
                "(no extension)"@
            } else {
                "."@ + by_ext[i].0
            }),
        ),
        by_ext.len() > 0 && 0 <= i < bare.len() ==> bare[i].is_suffix_of(
            skip_warnings(by_ext, bare, videos)[by_ext.len() + i],
        ),
        by_ext.len() > 0 ==> {
            let last = skip_warnings(by_ext, bare, videos).last();
            &&& holds(last, "skipped "@ + dec(sum_counts(by_ext)))
            &&& holds(last, " across "@ + dec(by_ext.len()) + " extension(s)"@)
            &&& videos > 0 ==> holds(last, "("@ + dec(videos) + " eligible video(s) also found)"@)
            &&& videos == 0 ==> holds(last, "no eligible videos found"@)
        },
{
    let all = skip_warnings(by_ext, bare, videos);
    if 0 <= i < by_ext.len() {
        let part = dec(by_ext[i].1 as nat) + " file(s) of type "@ + shown_ext(by_ext[i].0);
        lemma_holds("skipped "@, part, " (not in --video-exts)"@);
        assert(all[i] =~= "skipped "@ + part + " (not in --video-exts)"@);
    }
    if by_ext.len() > 0 && 0 <= i < bare.len() {
        let w = all[by_ext.len() + i];
        assert(w == bare_warning(bare[i]));
        assert(w.skip(w.len() - bare[i].len()) =~= bare[i]);
    }
    if by_ext.len() > 0 {
        let last = all.last();
        let total = dec(sum_counts(by_ext));
        let kinds = dec(by_ext.len());
        assert(last == skip_summary(sum_counts(by_ext), by_ext.len(), videos));
        let head = "skipped "@ + total;
        let mid = " across "@ + kinds + " extension(s)"@;
        reveal_strlit(" file(s) across ");
        reveal_strlit(" non-video file(s) across ");
        reveal_strlit(" across ");
        reveal_strlit(" file(s)");
        reveal_strlit(" non-video file(s)");
        reveal_strlit(" extension(s)");
        if videos == 0 {
            let rest = " extension(s) under root; no eligible videos found — the directory appears video-only but uses formats this run does not cover (extend --video-exts if any are video)"@;
            reveal_strlit(
                " extension(s) under root; no eligible videos found — the directory appears video-only but uses formats this run does not cover (extend --video-exts if any are video)",
            );
            reveal_strlit("no eligible videos found");
            let tail = rest.skip(13);
            assert(" extension(s)"@ + tail =~= rest);
            assert(" file(s)"@ + " across "@ =~= " file(s) across "@);
            assert(last =~= Seq::<char>::empty() + head + (" file(s) across "@ + kinds + rest));
            lemma_holds(Seq::empty(), head, " file(s) across "@ + kinds + rest);
            assert(last =~= head + " file(s)"@ + mid + tail);
            lemma_holds(head + " file(s)"@, mid, tail);
            let none = "no eligible videos found"@;
            assert(rest.subrange(26, 50) =~= none);
            let front = head + " file(s) across "@ + kinds + rest.take(26);
            assert(last =~= front + none + rest.skip(50));
            lemma_holds(front, none, rest.skip(50));
        } else {
            let rest = " extension(s) under root ("@;
            let end = " eligible video(s) also found) — mixed videos and other content"@;
            reveal_strlit(" extension(s) under root (");
            reveal_strlit(" eligible video(s) also found) — mixed videos and other content");
            reveal_strlit("(");
            reveal_strlit(" eligible video(s) also found)");
            let tail = rest.skip(13);
            assert(" extension(s)"@ + tail =~= rest);
            assert(" non-video file(s)"@ + " across "@ =~= " non-video file(s) across "@);
            let v = dec(videos);
            assert(last =~= Seq::<char>::empty() + head + (" non-video file(s) across "@ + kinds + rest
                + v + end));
            lemma_holds(Seq::empty(), head, " non-video file(s) across "@ + kinds + rest + v + end);
            assert(last =~= head + " non-video file(s)"@ + mid + (tail + v + end));
            lemma_holds(head + " non-video file(s)"@, mid, tail + v + end);
            let found = "("@ + v + " eligible video(s) also found)"@;
            let front = head + " non-video file(s) across "@ + kinds + rest.take(25);
            assert(rest =~= rest.take(25) + "("@);
            assert(end =~= " eligible video(s) also found)"@ + end.skip(30));
            assert(last =~= front + found + end.skip(30));
            lemma_holds(front, found, end.skip(30));
        }
    }
}

/// Every entry of the list of extensions counts, whatever stands before and
/// after it, unless nothing is left of it; nothing else counts, and each
/// extension only once.
pub proof fn law_every_entry_counts(raw: Seq<Seq<char>>, i: int, e: Seq<char>)
    requires
        0 <= i < raw.len(),
    ensures
        normal_ext(raw[i]).len() > 0 ==> kept_exts(raw).contains(normal_ext(raw[i])),
        kept_exts(raw).contains(e) ==> e.len() > 0 && exists|k: int|
            0 <= k < raw.len() && #[trigger] normal_ext(raw[k]) == e,
        is_entry(raw, e) <==> kept_exts(raw).contains(e),
        kept_exts(raw).no_duplicates(),
{
    lemma_kept_exts(raw, e);
    lemma_kept_exts(raw, normal_ext(raw[i]));
    lemma_kept_once(raw);
    if normal_ext(raw[i]).len() > 0 {
        assert(is_entry(raw, normal_ext(raw[i])));
    }
}

proof fn lemma_kept_once(raw: Seq<Seq<char>>)
    ensures
        kept_exts(raw).no_duplicates(),
    decreases raw.len(),
{
    if raw.len() > 0 {
        lemma_kept_once(raw.drop_last());
        let done = kept_exts(raw.drop_last());
        let e = normal_ext(raw.last());
        if !done.contains(e) {
            let next = done.push(e);
            assert forall|i: int, j: int|
                0 <= i < next.len() && 0 <= j < next.len() && i != j implies next[i] != next[j] by {
                if i < done.len() {
                    assert(done.contains(done[i]));
                }
                if j < done.len() {
                    assert(done.contains(done[j]));
                }
            }
        }
    }
}

/// Nothing is left of an entry that is all white space.
pub proof fn law_blank_entries_are_dropped(raw: Seq<char>)
    requires
        forall|i: int| 0 <= i < raw.len() ==> is_space(#[trigger] raw[i]),
    ensures
        normal_ext(raw).len() == 0,
{
    law_trim(raw);
    let (i, j) = choose|i: int, j: int|
        0 <= i <= j <= raw.len() && #[trigger] raw.subrange(i, j) == trim(raw) && (forall|k: int|
            0 <= k < i || j <= k < raw.len() ==> is_space(#[trigger] raw[k]));
    if trim(raw).len() > 0 {
        assert(trim(raw)[0] == raw[i]);
    }
}

/// The skipped files are all those that are no videos, each as often as it was
/// found.
pub proof fn law_skipped_files_are_all_others(
    files: Seq<Seq<Part>>,
    exts: Set<Seq<char>>,
    p: Seq<Part>,
)
    ensures
        skipped_among(files, exts).to_multiset().count(p) == if is_video(exts, p) {
            0
        } else {
            files.to_multiset().count(p)
        },
        skipped_among(files, exts).contains(p) <==> files.contains(p) && !is_video(exts, p),
{
    broadcast use vstd::multiset::group_multiset_axioms;

    lemma_filter_count(files, |f: Seq<Part>| !is_video(exts, f), p);
    files.to_multiset_ensures();
    skipped_among(files, exts).to_multiset_ensures();
}

/// A path is listed as a file without an extension exactly where it leads from
/// the root to such a file.
pub proof fn law_bare_files_by_their_path(root: Seq<Part>, files: Seq<Seq<Part>>, rel: Seq<Part>)
    ensures
        names_bare_file(root, files, rel) <==> files.contains(root + rel) && skip_key(
            root + rel,
        ).len() == 0,
{
    let p = root + rel;
    if files.contains(p) && skip_key(p).len() == 0 {
        let i = files.index_of(p);
        assert(p.take(root.len() as int) =~= root);
        assert(p.skip(root.len() as int) =~= rel);
        assert(is_bare(files[i]));
        assert(strip_prefix(files[i], root) == Some(rel));
    }
    if names_bare_file(root, files, rel) {
        let i = choose|i: int|
            0 <= i < files.len() && is_bare(#[trigger] files[i]) && strip_prefix(files[i], root)
                == Some(rel);
        assert(files[i] =~= p);
        assert(files.contains(p));
    }
}

}
