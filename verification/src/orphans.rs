//! Generated files that have outlived their source, and how they are removed.
use vstd::prelude::*;
use vstd::utf8::encode_utf8;
use crate::assoc::SortedSet;
use crate::order::{sorted, stably_sorted, views, Ranked};
use crate::path::{
    copied, dot, dot_dot_name, dot_name, extension, file_name, join,
    law_extension_follows_the_last_dot, law_files_in_directories,
    name_ok, parent, path_wf, render, same_bytes, shown, slash, strip_prefix, without_ext, Part,
    Path,
};
use crate::paths::{
    dot_jpg, frame_number, frame_of, frame_parent_dir, frame_suffix, is_digit_byte,
    jpg, law_frame_leads_to_source, law_sheet_leads_to_source, lemma_four_digits, lemma_frame_name,
    lemma_frame_number, lemma_longer_name_ok, lemma_mirror, lemma_parse_name, lemma_stem_of_longer, lies_under, mirror_dir, readable_name,
    rel_source, sheet_of, sheet_source, tree, tree_root, PathError,
};
use crate::scan::{law_walk_leaves_out_only_output_trees, walks_into};
use crate::sort::stable_sort;
use crate::strings::{dec, decimal, decode, holds, lemma_holds, text_of, texts};

verus! {

// ---- sources ----

/// Where the source that a generated file stands for would lie.
pub open spec fn source_location(root: Seq<Part>, rel: Seq<Part>) -> Seq<Part> {
    join(root, rel)
}

/// Where the source that a generated file stands for would lie.
pub fn source_path(root: &Path, rel_source: &Path) -> (r: Path)
    ensures
        r@ == source_location(root@, rel_source@),
{
    root.join(rel_source)
}

/// Whether the source that a generated file stands for is there, `present`
/// being the files that were found. The match is exact: a generated file keeps
/// the extension of its source.
pub fn source_exists(present: &SortedSet<Path>, root: &Path, rel_source: &Path) -> (r: bool)
    ensures
        r == present@.contains(source_location(root@, rel_source@)),
{
    present.contains(&source_path(root, rel_source))
}

// ---- orphans ----

/// Whether `p` is named like a generated image.
pub open spec fn is_jpg(p: Seq<Part>) -> bool {
    extension(p) == Some(jpg())
}

/// Whether `p` is named like a generated image.
pub fn named_jpg(p: &Path) -> (r: bool)
    ensures
        r == is_jpg(p@),
{
    let want: [u8; 3] = [0x6a, 0x70, 0x67];
    assert(want@ =~= jpg());
    match p.extension() {
        Some(e) => same_bytes(e.as_slice(), want.as_slice()),
        None => false,
    }
}

/// A sheet whose source is gone.
pub open spec fn sheet_orphan(
    root: Seq<Part>,
    screens_dir: Seq<char>,
    present: Set<Seq<Part>>,
    p: Seq<Part>,
) -> bool {
    is_jpg(p) && match sheet_source(root, screens_dir, p) {
        Ok(rel) => !present.contains(source_location(root, rel)),
        Err(_) => false,
    }
}

/// Whether the part of a frame's name before `.jpg` ends in a dot and exactly
/// four digits, `rel` being the frame as seen from its tree.
pub open spec fn has_frame_number(rel: Seq<Part>) -> bool {
    match extension(without_ext(rel)) {
        Some(n) => n.len() == 4 && forall|i: int| 0 <= i < n.len() ==> is_digit_byte(#[trigger] n[i]),
        None => false,
    }
}

/// An image in the frames tree that is no frame, or whose source is gone.
pub open spec fn frame_orphan(
    root: Seq<Part>,
    frames_dir: Seq<char>,
    present: Set<Seq<Part>>,
    p: Seq<Part>,
) -> bool {
    is_jpg(p) && match strip_prefix(p, tree(root, frames_dir)) {
        Some(rel) => !has_frame_number(rel) || !present.contains(
            source_location(root, without_ext(without_ext(rel))),
        ),
        None => false,
    }
}

/// Some image of `files` does not lie in the tree.
pub open spec fn strays(files: Seq<Seq<Part>>, base: Seq<Part>) -> bool {
    exists|i: int| 0 <= i < files.len() && is_jpg(#[trigger] files[i]) && !base.is_prefix_of(files[i])
}

/// The sheets among `files` whose source is gone, in path order. `files` are
/// the files of the screens tree, `present` the sources that were found.
pub fn find_orphans(
    root: &Path,
    screens_dir: &str,
    files: &Vec<Path>,
    present: &SortedSet<Path>,
) -> (r: Result<Vec<Path>, PathError>)
    ensures
        match r {
            Ok(v) => !strays(views(files@), tree(root@, screens_dir@)) && sorted::<Path>(views(v@))
                && views(v@).to_multiset() == views(files@).filter(
                |p: Seq<Part>| sheet_orphan(root@, screens_dir@, present@, p),
            ).to_multiset(),
            Err(e) => e == PathError::NotInScreens && strays(
                views(files@),
                tree(root@, screens_dir@),
            ),
        },
{
    let mut out: Vec<Path> = Vec::new();
    let ghost all = views(files@);
    let ghost gone = |p: Seq<Part>| sheet_orphan(root@, screens_dir@, present@, p);
    let ghost base = tree(root@, screens_dir@);
    for i in 0..files.len()
        invariant
            all == views(files@),
            base == tree(root@, screens_dir@),
            gone == (|p: Seq<Part>| sheet_orphan(root@, screens_dir@, present@, p)),
            views(out@) == all.take(i as int).filter(gone),
            forall|j: int| 0 <= j < i && is_jpg(#[trigger] all[j]) ==> base.is_prefix_of(all[j]),
    {
        let ghost was = views(out@);
        assert(all.take(i as int + 1).drop_last() =~= all.take(i as int));
        assert(all[i as int] == files@[i as int]@);
        reveal(Seq::filter);
        if named_jpg(&files[i]) {
            match rel_source(root, screens_dir, &files[i]) {
                Err(e) => {
                    return Err(e);
                },
                Ok(rel) => {
                    if !source_exists(present, root, &rel) {
                        out.push(files[i].clone());
                        assert(views(out@) =~= was.push(all[i as int]));
                    }
                },
            }
        }
    }
    assert(all.take(all.len() as int) =~= all);
    Ok(stable_sort(out))
}

/// Whether a name before `.jpg` ends in a dot and exactly four digits.
fn numbered(rel: &Path) -> (r: bool)
    ensures
        r == has_frame_number(rel@),
{
    match rel.without_ext().extension() {
        Some(n) => four_digits(&n, 0) && n.len() == 4,
        None => false,
    }
}

/// Whether four digits stand at `at`.
fn four_digits(v: &Vec<u8>, at: usize) -> (r: bool)
    ensures
        r == (at + 4 <= v@.len() && forall|i: int| at <= i < at + 4 ==> is_digit_byte(#[trigger] v@[i])),
{
    if v.len() < 4 || at > v.len() - 4 {
        return false;
    }
    for i in at..at + 4
        invariant
            at + 4 <= v@.len(),
            forall|j: int| at <= j < i ==> is_digit_byte(#[trigger] v@[j]),
    {
        if v[i] < 0x30 || v[i] > 0x39 {
            assert(!is_digit_byte(v@[i as int]));
            return false;
        }
    }
    true
}

/// The images among `files` that are no frames or whose source is gone, in
/// path order. `files` are the files of the frames tree, `present` the sources
/// that were found.
pub fn find_frame_orphans(
    root: &Path,
    frames_dir: &str,
    files: &Vec<Path>,
    present: &SortedSet<Path>,
) -> (r: Result<Vec<Path>, PathError>)
    ensures
        match r {
            Ok(v) => !strays(views(files@), tree(root@, frames_dir@)) && sorted::<Path>(views(v@))
                && views(v@).to_multiset() == views(files@).filter(
                |p: Seq<Part>| frame_orphan(root@, frames_dir@, present@, p),
            ).to_multiset(),
            Err(e) => e == PathError::NotInFrames && strays(views(files@), tree(root@, frames_dir@)),
        },
{
    let mut out: Vec<Path> = Vec::new();
    let base: Path = tree_root(root, frames_dir);
    let ghost all = views(files@);
    let ghost gone = |p: Seq<Part>| frame_orphan(root@, frames_dir@, present@, p);
    for i in 0..files.len()
        invariant
            all == views(files@),
            base@ == tree(root@, frames_dir@),
            gone == (|p: Seq<Part>| frame_orphan(root@, frames_dir@, present@, p)),
            views(out@) == all.take(i as int).filter(gone),
            forall|j: int| 0 <= j < i && is_jpg(#[trigger] all[j]) ==> base@.is_prefix_of(all[j]),
    {
        let ghost was = views(out@);
        assert(all.take(i as int + 1).drop_last() =~= all.take(i as int));
        assert(all[i as int] == files@[i as int]@);
        reveal(Seq::filter);
        if named_jpg(&files[i]) {
            match files[i].strip_prefix(&base) {
                None => {
                    return Err(PathError::NotInFrames);
                },
                Some(rel) => {
                    let stays = numbered(&rel) && source_exists(
                        present,
                        root,
                        &rel.without_ext().without_ext(),
                    );
                    if !stays {
                        out.push(files[i].clone());
                        assert(views(out@) =~= was.push(all[i as int]));
                    }
                },
            }
        }
    }
    assert(all.take(all.len() as int) =~= all);
    Ok(stable_sort(out))
}

// ---- removal ----

/// What became of an attempt to remove a file.
#[derive(Debug)]
pub enum Removal {
    /// The file was removed.
    Removed,
    /// There was no such file any more.
    AlreadyGone,
    /// It could not be removed, for the given reason.
    Failed(String),
}

/// Attempts to remove `n` files, made in order: only the last one can have
/// failed.
pub open spec fn in_course(n: nat, outcomes: Seq<Removal>) -> bool {
    &&& outcomes.len() <= n
    &&& forall|i: int| 0 <= i < outcomes.len() - 1 ==> !(#[trigger] outcomes[i] is Failed)
}

/// All attempts have been made, or the last one failed.
pub open spec fn is_over(n: nat, outcomes: Seq<Removal>) -> bool {
    outcomes.len() == n || (outcomes.len() > 0 && outcomes.last() is Failed)
}

/// Which of the orphans is to be removed next: they are tried in order, up to
/// the first failure.
pub fn next_removal(orphans: &Vec<Path>, outcomes: &Vec<Removal>) -> (r: Option<usize>)
    requires
        in_course(orphans@.len(), outcomes@),
    ensures
        match r {
            Some(i) => i == outcomes@.len() && !is_over(orphans@.len(), outcomes@),
            None => is_over(orphans@.len(), outcomes@),
        },
{
    let n: usize = outcomes.len();
    if n == orphans.len() {
        return None;
    }
    if n > 0 {
        match &outcomes[n - 1] {
            Removal::Failed(_) => {
                return None;
            },
            _ => {},
        }
    }
    Some(n)
}

/// The position of the first failure.
pub open spec fn first_failure(outcomes: Seq<Removal>) -> Option<int>
    decreases outcomes.len(),
{
    if outcomes.len() == 0 {
        None
    } else {
        match first_failure(outcomes.drop_last()) {
            Some(i) => Some(i),
            None => if outcomes.last() is Failed {
                Some(outcomes.len() - 1)
            } else {
                None
            },
        }
    }
}

/// How many files were removed.
pub open spec fn removed_count(outcomes: Seq<Removal>) -> nat
    decreases outcomes.len(),
{
    if outcomes.len() == 0 {
        0
    } else {
        removed_count(outcomes.drop_last()) + if outcomes.last() is Removed {
            1nat
        } else {
            0nat
        }
    }
}

/// The words for a file that could not be removed.
pub open spec fn removal_text(kind: Seq<char>, path: Seq<char>, reason: Seq<char>) -> Seq<char> {
    "failed to remove "@ + kind + " "@ + path + ": "@ + reason
}

/// What a removal of `orphans` comes to when its attempts, made in order and
/// given up at the first failure, ended as `outcomes` say.
pub open spec fn removal_result(
    kind: Seq<char>,
    orphans: Seq<Seq<Part>>,
    outcomes: Seq<Removal>,
) -> Result<nat, Seq<char>> {
    match first_failure(outcomes) {
        Some(i) => Err(removal_text(kind, shown(orphans[i]), outcomes[i]->Failed_0@)),
        None => Ok(removed_count(outcomes)),
    }
}

/// A result is the one that `s` describes.
pub open spec fn count_outcome(r: Result<usize, String>, s: Result<nat, Seq<char>>) -> bool {
    match r {
        Ok(n) => s == Ok::<nat, Seq<char>>(n as nat),
        Err(m) => s == Err::<nat, Seq<char>>(m@),
    }
}

proof fn lemma_failure_later(outcomes: Seq<Removal>, k: int)
    requires
        0 <= k <= outcomes.len(),
        first_failure(outcomes.take(k)) is Some,
    ensures
        first_failure(outcomes) == first_failure(outcomes.take(k)),
    decreases outcomes.len(),
{
    if k < outcomes.len() {
        assert(outcomes.drop_last().take(k) =~= outcomes.take(k));
        lemma_failure_later(outcomes.drop_last(), k);
    } else {
        assert(outcomes.take(k) =~= outcomes);
    }
}

/// The orphans that were removed.
pub open spec fn removed_among(orphans: Seq<Seq<Part>>, outcomes: Seq<Removal>) -> Seq<Seq<Part>>
    decreases outcomes.len(),
{
    if outcomes.len() == 0 {
        Seq::empty()
    } else {
        let front = removed_among(orphans, outcomes.drop_last());
        if outcomes.last() is Removed {
            front.push(orphans[outcomes.len() - 1])
        } else {
            front
        }
    }
}

/// The orphans that were removed.
pub fn removed_files(orphans: &Vec<Path>, outcomes: &Vec<Removal>) -> (r: Vec<Path>)
    requires
        outcomes@.len() <= orphans@.len(),
    ensures
        views(r@) == removed_among(views(orphans@), outcomes@),
{
    let mut r: Vec<Path> = Vec::new();
    for i in 0..outcomes.len()
        invariant
            outcomes@.len() <= orphans@.len(),
            views(r@) == removed_among(views(orphans@), outcomes@.take(i as int)),
    {
        assert(outcomes@.take(i as int + 1).drop_last() =~= outcomes@.take(i as int));
        let ghost was = views(r@);
        match &outcomes[i] {
            Removal::Removed => {
                r.push(orphans[i].clone());
                assert(views(r@) =~= was.push(views(orphans@)[i as int]));
            },
            _ => {},
        }
    }
    assert(outcomes@.take(outcomes@.len() as int) =~= outcomes@);
    r
}

/// As many files are counted as removed as there are.
pub proof fn law_removed_files_are_counted(orphans: Seq<Seq<Part>>, outcomes: Seq<Removal>)
    ensures
        removed_among(orphans, outcomes).len() == removed_count(outcomes),
    decreases outcomes.len(),
{
    if outcomes.len() > 0 {
        law_removed_files_are_counted(orphans, outcomes.drop_last());
    }
}

fn settle(kind: &str, orphans: &Vec<Path>, outcomes: &Vec<Removal>) -> (r: Result<usize, String>)
    requires
        outcomes@.len() <= orphans@.len(),
    ensures
        count_outcome(r, removal_result(kind@, views(orphans@), outcomes@)),
{
    let mut n: usize = 0;
    for i in 0..outcomes.len()
        invariant
            outcomes@.len() <= orphans@.len(),
            first_failure(outcomes@.take(i as int)) is None,
            n == removed_count(outcomes@.take(i as int)),
            n <= i,
    {
        assert(outcomes@.take(i as int + 1).drop_last() =~= outcomes@.take(i as int));
        match &outcomes[i] {
            Removal::Removed => {
                n = n + 1;
            },
            Removal::AlreadyGone => {},
            Removal::Failed(reason) => {
                proof {
                    lemma_failure_later(outcomes@, i as int + 1);
                }
                let mut m: String = "failed to remove ".to_owned();
                m.append(kind);
                m.append(" ");
                let p: String = orphans[i].display();
                m.append(p.as_str());
                m.append(": ");
                m.append(reason.as_str());
                assert(views(orphans@)[i as int] == orphans@[i as int]@);
                return Err(m);
            },
        }
    }
    assert(outcomes@.take(outcomes@.len() as int) =~= outcomes@);
    Ok(n)
}

/// What a removal of orphan sheets comes to once it is over: the number of
/// files removed, or the first failure. Files that were already gone count as
/// neither.
pub fn cleanup_orphans(orphans: &Vec<Path>, outcomes: &Vec<Removal>) -> (r: Result<usize, String>)
    requires
        in_course(orphans@.len(), outcomes@),
        is_over(orphans@.len(), outcomes@),
    ensures
        count_outcome(r, removal_result("orphan"@, views(orphans@), outcomes@)),
{
    settle("orphan", orphans, outcomes)
}

/// What a removal of orphan frames comes to once it is over.
pub fn cleanup_frame_orphans(orphans: &Vec<Path>, outcomes: &Vec<Removal>) -> (r: Result<
    usize,
    String,
>)
    requires
        in_course(orphans@.len(), outcomes@),
        is_over(orphans@.len(), outcomes@),
    ensures
        count_outcome(r, removal_result("orphan frame"@, views(orphans@), outcomes@)),
{
    settle("orphan frame", orphans, outcomes)
}

// ---- the report on orphans ----

/// The report on orphans of a kind: how many there are, and each of them.
pub open spec fn orphan_lines(
    kind: Seq<char>,
    unit: Seq<char>,
    orphans: Seq<Seq<Part>>,
) -> Seq<Seq<char>> {
    seq!["found "@ + dec(orphans.len()) + " "@ + kind + unit + "(s)"@] + orphans.map_values(
        |p: Seq<Part>| kind + ": "@ + shown(p),
    )
}

fn report(kind: &str, unit: &str, orphans: &Vec<Path>) -> (r: Vec<String>)
    ensures
        texts(r@) == orphan_lines(kind@, unit@, views(orphans@)),
{
    let ghost all = views(orphans@);
    let ghost f = |p: Seq<Part>| kind@ + ": "@ + shown(p);
    let n: String = decimal(orphans.len() as u64);
    let mut first: String = "found ".to_owned();
    first.append(n.as_str());
    first.append(" ");
    first.append(kind);
    first.append(unit);
    first.append("(s)");
    let ghost head = first@;
    let mut r: Vec<String> = Vec::new();
    r.push(first);
    assert(texts(r@) =~= seq![head] + all.take(0).map_values(f));
    for i in 0..orphans.len()
        invariant
            all == views(orphans@),
            f == (|p: Seq<Part>| kind@ + ": "@ + shown(p)),
            texts(r@) =~= seq![head] + all.take(i as int).map_values(f),
    {
        let ghost was = texts(r@);
        let mut m: String = kind.to_owned();
        let p: String = orphans[i].display();
        m.append(": ");
        m.append(p.as_str());
        r.push(m);
        assert(texts(r@) =~= was.push(f(all[i as int])));
    }
    assert(all.take(all.len() as int) =~= all);
    r
}

/// The report on orphan sheets.
pub fn sheet_orphan_report(orphans: &Vec<Path>) -> (r: Vec<String>)
    ensures
        texts(r@) == orphan_lines("orphan sheet"@, ""@, views(orphans@)),
{
    report("orphan sheet", "", orphans)
}

/// The report on orphan frames.
pub fn frame_orphan_report(orphans: &Vec<Path>) -> (r: Vec<String>)
    ensures
        texts(r@) == orphan_lines("orphan frame"@, " file"@, views(orphans@)),
{
    report("orphan frame", " file", orphans)
}

// ---- the sweep for empty directories ----

/// A directory, ranked by the length of its spelling: the longest comes first.
pub struct Deep {
    pub dir: Path,
}

impl View for Deep {
    type V = Seq<Part>;

    open spec fn view(&self) -> Seq<Part> {
        self.dir@
    }
}

impl Ranked for Deep {
    open spec fn le(a: Seq<Part>, b: Seq<Part>) -> bool {
        render(a).len() >= render(b).len()
    }

    proof fn le_total(a: Seq<Part>, b: Seq<Part>) {
    }

    proof fn le_transitive(a: Seq<Part>, b: Seq<Part>, c: Seq<Part>) {
    }

    fn leq(&self, other: &Deep) -> (r: bool) {
        self.dir.to_bytes().len() >= other.dir.to_bytes().len()
    }
}

/// Whether a removed file lay in the directory `d` or below it.
pub open spec fn above_removed(removed: Seq<Seq<Part>>, d: Seq<Part>) -> bool {
    exists|i: int|
        0 <= i < removed.len() && d.is_prefix_of(#[trigger] removed[i]) && d.len()
            < removed[i].len()
}

/// Tells the directories below a tree's own, `base`, that removed files may
/// have left empty.
pub open spec fn may_be_emptied(base: Seq<Part>, removed: Seq<Seq<Part>>) -> spec_fn(
    Seq<Part>,
) -> bool {
    |d: Seq<Part>| d != base && base.is_prefix_of(d) && above_removed(removed, d)
}

/// The directories of a tree that removed files may have left empty, in the
/// order in which they were found.
pub open spec fn emptied(
    base: Seq<Part>,
    dirs: Seq<Seq<Part>>,
    removed: Seq<Seq<Part>>,
) -> Seq<Seq<Part>> {
    dirs.filter(may_be_emptied(base, removed))
}

/// Whether a removed file lay in the directory `d` or below it.
fn held_removed(removed: &Vec<Path>, d: &Path) -> (r: bool)
    ensures
        r == above_removed(views(removed@), d@),
{
    for i in 0..removed.len()
        invariant
            forall|k: int|
                0 <= k < i ==> !(d@.is_prefix_of(#[trigger] views(removed@)[k]) && d@.len()
                    < views(removed@)[k].len()),
    {
        assert(views(removed@)[i as int] == removed@[i as int]@);
        if let Some(_) = removed[i].strip_prefix(d) {
            if !removed[i].same(d) {
                proof {
                    if d@.len() == removed@[i as int]@.len() {
                        assert(d@ =~= removed@[i as int]@);
                    }
                }
                return true;
            }
        }
    }
    false
}

/// The order in which the directories of an output tree are looked at for
/// newly empty ones: only those that a removed file lay in or below, the
/// longest path first, and never the tree's own directory.
pub fn sweep_order(base: &Path, dirs: &Vec<Path>, removed: &Vec<Path>) -> (r: Vec<Path>)
    ensures
        stably_sorted::<Deep>(emptied(base@, views(dirs@), views(removed@)), views(r@)),
{
    let mut deep: Vec<Deep> = Vec::new();
    let ghost all = views(dirs@);
    let ghost gone = views(removed@);
    for i in 0..dirs.len()
        invariant
            all == views(dirs@),
            gone == views(removed@),
            views(deep@) == emptied(base@, all.take(i as int), gone),
    {
        let ghost was = views(deep@);
        assert(all.take(i as int + 1).drop_last() =~= all.take(i as int));
        assert(all[i as int] == dirs@[i as int]@);
        reveal(Seq::filter);
        if !dirs[i].same(base) && dirs[i].strip_prefix(base).is_some() && held_removed(
            removed,
            &dirs[i],
        ) {
            deep.push(Deep { dir: dirs[i].clone() });
            assert(views(deep@) =~= was.push(all[i as int]));
        }
    }
    assert(all.take(all.len() as int) =~= all);
    let ranked: Vec<Deep> = stable_sort(deep);
    let mut out: Vec<Path> = Vec::new();
    for i in 0..ranked.len()
        invariant
            views(out@) =~= views(ranked@).take(i as int),
    {
        let ghost was = views(out@);
        out.push(ranked[i].dir.clone());
        assert(views(out@) =~= was.push(ranked@[i as int].dir@));
    }
    assert(views(out@) =~= views(ranked@));
    out
}

// ---- stale frames of one video ----

/// Whether `name` is the name of a frame file of the video named `video`: that
/// name, a dot, four digits and `.jpg`.
pub open spec fn is_frame_name(video: Seq<u8>, name: Seq<u8>) -> bool {
    &&& name.len() == video.len() + 9
    &&& name.take(video.len() as int) == video
    &&& name[video.len() as int] == dot()
    &&& forall|i: int|
        video.len() + 1 <= i < video.len() + 5 ==> is_digit_byte(#[trigger] name[i])
    &&& name.skip(video.len() as int + 5) == dot_jpg()
}

/// Whether `name` is the name of a frame file of the video named `video`.
fn frame_named(video: &Vec<u8>, name: &Vec<u8>) -> (r: bool)
    ensures
        r == is_frame_name(video@, name@),
{
    let n: usize = video.len();
    let m: usize = name.len();
    if m < 9 || m - 9 != n {
        return false;
    }
    for i in 0..n
        invariant
            n == video@.len(),
            m == name@.len(),
            m == n + 9,
            name@.take(i as int) =~= video@.take(i as int),
    {
        if name[i] != video[i] {
            assert(name@.take(n as int)[i as int] == name@[i as int]);
            return false;
        }
    }
    assert(video@.take(n as int) =~= video@);
    let tail: [u8; 4] = [0x2e, 0x6a, 0x70, 0x67];
    let rest: Vec<u8> = crate::path::slice(name, n + 5, m);
    assert(tail@ =~= dot_jpg());
    assert(rest@ =~= name@.skip(n as int + 5));
    name[n] == 0x2e && four_digits(name, n + 1) && same_bytes(rest.as_slice(), tail.as_slice())
}

/// The frame files of the video named `video` among the entries `names` of the
/// directory `dir`.
pub open spec fn frame_files(dir: Seq<Part>, video: Seq<u8>, names: Seq<Seq<u8>>) -> Seq<Seq<Part>> {
    names.filter(|n: Seq<u8>| is_frame_name(video, n)).map_values(
        |n: Seq<u8>| dir.push(Part::Normal(n)),
    )
}

/// The kept frames of a video that are to go before new ones are written.
/// `names` are the files in the directory where its frames are kept; those of
/// other videos stay.
pub fn clear_video_frames(root: &Path, frames_dir: &str, src: &Path, names: &Vec<Vec<u8>>) -> (r:
    Result<Vec<Path>, PathError>)
    ensures
        match mirror_dir(root@, frames_dir@, src@) {
            Err(e) => r == Err::<Vec<Path>, PathError>(e),
            Ok(dir) => match readable_name(src@) {
                None => r == Err::<Vec<Path>, PathError>(PathError::NoFileName),
                Some(video) => r is Ok && views(r->Ok_0@) == frame_files(dir, video, views(names@)),
            },
        },
{
    proof {
        use_type_invariant(src);
    }
    let dir: Path = match frame_parent_dir(root, frames_dir, src) {
        Ok(d) => d,
        Err(e) => {
            return Err(e);
        },
    };
    let video: Vec<u8> = match src.file_name() {
        None => {
            return Err(PathError::NoFileName);
        },
        Some(v) => v,
    };
    if decode(video.as_slice()).is_none() {
        return Err(PathError::NoFileName);
    }
    let mut out: Vec<Path> = Vec::new();
    let ghost all = views(names@);
    for i in 0..names.len()
        invariant
            all == views(names@),
            path_wf(src@),
            file_name(src@) == Some(video@),
            views(out@) == frame_files(dir@, video@, all.take(i as int)),
    {
        let ghost was = views(out@);
        let ghost part = all.take(i as int).filter(|n: Seq<u8>| is_frame_name(video@, n));
        assert(all.take(i as int + 1).drop_last() =~= all.take(i as int));
        assert(all[i as int] == names@[i as int]@);
        reveal(Seq::filter);
        if frame_named(&video, &names[i]) {
            proof {
                let k = video@.len() as int;
                let name = names@[i as int]@;
                assert(name =~= video@ + name.skip(k));
                assert forall|j: int| 0 <= j < 9 implies name.skip(k)[j] != slash() by {
                    if 1 <= j < 5 {
                        assert(is_digit_byte(name[k + j]));
                    } else if j >= 5 {
                        assert(name.skip(k + 5)[j - 5] == dot_jpg()[j - 5]);
                    }
                }
                lemma_longer_name_ok(src@, name.skip(k));
            }
            out.push(dir.join_name(copied(&names[i])));
            assert(part.push(all[i as int]).map_values(
                |n: Seq<u8>| dir@.push(Part::Normal(n)),
            ) =~= part.map_values(|n: Seq<u8>| dir@.push(Part::Normal(n))).push(
                dir@.push(Part::Normal(all[i as int])),
            ));
            assert(views(out@) =~= was.push(dir@.push(Part::Normal(all[i as int]))));
        }
    }
    assert(all.take(all.len() as int) =~= all);
    Ok(out)
}

// ---- laws ----

/// The sheet of a source is an orphan exactly when the source is gone.
pub proof fn law_sheet_lives_with_its_source(
    root: Seq<Part>,
    screens_dir: Seq<char>,
    present: Set<Seq<Part>>,
    src: Seq<Part>,
)
    requires
        lies_under(root, src),
        sheet_of(root, screens_dir, src) is Ok,
    ensures
        sheet_orphan(root, screens_dir, present, sheet_of(root, screens_dir, src)->Ok_0)
            <==> !present.contains(src),
{
    law_sheet_leads_to_source(root, screens_dir, src);
    lemma_mirror(root, screens_dir, src, dot_jpg());
    let name = file_name(src)->0;
    assert(!jpg().contains(dot()));
    lemma_stem_of_longer(name, jpg());
    assert(name + dot_jpg() =~= name.push(dot()) + jpg());
    assert(sheet_of(root, screens_dir, src)->Ok_0.last() == Part::Normal(name + dot_jpg()));
}

/// A kept frame whose number has four digits is an orphan exactly when its
/// source is gone; with a longer number it is one in any case.
pub proof fn law_frame_lives_with_its_source(
    root: Seq<Part>,
    frames_dir: Seq<char>,
    present: Set<Seq<Part>>,
    src: Seq<Part>,
    n: nat,
)
    requires
        lies_under(root, src),
        frame_of(root, frames_dir, src, n) is Ok,
    ensures
        frame_orphan(root, frames_dir, present, frame_of(root, frames_dir, src, n)->Ok_0)
            <==> n >= 10000 || !present.contains(src),
{
    law_frame_leads_to_source(root, frames_dir, src, n);
    lemma_mirror(root, frames_dir, src, frame_suffix(n));
    lemma_frame_number(n);
    let name = file_name(src)->0;
    lemma_frame_name(name, n);
    let p = frame_of(root, frames_dir, src, n)->Ok_0;
    assert(p.last() == Part::Normal(name + frame_suffix(n)));
    let up = src.skip(root.len() as int).drop_last();
    let rel = up.push(Part::Normal(name + frame_suffix(n)));
    let mid = name.push(dot()) + frame_number(n);
    assert(mid.len() > 2);
    assert(rel.drop_last() =~= up);
    assert(without_ext(rel) =~= up.push(Part::Normal(mid)));
    assert(extension(without_ext(rel)) == Some(frame_number(n)));
    assert(has_frame_number(rel) <==> n < 10000);
}

/// Only images inside an output tree are ever orphans: neither a source nor
/// any other file outside the tree is one.
pub proof fn law_orphans_lie_in_their_tree(
    root: Seq<Part>,
    dir: Seq<char>,
    present: Set<Seq<Part>>,
    p: Seq<Part>,
)
    requires
        sheet_orphan(root, dir, present, p) || frame_orphan(root, dir, present, p),
    ensures
        tree(root, dir).is_prefix_of(p),
        is_jpg(p),
{
}

/// Whether a walk from `root` comes to `src`: it goes on into every directory
/// on the way.
pub open spec fn reached(
    root: Seq<Part>,
    src: Seq<Part>,
    screens_dir: Seq<char>,
    frames_dir: Seq<char>,
) -> bool {
    forall|i: int|
        root.len() <= i < src.len() - 1 ==> match #[trigger] src[i] {
            Part::Normal(name) => walks_into(true, name, screens_dir, frames_dir),
            _ => true,
        }
}

/// No source that a walk has found is ever taken for an orphan, neither as a
/// sheet nor as a frame: removing orphans touches no source.
pub proof fn law_sources_are_never_orphans(
    root: Seq<Part>,
    screens_dir: Seq<char>,
    frames_dir: Seq<char>,
    present: Set<Seq<Part>>,
    src: Seq<Part>,
)
    requires
        name_ok(encode_utf8(screens_dir)),
        name_ok(encode_utf8(frames_dir)),
        reached(root, src, screens_dir, frames_dir),
        src != tree(root, screens_dir),
        src != tree(root, frames_dir),
    ensures
        !sheet_orphan(root, screens_dir, present, src),
        !frame_orphan(root, frames_dir, present, src),
{
    lemma_tree_not_reached(root, screens_dir, src, screens_dir, frames_dir);
    lemma_tree_not_reached(root, frames_dir, src, screens_dir, frames_dir);
}

proof fn lemma_tree_not_reached(
    root: Seq<Part>,
    dir: Seq<char>,
    src: Seq<Part>,
    screens_dir: Seq<char>,
    frames_dir: Seq<char>,
)
    requires
        name_ok(encode_utf8(dir)),
        dir == screens_dir || dir == frames_dir,
        reached(root, src, screens_dir, frames_dir),
        src != tree(root, dir),
    ensures
        !tree(root, dir).is_prefix_of(src),
{
    let t = tree(root, dir);
    let name = encode_utf8(dir);
    lemma_parse_name(name);
    let k = root.len() as int;
    assert(t.len() == k + 1 && t[k] == Part::Normal(name));
    if t.is_prefix_of(src) {
        if src.len() == t.len() {
            assert(src =~= t);
        }
        assert(src[k] == t[k]);
    }
}

/// Clearing a video's frames reaches all its frames up to number 9999, and no
/// frame of another video.
pub proof fn law_clearing_spares_other_videos(a: Seq<u8>, b: Seq<u8>, n: nat)
    ensures
        is_frame_name(a, b + frame_suffix(n)) <==> a == b && n < 10000,
{
    lemma_frame_number(n);
    let full = b + frame_suffix(n);
    let d = frame_number(n);
    if a == b && n < 10000 {
        assert(full.take(a.len() as int) =~= a);
        assert forall|i: int| a.len() + 1 <= i < a.len() + 5 implies is_digit_byte(
            #[trigger] full[i],
        ) by {
            assert(full[i] == d[i - a.len() - 1]);
        }
        assert(full.skip(a.len() as int + 5) =~= dot_jpg());
    }
    if is_frame_name(a, full) {
        let k = a.len() as int;
        assert(full.len() == b.len() + 5 + d.len());
        if d.len() > 4 {
            assert(full[k] == d[k - b.len() - 1]);
            assert(is_digit_byte(d[k - b.len() - 1]));
        }
        assert(a.len() == b.len());
        assert(full.take(k) =~= b);
    }
}

/// Removing a video's frames and nothing else: what is cleared are files in
/// the directory where its frames are kept.
pub proof fn law_cleared_files_are_frames(dir: Seq<Part>, video: Seq<u8>, names: Seq<Seq<u8>>, i: int)
    requires
        0 <= i < frame_files(dir, video, names).len(),
    ensures
        parent(frame_files(dir, video, names)[i]) == Some(dir),
        file_name(frame_files(dir, video, names)[i]) matches Some(n) && is_frame_name(video, n)
            && names.contains(n),
{
    let keep = |n: Seq<u8>| is_frame_name(video, n);
    let f = names.filter(keep);
    names.lemma_filter_pred(keep, i);
    assert(f.contains(f[i]));
    names.lemma_filter_contains_rev(keep, f[i]);
    let p = dir.push(Part::Normal(f[i]));
    assert(frame_files(dir, video, names)[i] == p);
    assert(p.drop_last() =~= dir);
}

proof fn lemma_longer_path_longer_bytes(s: Seq<Part>, n: int)
    requires
        path_wf(s),
        0 <= n < s.len(),
    ensures
        render(s.take(n)).len() < render(s).len(),
    decreases s.len(),
{
    let t = s.drop_last();
    assert(s[s.len() - 1] == s.last());
    assert forall|i: int| 0 <= i < t.len() implies #[trigger] t[i] == s[i] by {}
    assert(path_wf(t));
    assert(render(t).len() < render(s).len()) by {
        if s.len() == 1 {
            assert(t =~= Seq::<Part>::empty());
        } else if s.len() == 2 && s[0] is Root {
            assert(t.len() == 1 && t[0] is Root);
        }
    }
    if n < t.len() {
        lemma_longer_path_longer_bytes(t, n);
        assert(t.take(n) =~= s.take(n));
    } else {
        assert(s.take(n) =~= t);
    }
}

/// What the sweep looks at is among the directories that were found.
proof fn lemma_swept(
    base: Seq<Part>,
    dirs: Seq<Seq<Part>>,
    removed: Seq<Seq<Part>>,
    r: Seq<Seq<Part>>,
    i: int,
)
    requires
        stably_sorted::<Deep>(emptied(base, dirs, removed), r),
        0 <= i < r.len(),
    ensures
        dirs.contains(r[i]),
        r[i] != base,
        base.is_prefix_of(r[i]),
        above_removed(removed, r[i]),
{
    let keep = may_be_emptied(base, removed);
    let s = emptied(base, dirs, removed);
    s.to_multiset_ensures();
    r.to_multiset_ensures();
    assert(r.contains(r[i]));
    assert(r.to_multiset().count(r[i]) > 0);
    assert(s.contains(r[i]));
    let x = choose|x: int| 0 <= x < s.len() && s[x] == r[i];
    dirs.lemma_filter_pred(keep, x);
    dirs.lemma_filter_contains_rev(keep, r[i]);
}

/// The sweep takes only directories of the tree that a removed file lay in or
/// below. One that was empty before stays, and so does the directory of the
/// tree itself; where nothing was removed, nothing is swept.
pub proof fn law_sweep_takes_only_emptied_directories(
    base: Seq<Part>,
    dirs: Seq<Seq<Part>>,
    removed: Seq<Seq<Part>>,
    r: Seq<Seq<Part>>,
)
    requires
        stably_sorted::<Deep>(emptied(base, dirs, removed), r),
    ensures
        forall|i: int|
            0 <= i < r.len() ==> dirs.contains(#[trigger] r[i]) && r[i] != base
                && base.is_prefix_of(r[i]) && above_removed(removed, r[i]),
        removed.len() == 0 ==> r.len() == 0,
{
    assert forall|i: int| 0 <= i < r.len() implies dirs.contains(#[trigger] r[i]) && r[i] != base
        && base.is_prefix_of(r[i]) && above_removed(removed, r[i]) by {
        lemma_swept(base, dirs, removed, r, i);
    }
    if removed.len() == 0 && r.len() > 0 {
        assert(above_removed(removed, r[0]));
    }
}

/// Every directory that a removed file lay in or below is looked at.
pub proof fn law_sweep_misses_no_emptied_directory(
    base: Seq<Part>,
    dirs: Seq<Seq<Part>>,
    removed: Seq<Seq<Part>>,
    r: Seq<Seq<Part>>,
    d: Seq<Part>,
)
    requires
        stably_sorted::<Deep>(emptied(base, dirs, removed), r),
        dirs.contains(d),
        d != base,
        base.is_prefix_of(d),
        above_removed(removed, d),
    ensures
        r.contains(d),
{
    let keep = may_be_emptied(base, removed);
    let s = emptied(base, dirs, removed);
    let k = dirs.index_of(d);
    dirs.lemma_filter_contains(keep, k);
    s.to_multiset_ensures();
    r.to_multiset_ensures();
    assert(s.to_multiset().count(d) > 0);
}

/// The sweep looks at a directory only after everything below it.
pub proof fn law_sweep_is_bottom_up(
    base: Seq<Part>,
    dirs: Seq<Seq<Part>>,
    removed: Seq<Seq<Part>>,
    r: Seq<Seq<Part>>,
    i: int,
    j: int,
)
    requires
        stably_sorted::<Deep>(emptied(base, dirs, removed), r),
        0 <= i < j < r.len(),
        path_wf(r[j]),
    ensures
        r[i] != r[j] ==> !r[i].is_prefix_of(r[j]),
{
    if r[i] != r[j] && r[i].is_prefix_of(r[j]) {
        if r[i].len() == r[j].len() {
            assert(r[i] =~= r[j]);
        }
        assert(r[j].take(r[i].len() as int) =~= r[i]);
        lemma_longer_path_longer_bytes(r[j], r[i].len() as int);
        assert(Deep::le(r[i], r[j]));
    }
}

// ---- laws of what is found and what is removed ----

/// A walk comes to a file exactly where no directory on the way from the root
/// has one of the two output names as its own, whatever these directories are
/// called otherwise.
pub proof fn law_walk_reaches_every_other_file(
    root: Seq<Part>,
    src: Seq<Part>,
    screens_dir: Seq<char>,
    frames_dir: Seq<char>,
)
    ensures
        reached(root, src, screens_dir, frames_dir) <==> forall|i: int|
            root.len() <= i < src.len() - 1 && #[trigger] src[i] is Normal ==> text_of(
                src[i]->Normal_0,
            ) != Some(screens_dir) && text_of(src[i]->Normal_0) != Some(frames_dir),
{
    assert forall|i: int| root.len() <= i < src.len() - 1 && #[trigger] src[i] is Normal implies (
    walks_into(true, src[i]->Normal_0, screens_dir, frames_dir) <==> text_of(src[i]->Normal_0)
        != Some(screens_dir) && text_of(src[i]->Normal_0) != Some(frames_dir)) by {
        law_walk_leaves_out_only_output_trees(true, src[i]->Normal_0, screens_dir, frames_dir);
    }
}

/// In the screens tree an image is an orphan exactly where no source lies in
/// the mirrored directory under its name without `.jpg`.
pub proof fn law_sheet_without_source_is_an_orphan(
    root: Seq<Part>,
    screens_dir: Seq<char>,
    present: Set<Seq<Part>>,
    way: Seq<Part>,
    name: Seq<u8>,
)
    requires
        name_ok(encode_utf8(screens_dir)),
        name_ok(name),
        root.len() > 0,
        way.len() > 0 ==> way[0] is Normal,
    ensures
        sheet_orphan(
            root,
            screens_dir,
            present,
            root.push(Part::Normal(encode_utf8(screens_dir))) + way.push(
                Part::Normal(name + seq![0x2eu8, 0x6au8, 0x70u8, 0x67u8]),
            ),
        ) <==> !present.contains(root + way.push(Part::Normal(name))),
{
    let d = encode_utf8(screens_dir);
    let full = name + seq![0x2eu8, 0x6au8, 0x70u8, 0x67u8];
    let t = root.push(Part::Normal(d));
    let rel = way.push(Part::Normal(full));
    let p = t + rel;
    lemma_parse_name(d);
    assert(tree(root, screens_dir) =~= t);
    law_files_in_directories(way, name, jpg());
    assert(full =~= name.push(dot()) + jpg());
    assert(p.last() == Part::Normal(full));
    assert(p =~= (t + way).push(Part::Normal(full)));
    law_files_in_directories(t + way, name, jpg());
    assert(p.take(t.len() as int) =~= t);
    assert(p.skip(t.len() as int) =~= rel);
    let src = way.push(Part::Normal(name));
    assert(src[0] is Normal);
    assert(join(root, src) =~= root + src);
}

/// In the frames tree an image is an orphan unless its name is that of a
/// source, a dot, four digits and `.jpg`, and that source lies in the mirrored
/// directory. So an image that is no frame is always one.
pub proof fn law_frame_without_source_is_an_orphan(
    root: Seq<Part>,
    frames_dir: Seq<char>,
    present: Set<Seq<Part>>,
    way: Seq<Part>,
    name: Seq<u8>,
    number: Seq<u8>,
)
    requires
        name_ok(encode_utf8(frames_dir)),
        name_ok(name),
        root.len() > 0,
        way.len() > 0 ==> way[0] is Normal,
        forall|i: int|
            0 <= i < number.len() ==> #[trigger] number[i] != 0x2e && number[i] != 0x2f,
    ensures
        frame_orphan(
            root,
            frames_dir,
            present,
            root.push(Part::Normal(encode_utf8(frames_dir))) + way.push(
                Part::Normal(name.push(0x2e) + number + seq![0x2eu8, 0x6au8, 0x70u8, 0x67u8]),
            ),
        ) <==> !(number.len() == 4 && (forall|i: int|
            0 <= i < 4 ==> 0x30 <= #[trigger] number[i] <= 0x39) && present.contains(
            root + way.push(Part::Normal(name)),
        )),
{
    let d = encode_utf8(frames_dir);
    let mid = name.push(0x2e) + number;
    let full = mid + seq![0x2eu8, 0x6au8, 0x70u8, 0x67u8];
    let t = root.push(Part::Normal(d));
    let rel = way.push(Part::Normal(full));
    let p = t + rel;
    lemma_parse_name(d);
    assert(tree(root, frames_dir) =~= t);
    lemma_numbered_name(name, number);
    law_files_in_directories(way, mid, jpg());
    law_files_in_directories(way, name, number);
    law_files_in_directories(t + way, mid, jpg());
    assert(full =~= mid.push(dot()) + jpg());
    assert(p =~= (t + way).push(Part::Normal(full)));
    assert(p.take(t.len() as int) =~= t);
    assert(p.skip(t.len() as int) =~= rel);
    let src = way.push(Part::Normal(name));
    assert(src[0] is Normal);
    assert(join(root, src) =~= root + src);
    if number.len() == 4 && forall|i: int| 0 <= i < 4 ==> 0x30 <= #[trigger] number[i] <= 0x39 {
        assert forall|i: int| 0 <= i < number.len() implies is_digit_byte(#[trigger] number[i]) by {}
    }
    if has_frame_number(rel) {
        assert forall|i: int| 0 <= i < 4 implies 0x30 <= #[trigger] number[i] <= 0x39 by {
            assert(is_digit_byte(number[i]));
        }
    }
}

/// A name goes on as a name with a dot and a number behind it.
proof fn lemma_numbered_name(name: Seq<u8>, number: Seq<u8>)
    requires
        name_ok(name),
        forall|i: int|
            0 <= i < number.len() ==> #[trigger] number[i] != 0x2e && number[i] != 0x2f,
    ensures
        name_ok(name.push(0x2e) + number),
{
    let full = name.push(0x2e) + number;
    assert forall|i: int| 0 <= i < full.len() implies full[i] != slash() by {
        if i < name.len() {
            assert(name.contains(name[i]));
        } else if i > name.len() {
            assert(number[i - name.len() - 1] == full[i]);
        }
    }
    if full =~= dot_dot_name() {
        assert(full[0] == name[0]);
        assert(name =~= dot_name());
    }
}

/// Only files whose extension is `jpg`, in just these letters, are ever taken
/// for generated images.
pub proof fn law_only_jpg_files_are_orphans(
    root: Seq<Part>,
    dir: Seq<char>,
    present: Set<Seq<Part>>,
    p: Seq<Part>,
)
    requires
        extension(p) != Some(seq![0x6au8, 0x70u8, 0x67u8]),
    ensures
        !sheet_orphan(root, dir, present, p),
        !frame_orphan(root, dir, present, p),
{
}

/// A removal fails exactly where some attempt failed, and then with the path
/// and the reason of the first such attempt; otherwise it tells how many files
/// were removed, files that were already gone not among them.
pub proof fn law_removal_tells_what_happened(
    kind: Seq<char>,
    orphans: Seq<Seq<Part>>,
    outcomes: Seq<Removal>,
)
    ensures
        removal_result(kind, orphans, outcomes) is Ok <==> forall|i: int|
            0 <= i < outcomes.len() ==> !(#[trigger] outcomes[i] is Failed),
        removal_result(kind, orphans, outcomes) matches Ok(n) ==> n == outcomes.filter(
            |o: Removal| o is Removed,
        ).len(),
        forall|i: int|
            #![trigger outcomes[i]]
            0 <= i < outcomes.len() && outcomes[i] is Failed && (forall|j: int|
                0 <= j < i ==> !(#[trigger] outcomes[j] is Failed)) ==> removal_result(
                kind,
                orphans,
                outcomes,
            ) == Err::<nat, Seq<char>>(
                "failed to remove "@ + kind + " "@ + shown(orphans[i]) + ": "@
                    + outcomes[i]->Failed_0@,
            ),
{
    lemma_first_failure(outcomes);
    lemma_removed_count(outcomes);
}

proof fn lemma_first_failure(outcomes: Seq<Removal>)
    ensures
        first_failure(outcomes) is None <==> forall|i: int|
            0 <= i < outcomes.len() ==> !(#[trigger] outcomes[i] is Failed),
        first_failure(outcomes) matches Some(i) ==> 0 <= i < outcomes.len() && outcomes[i] is Failed
            && forall|j: int| 0 <= j < i ==> !(#[trigger] outcomes[j] is Failed),
    decreases outcomes.len(),
{
    if outcomes.len() > 0 {
        let front = outcomes.drop_last();
        lemma_first_failure(front);
        assert(outcomes[outcomes.len() - 1] == outcomes.last());
        assert forall|i: int| 0 <= i < front.len() implies #[trigger] outcomes[i] == front[i] by {}
        if first_failure(front) is Some {
            let i = first_failure(front)->0;
            assert(outcomes[i] is Failed);
        }
    }
}

proof fn lemma_removed_count(outcomes: Seq<Removal>)
    ensures
        removed_count(outcomes) == outcomes.filter(|o: Removal| o is Removed).len(),
    decreases outcomes.len(),
{
    reveal(Seq::filter);
    if outcomes.len() > 0 {
        lemma_removed_count(outcomes.drop_last());
    }
}

/// The files that were removed are those whose attempt says so.
pub proof fn law_removed_files_are_told(
    orphans: Seq<Seq<Part>>,
    outcomes: Seq<Removal>,
    p: Seq<Part>,
)
    requires
        outcomes.len() <= orphans.len(),
    ensures
        removed_among(orphans, outcomes).contains(p) <==> exists|i: int|
            0 <= i < outcomes.len() && #[trigger] outcomes[i] is Removed && orphans[i] == p,
    decreases outcomes.len(),
{
    if outcomes.len() > 0 {
        let front = outcomes.drop_last();
        let n = outcomes.len() - 1;
        law_removed_files_are_told(orphans, front, p);
        let f = removed_among(orphans, front);
        let r = removed_among(orphans, outcomes);
        assert(outcomes[n] == outcomes.last());
        if f.contains(p) {
            let i = choose|i: int|
                0 <= i < front.len() && #[trigger] front[i] is Removed && orphans[i] == p;
            assert(outcomes[i] is Removed);
            let k = f.index_of(p);
            assert(r[k] == p);
        }
        if outcomes[n] is Removed && orphans[n] == p {
            assert(r[f.len() as int] == p);
        }
        if r.contains(p) && !f.contains(p) {
            let k = r.index_of(p);
            if k < f.len() {
                assert(f[k] == p);
            }
        }
        if exists|i: int|
            0 <= i < outcomes.len() && #[trigger] outcomes[i] is Removed && orphans[i] == p {
            let i = choose|i: int|
                0 <= i < outcomes.len() && #[trigger] outcomes[i] is Removed && orphans[i] == p;
            if i < n {
                assert(front[i] is Removed);
            }
        }
    }
}

/// The report on orphans tells how many there are, and then each of them by
/// its path, in their order.
pub proof fn law_every_orphan_is_reported(
    kind: Seq<char>,
    unit: Seq<char>,
    orphans: Seq<Seq<Part>>,
    i: int,
)
    ensures
        orphan_lines(kind, unit, orphans).len() == orphans.len() + 1,
        holds(orphan_lines(kind, unit, orphans)[0], "found "@ + dec(orphans.len()) + " "@ + kind),
        0 <= i < orphans.len() ==> (kind + ": "@ + shown(orphans[i])) == orphan_lines(
            kind,
            unit,
            orphans,
        )[i + 1],
{
    let head = "found "@ + dec(orphans.len()) + " "@ + kind;
    lemma_holds(Seq::empty(), head, unit + "(s)"@);
    assert(orphan_lines(kind, unit, orphans)[0] =~= Seq::<char>::empty() + head + (unit + "(s)"@));
}

/// The attempts to remove files go on, one orphan after the other, as long as
/// some are left and none has failed.
pub proof fn law_removal_goes_on_until_a_failure(n: nat, outcomes: Seq<Removal>)
    requires
        outcomes.len() <= n,
        forall|i: int| 0 <= i < outcomes.len() ==> !(#[trigger] outcomes[i] is Failed),
    ensures
        in_course(n, outcomes),
        is_over(n, outcomes) <==> outcomes.len() == n,
        forall|o: Removal|
            outcomes.len() < n && o is Failed ==> in_course(n, #[trigger] outcomes.push(o))
                && is_over(n, outcomes.push(o)),
{
    assert forall|o: Removal| outcomes.len() < n && o is Failed implies in_course(
        n,
        #[trigger] outcomes.push(o),
    ) && is_over(n, outcomes.push(o)) by {
        let next = outcomes.push(o);
        assert forall|i: int| 0 <= i < next.len() - 1 implies !(#[trigger] next[i] is Failed) by {
            assert(next[i] == outcomes[i]);
        }
        assert(next.last() == o);
    }
}

/// An image in the frames tree whose name without `.jpg` has no extension of
/// its own is no frame, and always an orphan.
pub proof fn law_image_without_number_is_an_orphan(
    root: Seq<Part>,
    frames_dir: Seq<char>,
    present: Set<Seq<Part>>,
    way: Seq<Part>,
    name: Seq<u8>,
)
    requires
        name_ok(encode_utf8(frames_dir)),
        name_ok(name),
        root.len() > 0,
        forall|i: int| 0 < i < name.len() ==> #[trigger] name[i] != 0x2e,
    ensures
        frame_orphan(
            root,
            frames_dir,
            present,
            root.push(Part::Normal(encode_utf8(frames_dir))) + way.push(
                Part::Normal(name + seq![0x2eu8, 0x6au8, 0x70u8, 0x67u8]),
            ),
        ),
{
    let d = encode_utf8(frames_dir);
    let full = name + seq![0x2eu8, 0x6au8, 0x70u8, 0x67u8];
    let t = root.push(Part::Normal(d));
    let rel = way.push(Part::Normal(full));
    let p = t + rel;
    lemma_parse_name(d);
    assert(tree(root, frames_dir) =~= t);
    law_files_in_directories(way, name, jpg());
    law_files_in_directories(t + way, name, jpg());
    law_extension_follows_the_last_dot(name, Seq::empty(), name);
    assert(full =~= name.push(dot()) + jpg());
    assert(p =~= (t + way).push(Part::Normal(full)));
    assert(p.take(t.len() as int) =~= t);
    assert(p.skip(t.len() as int) =~= rel);
}

/// An image outside its tree is never passed over: it is told as an error.
pub proof fn law_images_outside_the_tree_are_told(
    files: Seq<Seq<Part>>,
    base: Seq<Part>,
    i: int,
)
    requires
        0 <= i < files.len(),
    ensures
        extension(files[i]) == Some(seq![0x6au8, 0x70u8, 0x67u8]) && strip_prefix(files[i], base) is None
            ==> strays(files, base),
        strays(files, base) ==> exists|k: int|
            0 <= k < files.len() && extension(#[trigger] files[k]) == Some(
                seq![0x6au8, 0x70u8, 0x67u8],
            ) && strip_prefix(files[k], base) is None,
{
    assert(jpg() =~= seq![0x6au8, 0x70u8, 0x67u8]);
    if strays(files, base) {
        let k = choose|k: int|
            0 <= k < files.len() && is_jpg(#[trigger] files[k]) && !base.is_prefix_of(files[k]);
        assert(extension(files[k]) == Some(seq![0x6au8, 0x70u8, 0x67u8]));
    }
}

/// A directory may have been emptied exactly where some removed file lay in it
/// or at any depth below it.
pub proof fn law_directories_above_removed_files(
    removed: Seq<Seq<Part>>,
    dir: Seq<Part>,
    below: Seq<Part>,
)
    ensures
        below.len() > 0 && removed.contains(dir + below) ==> above_removed(removed, dir),
        above_removed(removed, dir) ==> exists|rest: Seq<Part>|
            rest.len() > 0 && #[trigger] removed.contains(dir + rest),
{
    if below.len() > 0 && removed.contains(dir + below) {
        let i = removed.index_of(dir + below);
        assert((dir + below).take(dir.len() as int) =~= dir);
        assert(dir.is_prefix_of(removed[i]));
    }
    if above_removed(removed, dir) {
        let i = choose|i: int|
            0 <= i < removed.len() && dir.is_prefix_of(#[trigger] removed[i]) && dir.len()
                < removed[i].len();
        let rest = removed[i].skip(dir.len() as int);
        assert(dir + rest =~= removed[i]);
        assert(removed.contains(dir + rest));
    }
}

/// The names that are cleared before a video's frames are written anew are
/// those of its frames with four digits, and no others.
pub proof fn law_cleared_names(video: Seq<u8>, name: Seq<u8>)
    ensures
        is_frame_name(video, name) <==> exists|n: nat|
            n < 10000 && name == video + #[trigger] frame_suffix(n),
{
    if exists|n: nat| n < 10000 && name == video + #[trigger] frame_suffix(n) {
        let n = choose|n: nat| n < 10000 && name == video + #[trigger] frame_suffix(n);
        law_clearing_spares_other_videos(video, video, n);
    }
    if is_frame_name(video, name) {
        let n = lemma_number_in_name(video, name);
        assert(name == video + frame_suffix(n));
    }
}

proof fn lemma_places(a: nat, b: nat, c: nat, d: nat)
    requires
        a < 10,
        b < 10,
        c < 10,
        d < 10,
    ensures
        ({
            let n = 1000 * a + 100 * b + 10 * c + d;
            n < 10000 && n / 1000 == a && n / 100 % 10 == b && n / 10 % 10 == c && n % 10 == d
        }),
{
    let y = 10 * a + b;
    let x = 10 * y + c;
    let n = 10 * x + d;
    assert(y / 10 == a && y % 10 == b);
    assert(x / 10 == y && x % 10 == c);
    assert(n / 10 == x && n % 10 == d);
    assert(n / 100 == n / 10 / 10);
    assert(n / 1000 == n / 10 / 10 / 10);
    assert(n == 1000 * a + 100 * b + 10 * c + d);
}

/// The number of a frame, read from its name.
proof fn lemma_number_in_name(video: Seq<u8>, name: Seq<u8>) -> (n: nat)
    requires
        is_frame_name(video, name),
    ensures
        n < 10000,
        name == video + frame_suffix(n),
{
    let k = video.len() as int;
    let part = name.subrange(k + 1, k + 5);
    assert(is_digit_byte(name[k + 1]));
    assert(is_digit_byte(name[k + 2]));
    assert(is_digit_byte(name[k + 3]));
    assert(is_digit_byte(name[k + 4]));
    let a = (name[k + 1] - 0x30) as nat;
    let b = (name[k + 2] - 0x30) as nat;
    let c = (name[k + 3] - 0x30) as nat;
    let d = (name[k + 4] - 0x30) as nat;
    let n = 1000 * a + 100 * b + 10 * c + d;
    lemma_places(a, b, c, d);
    lemma_four_digits(n);
    assert(part =~= frame_number(n));
    assert(name =~= name.take(k) + seq![name[k]] + part + name.skip(k + 5));
    assert(name =~= video + (seq![0x2eu8] + frame_number(n) + dot_jpg()));
    n
}

/// Every frame of the video that lies in its directory is cleared.
pub proof fn law_every_frame_is_cleared(
    dir: Seq<Part>,
    video: Seq<u8>,
    names: Seq<Seq<u8>>,
    n: nat,
)
    requires
        n < 10000,
        names.contains(video + frame_suffix(n)),
    ensures
        frame_files(dir, video, names).contains(
            dir.push(Part::Normal(video + frame_suffix(n))),
        ),
{
    let name = video + frame_suffix(n);
    let keep = |m: Seq<u8>| is_frame_name(video, m);
    law_clearing_spares_other_videos(video, video, n);
    let k = names.index_of(name);
    names.lemma_filter_contains(keep, k);
    let f = names.filter(keep);
    let i = f.index_of(name);
    assert(frame_files(dir, video, names)[i] == dir.push(Part::Normal(name)));
}

/// An outcome that fits its description is the same count, or the same words.
pub proof fn law_count_outcomes(r: Result<usize, String>, s: Result<nat, Seq<char>>)
    requires
        count_outcome(r, s),
    ensures
        r is Ok <==> s is Ok,
        r matches Ok(n) ==> n == s->Ok_0,
        r matches Err(m) ==> m@ == s->Err_0,
{
}

}
