//! The work on each video, and the count of what has been done.
use vstd::prelude::*;
use crate::frames::{offsets, sample_points};
use crate::path::{parent, shown, Part, Path};
use crate::paths::{
    frame_file_path, frame_number, frame_of, frame_parent_dir, lemma_frame_number_injective,
    mirror_dir, PathError,
};
use crate::picture::{
    clamped_quality, is_thumb, jpeg_file, law_bytes_determine_picture, png_picture, raster_bytes,
    raster_ok, thumbnail, write_jpeg, Picture, Raster,
};
use crate::sheet::{
    cell_x, cell_y, composite_sheet, height_of_sheet, law_frames_appear_in_their_cells,
    lemma_sheet_size, rasters, sheet_height, sheet_raster, sheet_width, width_of_sheet, Layout,
};
use crate::strings::{dec, decimal, holds, lemma_holds, pad_left, padded_left, texts};

verus! {

// ---- what to do with a video ----

/// What to do with a video.
#[derive(Debug, Clone, Copy, PartialEq, Eq, Structural)]
pub enum Task {
    /// Its sheet is there: only probe it, for the statistics.
    Skip,
    /// Make its sheet.
    Process,
}

/// What to do with a video, given whether its sheet is there and whether sheets
/// are to be made anew.
pub open spec fn task(force: bool, sheet_exists: bool) -> Task {
    if sheet_exists && !force {
        Task::Skip
    } else {
        Task::Process
    }
}

/// What to do with a video.
pub fn task_for(force: bool, sheet_exists: bool) -> (r: Task)
    ensures
        r == task(force, sheet_exists),
{
    if sheet_exists && !force {
        Task::Skip
    } else {
        Task::Process
    }
}

/// The number of workers: as many as asked for, and at least one.
pub fn worker_count(jobs: usize) -> (r: usize)
    ensures
        r == if jobs == 0 {
            1
        } else {
            jobs as int
        },
{
    if jobs == 0 {
        1
    } else {
        jobs
    }
}

/// The words for a video that could not be worked on.
pub open spec fn corrupt_text(src: Seq<Part>, reason: Seq<char>) -> Seq<char> {
    shown(src) + ": corrupt ("@ + reason + ")"@
}

/// The words for a video that could not be worked on.
pub fn corrupt(src: &Path, reason: &str) -> (r: String)
    ensures
        r@ == corrupt_text(src@, reason@),
{
    let mut m: String = src.display();
    m.append(": corrupt (");
    m.append(reason);
    m.append(")");
    m
}

// ---- progress ----

/// How many videos have been worked on so far.
pub struct Progress {
    total: usize,
    done: usize,
    skipped: usize,
}

/// The view of a `Progress`.
pub struct Counts {
    pub total: nat,
    pub done: nat,
    pub skipped: nat,
}

impl View for Progress {
    type V = Counts;

    closed spec fn view(&self) -> Counts {
        Counts {
            total: self.total as nat,
            done: self.done as nat,
            skipped: self.skipped as nat,
        }
    }
}

/// The line for a sheet that was written, the `n`th of `total`.
pub open spec fn wrote_text(n: nat, total: nat, dest: Seq<Part>) -> Seq<char> {
    "["@ + dec(n) + "/"@ + dec(total) + "] wrote "@ + shown(dest)
}

/// The line for a video whose sheet is there, the `n`th of them.
pub open spec fn skipped_text(n: nat, src: Seq<Part>, dest: Seq<Part>) -> Seq<char> {
    shown(src) + ": sheet already exists, skipping ("@ + dec(n)
        + " skipped so far; use --force to regenerate) -> "@ + shown(dest)
}

/// The lines at the end of a run.
pub open spec fn closing_lines(processed: nat, total: nat, skipped: nat) -> Seq<Seq<char>> {
    let first = "processed "@ + dec(processed) + "/"@ + dec(total) + " video(s)"@;
    if skipped > 0 {
        seq![
            first,
            "skipped "@ + dec(skipped)
                + " video(s) with existing sheet(s); pass --force to regenerate"@,
        ]
    } else {
        seq![first]
    }
}

impl Progress {
    /// No more videos have been worked on than there are.
    #[verifier::type_invariant]
    closed spec fn wf(self) -> bool {
        self.done + self.skipped <= self.total
    }

    /// Nothing has been done yet.
    pub fn new(total: usize) -> (r: Progress)
        ensures
            r@ == (Counts { total: total as nat, done: 0, skipped: 0 }),
    {
        Progress { total, done: 0, skipped: 0 }
    }

    /// One more sheet has been written.
    pub fn wrote(&mut self, dest: &Path) -> (r: String)
        requires
            old(self)@.done + old(self)@.skipped < old(self)@.total,
        ensures
            final(self)@ == (Counts { done: old(self)@.done + 1, ..old(self)@ }),
            r@ == wrote_text(final(self)@.done, final(self)@.total, dest@),
    {
        proof {
            use_type_invariant(&*self);
        }
        self.done = self.done + 1;
        let mut m: String = "[".to_owned();
        let n: String = decimal(self.done as u64);
        let t: String = decimal(self.total as u64);
        let d: String = dest.display();
        m.append(n.as_str());
        m.append("/");
        m.append(t.as_str());
        m.append("] wrote ");
        m.append(d.as_str());
        m
    }

    /// One more video has been skipped.
    pub fn skip(&mut self, src: &Path, dest: &Path) -> (r: String)
        requires
            old(self)@.done + old(self)@.skipped < old(self)@.total,
        ensures
            final(self)@ == (Counts { skipped: old(self)@.skipped + 1, ..old(self)@ }),
            r@ == skipped_text(final(self)@.skipped, src@, dest@),
    {
        proof {
            use_type_invariant(&*self);
        }
        self.skipped = self.skipped + 1;
        let mut m: String = src.display();
        let n: String = decimal(self.skipped as u64);
        let d: String = dest.display();
        m.append(": sheet already exists, skipping (");
        m.append(n.as_str());
        m.append(" skipped so far; use --force to regenerate) -> ");
        m.append(d.as_str());
        m
    }

    /// How many sheets were written once every video has been worked on.
    pub fn processed(&self) -> (r: usize)
        ensures
            r == self@.total - self@.skipped,
            self@.done + self@.skipped == self@.total ==> r == self@.done,
    {
        proof {
            use_type_invariant(self);
        }
        self.total - self.skipped
    }

    /// The lines at the end of a run.
    pub fn closing(&self) -> (r: Vec<String>)
        ensures
            self@.skipped <= self@.total,
            texts(r@) == closing_lines(
                (self@.total - self@.skipped) as nat,
                self@.total,
                self@.skipped,
            ),
    {
        proof {
            use_type_invariant(self);
        }
        let mut r: Vec<String> = Vec::new();
        let mut first: String = "processed ".to_owned();
        let n: String = decimal(self.processed() as u64);
        let t: String = decimal(self.total as u64);
        first.append(n.as_str());
        first.append("/");
        first.append(t.as_str());
        first.append(" video(s)");
        r.push(first);
        if self.skipped > 0 {
            let mut second: String = "skipped ".to_owned();
            let k: String = decimal(self.skipped as u64);
            second.append(k.as_str());
            second.append(" video(s) with existing sheet(s); pass --force to regenerate");
            r.push(second);
        }
        assert(texts(r@) =~= closing_lines(
            (self@.total - self@.skipped) as nat,
            self@.total,
            self@.skipped,
        ));
        r
    }
}

/// The counts after a run of tasks.
pub open spec fn counts_after(tasks: Seq<Task>) -> Counts
    decreases tasks.len(),
{
    if tasks.len() == 0 {
        Counts { total: 0, done: 0, skipped: 0 }
    } else {
        let c = counts_after(tasks.drop_last());
        if tasks.last() is Skip {
            Counts { total: c.total + 1, skipped: c.skipped + 1, ..c }
        } else {
            Counts { total: c.total + 1, done: c.done + 1, ..c }
        }
    }
}

/// Every video is either skipped or processed, and with `force` none is
/// skipped.
pub proof fn law_every_video_is_worked_on(exists: Seq<bool>, force: bool)
    ensures
        ({
            let c = counts_after(exists.map_values(|e: bool| task(force, e)));
            &&& c.total == exists.len()
            &&& c.done + c.skipped == c.total
            &&& force ==> c.skipped == 0
        }),
    decreases exists.len(),
{
    let f = |e: bool| task(force, e);
    if exists.len() > 0 {
        law_every_video_is_worked_on(exists.drop_last(), force);
        assert(exists.map_values(f).drop_last() =~= exists.drop_last().map_values(f));
    }
}

// ---- the frames of one video ----

/// The work on one frame.
#[derive(Debug)]
pub struct FrameJob {
    /// Its number, from one on.
    pub number: u32,
    /// The point at which it is sampled, as a fraction of the duration.
    pub point: (usize, usize),
    /// The name of the intermediate image.
    pub png: String,
    /// Where it is kept, if it is.
    pub keep: Option<Path>,
}

/// The name of the intermediate image of the `i`th frame, from zero on.
pub open spec fn png_name(i: nat) -> Seq<char> {
    "frame_"@ + pad_left(dec(i), 4, '0') + ".png"@
}

/// Whether `j` is the work on the `i`th of `n` frames, from zero on.
pub open spec fn is_job(
    j: FrameJob,
    i: int,
    n: nat,
    root: Seq<Part>,
    frames_dir: Seq<char>,
    src: Seq<Part>,
    keep: bool,
) -> bool {
    &&& j.number == i + 1
    &&& j.point == sample_points(n)[i]
    &&& j.png@ == png_name(i as nat)
    &&& match j.keep {
        Some(p) => keep && frame_of(root, frames_dir, src, (i + 1) as nat) == Ok::<
            Seq<Part>,
            PathError,
        >(p@),
        None => !keep,
    }
}

fn png_file(i: u32) -> (r: String)
    ensures
        r@ == png_name(i as nat),
{
    let d: String = decimal(i as u64);
    let t: String = padded_left(d.as_str(), 4, '0');
    let mut r: String = "frame_".to_owned();
    r.append(t.as_str());
    r.append(".png");
    r
}

/// The number of cells of a grid, unless there are too many.
pub fn cell_count(cols: u32, rows: u32) -> (r: Option<u32>)
    ensures
        match r {
            Some(n) => n == cols * rows,
            None => cols * rows > u32::MAX,
        },
{
    cols.checked_mul(rows)
}

/// The work on the frames of a video.
#[derive(Debug)]
pub struct FramePlan {
    /// The directory from which the video's earlier frames go first, if any do.
    pub clear: Option<Path>,
    /// The work on each frame.
    pub jobs: Vec<FrameJob>,
}

/// Whether `p` is the work on the `n` frames of a video.
pub open spec fn is_plan(
    p: FramePlan,
    n: nat,
    root: Seq<Part>,
    frames_dir: Seq<char>,
    src: Seq<Part>,
    keep: bool,
) -> bool {
    &&& match p.clear {
        Some(d) => keep && mirror_dir(root, frames_dir, src) == Ok::<Seq<Part>, PathError>(d@),
        None => !keep,
    }
    &&& p.jobs@.len() == n
    &&& forall|i: int|
        0 <= i < n ==> is_job(#[trigger] p.jobs@[i], i, n, root, frames_dir, src, keep)
}

/// The work on the frames of a video: one for every cell of its grid, in the
/// order of the cells. Only where frames are kept are earlier ones cleared.
pub fn frame_jobs(root: &Path, frames_dir: &str, src: &Path, n: u32, keep: bool) -> (r: Result<
    FramePlan,
    PathError,
>)
    requires
        0 < n < u32::MAX,
    ensures
        match r {
            Ok(p) => is_plan(p, n as nat, root@, frames_dir@, src@, keep),
            Err(e) => keep && frame_of(root@, frames_dir@, src@, 1) == Err::<Seq<Part>, PathError>(
                e,
            ),
        },
        keep && frame_of(root@, frames_dir@, src@, 1) is Err ==> r is Err,
{
    let clear: Option<Path> = if keep {
        match frame_parent_dir(root, frames_dir, src) {
            Ok(d) => Some(d),
            Err(e) => {
                return Err(e);
            },
        }
    } else {
        None
    };
    let points: Vec<(usize, usize)> = offsets(n as usize);
    let mut jobs: Vec<FrameJob> = Vec::new();
    for i in 0..n
        invariant
            0 < n < u32::MAX,
            points@ == sample_points(n as nat),
            jobs@.len() == i,
            forall|k: int|
                0 <= k < i ==> is_job(
                    #[trigger] jobs@[k],
                    k,
                    n as nat,
                    root@,
                    frames_dir@,
                    src@,
                    keep,
                ),
            keep && i > 0 ==> frame_of(root@, frames_dir@, src@, 1) is Ok,
    {
        let to: Option<Path> = if keep {
            match frame_file_path(root, frames_dir, src, i + 1) {
                Ok(p) => Some(p),
                Err(e) => {
                    return Err(e);
                },
            }
        } else {
            None
        };
        jobs.push(
            FrameJob { number: i + 1, point: points[i as usize], png: png_file(i), keep: to },
        );
    }
    Ok(FramePlan { clear, jobs })
}

/// Without frames to keep, nothing in the frames tree is written or removed;
/// with them, all that is written lies in the directory that is cleared first.
pub proof fn law_frames_tree_is_left_alone(
    p: FramePlan,
    n: nat,
    root: Seq<Part>,
    frames_dir: Seq<char>,
    src: Seq<Part>,
    keep: bool,
)
    requires
        is_plan(p, n, root, frames_dir, src, keep),
    ensures
        !keep ==> p.clear is None && forall|i: int|
            0 <= i < p.jobs@.len() ==> (#[trigger] p.jobs@[i]).keep is None,
        keep ==> forall|i: int|
            0 <= i < p.jobs@.len() ==> (#[trigger] p.jobs@[i]).keep is Some && parent(
                p.jobs@[i].keep->0@,
            ) == Some(p.clear->0@),
{
    if keep {
        assert forall|i: int| 0 <= i < p.jobs@.len() implies (#[trigger] p.jobs@[i]).keep is Some
            && parent(p.jobs@[i].keep->0@) == Some(p.clear->0@) by {
            assert(is_job(p.jobs@[i], i, n, root, frames_dir, src, keep));
            let f = p.jobs@[i].keep->0@;
            assert(f.drop_last() =~= p.clear->0@);
        }
    }
}

/// The words for an intermediate image that could not be read.
pub open spec fn decoding_text(i: nat, reason: Seq<char>) -> Seq<char> {
    "decoding frame "@ + dec(i) + " ("@ + reason + ")"@
}

/// The words for an intermediate image that could not be read.
pub fn decoding_failure(i: u32, reason: &str) -> (r: String)
    ensures
        r@ == decoding_text(i as nat, reason@),
{
    let mut m: String = "decoding frame ".to_owned();
    let d: String = decimal(i as u64);
    m.append(d.as_str());
    m.append(" (");
    m.append(reason);
    m.append(")");
    m
}

// ---- the sheet of one video ----

/// The sheet of a video while its frames come in.
pub struct SheetWork {
    cols: u32,
    rows: u32,
    thumb_w: u32,
    thumb_h: u32,
    frames: Vec<Picture>,
}

/// The view of a `SheetWork`.
#[verifier::ext_equal]
pub struct WorkInfo {
    pub cols: u32,
    pub rows: u32,
    pub thumb_w: u32,
    pub thumb_h: u32,
    pub frames: Seq<Raster>,
}

impl View for SheetWork {
    type V = WorkInfo;

    closed spec fn view(&self) -> WorkInfo {
        WorkInfo {
            cols: self.cols,
            rows: self.rows,
            thumb_w: self.thumb_w,
            thumb_h: self.thumb_h,
            frames: rasters(self.frames@),
        }
    }
}

/// The frames so far all have the size of a thumbnail.
pub open spec fn work_ok(w: WorkInfo) -> bool {
    &&& w.thumb_w <= 65535
    &&& w.thumb_h <= 65535
    &&& forall|k: int|
        0 <= k < w.frames.len() ==> raster_ok(#[trigger] w.frames[k]) && w.frames[k].width
            == w.thumb_w && w.frames[k].rows.len() == w.thumb_h
}

/// Whether the frames so far are those of the given intermediate images, in
/// their order.
pub open spec fn fed(w: WorkInfo, pngs: Seq<Seq<u8>>) -> bool {
    &&& w.frames.len() == pngs.len()
    &&& forall|k: int|
        0 <= k < pngs.len() ==> is_thumb(#[trigger] w.frames[k], pngs[k], w.thumb_w, w.thumb_h)
}

/// The file of a finished sheet under the given header, if it is not too large
/// for one.
pub open spec fn sheet_file(w: WorkInfo, header: Raster, header_h: u32, layout: Layout) -> Option<
    Seq<u8>,
> {
    let width = sheet_width(layout, w.cols, w.thumb_w);
    let height = sheet_height(layout, w.rows, w.thumb_h, header_h);
    if 1 <= width <= 65535 && 1 <= height <= 65535 {
        Some(
            jpeg_file(
                raster_bytes(
                    sheet_raster(
                        header,
                        header_h,
                        w.frames,
                        w.cols,
                        w.rows,
                        w.thumb_w,
                        w.thumb_h,
                        layout,
                    ).rows,
                ),
                width as u32,
                height as u32,
                clamped_quality(layout.jpeg_q),
            ),
        )
    } else {
        None
    }
}

impl SheetWork {
    #[verifier::type_invariant]
    closed spec fn wf(self) -> bool {
        work_ok(self@)
    }

    /// A sheet that has no frames yet.
    pub fn new(cols: u32, rows: u32, thumb_w: u32, thumb_h: u32) -> (r: SheetWork)
        requires
            thumb_w <= 65535,
            thumb_h <= 65535,
        ensures
            r@ == (WorkInfo { cols, rows, thumb_w, thumb_h, frames: Seq::empty() }),
            fed(r@, Seq::empty()),
    {
        let frames: Vec<Picture> = Vec::new();
        let ghost w = SheetWork { cols, rows, thumb_w, thumb_h, frames };
        assert(w@.frames =~= Seq::empty());
        SheetWork { cols, rows, thumb_w, thumb_h, frames }
    }

    /// How many frames there are so far.
    pub fn len(&self) -> (r: usize)
        ensures
            r == self@.frames.len(),
    {
        self.frames.len()
    }

    /// Takes the next frame from its intermediate image. An image that cannot
    /// be read leaves everything as it is.
    pub fn add_frame(&mut self, png: &[u8]) -> (r: Result<(), String>)
        requires
            old(self)@.frames.len() < u32::MAX,
        ensures
            match r {
                Ok(_) => final(self)@.frames.len() == old(self)@.frames.len() + 1 && is_thumb(
                    final(self)@.frames.last(),
                    png@,
                    old(self)@.thumb_w,
                    old(self)@.thumb_h,
                ) && final(self)@ == (WorkInfo {
                    frames: old(self)@.frames.push(final(self)@.frames.last()),
                    ..old(self)@
                }),
                Err(m) => final(self)@ == old(self)@ && m@ == decoding_text(
                    old(self)@.frames.len(),
                    png_picture(png@)->Err_0,
                ),
            },
            r is Ok <==> png_picture(png@) is Ok,
            r is Ok ==> forall|pngs: Seq<Seq<u8>>| #[trigger]
                fed(old(self)@, pngs) ==> fed(final(self)@, pngs.push(png@)),
    {
        proof {
            use_type_invariant(&*self);
        }
        let ghost was = self@;
        match thumbnail(png, self.thumb_w, self.thumb_h) {
            Err(e) => {
                let m: String = decoding_failure(self.frames.len() as u32, e.as_str());
                Err(m)
            },
            Ok(p) => {
                let mut frames: Vec<Picture> = Vec::new();
                std::mem::swap(&mut frames, &mut self.frames);
                assert(rasters(frames@) =~= was.frames);
                proof {
                    use_type_invariant(&p);
                }
                let ghost top = p@;
                frames.push(p);
                assert(rasters(frames@) =~= was.frames.push(top));
                self.frames = frames;
                Ok(())
            },
        }
    }

    /// Puts the sheet together under its header and writes it as a JPEG file,
    /// if it is not too large for one. Every cell has its frame.
    pub fn finish(&self, header: &Picture, header_h: u32, layout: &Layout) -> (r: Option<Vec<u8>>)
        requires
            self@.frames.len() == self@.cols * self@.rows,
        ensures
            match r {
                Some(f) => sheet_file(self@, header@, header_h, *layout) == Some(f@),
                None => sheet_file(self@, header@, header_h, *layout) is None,
            },
    {
        let width: u32 = match width_of_sheet(layout, self.cols, self.thumb_w) {
            Some(n) => n,
            None => 0,
        };
        let height: u32 = match height_of_sheet(layout, self.rows, self.thumb_h, header_h) {
            Some(n) => n,
            None => 0,
        };
        if width < 1 || width > 65535 || height < 1 || height > 65535 {
            return None;
        }
        let sheet: Picture = composite_sheet(
            header,
            header_h,
            &self.frames,
            self.cols,
            self.rows,
            self.thumb_w,
            self.thumb_h,
            layout,
        );
        proof {
            lemma_sheet_size(
                header@,
                header_h,
                self@.frames,
                self.cols,
                self.rows,
                self.thumb_w,
                self.thumb_h,
                *layout,
            );
        }
        write_jpeg(&sheet, layout.jpeg_q)
    }
}

/// Two works of the same shape that were fed the same images give the same
/// sheet, byte for byte.
pub proof fn law_same_images_same_sheet(
    a: WorkInfo,
    b: WorkInfo,
    pngs: Seq<Seq<u8>>,
    header: Raster,
    header_h: u32,
    layout: Layout,
)
    requires
        fed(a, pngs),
        fed(b, pngs),
        a.cols == b.cols,
        a.rows == b.rows,
        a.thumb_w == b.thumb_w,
        a.thumb_h == b.thumb_h,
    ensures
        a == b,
        sheet_file(a, header, header_h, layout) == sheet_file(b, header, header_h, layout),
{
    assert forall|k: int| 0 <= k < pngs.len() implies a.frames[k] == b.frames[k] by {
        assert(is_thumb(a.frames[k], pngs[k], a.thumb_w, a.thumb_h));
        assert(is_thumb(b.frames[k], pngs[k], b.thumb_w, b.thumb_h));
        law_bytes_determine_picture(a.frames[k], b.frames[k]);
    }
    assert(a.frames =~= b.frames);
}

/// The images that the given jobs yield, `shot` giving the frame of the video
/// at a point of it.
pub open spec fn images(
    jobs: Seq<FrameJob>,
    shot: spec_fn((usize, usize)) -> Seq<u8>,
) -> Seq<Seq<u8>> {
    Seq::new(jobs.len(), |i: int| shot(jobs[i].point))
}

/// Keeping frames changes nothing about a sheet: the same frames are sampled,
/// each once, at the same points and by way of the same intermediate images,
/// and the sheets that come of them are the same, byte for byte.
pub proof fn law_keeping_frames_changes_no_sheet(
    kept: FramePlan,
    plain: FramePlan,
    n: nat,
    root: Seq<Part>,
    frames_dir: Seq<char>,
    src: Seq<Part>,
    shot: spec_fn((usize, usize)) -> Seq<u8>,
    a: WorkInfo,
    b: WorkInfo,
    header: Raster,
    header_h: u32,
    layout: Layout,
)
    requires
        is_plan(kept, n, root, frames_dir, src, true),
        is_plan(plain, n, root, frames_dir, src, false),
        fed(a, images(kept.jobs@, shot)),
        fed(b, images(plain.jobs@, shot)),
        a.cols == b.cols,
        a.rows == b.rows,
        a.thumb_w == b.thumb_w,
        a.thumb_h == b.thumb_h,
    ensures
        kept.jobs@.len() == plain.jobs@.len(),
        forall|i: int|
            0 <= i < n ==> (#[trigger] kept.jobs@[i]).number == plain.jobs@[i].number
                && kept.jobs@[i].point == plain.jobs@[i].point && kept.jobs@[i].png@
                == plain.jobs@[i].png@,
        sheet_file(a, header, header_h, layout) == sheet_file(b, header, header_h, layout),
{
    assert forall|i: int| 0 <= i < n implies (#[trigger] kept.jobs@[i]).number
        == plain.jobs@[i].number && kept.jobs@[i].point == plain.jobs@[i].point
        && kept.jobs@[i].png@ == plain.jobs@[i].png@ by {
        assert(is_job(kept.jobs@[i], i, n, root, frames_dir, src, true));
        assert(is_job(plain.jobs@[i], i, n, root, frames_dir, src, false));
    }
    assert(images(kept.jobs@, shot) =~= images(plain.jobs@, shot));
    law_same_images_same_sheet(a, b, images(kept.jobs@, shot), header, header_h, layout);
}

/// A finished sheet shows every image it was fed, scaled to a thumbnail, whole
/// in its cell.
pub proof fn law_sheet_shows_every_image(
    w: WorkInfo,
    pngs: Seq<Seq<u8>>,
    header: Raster,
    header_h: u32,
    layout: Layout,
    k: int,
    i: int,
    j: int,
)
    requires
        fed(w, pngs),
        w.cols > 0,
        pngs.len() == w.cols * w.rows,
        0 <= k < pngs.len(),
        0 <= i < w.thumb_w,
        0 <= j < w.thumb_h,
    ensures
        is_thumb(w.frames[k], pngs[k], w.thumb_w, w.thumb_h),
        ({
            let p = sheet_raster(
                header,
                header_h,
                w.frames,
                w.cols,
                w.rows,
                w.thumb_w,
                w.thumb_h,
                layout,
            );
            let x = cell_x(layout, k % (w.cols as int), w.thumb_w);
            let y = cell_y(layout, k / (w.cols as int), w.thumb_h, header_h);
            &&& 0 <= y + j < p.rows.len()
            &&& 0 <= x + i < p.width
            &&& p.rows[y + j][x + i] == w.frames[k].rows[j][i]
        }),
{
    assert forall|m: int| 0 <= m < w.frames.len() implies raster_ok(#[trigger] w.frames[m])
        && w.frames[m].width == w.thumb_w && w.frames[m].rows.len() == w.thumb_h by {
        assert(is_thumb(w.frames[m], pngs[m], w.thumb_w, w.thumb_h));
    }
    law_frames_appear_in_their_cells(
        header,
        header_h,
        w.frames,
        w.cols,
        w.rows,
        w.thumb_w,
        w.thumb_h,
        layout,
        k,
        i,
        j,
    );
}

/// A video is passed over exactly where its sheet is there and sheets are not
/// to be made anew; in every other case its sheet is made.
pub proof fn law_only_existing_sheets_are_skipped(force: bool, sheet_exists: bool)
    ensures
        task(force, sheet_exists) is Skip <==> sheet_exists && !force,
        task(force, sheet_exists) is Process <==> force || !sheet_exists,
{
}

/// Of the videos whose sheets are there each is skipped, and of the others
/// each gets a sheet; with `force` every video gets one.
pub proof fn law_skipped_and_written_add_up(exists: Seq<bool>, force: bool)
    ensures
        ({
            let c = counts_after(exists.map_values(|e: bool| task(force, e)));
            let there = exists.filter(|e: bool| e).len();
            &&& !force ==> c.skipped == there && c.done == exists.len() - there
            &&& force ==> c.skipped == 0 && c.done == exists.len()
        }),
    decreases exists.len(),
{
    let f = |e: bool| task(force, e);
    reveal(Seq::filter);
    if exists.len() > 0 {
        law_skipped_and_written_add_up(exists.drop_last(), force);
        assert(exists.map_values(f).drop_last() =~= exists.drop_last().map_values(f));
    }
}

/// The frames of a video are numbered from one on, in the order in which they
/// are sampled, at evenly spaced points strictly inside the video; each goes
/// through an image of its own, and where frames are kept each is kept under
/// its number.
pub proof fn law_frames_are_numbered_in_order(
    p: FramePlan,
    n: nat,
    root: Seq<Part>,
    frames_dir: Seq<char>,
    src: Seq<Part>,
    keep: bool,
    i: int,
    j: int,
)
    requires
        is_plan(p, n, root, frames_dir, src, keep),
        0 < n < u32::MAX,
        0 <= i < n,
        0 <= j < n,
    ensures
        p.jobs@.len() == n,
        p.jobs@[i].number == i + 1,
        p.jobs@[i].point.0 == i + 1,
        p.jobs@[i].point.1 == n + 1,
        p.jobs@[i].png@ == p.jobs@[j].png@ ==> i == j,
        p.jobs@[i].keep is Some <==> keep,
        keep ==> frame_of(root, frames_dir, src, (i + 1) as nat) == Ok::<Seq<Part>, PathError>(
            p.jobs@[i].keep->0@,
        ),
{
    assert(is_job(p.jobs@[i], i, n, root, frames_dir, src, keep));
    assert(is_job(p.jobs@[j], j, n, root, frames_dir, src, keep));
    crate::frames::law_samples_skip_both_ends(n, i);
    if p.jobs@[i].png@ == p.jobs@[j].png@ {
        lemma_png_names_differ(i as nat, j as nat);
    }
}

proof fn lemma_png_names_differ(i: nat, j: nat)
    requires
        png_name(i) == png_name(j),
    ensures
        i == j,
{
    let a = pad_left(dec(i), 4, '0');
    let b = pad_left(dec(j), 4, '0');
    let head = "frame_"@;
    let n = head.len() as int;
    let tail = ".png"@;
    assert(png_name(i).len() == n + a.len() + tail.len());
    assert(png_name(j).len() == n + b.len() + tail.len());
    assert(png_name(i).subrange(n, n + a.len()) =~= a);
    assert(png_name(j).subrange(n, n + b.len()) =~= b);
    assert(frame_number(i) =~= frame_number(j));
    lemma_frame_number_injective(i, j);
}

/// The lines of a run tell how far it is: each sheet with its place and the
/// number of videos, each video passed over with its sheet, and at the end how
/// many were processed and, where any were passed over, how many.
pub proof fn law_progress_is_told(
    n: nat,
    total: nat,
    skipped: nat,
    src: Seq<Part>,
    dest: Seq<Part>,
)
    ensures
        wrote_text(n, total, dest) == "["@ + dec(n) + "/"@ + dec(total) + "] wrote "@ + shown(dest),
        shown(src).is_prefix_of(skipped_text(n, src, dest)),
        shown(dest).is_suffix_of(skipped_text(n, src, dest)),
        holds(skipped_text(n, src, dest), dec(n) + " skipped so far"@),
        closing_lines(n, total, skipped).len() == if skipped > 0 {
            2int
        } else {
            1int
        },
        holds(closing_lines(n, total, skipped)[0], dec(n) + "/"@ + dec(total)),
        skipped > 0 ==> holds(closing_lines(n, total, skipped)[1], "skipped "@ + dec(skipped)),
{
    let s = skipped_text(n, src, dest);
    let gap = ": sheet already exists, skipping ("@;
    let mid = " skipped so far; use --force to regenerate) -> "@;
    let word = " skipped so far"@;
    reveal_strlit(" skipped so far; use --force to regenerate) -> ");
    reveal_strlit(" skipped so far");
    assert(s.take(shown(src).len() as int) =~= shown(src));
    assert(s.skip(s.len() - shown(dest).len()) =~= shown(dest));
    assert(mid =~= word + mid.skip(word.len() as int));
    assert(s =~= (shown(src) + gap) + (dec(n) + word) + (mid.skip(word.len() as int) + shown(dest)));
    lemma_holds(shown(src) + gap, dec(n) + word, mid.skip(word.len() as int) + shown(dest));
    let ratio = dec(n) + "/"@ + dec(total);
    assert(closing_lines(n, total, skipped)[0] =~= "processed "@ + ratio + " video(s)"@);
    lemma_holds("processed "@, ratio, " video(s)"@);
    if skipped > 0 {
        let rest = " video(s) with existing sheet(s); pass --force to regenerate"@;
        assert(closing_lines(n, total, skipped)[1] =~= Seq::<char>::empty() + ("skipped "@ + dec(
            skipped,
        )) + rest);
        lemma_holds(Seq::empty(), "skipped "@ + dec(skipped), rest);
    }
}

/// A finished sheet has a file exactly where both its sides lie from 1 to
/// 65535 pixels, and that holds the whole sheet at its own size and in the
/// quality that was asked for.
pub proof fn law_which_sheets_have_files(
    w: WorkInfo,
    header: Raster,
    header_h: u32,
    layout: Layout,
)
    ensures
        sheet_file(w, header, header_h, layout) is Some <==> 1 <= sheet_width(
            layout,
            w.cols,
            w.thumb_w,
        ) <= 65535 && 1 <= sheet_height(layout, w.rows, w.thumb_h, header_h) <= 65535,
        1 <= layout.jpeg_q <= 100 && sheet_file(w, header, header_h, layout) is Some ==> {
            let p = sheet_raster(
                header,
                header_h,
                w.frames,
                w.cols,
                w.rows,
                w.thumb_w,
                w.thumb_h,
                layout,
            );
            sheet_file(w, header, header_h, layout) == Some(
                jpeg_file(
                    raster_bytes(p.rows),
                    sheet_width(layout, w.cols, w.thumb_w) as u32,
                    sheet_height(layout, w.rows, w.thumb_h, header_h) as u32,
                    layout.jpeg_q as u8,
                ),
            )
        },
{
}

/// What is said of a video that could not be worked on names the video and the
/// reason, and of a frame that could not be read its number and the reason.
pub proof fn law_failures_name_their_cause(src: Seq<Part>, i: nat, reason: Seq<char>)
    ensures
        shown(src).is_prefix_of(corrupt_text(src, reason)),
        holds(corrupt_text(src, reason), "("@ + reason + ")"@),
        holds(decoding_text(i, reason), "frame "@ + dec(i) + " ("@ + reason + ")"@),
{
    let c = corrupt_text(src, reason);
    let none = Seq::<char>::empty();
    reveal_strlit(": corrupt (");
    reveal_strlit("(");
    reveal_strlit("decoding frame ");
    reveal_strlit("frame ");
    let mid = ": corrupt ("@;
    assert(c.take(shown(src).len() as int) =~= shown(src));
    assert(mid =~= mid.take(10) + "("@);
    assert(c =~= (shown(src) + mid.take(10)) + ("("@ + reason + ")"@) + none);
    lemma_holds(shown(src) + mid.take(10), "("@ + reason + ")"@, none);
    let head = "decoding frame "@;
    let part = "frame "@ + dec(i) + " ("@ + reason + ")"@;
    assert(head =~= head.take(9) + "frame "@);
    assert(decoding_text(i, reason) =~= head.take(9) + part + none);
    lemma_holds(head.take(9), part, none);
}

}
