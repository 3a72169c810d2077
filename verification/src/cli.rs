//! The command line: what the flags may be, how the font is found, in which
//! order a run proceeds, and how it ends.
use vstd::prelude::*;
use crate::frames::{exit_text, shown_exit};
use crate::strings::{contains, lossy, lossy_text, same, trim, trimmed};

verus! {

// ---- errors ----

/// Why a run ended before it was complete.
#[derive(Debug)]
pub enum RunError {
    /// Something was wrong before any work began.
    Hard(String),
    /// The work itself failed.
    Runtime(String),
}

/// The view of a `RunError`.
pub enum RunErrorInfo {
    Hard(Seq<char>),
    Runtime(Seq<char>),
}

impl View for RunError {
    type V = RunErrorInfo;

    open spec fn view(&self) -> RunErrorInfo {
        match self {
            RunError::Hard(m) => RunErrorInfo::Hard(m@),
            RunError::Runtime(m) => RunErrorInfo::Runtime(m@),
        }
    }
}

/// The exit code of a run: 0 where it is complete, 2 for an error before any
/// work began, and 1 for one in the work itself.
pub open spec fn exit_code(e: Option<RunErrorInfo>) -> u8 {
    match e {
        None => 0,
        Some(RunErrorInfo::Hard(_)) => 2,
        Some(RunErrorInfo::Runtime(_)) => 1,
    }
}

impl RunError {
    /// The exit code for this error.
    pub fn code(&self) -> (r: u8)
        ensures
            r == exit_code(Some(self@)),
    {
        match self {
            RunError::Hard(_) => 2,
            RunError::Runtime(_) => 1,
        }
    }

    /// The words for this error.
    pub fn message(&self) -> (r: &str)
        ensures
            r@ == match self@ {
                RunErrorInfo::Hard(m) => m,
                RunErrorInfo::Runtime(m) => m,
            },
    {
        match self {
            RunError::Hard(m) => m.as_str(),
            RunError::Runtime(m) => m.as_str(),
        }
    }
}

// ---- flags ----

/// The flags that are checked before anything else.
#[derive(Debug)]
pub struct Flags {
    pub quality: u32,
    /// Whether the thumbnail area is a number above zero, or no number at all.
    pub thumb_mp_ok: bool,
    pub font_size: u32,
    pub screens_dir: String,
    pub frames_dir: String,
}

/// A name for an output tree: not empty, and without separators.
pub open spec fn single_component(dir: Seq<char>) -> bool {
    dir.len() > 0 && !dir.contains('/') && !dir.contains('\\')
}

/// What is wrong with the flags; the first thing, where there are several.
pub open spec fn flag_problem(f: Flags) -> Option<Seq<char>> {
    if f.quality < 1 || f.quality > 100 {
        Some("--quality must be in 1..=100"@)
    } else if !f.thumb_mp_ok {
        Some("--thumb-mp must be > 0"@)
    } else if f.font_size == 0 {
        Some("--font-size must be >= 1"@)
    } else if !single_component(f.screens_dir@) {
        Some("--screens-dir must be a single path component"@)
    } else if !single_component(f.frames_dir@) {
        Some("--frames-dir must be a single path component"@)
    } else if f.frames_dir@ == f.screens_dir@ {
        Some("--frames-dir must differ from --screens-dir"@)
    } else {
        None
    }
}

fn one_component(dir: &str) -> (r: bool)
    ensures
        r == single_component(dir@),
{
    !dir.is_empty() && !contains(dir, '/') && !contains(dir, '\\')
}

/// Checks the flags.
pub fn check_flags(f: &Flags) -> (r: Result<(), RunError>)
    ensures
        match r {
            Ok(_) => flag_problem(*f) is None,
            Err(e) => flag_problem(*f) matches Some(m) && e@ == RunErrorInfo::Hard(m),
        },
{
    if f.quality < 1 || f.quality > 100 {
        Err(RunError::Hard("--quality must be in 1..=100".to_owned()))
    } else if !f.thumb_mp_ok {
        Err(RunError::Hard("--thumb-mp must be > 0".to_owned()))
    } else if f.font_size == 0 {
        Err(RunError::Hard("--font-size must be >= 1".to_owned()))
    } else if !one_component(f.screens_dir.as_str()) {
        Err(RunError::Hard("--screens-dir must be a single path component".to_owned()))
    } else if !one_component(f.frames_dir.as_str()) {
        Err(RunError::Hard("--frames-dir must be a single path component".to_owned()))
    } else if same(f.frames_dir.as_str(), f.screens_dir.as_str()) {
        Err(RunError::Hard("--frames-dir must differ from --screens-dir".to_owned()))
    } else {
        Ok(())
    }
}

// ---- surroundings ----

/// What is wrong with the root, if it is no directory or cannot be resolved.
pub open spec fn root_problem(shown: Seq<char>, is_dir: bool, reason: Option<Seq<char>>) -> Option<
    Seq<char>,
> {
    if !is_dir {
        Some("ROOT "@ + shown + " is not a directory"@)
    } else {
        match reason {
            Some(e) => Some("ROOT "@ + shown + ": "@ + e),
            None => None,
        }
    }
}

/// Checks the root: `shown` is its spelling, and `reason` why it could not be
/// resolved, if it could not.
pub fn check_root(shown: &str, is_dir: bool, reason: Option<String>) -> (r: Result<(), RunError>)
    ensures
        match r {
            Ok(_) => root_problem(shown@, is_dir, crate::probe::opt_text(reason)) is None,
            Err(e) => root_problem(shown@, is_dir, crate::probe::opt_text(reason)) matches Some(m)
                && e@ == RunErrorInfo::Hard(m),
        },
{
    let mut m: String = "ROOT ".to_owned();
    m.append(shown);
    if !is_dir {
        m.append(" is not a directory");
        return Err(RunError::Hard(m));
    }
    match reason {
        Some(e) => {
            m.append(": ");
            m.append(e.as_str());
            Err(RunError::Hard(m))
        },
        None => Ok(()),
    }
}

/// What is wrong with the tools that a run needs.
pub open spec fn tool_problem(has_ffmpeg: bool, has_ffprobe: bool) -> Option<Seq<char>> {
    if !has_ffmpeg {
        Some("ffmpeg not found on PATH"@)
    } else if !has_ffprobe {
        Some("ffprobe not found on PATH"@)
    } else {
        None
    }
}

/// Checks the tools that a run needs.
pub fn check_tools(has_ffmpeg: bool, has_ffprobe: bool) -> (r: Result<(), RunError>)
    ensures
        match r {
            Ok(_) => tool_problem(has_ffmpeg, has_ffprobe) is None,
            Err(e) => tool_problem(has_ffmpeg, has_ffprobe) matches Some(m) && e@
                == RunErrorInfo::Hard(m),
        },
{
    if !has_ffmpeg {
        Err(RunError::Hard("ffmpeg not found on PATH".to_owned()))
    } else if !has_ffprobe {
        Err(RunError::Hard("ffprobe not found on PATH".to_owned()))
    } else {
        Ok(())
    }
}

// ---- the font ----

/// What the standard library's `Debug` makes of a text.
pub uninterp spec fn debug_text(s: Seq<char>) -> Seq<char>;

/// The `Debug` of `str`: the text in quotes, with what cannot stand there
/// escaped. How it is escaped is only named.
#[verifier::external_body]
fn quoted(s: &str) -> (r: String)
    ensures
        r@ == debug_text(s@),
{
    format!("{s:?}")
}

/// How a font is found.
#[derive(Debug, Clone, Copy, PartialEq, Eq, Structural)]
pub enum FontSource {
    /// The flag names a font file.
    File,
    /// The flag names a family, and `fc-match` tells the file.
    Family,
}

/// The words for a family name where `fc-match` is missing.
pub open spec fn no_fc_match_text() -> Seq<char> {
    "fc-match not found on PATH (needed to resolve --font family names; pass --font <PATH> to a font file, or install fontconfig)"@
}

/// How a font is found: a file is taken as it is, and anything else is a family
/// name, which takes `fc-match`.
pub fn resolve_font_path(is_file: bool, has_fc_match: bool) -> (r: Result<FontSource, RunError>)
    ensures
        match r {
            Ok(FontSource::File) => is_file,
            Ok(FontSource::Family) => !is_file && has_fc_match,
            Err(e) => !is_file && !has_fc_match && e@ == RunErrorInfo::Hard(no_fc_match_text()),
        },
{
    if is_file {
        Ok(FontSource::File)
    } else if has_fc_match {
        Ok(FontSource::Family)
    } else {
        Err(
            RunError::Hard(
                "fc-match not found on PATH (needed to resolve --font family names; pass --font <PATH> to a font file, or install fontconfig)".to_owned(),
            ),
        )
    }
}

/// How `fc-match` ended.
#[derive(Debug)]
pub enum FcMatch {
    /// It could not be started, for the given reason.
    NotStarted(String),
    /// It ended badly, with the given exit code.
    Failed(Option<i32>),
    /// It ended well, and wrote this.
    Wrote(Vec<u8>),
}

/// The font file for a family, or what is wrong; `quoted` is the family as it
/// is shown.
pub open spec fn family_result(quoted: Seq<char>, outcome: FcMatch) -> Result<
    Seq<char>,
    RunErrorInfo,
> {
    match outcome {
        FcMatch::NotStarted(e) => Err(RunErrorInfo::Hard("running fc-match: "@ + e@)),
        FcMatch::Failed(code) => Err(
            RunErrorInfo::Hard(
                "fc-match failed for --font "@ + quoted + " (exit "@ + exit_text(code) + ")"@,
            ),
        ),
        FcMatch::Wrote(out) => {
            let file = trim(lossy_text(out@));
            if file.len() == 0 {
                Err(
                    RunErrorInfo::Hard(
                        "fc-match returned no font file for --font "@ + quoted
                            + "; is the family installed?"@,
                    ),
                )
            } else {
                Ok(file)
            }
        },
    }
}

/// A result is the one that `s` describes.
pub open spec fn text_outcome(
    r: Result<String, RunError>,
    s: Result<Seq<char>, RunErrorInfo>,
) -> bool {
    match r {
        Ok(t) => s == Ok::<Seq<char>, RunErrorInfo>(t@),
        Err(e) => s == Err::<Seq<char>, RunErrorInfo>(e@),
    }
}

/// The font file for a family as `fc-match` told it; `shown` is the family as
/// it is shown in messages.
pub fn family_file_shown(shown: &str, outcome: FcMatch) -> (r: Result<String, RunError>)
    ensures
        text_outcome(r, family_result(shown@, outcome)),
{
    match outcome {
        FcMatch::NotStarted(e) => {
            let mut m: String = "running fc-match: ".to_owned();
            m.append(e.as_str());
            Err(RunError::Hard(m))
        },
        FcMatch::Failed(code) => {
            let mut m: String = "fc-match failed for --font ".to_owned();
            let c: String = shown_exit(code);
            m.append(shown);
            m.append(" (exit ");
            m.append(c.as_str());
            m.append(")");
            Err(RunError::Hard(m))
        },
        FcMatch::Wrote(out) => {
            let t: String = lossy(out.as_slice());
            let file: String = trimmed(t.as_str());
            if file.as_str().is_empty() {
                let mut m: String = "fc-match returned no font file for --font ".to_owned();
                m.append(shown);
                m.append("; is the family installed?");
                Err(RunError::Hard(m))
            } else {
                Ok(file)
            }
        },
    }
}

/// The font file for a family as `fc-match` told it.
pub fn family_file(family: &str, outcome: FcMatch) -> (r: Result<String, RunError>)
    ensures
        text_outcome(r, family_result(debug_text(family@), outcome)),
{
    let q: String = quoted(family);
    family_file_shown(q.as_str(), outcome)
}

/// The words for a font file that could not be read.
pub open spec fn font_file_text(path: Seq<char>, reason: Seq<char>) -> Seq<char> {
    "reading font "@ + path + ": "@ + reason
}

/// The error for a font file that could not be read.
pub fn font_file_error(path: &str, reason: &str) -> (r: RunError)
    ensures
        r@ == RunErrorInfo::Hard(font_file_text(path@, reason@)),
{
    let mut m: String = "reading font ".to_owned();
    m.append(path);
    m.append(": ");
    m.append(reason);
    RunError::Hard(m)
}

// ---- the course of a run ----

/// The stages of a run.
#[derive(Debug, Clone, Copy, PartialEq, Eq, Structural)]
pub enum Stage {
    /// Checking the flags.
    Flags,
    /// Reading the list of video extensions.
    Exts,
    /// Finding the root.
    Root,
    /// Finding the tools.
    Tools,
    /// Loading the font.
    Font,
    /// Making the sheets.
    Sheets,
    /// Looking for orphan sheets.
    Orphans,
    /// Looking for orphan frames.
    FrameOrphans,
    /// Removing orphan sheets.
    Cleanup,
    /// Removing orphan frames.
    FrameCleanup,
    /// Printing the statistics.
    Stats,
    /// Reporting the files that were left out.
    Skipped,
    /// The run is complete.
    Done,
}

/// What a run is to do.
#[derive(Debug, Clone, Copy, PartialEq, Eq, Structural)]
pub struct Plan {
    /// Whether orphans are removed.
    pub cleanup: bool,
    /// Whether there are any videos.
    pub any_videos: bool,
}

/// Whether a stage comes before any work.
pub open spec fn before_work(s: Stage) -> bool {
    s is Flags || s is Exts || s is Root || s is Tools || s is Font
}

/// The first stage of the report: there are no statistics over no videos.
pub open spec fn report_stage(plan: Plan) -> Stage {
    if plan.any_videos {
        Stage::Stats
    } else {
        Stage::Skipped
    }
}

/// The stage after `s`: orphans are removed only where that is wanted.
pub open spec fn stage_after(s: Stage, plan: Plan) -> Stage {
    match s {
        Stage::Flags => Stage::Exts,
        Stage::Exts => Stage::Root,
        Stage::Root => Stage::Tools,
        Stage::Tools => Stage::Font,
        Stage::Font => Stage::Sheets,
        Stage::Sheets => Stage::Orphans,
        Stage::Orphans => Stage::FrameOrphans,
        Stage::FrameOrphans => if plan.cleanup {
            Stage::Cleanup
        } else {
            report_stage(plan)
        },
        Stage::Cleanup => Stage::FrameCleanup,
        Stage::FrameCleanup => report_stage(plan),
        Stage::Stats => Stage::Skipped,
        Stage::Skipped => Stage::Done,
        Stage::Done => Stage::Done,
    }
}

/// What follows a stage: the next one, or the end where it failed.
pub open spec fn step(s: Stage, plan: Plan, failure: Option<Seq<char>>) -> Result<
    Stage,
    RunErrorInfo,
> {
    match failure {
        None => Ok(stage_after(s, plan)),
        Some(m) => if before_work(s) {
            Err(RunErrorInfo::Hard(m))
        } else {
            Err(RunErrorInfo::Runtime(m))
        },
    }
}

/// What follows a stage: the next one, or the end where it failed.
pub fn advance(s: Stage, plan: Plan, outcome: Result<(), String>) -> (r: Result<Stage, RunError>)
    ensures
        match r {
            Ok(n) => outcome is Ok && n == stage_after(s, plan),
            Err(e) => outcome matches Err(m) && Err::<Stage, RunErrorInfo>(e@) == step(
                s,
                plan,
                Some(m@),
            ),
        },
{
    match outcome {
        Err(m) => match s {
            Stage::Flags | Stage::Exts | Stage::Root | Stage::Tools | Stage::Font => Err(
                RunError::Hard(m),
            ),
            _ => Err(RunError::Runtime(m)),
        },
        Ok(_) => Ok(
            match s {
                Stage::Flags => Stage::Exts,
                Stage::Exts => Stage::Root,
                Stage::Root => Stage::Tools,
                Stage::Tools => Stage::Font,
                Stage::Font => Stage::Sheets,
                Stage::Sheets => Stage::Orphans,
                Stage::Orphans => Stage::FrameOrphans,
                Stage::FrameOrphans => if plan.cleanup {
                    Stage::Cleanup
                } else if plan.any_videos {
                    Stage::Stats
                } else {
                    Stage::Skipped
                },
                Stage::Cleanup => Stage::FrameCleanup,
                Stage::FrameCleanup => if plan.any_videos {
                    Stage::Stats
                } else {
                    Stage::Skipped
                },
                Stage::Stats => Stage::Skipped,
                Stage::Skipped => Stage::Done,
                Stage::Done => Stage::Done,
            },
        ),
    }
}

/// How a run ends whose stages, from `s` on, come out as `outcomes` say:
/// nothing where it is complete.
pub open spec fn run_from(
    s: Stage,
    plan: Plan,
    outcomes: spec_fn(Stage) -> Option<Seq<char>>,
    fuel: nat,
) -> Option<RunErrorInfo>
    decreases fuel,
{
    if fuel == 0 || s is Done {
        None
    } else {
        match step(s, plan, outcomes(s)) {
            Err(e) => Some(e),
            Ok(next) => run_from(next, plan, outcomes, (fuel - 1) as nat),
        }
    }
}

/// How a whole run ends.
pub open spec fn run_result(plan: Plan, outcomes: spec_fn(Stage) -> Option<Seq<char>>) -> Option<
    RunErrorInfo,
> {
    run_from(Stage::Flags, plan, outcomes, 12)
}

/// Whether a stage is part of a run.
pub open spec fn takes_part(s: Stage, plan: Plan) -> bool {
    &&& !(s is Done)
    &&& s is Cleanup || s is FrameCleanup ==> plan.cleanup
    &&& s is Stats ==> plan.any_videos
}

/// The exit code tells how far a run came: 0 only where every stage succeeded,
/// 2 only where one failed before any work, and 1 only where all of those
/// succeeded and a later one failed.
pub proof fn law_exit_codes(plan: Plan, outcomes: spec_fn(Stage) -> Option<Seq<char>>)
    ensures
        exit_code(run_result(plan, outcomes)) == 0 <==> forall|s: Stage|
            takes_part(s, plan) ==> #[trigger] outcomes(s) is None,
        exit_code(run_result(plan, outcomes)) == 2 <==> exists|s: Stage|
            before_work(s) && #[trigger] outcomes(s) is Some,
        exit_code(run_result(plan, outcomes)) == 1 <==> (forall|s: Stage|
            before_work(s) ==> #[trigger] outcomes(s) is None) && exists|s: Stage|
            takes_part(s, plan) && !before_work(s) && #[trigger] outcomes(s) is Some,
{
    reveal_with_fuel(run_from, 13);
    let a = outcomes(Stage::Flags);
    let b = outcomes(Stage::Exts);
    let c = outcomes(Stage::Root);
    let d = outcomes(Stage::Tools);
    let e = outcomes(Stage::Font);
    let f = outcomes(Stage::Sheets);
    let g = outcomes(Stage::Orphans);
    let h = outcomes(Stage::FrameOrphans);
    let i = outcomes(Stage::Cleanup);
    let j = outcomes(Stage::FrameCleanup);
    let k = outcomes(Stage::Stats);
    let l = outcomes(Stage::Skipped);
    assert(before_work(Stage::Flags) && before_work(Stage::Exts) && before_work(Stage::Root)
        && before_work(Stage::Tools) && before_work(Stage::Font));
}


/// The stages that a run enters from `s` on, their outcomes being as `outcomes`
/// say: up to the first that fails.
pub open spec fn course_from(
    s: Stage,
    plan: Plan,
    outcomes: spec_fn(Stage) -> Option<Seq<char>>,
    fuel: nat,
) -> Seq<Stage>
    decreases fuel,
{
    if fuel == 0 || s is Done {
        Seq::empty()
    } else {
        match step(s, plan, outcomes(s)) {
            Err(_) => seq![s],
            Ok(next) => seq![s] + course_from(next, plan, outcomes, (fuel - 1) as nat),
        }
    }
}

/// The stages that a run enters, in their order.
pub open spec fn course(plan: Plan, outcomes: spec_fn(Stage) -> Option<Seq<char>>) -> Seq<Stage> {
    course_from(Stage::Flags, plan, outcomes, 12)
}

/// Wherever `t` is entered, `s` was entered before it.
pub open spec fn comes_first(run: Seq<Stage>, s: Stage, t: Stage) -> bool {
    forall|j: int|
        0 <= j < run.len() && #[trigger] run[j] == t ==> exists|i: int|
            0 <= i < j && #[trigger] run[i] == s
}

/// The stages of a run in which nothing fails.
spec fn whole_course(plan: Plan) -> Seq<Stage> {
    let start = seq![
        Stage::Flags,
        Stage::Exts,
        Stage::Root,
        Stage::Tools,
        Stage::Font,
        Stage::Sheets,
        Stage::Orphans,
        Stage::FrameOrphans,
    ];
    let sweep = if plan.cleanup {
        start.push(Stage::Cleanup).push(Stage::FrameCleanup)
    } else {
        start
    };
    if plan.any_videos {
        sweep.push(Stage::Stats).push(Stage::Skipped)
    } else {
        sweep.push(Stage::Skipped)
    }
}

/// A run goes through a beginning of its whole course, and through all of it
/// where nothing on the way fails.
proof fn lemma_course_from(
    plan: Plan,
    outcomes: spec_fn(Stage) -> Option<Seq<char>>,
    i: int,
    fuel: nat,
) -> (k: int)
    requires
        0 <= i < whole_course(plan).len(),
        fuel >= whole_course(plan).len() - i,
    ensures
        i < k <= whole_course(plan).len(),
        course_from(whole_course(plan)[i], plan, outcomes, fuel) == whole_course(plan).subrange(i, k),
        forall|j: int| i <= j < k - 1 ==> outcomes(#[trigger] whole_course(plan)[j]) is None,
        k < whole_course(plan).len() ==> outcomes(whole_course(plan)[k - 1]) is Some,
    decreases whole_course(plan).len() - i,
{
    let all = whole_course(plan);
    let s = all[i];
    if outcomes(s) is Some {
        assert(all.subrange(i, i + 1) =~= seq![s]);
        i + 1
    } else if i + 1 == all.len() {
        assert(stage_after(s, plan) is Done);
        assert(course_from(Stage::Done, plan, outcomes, (fuel - 1) as nat) =~= Seq::empty());
        assert(all.subrange(i, i + 1) =~= seq![s] + Seq::<Stage>::empty());
        i + 1
    } else {
        assert(stage_after(s, plan) == all[i + 1]);
        let k = lemma_course_from(plan, outcomes, i + 1, (fuel - 1) as nat);
        assert(all.subrange(i, k) =~= seq![s] + all.subrange(i + 1, k));
        k
    }
}

proof fn lemma_course(plan: Plan, outcomes: spec_fn(Stage) -> Option<Seq<char>>) -> (k: int)
    ensures
        0 < k <= whole_course(plan).len(),
        course(plan, outcomes) == whole_course(plan).take(k),
        forall|j: int| 0 <= j < k - 1 ==> outcomes(#[trigger] whole_course(plan)[j]) is None,
        k < whole_course(plan).len() ==> outcomes(whole_course(plan)[k - 1]) is Some,
{
    let k = lemma_course_from(plan, outcomes, 0, 12);
    assert(whole_course(plan).subrange(0, k) =~= whole_course(plan).take(k));
    k
}

/// In every run the stages come in order, each at most once: everything is
/// checked before any sheet is made, the sheets are made before orphans are
/// looked for, orphans are looked for before they are removed, and the
/// statistics and the report on skipped files come only after the sheets are
/// made and the sweep is over.
pub proof fn law_stages_come_in_order(plan: Plan, outcomes: spec_fn(Stage) -> Option<Seq<char>>)
    ensures
        course(plan, outcomes).no_duplicates(),
        !course(plan, outcomes).contains(Stage::Done),
        comes_first(course(plan, outcomes), Stage::Flags, Stage::Exts),
        comes_first(course(plan, outcomes), Stage::Exts, Stage::Root),
        comes_first(course(plan, outcomes), Stage::Root, Stage::Tools),
        comes_first(course(plan, outcomes), Stage::Tools, Stage::Font),
        comes_first(course(plan, outcomes), Stage::Font, Stage::Sheets),
        comes_first(course(plan, outcomes), Stage::Sheets, Stage::Orphans),
        comes_first(course(plan, outcomes), Stage::Orphans, Stage::FrameOrphans),
        comes_first(course(plan, outcomes), Stage::FrameOrphans, Stage::Cleanup),
        comes_first(course(plan, outcomes), Stage::Cleanup, Stage::FrameCleanup),
        comes_first(course(plan, outcomes), Stage::FrameOrphans, Stage::Stats),
        comes_first(course(plan, outcomes), Stage::FrameOrphans, Stage::Skipped),
        plan.cleanup ==> comes_first(course(plan, outcomes), Stage::FrameCleanup, Stage::Stats),
        plan.cleanup ==> comes_first(course(plan, outcomes), Stage::FrameCleanup, Stage::Skipped),
        plan.any_videos ==> comes_first(course(plan, outcomes), Stage::Stats, Stage::Skipped),
{
    let k = lemma_course(plan, outcomes);
    let all = whole_course(plan);
    let run = course(plan, outcomes);
    assert(all[0] == Stage::Flags && all[1] == Stage::Exts && all[2] == Stage::Root && all[3]
        == Stage::Tools && all[4] == Stage::Font && all[5] == Stage::Sheets && all[6]
        == Stage::Orphans && all[7] == Stage::FrameOrphans);
    assert(all.no_duplicates());
    if plan.cleanup {
        assert(all[8] == Stage::Cleanup && all[9] == Stage::FrameCleanup);
    }
    lemma_first(run, all, k, Stage::Flags, 0, Stage::Exts, 1);
    lemma_first(run, all, k, Stage::Exts, 1, Stage::Root, 2);
    lemma_first(run, all, k, Stage::Root, 2, Stage::Tools, 3);
    lemma_first(run, all, k, Stage::Tools, 3, Stage::Font, 4);
    lemma_first(run, all, k, Stage::Font, 4, Stage::Sheets, 5);
    lemma_first(run, all, k, Stage::Sheets, 5, Stage::Orphans, 6);
    lemma_first(run, all, k, Stage::Orphans, 6, Stage::FrameOrphans, 7);
    let c: int = if plan.cleanup {
        10
    } else {
        8
    };
    if plan.cleanup {
        lemma_first(run, all, k, Stage::FrameOrphans, 7, Stage::Cleanup, 8);
        lemma_first(run, all, k, Stage::Cleanup, 8, Stage::FrameCleanup, 9);
    }
    if plan.any_videos {
        lemma_first(run, all, k, Stage::FrameOrphans, 7, Stage::Stats, c);
        lemma_first(run, all, k, Stage::FrameOrphans, 7, Stage::Skipped, c + 1);
        lemma_first(run, all, k, Stage::Stats, c, Stage::Skipped, c + 1);
        if plan.cleanup {
            lemma_first(run, all, k, Stage::FrameCleanup, 9, Stage::Stats, c);
            lemma_first(run, all, k, Stage::FrameCleanup, 9, Stage::Skipped, c + 1);
        }
    } else {
        lemma_first(run, all, k, Stage::FrameOrphans, 7, Stage::Skipped, c);
        if plan.cleanup {
            lemma_first(run, all, k, Stage::FrameCleanup, 9, Stage::Skipped, c);
        }
    }
}

/// One stage of a course comes before another.
proof fn lemma_first(run: Seq<Stage>, all: Seq<Stage>, k: int, s: Stage, i: int, t: Stage, j: int)
    requires
        0 <= k <= all.len(),
        run == all.take(k),
        0 <= i < j < all.len(),
        all[i] == s,
        all[j] == t,
        all.no_duplicates(),
    ensures
        comes_first(run, s, t),
{
    assert forall|n: int| 0 <= n < run.len() && #[trigger] run[n] == t implies exists|m: int|
        0 <= m < n && #[trigger] run[m] == s by {
        assert(all[n] == t);
        assert(n == j);
        assert(run[i] == s);
    }
}

/// A run goes on exactly as long as nothing fails. Where everything it enters
/// succeeds it makes the sheets, looks for orphans of both kinds and reports
/// the skipped files; it removes orphans exactly where that is wanted, and
/// prints statistics exactly where there are videos.
pub proof fn law_runs_do_what_is_planned(plan: Plan, outcomes: spec_fn(Stage) -> Option<Seq<char>>)
    ensures
        course(plan, outcomes).len() > 0,
        forall|i: int|
            0 <= i < course(plan, outcomes).len() - 1 ==> outcomes(
                #[trigger] course(plan, outcomes)[i],
            ) is None,
        !plan.cleanup ==> !course(plan, outcomes).contains(Stage::Cleanup) && !course(
            plan,
            outcomes,
        ).contains(Stage::FrameCleanup),
        !plan.any_videos ==> !course(plan, outcomes).contains(Stage::Stats),
        outcomes(course(plan, outcomes).last()) is None ==> {
            let run = course(plan, outcomes);
            &&& run.contains(Stage::Sheets)
            &&& run.contains(Stage::Orphans)
            &&& run.contains(Stage::FrameOrphans)
            &&& run.contains(Stage::Skipped)
            &&& plan.cleanup ==> run.contains(Stage::Cleanup) && run.contains(Stage::FrameCleanup)
            &&& plan.any_videos ==> run.contains(Stage::Stats)
        },
{
    let k = lemma_course(plan, outcomes);
    let all = whole_course(plan);
    let run = course(plan, outcomes);
    assert forall|i: int| 0 <= i < run.len() - 1 implies outcomes(#[trigger] run[i]) is None by {
        assert(run[i] == all[i]);
    }
    assert(run.last() == all[k - 1]);
    if outcomes(run.last()) is None {
        assert(run =~= all);
        assert(all[5] == Stage::Sheets && all[6] == Stage::Orphans && all[7] == Stage::FrameOrphans);
        assert(all[all.len() - 1] == Stage::Skipped);
        if plan.cleanup {
            assert(all[8] == Stage::Cleanup && all[9] == Stage::FrameCleanup);
        }
        if plan.any_videos {
            assert(all[all.len() - 2] == Stage::Stats);
        }
    }
}

/// A run that fails while it makes the sheets has looked for no orphan, removed
/// nothing and printed no report.
pub proof fn law_failed_sheets_end_the_run(
    plan: Plan,
    outcomes: spec_fn(Stage) -> Option<Seq<char>>,
)
    requires
        outcomes(Stage::Sheets) is Some,
    ensures
        !course(plan, outcomes).contains(Stage::Orphans),
        !course(plan, outcomes).contains(Stage::FrameOrphans),
        !course(plan, outcomes).contains(Stage::Cleanup),
        !course(plan, outcomes).contains(Stage::FrameCleanup),
        !course(plan, outcomes).contains(Stage::Stats),
        !course(plan, outcomes).contains(Stage::Skipped),
{
    let k = lemma_course(plan, outcomes);
    let all = whole_course(plan);
    assert(all[5] == Stage::Sheets);
    assert(k <= 6);
    assert forall|i: int| 0 <= i < k implies #[trigger] course(plan, outcomes)[i] == all[i] by {}
}

/// What goes wrong with the flags, the extensions, the root, the tools or the
/// font is an error before any work; what goes wrong in any other stage is one
/// in the work itself. Either way the words are handed on, and nothing but a
/// failure ends a run early.
pub proof fn law_failures_are_classified(s: Stage, plan: Plan, words: Seq<char>)
    ensures
        s is Flags || s is Exts || s is Root || s is Tools || s is Font ==> step(
            s,
            plan,
            Some(words),
        ) == Err::<Stage, RunErrorInfo>(RunErrorInfo::Hard(words)),
        s is Sheets || s is Orphans || s is FrameOrphans || s is Cleanup || s is FrameCleanup
            || s is Stats || s is Skipped ==> step(s, plan, Some(words)) == Err::<
            Stage,
            RunErrorInfo,
        >(RunErrorInfo::Runtime(words)),
        step(s, plan, None) is Ok,
        exit_code(Some(RunErrorInfo::Hard(words))) == 2,
        exit_code(Some(RunErrorInfo::Runtime(words))) == 1,
        exit_code(None) == 0,
{
}

/// The flags pass exactly where the quality lies from 1 to 100, the thumbnail
/// area and the font size are above zero, and the two output trees have
/// different names that are not empty and hold no separator of either kind.
pub proof fn law_good_flags(f: Flags)
    ensures
        flag_problem(f) is None <==> 1 <= f.quality <= 100 && f.thumb_mp_ok && f.font_size >= 1
            && f.screens_dir@.len() > 0 && f.frames_dir@.len() > 0 && f.screens_dir@ != f.frames_dir@
            && (forall|i: int|
            0 <= i < f.screens_dir@.len() ==> #[trigger] f.screens_dir@[i] != '/'
                && f.screens_dir@[i] != '\\') && (forall|i: int|
            0 <= i < f.frames_dir@.len() ==> #[trigger] f.frames_dir@[i] != '/' && f.frames_dir@[i]
                != '\\'),
{
    lemma_single_component(f.screens_dir@);
    lemma_single_component(f.frames_dir@);
}

proof fn lemma_single_component(dir: Seq<char>)
    ensures
        single_component(dir) <==> dir.len() > 0 && forall|i: int|
            0 <= i < dir.len() ==> #[trigger] dir[i] != '/' && dir[i] != '\\',
{
    if forall|i: int| 0 <= i < dir.len() ==> #[trigger] dir[i] != '/' && dir[i] != '\\' {
        assert(!dir.contains('/'));
        assert(!dir.contains('\\'));
    } else {
        let i = choose|i: int| 0 <= i < dir.len() && !(#[trigger] dir[i] != '/' && dir[i] != '\\');
        assert(dir.contains(dir[i]));
    }
}

/// What is said of wrong flags names the wrong one, and the first of them where
/// there are several.
pub proof fn law_first_bad_flag_is_named(f: Flags)
    ensures
        f.quality < 1 || f.quality > 100 ==> flag_problem(f) == Some(
            "--quality must be in 1..=100"@,
        ),
        ({
            let bad_area = !f.thumb_mp_ok;
            let bad_size = f.font_size == 0;
            let g = Flags { quality: 1, thumb_mp_ok: true, font_size: 1, ..f };
            &&& 1 <= f.quality <= 100 && bad_area ==> flag_problem(f) == Some(
                "--thumb-mp must be > 0"@,
            )
            &&& 1 <= f.quality <= 100 && !bad_area && bad_size ==> flag_problem(f) == Some(
                "--font-size must be >= 1"@,
            )
            &&& 1 <= f.quality <= 100 && !bad_area && !bad_size ==> flag_problem(f) == flag_problem(g)
            &&& f.screens_dir@.len() == 0 || f.screens_dir@.contains('/') || f.screens_dir@.contains(
                '\\',
            ) ==> flag_problem(g) == Some("--screens-dir must be a single path component"@)
            &&& f.screens_dir@.len() > 0 && !f.screens_dir@.contains('/')
                && !f.screens_dir@.contains('\\') ==> {
                &&& f.frames_dir@.len() == 0 || f.frames_dir@.contains('/')
                    || f.frames_dir@.contains('\\') ==> flag_problem(g) == Some(
                    "--frames-dir must be a single path component"@,
                )
                &&& f.frames_dir@ == f.screens_dir@ ==> flag_problem(g) == Some(
                    "--frames-dir must differ from --screens-dir"@,
                )
            }
        }),
{
}

/// The root passes exactly where it is a directory that can be resolved, and
/// the tools exactly where both are there; what is said otherwise names the
/// root, or the first tool that is missing.
pub proof fn law_surroundings(
    shown: Seq<char>,
    is_dir: bool,
    reason: Option<Seq<char>>,
    has_ffmpeg: bool,
    has_ffprobe: bool,
)
    ensures
        root_problem(shown, is_dir, reason) is None <==> is_dir && reason is None,
        root_problem(shown, is_dir, reason) matches Some(m) ==> ("ROOT "@ + shown).is_prefix_of(m),
        is_dir && reason is Some ==> reason->0.is_suffix_of(root_problem(shown, is_dir, reason)->0),
        tool_problem(has_ffmpeg, has_ffprobe) is None <==> has_ffmpeg && has_ffprobe,
        !has_ffmpeg ==> tool_problem(has_ffmpeg, has_ffprobe) == Some("ffmpeg not found on PATH"@),
        has_ffmpeg && !has_ffprobe ==> tool_problem(has_ffmpeg, has_ffprobe) == Some(
            "ffprobe not found on PATH"@,
        ),
{
    let head = "ROOT "@ + shown;
    if !is_dir {
        assert((head + " is not a directory"@).take(head.len() as int) =~= head);
    } else if reason is Some {
        let m = head + ": "@ + reason->0;
        assert(m.take(head.len() as int) =~= head);
        assert(m.skip(m.len() - reason->0.len()) =~= reason->0);
    }
}

/// A font family is resolved exactly where `fc-match` ended well and wrote more
/// than white space, and then to what it wrote without the white space around
/// it. Every other ending is an error before any work.
pub proof fn law_family_is_resolved(quoted: Seq<char>, outcome: FcMatch)
    ensures
        family_result(quoted, outcome) is Ok <==> outcome is Wrote && trim(
            lossy_text(outcome->Wrote_0@),
        ).len() > 0,
        family_result(quoted, outcome) matches Ok(file) ==> file == trim(
            lossy_text(outcome->Wrote_0@),
        ),
        family_result(quoted, outcome) matches Err(e) ==> e is Hard,
{
}

/// What is said of a font that could not be found or read names the family or
/// the file, and the reason or the exit code where there is one.
pub proof fn law_font_failures_are_told(
    quoted: Seq<char>,
    outcome: FcMatch,
    path: Seq<char>,
    reason: Seq<char>,
)
    ensures
        outcome is NotStarted ==> family_result(quoted, outcome) == Err::<Seq<char>, RunErrorInfo>(
            RunErrorInfo::Hard("running fc-match: "@ + outcome->NotStarted_0@),
        ),
        outcome is Failed ==> family_result(quoted, outcome) == Err::<Seq<char>, RunErrorInfo>(
            RunErrorInfo::Hard(
                "fc-match failed for --font "@ + quoted + " (exit "@ + exit_text(outcome->Failed_0)
                    + ")"@,
            ),
        ),
        outcome is Wrote && family_result(quoted, outcome) is Err ==> family_result(quoted, outcome)
            == Err::<Seq<char>, RunErrorInfo>(
            RunErrorInfo::Hard(
                "fc-match returned no font file for --font "@ + quoted
                    + "; is the family installed?"@,
            ),
        ),
        font_file_text(path, reason) == "reading font "@ + path + ": "@ + reason,
{
}

/// An outcome that fits its description is the same text, or the same error.
pub proof fn law_text_outcomes(r: Result<String, RunError>, s: Result<Seq<char>, RunErrorInfo>)
    requires
        text_outcome(r, s),
    ensures
        r is Ok <==> s is Ok,
        r matches Ok(t) ==> t@ == s->Ok_0,
        r matches Err(e) ==> e@ == s->Err_0,
{
}

}
