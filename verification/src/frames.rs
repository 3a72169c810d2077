//! How many frames are sampled, in which grid, at which points of the video,
//! and how they are extracted.
use vstd::prelude::*;
use crate::strings::{dec, decimal, holds, law_decimal, lemma_holds, texts};

verus! {

// ---- the grid ----

/// How far the search for a grid reaches beyond the ideal shape, either way.
pub open spec fn reach() -> int {
    2
}

/// The smallest size along one axis that is tried, for an ideal size between
/// `floor` and `ceil`.
pub open spec fn axis_lo(floor: u32) -> int {
    if floor - reach() < 1 {
        1
    } else {
        floor - reach()
    }
}

/// The largest size along one axis that is tried.
pub open spec fn axis_hi(ceil: u32) -> int {
    ceil + reach()
}

/// The grids of `c` columns that are tried, `r` being the smallest number of
/// rows.
pub open spec fn column_cells(c: int, r: int, n: nat) -> Seq<(u32, u32)> {
    Seq::new(n, |i: int| (c as u32, (r + i) as u32))
}

/// All grids from `c` columns on, for `n` numbers of columns.
pub open spec fn window_cells(c: int, n: nat, r: int, m: nat) -> Seq<(u32, u32)>
    decreases n,
{
    if n == 0 {
        Seq::empty()
    } else {
        window_cells(c, (n - 1) as nat, r, m) + column_cells(c + n - 1, r, m)
    }
}

/// The number of sizes along one axis.
pub open spec fn axis_len(floor: u32, ceil: u32) -> nat {
    if axis_hi(ceil) >= axis_lo(floor) {
        (axis_hi(ceil) - axis_lo(floor) + 1) as nat
    } else {
        0
    }
}

/// The grids that are tried, in the order in which they are: the columns
/// ascending, and for each the rows ascending.
pub open spec fn candidates(cols: (u32, u32), rows: (u32, u32)) -> Seq<(u32, u32)> {
    window_cells(
        axis_lo(cols.0),
        axis_len(cols.0, cols.1),
        axis_lo(rows.0),
        axis_len(rows.0, rows.1),
    )
}

fn lowest(floor: u32) -> (r: u32)
    ensures
        r == axis_lo(floor),
{
    if floor <= 3 {
        1
    } else {
        floor - 2
    }
}

/// The grids that are tried for an ideal number of columns and of rows, each
/// given as the whole numbers just below and just above it.
pub fn grid_candidates(cols: (u32, u32), rows: (u32, u32)) -> (r: Vec<(u32, u32)>)
    requires
        cols.1 <= u32::MAX - 3,
        rows.1 <= u32::MAX - 3,
    ensures
        r@ == candidates(cols, rows),
{
    let c: u32 = lowest(cols.0);
    let c_end: u32 = cols.1 + 3;
    let r_lo: u32 = lowest(rows.0);
    let r_end: u32 = rows.1 + 3;
    let ghost m = axis_len(rows.0, rows.1);
    let mut out: Vec<(u32, u32)> = Vec::new();
    let mut i: u32 = c;
    while i < c_end
        invariant
            c == axis_lo(cols.0),
            c_end == axis_hi(cols.1) + 1,
            r_lo == axis_lo(rows.0),
            r_end == axis_hi(rows.1) + 1,
            m == axis_len(rows.0, rows.1),
            c <= i,
            i <= c_end || i == c,
            out@ == window_cells(c as int, (i - c) as nat, r_lo as int, m),
        decreases c_end - i,
    {
        let ghost before = out@;
        let mut k: u32 = r_lo;
        while k < r_end
            invariant
                r_lo == axis_lo(rows.0),
                r_end == axis_hi(rows.1) + 1,
                m == axis_len(rows.0, rows.1),
                r_lo <= k,
                k <= r_end || k == r_lo,
                out@ =~= before + column_cells(i as int, r_lo as int, (k - r_lo) as nat),
            decreases r_end - k,
        {
            let ghost was = out@;
            out.push((i, k));
            assert(out@ =~= was.push((i, k)));
            k = k + 1;
        }
        assert(k - r_lo == m);
        i = i + 1;
        assert(i - c - 1 == (i - c) as nat - 1);
    }
    out
}

/// The cost from which on a grid is not worth considering.
pub const NO_COST: u64 = 0x7ff0_0000_0000_0000;

/// Whether `k` is the choice among the costs: below the limit, no more than any
/// other, and less than all before it.
pub open spec fn is_choice(costs: Seq<u64>, k: int) -> bool {
    &&& 0 <= k < costs.len()
    &&& costs[k] < NO_COST
    &&& forall|i: int| 0 <= i < costs.len() ==> costs[k] <= #[trigger] costs[i]
    &&& forall|i: int| 0 <= i < k ==> costs[k] < #[trigger] costs[i]
}

/// The grid with the smallest cost, the first one where several share it, and
/// a single cell where no grid is worth considering. The costs are ordered by
/// their bit patterns, as those of non-negative IEEE 754 numbers are.
pub fn squarify(cells: &Vec<(u32, u32)>, costs: &Vec<u64>) -> (r: (u32, u32))
    requires
        cells@.len() == costs@.len(),
    ensures
        (exists|k: int| is_choice(costs@, k) && r == cells@[k]) || (r == (1u32, 1u32) && forall|
            i: int,
        |
            0 <= i < costs@.len() ==> #[trigger] costs@[i] >= NO_COST),
{
    let mut best: (u32, u32) = (1, 1);
    let mut cost: u64 = NO_COST;
    let ghost mut at: int = -1;
    for i in 0..costs.len()
        invariant
            cells@.len() == costs@.len(),
            at < i,
            cost <= NO_COST,
            forall|k: int| 0 <= k < i ==> cost <= #[trigger] costs@[k],
            at < 0 ==> cost == NO_COST && best == (1u32, 1u32),
            at >= 0 ==> cost == costs@[at] && best == cells@[at] && cost < NO_COST && forall|k: int|
                0 <= k < at ==> cost < #[trigger] costs@[k],
    {
        if costs[i] < cost {
            cost = costs[i];
            best = cells[i];
            proof {
                at = i as int;
            }
        }
    }
    proof {
        if at >= 0 {
            assert(is_choice(costs@, at));
        }
    }
    best
}

/// The choice among given costs is the cheapest one, and the first of those
/// that cost the same.
pub proof fn law_choice_is_the_first_cheapest(costs: Seq<u64>, k: int, i: int)
    requires
        is_choice(costs, k),
        0 <= i < costs.len(),
    ensures
        0 <= k < costs.len(),
        costs[k] < 0x7ff0_0000_0000_0000,
        costs[k] <= costs[i],
        costs[k] == costs[i] ==> k <= i,
{
}

/// Wherever some grid is worth considering, there is a choice.
pub proof fn law_there_is_a_choice(costs: Seq<u64>, i: int)
    requires
        0 <= i < costs.len(),
        costs[i] < 0x7ff0_0000_0000_0000,
    ensures
        exists|k: int| is_choice(costs, k),
    decreases costs.len(),
{
    let front = costs.drop_last();
    let n = costs.len() - 1;
    if exists|j: int| 0 <= j < front.len() && front[j] < 0x7ff0_0000_0000_0000 {
        let j = choose|j: int| 0 <= j < front.len() && front[j] < 0x7ff0_0000_0000_0000;
        law_there_is_a_choice(front, j);
        let k = choose|k: int| is_choice(front, k);
        assert(costs[k] == front[k]);
        assert forall|l: int| 0 <= l < n implies #[trigger] costs[l] == front[l] by {}
        if costs[n] < costs[k] {
            assert(is_choice(costs, n));
        } else {
            assert(is_choice(costs, k));
        }
    } else {
        assert forall|l: int| 0 <= l < n implies #[trigger] costs[l] >= 0x7ff0_0000_0000_0000 by {
            assert(front[l] == costs[l]);
        }
        assert(i == n);
        assert(is_choice(costs, n));
    }
}

/// There is only one choice among given costs.
pub proof fn law_choice_is_unique(costs: Seq<u64>, a: int, b: int)
    requires
        is_choice(costs, a),
        is_choice(costs, b),
    ensures
        a == b,
{
    if a < b {
        assert(costs[b] < costs[a]);
    } else if b < a {
        assert(costs[a] < costs[b]);
    }
}

/// Every grid that is tried has at least one column and one row, and lies in
/// the window around the ideal shape.
pub proof fn law_candidates_lie_in_the_window(cols: (u32, u32), rows: (u32, u32), k: int)
    requires
        cols.1 <= u32::MAX - 3,
        rows.1 <= u32::MAX - 3,
        0 <= k < candidates(cols, rows).len(),
    ensures
        ({
            let (c, r) = candidates(cols, rows)[k];
            &&& 1 <= c && 1 <= r
            &&& axis_lo(cols.0) <= c <= axis_hi(cols.1)
            &&& axis_lo(rows.0) <= r <= axis_hi(rows.1)
        }),
{
    lemma_window(
        axis_lo(cols.0),
        axis_len(cols.0, cols.1),
        axis_lo(rows.0),
        axis_len(rows.0, rows.1),
        k,
    );
}

proof fn lemma_window(c: int, n: nat, r: int, m: nat, k: int)
    requires
        1 <= c,
        1 <= r,
        c + n <= u32::MAX,
        r + m <= u32::MAX,
        0 <= k < window_cells(c, n, r, m).len(),
    ensures
        c <= window_cells(c, n, r, m)[k].0 < c + n,
        r <= window_cells(c, n, r, m)[k].1 < r + m,
    decreases n,
{
    if n > 0 {
        let front = window_cells(c, (n - 1) as nat, r, m);
        if k < front.len() {
            lemma_window(c, (n - 1) as nat, r, m, k);
        } else {
            assert(window_cells(c, n, r, m)[k] == column_cells(c + n - 1, r, m)[k - front.len()]);
        }
    }
}

/// Every shape in the window is tried.
pub proof fn law_window_is_searched_whole(cols: (u32, u32), rows: (u32, u32), c: u32, r: u32)
    requires
        axis_lo(cols.0) <= c <= axis_hi(cols.1),
        axis_lo(rows.0) <= r <= axis_hi(rows.1),
    ensures
        candidates(cols, rows).contains((c, r)),
{
    lemma_window_whole(
        axis_lo(cols.0),
        axis_len(cols.0, cols.1),
        axis_lo(rows.0),
        axis_len(rows.0, rows.1),
        c,
        r,
    );
}

proof fn lemma_window_whole(c0: int, n: nat, r0: int, m: nat, c: u32, r: u32)
    requires
        c0 <= c < c0 + n,
        r0 <= r < r0 + m,
    ensures
        window_cells(c0, n, r0, m).contains((c, r)),
    decreases n,
{
    let all = window_cells(c0, n, r0, m);
    let front = window_cells(c0, (n - 1) as nat, r0, m);
    if c < c0 + n - 1 {
        lemma_window_whole(c0, (n - 1) as nat, r0, m, c, r);
        let i = choose|i: int| 0 <= i < front.len() && front[i] == (c, r);
        assert(all[i] == (c, r));
    } else {
        let i = front.len() + (r - r0);
        assert(all[i] == column_cells(c as int, r0, m)[r - r0]);
        assert(all[i] == (c, r));
    }
}

/// The grids that are tried are all those, and only those, whose columns and
/// whose rows lie at most two beyond the ideal either way and are at least one.
pub proof fn law_grids_within_two_of_the_ideal(cols: (u32, u32), rows: (u32, u32), c: u32, r: u32)
    requires
        cols.1 <= u32::MAX - 3,
        rows.1 <= u32::MAX - 3,
    ensures
        candidates(cols, rows).contains((c, r)) <==> c >= 1 && r >= 1 && cols.0 <= c + 2 && c
            <= cols.1 + 2 && rows.0 <= r + 2 && r <= rows.1 + 2,
{
    if candidates(cols, rows).contains((c, r)) {
        let k = candidates(cols, rows).index_of((c, r));
        law_candidates_lie_in_the_window(cols, rows, k);
    }
    if c >= 1 && r >= 1 && cols.0 <= c + 2 && c <= cols.1 + 2 && rows.0 <= r + 2 && r <= rows.1 + 2 {
        law_window_is_searched_whole(cols, rows, c, r);
    }
}

/// The grids are tried with the fewest columns first, and among those with the
/// fewest rows first; none is tried twice.
pub proof fn law_grids_are_tried_in_order(cols: (u32, u32), rows: (u32, u32), i: int, j: int)
    requires
        cols.1 <= u32::MAX - 3,
        rows.1 <= u32::MAX - 3,
        0 <= i < j < candidates(cols, rows).len(),
    ensures
        ({
            let a = candidates(cols, rows)[i];
            let b = candidates(cols, rows)[j];
            a.0 < b.0 || (a.0 == b.0 && a.1 < b.1)
        }),
{
    lemma_window_ordered(
        axis_lo(cols.0),
        axis_len(cols.0, cols.1),
        axis_lo(rows.0),
        axis_len(rows.0, rows.1),
        i,
        j,
    );
}

proof fn lemma_window_ordered(c: int, n: nat, r: int, m: nat, i: int, j: int)
    requires
        1 <= c,
        1 <= r,
        c + n <= u32::MAX,
        r + m <= u32::MAX,
        0 <= i < j < window_cells(c, n, r, m).len(),
    ensures
        ({
            let a = window_cells(c, n, r, m)[i];
            let b = window_cells(c, n, r, m)[j];
            a.0 < b.0 || (a.0 == b.0 && a.1 < b.1)
        }),
    decreases n,
{
    if n > 0 {
        let front = window_cells(c, (n - 1) as nat, r, m);
        let back = column_cells(c + n - 1, r, m);
        if j < front.len() {
            lemma_window_ordered(c, (n - 1) as nat, r, m, i, j);
        } else {
            assert(window_cells(c, n, r, m)[j] == back[j - front.len()]);
            if i < front.len() {
                lemma_window(c, (n - 1) as nat, r, m, i);
            } else {
                assert(window_cells(c, n, r, m)[i] == back[i - front.len()]);
            }
        }
    }
}

// ---- sampling ----

/// The points at which `n` frames are sampled, as fractions of the duration:
/// the first number of each over the second.
pub open spec fn sample_points(n: nat) -> Seq<(usize, usize)> {
    let k: nat = if n == 0 {
        1
    } else {
        n
    };
    Seq::new(k, |i: int| ((i + 1) as usize, (k + 1) as usize))
}

/// The points at which `n` frames are sampled, as fractions of the duration.
pub fn offsets(n: usize) -> (r: Vec<(usize, usize)>)
    requires
        n < usize::MAX,
    ensures
        r@ == sample_points(n as nat),
{
    let k: usize = if n == 0 {
        1
    } else {
        n
    };
    let mut r: Vec<(usize, usize)> = Vec::new();
    for i in 0..k
        invariant
            k < usize::MAX,
            r@ =~= Seq::new(i as nat, |j: int| ((j + 1) as usize, (k + 1) as usize)),
    {
        r.push((i + 1, k + 1));
    }
    r
}

/// The sample points lie strictly between the beginning and the end, each after
/// the one before it, and all the same distance apart.
pub proof fn law_samples_skip_both_ends(n: nat, i: int)
    requires
        n < usize::MAX,
        0 <= i < sample_points(n).len(),
    ensures
        0 < sample_points(n)[i].0 < sample_points(n)[i].1,
        sample_points(n)[i].0 == i + 1,
        sample_points(n)[i].1 == sample_points(n).len() + 1,
        n > 0 ==> sample_points(n).len() == n,
        n == 0 ==> sample_points(n).len() == 1,
{
}

// ---- thumbnails ----

/// A size rounded down to an even number, and never below two.
pub open spec fn even_size(n: u32) -> u32 {
    if n < 2 {
        2
    } else {
        (n - n % 2) as u32
    }
}

/// The size of a thumbnail whose ideal size, without its fractions, is `w` by
/// `h`.
pub fn thumb_dims(w: u32, h: u32) -> (r: (u32, u32))
    ensures
        r == (even_size(w), even_size(h)),
        r.0 % 2 == 0 && r.1 % 2 == 0,
        r.0 >= 2 && r.1 >= 2,
        w >= 2 ==> r.0 <= w < r.0 + 2,
        h >= 2 ==> r.1 <= h < r.1 + 2,
{
    let tw: u32 = if w < 2 {
        2
    } else {
        w - w % 2
    };
    let th: u32 = if h < 2 {
        2
    } else {
        h - h % 2
    };
    (tw, th)
}

/// Each side of a thumbnail is the largest even number that is not above the
/// ideal side, for every ideal side of at least two; below that it is two.
pub proof fn law_thumbnail_side_is_the_ideal_one(n: u32, k: u32)
    ensures
        even_size(n) % 2 == 0,
        n >= 2 ==> even_size(n) <= n < even_size(n) + 2,
        n >= 2 && k % 2 == 0 && k <= n ==> k <= even_size(n),
        n % 2 == 0 && n >= 2 ==> even_size(n) == n,
        n < 2 ==> even_size(n) == 2,
{
}

/// A thumbnail keeps the shape and the area of its ideal size up to rounding,
/// whatever that size is: neither side loses two pixels, so each side is in
/// proportion to the other to within two pixels, and the area lacks less than
/// twice the two sides together.
pub proof fn law_thumbnail_keeps_shape_and_area(w: u32, h: u32)
    requires
        w >= 2,
        h >= 2,
    ensures
        w - 2 < even_size(w) <= w,
        h - 2 < even_size(h) <= h,
        even_size(w) * h - even_size(h) * w < 2 * w,
        even_size(h) * w - even_size(w) * h < 2 * h,
        even_size(w) * even_size(h) <= w * h,
        w * h - even_size(w) * even_size(h) < 2 * (w + h),
{
    let a = even_size(w) as int;
    let b = even_size(h) as int;
    let x = w as int;
    let y = h as int;
    assert(a * y - b * x < 2 * x && b * x - a * y < 2 * y && a * b <= x * y && x * y - a * b < 2 * (x
        + y)) by (nonlinear_arith)
        requires
            x - 2 < a,
            a <= x,
            y - 2 < b,
            b <= y,
            a >= 2,
            b >= 2,
    ;
}

/// A larger ideal side never gives a smaller thumbnail.
pub proof fn law_thumbnail_grows_with_its_ideal(m: u32, n: u32)
    requires
        m <= n,
    ensures
        even_size(m) <= even_size(n),
{
}

// ---- extraction ----

/// A command line around the path of a video and that of the image to write:
/// what stands before the former, and what stands between the two.
#[derive(Debug)]
pub struct Extraction {
    pub before: Vec<String>,
    pub after: Vec<String>,
}

/// What stands before the path of the video, `offset` being the point in
/// seconds.
pub open spec fn seek_words(offset: Seq<char>) -> Seq<Seq<char>> {
    seq!["-hide_banner"@, "-loglevel"@, "error"@, "-ss"@, offset, "-i"@]
}

/// What stands between the two paths for a frame of the given size.
pub open spec fn scaled_words(w: u32, h: u32, q: u32) -> Seq<Seq<char>> {
    seq![
        "-frames:v"@,
        "1"@,
        "-vf"@,
        "scale="@ + dec(w as nat) + ":"@ + dec(h as nat),
        "-q:v"@,
        dec(q as nat),
        "-y"@,
    ]
}

/// What stands between the two paths for a frame of its own size.
pub open spec fn native_words() -> Seq<Seq<char>> {
    seq!["-frames:v"@, "1"@, "-y"@]
}

fn seek(offset: &str) -> (r: Vec<String>)
    ensures
        texts(r@) == seek_words(offset@),
{
    let r: Vec<String> = vec![
        "-hide_banner".to_owned(),
        "-loglevel".to_owned(),
        "error".to_owned(),
        "-ss".to_owned(),
        offset.to_owned(),
        "-i".to_owned(),
    ];
    assert(texts(r@) =~= seek_words(offset@));
    r
}

/// How one frame is extracted and scaled to a thumbnail.
pub fn extract_frame(offset: &str, thumb_w: u32, thumb_h: u32, jpeg_q: u32) -> (r: Extraction)
    ensures
        texts(r.before@) == seek_words(offset@),
        texts(r.after@) == scaled_words(thumb_w, thumb_h, jpeg_q),
{
    let mut scale: String = "scale=".to_owned();
    let w: String = decimal(thumb_w as u64);
    let h: String = decimal(thumb_h as u64);
    scale.append(w.as_str());
    scale.append(":");
    scale.append(h.as_str());
    let after: Vec<String> = vec![
        "-frames:v".to_owned(),
        "1".to_owned(),
        "-vf".to_owned(),
        scale,
        "-q:v".to_owned(),
        decimal(jpeg_q as u64),
        "-y".to_owned(),
    ];
    assert(texts(after@) =~= scaled_words(thumb_w, thumb_h, jpeg_q));
    Extraction { before: seek(offset), after }
}

/// How one frame is extracted at its own size.
pub fn extract_native_frame(offset: &str) -> (r: Extraction)
    ensures
        texts(r.before@) == seek_words(offset@),
        texts(r.after@) == native_words(),
{
    let after: Vec<String> = vec!["-frames:v".to_owned(), "1".to_owned(), "-y".to_owned()];
    assert(texts(after@) =~= native_words());
    Extraction { before: seek(offset), after }
}

/// An exit code as it is shown; a process that was killed has none.
pub open spec fn exit_text(code: Option<i32>) -> Seq<char> {
    match code {
        Some(n) => "Some("@ + (if n < 0 {
            "-"@ + dec((-n) as nat)
        } else {
            dec(n as nat)
        }) + ")"@,
        None => "None"@,
    }
}

/// An exit code as it is shown.
pub fn shown_exit(code: Option<i32>) -> (r: String)
    ensures
        r@ == exit_text(code),
{
    match code {
        Some(n) => {
            let mut r: String = "Some(".to_owned();
            if n < 0 {
                r.append("-");
            }
            let a: u64 = if n < 0 {
                (-(n as i64)) as u64
            } else {
                n as u64
            };
            let d: String = decimal(a);
            r.append(d.as_str());
            r.append(")");
            assert(r@ =~= exit_text(code));
            r
        },
        None => "None".to_owned(),
    }
}

/// The words for a frame that could not be extracted.
pub open spec fn extraction_text(offset: Seq<char>, code: Option<i32>) -> Seq<char> {
    "ffmpeg frame extraction failed at offset "@ + offset + "s (exit "@ + exit_text(code) + ")"@
}

/// The words for a frame that could not be extracted.
pub fn extraction_failure(offset: &str, code: Option<i32>) -> (r: String)
    ensures
        r@ == extraction_text(offset@, code),
{
    let mut m: String = "ffmpeg frame extraction failed at offset ".to_owned();
    let c: String = shown_exit(code);
    m.append(offset);
    m.append("s (exit ");
    m.append(c.as_str());
    m.append(")");
    m
}

// ---- laws of extraction ----

/// One frame is taken at the given point: the point stands behind `-ss`, the
/// video follows `-i`, one frame is asked for, and an older image is written
/// over. Only where a size is given is the frame scaled, to just that size and
/// in the given quality.
pub proof fn law_extraction_commands(offset: Seq<char>, w: u32, h: u32, q: u32)
    ensures
        seek_words(offset)[3] == "-ss"@ && seek_words(offset)[4] == offset,
        seek_words(offset).last() == "-i"@,
        scaled_words(w, h, q)[0] == "-frames:v"@ && scaled_words(w, h, q)[1] == "1"@,
        scaled_words(w, h, q)[2] == "-vf"@ && scaled_words(w, h, q)[3] == "scale="@ + dec(w as nat)
            + ":"@ + dec(h as nat),
        scaled_words(w, h, q)[4] == "-q:v"@ && scaled_words(w, h, q)[5] == dec(q as nat),
        scaled_words(w, h, q).last() == "-y"@ && scaled_words(w, h, q).len() == 7,
        native_words()[0] == "-frames:v"@ && native_words()[1] == "1"@,
        native_words().last() == "-y"@ && native_words().len() == 3,
{
}

/// Commands for different points, sizes or qualities differ.
pub proof fn law_extraction_commands_differ(
    a: Seq<char>,
    b: Seq<char>,
    x: (u32, u32, u32),
    y: (u32, u32, u32),
)
    ensures
        seek_words(a) == seek_words(b) ==> a == b,
        scaled_words(x.0, x.1, x.2) == scaled_words(y.0, y.1, y.2) ==> x == y,
{
    if seek_words(a) == seek_words(b) {
        assert(seek_words(a)[4] == seek_words(b)[4]);
    }
    if scaled_words(x.0, x.1, x.2) == scaled_words(y.0, y.1, y.2) {
        assert(scaled_words(x.0, x.1, x.2)[3] == scaled_words(y.0, y.1, y.2)[3]);
        assert(scaled_words(x.0, x.1, x.2)[5] == scaled_words(y.0, y.1, y.2)[5]);
        law_decimal(x.2 as nat, 0, y.2 as nat);
        lemma_two_numbers(x.0 as nat, x.1 as nat, y.0 as nat, y.1 as nat);
    }
}

/// Two numbers with a colon between them can be told apart again.
proof fn lemma_two_numbers(a: nat, b: nat, c: nat, d: nat)
    requires
        "scale="@ + dec(a) + ":"@ + dec(b) == "scale="@ + dec(c) + ":"@ + dec(d),
    ensures
        a == c,
        b == d,
{
    let head = "scale="@;
    let n = head.len() as int;
    reveal_strlit(":");
    law_decimal(a, 0, c);
    law_decimal(b, 0, d);
    law_decimal(c, 0, a);
    let s = head + dec(a) + ":"@ + dec(b);
    let t = head + dec(c) + ":"@ + dec(d);
    let p = n + dec(a).len();
    let q = n + dec(c).len();
    assert(s[p] == ':' && t[q] == ':');
    if p < q {
        assert(t[p] == dec(c)[p - n]);
    } else if q < p {
        assert(s[q] == dec(a)[q - n]);
    }
    assert(s.subrange(n, p) =~= dec(a));
    assert(t.subrange(n, p) =~= dec(c));
    assert(s.skip(p + 1) =~= dec(b));
    assert(t.skip(p + 1) =~= dec(d));
}

/// What is said of a frame that could not be extracted names the point, and
/// the exit code: a killed process has none, and different codes read
/// differently.
pub proof fn law_extraction_failures_are_told(
    offset: Seq<char>,
    code: Option<i32>,
    n: i32,
)
    ensures
        exit_text(None) == "None"@,
        n >= 0 ==> exit_text(Some(n)) == "Some("@ + dec(n as nat) + ")"@,
        n < 0 ==> exit_text(Some(n)) == "Some(-"@ + dec((-n) as nat) + ")"@,
        holds(extraction_text(offset, code), "failed at offset "@ + offset + "s"@),
        holds(extraction_text(offset, code), "(exit "@ + exit_text(code) + ")"@),
{
    reveal_strlit("Some(-");
    reveal_strlit("Some(");
    reveal_strlit("-");
    if n < 0 {
        assert(exit_text(Some(n)) =~= "Some(-"@ + dec((-n) as nat) + ")"@);
    }
    let e = exit_text(code);
    let first = "ffmpeg frame extraction failed at offset "@;
    let mid = "s (exit "@;
    reveal_strlit("ffmpeg frame extraction failed at offset ");
    reveal_strlit("failed at offset ");
    reveal_strlit("s (exit ");
    reveal_strlit("s");
    reveal_strlit("(exit ");
    let text = extraction_text(offset, code);
    let k = first.len() - "failed at offset "@.len();
    let a = "failed at offset "@ + offset + "s"@;
    assert(first =~= first.take(k) + "failed at offset "@);
    assert(mid =~= "s"@ + mid.skip(1));
    assert(text =~= first.take(k) + a + (mid.skip(1) + e + ")"@));
    lemma_holds(first.take(k), a, mid.skip(1) + e + ")"@);
    let b = "(exit "@ + e + ")"@;
    assert(mid =~= mid.take(2) + "(exit "@);
    assert(text =~= (first + offset + mid.take(2)) + b + Seq::<char>::empty());
    lemma_holds(first + offset + mid.take(2), b, Seq::empty());
}

}
