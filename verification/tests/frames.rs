use screens::frames::{
    extract_frame, extract_native_frame, extraction_failure, grid_candidates, offsets, shown_exit,
    thumb_dims, NO_COST,
};

fn grid_cost(cols: u32, rows: u32, n_target: f64, aspect: f64) -> f64 {
    let cr = (cols as f64) * (rows as f64);
    let count_err = (cr - n_target) / n_target;
    let aspect_err = ((cols as f64 / rows as f64) * aspect).ln();
    1.0 * count_err * count_err + 0.5 * aspect_err * aspect_err
}

/// The grid for a number of cells and a shape, as a caller with real numbers
/// asks for it.
fn squarify(n_target: f64, aspect: f64) -> (u32, u32) {
    let aspect = aspect.max(1e-9);
    let n_target = n_target.max(1.0);
    let cols = (n_target / aspect).sqrt();
    let rows = (n_target * aspect).sqrt();
    let cells = grid_candidates(
        (cols.floor() as u32, cols.ceil() as u32),
        (rows.floor() as u32, rows.ceil() as u32),
    );
    let costs: Vec<u64> =
        cells.iter().map(|&(c, r)| grid_cost(c, r, n_target, aspect).to_bits()).collect();
    screens::frames::squarify(&cells, &costs)
}

fn grid_aspect(cols: u32, rows: u32, aspect: f64) -> f64 {
    (cols as f64 / rows as f64) * aspect
}

#[test]
fn squarify_square_aspect() {
    assert_eq!(squarify(4.0, 1.0), (2, 2));
    assert_eq!(squarify(9.0, 1.0), (3, 3));
    assert_eq!(squarify(16.0, 1.0), (4, 4));
    assert_eq!(squarify(1.0, 1.0), (1, 1));
}

#[test]
fn squarify_bumps_to_fill_grid() {
    let (c, r) = squarify(8.0, 1.0);
    assert_eq!((c, r), (3, 3));
    assert_eq!(c * r, 9);
}

#[test]
fn squarify_aspect_tolerant_mirror() {
    let (cl, rl) = squarify(12.0, 16.0 / 9.0);
    let (cp, rp) = squarify(12.0, 9.0 / 16.0);
    assert_eq!((cl, rl), (rp, cp), "portrait mirrors landscape");
    assert!(grid_aspect(cl, rl, 16.0 / 9.0) > 1.0);
    assert!(grid_aspect(cp, rp, 9.0 / 16.0) < 1.0);
}

#[test]
fn squarify_floor() {
    let (c, r) = squarify(0.0, 1.0);
    assert!(c >= 1 && r >= 1);
    let (c, r) = squarify(0.5, 1e12);
    assert!(c >= 1 && r >= 1);
}

#[test]
fn squarify_grid_is_full() {
    for &n in &[1.0_f64, 2.0, 4.0, 7.0, 8.0, 12.0, 16.0, 20.0, 25.0, 40.0] {
        for &a in &[0.5, 1.0, 1.5, 16.0 / 9.0, 9.0 / 16.0] {
            let (c, r) = squarify(n, a);
            assert!(c >= 1 && r >= 1);
            let g = grid_aspect(c, r, a);
            assert!((0.5..=2.0).contains(&g), "n={n} a={a} -> {c}x{r} aspect={g}");
        }
    }
}

#[test]
fn squarify_hits_target_not_just_square() {
    let (c, r) = squarify(12.0, 1.0);
    assert_eq!((c, r), (4, 3), "12 @ a=1 -> 4x3=12 (not 3x3=9)");
    assert_eq!(c * r, 12);
    let (c, r) = squarify(6.0, 1.0);
    assert_eq!((c, r), (3, 2), "6 @ a=1 -> 3x2=6 (not 2x2=4)");
    assert_eq!(c * r, 6);
}

#[test]
fn squarify_count_close_to_target() {
    for &n in &[2.0_f64, 3.0, 5.0, 6.0, 7.0, 10.0, 12.0, 14.0, 18.0, 20.0, 30.0] {
        let (c, r) = squarify(n, 1.0);
        let realized = (c * r) as f64;
        let tol = (n.sqrt()).max(2.0);
        assert!(
            (realized - n).abs() <= tol,
            "n={n} -> realized={realized} (|Δ|={}) exceeds tol {tol}",
            (realized - n).abs()
        );
        if n >= 9.0 {
            assert!(
                (realized - n).abs() / n <= 0.25,
                "n={n} -> realized={realized}, dev {} exceeds 25%",
                (realized - n).abs() / n
            );
        }
    }
}

#[test]
fn candidates_run_through_the_columns_first() {
    assert_eq!(
        grid_candidates((1, 1), (0, 0)),
        vec![(1, 1), (1, 2), (2, 1), (2, 2), (3, 1), (3, 2)]
    );
    let all = grid_candidates((7, 8), (5, 5));
    assert_eq!(all.len(), 6 * 5);
    assert_eq!(all[0], (5, 3));
    assert_eq!(all[all.len() - 1], (10, 7));
}

#[test]
fn the_first_of_the_cheapest_grids_is_taken() {
    let cells = vec![(1, 1), (1, 2), (2, 1), (2, 2)];
    assert_eq!(screens::frames::squarify(&cells, &vec![9, 4, 4, 5]), (1, 2));
    assert_eq!(screens::frames::squarify(&cells, &vec![9, 4, 3, NO_COST]), (2, 1));
    assert_eq!(screens::frames::squarify(&cells, &vec![NO_COST; 4]), (1, 1));
    assert_eq!(
        screens::frames::squarify(&vec![(7, 7)], &vec![f64::NAN.to_bits()]),
        (1, 1)
    );
}

#[test]
fn samples_skip_both_ends() {
    assert_eq!(offsets(3), vec![(1, 4), (2, 4), (3, 4)]);
    assert_eq!(offsets(0), vec![(1, 2)]);
    for (i, (a, b)) in offsets(40).into_iter().enumerate() {
        assert!(0 < a && a < b);
        assert_eq!(a, i + 1);
    }
}

#[test]
fn thumbnails_have_even_sides() {
    assert_eq!(thumb_dims(731, 410), (730, 410));
    assert_eq!(thumb_dims(0, 1), (2, 2));
    assert_eq!(thumb_dims(3, 2), (2, 2));
}

#[test]
fn extraction_has_its_arguments_in_order() {
    let e = extract_frame("12.500", 730, 410, 85);
    assert_eq!(e.before, vec!["-hide_banner", "-loglevel", "error", "-ss", "12.500", "-i"]);
    assert_eq!(e.after, vec!["-frames:v", "1", "-vf", "scale=730:410", "-q:v", "85", "-y"]);
    let e = extract_native_frame("0.100");
    assert_eq!(e.before, vec!["-hide_banner", "-loglevel", "error", "-ss", "0.100", "-i"]);
    assert_eq!(e.after, vec!["-frames:v", "1", "-y"]);
}

#[test]
fn a_failed_extraction_names_the_point_and_the_exit_code() {
    assert_eq!(
        extraction_failure("1.000", Some(1)),
        "ffmpeg frame extraction failed at offset 1.000s (exit Some(1))"
    );
    for code in [None, Some(0), Some(-1), Some(i32::MIN), Some(i32::MAX)] {
        assert_eq!(shown_exit(code), format!("{code:?}"));
    }
}
