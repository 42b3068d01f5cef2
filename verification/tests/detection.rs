use detect_staves::detect_lines;
use detect_staves::group_lines;
use detect_staves::is_staff;
use detect_staves::sum_row;
use detect_staves::PixelInspector;

#[test]
fn pixels_to_lines() {
    assert_eq!(
        detect_lines(&vec![vec![1, 1], vec![0, 1], vec![1, 1]]),
        vec![false, true, false]
    );
    assert_eq!(
        detect_lines(&vec![
            vec![1, 1, 1, 1, 1],
            vec![0, 0, 0, 0, 0],
            vec![1, 1, 1, 1, 1],
            vec![1, 0, 0, 0, 0],
            vec![1, 1, 1, 1, 1],
            vec![1, 0, 0, 0, 0],
            vec![1, 1, 1, 1, 1],
            vec![1, 0, 1, 0, 0], // not a line
            vec![1, 1, 1, 1, 1],
        ]),
        vec![false, true, false, true, false, true, false, false, false]
    );
}

#[test]
fn black_lines() {
    // one line
    assert_eq!(group_lines(&vec![true]), vec![(0, 1)]);
    // one bold line
    assert_eq!(group_lines(&vec![true, true]), vec![(0, 2)]);
    // one line after spacing
    assert_eq!(group_lines(&vec![false, true]), vec![(1, 1)]);
    // two lines
    assert_eq!(group_lines(&vec![true, false, true]), vec![(0, 1), (2, 1)]);
}

#[test]
fn staves() {
    // regular
    assert!(is_staff(&[(0, 1), (4, 1), (8, 1), (12, 1), (16, 1)]));
    // light variations
    assert!(is_staff(&[(0, 1), (4, 2), (8, 1), (12, 1), (16, 1)]));
}

#[test]
fn not_staves() {
    // visible variations
    assert!(!is_staff(&[(0, 1), (4, 3), (8, 1), (12, 1), (16, 1)]));
}

#[test]
fn alternating_grid_end_to_end() {
    // Nine 5-wide rows, bright (all 1) and dark (all 0) alternating, bright
    // first and last: every zero-mean row is a line, every bright row is not.
    let mut grid: Vec<Vec<u8>> = Vec::new();
    for r in 0..9 {
        if r % 2 == 0 {
            grid.push(vec![1, 1, 1, 1, 1]);
        } else {
            grid.push(vec![0, 0, 0, 0, 0]);
        }
    }
    assert_eq!(
        detect_lines(&grid),
        vec![false, true, false, true, false, true, false, true, false]
    );
}

#[test]
fn uniform_rows_all_marked() {
    // Identical rows: the standard deviation is zero and every row value
    // equals the threshold, so the boundary inclusion marks them all.
    assert_eq!(
        detect_lines(&vec![vec![5, 5], vec![5, 5], vec![5, 5]]),
        vec![true, true, true]
    );
}

#[test]
fn grouping_edge_cases() {
    // no rows at all
    assert_eq!(group_lines(&Vec::new()), Vec::new());
    // all background
    assert_eq!(group_lines(&vec![false, false, false]), Vec::new());
    // run still open at the end of the mask
    assert_eq!(
        group_lines(&vec![true, true, false, true]),
        vec![(0, 2), (3, 1)]
    );
}

#[test]
fn inspector_matches_batch() {
    let rows = vec![vec![1, 1], vec![0, 1], vec![1, 1]];
    let mut inspector = PixelInspector::new(0);
    for row in rows.iter() {
        inspector.push_row(row);
    }
    assert_eq!(inspector.inspect(), detect_lines(&rows));
    assert_eq!(inspector.inspect(), vec![false, true, false]);
}

#[test]
fn irregular_spacing_rejected() {
    // The last gap (7) spreads past the tolerance of 1.
    assert!(!is_staff(&[(0, 1), (4, 1), (8, 1), (12, 1), (20, 1)]));
}

#[test]
fn last_line_thickness_ignored() {
    // Only the first segment of each adjacent pair contributes a thickness
    // sample, so a thick fifth line alone does not fail the candidate.
    assert!(is_staff(&[(0, 1), (4, 1), (8, 1), (12, 1), (16, 3)]));
}

#[test]
fn zero_thickness_tolerance_boundary() {
    // All thicknesses zero: the tolerance is zero, and both spreads equal
    // zero, which still passes the inclusive comparisons.
    assert!(is_staff(&[(0, 0), (1, 0), (2, 0), (3, 0), (4, 0)]));
}

#[test]
fn row_sums_are_exact() {
    assert_eq!(sum_row(&vec![0]), 0);
    assert_eq!(sum_row(&vec![1, 2]), 3);
    assert_eq!(sum_row(&vec![255, 255, 255]), 765);
}
