use mpc_keygroup_creator::{build_ranges, cut_point, InclusiveRange};

fn ranges(pairs: &[(u8, u8)]) -> Vec<InclusiveRange> {
    pairs.iter().map(|(s, e)| InclusiveRange::new(*s, *e)).collect()
}

#[test]
fn test_make_program() {
    let notes = vec![45u8, 57, 69];
    assert_eq!(build_ranges(&notes, 500), ranges(&[(0, 51), (52, 63), (64, 127)]));
}

#[test]
fn build_ranges_three_roots_midpoint() {
    assert_eq!(build_ranges(&vec![45, 57, 69], 500), ranges(&[(0, 51), (52, 63), (64, 127)]));
}

#[test]
fn build_ranges_three_roots_pitch_up() {
    assert_eq!(build_ranges(&vec![45, 57, 69], 0), ranges(&[(0, 45), (46, 57), (58, 127)]));
}

#[test]
fn build_ranges_three_roots_pitch_down() {
    assert_eq!(build_ranges(&vec![45, 57, 69], 1000), ranges(&[(0, 56), (57, 68), (69, 127)]));
}

#[test]
fn build_ranges_adjacent_roots() {
    assert_eq!(
        build_ranges(&vec![45, 46, 47, 48], 500),
        ranges(&[(0, 45), (46, 46), (47, 47), (48, 127)])
    );
}

#[test]
fn build_ranges_single_root() {
    assert_eq!(build_ranges(&vec![45], 500), ranges(&[(0, 127)]));
}

#[test]
fn build_ranges_no_root() {
    assert_eq!(build_ranges(&vec![], 500), ranges(&[]));
}

#[test]
fn build_ranges_preference_is_clamped() {
    assert_eq!(build_ranges(&vec![45, 57, 69], 5000), build_ranges(&vec![45, 57, 69], 1000));
}

#[test]
fn build_ranges_equal_roots() {
    assert_eq!(build_ranges(&vec![50, 50], 500), ranges(&[(0, 50), (51, 127)]));
}

#[test]
fn build_ranges_partition_on_concrete_roots() {
    let roots = vec![12u8, 30, 31, 77, 100];
    let r = build_ranges(&roots, 333);
    assert_eq!(r.len(), roots.len());
    assert_eq!(r[0].start, 0);
    assert_eq!(r[r.len() - 1].end, 127);
    for i in 0..r.len() {
        assert!(r[i].start <= r[i].end);
        assert!(r[i].contains(roots[i]));
        if i + 1 < r.len() {
            assert_eq!(r[i].end + 1, r[i + 1].start);
        }
    }
}

#[test]
fn cut_point_formula() {
    assert_eq!(cut_point(45, 57, 500), 51);
    assert_eq!(cut_point(45, 57, 1000), 56);
    assert_eq!(cut_point(45, 57, 0), 45);
    assert_eq!(cut_point(57, 57, 500), 57);
    assert_eq!(cut_point(60, 50, 500), 60);
}
