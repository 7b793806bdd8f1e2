use laim::active::{clamp_active, ActiveSet};
use laim::Pos;

fn assert_set_sane(s: &ActiveSet, rows: u32, columns: u32, expected: usize) {
    assert_eq!(s.len(), expected);
    for i in 0..s.len() {
        let p = s.get(i);
        assert!(p.row < rows);
        assert!(p.col < columns);
        for j in 0..i {
            assert_ne!(s.get(j), p);
        }
    }
}

#[test]
fn resample_fills_to_the_requested_count() {
    let mut s = ActiveSet::new();
    s.resample(3, 3, 2);
    assert_set_sane(&s, 3, 3, 2);
    s.resample(5, 4, 7);
    assert_set_sane(&s, 5, 4, 7);
}

#[test]
fn resample_keeps_one_cell_free() {
    let mut s = ActiveSet::new();
    s.resample(3, 3, 9);
    assert_set_sane(&s, 3, 3, 8);
    s.resample(2, 2, 100);
    assert_set_sane(&s, 2, 2, 3);
}

#[test]
fn clamp_matches_the_grid() {
    assert_eq!(clamp_active(3, 3, 2), 2);
    assert_eq!(clamp_active(3, 3, 8), 8);
    assert_eq!(clamp_active(3, 3, 9), 8);
    assert_eq!(clamp_active(2, 2, u32::MAX), 3);
    assert_eq!(clamp_active(1, 2, 5), 1);
}

#[test]
fn insert_remove_contains() {
    let mut s = ActiveSet::new();
    let a = Pos { row: 0, col: 1 };
    let b = Pos { row: 2, col: 0 };
    assert!(!s.contains(a));
    s.insert(a);
    s.insert(b);
    assert!(s.contains(a));
    assert!(s.contains(b));
    assert_eq!(s.len(), 2);
    s.remove(a);
    assert!(!s.contains(a));
    assert!(s.contains(b));
    assert_eq!(s.len(), 1);
    s.clear();
    assert_eq!(s.len(), 0);
    assert!(!s.contains(b));
}

#[test]
fn replace_swaps_the_hit_cell_for_a_fresh_one() {
    let mut s = ActiveSet::new();
    s.resample(2, 2, 3);
    let hit = s.get(0);
    s.replace(hit, 2, 2);
    assert_set_sane(&s, 2, 2, 3);
    assert!(!s.contains(hit));
}
