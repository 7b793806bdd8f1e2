use laim::Pos;
use laim::history::{GridConfig, HistoryStore};
use laim::session::GameSession;

fn cfg(rows: u32, columns: u32, active: u32) -> GridConfig {
    GridConfig { rows, columns, active }
}

fn assert_cells_sane(s: &GameSession, expected: usize) {
    assert_eq!(s.cells.len(), expected);
    for i in 0..s.cells.len() {
        let p = s.cells.get(i);
        assert!(p.row < s.config.rows);
        assert!(p.col < s.config.columns);
        for j in 0..i {
            assert_ne!(s.cells.get(j), p);
        }
    }
}

/// Some grid cell that is not active right now.
fn free_cell(s: &GameSession) -> Pos {
    for row in 0..s.config.rows {
        for col in 0..s.config.columns {
            let p = Pos { row, col };
            if !s.cells.contains(p) {
                return p;
            }
        }
    }
    panic!("active set covers the whole grid");
}

#[test]
fn new_session_samples_the_target_count() {
    let s = GameSession::new(cfg(3, 3, 2));
    assert_eq!(s.score, 0);
    assert_cells_sane(&s, 2);
}

#[test]
fn active_count_is_clamped_below_grid_size() {
    // eight cells at most stay active on a 3 by 3 grid
    let s = GameSession::new(cfg(3, 3, 20));
    assert_cells_sane(&s, 8);
    // a 2 by 2 grid keeps one cell free as well
    let s2 = GameSession::new(cfg(2, 2, 10));
    assert_cells_sane(&s2, 3);
}

#[test]
fn hits_score_and_keep_the_set_size() {
    let mut s = GameSession::new(cfg(2, 2, 1));
    let mut h = HistoryStore::new();
    for k in 0..20u32 {
        let p = s.cells.get(0);
        s.on_input(p.row, p.col, 1000 + k as u128, &mut h);
        assert_eq!(s.score, k + 1);
        assert_cells_sane(&s, 1);
    }
    assert_eq!(h.len(), 0);
}

#[test]
fn hit_replaces_the_hit_cell() {
    let mut s = GameSession::new(cfg(2, 2, 1));
    let mut h = HistoryStore::new();
    let p = s.cells.get(0);
    s.on_input(p.row, p.col, 1000, &mut h);
    // one cell of a two-by-two grid with one slot: the hit cell left the set
    assert!(!s.cells.contains(p));
    assert_cells_sane(&s, 1);
}

#[test]
fn millis_runs_from_the_first_hit() {
    let mut s = GameSession::new(cfg(3, 3, 2));
    let mut h = HistoryStore::new();
    let p = s.cells.get(0);
    s.on_input(p.row, p.col, 5000, &mut h);
    assert_eq!(s.millis, 0);
    let q = s.cells.get(0);
    s.on_input(q.row, q.col, 5750, &mut h);
    assert_eq!(s.millis, 750);
}

#[test]
fn scenario_three_by_three_miss_at_four_records_the_run() {
    let config = cfg(3, 3, 2);
    let mut s = GameSession::new(config);
    let mut h = HistoryStore::new();
    let mut now: u128 = 1000;
    while s.score < 4 {
        let p = s.cells.get(0);
        s.on_input(p.row, p.col, now, &mut h);
        now += 100;
    }
    assert_eq!(s.score, 4);
    let miss_at = free_cell(&s);
    s.on_input(miss_at.row, miss_at.col, now, &mut h);
    assert_eq!(s.score, 0);
    let k = h.find(config).unwrap();
    assert_eq!(h.bucket_len(k), 1);
    let rec = h.bucket_record(k, 0);
    assert_eq!(rec.score, 4);
    assert_eq!(rec.position, 1);
    assert_eq!(rec.millis, 300);
    assert_eq!((rec.rows, rec.columns, rec.active), (3, 3, 2));
}

#[test]
fn short_runs_are_not_recorded() {
    let config = cfg(3, 3, 2);
    let mut s = GameSession::new(config);
    let mut h = HistoryStore::new();
    // a miss with no hits at all records nothing
    let p = free_cell(&s);
    s.on_input(p.row, p.col, 1000, &mut h);
    assert_eq!(h.len(), 0);
    assert_eq!(s.score, 0);
    // a run of exactly one hit records nothing either
    let q = s.cells.get(0);
    s.on_input(q.row, q.col, 2000, &mut h);
    assert_eq!(s.score, 1);
    let m = free_cell(&s);
    s.on_input(m.row, m.col, 2100, &mut h);
    assert_eq!(h.len(), 0);
    assert_eq!(s.score, 0);
    // two hits cross the bar
    let a = s.cells.get(0);
    s.on_input(a.row, a.col, 3000, &mut h);
    let b = s.cells.get(0);
    s.on_input(b.row, b.col, 3100, &mut h);
    let m2 = free_cell(&s);
    s.on_input(m2.row, m2.col, 3200, &mut h);
    assert_eq!(h.len(), 1);
    assert_eq!(h.bucket_record(0, 0).score, 2);
}

#[test]
fn trigger_without_a_hovered_cell_is_a_miss() {
    let mut s = GameSession::new(cfg(3, 3, 2));
    let mut h = HistoryStore::new();
    let mut now: u128 = 0;
    for _ in 0..3 {
        let p = s.cells.get(0);
        s.trigger(Some(p), now, &mut h);
        now += 10;
    }
    assert_eq!(s.score, 3);
    s.trigger(None, now, &mut h);
    assert_eq!(s.score, 0);
    assert_eq!(h.len(), 1);
    assert_eq!(h.bucket_record(0, 0).score, 3);
}

#[test]
fn reconfigure_resets_the_run_but_not_the_history() {
    let mut s = GameSession::new(cfg(3, 3, 2));
    let mut h = HistoryStore::new();
    h.append_run(cfg(3, 3, 2), 5, 100);
    let p = s.cells.get(0);
    s.on_input(p.row, p.col, 1000, &mut h);
    assert_eq!(s.score, 1);
    s.reconfigure(cfg(4, 4, 5));
    assert_eq!(s.score, 0);
    assert_cells_sane(&s, 5);
    assert_eq!(h.len(), 1);
}

#[test]
fn best_record_prefers_high_score_then_low_millis() {
    let config = cfg(3, 3, 2);
    let s = GameSession::new(config);
    let mut h = HistoryStore::new();
    h.append_run(config, 5, 200);
    h.append_run(config, 5, 100);
    h.append_run(config, 3, 50);
    let best = s.best_record(&h);
    assert_eq!(best.score, 5);
    assert_eq!(best.millis, 100);
}

#[test]
fn best_record_sees_the_run_in_progress() {
    let config = cfg(3, 3, 2);
    let mut s = GameSession::new(config);
    let mut h = HistoryStore::new();
    h.append_run(config, 2, 50);
    let mut now: u128 = 1000;
    for _ in 0..3 {
        let p = s.cells.get(0);
        s.on_input(p.row, p.col, now, &mut h);
        now += 100;
    }
    let best = s.best_record(&h);
    assert_eq!(best.score, 3);
    // with no history and no hits, the zero record itself is best
    let s2 = GameSession::new(cfg(4, 4, 3));
    let empty = HistoryStore::new();
    let best2 = s2.best_record(&empty);
    assert_eq!(best2.score, 0);
    assert_eq!(best2.millis, 0);
}

#[test]
fn best_record_ignores_other_configs() {
    let config = cfg(3, 3, 2);
    let s = GameSession::new(config);
    let mut h = HistoryStore::new();
    h.append_run(cfg(4, 4, 2), 99, 1);
    h.append_run(config, 5, 100);
    let best = s.best_record(&h);
    assert_eq!(best.score, 5);
}
