//! One run of the game: the current score and elapsed time, the active
//! cells, and the transitions that inputs drive — a hit on an active cell
//! scores and resamples that cell, anything else ends the run and may record
//! it in the history.

use vstd::prelude::*;
use crate::Pos;
use crate::active::{ActiveSet, in_bounds, target_count};
use crate::history::{GridConfig, HistoryStore, bucket_count, bucket_records, find_key, prepend_run, store_wf};
use crate::record::Record;

verus! {

/// `a` beats `b`: a higher score, or the same score in less time.
pub open spec fn better(a: Record, b: Record) -> bool {
    a.score > b.score || (a.score == b.score && a.millis < b.millis)
}

/// A 2 by 2 grid or larger has at least four cells.
proof fn lemma_config_cells(c: GridConfig)
    requires
        c.wf(),
    ensures
        c.rows as int * c.columns as int >= 4,
{
    assert(c.rows as int * c.columns as int >= 4) by (nonlinear_arith)
        requires c.rows >= 2, c.columns >= 2,
    ;
}

/// The state of the current run.
pub struct GameSession {
    /// The grid configuration the run is played on.
    pub config: GridConfig,
    /// Successful hits so far; zero between runs.
    pub score: u32,
    /// Elapsed milliseconds from the run's first hit to its latest.
    pub millis: u128,
    /// The wall-clock millisecond instant of the run's first hit.
    pub start_ms: u128,
    /// The currently activated cells.
    pub cells: ActiveSet,
}

impl GameSession {
    /// A session in a playable state: a sane configuration and a full,
    /// duplicate-free, in-bounds active set.
    pub open spec fn wf(&self) -> bool {
        &&& self.config.wf()
        &&& self.cells.wf()
        &&& in_bounds(self.cells@, self.config.rows, self.config.columns)
        &&& self.cells@.len() == target_count(self.config.rows, self.config.columns, self.config.active)
    }

    /// Starts an idle session on `config` with a freshly sampled active set.
    pub fn new(config: GridConfig) -> (r: Self)
        requires
            config.wf(),
        ensures
            r.wf(),
            r.config == config,
            r.score == 0,
    {
        proof {
            lemma_config_cells(config);
        }
        let mut cells = ActiveSet::new();
        cells.resample(config.rows, config.columns, config.active);
        GameSession { config, score: 0, millis: 0, start_ms: 0, cells }
    }

    /// Switches to `config`: the score resets, the active set is resampled
    /// for the new shape; the history is untouched.
    pub fn reconfigure(&mut self, config: GridConfig)
        requires
            old(self).wf(),
            config.wf(),
        ensures
            final(self).wf(),
            final(self).config == config,
            final(self).score == 0,
    {
        proof {
            lemma_config_cells(config);
        }
        self.config = config;
        self.score = 0;
        self.cells.resample(config.rows, config.columns, config.active);
    }

    /// Ends the run. A run worth recording — score above one — is prepended
    /// to the history bucket of the current configuration, with the next
    /// insertion rank; any run resets the score to zero. The active set and
    /// the configuration stay.
    pub fn miss(&mut self, history: &mut HistoryStore)
        requires
            old(self).wf(),
            store_wf(old(history)@),
            bucket_count(old(history)@, old(self).config) < u32::MAX,
        ensures
            final(self).wf(),
            store_wf(final(history)@),
            final(self).score == 0,
            final(self).config == old(self).config,
            final(self).cells == old(self).cells,
            final(self).millis == old(self).millis,
            final(history)@ == if old(self).score > 1 {
                prepend_run(old(history)@, old(self).config, old(self).score, old(self).millis)
            } else {
                old(history)@
            },
    {
        if self.score > 1 {
            history.append_run(self.config, self.score, self.millis);
        }
        self.score = 0;
    }

    /// A hit on the active cell `(row, col)`: the first hit of a run starts
    /// the clock, every hit advances the score by one and the elapsed time to
    /// now, and the hit cell is replaced by one fresh cell from outside the
    /// old active set — the set keeps its size and stays duplicate-free.
    pub fn hit(&mut self, row: u32, col: u32, now_ms: u128)
        requires
            old(self).wf(),
            old(self).cells@.contains(Pos { row, col }),
            old(self).score < u32::MAX,
            old(self).score > 0 ==> now_ms >= old(self).start_ms,
        ensures
            final(self).wf(),
            final(self).config == old(self).config,
            final(self).score == old(self).score + 1,
            final(self).start_ms == if old(self).score == 0 { now_ms } else { old(self).start_ms },
            final(self).millis == now_ms - final(self).start_ms,
            final(self).cells@.len() == old(self).cells@.len(),
            exists|q: Pos|
                q.row < old(self).config.rows && q.col < old(self).config.columns
                    && !old(self).cells@.contains(q)
                    && final(self).cells@.to_set() == old(self).cells@.to_set().remove(
                    Pos { row, col },
                ).insert(q),
    {
        proof {
            lemma_config_cells(self.config);
        }
        if self.score == 0 {
            self.start_ms = now_ms;
        }
        self.millis = now_ms - self.start_ms;
        self.score = self.score + 1;
        self.cells.replace(Pos { row, col }, self.config.rows, self.config.columns);
    }

    /// One raw input aimed at `(row, col)`: a hit if that cell is active,
    /// otherwise a miss that ends the run.
    pub fn on_input(&mut self, row: u32, col: u32, now_ms: u128, history: &mut HistoryStore)
        requires
            old(self).wf(),
            store_wf(old(history)@),
            bucket_count(old(history)@, old(self).config) < u32::MAX,
            old(self).score < u32::MAX,
            old(self).score > 0 ==> now_ms >= old(self).start_ms,
        ensures
            final(self).wf(),
            store_wf(final(history)@),
            final(self).config == old(self).config,
            old(self).cells@.contains(Pos { row, col }) ==> {
                &&& final(self).score == old(self).score + 1
                &&& final(history)@ == old(history)@
                &&& final(self).cells@.len() == old(self).cells@.len()
            },
            !old(self).cells@.contains(Pos { row, col }) ==> {
                &&& final(self).score == 0
                &&& final(self).cells == old(self).cells
                &&& final(history)@ == if old(self).score > 1 {
                    prepend_run(old(history)@, old(self).config, old(self).score, old(self).millis)
                } else {
                    old(history)@
                }
            },
    {
        if self.cells.contains(Pos { row, col }) {
            self.hit(row, col, now_ms);
        } else {
            self.miss(history);
        }
    }

    /// One trigger event, resolved against the hovered cell: input on that
    /// cell if one is hovered, otherwise an unconditional miss.
    pub fn trigger(&mut self, hovered: Option<Pos>, now_ms: u128, history: &mut HistoryStore)
        requires
            old(self).wf(),
            store_wf(old(history)@),
            bucket_count(old(history)@, old(self).config) < u32::MAX,
            old(self).score < u32::MAX,
            old(self).score > 0 ==> now_ms >= old(self).start_ms,
        ensures
            final(self).wf(),
            store_wf(final(history)@),
            final(self).config == old(self).config,
            match hovered {
                Some(p) => old(self).cells@.contains(p) ==> final(self).score == old(self).score
                    + 1,
                None => final(self).score == 0,
            },
            (match hovered {
                Some(p) => !old(self).cells@.contains(p),
                None => true,
            }) ==> final(history)@ == if old(self).score > 1 {
                prepend_run(old(history)@, old(self).config, old(self).score, old(self).millis)
            } else {
                old(history)@
            },
    {
        match hovered {
            Some(p) => self.on_input(p.row, p.col, now_ms, history),
            None => self.miss(history),
        }
    }

    /// The run in progress, seen as a record; its rank is zero as it has no
    /// place in the history yet.
    pub fn current_record(&self) -> (r: Record)
        ensures
            r == (Record {
                position: 0,
                score: self.score,
                millis: self.millis,
                rows: self.config.rows,
                columns: self.config.columns,
                active: self.config.active,
            }),
    {
        Record::new(0, self.score, self.millis, self.config.rows, self.config.columns, self.config.active)
    }

    /// The best run to show: among the run in progress and the stored runs of
    /// the current configuration, one that no other beats — a higher score
    /// wins, a tied score in less time wins.
    pub fn best_record(&self, history: &HistoryStore) -> (r: Record)
        ensures
            ({
                let pool = seq![
                    (Record {
                        position: 0,
                        score: self.score,
                        millis: self.millis,
                        rows: self.config.rows,
                        columns: self.config.columns,
                        active: self.config.active,
                    }),
                ] + bucket_records(history@, self.config);
                &&& pool.contains(r)
                &&& forall|i: int| 0 <= i < pool.len() ==> !better(#[trigger] pool[i], r)
            }),
    {
        let ghost pool = seq![
            (Record {
                position: 0,
                score: self.score,
                millis: self.millis,
                rows: self.config.rows,
                columns: self.config.columns,
                active: self.config.active,
            }),
        ] + bucket_records(history@, self.config);
        let mut best = self.current_record();
        proof {
            assert(pool[0] == best);
        }
        match history.find(self.config) {
            None => {
                proof {
                    assert(bucket_records(history@, self.config) =~= Seq::<Record>::empty());
                    assert(pool.len() == 1);
                }
                best
            },
            Some(k) => {
                let n = history.bucket_len(k);
                let mut i: usize = 0;
                while i < n
                    invariant
                        k == find_key(history@, self.config),
                        k < history@.len(),
                        n == history@[k as int].records.len(),
                        pool == seq![
                            (Record {
                                position: 0,
                                score: self.score,
                                millis: self.millis,
                                rows: self.config.rows,
                                columns: self.config.columns,
                                active: self.config.active,
                            }),
                        ] + history@[k as int].records,
                        0 <= i <= n,
                        pool.contains(best),
                        forall|j: int| 0 <= j < i + 1 ==> !better(#[trigger] pool[j], best),
                    decreases n - i,
                {
                    let rec = history.bucket_record(k, i);
                    proof {
                        assert(pool[i + 1] == rec);
                    }
                    if rec.score > best.score || (rec.score == best.score && rec.millis < best.millis) {
                        best = rec;
                        proof {
                            assert(pool.contains(best));
                            assert forall|j: int| 0 <= j < i + 2 implies !better(#[trigger] pool[j], best) by {
                            }
                        }
                    }
                    i = i + 1;
                }
                best
            },
        }
    }

}

} // verus!
