//! The set of currently activated grid cells: unique in-bounds positions,
//! refilled to a clamped target size by random sampling without replacement.

use vstd::prelude::*;
use vstd::seq_lib::group_seq_properties;
use vstd::set_lib::lemma_len_subset;
use crate::Pos;

verus! {

/// How many random draws are tried before the sampler falls back to a
/// deterministic sweep; the sweep keeps the sampler terminating even when
/// almost every cell is already active.
pub const SAMPLE_RETRIES: u32 = 64;

/// Relies on rand's `random_range` over `0..n`: some value of the range comes
/// back; the range is non-empty, so the call cannot panic.
#[verifier::external_body]
fn random_below(n: u32) -> (r: u32)
    requires
        n > 0,
    ensures
        r < n,
{
    rand::random_range(0..n)
}

/// The sampling target: the configured count, clamped so that at least one
/// cell of the grid stays inactive.
pub open spec fn target_count(rows: u32, columns: u32, active: u32) -> int {
    vstd::math::min(active as int, rows as int * columns as int - 1)
}

/// Every member of `swept` has row-major index below `idx`.
pub open spec fn all_before(swept: Set<Pos>, columns: u32, idx: int) -> bool {
    forall|q: Pos| swept.contains(q) ==> (q.row as int) * (columns as int) + (q.col as int) < idx
}

/// Every position of `s` lies on the `rows` by `columns` grid.
pub open spec fn in_bounds(s: Seq<Pos>, rows: u32, columns: u32) -> bool {
    forall|i: int| 0 <= i < s.len() ==> s[i].row < rows && s[i].col < columns
}

/// The set of currently activated cells.
pub struct ActiveSet {
    cells: Vec<Pos>,
}

impl ActiveSet {
    /// The positions of the set, in insertion order.
    pub closed spec fn view(&self) -> Seq<Pos> {
        self.cells@
    }

    /// Set semantics: no position occurs twice.
    pub open spec fn wf(&self) -> bool {
        self@.no_duplicates()
    }

    /// An empty set.
    pub fn new() -> (r: Self)
        ensures
            r@ == Seq::<Pos>::empty(),
            r.wf(),
    {
        ActiveSet { cells: Vec::new() }
    }

    /// How many cells are active.
    pub fn len(&self) -> (r: usize)
        ensures
            r == self@.len(),
    {
        self.cells.len()
    }

    /// The position at index `i`, for walking the set.
    pub fn get(&self, i: usize) -> (r: Pos)
        requires
            i < self@.len(),
        ensures
            r == self@[i as int],
    {
        self.cells[i]
    }

    /// Is `p` an active cell?
    pub fn contains(&self, p: Pos) -> (r: bool)
        ensures
            r == self@.contains(p),
    {
        let mut i: usize = 0;
        while i < self.cells.len()
            invariant
                0 <= i <= self.cells.len(),
                forall|j: int| 0 <= j < i ==> self.cells@[j] != p,
            decreases self.cells.len() - i,
        {
            if self.cells[i] == p {
                return true;
            }
            i = i + 1;
        }
        false
    }

    /// Removes every cell.
    pub fn clear(&mut self)
        ensures
            final(self)@ == Seq::<Pos>::empty(),
            final(self).wf(),
    {
        self.cells.clear();
    }

    /// Deactivates `p`, which must be active.
    pub fn remove(&mut self, p: Pos)
        requires
            old(self).wf(),
            old(self)@.contains(p),
        ensures
            final(self).wf(),
            final(self)@.to_set() == old(self)@.to_set().remove(p),
            final(self)@.len() == old(self)@.len() - 1,
    {
        let ghost pre = self.cells@;
        let mut i: usize = 0;
        while i < self.cells.len()
            invariant
                self.cells@ == pre,
                pre == old(self)@,
                pre.no_duplicates(),
                pre.contains(p),
                0 <= i <= pre.len(),
                forall|j: int| 0 <= j < i ==> pre[j] != p,
            decreases pre.len() - i,
        {
            if self.cells[i] == p {
                self.cells.remove(i);
                proof {
                    lemma_remove_to_set(pre, i as int, p);
                }
                return;
            }
            i = i + 1;
        }
        proof {
            assert(pre.contains(p));
            assert(false);
        }
    }

    /// Activates `p`; `p` must not be active yet.
    pub fn insert(&mut self, p: Pos)
        requires
            old(self).wf(),
            !old(self)@.contains(p),
        ensures
            final(self).wf(),
            final(self)@ == old(self)@.push(p),
            final(self)@.to_set() == old(self)@.to_set().insert(p),
    {
        self.cells.push(p);
        proof {
            let pre = old(self)@;
            let post = self.cells@;
            assert(post.drop_last() =~= pre);
            assert forall|a: int, b: int| 0 <= a < b < post.len() implies post[a] != post[b] by {
                if b < post.len() - 1 {
                    assert(pre[a] == post[a] && pre[b] == post[b]);
                } else {
                    assert(pre.contains(pre[a]));
                }
            }
            assert forall|q: Pos| post.to_set().contains(q) <==> pre.to_set().insert(p).contains(q) by {
                if post.contains(q) {
                    let j = choose|j: int| 0 <= j < post.len() && post[j] == q;
                    if j < post.len() - 1 {
                        assert(pre[j] == q);
                    }
                }
                if pre.contains(q) {
                    let j = choose|j: int| 0 <= j < pre.len() && pre[j] == q;
                    assert(post[j] == q);
                }
                assert(post[post.len() - 1] == p);
            }
            assert(post.to_set() =~= pre.to_set().insert(p));
        }
    }

    /// Picks a free in-bounds cell: a few random draws first, then, in the
    /// unlikely case that each draw was already active, a deterministic sweep
    /// of the grid; a free cell exists because the set is smaller than the grid.
    fn sample_free(&self, rows: u32, columns: u32) -> (q: Pos)
        requires
            self.wf(),
            rows >= 1,
            columns >= 1,
            self@.len() < rows as int * columns as int,
        ensures
            q.row < rows && q.col < columns,
            !self@.contains(q),
    {
        let mut attempt: u32 = 0;
        while attempt < SAMPLE_RETRIES
            invariant
                attempt <= SAMPLE_RETRIES,
                self.wf(),
                rows >= 1,
                columns >= 1,
                self@.len() < rows as int * columns as int,
            decreases SAMPLE_RETRIES - attempt,
        {
            let p = Pos { row: random_below(rows), col: random_below(columns) };
            if !self.contains(p) {
                return p;
            }
            attempt = attempt + 1;
        }
        self.first_free(rows, columns)
    }

    /// The first free cell in row-major order.
    fn first_free(&self, rows: u32, columns: u32) -> (q: Pos)
        requires
            self.wf(),
            rows >= 1,
            columns >= 1,
            self@.len() < rows as int * columns as int,
        ensures
            q.row < rows && q.col < columns,
            !self@.contains(q),
    {
        proof {
            lemma_grid_cells_fit(rows, columns);
        }
        let total: u64 = (rows as u64) * (columns as u64);
        let mut idx: u64 = 0;
        let ghost mut swept: Set<Pos> = Set::empty();
        while idx < total
            invariant
                self.wf(),
                rows >= 1,
                columns >= 1,
                self@.len() < rows as int * columns as int,
                total == rows as int * columns as int,
                0 <= idx <= total,
                swept.finite(),
                swept.len() == idx,
                swept.subset_of(self@.to_set()),
                all_before(swept, columns, idx as int),
            decreases total - idx,
        {
            let row = (idx / (columns as u64)) as u32;
            let col = (idx % (columns as u64)) as u32;
            proof {
                assert(idx / (columns as u64) < rows as u64 && idx % (columns as u64) < columns as u64
                    && (idx / (columns as u64)) * (columns as u64) + idx % (columns as u64) == idx)
                    by (nonlinear_arith)
                    requires columns >= 1, idx < total, total == (rows as u64) * (columns as u64),
                ;
            }
            let p = Pos { row, col };
            if !self.contains(p) {
                return p;
            }
            proof {
                assert(!swept.contains(p));
                swept = swept.insert(p);
            }
            idx = idx + 1;
        }
        proof {
            broadcast use group_seq_properties;
            self@.unique_seq_to_set();
            lemma_len_subset(swept, self@.to_set());
            assert(false);
        }
        vstd::pervasive::unreached()
    }

    /// Refills the set from scratch: afterwards it holds exactly
    /// `min(active, rows * columns - 1)` unique in-bounds positions.
    pub fn resample(&mut self, rows: u32, columns: u32, active: u32)
        requires
            rows >= 1,
            columns >= 1,
            rows as int * columns as int >= 2,
        ensures
            final(self).wf(),
            final(self)@.len() == target_count(rows, columns, active),
            in_bounds(final(self)@, rows, columns),
    {
        self.cells.clear();
        let target = clamp_active(rows, columns, active);
        while self.cells.len() < target as usize
            invariant
                self.wf(),
                in_bounds(self@, rows, columns),
                self@.len() <= target,
                rows >= 1,
                columns >= 1,
                target == target_count(rows, columns, active),
                target <= rows as int * columns as int - 1,
            decreases target - self@.len(),
        {
            let q = self.sample_free(rows, columns);
            self.insert(q);
            proof {
                assert(in_bounds(self@, rows, columns));
            }
        }
    }

    /// Replaces the just-hit cell `p` with one fresh position sampled outside
    /// the whole old set, so the set keeps its size and stays duplicate-free.
    pub fn replace(&mut self, p: Pos, rows: u32, columns: u32)
        requires
            old(self).wf(),
            old(self)@.contains(p),
            rows >= 1,
            columns >= 1,
            old(self)@.len() < rows as int * columns as int,
        ensures
            final(self).wf(),
            final(self)@.len() == old(self)@.len(),
            in_bounds(old(self)@, rows, columns) ==> in_bounds(final(self)@, rows, columns),
            exists|q: Pos|
                q.row < rows && q.col < columns && !old(self)@.contains(q)
                    && final(self)@.to_set() == old(self)@.to_set().remove(p).insert(q),
    {
        let q = self.sample_free(rows, columns);
        self.remove(p);
        proof {
            assert(!self@.contains(q)) by {
                if self@.contains(q) {
                    assert(self@.to_set().contains(q));
                    assert(old(self)@.to_set().contains(q));
                }
            }
        }
        self.insert(q);
        proof {
            assert forall|i: int| 0 <= i < self@.len() && in_bounds(old(self)@, rows, columns)
                implies self@[i].row < rows && self@[i].col < columns by {
                assert(self@.to_set().contains(self@[i]));
                if self@[i] != q {
                    assert(old(self)@.to_set().contains(self@[i]));
                }
            }
        }
    }
}

/// Removing the one occurrence of `p` from a duplicate-free sequence drops
/// exactly `p` from its set of elements.
proof fn lemma_remove_to_set(s: Seq<Pos>, i: int, p: Pos)
    requires
        s.no_duplicates(),
        0 <= i < s.len(),
        s[i] == p,
    ensures
        s.remove(i).to_set() == s.to_set().remove(p),
        s.remove(i).no_duplicates(),
        s.remove(i).len() == s.len() - 1,
{
    let t = s.remove(i);
    assert forall|q: Pos| t.to_set().contains(q) implies s.to_set().remove(p).contains(q) by {
        let j = choose|j: int| 0 <= j < t.len() && t[j] == q;
        if j < i {
            assert(s[j] == q);
        } else {
            assert(s[j + 1] == q);
        }
    }
    assert forall|q: Pos| s.to_set().remove(p).contains(q) implies t.to_set().contains(q) by {
        let j = choose|j: int| 0 <= j < s.len() && s[j] == q;
        assert(j != i);
        if j < i {
            assert(t[j] == q);
        } else {
            assert(t[j - 1] == q);
        }
    }
    assert(t.to_set() =~= s.to_set().remove(p));
    assert forall|a: int, b: int| 0 <= a < b < t.len() implies t[a] != t[b] by {
        if b < i {
        } else if a < i {
            assert(t[a] == s[a] && t[b] == s[b + 1]);
        } else {
            assert(t[a] == s[a + 1] && t[b] == s[b + 1]);
        }
    }
}

/// The cell count of any grid with 32-bit dimensions fits in 64 bits.
pub proof fn lemma_grid_cells_fit(rows: u32, columns: u32)
    ensures
        rows as int * columns as int <= 0xFFFF_FFFF_FFFF_FFFF,
{
    assert(rows as int * columns as int <= 0xFFFF_FFFF * 0xFFFF_FFFF) by (nonlinear_arith)
        requires rows as int <= 0xFFFF_FFFF, columns as int <= 0xFFFF_FFFF,
    ;
}

/// The configured count, clamped so at least one grid cell stays inactive.
pub fn clamp_active(rows: u32, columns: u32, active: u32) -> (r: u32)
    requires
        rows >= 1,
        columns >= 1,
        rows as int * columns as int >= 2,
    ensures
        r == target_count(rows, columns, active),
{
    proof {
        lemma_grid_cells_fit(rows, columns);
    }
    let cells = (rows as u64) * (columns as u64);
    if (active as u64) <= cells - 1 {
        active
    } else {
        (cells - 1) as u32
    }
}

} // verus!
