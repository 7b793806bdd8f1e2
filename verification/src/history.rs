//! Past runs, grouped into one bucket per grid configuration, most recent
//! first, together with the line-oriented text form in which the whole store
//! is persisted.
//!
//! The text form is a version line `1`, then for each bucket three header
//! lines — the rows value behind three tabs, the columns value behind two,
//! the active value behind one — followed by one line per record holding
//! `position,score,millis`. A malformed text is discarded wholesale: loading
//! it yields the empty store.

use vstd::prelude::*;
use vstd::slice::slice_subrange;
use crate::dec::{dec_of, fmt_dec, is_digit, lemma_dec_of_digits, lemma_dec_of_val, parse_u128, parse_u128_spec, parse_u32, parse_u32_spec};
use crate::record::Record;

verus! {

/// The newline byte, which ends every line of the stored text.
pub const NL: u8 = 10;
/// The tab byte, which marks and ranks the header lines.
pub const TAB: u8 = 9;
/// The comma byte, which separates the fields of a record line.
pub const COMMA: u8 = 44;
/// The digit one: the version line of the stored text.
pub const VERSION: u8 = 49;

/// The triple that identifies one game mode and so one history bucket.
#[derive(Clone, Copy, PartialEq, Eq, Structural, Debug)]
pub struct GridConfig {
    pub rows: u32,
    pub columns: u32,
    pub active: u32,
}

impl GridConfig {
    /// The shape the game accepts: at least a 2 by 2 grid, at least one
    /// active cell.
    pub open spec fn wf(&self) -> bool {
        self.rows >= 2 && self.columns >= 2 && self.active >= 1
    }

    /// Builds a playable configuration from raw values, raising each to its
    /// minimum: two rows, two columns, one active cell.
    pub fn sanitize(rows: u32, columns: u32, active: u32) -> (r: GridConfig)
        ensures
            r.wf(),
            r == (GridConfig {
                rows: if rows < 2 { 2 } else { rows },
                columns: if columns < 2 { 2 } else { columns },
                active: if active < 1 { 1 } else { active },
            }),
    {
        GridConfig {
            rows: if rows < 2 { 2 } else { rows },
            columns: if columns < 2 { 2 } else { columns },
            active: if active < 1 { 1 } else { active },
        }
    }
}

/// The mathematical value of one bucket: its configuration and its records,
/// most recent first.
pub ghost struct BucketView {
    pub config: GridConfig,
    pub records: Seq<Record>,
}

/// One bucket: the records of one grid configuration, most recent first.
pub struct Bucket {
    config: GridConfig,
    records: Vec<Record>,
}

impl View for Bucket {
    type V = BucketView;

    closed spec fn view(&self) -> BucketView {
        BucketView { config: self.config, records: self.records@ }
    }
}

/// A record carries the same grid triple as the bucket that holds it.
pub open spec fn record_matches(r: Record, c: GridConfig) -> bool {
    r.rows == c.rows && r.columns == c.columns && r.active == c.active
}

/// A well-formed bucket: non-empty, every record of its own configuration.
pub open spec fn bucket_wf(b: BucketView) -> bool {
    &&& b.records.len() >= 1
    &&& forall|i: int| 0 <= i < b.records.len() ==> record_matches(#[trigger] b.records[i], b.config)
}

/// The first bucket of configuration `c`, or the length if there is none.
pub open spec fn find_key(bs: Seq<BucketView>, c: GridConfig) -> int
    decreases bs.len(),
{
    if bs.len() == 0 {
        0
    } else if bs[0].config == c {
        0
    } else {
        1 + find_key(bs.drop_first(), c)
    }
}

/// `find_key` yields the first index of `c`, or the length if `c` is absent.
pub proof fn lemma_find_key(bs: Seq<BucketView>, c: GridConfig)
    ensures
        0 <= find_key(bs, c) <= bs.len(),
        find_key(bs, c) < bs.len() ==> bs[find_key(bs, c)].config == c,
        forall|j: int| 0 <= j < find_key(bs, c) ==> (#[trigger] bs[j]).config != c,
    decreases bs.len(),
{
    if bs.len() > 0 && bs[0].config != c {
        lemma_find_key(bs.drop_first(), c);
        assert forall|j: int| 0 <= j < find_key(bs, c) implies (#[trigger] bs[j]).config != c by {
            if j > 0 {
                assert(bs.drop_first()[j - 1] == bs[j]);
            }
        }
    }
}

/// A well-formed store: well-formed buckets, one per configuration.
pub open spec fn store_wf(bs: Seq<BucketView>) -> bool {
    &&& forall|i: int| 0 <= i < bs.len() ==> bucket_wf(#[trigger] bs[i])
    &&& forall|i: int, j: int| 0 <= i < j < bs.len() ==> bs[i].config != bs[j].config
}

/// The line of one record: `position,score,millis` and a newline.
pub open spec fn rec_line(r: Record) -> Seq<u8> {
    dec_of(r.position as nat) + seq![COMMA] + dec_of(r.score as nat) + seq![COMMA]
        + dec_of(r.millis as nat) + seq![NL]
}

/// The record lines of a bucket, in bucket order.
pub open spec fn rec_lines(rs: Seq<Record>) -> Seq<u8>
    decreases rs.len(),
{
    if rs.len() == 0 {
        Seq::empty()
    } else {
        rec_line(rs[0]) + rec_lines(rs.drop_first())
    }
}

/// One header line: `depth` tabs, the decimal value, a newline.
pub open spec fn header_line(depth: int, v: u32) -> Seq<u8> {
    Seq::new(depth as nat, |i: int| TAB) + dec_of(v as nat) + seq![NL]
}

/// The text block of one bucket: three headers, then its record lines.
pub open spec fn bucket_bytes(b: BucketView) -> Seq<u8> {
    header_line(3, b.config.rows) + header_line(2, b.config.columns)
        + header_line(1, b.config.active) + rec_lines(b.records)
}

/// The text blocks of the buckets, in store order.
pub open spec fn buckets_bytes(bs: Seq<BucketView>) -> Seq<u8>
    decreases bs.len(),
{
    if bs.len() == 0 {
        Seq::empty()
    } else {
        bucket_bytes(bs[0]) + buckets_bytes(bs.drop_first())
    }
}

/// The full stored text: the version line, then the bucket blocks.
pub open spec fn save_spec(bs: Seq<BucketView>) -> Seq<u8> {
    seq![VERSION, NL] + buckets_bytes(bs)
}

/// Splitting one bucket off the front of the serialization.
pub proof fn lemma_buckets_bytes_take(bs: Seq<BucketView>, i: int)
    requires
        0 <= i < bs.len(),
    ensures
        buckets_bytes(bs.take(i + 1)) == buckets_bytes(bs.take(i)) + bucket_bytes(bs[i]),
    decreases i,
{
    if i == 0 {
        assert(bs.take(1).drop_first() =~= Seq::<BucketView>::empty());
        assert(bs.take(0) =~= Seq::<BucketView>::empty());
        assert(bs.take(1)[0] == bs[0]);
        assert(buckets_bytes(bs.take(1))
            == bucket_bytes(bs.take(1)[0]) + buckets_bytes(bs.take(1).drop_first()));
        assert(buckets_bytes(Seq::<BucketView>::empty()) == Seq::<u8>::empty());
        assert(buckets_bytes(bs.take(1)) =~= buckets_bytes(bs.take(0)) + bucket_bytes(bs[0]));
    } else {
        lemma_buckets_bytes_take(bs.drop_first(), i - 1);
        assert(bs.take(i + 1).drop_first() =~= bs.drop_first().take(i));
        assert(bs.take(i).drop_first() =~= bs.drop_first().take(i - 1));
        assert(bs.take(i + 1)[0] == bs[0]);
        assert(bs.take(i)[0] == bs[0]);
        assert(bs.drop_first()[i - 1] == bs[i]);
        assert(buckets_bytes(bs.take(i + 1)) == bucket_bytes(bs[0]) + buckets_bytes(bs.drop_first().take(i)));
        assert(bucket_bytes(bs[0]) + (buckets_bytes(bs.drop_first().take(i - 1)) + bucket_bytes(bs[i]))
            =~= (bucket_bytes(bs[0]) + buckets_bytes(bs.drop_first().take(i - 1))) + bucket_bytes(bs[i]));
    }
}

/// Splitting one record off the front of a bucket's record lines.
pub proof fn lemma_rec_lines_take(rs: Seq<Record>, i: int)
    requires
        0 <= i < rs.len(),
    ensures
        rec_lines(rs.take(i + 1)) == rec_lines(rs.take(i)) + rec_line(rs[i]),
    decreases i,
{
    if i == 0 {
        assert(rs.take(1).drop_first() =~= Seq::<Record>::empty());
        assert(rs.take(0) =~= Seq::<Record>::empty());
        assert(rs.take(1)[0] == rs[0]);
        assert(rec_lines(rs.take(1))
            == rec_line(rs.take(1)[0]) + rec_lines(rs.take(1).drop_first()));
        assert(rec_lines(Seq::<Record>::empty()) == Seq::<u8>::empty());
        assert(rec_lines(rs.take(1)) =~= rec_lines(rs.take(0)) + rec_line(rs[0]));
    } else {
        lemma_rec_lines_take(rs.drop_first(), i - 1);
        assert(rs.take(i + 1).drop_first() =~= rs.drop_first().take(i));
        assert(rs.take(i).drop_first() =~= rs.drop_first().take(i - 1));
        assert(rs.take(i + 1)[0] == rs[0]);
        assert(rs.take(i)[0] == rs[0]);
        assert(rs.drop_first()[i - 1] == rs[i]);
        assert(rec_line(rs[0]) + (rec_lines(rs.drop_first().take(i - 1)) + rec_line(rs[i]))
            =~= (rec_line(rs[0]) + rec_lines(rs.drop_first().take(i - 1))) + rec_line(rs[i]));
    }
}

/// How many records the bucket of `c` holds; zero where there is none.
pub open spec fn bucket_count(bs: Seq<BucketView>, c: GridConfig) -> int {
    let k = find_key(bs, c);
    if k == bs.len() {
        0
    } else {
        bs[k].records.len() as int
    }
}

/// Prepending a finished run: the new record takes the next one-based
/// insertion rank of its bucket and stands first; a new configuration opens
/// a new bucket at the end of the store.
pub open spec fn prepend_run(bs: Seq<BucketView>, c: GridConfig, sc: u32, m: u128) -> Seq<BucketView> {
    let k = find_key(bs, c);
    if k == bs.len() {
        let rec = Record {
            position: 1,
            score: sc,
            millis: m,
            rows: c.rows,
            columns: c.columns,
            active: c.active,
        };
        bs.push(BucketView { config: c, records: seq![rec] })
    } else {
        let rec = Record {
            position: (bs[k].records.len() + 1) as u32,
            score: sc,
            millis: m,
            rows: c.rows,
            columns: c.columns,
            active: c.active,
        };
        bs.update(k, BucketView { config: c, records: seq![rec] + bs[k].records })
    }
}

/// The stored records of `c`'s bucket; empty where there is no bucket.
pub open spec fn bucket_records(bs: Seq<BucketView>, c: GridConfig) -> Seq<Record> {
    let k = find_key(bs, c);
    if k == bs.len() {
        Seq::empty()
    } else {
        bs[k].records
    }
}

/// What recording a run does to the history: exactly the bucket of the run's
/// configuration grows, by exactly one record, which stands first, carries
/// the run's score and time and the next one-based rank, and pushes the
/// older records back unchanged.
pub proof fn lemma_prepend_run_effect(bs: Seq<BucketView>, c: GridConfig, sc: u32, m: u128)
    requires
        store_wf(bs),
        bucket_count(bs, c) < u32::MAX,
    ensures
        bucket_records(prepend_run(bs, c, sc, m), c).len() == bucket_records(bs, c).len() + 1,
        bucket_records(prepend_run(bs, c, sc, m), c)[0] == (Record {
            position: (bucket_records(bs, c).len() + 1) as u32,
            score: sc,
            millis: m,
            rows: c.rows,
            columns: c.columns,
            active: c.active,
        }),
        forall|i: int| 0 <= i < bucket_records(bs, c).len()
            ==> bucket_records(prepend_run(bs, c, sc, m), c)[i + 1] == #[trigger] bucket_records(bs, c)[i],
        forall|c2: GridConfig| c2 != c ==> #[trigger] bucket_records(prepend_run(bs, c, sc, m), c2)
            == bucket_records(bs, c2),
{
    let post = prepend_run(bs, c, sc, m);
    let k = find_key(bs, c);
    lemma_find_key(bs, c);
    if k == bs.len() {
        assert(post == bs.push(BucketView { config: c, records: seq![post[k].records[0]] }));
        assert forall|j: int| 0 <= j < bs.len() implies (#[trigger] post[j]).config != c by {
            assert(post[j] == bs[j]);
        }
        lemma_find_key_at(post, c, k);
        assert(bucket_records(post, c) == post[k].records);
    } else {
        lemma_find_key_update(bs, k, post[k], c);
        assert(find_key(post, c) == k);
        assert(post[k].records == seq![post[k].records[0]] + bs[k].records);
    }
    assert forall|c2: GridConfig| c2 != c implies #[trigger] bucket_records(post, c2)
        == bucket_records(bs, c2) by {
        lemma_find_key(bs, c2);
        lemma_find_key(post, c2);
        let k2 = find_key(bs, c2);
        assert forall|j: int| 0 <= j < k2 implies (#[trigger] post[j]).config != c2 by {
            if j == k && k < bs.len() {
                assert(post[j].config == c);
            } else {
                assert(post[j] == bs[j]);
            }
        }
        if k2 < bs.len() {
            assert(bs[k2].config == c2);
            assert(k2 != k || k == bs.len());
            assert(post[k2] == bs[k2]);
            lemma_find_key_at(post, c2, k2);
        } else {
            assert forall|j: int| 0 <= j < post.len() implies (#[trigger] post[j]).config != c2 by {
                if j < bs.len() && (j != k || k == bs.len()) {
                    assert(post[j] == bs[j]);
                } else {
                    assert(post[j].config == c);
                }
            }
            lemma_find_key_at(post, c2, post.len() as int);
        }
    }
}

/// Dropping the bucket of `c`, where there is one.
pub open spec fn remove_bucket(bs: Seq<BucketView>, c: GridConfig) -> Seq<BucketView> {
    let k = find_key(bs, c);
    if k == bs.len() {
        bs
    } else {
        bs.remove(k)
    }
}

/// The ordered collection of past runs, one bucket per grid configuration.
pub struct HistoryStore {
    buckets: Vec<Bucket>,
}

impl View for HistoryStore {
    type V = Seq<BucketView>;

    closed spec fn view(&self) -> Seq<BucketView> {
        Seq::new(self.buckets@.len(), |i: int| self.buckets@[i]@)
    }
}

impl HistoryStore {
    /// The store with no past runs.
    pub fn new() -> (r: Self)
        ensures
            r@ == Seq::<BucketView>::empty(),
            store_wf(r@),
    {
        let r = HistoryStore { buckets: Vec::new() };
        proof {
            assert(r@ =~= Seq::<BucketView>::empty());
        }
        r
    }

    /// Serializes the store to its stored text.
    pub fn save(&self) -> (r: Vec<u8>)
        ensures
            r@ == save_spec(self@),
    {
        let mut out: Vec<u8> = Vec::new();
        out.push(VERSION);
        out.push(NL);
        proof {
            assert(out@ =~= seq![VERSION, NL] + buckets_bytes(self@.take(0)));
        }
        let mut i: usize = 0;
        while i < self.buckets.len()
            invariant
                0 <= i <= self.buckets.len(),
                out@ == seq![VERSION, NL] + buckets_bytes(self@.take(i as int)),
            decreases self.buckets.len() - i,
        {
            let b = &self.buckets[i];
            push_header(&mut out, 3, b.config.rows);
            push_header(&mut out, 2, b.config.columns);
            push_header(&mut out, 1, b.config.active);
            let ghost headers = out@;
            let mut j: usize = 0;
            while j < b.records.len()
                invariant
                    0 <= j <= b.records.len(),
                    out@ == headers + rec_lines(b.records@.take(j as int)),
                decreases b.records.len() - j,
            {
                let r = &b.records[j];
                let mut d = fmt_dec(r.position as u128);
                out.append(&mut d);
                out.push(COMMA);
                let mut d = fmt_dec(r.score as u128);
                out.append(&mut d);
                out.push(COMMA);
                let mut d = fmt_dec(r.millis);
                out.append(&mut d);
                out.push(NL);
                proof {
                    lemma_rec_lines_take(b.records@, j as int);
                    assert(out@ =~= headers + rec_lines(b.records@.take(j as int + 1)));
                }
                j = j + 1;
            }
            proof {
                assert(b.records@.take(b.records@.len() as int) =~= b.records@);
                lemma_buckets_bytes_take(self@, i as int);
                assert(self@[i as int] == self.buckets@[i as int]@);
                assert(headers + rec_lines(b.records@)
                    =~= (seq![VERSION, NL] + buckets_bytes(self@.take(i as int))) + bucket_bytes(self@[i as int]));
                assert((seq![VERSION, NL] + buckets_bytes(self@.take(i as int))) + bucket_bytes(self@[i as int])
                    =~= seq![VERSION, NL] + (buckets_bytes(self@.take(i as int)) + bucket_bytes(self@[i as int])));
            }
            i = i + 1;
        }
        proof {
            assert(self@.take(self@.len() as int) =~= self@);
        }
        out
    }
}

/// First index of `b` in `s`, or the length if `b` is absent.
pub open spec fn find_byte(s: Seq<u8>, b: u8) -> int
    decreases s.len(),
{
    if s.len() == 0 {
        0
    } else if s[0] == b {
        0
    } else {
        1 + find_byte(s.drop_first(), b)
    }
}

/// `find_byte` yields the first index of `b`, or the length if `b` is absent.
pub proof fn lemma_find_byte(s: Seq<u8>, b: u8)
    ensures
        0 <= find_byte(s, b) <= s.len(),
        find_byte(s, b) < s.len() ==> s[find_byte(s, b)] == b,
        forall|j: int| 0 <= j < find_byte(s, b) ==> s[j] != b,
    decreases s.len(),
{
    if s.len() > 0 && s[0] != b {
        lemma_find_byte(s.drop_first(), b);
        assert forall|j: int| 0 <= j < find_byte(s, b) implies s[j] != b by {
            if j > 0 {
                assert(s.drop_first()[j - 1] == s[j]);
            }
        }
    }
}

/// The loader's nesting context: the header values seen so far.
pub ghost struct LoadCtx {
    pub rows: Option<u32>,
    pub columns: Option<u32>,
    pub active: Option<u32>,
}

/// The context before any header line.
pub open spec fn init_ctx() -> LoadCtx {
    LoadCtx { rows: None, columns: None, active: None }
}

/// The three fields of a record line: `position,score,millis`.
pub open spec fn parse_rec_fields(line: Seq<u8>) -> Option<(u32, u32, u128)> {
    let i = find_byte(line, COMMA);
    if i == line.len() {
        None
    } else {
        let rest = line.skip(i + 1);
        let j = find_byte(rest, COMMA);
        if j == rest.len() {
            None
        } else {
            match (parse_u32_spec(line.take(i)), parse_u32_spec(rest.take(j)), parse_u128_spec(rest.skip(j + 1))) {
                (Some(p), Some(sc), Some(m)) => Some((p, sc, m)),
                _ => None,
            }
        }
    }
}

/// Appends a loaded record to the bucket of `c`, creating the bucket at the
/// end of the store if `c` is new.
pub open spec fn append_rec(acc: Seq<BucketView>, c: GridConfig, p: u32, sc: u32, m: u128) -> Seq<BucketView> {
    let rec = Record {
        position: p,
        score: sc,
        millis: m,
        rows: c.rows,
        columns: c.columns,
        active: c.active,
    };
    let k = find_key(acc, c);
    if k == acc.len() {
        acc.push(BucketView { config: c, records: seq![rec] })
    } else {
        acc.update(k, BucketView { config: c, records: acc[k].records.push(rec) })
    }
}

/// What one line does to the loader: a header line at tab depth three, two or
/// one sets the matching context level and clears the deeper ones; any other
/// line is a record line of the current context. `None` is a malformed line.
pub open spec fn line_step(line: Seq<u8>, ctx: LoadCtx, acc: Seq<BucketView>) -> Option<(LoadCtx, Seq<BucketView>)> {
    if line.len() >= 3 && line[0] == TAB && line[1] == TAB && line[2] == TAB {
        match parse_u32_spec(line.skip(3)) {
            Some(v) => Some((LoadCtx { rows: Some(v), columns: None, active: None }, acc)),
            None => None,
        }
    } else if line.len() >= 2 && line[0] == TAB && line[1] == TAB {
        match (ctx.rows, parse_u32_spec(line.skip(2))) {
            (Some(_), Some(v)) => Some((LoadCtx { columns: Some(v), active: None, ..ctx }, acc)),
            _ => None,
        }
    } else if line.len() >= 1 && line[0] == TAB {
        match (ctx.columns, parse_u32_spec(line.skip(1))) {
            (Some(_), Some(v)) => Some((LoadCtx { active: Some(v), ..ctx }, acc)),
            _ => None,
        }
    } else {
        match (ctx.rows, ctx.columns, ctx.active) {
            (Some(r), Some(c), Some(a)) => {
                let cfg = GridConfig { rows: r, columns: c, active: a };
                match parse_rec_fields(line) {
                    Some((p, sc, m)) => Some((ctx, append_rec(acc, cfg, p, sc, m))),
                    None => None,
                }
            },
            _ => None,
        }
    }
}

/// Runs the loader over the lines after the version line. `None` is a
/// malformed text.
pub open spec fn parse_lines(s: Seq<u8>, ctx: LoadCtx, acc: Seq<BucketView>) -> Option<Seq<BucketView>>
    decreases s.len(),
    via parse_lines_dec
{
    if s.len() == 0 {
        Some(acc)
    } else {
        let i = find_byte(s, NL);
        if i == s.len() {
            None
        } else {
            match line_step(s.take(i), ctx, acc) {
                Some((ctx2, acc2)) => parse_lines(s.skip(i + 1), ctx2, acc2),
                None => None,
            }
        }
    }
}

#[via_fn]
proof fn parse_lines_dec(s: Seq<u8>, ctx: LoadCtx, acc: Seq<BucketView>) {
    lemma_find_byte(s, NL);
}

/// What loading a stored text yields: the buckets it describes, or `None`
/// where the text is malformed — no version line `1`, a line out of nesting
/// order, or a field that is not a decimal number in range.
pub open spec fn load_spec(s: Seq<u8>) -> Option<Seq<BucketView>> {
    let i = find_byte(s, NL);
    if i == s.len() {
        None
    } else if s.take(i) == seq![VERSION] {
        parse_lines(s.skip(i + 1), init_ctx(), Seq::empty())
    } else {
        None
    }
}

/// Scans `s` for `b` from position `from`; the first hit, or the length.
fn scan_byte(s: &[u8], b: u8, from: usize) -> (r: usize)
    requires
        from <= s.len(),
    ensures
        from <= r <= s.len(),
        r - from == find_byte(s@.skip(from as int), b),
        r < s.len() ==> s@[r as int] == b,
        forall|j: int| from <= j < r ==> s@[j] != b,
{
    let ghost t = s@.skip(from as int);
    proof {
        lemma_find_byte(t, b);
    }
    let mut i: usize = from;
    while i < s.len()
        invariant
            from <= i <= s.len(),
            t == s@.skip(from as int),
            forall|j: int| from <= j < i ==> s@[j] != b,
        decreases s.len() - i,
    {
        if s[i] == b {
            proof {
                assert(t[i - from] == s@[i as int]);
                assert forall|j: int| 0 <= j < i - from implies t[j] != b by {
                    assert(t[j] == s@[j + from]);
                }
                lemma_find_byte(t, b);
                if find_byte(t, b) < i - from {
                    assert(t[find_byte(t, b)] == b);
                    assert(s@[find_byte(t, b) + from] == b);
                }
            }
            return i;
        }
        i = i + 1;
    }
    proof {
        assert forall|j: int| 0 <= j < t.len() implies t[j] != b by {
            assert(t[j] == s@[j + from]);
        }
        lemma_find_byte(t, b);
        if find_byte(t, b) < t.len() {
            assert(t[find_byte(t, b)] == b);
        }
    }
    s.len()
}

impl HistoryStore {
    /// Appends a loaded record at the back of the bucket of `config`,
    /// creating the bucket if it is new.
    fn append_back(&mut self, config: GridConfig, position: u32, score: u32, millis: u128)
        requires
            store_wf(old(self)@),
        ensures
            store_wf(final(self)@),
            final(self)@ == append_rec(old(self)@, config, position, score, millis),
    {
        let rec = Record::new(position, score, millis, config.rows, config.columns, config.active);
        proof {
            lemma_find_key(old(self)@, config);
        }
        let mut k: usize = 0;
        while k < self.buckets.len()
            invariant
                *self == *old(self),
                store_wf(old(self)@),
                rec == (Record {
                    position,
                    score,
                    millis,
                    rows: config.rows,
                    columns: config.columns,
                    active: config.active,
                }),
                0 <= k <= self.buckets.len(),
                self@.len() == self.buckets.len(),
                forall|j: int| 0 <= j < k ==> (#[trigger] self@[j]).config != config,
            decreases self.buckets.len() - k,
        {
            proof {
                assert(self@[k as int] == self.buckets@[k as int]@);
            }
            if self.buckets[k].config == config {
                proof {
                    lemma_find_key(self@, config);
                    assert(find_key(self@, config) == k);
                }
                let ghost pre_b = self.buckets@;
                let mut b = self.buckets.remove(k);
                b.records.push(rec);
                let ghost bv = b;
                self.buckets.insert(k, b);
                proof {
                    let pre = old(self)@;
                    let post = self@;
                    let target = append_rec(pre, config, position, score, millis);
                    let rem = pre_b.remove(k as int);
                    pre_b.remove_ensures(k as int);
                    rem.insert_ensures(k as int, bv);
                    assert(self.buckets@ == rem.insert(k as int, bv));
                    assert(bv@.records == pre[k as int].records.push(rec));
                    assert(post.len() == pre.len());
                    assert forall|j: int| 0 <= j < post.len() implies post[j] == target[j] by {
                        if j < k {
                            assert(self.buckets@[j] == pre_b[j]);
                            assert(post[j] == pre[j]);
                            assert(target[j] == pre[j]);
                        } else if j == k {
                            assert(self.buckets@[j] == bv);
                            assert(post[j] == bv@);
                            assert(target[j].records == pre[k as int].records.push(rec));
                            assert(post[j].records =~= target[j].records);
                            assert(post[j].config == target[j].config);
                        } else {
                            assert(rem.insert(k as int, bv)[j] == rem[j - 1]);
                            assert(rem[j - 1] == pre_b[j]);
                            assert(post[j] == pre[j]);
                            assert(target[j] == pre[j]);
                        }
                        assert(post[j].records =~= target[j].records);
                    }
                    assert(post =~= target);
                    assert forall|i: int| 0 <= i < post.len() implies bucket_wf(#[trigger] post[i]) by {
                        if i != k {
                            assert(post[i] == pre[i]);
                        } else {
                            assert(post[i].records =~= pre[i].records.push(rec));
                            assert(post[i].records.len() == pre[i].records.len() + 1);
                            assert forall|x: int| 0 <= x < post[i].records.len()
                                implies record_matches(#[trigger] post[i].records[x], post[i].config) by {
                                if x < pre[i].records.len() {
                                    assert(post[i].records[x] == pre[i].records[x]);
                                } else {
                                    assert(post[i].records[x] == rec);
                                }
                            }
                        }
                    }
                }
                return;
            }
            k = k + 1;
        }
        proof {
            lemma_find_key(self@, config);
            assert(find_key(self@, config) == self@.len());
        }
        let mut records: Vec<Record> = Vec::new();
        records.push(rec);
        self.buckets.push(Bucket { config, records });
        proof {
            let pre = old(self)@;
            let post = self@;
            let target = append_rec(pre, config, position, score, millis);
            assert(self.buckets@ == old(self).buckets@.push(Bucket { config, records: self.buckets@[pre.len() as int].records })
                || self.buckets@.len() == pre.len() + 1);
            assert(post.len() == pre.len() + 1);
            assert forall|j: int| 0 <= j < post.len() implies post[j] == target[j] by {
                if j < pre.len() {
                    assert(self.buckets@[j] == old(self).buckets@[j]);
                } else {
                    assert(self.buckets@[j]@.records =~= seq![rec]);
                    assert(target[j] == BucketView { config, records: seq![rec] });
                }
            }
            assert(post =~= target);
            assert forall|i: int| 0 <= i < post.len() implies bucket_wf(#[trigger] post[i]) by {
                if i < pre.len() {
                    assert(post[i] == pre[i]);
                } else {
                    assert(post[i].records == seq![rec]);
                    assert(post[i].records[0] == rec);
                }
            }
        }
    }

    /// Prepends a finished run to the bucket of `config`, creating the bucket
    /// if it is new; the record takes the next one-based insertion rank of
    /// its bucket.
    pub fn append_run(&mut self, config: GridConfig, score: u32, millis: u128)
        requires
            store_wf(old(self)@),
            bucket_count(old(self)@, config) < u32::MAX,
        ensures
            store_wf(final(self)@),
            final(self)@ == prepend_run(old(self)@, config, score, millis),
    {
        proof {
            lemma_find_key(old(self)@, config);
        }
        let k_opt = self.find(config);
        match k_opt {
            Some(k) => {
                proof {
                    assert(self@[k as int] == self.buckets@[k as int]@);
                }
                let n = self.buckets[k].records.len() as u32;
                let rec = Record::new(n + 1, score, millis, config.rows, config.columns, config.active);
                let ghost pre_b = self.buckets@;
                let mut b = self.buckets.remove(k);
                b.records.insert(0, rec);
                let ghost bv = b;
                self.buckets.insert(k, b);
                proof {
                    let pre = old(self)@;
                    let post = self@;
                    let target = prepend_run(pre, config, score, millis);
                    let rem = pre_b.remove(k as int);
                    pre_b.remove_ensures(k as int);
                    rem.insert_ensures(k as int, bv);
                    assert(self.buckets@ == rem.insert(k as int, bv));
                    assert(bv@.records =~= seq![rec] + pre[k as int].records);
                    assert(post.len() == pre.len());
                    assert forall|j: int| 0 <= j < post.len() implies post[j] == target[j] by {
                        if j < k {
                            assert(self.buckets@[j] == pre_b[j]);
                            assert(post[j] == pre[j]);
                            assert(target[j] == pre[j]);
                        } else if j == k {
                            assert(self.buckets@[j] == bv);
                            assert(post[j] == bv@);
                            assert(target[j].records == seq![rec] + pre[k as int].records);
                            assert(post[j].records =~= target[j].records);
                            assert(post[j].config == target[j].config);
                        } else {
                            assert(rem.insert(k as int, bv)[j] == rem[j - 1]);
                            assert(rem[j - 1] == pre_b[j]);
                            assert(post[j] == pre[j]);
                            assert(target[j] == pre[j]);
                        }
                        assert(post[j].records =~= target[j].records);
                    }
                    assert(post =~= target);
                    assert forall|i: int| 0 <= i < post.len() implies bucket_wf(#[trigger] post[i]) by {
                        if i != k {
                            assert(post[i] == pre[i]);
                        } else {
                            assert(post[i].records =~= seq![rec] + pre[i].records);
                            assert forall|x: int| 0 <= x < post[i].records.len()
                                implies record_matches(#[trigger] post[i].records[x], post[i].config) by {
                                if x == 0 {
                                    assert(post[i].records[x] == rec);
                                } else {
                                    assert(post[i].records[x] == pre[i].records[x - 1]);
                                }
                            }
                        }
                    }
                }
            },
            None => {
                let rec = Record::new(1, score, millis, config.rows, config.columns, config.active);
                let mut records: Vec<Record> = Vec::new();
                records.push(rec);
                self.buckets.push(Bucket { config, records });
                proof {
                    let pre = old(self)@;
                    let post = self@;
                    let target = prepend_run(pre, config, score, millis);
                    assert(post.len() == pre.len() + 1);
                    assert forall|j: int| 0 <= j < post.len() implies post[j] == target[j] by {
                        if j < pre.len() {
                            assert(self.buckets@[j] == old(self).buckets@[j]);
                        } else {
                            assert(self.buckets@[j]@.records =~= seq![rec]);
                            assert(target[j].records =~= seq![rec]);
                        }
                        assert(post[j].records =~= target[j].records);
                    }
                    assert(post =~= target);
                    assert forall|i: int| 0 <= i < post.len() implies bucket_wf(#[trigger] post[i]) by {
                        if i < pre.len() {
                            assert(post[i] == pre[i]);
                        } else {
                            assert(post[i].records == seq![rec]);
                            assert(post[i].records[0] == rec);
                        }
                    }
                }
            },
        }
    }

    /// Forgets the bucket of `config`; the other buckets keep their places.
    pub fn clear(&mut self, config: GridConfig)
        requires
            store_wf(old(self)@),
        ensures
            store_wf(final(self)@),
            final(self)@ == remove_bucket(old(self)@, config),
    {
        proof {
            lemma_find_key(old(self)@, config);
        }
        let k_opt = self.find(config);
        match k_opt {
            Some(k) => {
                let ghost pre_b = self.buckets@;
                self.buckets.remove(k);
                proof {
                    let pre = old(self)@;
                    let post = self@;
                    pre_b.remove_ensures(k as int);
                    assert(post.len() == pre.len() - 1);
                    assert forall|j: int| 0 <= j < post.len() implies post[j] == pre.remove(k as int)[j] by {
                        if j < k {
                            assert(self.buckets@[j] == pre_b[j]);
                        } else {
                            assert(self.buckets@[j] == pre_b[j + 1]);
                        }
                        pre.remove_ensures(k as int);
                        assert(post[j].records =~= pre.remove(k as int)[j].records);
                    }
                    assert(post =~= pre.remove(k as int));
                    pre.remove_ensures(k as int);
                    assert forall|i: int| 0 <= i < post.len() implies bucket_wf(#[trigger] post[i]) by {
                        if i < k {
                            assert(post[i] == pre[i]);
                        } else {
                            assert(post[i] == pre[i + 1]);
                        }
                    }
                    assert forall|i: int, j: int| 0 <= i < j < post.len()
                        implies post[i].config != post[j].config by {
                        let pi: int = if i < k { i } else { i + 1 };
                        let pj: int = if j < k { j } else { j + 1 };
                        assert(post[i] == pre[pi] && post[j] == pre[pj]);
                    }
                }
            },
            None => {
            },
        }
    }

    /// Forgets every bucket.
    pub fn clear_all(&mut self)
        ensures
            final(self)@ == Seq::<BucketView>::empty(),
            store_wf(final(self)@),
    {
        self.buckets = Vec::new();
        proof {
            assert(self@ =~= Seq::<BucketView>::empty());
        }
    }

    /// How many buckets the store holds.
    pub fn len(&self) -> (r: usize)
        ensures
            r == self@.len(),
    {
        self.buckets.len()
    }

    /// The index of the bucket of `config`, if the store has one.
    pub fn find(&self, config: GridConfig) -> (r: Option<usize>)
        ensures
            match r {
                Some(k) => k == find_key(self@, config) && k < self@.len(),
                None => find_key(self@, config) == self@.len(),
            },
    {
        proof {
            lemma_find_key(self@, config);
        }
        let mut k: usize = 0;
        while k < self.buckets.len()
            invariant
                0 <= k <= self.buckets.len(),
                self@.len() == self.buckets.len(),
                forall|j: int| 0 <= j < k ==> (#[trigger] self@[j]).config != config,
            decreases self.buckets.len() - k,
        {
            proof {
                assert(self@[k as int] == self.buckets@[k as int]@);
            }
            if self.buckets[k].config == config {
                proof {
                    lemma_find_key(self@, config);
                    assert(find_key(self@, config) == k);
                }
                return Some(k);
            }
            k = k + 1;
        }
        proof {
            lemma_find_key(self@, config);
            assert(find_key(self@, config) == self@.len());
        }
        None
    }

    /// How many records the bucket at `k` holds.
    pub fn bucket_len(&self, k: usize) -> (r: usize)
        requires
            k < self@.len(),
        ensures
            r == self@[k as int].records.len(),
    {
        proof {
            assert(self@[k as int] == self.buckets@[k as int]@);
        }
        self.buckets[k].records.len()
    }

    /// The record at index `i` of the bucket at `k`.
    pub fn bucket_record(&self, k: usize, i: usize) -> (r: Record)
        requires
            k < self@.len(),
            i < self@[k as int].records.len(),
        ensures
            r == self@[k as int].records[i as int],
    {
        proof {
            assert(self@[k as int] == self.buckets@[k as int]@);
        }
        self.buckets[k].records[i]
    }

    /// The configuration of the bucket at `k`.
    pub fn bucket_config(&self, k: usize) -> (r: GridConfig)
        requires
            k < self@.len(),
        ensures
            r == self@[k as int].config,
    {
        proof {
            assert(self@[k as int] == self.buckets@[k as int]@);
        }
        self.buckets[k].config
    }

    /// Reads a store from its stored text; a malformed text — of whatever
    /// shape — yields the empty store rather than an error.
    #[verifier::rlimit(100)]
    #[verifier::spinoff_prover]
    pub fn load(s: &[u8]) -> (r: HistoryStore)
        ensures
            store_wf(r@),
            match load_spec(s@) {
                Some(bs) => r@ == bs,
                None => r@ == Seq::<BucketView>::empty(),
            },
    {
        let n1 = scan_byte(s, NL, 0);
        proof {
            assert(s@.skip(0) =~= s@);
        }
        if n1 == s.len() {
            return HistoryStore::new();
        }
        if n1 != 1 || s[0] != VERSION {
            proof {
                if s@.take(n1 as int) == seq![VERSION] {
                    assert(s@.take(n1 as int).len() == 1);
                    assert(s@.take(1)[0] == s@[0]);
                }
            }
            return HistoryStore::new();
        }
        proof {
            assert(s@.take(1) =~= seq![VERSION]);
        }
        let ghost goal = load_spec(s@);
        let mut store = HistoryStore::new();
        let mut cur_rows: Option<u32> = None;
        let mut cur_columns: Option<u32> = None;
        let mut cur_active: Option<u32> = None;
        let mut pos: usize = 2;
        proof {
            assert(s@.skip(2) == s@.skip(n1 + 1));
        }
        while pos < s.len()
            invariant
                2 <= pos <= s.len(),
                store_wf(store@),
                goal == load_spec(s@),
                goal == parse_lines(
                    s@.skip(pos as int),
                    (LoadCtx { rows: cur_rows, columns: cur_columns, active: cur_active }),
                    store@,
                ),
            decreases s.len() - pos,
        {
            let ghost t = s@.skip(pos as int);
            let ghost acc0 = store@;
            let ghost ctx = LoadCtx { rows: cur_rows, columns: cur_columns, active: cur_active };
            let nl = scan_byte(s, NL, pos);
            proof {
                lemma_find_byte(t, NL);
                assert(t.len() == s.len() - pos);
            }
            if nl == s.len() {
                proof {
                    assert(find_byte(t, NL) == t.len());
                    assert(goal is None);
                }
                return HistoryStore::new();
            }
            let ghost line = t.take(nl - pos);
            proof {
                assert(line =~= s@.subrange(pos as int, nl as int));
                assert(t.skip(nl - pos + 1) =~= s@.skip(nl + 1));
                assert(find_byte(t, NL) == nl - pos);
                assert(forall|x: int| 0 <= x < line.len() ==> line[x] == s@[pos + x]);
            }
            let step_ok: bool;
            if nl - pos >= 3 && s[pos] == TAB && s[pos + 1] == TAB && s[pos + 2] == TAB {
                let field = slice_subrange(s, pos + 3, nl);
                proof {
                    assert(field@ =~= line.skip(3));
                }
                match parse_u32(field) {
                    Some(v) => {
                        cur_rows = Some(v);
                        cur_columns = None;
                        cur_active = None;
                        step_ok = true;
                    },
                    None => {
                        step_ok = false;
                    },
                }
            } else if nl - pos >= 2 && s[pos] == TAB && s[pos + 1] == TAB {
                let field = slice_subrange(s, pos + 2, nl);
                proof {
                    assert(field@ =~= line.skip(2));
                }
                match (cur_rows, parse_u32(field)) {
                    (Some(_), Some(v)) => {
                        cur_columns = Some(v);
                        cur_active = None;
                        step_ok = true;
                    },
                    _ => {
                        step_ok = false;
                    },
                }
            } else if nl - pos >= 1 && s[pos] == TAB {
                let field = slice_subrange(s, pos + 1, nl);
                proof {
                    assert(field@ =~= line.skip(1));
                }
                match (cur_columns, parse_u32(field)) {
                    (Some(_), Some(v)) => {
                        cur_active = Some(v);
                        step_ok = true;
                    },
                    _ => {
                        step_ok = false;
                    },
                }
            } else {
                match (cur_rows, cur_columns, cur_active) {
                    (Some(r), Some(c), Some(a)) => {
                        let cfg = GridConfig { rows: r, columns: c, active: a };
                        let c1 = scan_byte(s, COMMA, pos);
                        proof {
                            lemma_find_byte(line, COMMA);
                            if c1 < nl {
                                assert(line[c1 - pos] == COMMA);
                                assert(forall|x: int| 0 <= x < c1 - pos ==> line[x] != COMMA);
                                if find_byte(line, COMMA) < c1 - pos {
                                    assert(line[find_byte(line, COMMA)] == COMMA);
                                }
                                assert(find_byte(line, COMMA) == c1 - pos);
                            } else {
                                assert(forall|x: int| 0 <= x < line.len() ==> line[x] != COMMA);
                                if find_byte(line, COMMA) < line.len() {
                                    assert(line[find_byte(line, COMMA)] == COMMA);
                                }
                                assert(find_byte(line, COMMA) == line.len());
                            }
                        }
                        if c1 >= nl {
                            step_ok = false;
                        } else {
                            let ghost rest = line.skip(c1 - pos + 1);
                            let c2 = scan_byte(s, COMMA, c1 + 1);
                            proof {
                                assert(forall|x: int| 0 <= x < rest.len() ==> rest[x] == s@[c1 + 1 + x]);
                                lemma_find_byte(rest, COMMA);
                                if c2 < nl {
                                    assert(rest[c2 - c1 - 1] == COMMA);
                                    assert(forall|x: int| 0 <= x < c2 - c1 - 1 ==> rest[x] != COMMA);
                                    if find_byte(rest, COMMA) < c2 - c1 - 1 {
                                        assert(rest[find_byte(rest, COMMA)] == COMMA);
                                    }
                                    assert(find_byte(rest, COMMA) == c2 - c1 - 1);
                                } else {
                                    assert(forall|x: int| 0 <= x < rest.len() ==> rest[x] != COMMA);
                                    if find_byte(rest, COMMA) < rest.len() {
                                        assert(rest[find_byte(rest, COMMA)] == COMMA);
                                    }
                                    assert(find_byte(rest, COMMA) == rest.len());
                                }
                            }
                            if c2 >= nl {
                                step_ok = false;
                            } else {
                                let f1 = slice_subrange(s, pos, c1);
                                let f2 = slice_subrange(s, c1 + 1, c2);
                                let f3 = slice_subrange(s, c2 + 1, nl);
                                proof {
                                    assert(f1@ =~= line.take(c1 - pos));
                                    assert(f2@ =~= rest.take(c2 - c1 - 1));
                                    assert(f3@ =~= rest.skip(c2 - c1 - 1 + 1));
                                }
                                match (parse_u32(f1), parse_u32(f2), parse_u128(f3)) {
                                    (Some(p), Some(sc), Some(m)) => {
                                        store.append_back(cfg, p, sc, m);
                                        step_ok = true;
                                    },
                                    _ => {
                                        step_ok = false;
                                    },
                                }
                            }
                        }
                    },
                    _ => {
                        step_ok = false;
                    },
                }
            }
            if !step_ok {
                proof {
                    assert(line_step(line, ctx, acc0) is None);
                    assert(goal is None);
                }
                return HistoryStore::new();
            }
            pos = nl + 1;
        }
        proof {
            assert(s@.skip(pos as int) =~= Seq::<u8>::empty());
        }
        store
    }
}

/// `find_byte` at a known first occurrence.
proof fn lemma_find_byte_at(s: Seq<u8>, b: u8, i: int)
    requires
        0 <= i <= s.len(),
        forall|j: int| 0 <= j < i ==> s[j] != b,
        i < s.len() ==> s[i] == b,
    ensures
        find_byte(s, b) == i,
{
    lemma_find_byte(s, b);
    if find_byte(s, b) < i {
        assert(s[find_byte(s, b)] == b);
    }
    if i < find_byte(s, b) {
        assert(s[i] != b);
    }
}

/// The canonical digits of a number contain no tab, comma or newline.
proof fn lemma_dec_of_plain(v: nat)
    ensures
        dec_of(v).len() >= 1,
        forall|j: int| 0 <= j < dec_of(v).len() ==> is_digit(#[trigger] dec_of(v)[j]),
        forall|j: int| 0 <= j < dec_of(v).len() ==> dec_of(v)[j] != NL,
        forall|j: int| 0 <= j < dec_of(v).len() ==> dec_of(v)[j] != TAB,
        forall|j: int| 0 <= j < dec_of(v).len() ==> dec_of(v)[j] != COMMA,
{
    lemma_dec_of_digits(v);
}

/// The canonical digits of a 32-bit value parse back to it.
proof fn lemma_parse_dec_u32(v: u32)
    ensures
        parse_u32_spec(dec_of(v as nat)) == Some(v),
{
    lemma_dec_of_digits(v as nat);
    lemma_dec_of_val(v as nat);
}

/// The canonical digits of a 128-bit value parse back to it.
proof fn lemma_parse_dec_u128(v: u128)
    ensures
        parse_u128_spec(dec_of(v as nat)) == Some(v),
{
    lemma_dec_of_digits(v as nat);
    lemma_dec_of_val(v as nat);
}

/// Peeling the first line off the loader's input.
proof fn lemma_parse_one_line(s: Seq<u8>, line: Seq<u8>, tail: Seq<u8>, ctx: LoadCtx, acc: Seq<BucketView>)
    requires
        s == line + seq![NL] + tail,
        forall|j: int| 0 <= j < line.len() ==> line[j] != NL,
    ensures
        parse_lines(s, ctx, acc) == match line_step(line, ctx, acc) {
            Some((ctx2, acc2)) => parse_lines(tail, ctx2, acc2),
            None => None,
        },
{
    assert(s.len() == line.len() + 1 + tail.len());
    assert forall|j: int| 0 <= j < line.len() implies s[j] != NL by {
        assert(s[j] == line[j]);
    }
    assert(s[line.len() as int] == NL);
    lemma_find_byte_at(s, NL, line.len() as int);
    assert(s.take(line.len() as int) =~= line);
    assert(s.skip(line.len() as int + 1) =~= tail);
}

/// A header line steps the loader's context and touches no bucket.
proof fn lemma_header_step(depth: int, v: u32, ctx: LoadCtx, acc: Seq<BucketView>)
    requires
        1 <= depth <= 3,
        depth == 2 ==> ctx.rows is Some,
        depth == 1 ==> ctx.columns is Some,
    ensures
        header_line(depth, v) == header_body(depth, v) + seq![NL],
        forall|j: int| 0 <= j < header_body(depth, v).len() ==> header_body(depth, v)[j] != NL,
        line_step(header_body(depth, v), ctx, acc) == Some((header_ctx(depth, v, ctx), acc)),
{
    let body = header_body(depth, v);
    let tabs = Seq::new(depth as nat, |i: int| TAB);
    lemma_dec_of_plain(v as nat);
    assert(header_line(depth, v) =~= body + seq![NL]);
    assert forall|j: int| 0 <= j < body.len() implies body[j] != NL by {
        if j < depth {
            assert(body[j] == TAB);
        } else {
            assert(body[j] == dec_of(v as nat)[j - depth]);
        }
    }
    assert(body.len() >= depth + 1);
    assert(forall|j: int| 0 <= j < depth ==> body[j] == TAB);
    assert(body.skip(depth) =~= dec_of(v as nat));
    lemma_parse_dec_u32(v);
    if depth < 3 {
        assert(body[depth] == dec_of(v as nat)[0]);
        assert(is_digit(dec_of(v as nat)[0]));
        assert(body[depth] != TAB);
    }
}

/// The bytes of one header line before its newline.
pub open spec fn header_body(depth: int, v: u32) -> Seq<u8> {
    Seq::new(depth as nat, |i: int| TAB) + dec_of(v as nat)
}

/// What a header line at `depth` makes of the loader's context.
pub open spec fn header_ctx(depth: int, v: u32, ctx: LoadCtx) -> LoadCtx {
    if depth == 3 {
        LoadCtx { rows: Some(v), columns: None, active: None }
    } else if depth == 2 {
        LoadCtx { columns: Some(v), active: None, ..ctx }
    } else {
        LoadCtx { active: Some(v), ..ctx }
    }
}

/// The bytes of one record line before its newline.
pub open spec fn rec_body(r: Record) -> Seq<u8> {
    dec_of(r.position as nat) + seq![COMMA] + dec_of(r.score as nat) + seq![COMMA]
        + dec_of(r.millis as nat)
}

/// A record line appends its record to the bucket of the context's triple.
proof fn lemma_rec_step(r: Record, cfg: GridConfig, ctx: LoadCtx, acc: Seq<BucketView>)
    requires
        ctx.rows == Some(cfg.rows),
        ctx.columns == Some(cfg.columns),
        ctx.active == Some(cfg.active),
        record_matches(r, cfg),
    ensures
        rec_line(r) == rec_body(r) + seq![NL],
        forall|j: int| 0 <= j < rec_body(r).len() ==> rec_body(r)[j] != NL,
        line_step(rec_body(r), ctx, acc) == Some((ctx, append_rec(acc, cfg, r.position, r.score, r.millis))),
{
    let body = rec_body(r);
    let p = dec_of(r.position as nat);
    let sc = dec_of(r.score as nat);
    let m = dec_of(r.millis as nat);
    lemma_dec_of_plain(r.position as nat);
    lemma_dec_of_plain(r.score as nat);
    lemma_dec_of_plain(r.millis as nat);
    assert(rec_line(r) =~= body + seq![NL]);
    assert(body.len() == p.len() + 1 + sc.len() + 1 + m.len());
    assert forall|j: int| 0 <= j < body.len() implies body[j] != NL && body[j] != TAB by {
        if j < p.len() {
            assert(body[j] == p[j]);
        } else if j == p.len() {
            assert(body[j] == COMMA);
        } else if j < p.len() + 1 + sc.len() {
            assert(body[j] == sc[j - p.len() - 1]);
        } else if j == p.len() + 1 + sc.len() {
            assert(body[j] == COMMA);
        } else {
            assert(body[j] == m[j - p.len() - 1 - sc.len() - 1]);
        }
    }
    assert(body[0] == p[0]);
    assert(body[0] != TAB);
    // the first comma ends the position field
    assert forall|j: int| 0 <= j < p.len() implies body[j] != COMMA by {
        assert(body[j] == p[j]);
    }
    assert(body[p.len() as int] == COMMA);
    lemma_find_byte_at(body, COMMA, p.len() as int);
    assert(body.take(p.len() as int) =~= p);
    lemma_parse_dec_u32(r.position);
    // the second comma ends the score field
    let rest = body.skip(p.len() as int + 1);
    assert(rest =~= sc + seq![COMMA] + m);
    assert forall|j: int| 0 <= j < sc.len() implies rest[j] != COMMA by {
        assert(rest[j] == sc[j]);
    }
    assert(rest[sc.len() as int] == COMMA);
    lemma_find_byte_at(rest, COMMA, sc.len() as int);
    assert(rest.take(sc.len() as int) =~= sc);
    lemma_parse_dec_u32(r.score);
    assert(rest.skip(sc.len() as int + 1) =~= m);
    lemma_parse_dec_u128(r.millis);
    assert(parse_rec_fields(body) == Some((r.position, r.score, r.millis)));
}

/// Folding a bucket's records into the loader's store, front to back.
pub open spec fn append_records(acc: Seq<BucketView>, cfg: GridConfig, rs: Seq<Record>) -> Seq<BucketView>
    decreases rs.len(),
{
    if rs.len() == 0 {
        acc
    } else {
        append_records(append_rec(acc, cfg, rs[0].position, rs[0].score, rs[0].millis), cfg, rs.drop_first())
    }
}

/// `find_key` at a known first occurrence.
proof fn lemma_find_key_at(bs: Seq<BucketView>, c: GridConfig, i: int)
    requires
        0 <= i <= bs.len(),
        forall|j: int| 0 <= j < i ==> (#[trigger] bs[j]).config != c,
        i < bs.len() ==> bs[i].config == c,
    ensures
        find_key(bs, c) == i,
{
    lemma_find_key(bs, c);
    if find_key(bs, c) < i {
        assert(bs[find_key(bs, c)].config == c);
    }
    if i < find_key(bs, c) {
        assert(bs[i].config != c);
    }
}

/// Replacing a bucket by one of the same configuration moves no key.
proof fn lemma_find_key_update(bs: Seq<BucketView>, k: int, b2: BucketView, c: GridConfig)
    requires
        0 <= k < bs.len(),
        b2.config == bs[k].config,
    ensures
        find_key(bs.update(k, b2), c) == find_key(bs, c),
{
    let post = bs.update(k, b2);
    lemma_find_key(bs, c);
    let i = find_key(bs, c);
    assert forall|j: int| 0 <= j < i implies (#[trigger] post[j]).config != c by {
        if j == k {
            assert(post[j].config == bs[j].config);
        } else {
            assert(post[j] == bs[j]);
        }
    }
    if i < bs.len() {
        if i == k {
            assert(post[i].config == bs[i].config);
        } else {
            assert(post[i] == bs[i]);
        }
    }
    lemma_find_key_at(post, c, i);
}

/// Folding records into an existing bucket appends them at its back.
proof fn lemma_append_records_existing(acc: Seq<BucketView>, cfg: GridConfig, rs: Seq<Record>)
    requires
        find_key(acc, cfg) < acc.len(),
        forall|i: int| 0 <= i < rs.len() ==> record_matches(#[trigger] rs[i], cfg),
    ensures
        append_records(acc, cfg, rs) == acc.update(
            find_key(acc, cfg),
            (BucketView { config: cfg, records: acc[find_key(acc, cfg)].records + rs }),
        ),
    decreases rs.len(),
{
    let k = find_key(acc, cfg);
    lemma_find_key(acc, cfg);
    if rs.len() == 0 {
        assert(acc[k].records + rs =~= acc[k].records);
        assert((BucketView { config: cfg, records: acc[k].records + rs }) == acc[k]);
        assert(acc.update(k, acc[k]) =~= acc);
    } else {
        let r0 = rs[0];
        assert(record_matches(r0, cfg));
        let b1 = BucketView { config: cfg, records: acc[k].records.push(r0) };
        let acc1 = append_rec(acc, cfg, r0.position, r0.score, r0.millis);
        assert((Record {
            position: r0.position,
            score: r0.score,
            millis: r0.millis,
            rows: cfg.rows,
            columns: cfg.columns,
            active: cfg.active,
        }) == r0);
        assert(acc1 == acc.update(k, b1));
        lemma_find_key_update(acc, k, b1, cfg);
        assert(find_key(acc1, cfg) == k);
        assert(acc1.len() == acc.len());
        assert forall|i: int| 0 <= i < rs.drop_first().len()
            implies record_matches(#[trigger] rs.drop_first()[i], cfg) by {
            assert(rs.drop_first()[i] == rs[i + 1]);
        }
        lemma_append_records_existing(acc1, cfg, rs.drop_first());
        assert(acc1[k].records + rs.drop_first() =~= acc[k].records + rs);
        assert(acc1.update(k, (BucketView { config: cfg, records: acc1[k].records + rs.drop_first() }))
            =~= acc.update(k, (BucketView { config: cfg, records: acc[k].records + rs })));
    }
}

/// Folding records of a new configuration opens one bucket at the end.
proof fn lemma_append_records_fresh(acc: Seq<BucketView>, cfg: GridConfig, rs: Seq<Record>)
    requires
        find_key(acc, cfg) == acc.len(),
        rs.len() >= 1,
        forall|i: int| 0 <= i < rs.len() ==> record_matches(#[trigger] rs[i], cfg),
    ensures
        append_records(acc, cfg, rs) == acc.push(BucketView { config: cfg, records: rs }),
{
    let r0 = rs[0];
    let b1 = BucketView { config: cfg, records: seq![r0] };
    let acc1 = append_rec(acc, cfg, r0.position, r0.score, r0.millis);
    lemma_find_key(acc, cfg);
    assert((Record {
        position: r0.position,
        score: r0.score,
        millis: r0.millis,
        rows: cfg.rows,
        columns: cfg.columns,
        active: cfg.active,
    }) == r0);
    assert(acc1 == acc.push(b1));
    assert forall|j: int| 0 <= j < acc.len() implies (#[trigger] acc1[j]).config != cfg by {
        assert(acc1[j] == acc[j]);
    }
    assert(acc1[acc.len() as int].config == cfg);
    lemma_find_key_at(acc1, cfg, acc.len() as int);
    assert forall|i: int| 0 <= i < rs.drop_first().len()
        implies record_matches(#[trigger] rs.drop_first()[i], cfg) by {
        assert(rs.drop_first()[i] == rs[i + 1]);
    }
    lemma_append_records_existing(acc1, cfg, rs.drop_first());
    assert(acc1[acc.len() as int].records + rs.drop_first() =~= rs);
    assert(acc1.update(acc.len() as int, (BucketView { config: cfg, records: acc1[acc.len() as int].records + rs.drop_first() }))
        =~= acc.push(BucketView { config: cfg, records: rs }));
}

/// Parsing a bucket's record lines folds its records into the store.
proof fn lemma_parse_rec_lines(rs: Seq<Record>, cfg: GridConfig, tail: Seq<u8>, ctx: LoadCtx, acc: Seq<BucketView>)
    requires
        ctx.rows == Some(cfg.rows),
        ctx.columns == Some(cfg.columns),
        ctx.active == Some(cfg.active),
        forall|i: int| 0 <= i < rs.len() ==> record_matches(#[trigger] rs[i], cfg),
    ensures
        parse_lines(rec_lines(rs) + tail, ctx, acc) == parse_lines(tail, ctx, append_records(acc, cfg, rs)),
    decreases rs.len(),
{
    if rs.len() == 0 {
        assert(rec_lines(rs) + tail =~= tail);
    } else {
        let r0 = rs[0];
        let rest_bytes = rec_lines(rs.drop_first()) + tail;
        lemma_rec_step(r0, cfg, ctx, acc);
        assert(rec_lines(rs) + tail =~= rec_body(r0) + seq![NL] + rest_bytes);
        lemma_parse_one_line(rec_lines(rs) + tail, rec_body(r0), rest_bytes, ctx, acc);
        let acc1 = append_rec(acc, cfg, r0.position, r0.score, r0.millis);
        assert forall|i: int| 0 <= i < rs.drop_first().len()
            implies record_matches(#[trigger] rs.drop_first()[i], cfg) by {
            assert(rs.drop_first()[i] == rs[i + 1]);
        }
        lemma_parse_rec_lines(rs.drop_first(), cfg, tail, ctx, acc1);
    }
}

/// The full loader context of one bucket's configuration.
pub open spec fn ctx_of(c: GridConfig) -> LoadCtx {
    LoadCtx { rows: Some(c.rows), columns: Some(c.columns), active: Some(c.active) }
}

/// Parsing one bucket's block appends that bucket to the store.
proof fn lemma_parse_bucket(b: BucketView, tail: Seq<u8>, ctx: LoadCtx, acc: Seq<BucketView>)
    requires
        bucket_wf(b),
        find_key(acc, b.config) == acc.len(),
    ensures
        parse_lines(bucket_bytes(b) + tail, ctx, acc) == parse_lines(tail, ctx_of(b.config), acc.push(b)),
{
    let cfg = b.config;
    let t1 = header_line(2, cfg.columns) + header_line(1, cfg.active) + rec_lines(b.records) + tail;
    let t2 = header_line(1, cfg.active) + rec_lines(b.records) + tail;
    let t3 = rec_lines(b.records) + tail;
    let ctx1 = header_ctx(3, cfg.rows, ctx);
    let ctx2 = header_ctx(2, cfg.columns, ctx1);
    let ctx3 = header_ctx(1, cfg.active, ctx2);

    lemma_header_step(3, cfg.rows, ctx, acc);
    assert(bucket_bytes(b) + tail =~= header_body(3, cfg.rows) + seq![NL] + t1);
    lemma_parse_one_line(bucket_bytes(b) + tail, header_body(3, cfg.rows), t1, ctx, acc);

    lemma_header_step(2, cfg.columns, ctx1, acc);
    assert(t1 =~= header_body(2, cfg.columns) + seq![NL] + t2);
    lemma_parse_one_line(t1, header_body(2, cfg.columns), t2, ctx1, acc);

    lemma_header_step(1, cfg.active, ctx2, acc);
    assert(t2 =~= header_body(1, cfg.active) + seq![NL] + t3);
    lemma_parse_one_line(t2, header_body(1, cfg.active), t3, ctx2, acc);

    assert(ctx3 == ctx_of(cfg));
    lemma_parse_rec_lines(b.records, cfg, tail, ctx3, acc);
    lemma_append_records_fresh(acc, cfg, b.records);
    assert((BucketView { config: cfg, records: b.records }) == b);
}

/// Parsing the blocks of several buckets appends them all.
proof fn lemma_parse_buckets(bs: Seq<BucketView>, ctx: LoadCtx, acc: Seq<BucketView>)
    requires
        forall|i: int| 0 <= i < bs.len() ==> bucket_wf(#[trigger] bs[i]),
        forall|i: int, j: int| 0 <= i < j < bs.len() ==> bs[i].config != bs[j].config,
        forall|i: int| 0 <= i < bs.len() ==> find_key(acc, (#[trigger] bs[i]).config) == acc.len(),
    ensures
        parse_lines(buckets_bytes(bs), ctx, acc) == Some(acc + bs),
    decreases bs.len(),
{
    if bs.len() == 0 {
        assert(acc + bs =~= acc);
    } else {
        let b0 = bs[0];
        let rest = bs.drop_first();
        assert(buckets_bytes(bs) == bucket_bytes(b0) + buckets_bytes(rest));
        lemma_parse_bucket(b0, buckets_bytes(rest), ctx, acc);
        let acc1 = acc.push(b0);
        assert forall|i: int| 0 <= i < rest.len()
            implies find_key(acc1, (#[trigger] rest[i]).config) == acc1.len() by {
            assert(rest[i] == bs[i + 1]);
            lemma_find_key(acc, rest[i].config);
            assert forall|j: int| 0 <= j < acc1.len() implies (#[trigger] acc1[j]).config != rest[i].config by {
                if j < acc.len() {
                    assert(acc1[j] == acc[j]);
                    assert(find_key(acc, rest[i].config) == acc.len());
                } else {
                    assert(acc1[j] == b0);
                    assert(bs[0].config != bs[i + 1].config);
                }
            }
            lemma_find_key_at(acc1, rest[i].config, acc1.len() as int);
        }
        assert forall|i: int| 0 <= i < rest.len() implies bucket_wf(#[trigger] rest[i]) by {
            assert(rest[i] == bs[i + 1]);
        }
        assert forall|i: int, j: int| 0 <= i < j < rest.len()
            implies (#[trigger] rest[i]).config != (#[trigger] rest[j]).config by {
            assert(rest[i] == bs[i + 1] && rest[j] == bs[j + 1]);
        }
        lemma_parse_buckets(rest, ctx_of(b0.config), acc1);
        assert(acc1 + rest =~= acc + bs);
    }
}

/// Round trip: loading the saved text of any well-formed store yields the
/// store itself, bucket for bucket and record for record.
pub proof fn lemma_save_load_round_trip(bs: Seq<BucketView>)
    requires
        store_wf(bs),
    ensures
        load_spec(save_spec(bs)) == Some(bs),
{
    let s = save_spec(bs);
    assert(s[0] == VERSION);
    assert(s[1] == NL);
    lemma_find_byte_at(s, NL, 1);
    assert(s.take(1) =~= seq![VERSION]);
    assert(s.skip(2) =~= buckets_bytes(bs));
    assert forall|i: int| 0 <= i < bs.len()
        implies find_key(Seq::<BucketView>::empty(), (#[trigger] bs[i]).config) == 0 by {
    }
    lemma_parse_buckets(bs, init_ctx(), Seq::empty());
    assert(Seq::empty() + bs =~= bs);
}

/// Appends one header line: `depth` tabs, the decimal value, a newline.
fn push_header(out: &mut Vec<u8>, depth: usize, v: u32)
    requires
        1 <= depth <= 3,
    ensures
        final(out)@ == old(out)@ + header_line(depth as int, v),
{
    let mut k: usize = 0;
    while k < depth
        invariant
            0 <= k <= depth,
            out@ == old(out)@ + Seq::new(k as nat, |i: int| TAB),
        decreases depth - k,
    {
        out.push(TAB);
        proof {
            assert(out@ =~= old(out)@ + Seq::new(k as nat + 1, |i: int| TAB));
        }
        k = k + 1;
    }
    let mut d = fmt_dec(v as u128);
    out.append(&mut d);
    out.push(NL);
    proof {
        assert(out@ =~= old(out)@ + header_line(depth as int, v));
    }
}

} // verus!
