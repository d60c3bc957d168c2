//! The bounded, rotating telemetry log.
//!
//! `MemoryField` holds the most recent snapshots, bounded by a fixed
//! capacity with strict FIFO eviction, and mirrors every append to a
//! durable backing file. The log itself performs no I/O: mutating
//! operations return the file actions to perform (`RecordEffect`), and
//! the caller reports a completed rotation back through
//! `commit_rotation`. Windowed analytics (`average`, `trend`) are exact,
//! over the fixed-point field values.

use vstd::prelude::*;

use crate::codec::dec_digits;
use crate::codec::parse_line;
use crate::codec::parse_record_bytes;
use crate::codec::render_record;
use crate::codec::render_record_bytes;
use crate::snapshot::num_lookup;
use crate::snapshot::wf_record;
use crate::snapshot::RecordModel;
use crate::snapshot::SnapshotRecord;

verus! {

/// Model of the log: the retained snapshots in chronological order, the
/// capacity, the appends since the last completed rotation, and the
/// backing-file path.
pub struct MemoryModel {
    pub history: Seq<RecordModel>,
    pub capacity: int,
    pub writes: int,
    pub path: Seq<u8>,
}

/// The log's invariant: a positive capacity that the history never
/// exceeds.
pub open spec fn wf_field(m: MemoryModel) -> bool {
    &&& m.capacity >= 1
    &&& m.history.len() <= m.capacity
    &&& m.writes >= 0
}

/// The last `cap` elements of `s` (all of them when `s` is shorter).
pub open spec fn clamp_tail(s: Seq<RecordModel>, cap: int) -> Seq<RecordModel> {
    if s.len() <= cap {
        s
    } else {
        s.subrange(s.len() - cap, s.len() as int)
    }
}

/// One append under FIFO eviction.
pub open spec fn push_evict(h: Seq<RecordModel>, r: RecordModel, cap: int) -> Seq<RecordModel> {
    if h.len() < cap {
        h.push(r)
    } else {
        h.drop_first().push(r)
    }
}

/// FIFO retention law: a log that holds exactly the last `cap` of all
/// records ever appended still does so after one more append.
pub proof fn lemma_fifo_retention(all: Seq<RecordModel>, r: RecordModel, cap: int)
    requires
        cap >= 1,
    ensures
        push_evict(clamp_tail(all, cap), r, cap) == clamp_tail(all.push(r), cap),
        clamp_tail(all.push(r), cap).len() as int == if all.len() + 1 <= cap {
            all.len() + 1 as int
        } else {
            cap
        },
{
    if all.len() < cap {
        assert(clamp_tail(all, cap) == all);
        if all.len() + 1 <= cap {
            assert(clamp_tail(all.push(r), cap) =~= all.push(r));
        } else {
            assert(clamp_tail(all.push(r), cap) =~= all.push(r));
        }
        assert(push_evict(all, r, cap) =~= clamp_tail(all.push(r), cap));
    } else {
        let keep = clamp_tail(all, cap);
        assert(keep.len() == cap);
        assert(push_evict(keep, r, cap) == keep.drop_first().push(r));
        assert(keep.drop_first().push(r) =~= clamp_tail(all.push(r), cap));
    }
}

/// The records parsed from a sequence of file lines, in order, with
/// unparsable lines skipped.
pub open spec fn parse_all(lines: Seq<Seq<u8>>) -> Seq<RecordModel>
    decreases lines.len(),
{
    if lines.len() == 0 {
        Seq::empty()
    } else {
        parse_all(lines.drop_last()) + (match parse_line(lines.last()) {
            Some(m) => seq![m],
            None => Seq::<RecordModel>::empty(),
        })
    }
}

/// Model of a line list.
pub open spec fn lines_model(v: Seq<Vec<u8>>) -> Seq<Seq<u8>> {
    v.map_values(|l: Vec<u8>| l@)
}

/// Durability round trip: the lines a flush writes parse back, in order,
/// to exactly the history they were written from. With them,
/// `from_lines` restores a flushed log whose history fits its capacity
/// unchanged.
pub proof fn lemma_flush_restores(h: Seq<RecordModel>)
    requires
        forall|i: int| 0 <= i < h.len() ==> wf_record(#[trigger] h[i]),
    ensures
        parse_all(h.map_values(|m: RecordModel| render_record(m))) == h,
    decreases h.len(),
{
    let f = |m: RecordModel| render_record(m);
    if h.len() > 0 {
        let lines = h.map_values(f);
        assert(lines.drop_last() =~= h.drop_last().map_values(f));
        assert(lines.last() == render_record(h.last()));
        crate::codec::lemma_parse_render_round_trip(h.last());
        lemma_flush_restores(h.drop_last());
        assert(parse_all(lines) =~= h);
    } else {
        assert(h.map_values(f) =~= Seq::<Seq<u8>>::empty());
        assert(parse_all(h.map_values(f)) =~= h);
    }
}

/// Every record restored from file lines is well formed, so a restored
/// log flushes back to equivalent lines.
pub proof fn lemma_parse_all_wf(lines: Seq<Seq<u8>>)
    ensures
        forall|i: int|
            0 <= i < parse_all(lines).len() ==> wf_record(#[trigger] parse_all(lines)[i]),
    decreases lines.len(),
{
    if lines.len() > 0 {
        lemma_parse_all_wf(lines.drop_last());
        crate::codec::lemma_parse_line_wf(lines.last());
        let pre = parse_all(lines.drop_last());
        match parse_line(lines.last()) {
            Some(m) => {
                assert(parse_all(lines) == pre + seq![m]);
                assert(forall|i: int|
                    0 <= i < pre.len() ==> #[trigger] parse_all(lines)[i] == pre[i]);
                assert(parse_all(lines)[pre.len() as int] == m);
            },
            None => {
                assert(parse_all(lines) =~= pre);
            },
        }
    }
}

/// The effective analytics window: at least one, at most the history
/// length.
pub open spec fn window_len(len: int, w: int) -> int {
    let w1 = if w < 1 {
        1
    } else {
        w
    };
    if w1 <= len {
        w1
    } else {
        len
    }
}

/// Sum of the numeric values under `key` over the records that carry one.
pub open spec fn sum_nums(s: Seq<RecordModel>, key: Seq<u8>) -> int
    decreases s.len(),
{
    if s.len() == 0 {
        0
    } else {
        sum_nums(s.drop_last(), key) + (match num_lookup(s.last(), key) {
            Some(v) => v as int,
            None => 0,
        })
    }
}

/// How many records carry a numeric value under `key`.
pub open spec fn count_nums(s: Seq<RecordModel>, key: Seq<u8>) -> int
    decreases s.len(),
{
    if s.len() == 0 {
        0
    } else {
        count_nums(s.drop_last(), key) + (match num_lookup(s.last(), key) {
            Some(v) => 1int,
            None => 0int,
        })
    }
}

/// The exact arithmetic mean of a field over a window: the sum of the
/// matching fixed-point values and how many records carried the field.
pub struct WindowMean {
    pub sum: i128,
    pub count: usize,
}

/// What the caller must do after an append: write `line` (plus a newline)
/// to the end of the backing file, and, when `archive` names a file,
/// archive the backing file under that name and report completion through
/// `commit_rotation`.
pub struct RecordEffect {
    pub line: Vec<u8>,
    pub archive: Option<Vec<u8>>,
}

/// Start of the file-name component of a path: just after the last slash.
pub open spec fn name_start(p: Seq<u8>) -> int
    decreases p.len(),
{
    if p.len() == 0 {
        0
    } else if p.last() == 0x2f {
        p.len() as int
    } else {
        name_start(p.drop_last())
    }
}

/// Length of the stem within a file name: up to the last dot, the whole
/// name if that would be empty or there is no dot.
pub open spec fn stem_len(name: Seq<u8>) -> int
    decreases name.len(),
{
    if name.len() == 0 {
        0
    } else if name.last() == 0x2e {
        name.len() - 1
    } else {
        stem_len(name.drop_last())
    }
}

pub open spec fn default_stem() -> Seq<u8> {
    seq![0x76u8, 0x6fu8, 0x69u8, 0x64u8, 0x5fu8, 0x73u8, 0x74u8, 0x61u8, 0x74u8, 0x65u8]
}

pub open spec fn default_path() -> Seq<u8> {
    default_stem() + seq![0x2eu8, 0x6au8, 0x73u8, 0x6fu8, 0x6eu8]
}

/// The stem of the backing file's name, or the default stem where it
/// would be empty.
pub open spec fn file_stem(p: Seq<u8>) -> Seq<u8> {
    let name = p.subrange(name_start(p), p.len() as int);
    let sl = stem_len(name);
    let stem = if sl > 0 {
        name.subrange(0, sl)
    } else {
        name
    };
    if stem.len() == 0 {
        default_stem()
    } else {
        stem
    }
}

/// Archive names are `{stem}-{seconds}.json`.
pub open spec fn archive_name_spec(p: Seq<u8>, secs: u64) -> Seq<u8> {
    file_stem(p) + seq![0x2du8] + dec_digits(secs as int) + seq![
        0x2eu8,
        0x6au8,
        0x73u8,
        0x6fu8,
        0x6eu8,
    ]
}

/// The bounded, rotating snapshot log.
pub struct MemoryField {
    history: Vec<SnapshotRecord>,
    max_snapshots: usize,
    base_path: Vec<u8>,
    writes_since_rotation: usize,
}

impl View for MemoryField {
    type V = MemoryModel;

    closed spec fn view(&self) -> MemoryModel {
        MemoryModel {
            history: self.history@.map_values(|r: SnapshotRecord| r@),
            capacity: self.max_snapshots as int,
            writes: self.writes_since_rotation as int,
            path: self.base_path@,
        }
    }
}

impl Default for MemoryField {
    /// An empty log with a capacity of 512 snapshots and the default
    /// backing-file path.
    fn default() -> (r: MemoryField)
        ensures
            wf_field(r@),
            r@.capacity == 512,
            r@.history == Seq::<RecordModel>::empty(),
            r@.writes == 0,
            r@.path == default_path(),
    {
        MemoryField::new(512)
    }
}

impl MemoryField {
    /// An empty log with the given capacity (raised to one if zero) and
    /// the default backing-file path.
    pub fn new(max_snapshots: usize) -> (r: MemoryField)
        ensures
            wf_field(r@),
            r@.capacity == if max_snapshots >= 1 {
                max_snapshots as int
            } else {
                1
            },
            r@.history == Seq::<RecordModel>::empty(),
            r@.writes == 0,
            r@.path == default_path(),
    {
        let cap: usize = if max_snapshots >= 1 {
            max_snapshots
        } else {
            1
        };
        let mut path: Vec<u8> = Vec::new();
        path.push(0x76);
        path.push(0x6f);
        path.push(0x69);
        path.push(0x64);
        path.push(0x5f);
        path.push(0x73);
        path.push(0x74);
        path.push(0x61);
        path.push(0x74);
        path.push(0x65);
        path.push(0x2e);
        path.push(0x6a);
        path.push(0x73);
        path.push(0x6f);
        path.push(0x6e);
        assert(path@ =~= default_path());
        let r = MemoryField {
            history: Vec::new(),
            max_snapshots: cap,
            base_path: path,
            writes_since_rotation: 0,
        };
        assert(r@.history =~= Seq::<RecordModel>::empty());
        r
    }

    /// An empty log with the given capacity and backing-file path.
    pub fn with_path(max_snapshots: usize, path: Vec<u8>) -> (r: MemoryField)
        ensures
            wf_field(r@),
            r@.capacity == if max_snapshots >= 1 {
                max_snapshots as int
            } else {
                1
            },
            r@.history == Seq::<RecordModel>::empty(),
            r@.writes == 0,
            r@.path == path@,
    {
        let cap: usize = if max_snapshots >= 1 {
            max_snapshots
        } else {
            1
        };
        let r = MemoryField {
            history: Vec::new(),
            max_snapshots: cap,
            base_path: path,
            writes_since_rotation: 0,
        };
        assert(r@.history =~= Seq::<RecordModel>::empty());
        r
    }

    /// Restores a log from the lines of a backing file: well-formed lines
    /// load in file order, unparsable ones are skipped, and only the last
    /// `capacity` records are retained.
    pub fn from_lines(max_snapshots: usize, path: Vec<u8>, lines: &Vec<Vec<u8>>) -> (r: MemoryField)
        ensures
            wf_field(r@),
            r@.capacity == if max_snapshots >= 1 {
                max_snapshots as int
            } else {
                1
            },
            r@.path == path@,
            r@.history == clamp_tail(parse_all(lines_model(lines@)), r@.capacity),
            r@.writes == r@.history.len(),
    {
        let cap: usize = if max_snapshots >= 1 {
            max_snapshots
        } else {
            1
        };
        let mut history: Vec<SnapshotRecord> = Vec::new();
        let ghost f = |r: SnapshotRecord| r@;
        assert(history@.map_values(f) =~= clamp_tail(
            parse_all(lines_model(lines@.take(0))),
            cap as int,
        ));
        let n = lines.len();
        let mut i: usize = 0;
        while i < n
            invariant
                n == lines@.len(),
                i <= n,
                cap >= 1,
                f == (|r: SnapshotRecord| r@),
                history@.len() <= cap,
                history@.map_values(f) == clamp_tail(
                    parse_all(lines_model(lines@.take(i as int))),
                    cap as int,
                ),
            decreases n - i,
        {
            let ghost all_old = parse_all(lines_model(lines@.take(i as int)));
            proof {
                assert(lines_model(lines@.take(i + 1)).drop_last() =~= lines_model(
                    lines@.take(i as int),
                ));
                assert(lines_model(lines@.take(i + 1)).last() == lines@[i as int]@);
            }
            match parse_record_bytes(lines[i].as_slice()) {
                Some(rec) => {
                    let ghost h_old = history@;
                    history.push(rec);
                    if history.len() > cap {
                        let _ = history.remove(0);
                        proof {
                            assert(history@ =~= h_old.push(rec).drop_first());
                        }
                    }
                    proof {
                        lemma_fifo_retention(all_old, rec@, cap as int);
                        assert(parse_all(lines_model(lines@.take(i + 1))) =~= all_old.push(rec@));
                        if h_old.len() < cap {
                            assert(history@.map_values(f) =~= h_old.map_values(f).push(rec@));
                        } else {
                            assert(history@.map_values(f) =~= h_old.map_values(
                                f,
                            ).drop_first().push(rec@));
                        }
                    }
                },
                None => {
                    proof {
                        assert(parse_all(lines_model(lines@.take(i + 1))) =~= all_old);
                    }
                },
            }
            i += 1;
        }
        assert(lines@.take(n as int) =~= lines@);
        let writes = history.len();
        let r = MemoryField {
            history,
            max_snapshots: cap,
            base_path: path,
            writes_since_rotation: writes,
        };
        r
    }

    /// Number of retained snapshots.
    pub fn len(&self) -> (r: usize)
        ensures
            r == self@.history.len(),
    {
        self.history.len()
    }

    /// The capacity the log was created with.
    pub fn capacity(&self) -> (r: usize)
        ensures
            r == self@.capacity,
    {
        self.max_snapshots
    }

    /// Appends since the last completed rotation.
    pub fn writes_since_rotation(&self) -> (r: usize)
        ensures
            r == self@.writes,
    {
        self.writes_since_rotation
    }

    /// The backing-file path.
    pub fn path(&self) -> (r: &Vec<u8>)
        ensures
            r@ == self@.path,
    {
        &self.base_path
    }

    /// The snapshot at position `i`, oldest first.
    pub fn get(&self, i: usize) -> (r: Option<&SnapshotRecord>)
        ensures
            match r {
                Some(rec) => i < self@.history.len() && rec@ == self@.history[i as int],
                None => i >= self@.history.len(),
            },
    {
        if i < self.history.len() {
            Some(&self.history[i])
        } else {
            None
        }
    }

    /// The most recent snapshot.
    pub fn latest(&self) -> (r: Option<&SnapshotRecord>)
        ensures
            match r {
                Some(rec) => self@.history.len() > 0 && rec@ == self@.history.last(),
                None => self@.history.len() == 0,
            },
    {
        let n = self.history.len();
        if n == 0 {
            None
        } else {
            Some(&self.history[n - 1])
        }
    }

    /// Appends a snapshot, evicting the oldest record once the capacity
    /// is reached, and counts the write. The returned effect carries the
    /// rendered file line and, when this write triggers a rotation, the
    /// archive name derived from the path and `now_secs`.
    pub fn record(&mut self, snapshot: SnapshotRecord, now_secs: u64) -> (eff: RecordEffect)
        requires
            wf_field(old(self)@),
            old(self)@.writes < usize::MAX,
        ensures
            wf_field(final(self)@),
            final(self)@.capacity == old(self)@.capacity,
            final(self)@.path == old(self)@.path,
            final(self)@.history == push_evict(
                old(self)@.history,
                snapshot@,
                old(self)@.capacity,
            ),
            final(self)@.writes == old(self)@.writes + 1,
            eff.line@ == render_record(snapshot@),
            eff.archive matches Some(name) <==> old(self)@.writes + 1 >= old(self)@.capacity,
            eff.archive matches Some(name) ==> name@ == archive_name_spec(
                old(self)@.path,
                now_secs,
            ),
    {
        let line = render_record_bytes(&snapshot);
        let ghost h_old = self.history@;
        let ghost snap_m = snapshot@;
        self.history.push(snapshot);
        if self.history.len() > self.max_snapshots {
            let _ = self.history.remove(0);
        }
        proof {
            let f = |r: SnapshotRecord| r@;
            if h_old.len() < old(self).max_snapshots {
                assert(self.history@.map_values(f) =~= h_old.map_values(f).push(snap_m));
            } else {
                assert(self.history@.map_values(f) =~= h_old.map_values(f).drop_first().push(
                    snap_m,
                ));
            }
        }
        self.writes_since_rotation = self.writes_since_rotation + 1;
        let archive: Option<Vec<u8>> = if self.writes_since_rotation >= self.max_snapshots {
            Some(self.archive_name(now_secs))
        } else {
            None
        };
        RecordEffect { line, archive }
    }

    /// The archive name a rotation at `now_secs` would use:
    /// `{stem}-{seconds}.json`.
    pub fn archive_name(&self, now_secs: u64) -> (r: Vec<u8>)
        ensures
            r@ == archive_name_spec(self@.path, now_secs),
    {
        let p = &self.base_path;
        let plen = p.len();
        // Find the start of the file-name component.
        let mut ns: usize = 0;
        let mut idx: usize = 0;
        while idx < plen
            invariant
                idx <= plen == p@.len(),
                ns == name_start(p@.take(idx as int)),
                ns <= idx,
            decreases plen - idx,
        {
            proof {
                assert(p@.take(idx + 1).drop_last() =~= p@.take(idx as int));
            }
            if p[idx] == 0x2f {
                ns = idx + 1;
            }
            idx += 1;
        }
        assert(p@.take(plen as int) =~= p@);
        let ghost name = p@.subrange(name_start(p@), p@.len() as int);
        // Find the stem length within the name, scanning for the last dot.
        let nlen = plen - ns;
        let mut sl: usize = 0;
        let mut j: usize = nlen;
        let mut found = false;
        assert(name.take(nlen as int) =~= name);
        while j > 0 && !found
            invariant
                j <= nlen,
                sl <= nlen,
                ns + nlen == plen == p@.len(),
                name == p@.subrange(ns as int, plen as int),
                !found ==> stem_len(name) == stem_len(name.take(j as int)),
                found ==> sl == stem_len(name),
                !found ==> sl == 0,
            decreases j,
        {
            proof {
                assert(name.take(j as int).drop_last() =~= name.take(j - 1));
                assert(name.take(j as int).last() == name[j - 1]);
                assert(name[j - 1] == p@[ns + j - 1]);
            }
            if p[ns + j - 1] == 0x2e {
                sl = j - 1;
                found = true;
            }
            j -= 1;
        }
        proof {
            if !found {
                assert(name.take(0) =~= Seq::<u8>::empty());
                assert(stem_len(name) == 0);
            }
        }
        let mut out: Vec<u8> = Vec::new();
        let stem_from: usize = ns;
        let stem_to: usize = if found && sl > 0 {
            ns + sl
        } else {
            plen
        };
        if stem_to == stem_from {
            // Empty stem: fall back to the default stem.
            out.push(0x76);
            out.push(0x6f);
            out.push(0x69);
            out.push(0x64);
            out.push(0x5f);
            out.push(0x73);
            out.push(0x74);
            out.push(0x61);
            out.push(0x74);
            out.push(0x65);
            assert(out@ =~= file_stem(p@)) by {
                assert(out@ =~= default_stem());
            }
        } else {
            let mut k: usize = stem_from;
            while k < stem_to
                invariant
                    stem_from <= k <= stem_to <= p@.len(),
                    out@ == p@.subrange(stem_from as int, k as int),
                decreases stem_to - k,
            {
                out.push(p[k]);
                assert(out@ =~= p@.subrange(stem_from as int, k + 1));
                k += 1;
            }
            assert(out@ =~= file_stem(p@));
        }
        out.push(0x2d);
        let ghost before_digits = out@;
        crate::codec::push_dec(&mut out, now_secs);
        out.push(0x2e);
        out.push(0x6a);
        out.push(0x73);
        out.push(0x6f);
        out.push(0x6e);
        assert(out@ =~= archive_name_spec(self@.path, now_secs));
        out
    }

    /// Reports a completed rotation: the in-memory buffer and the write
    /// counter start over.
    pub fn commit_rotation(&mut self)
        requires
            wf_field(old(self)@),
        ensures
            wf_field(final(self)@),
            final(self)@.capacity == old(self)@.capacity,
            final(self)@.path == old(self)@.path,
            final(self)@.history == Seq::<RecordModel>::empty(),
            final(self)@.writes == 0,
    {
        self.history = Vec::new();
        self.writes_since_rotation = 0;
        assert(self@.history =~= Seq::<RecordModel>::empty());
    }

    /// The full backing-file content that a flush writes: one rendered
    /// line per retained snapshot, in order.
    pub fn flush_lines(&self) -> (r: Vec<Vec<u8>>)
        ensures
            r@.len() == self@.history.len(),
            forall|i: int| 0 <= i < r@.len() ==> (#[trigger] r@[i])@ == render_record(
                self@.history[i],
            ),
            lines_model(r@) == self@.history.map_values(|m: RecordModel| render_record(m)),
    {
        let n = self.history.len();
        let mut out: Vec<Vec<u8>> = Vec::new();
        let mut i: usize = 0;
        while i < n
            invariant
                n == self.history@.len(),
                n == self@.history.len(),
                i <= n,
                out@.len() == i,
                forall|k: int| 0 <= k < i ==> (#[trigger] out@[k])@ == render_record(
                    self@.history[k],
                ),
            decreases n - i,
        {
            let line = render_record_bytes(&self.history[i]);
            out.push(line);
            i += 1;
        }
        out
    }

    /// The exact mean of `key` over the trailing window: the sum and
    /// count of the fixed-point values in the last `min(max(window, 1),
    /// len)` records that carry the field; `None` exactly when none does.
    pub fn average(&self, key: &[u8], window: usize) -> (r: Option<WindowMean>)
        ensures
            ({
                let len = self@.history.len() as int;
                let win = self@.history.subrange(len - window_len(len, window as int), len);
                match r {
                    Some(m) => count_nums(win, key@) > 0 && m.sum == sum_nums(win, key@)
                        && m.count == count_nums(win, key@),
                    None => count_nums(win, key@) == 0,
                }
            }),
    {
        let len = self.history.len();
        let w0: usize = if window < 1 {
            1
        } else {
            window
        };
        let w: usize = if w0 > len {
            len
        } else {
            w0
        };
        let start = len - w;
        let ghost win = self@.history.subrange(start as int, len as int);
        let mut sum: i128 = 0;
        let mut count: usize = 0;
        let mut idx: usize = start;
        while idx < len
            invariant
                start <= idx <= len,
                len == self.history@.len(),
                len == self@.history.len(),
                win == self@.history.subrange(start as int, len as int),
                sum == sum_nums(win.take(idx - start), key@),
                count == count_nums(win.take(idx - start), key@),
                count <= idx - start,
                -((idx - start) * 0x8000_0000_0000_0000) <= sum <= (idx - start)
                    * 0x7fff_ffff_ffff_ffff,
            decreases len - idx,
        {
            proof {
                assert(win.take(idx - start + 1).drop_last() =~= win.take(idx - start));
                assert(win.take(idx - start + 1).last() == self@.history[idx as int]);
                vstd::arithmetic::mul::lemma_mul_inequality(
                    idx - start + 1,
                    0x1_0000_0000_0000_0000,
                    0x8000_0000_0000_0000,
                );
                vstd::arithmetic::mul::lemma_mul_inequality(
                    idx - start + 1,
                    0x1_0000_0000_0000_0000,
                    0x7fff_ffff_ffff_ffff,
                );
            }
            match self.history[idx].get_num(key) {
                Some(v) => {
                    sum = sum + v as i128;
                    count = count + 1;
                },
                None => {},
            }
            idx += 1;
        }
        assert(win.take(len - start) =~= win);
        if count > 0 {
            Some(WindowMean { sum, count })
        } else {
            None
        }
    }

    /// The difference `last - first` of `key` over the trailing window of
    /// size `min(window, len)`; `None` when the window or history is
    /// shorter than two or either endpoint lacks the field.
    pub fn trend(&self, key: &[u8], window: usize) -> (r: Option<i128>)
        ensures
            ({
                let len = self@.history.len() as int;
                if window < 2 || len < 2 {
                    r is None
                } else {
                    let w = if window as int <= len {
                        window as int
                    } else {
                        len
                    };
                    match (num_lookup(self@.history[len - w], key@), num_lookup(
                        self@.history[len - 1],
                        key@,
                    )) {
                        (Some(a), Some(b)) => r == Some((b as i128 - a as i128) as i128),
                        _ => r is None,
                    }
                }
            }),
    {
        let len = self.history.len();
        if window < 2 || len < 2 {
            return None;
        }
        let w: usize = if window <= len {
            window
        } else {
            len
        };
        let first = self.history[len - w].get_num(key);
        let last = self.history[len - 1].get_num(key);
        match (first, last) {
            (Some(a), Some(b)) => Some(b as i128 - a as i128),
            _ => None,
        }
    }
}

} // verus!
