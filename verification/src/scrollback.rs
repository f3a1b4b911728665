//! Scrollback with a cap per panel and paging to disk: the per-panel window of recent lines kept
//! in RAM, the write-behind batches handed to the disk log, and the reads that cross the
//! disk/RAM boundary.
//!
//! Each line has a GLOBAL monotonic `idx` (0-based). Per panel: `total` lines pushed (the next
//! `idx`), `persisted` lines `[0, persisted)` already durable on disk, and the RAM window holding
//! the contiguous lines `[total − window, total)`.
//!
//! **Invariant:** `total − window ≤ persisted ≤ total` — every line not yet persisted is in the
//! RAM window (never evicted before it reaches the disk).

use std::collections::VecDeque;

use vstd::prelude::*;

use crate::text::views;

verus! {

/// Default cap of lines kept in RAM per panel (the live window).
pub const DEFAULT_SCROLLBACK_CAP: usize = 10_000;

/// Unpersisted lines accumulated before one batched flush to disk (one transaction).
pub const DEFAULT_FLUSH_BATCH: usize = 2_000;

/// Default retention of the output cache on disk, in days. `0` = retention off (nothing
/// expires) — an explicit choice, never "delete everything".
pub const DEFAULT_RETENTION_DAYS: u32 = 30;

/// One day in milliseconds (the window of the retention job).
pub const DAY_MS: u64 = 86_400_000;

/// Configuration of the scrollback store.
#[derive(Debug, Clone, Copy)]
pub struct ScrollbackConfig {
    /// Lines kept in RAM per panel (live window). Above it, paging to disk.
    pub cap: usize,
    /// Unpersisted lines accumulated before a batched flush to disk.
    pub flush_batch: usize,
    /// Days of retention of the output cache on disk; older lines go in the daily job.
    /// `0` = off.
    pub retention_days: u32,
}

impl Default for ScrollbackConfig {
    fn default() -> (r: Self)
        ensures
            r.cap == DEFAULT_SCROLLBACK_CAP,
            r.flush_batch == DEFAULT_FLUSH_BATCH,
            r.retention_days == DEFAULT_RETENTION_DAYS,
    {
        ScrollbackConfig {
            cap: DEFAULT_SCROLLBACK_CAP,
            flush_batch: DEFAULT_FLUSH_BATCH,
            retention_days: DEFAULT_RETENTION_DAYS,
        }
    }
}

/// Observable metrics of the durability flush: "lines pending at the moment of the flush" is
/// the real window of exposure to a hard crash.
#[derive(Debug, Clone, Copy)]
pub struct DrainStats {
    /// Flushes triggered by the idle drain (1 per drained panel).
    pub idle_drains: u64,
    /// TOTAL lines persisted by the drains (idle + signal).
    pub lines: u64,
    /// Lines pending at the moment of the LAST drain (idle or signal).
    pub last_pending: u64,
    /// `flush_all` triggered by a termination signal.
    pub signal_flushes: u64,
}

impl Default for DrainStats {
    fn default() -> (r: Self)
        ensures
            r.idle_drains == 0 && r.lines == 0 && r.last_pending == 0 && r.signal_flushes == 0,
    {
        DrainStats { idle_drains: 0, lines: 0, last_pending: 0, signal_flushes: 0 }
    }
}

impl DrainStats {
    /// Records one panel drained by the idle drain with `pending` lines.
    pub fn record_idle_drain(&mut self, pending: u64)
        requires
            old(self).idle_drains < u64::MAX,
            old(self).lines + pending <= u64::MAX,
        ensures
            final(self).idle_drains == old(self).idle_drains + 1,
            final(self).lines == old(self).lines + pending,
            final(self).last_pending == pending,
            final(self).signal_flushes == old(self).signal_flushes,
    {
        self.idle_drains = self.idle_drains + 1;
        self.lines = self.lines + pending;
        self.last_pending = pending;
    }

    /// Records one flush of every panel made on a termination signal, with `pending` lines.
    pub fn record_signal_flush(&mut self, pending: u64)
        requires
            old(self).signal_flushes < u64::MAX,
            old(self).lines + pending <= u64::MAX,
        ensures
            final(self).signal_flushes == old(self).signal_flushes + 1,
            final(self).lines == old(self).lines + pending,
            final(self).last_pending == pending,
            final(self).idle_drains == old(self).idle_drains,
    {
        self.signal_flushes = self.signal_flushes + 1;
        self.lines = self.lines + pending;
        self.last_pending = pending;
    }
}

/// Result of one pass of the retention job.
#[derive(Debug, Clone, Copy)]
pub struct RetentionReport {
    /// Lines removed from disk in this pass.
    pub deleted: u64,
    /// The cut used (`now − retention_days`), in epoch ms.
    pub cutoff_ms: u64,
}

/// The retention cut: lines stamped before it expire (`now − days`, floored at 0).
pub open spec fn retention_cutoff_spec(now_ms: u64, days: u32) -> u64 {
    if now_ms >= days * DAY_MS {
        (now_ms - days * DAY_MS) as u64
    } else {
        0
    }
}

/// The retention cut for `now_ms` with `days` of retention.
pub fn retention_cutoff(now_ms: u64, days: u32) -> (r: u64)
    ensures
        r == retention_cutoff_spec(now_ms, days),
{
    assert(days * DAY_MS <= u32::MAX * DAY_MS) by (nonlinear_arith)
        requires
            days <= u32::MAX,
    ;
    now_ms.saturating_sub((days as u64) * DAY_MS)
}

/// The daily trigger of the retention job: retention on, and a day has passed since the last
/// pass (or it never ran since boot).
pub fn retention_due(now_ms: u64, last_retention_ms: u64, days: u32) -> (r: bool)
    ensures
        r == (days != 0 && (last_retention_ms == 0 || now_ms >= last_retention_ms + DAY_MS)),
{
    days != 0 && (now_ms.saturating_sub(last_retention_ms) >= DAY_MS || last_retention_ms == 0)
}

/// The timestamp of a new batch: the clock, never below the previous batch's (a wall clock that
/// goes back never breaks the expiring prefix).
pub fn batch_ts(clock_ms: u64, floor: u64) -> (r: u64)
    ensures
        r >= floor,
        r >= clock_ms,
        r == clock_ms || r == floor,
{
    if clock_ms >= floor {
        clock_ms
    } else {
        floor
    }
}

/// The mathematical state of one panel.
pub struct PanelView {
    /// Every line ever pushed, by `idx` (lines rehydrated from disk at open are unknown here).
    pub history: Seq<Seq<char>>,
    /// The RAM window: the lines `[total − ram.len(), total)`.
    pub ram: Seq<Seq<char>>,
    /// Lines `[0, persisted)` are durable on disk.
    pub persisted: nat,
    /// Lines pushed so far (= the next `idx`).
    pub total: nat,
    /// Timestamp of the last flushed batch.
    pub last_ts: nat,
    /// Lines `[0, expired_before)` were removed by retention.
    pub expired_before: nat,
    /// Instant (monotonic ms) of the last push, `None` for a panel rehydrated without new output.
    pub last_push_ms: Option<u64>,
}

/// First `idx` held in RAM.
pub open spec fn tail_start_of(v: PanelView) -> int {
    v.total - v.ram.len()
}

/// The panel invariant: the RAM window is the contiguous suffix of the history and covers every
/// unpersisted line.
pub open spec fn panel_inv(v: PanelView) -> bool {
    &&& v.history.len() == v.total
    &&& v.ram.len() <= v.total
    &&& tail_start_of(v) <= v.persisted <= v.total
    &&& v.ram == v.history.subrange(tail_start_of(v), v.total as int)
}

/// The size of the RAM window after evicting down to `cap`: unchanged within the cap, else `cap`,
/// but never fewer lines than those not yet persisted.
pub open spec fn window_after_eviction(v: PanelView, cap: nat) -> nat {
    let unpersisted = (v.total - v.persisted) as nat;
    if v.ram.len() <= cap {
        v.ram.len()
    } else if cap >= unpersisted {
        cap
    } else {
        unpersisted
    }
}

/// The panel after pushing `line` at `now`.
pub open spec fn pushed(v: PanelView, line: Seq<char>, now: u64) -> PanelView {
    PanelView {
        history: v.history.push(line),
        ram: v.ram.push(line),
        total: v.total + 1,
        last_push_ms: Some(now),
        ..v
    }
}

/// The panel after its pending batch became durable, stamped `ts`.
pub open spec fn committed(v: PanelView, ts: u64) -> PanelView {
    PanelView { persisted: v.total, last_ts: ts as nat, ..v }
}

/// The panel after evicting its window down to `cap` (see [`window_after_eviction`]).
pub open spec fn evicted(v: PanelView, cap: nat) -> PanelView {
    PanelView {
        ram: v.history.subrange(v.total - window_after_eviction(v, cap), v.total as int),
        ..v
    }
}

/// The split of a read of `[lo, hi)`: the clamped bounds `l..h`, the part `l..disk_hi` read from
/// disk and the part `ram_lo..ram_hi` served from the RAM window.
pub open spec fn range_split(v: PanelView, lo: u64, hi: u64) -> (int, int, int, int, int) {
    let h = if hi < v.total { hi as int } else { v.total as int };
    let l = if lo < h { lo as int } else { h };
    let ts = tail_start_of(v);
    let disk_hi = if l < h && l < ts { if h < ts { h } else { ts } } else { l };
    let ram_lo = if l > ts { l } else { ts };
    let ram_hi = if l > ts { h } else if h > ts { h } else { ts };
    (l, h, disk_hi, ram_lo, ram_hi)
}

/// One `push_line` of the store: push, persist the batch when it is full (stamped `ts`), then
/// evict down to `cap`.
pub open spec fn push_line_step(v: PanelView, line: Seq<char>, now: u64, ts: u64, flush_batch: nat, cap: nat) -> PanelView {
    let p = pushed(v, line, now);
    let b: nat = if flush_batch == 0 {
        1
    } else {
        flush_batch
    };
    let f = if p.total - p.persisted >= b {
        committed(p, ts)
    } else {
        p
    };
    evicted(f, cap)
}

/// Where a line is read from.
#[derive(Debug, Clone, PartialEq, Eq)]
pub enum LineLoc {
    /// `idx` beyond the lines pushed.
    Absent,
    /// The line, served from the RAM window.
    Ram(String),
    /// The line is older than the window and durable on disk: read it there.
    Disk,
}

/// The reading plan of a range: the part on disk (`[disk_lo, disk_hi)`, possibly empty) followed
/// by the lines served from RAM.
#[derive(Debug, Clone)]
pub struct RangePlan {
    pub disk_lo: u64,
    pub disk_hi: u64,
    pub ram: Vec<String>,
}

/// A write-behind batch to persist: lines `start..start+lines.len()` of the panel.
#[derive(Debug, Clone)]
pub struct FlushBatch {
    pub start: u64,
    pub lines: Vec<String>,
    /// The floor for the batch timestamp (the previous batch's).
    pub ts_floor: u64,
}

/// In-RAM buffer of one panel: the window of recent lines and the counters.
pub struct PanelBuffer {
    tail_buf: VecDeque<String>,
    persisted: u64,
    total: u64,
    last_push_ms: Option<u64>,
    last_ts: u64,
    expired_before: u64,
    history: Ghost<Seq<Seq<char>>>,
}

impl View for PanelBuffer {
    type V = PanelView;

    closed spec fn view(&self) -> PanelView {
        PanelView {
            history: self.history@,
            ram: views(self.tail_buf@),
            persisted: self.persisted as nat,
            total: self.total as nat,
            last_ts: self.last_ts as nat,
            expired_before: self.expired_before as nat,
            last_push_ms: self.last_push_ms,
        }
    }
}

impl PanelBuffer {
    /// A new, empty panel.
    pub fn new() -> (r: Self)
        ensures
            panel_inv(r@),
            r@.total == 0 && r@.persisted == 0 && r@.ram.len() == 0 && r@.last_ts == 0,
            r@.expired_before == 0 && r@.last_push_ms is None,
    {
        let r = PanelBuffer {
            tail_buf: VecDeque::new(),
            persisted: 0,
            total: 0,
            last_push_ms: None,
            last_ts: 0,
            expired_before: 0,
            history: Ghost(Seq::empty()),
        };
        assert(views(r.tail_buf@) =~= Seq::empty());
        assert(r@.ram =~= r@.history.subrange(0, 0));
        r
    }

    /// A panel reopened from disk: `next_idx` is `MAX(idx)+1` of its lines (or −∞ as `0`
    /// when the query found none) and `max_ts` the stamp of its newest batch. Everything is
    /// persisted; the RAM window starts empty (reads fall on disk until new output arrives).
    pub fn from_disk(next_idx: i64, max_ts: i64) -> (r: Self)
        ensures
            panel_inv(r@),
            r@.total == (if next_idx > 0 { next_idx as nat } else { 0 }),
            r@.persisted == r@.total,
            r@.ram.len() == 0,
            r@.last_ts == (if max_ts > 0 { max_ts as nat } else { 0 }),
            r@.expired_before == 0,
            r@.last_push_ms is None,
    {
        let c: u64 = if next_idx > 0 { next_idx as u64 } else { 0 };
        let ts: u64 = if max_ts > 0 { max_ts as u64 } else { 0 };
        let r = PanelBuffer {
            tail_buf: VecDeque::new(),
            persisted: c,
            total: c,
            last_push_ms: None,
            last_ts: ts,
            expired_before: 0,
            history: Ghost(Seq::new(c as nat, |i: int| Seq::<char>::empty())),
        };
        assert(views(r.tail_buf@) =~= Seq::empty());
        assert(r.history@.subrange(c as int, c as int) =~= Seq::empty());
        r
    }

    /// Reconciles a panel being reopened (nothing in RAM yet) with its durable metadata:
    /// `next_idx` survives a retention that removed every line (the sequence of `idx` never
    /// goes back), and `expired_before` is the expiry floor.
    pub fn reconcile_meta(&mut self, next_idx: i64, expired_before: i64)
        requires
            panel_inv(old(self)@),
            old(self)@.ram.len() == 0,
        ensures
            panel_inv(final(self)@),
            final(self)@.total == (if next_idx > 0 && next_idx as nat > old(self)@.total {
                next_idx as nat
            } else {
                old(self)@.total
            }),
            final(self)@.persisted == final(self)@.total,
            final(self)@.expired_before == (if expired_before > 0 {
                expired_before as nat
            } else {
                0
            }),
            old(self)@.history.is_prefix_of(final(self)@.history),
            final(self)@.ram.len() == 0,
            final(self)@.last_ts == old(self)@.last_ts,
            final(self)@.last_push_ms == old(self)@.last_push_ms,
    {
        let seq: u64 = if next_idx > 0 { next_idx as u64 } else { 0 };
        if seq > self.total {
            let ghost old_hist = self.history@;
            let ghost extra = Seq::new((seq - self.total) as nat, |i: int| Seq::<char>::empty());
            self.history = Ghost(old_hist + extra);
            assert(old_hist.is_prefix_of(self.history@));
            self.total = seq;
        } else {
            assert(self.history@.is_prefix_of(self.history@));
        }
        self.persisted = self.total;
        self.expired_before = if expired_before > 0 { expired_before as u64 } else { 0 };
        assert(self@.ram.len() == 0);
        assert(self@.ram =~= self@.history.subrange(self.total as int, self.total as int));
    }

    /// `idx` of the first line of the RAM window (the RAM/disk boundary for reads).
    pub fn tail_start(&self) -> (r: u64)
        requires
            panel_inv(self@),
        ensures
            r == tail_start_of(self@),
    {
        self.total - self.tail_buf.len() as u64
    }

    /// Lines pushed so far (= the next `idx`).
    pub fn total(&self) -> (r: u64)
        ensures
            r == self@.total,
    {
        self.total
    }

    /// Lines already durable on disk.
    pub fn persisted(&self) -> (r: u64)
        ensures
            r == self@.persisted,
    {
        self.persisted
    }

    /// Lines in the write-behind (not yet durable) — the exposure window to a hard crash.
    pub fn pending(&self) -> (r: u64)
        requires
            panel_inv(self@),
        ensures
            r == self@.total - self@.persisted,
    {
        self.total - self.persisted
    }

    /// Expiry floor: lines `[0, expired_before)` were removed by retention.
    pub fn expired_before(&self) -> (r: u64)
        ensures
            r == self@.expired_before,
    {
        self.expired_before
    }

    /// Lines currently held in RAM.
    pub fn ram_len(&self) -> (r: usize)
        ensures
            r == self@.ram.len(),
    {
        self.tail_buf.len()
    }

    /// Pushes one line: it goes to the RAM window, and `true` tells that the write-behind has
    /// reached `flush_batch` unpersisted lines (the caller flushes the batch to disk).
    pub fn push(&mut self, line: String, flush_batch: usize, now_ms: u64) -> (need_flush: bool)
        requires
            panel_inv(old(self)@),
            old(self)@.total < u64::MAX,
        ensures
            panel_inv(final(self)@),
            final(self)@.history == old(self)@.history.push(line@),
            final(self)@.ram == old(self)@.ram.push(line@),
            final(self)@.total == old(self)@.total + 1,
            final(self)@.persisted == old(self)@.persisted,
            final(self)@.last_ts == old(self)@.last_ts,
            final(self)@.expired_before == old(self)@.expired_before,
            final(self)@.last_push_ms == Some(now_ms),
            final(self)@ == pushed(old(self)@, line@, now_ms),
            need_flush == (final(self)@.total - final(self)@.persisted >= (if flush_batch == 0 {
                1
            } else {
                flush_batch as int
            })),
    {
        let batch: u64 = if flush_batch == 0 { 1 } else { flush_batch as u64 };
        let ghost old_ram = self.tail_buf@;
        let ghost l = line@;
        self.tail_buf.push_back(line);
        self.total = self.total + 1;
        self.history = Ghost(self.history@.push(l));
        self.last_push_ms = Some(now_ms);
        assert(views(self.tail_buf@) =~= views(old_ram).push(l));
        assert(self@.ram =~= self@.history.subrange(tail_start_of(self@), self@.total as int));
        self.total - self.persisted >= batch
    }

    /// The write-behind batch to persist: exactly the unpersisted suffix of the window, as lines
    /// `persisted..total` (`None` when nothing is pending). The lines stay in RAM.
    pub fn pending_batch(&self) -> (r: Option<FlushBatch>)
        requires
            panel_inv(self@),
        ensures
            match r {
                Some(b) => {
                    &&& self@.total > self@.persisted
                    &&& b.start == self@.persisted
                    &&& views(b.lines@) == self@.history.subrange(
                        self@.persisted as int,
                        self@.total as int,
                    )
                    &&& b.ts_floor == self@.last_ts
                },
                None => self@.total == self@.persisted,
            },
    {
        if self.total <= self.persisted {
            return None;
        }
        let n = (self.total - self.persisted) as usize;
        let from = self.tail_buf.len() - n;
        let ghost ram = views(self.tail_buf@);
        let mut lines: Vec<String> = Vec::new();
        let mut i = from;
        while i < self.tail_buf.len()
            invariant
                panel_inv(self@),
                ram == views(self.tail_buf@),
                from <= i <= self.tail_buf.len(),
                views(lines@) == ram.subrange(from as int, i as int),
            decreases self.tail_buf.len() - i,
        {
            let ghost before = lines@;
            lines.push(self.tail_buf[i].clone());
            assert(views(lines@) == views(before).push(ram[i as int]));
            assert(ram.subrange(from as int, i + 1) == ram.subrange(from as int, i as int).push(
                ram[i as int],
            ));
            i = i + 1;
        }
        assert(ram.subrange(from as int, ram.len() as int) =~= self@.history.subrange(
            self@.persisted as int,
            self@.total as int,
        ));
        Some(FlushBatch { start: self.persisted, lines, ts_floor: self.last_ts })
    }

    /// Records that the whole pending batch is now durable, stamped `ts`.
    pub fn commit_flush(&mut self, written: u64, ts: u64)
        requires
            panel_inv(old(self)@),
            written == old(self)@.total - old(self)@.persisted,
        ensures
            panel_inv(final(self)@),
            final(self)@.persisted == old(self)@.total,
            final(self)@.last_ts == ts,
            final(self)@.history == old(self)@.history,
            final(self)@.ram == old(self)@.ram,
            final(self)@.total == old(self)@.total,
            final(self)@.expired_before == old(self)@.expired_before,
            final(self)@.last_push_ms == old(self)@.last_push_ms,
            final(self)@ == committed(old(self)@, ts),
    {
        self.persisted = self.persisted + written;
        self.last_ts = ts;
    }

    /// Evicts from RAM the oldest lines ALREADY persisted until the window is back to `cap`.
    /// Never evicts an unpersisted line (that would lose data before the disk).
    pub fn evict_to_cap(&mut self, cap: usize)
        requires
            panel_inv(old(self)@),
        ensures
            panel_inv(final(self)@),
            final(self)@.ram.len() == window_after_eviction(old(self)@, cap as nat),
            final(self)@ == evicted(old(self)@, cap as nat),
            final(self)@.ram.len() <= cap || tail_start_of(final(self)@) == final(self)@.persisted,
            final(self)@.ram.len() <= old(self)@.ram.len(),
            old(self)@.ram.len() <= cap ==> final(self)@.ram == old(self)@.ram,
            final(self)@.history == old(self)@.history,
            final(self)@.total == old(self)@.total,
            final(self)@.persisted == old(self)@.persisted,
            final(self)@.last_ts == old(self)@.last_ts,
            final(self)@.expired_before == old(self)@.expired_before,
            final(self)@.last_push_ms == old(self)@.last_push_ms,
    {
        while self.tail_buf.len() > cap && self.total - (self.tail_buf.len() as u64)
            < self.persisted
            invariant
                panel_inv(self@),
                self@.history == old(self)@.history,
                self@.total == old(self)@.total,
                self@.persisted == old(self)@.persisted,
                self@.last_ts == old(self)@.last_ts,
                self@.expired_before == old(self)@.expired_before,
                self@.last_push_ms == old(self)@.last_push_ms,
                self@.ram.len() <= old(self)@.ram.len(),
                self@.ram.len() >= window_after_eviction(old(self)@, cap as nat),
                old(self)@.ram.len() <= cap ==> self@.ram == old(self)@.ram,
            decreases self.tail_buf.len(),
        {
            self.pop_oldest();
        }
    }

    fn pop_oldest(&mut self)
        requires
            panel_inv(old(self)@),
            old(self)@.ram.len() > 0,
            tail_start_of(old(self)@) < old(self)@.persisted,
        ensures
            panel_inv(final(self)@),
            final(self)@.ram == old(self)@.ram.drop_first(),
            final(self)@.history == old(self)@.history,
            final(self)@.total == old(self)@.total,
            final(self)@.persisted == old(self)@.persisted,
            final(self)@.last_ts == old(self)@.last_ts,
            final(self)@.expired_before == old(self)@.expired_before,
            final(self)@.last_push_ms == old(self)@.last_push_ms,
    {
        let ghost ram = self.tail_buf@;
        let _ = self.tail_buf.pop_front();
        assert(views(self.tail_buf@) =~= views(ram).drop_first());
        assert(self@.ram =~= self@.history.subrange(tail_start_of(self@), self@.total as int));
    }

    /// Where line `idx` is read from: beyond the pushed lines it is absent; inside the window it
    /// is served from RAM; older lines are durable on disk.
    pub fn locate(&self, idx: u64) -> (r: LineLoc)
        requires
            panel_inv(self@),
        ensures
            match r {
                LineLoc::Absent => idx >= self@.total,
                LineLoc::Ram(s) => tail_start_of(self@) <= idx < self@.total && s@
                    == self@.history[idx as int],
                LineLoc::Disk => idx < tail_start_of(self@) && idx < self@.persisted,
            },
    {
        if idx >= self.total {
            return LineLoc::Absent;
        }
        let ts = self.tail_start();
        if idx >= ts {
            assert(idx - ts < self.tail_buf@.len());
            let k = (idx - ts) as usize;
            let s = self.tail_buf[k].clone();
            assert(self@.ram == views(self.tail_buf@));
            assert(self@.ram[k as int] == self@.history.subrange(ts as int, self@.total as int)[k as int]);
            assert(views(self.tail_buf@)[k as int] == self@.history[idx as int]);
            return LineLoc::Ram(s);
        }
        LineLoc::Disk
    }

    /// The reading plan of `[lo, hi)` clamped to `[0, total)`: the disk part first (one query),
    /// then the lines of the RAM window, in `idx` order.
    pub fn range_plan(&self, lo: u64, hi: u64) -> (r: RangePlan)
        requires
            panel_inv(self@),
        ensures
            ({
                let h = if hi < self@.total { hi as int } else { self@.total as int };
                let l = if lo < h { lo as int } else { h };
                let ts = tail_start_of(self@);
                &&& r.disk_lo == l
                &&& r.disk_hi == (if l < h && l < ts { if h < ts { h } else { ts } } else { l })
                &&& r.disk_hi <= self@.persisted || r.disk_hi == r.disk_lo
                &&& views(r.ram@) == self@.history.subrange(
                    if l > ts { l } else { ts },
                    if l > ts { h } else if h > ts { h } else { ts },
                )
            }),
            r.disk_lo == range_split(self@, lo, hi).0 && r.disk_hi == range_split(self@, lo, hi).2,
            views(r.ram@) == self@.history.subrange(range_split(self@, lo, hi).3, range_split(self@, lo, hi).4),
    {
        let total = self.total;
        let hi = if hi < total { hi } else { total };
        let lo = if lo < hi { lo } else { hi };
        let ts = self.tail_start();
        let disk_hi = if lo < hi && lo < ts { if hi < ts { hi } else { ts } } else { lo };
        let ram_lo = if lo > ts { lo } else { ts };
        let ram_hi = if lo > ts { hi } else if hi > ts { hi } else { ts };
        let ghost ram = views(self.tail_buf@);
        let mut out: Vec<String> = Vec::new();
        let mut i = ram_lo;
        while i < ram_hi
            invariant
                panel_inv(self@),
                ram == views(self.tail_buf@),
                ts == tail_start_of(self@),
                ts <= ram_lo <= i <= ram_hi <= self@.total,
                views(out@) == self@.history.subrange(ram_lo as int, i as int),
            decreases ram_hi - i,
        {
            assert(i - ts < self.tail_buf@.len());
            let k = (i - ts) as usize;
            let s = self.tail_buf[k].clone();
            assert(s@ == ram[k as int]);
            assert(ram[k as int] == self@.history[i as int]);
            let ghost before = out@;
            out.push(s);
            assert(views(out@) == views(before).push(self@.history[i as int]));
            assert(self@.history.subrange(ram_lo as int, i + 1) == self@.history.subrange(
                ram_lo as int,
                i as int,
            ).push(self@.history[i as int]));
            i = i + 1;
        }
        RangePlan { disk_lo: lo, disk_hi, ram: out }
    }

    /// Number of lines in the window, saturating at `cap` (the occupancy reading of the panel).
    pub fn gauge_used(&self, cap: u64) -> (r: u64)
        ensures
            r == (if self@.total < cap { self@.total } else { cap as nat }),
    {
        if self.total < cap {
            self.total
        } else {
            cap
        }
    }

    /// The pending count when the panel is idle — pending lines and no push for `idle_ms`
    /// (under continuous output the last push renews and the drain never fires).
    pub fn idle_pending(&self, now_ms: u64, idle_ms: u64) -> (r: Option<u64>)
        requires
            panel_inv(self@),
        ensures
            match r {
                Some(p) => {
                    &&& p == self@.total - self@.persisted
                    &&& p > 0
                    &&& self@.last_push_ms is Some
                    &&& now_ms >= self@.last_push_ms->0 + idle_ms
                },
                None => self@.total == self@.persisted || self@.last_push_ms is None || now_ms
                    < self@.last_push_ms->0 + idle_ms,
            },
    {
        let pending = self.total - self.persisted;
        match self.last_push_ms {
            Some(t) => {
                if pending > 0 && now_ms >= t && now_ms - t >= idle_ms {
                    Some(pending)
                } else {
                    None
                }
            },
            None => None,
        }
    }

    /// Applies an expiry floor of the retention job: records it and evicts from RAM the expired
    /// prefix (only lines already persisted — the write-behind invariant stays intact).
    pub fn apply_retention_floor(&mut self, floor: u64)
        requires
            panel_inv(old(self)@),
        ensures
            panel_inv(final(self)@),
            final(self)@.expired_before == floor,
            tail_start_of(final(self)@) >= floor || tail_start_of(final(self)@)
                == final(self)@.persisted,
            final(self)@.ram.len() <= old(self)@.ram.len(),
            final(self)@.history == old(self)@.history,
            final(self)@.total == old(self)@.total,
            final(self)@.persisted == old(self)@.persisted,
            final(self)@.last_ts == old(self)@.last_ts,
            final(self)@.last_push_ms == old(self)@.last_push_ms,
    {
        self.expired_before = floor;
        while self.total - (self.tail_buf.len() as u64) < floor && self.total - (
        self.tail_buf.len() as u64) < self.persisted
            invariant
                panel_inv(self@),
                self@.expired_before == floor,
                self@.history == old(self)@.history,
                self@.total == old(self)@.total,
                self@.persisted == old(self)@.persisted,
                self@.last_ts == old(self)@.last_ts,
                self@.last_push_ms == old(self)@.last_push_ms,
                self@.ram.len() <= old(self)@.ram.len(),
            decreases self.tail_buf.len(),
        {
            self.pop_oldest();
        }
    }

    /// Bytes of line text really held in RAM by this panel: `Σ (text bytes + overhead)`.
    pub fn ram_bytes(&self, overhead: usize) -> (r: Option<usize>)
        requires
            panel_inv(self@),
        ensures
            match r {
                Some(x) => x == ram_bytes_spec(self@.ram, overhead as int),
                None => ram_bytes_spec(self@.ram, overhead as int) > usize::MAX,
            },
    {
        let ghost ram = views(self.tail_buf@);
        let mut sum: usize = 0;
        let mut i: usize = 0;
        while i < self.tail_buf.len()
            invariant
                ram == views(self.tail_buf@),
                i <= ram.len(),
                sum == ram_bytes_spec(ram.take(i as int), overhead as int),
            decreases self.tail_buf.len() - i,
        {
            proof {
                assert(ram.take(i + 1).drop_last() == ram.take(i as int));
                lemma_ram_bytes_prefix(ram, i + 1, overhead as int);
            }
            let n = self.tail_buf[i].as_str().as_bytes().len();
            assert(ram[i as int] == self.tail_buf@[i as int]@);
            let step = match n.checked_add(overhead) {
                Some(x) => x,
                None => return None,
            };
            sum = match sum.checked_add(step) {
                Some(x) => x,
                None => return None,
            };
            i = i + 1;
        }
        assert(ram.take(ram.len() as int) == ram);
        Some(sum)
    }
}

/// `Σ (utf8 bytes + overhead)` over the lines.
pub open spec fn ram_bytes_spec(lines: Seq<Seq<char>>, overhead: int) -> int
    decreases lines.len(),
{
    if lines.len() == 0 {
        0
    } else {
        ram_bytes_spec(lines.drop_last(), overhead) + vstd::utf8::encode_utf8(lines.last()).len()
            + overhead
    }
}

proof fn lemma_ram_bytes_prefix(lines: Seq<Seq<char>>, k: int, overhead: int)
    requires
        0 <= k <= lines.len(),
        overhead >= 0,
    ensures
        ram_bytes_spec(lines.take(k), overhead) <= ram_bytes_spec(lines, overhead),
    decreases lines.len() - k,
{
    if k < lines.len() {
        lemma_ram_bytes_prefix(lines, k + 1, overhead);
        assert(lines.take(k + 1).drop_last() == lines.take(k));
    } else {
        assert(lines.take(k) == lines);
    }
}

/// Nothing pushed is lost: under the panel invariant (kept by every operation of
/// [`PanelBuffer`]), each line pushed is either in the RAM window or already durable on disk.
pub proof fn law_every_line_in_ram_or_on_disk(v: PanelView, idx: int)
    requires
        panel_inv(v),
        0 <= idx < v.total,
    ensures
        tail_start_of(v) <= idx || idx < v.persisted,
        tail_start_of(v) <= idx ==> v.ram[idx - tail_start_of(v)] == v.history[idx],
{
}

/// The store keeps its RAM near the cap however many lines are pushed: if before a `push_line`
/// (push, persist the batch once it is full, evict down to `cap`) the panel holds fewer
/// unpersisted lines than a batch and a window within `max(cap, unpersisted)`, so it does after,
/// and its window never exceeds `max(cap, batch − 1)` lines.
pub proof fn law_window_stays_near_cap(v: PanelView, line: Seq<char>, now: u64, ts: u64, flush_batch: nat, cap: nat)
    requires
        panel_inv(v),
        v.total - v.persisted < (if flush_batch == 0 {
            1
        } else {
            flush_batch
        }),
    ensures
        ({
            let w = push_line_step(v, line, now, ts, flush_batch, cap);
            let b: nat = if flush_batch == 0 {
                1
            } else {
                flush_batch
            };
            &&& panel_inv(w)
            &&& w.total == v.total + 1
            &&& w.history == v.history.push(line)
            &&& w.total - w.persisted < b
            &&& w.ram.len() <= (if cap >= w.total - w.persisted {
                cap
            } else {
                (w.total - w.persisted) as nat
            })
            &&& w.ram.len() <= (if cap >= b - 1 {
                cap
            } else {
                (b - 1) as nat
            })
        }),
{
    let p = pushed(v, line, now);
    assert(p.ram =~= p.history.subrange(tail_start_of(p), p.total as int));
    let b: nat = if flush_batch == 0 {
        1
    } else {
        flush_batch
    };
    let f = if p.total - p.persisted >= b {
        committed(p, ts)
    } else {
        p
    };
    let w = evicted(f, cap);
    assert(w.ram.len() == window_after_eviction(f, cap));
}

/// Every line of the window takes at most `max_line` bytes: then the window takes at most
/// `ram.len() · (max_line + overhead)` bytes of RAM.
pub proof fn law_ram_bytes_bounded(lines: Seq<Seq<char>>, overhead: int, max_line: int)
    requires
        overhead >= 0,
        forall|i: int| 0 <= i < lines.len() ==> vstd::utf8::encode_utf8(#[trigger] lines[i]).len() <= max_line,
    ensures
        ram_bytes_spec(lines, overhead) <= lines.len() * (max_line + overhead),
    decreases lines.len(),
{
    if lines.len() > 0 {
        let t = lines.drop_last();
        assert forall|i: int| 0 <= i < t.len() implies vstd::utf8::encode_utf8(#[trigger] t[i]).len() <= max_line by {
            assert(t[i] == lines[i]);
        }
        law_ram_bytes_bounded(t, overhead, max_line);
        assert(vstd::utf8::encode_utf8(lines[lines.len() - 1]).len() <= max_line);
        let n = t.len();
        assert(n * (max_line + overhead) + (max_line + overhead) == (n + 1) * (max_line + overhead)) by (nonlinear_arith);
    }
}

/// A read of `[lo, hi)` loses and repeats nothing: the lines read from disk followed by the lines
/// served from RAM are exactly the lines `[min(lo, h), h)` pushed (with `h = min(hi, total)`), and
/// the disk part only asks for durable lines.
pub proof fn law_range_joins_disk_and_ram(v: PanelView, lo: u64, hi: u64)
    requires
        panel_inv(v),
    ensures
        ({
            let (l, h, disk_hi, ram_lo, ram_hi) = range_split(v, lo, hi);
            &&& v.history.subrange(l, disk_hi) + v.history.subrange(ram_lo, ram_hi) == v.history.subrange(l, h)
            &&& (disk_hi <= v.persisted || disk_hi == l)
        }),
{
    let (l, h, disk_hi, ram_lo, ram_hi) = range_split(v, lo, hi);
    assert(v.history.subrange(l, disk_hi) + v.history.subrange(ram_lo, ram_hi) =~= v.history.subrange(l, h));
}

} // verus!
