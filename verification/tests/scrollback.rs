use lina_core::scrollback::{
    batch_ts, retention_cutoff, retention_due, DrainStats, LineLoc, PanelBuffer, ScrollbackConfig, DAY_MS,
    DEFAULT_FLUSH_BATCH, DEFAULT_RETENTION_DAYS, DEFAULT_SCROLLBACK_CAP,
};

fn line(i: u64) -> String {
    format!("line {i}")
}

#[test]
fn config_defaults() {
    let c = ScrollbackConfig::default();
    assert_eq!(c.cap, DEFAULT_SCROLLBACK_CAP);
    assert_eq!(c.flush_batch, DEFAULT_FLUSH_BATCH);
    assert_eq!(c.retention_days, DEFAULT_RETENTION_DAYS);
}

#[test]
fn push_reports_flush_when_batch_is_full() {
    let mut p = PanelBuffer::new();
    assert!(!p.push(line(0), 3, 10));
    assert!(!p.push(line(1), 3, 11));
    assert!(p.push(line(2), 3, 12));
    assert_eq!(p.total(), 3);
    assert_eq!(p.pending(), 3);
    let b = p.pending_batch().expect("pending lines");
    assert_eq!(b.start, 0);
    assert_eq!(b.lines, vec![line(0), line(1), line(2)]);
    p.commit_flush(3, 500);
    assert_eq!(p.persisted(), 3);
    assert!(p.pending_batch().is_none());
    // Batch 0 flushes every line.
    assert!(p.push(line(3), 0, 13));
}

#[test]
fn every_line_is_readable_from_ram_or_disk() {
    let mut p = PanelBuffer::new();
    for i in 0..10 {
        p.push(line(i), 100, i);
    }
    // Nothing persisted: eviction cannot drop unpersisted lines.
    p.evict_to_cap(4);
    assert_eq!(p.ram_len(), 10);
    p.commit_flush(10, 99);
    p.evict_to_cap(4);
    assert_eq!(p.ram_len(), 4);
    assert_eq!(p.tail_start(), 6);
    for i in 0..10 {
        match p.locate(i) {
            LineLoc::Ram(s) => {
                assert!(i >= 6);
                assert_eq!(s, line(i));
            },
            LineLoc::Disk => assert!(i < 6),
            LineLoc::Absent => panic!("line {i} lost"),
        }
    }
    assert_eq!(p.locate(10), LineLoc::Absent);
}

#[test]
fn range_plan_splits_disk_and_ram() {
    let mut p = PanelBuffer::new();
    for i in 0..8 {
        p.push(line(i), 100, i);
    }
    p.commit_flush(8, 1);
    p.evict_to_cap(3);
    let plan = p.range_plan(2, 100);
    assert_eq!((plan.disk_lo, plan.disk_hi), (2, 5));
    assert_eq!(plan.ram, vec![line(5), line(6), line(7)]);
    let plan = p.range_plan(6, 7);
    assert_eq!((plan.disk_lo, plan.disk_hi), (6, 6));
    assert_eq!(plan.ram, vec![line(6)]);
}

#[test]
fn rehydrated_panel_continues_numbering() {
    let mut p = PanelBuffer::from_disk(42, 1_000);
    assert_eq!(p.total(), 42);
    assert_eq!(p.persisted(), 42);
    assert_eq!(p.locate(3), LineLoc::Disk);
    p.push(line(42), 10, 5);
    assert_eq!(p.locate(42), LineLoc::Ram(line(42)));
    let b = p.pending_batch().expect("one line");
    assert_eq!((b.start, b.ts_floor), (42, 1_000));
}

#[test]
fn retention_helpers() {
    assert_eq!(retention_cutoff(40 * DAY_MS, 30), 10 * DAY_MS);
    assert_eq!(retention_cutoff(5, 30), 0);
    assert_eq!(retention_cutoff(5, 0), 5);
    assert!(retention_due(1, 0, 30), "never ran since boot");
    assert!(!retention_due(1, 0, 0), "retention off");
    assert!(!retention_due(DAY_MS, 1, 30));
    assert!(retention_due(DAY_MS + 1, 1, 30));
    assert_eq!(batch_ts(100, 50), 100);
    assert_eq!(batch_ts(10, 50), 50, "a clock going back never breaks the prefix");
}

#[test]
fn retention_floor_trims_ram_of_expired_persisted_lines() {
    let mut p = PanelBuffer::new();
    for i in 0..6 {
        p.push(line(i), 100, i);
    }
    p.commit_flush(6, 1);
    p.apply_retention_floor(4);
    assert_eq!(p.expired_before(), 4);
    assert_eq!(p.tail_start(), 4);
    assert_eq!(p.locate(4), LineLoc::Ram(line(4)));
}

#[test]
fn idle_drain_and_gauge() {
    let mut p = PanelBuffer::new();
    assert_eq!(p.idle_pending(1_000, 500), None);
    p.push(line(0), 100, 1_000);
    assert_eq!(p.idle_pending(1_400, 500), None);
    assert_eq!(p.idle_pending(1_500, 500), Some(1));
    assert_eq!(p.gauge_used(10), 1);
    assert_eq!(p.ram_bytes(8), Some("line 0".len() + 8));
    let mut s = DrainStats::default();
    s.record_idle_drain(3);
    s.record_signal_flush(2);
    assert_eq!((s.idle_drains, s.lines, s.last_pending, s.signal_flushes), (1, 5, 2, 1));
}

#[test]
fn eviction_stops_at_the_unpersisted_floor() {
    let mut p = PanelBuffer::new();
    for i in 0..10 {
        p.push(line(i), 100, i);
    }
    let b = p.pending_batch().expect("pending lines");
    assert_eq!(b.lines.len(), 10);
    p.commit_flush(10, 5);
    for i in 10..13 {
        p.push(line(i), 100, i);
    }
    p.evict_to_cap(1);
    assert_eq!(p.ram_len(), 3, "the three unpersisted lines stay in RAM");
    assert_eq!(p.tail_start(), 10);
    p.evict_to_cap(5);
    assert_eq!(p.ram_len(), 3, "within the cap: nothing more evicted");
}

#[test]
fn window_stays_near_cap_and_ranges_join_disk_and_ram() {
    let (cap, batch) = (4usize, 2usize);
    let mut p = PanelBuffer::new();
    let mut disk: Vec<String> = Vec::new();
    for i in 0..20u64 {
        let l = format!("linha-{i:03}");
        if p.push(l, batch, i) {
            let b = p.pending_batch().expect("a full batch");
            assert_eq!(b.start as usize, disk.len());
            disk.extend(b.lines.iter().cloned());
            p.commit_flush(b.lines.len() as u64, 100 + i);
        }
        p.evict_to_cap(cap);
        assert!(p.pending() < batch as u64);
        assert!(p.ram_len() <= cap.max(batch - 1), "RAM stays near the cap");
    }
    let plan = p.range_plan(2, 18);
    let mut joined: Vec<String> = disk[plan.disk_lo as usize..plan.disk_hi as usize].to_vec();
    joined.extend(plan.ram.iter().cloned());
    let expected: Vec<String> = (2..18u64).map(|i| format!("linha-{i:03}")).collect();
    assert_eq!(joined, expected);
    let tail = p.range_plan(14, 20);
    let mut joined: Vec<String> = disk[tail.disk_lo as usize..tail.disk_hi as usize].to_vec();
    joined.extend(tail.ram.iter().cloned());
    let expected: Vec<String> = (14..20u64).map(|i| format!("linha-{i:03}")).collect();
    assert_eq!(joined, expected);
}
