use performance::profiler::{profile_begin, profile_end_and_print, ProfileAnchor, ProfileBlock, Profiler};

fn anchor(profiler: &Profiler, name: &str) -> ProfileAnchor {
    let i = profiler.find_anchor(name).expect("anchor exists");
    profiler.anchors[i]
}

/// A clock that advances by a fixed step on each reading.
struct Clock {
    now: u64,
}

impl Clock {
    fn read(&mut self, step: u64) -> u64 {
        self.now += step;
        self.now
    }
}

fn tfn2(profiler: &mut Profiler, clock: &mut Clock) {
    let now = clock.read(1);
    let block = ProfileBlock::new(profiler, "tfn2", 0, now);
    let now = clock.read(1000);
    block.exit(profiler, now);
}

fn tfn(profiler: &mut Profiler, clock: &mut Clock) {
    let now = clock.read(1);
    let block = ProfileBlock::new(profiler, "tfn", 0, now);
    clock.read(100_000);
    for _ in 0..5 {
        let now = clock.read(1);
        let inner = ProfileBlock::new(profiler, "inner", 500_000, now);
        tfn2(profiler, clock);
        let now = clock.read(1);
        inner.exit(profiler, now);
    }
    let now = clock.read(1);
    block.exit(profiler, now);
}

#[test]
fn profile_block() {
    let mut profiler = Profiler::new();
    let mut clock = Clock { now: 0 };
    let now = clock.read(1);
    profile_begin(&mut profiler, now);
    for _ in 0..5 {
        tfn(&mut profiler, &mut clock);
    }
    let now = clock.read(1);
    let report = profile_end_and_print(&mut profiler, now, 3_000_000_000);
    assert_eq!(report.anchors.len(), 3);
    assert_eq!(report.anchors[0].name, "tfn");
    assert_eq!(report.anchors[1].name, "inner");
    assert_eq!(report.anchors[2].name, "tfn2");
    assert_eq!(anchor(&profiler, "tfn").hit_count, 5);
    assert_eq!(anchor(&profiler, "inner").hit_count, 25);
    assert_eq!(anchor(&profiler, "tfn2").hit_count, 25);
    assert_eq!(anchor(&profiler, "inner").byte_count, 12_500_000);
    assert_eq!(report.elapsed_tsc, now - 1);
    for a in &profiler.anchors {
        assert!(a.tsc_elapsed_inclusive >= a.tsc_elapsed_exclusive);
    }
}

#[test]
fn single_region_exclusive_equals_inclusive() {
    let mut profiler = Profiler::new();
    let block = ProfileBlock::new(&mut profiler, "work", 0, 100);
    block.exit(&mut profiler, 150);
    let a = anchor(&profiler, "work");
    assert_eq!(a.tsc_elapsed_exclusive, 50);
    assert_eq!(a.tsc_elapsed_inclusive, 50);
    assert_eq!(a.hit_count, 1);
    assert_eq!(profiler.parent, None);
}

#[test]
fn parent_with_sequential_children() {
    let mut profiler = Profiler::new();
    // an earlier invocation leaves the parent with exclusive time to give up
    let outer = ProfileBlock::new(&mut profiler, "outer", 0, 0);
    outer.exit(&mut profiler, 100);
    let outer = ProfileBlock::new(&mut profiler, "outer", 0, 1000);
    let mut t: u64 = 1000;
    for _ in 0..3 {
        let inner = ProfileBlock::new(&mut profiler, "inner", 0, t + 2);
        inner.exit(&mut profiler, t + 12);
        t += 12;
    }
    outer.exit(&mut profiler, 1050);
    let inner = anchor(&profiler, "inner");
    let outer = anchor(&profiler, "outer");
    assert_eq!(inner.hit_count, 3);
    assert_eq!(inner.tsc_elapsed_inclusive, 30);
    assert_eq!(outer.tsc_elapsed_inclusive, 150);
    assert_eq!(outer.tsc_elapsed_exclusive, outer.tsc_elapsed_inclusive - 30);
}

#[test]
fn parent_exclusive_saturates_at_zero() {
    let mut profiler = Profiler::new();
    let outer = ProfileBlock::new(&mut profiler, "outer", 0, 0);
    let inner = ProfileBlock::new(&mut profiler, "inner", 0, 10);
    inner.exit(&mut profiler, 40);
    assert_eq!(anchor(&profiler, "outer").tsc_elapsed_exclusive, 0);
    outer.exit(&mut profiler, 100);
    let outer = anchor(&profiler, "outer");
    assert_eq!(outer.tsc_elapsed_exclusive, 100);
    assert_eq!(outer.tsc_elapsed_inclusive, 100);
}

#[test]
fn byte_count_accumulates() {
    let mut profiler = Profiler::new();
    for i in 0..5u64 {
        let block = ProfileBlock::new(&mut profiler, "read", 500_000, i * 10);
        block.exit(&mut profiler, i * 10 + 5);
    }
    let quiet = ProfileBlock::new(&mut profiler, "quiet", 0, 100);
    quiet.exit(&mut profiler, 110);
    assert_eq!(anchor(&profiler, "read").byte_count, 2_500_000);
    let report = profiler.end(200, 1_000_000);
    assert_eq!(report.anchors[0].byte_count, Some(2_500_000));
    assert_eq!(report.anchors[1].byte_count, None);
}

#[test]
fn recursive_region_inclusive() {
    let mut profiler = Profiler::new();
    let outer = ProfileBlock::new(&mut profiler, "rec", 0, 0);
    let inner = ProfileBlock::new(&mut profiler, "rec", 0, 10);
    assert_eq!(inner.parent, Some("rec"));
    inner.exit(&mut profiler, 30);
    let a = anchor(&profiler, "rec");
    assert_eq!(a.tsc_elapsed_inclusive, 20);
    assert_eq!(a.hit_count, 1);
    outer.exit(&mut profiler, 50);
    let a = anchor(&profiler, "rec");
    assert_eq!(a.tsc_elapsed_inclusive, 50);
    assert_eq!(a.hit_count, 2);
    // a second, sequential invocation adds its span on top
    let again = ProfileBlock::new(&mut profiler, "rec", 0, 100);
    assert_eq!(again.prev_tsc_elapsed_inclusive, 50);
    again.exit(&mut profiler, 125);
    assert_eq!(anchor(&profiler, "rec").tsc_elapsed_inclusive, 75);
    assert_eq!(profiler.anchors.len(), 1);
}

#[test]
fn hit_counts_accumulate_over_sessions() {
    let mut profiler = Profiler::new();
    for session in 0..2u64 {
        profiler.begin(session * 1000);
        for i in 0..3u64 {
            let block = ProfileBlock::new(&mut profiler, "step", 0, session * 1000 + i * 10);
            block.exit(&mut profiler, session * 1000 + i * 10 + 4);
        }
        let report = profiler.end(session * 1000 + 100, 0);
        assert_eq!(report.elapsed_tsc, 100);
        assert_eq!(report.anchors[0].hit_count, 3 * (session + 1));
    }
    assert_eq!(anchor(&profiler, "step").tsc_elapsed_inclusive, 24);
    assert_eq!(profiler.start_tsc, 1000);
    assert_eq!(profiler.end_tsc, 1100);
}

#[test]
fn report_skips_idle_anchors_and_equal_inclusive() {
    let mut profiler = Profiler::new();
    let idle = ProfileBlock::new(&mut profiler, "idle", 0, 5);
    idle.exit(&mut profiler, 5);
    let outer = ProfileBlock::new(&mut profiler, "outer", 0, 0);
    outer.exit(&mut profiler, 100);
    let outer = ProfileBlock::new(&mut profiler, "outer", 0, 200);
    let inner = ProfileBlock::new(&mut profiler, "inner", 0, 210);
    inner.exit(&mut profiler, 230);
    outer.exit(&mut profiler, 300);
    let report = profiler.end(400, 1);
    assert_eq!(report.anchors.len(), 2);
    assert_eq!(report.anchors[0].name, "outer");
    assert_eq!(report.anchors[0].exclusive_tsc, 180);
    assert_eq!(report.anchors[0].inclusive_tsc, Some(200));
    assert_eq!(report.anchors[1].name, "inner");
    assert_eq!(report.anchors[1].inclusive_tsc, None);
    assert_eq!(report.timer_freq, 1);
}

#[test]
fn nothing_reported_without_elapsed_cycles() {
    let mut profiler = Profiler::new();
    let block = ProfileBlock::new(&mut profiler, "work", 0, 0);
    block.exit(&mut profiler, 10);
    profiler.begin(20);
    let report = profiler.end(20, 1);
    assert_eq!(report.elapsed_tsc, 0);
    assert!(report.anchors.is_empty());
    let report = profiler.end(21, 1);
    assert_eq!(report.anchors.len(), 1);
}

#[test]
fn backward_reading_counts_as_zero() {
    let mut profiler = Profiler::new();
    let block = ProfileBlock::new(&mut profiler, "jitter", 0, 500);
    block.exit(&mut profiler, 400);
    let a = anchor(&profiler, "jitter");
    assert_eq!(a.tsc_elapsed_exclusive, 0);
    assert_eq!(a.hit_count, 1);
    profiler.begin(900);
    let report = profiler.end(800, 0);
    assert_eq!(report.elapsed_tsc, 0);
    assert!(report.anchors.is_empty());
}

#[test]
fn entry_and_exit_overflow_checks() {
    let mut profiler = Profiler::new();
    assert!(profiler.can_enter("big", u64::MAX));
    let block = ProfileBlock::new(&mut profiler, "big", u64::MAX, 0);
    assert!(profiler.can_exit(&block, 10));
    block.exit(&mut profiler, 10);
    assert!(!profiler.can_enter("big", 1));
    assert!(profiler.can_enter("other", 1));
    let block = ProfileBlock::new(&mut profiler, "big", 0, 0);
    assert!(!profiler.can_exit(&block, u64::MAX));
    assert!(profiler.can_exit(&block, 5));
}

#[test]
fn anchors_found_by_name() {
    let mut profiler = Profiler::new();
    let a = ProfileBlock::new(&mut profiler, "alpha", 0, 0);
    let b = ProfileBlock::new(&mut profiler, "beta", 0, 1);
    assert_eq!(b.parent, Some("alpha"));
    b.exit(&mut profiler, 2);
    a.exit(&mut profiler, 3);
    assert_eq!(profiler.find_anchor("alpha"), Some(0));
    assert_eq!(profiler.find_anchor("beta"), Some(1));
    assert_eq!(profiler.find_anchor("alph"), None);
    assert_eq!(profiler.find_anchor("gamma"), None);
}
