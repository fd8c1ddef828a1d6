use std::time::{Duration, Instant};

use iridium::perf_logger::PeriodicToggle;
use iridium::sorted_vec::SortedVec;
use iridium::timer::{max_fps, Timer};

#[test]
fn sorted_vec_keeps_ascending_order() {
    let mut v = SortedVec::new();
    for x in [5, 1, 4, 1, 3, 9, 0] {
        v.add(x);
    }
    assert_eq!(v.vec, vec![0, 1, 1, 3, 4, 5, 9]);
    assert_eq!(v.first(), Some(&0));
    assert_eq!(v.pop(), Some(9));
    assert_eq!(v.vec.len(), 6);
}

#[test]
fn sorted_vec_empty() {
    let mut v: SortedVec<i32> = SortedVec::new();
    assert_eq!(v.first(), None);
    assert_eq!(v.pop(), None);
}

#[test]
fn sorted_vec_pops_latest_first_for_floats() {
    let mut v = SortedVec::new();
    v.add(3.0);
    v.add(1.5);
    v.add(2.0);
    assert_eq!(v.pop(), Some(3.0));
    assert_eq!(v.pop(), Some(2.0));
    assert_eq!(v.pop(), Some(1.5));
}

#[test]
fn max_fps_gives_frame_time() {
    assert_eq!(max_fps(60), Some(Duration::from_micros(16_666)));
    assert_eq!(max_fps(1), Some(Duration::from_secs(1)));
}

#[test]
fn timer_measures_from_start() {
    let start = Instant::now();
    let later = start + Duration::from_millis(250);
    let mut t = Timer::new(start);
    assert_eq!(t.elapsed_from(later), Duration::from_millis(250));
    assert_eq!(t.elapsed_from(start), Duration::ZERO);
    t.reset_to(later);
    assert_eq!(t.start, later);
    t.reset_to(start);
    let lap = t.lap();
    assert!(t.start >= start);
    assert_eq!(lap, t.start - start);
    t.reset();
    assert!(t.elapsed() < Duration::from_secs(60));
    assert!(Timer::new_now().elapsed() < Duration::from_secs(60));
}

#[test]
fn periodic_toggle_waits_for_interval() {
    let mut t = PeriodicToggle::new(Duration::from_secs(3600));
    assert!(!t.get());
    let mut z = PeriodicToggle::new(Duration::ZERO);
    assert!(z.get());
    assert!(z.get());
}

/// An event at `time`, ordered from latest to earliest so that the earliest is last.
#[derive(Debug, Clone, Copy)]
struct Due {
    time: f64,
    tag: u32,
}

impl PartialEq for Due {
    fn eq(&self, other: &Self) -> bool {
        self.time == other.time
    }
}

impl PartialOrd for Due {
    fn partial_cmp(&self, other: &Self) -> Option<std::cmp::Ordering> {
        other.time.partial_cmp(&self.time)
    }
}

#[test]
fn take_due_fires_in_time_order_up_to_now() {
    let mut q = SortedVec::new();
    for (t, tag) in [(3.0, 1), (1.5, 2), (0.5, 3), (2.0, 4)] {
        q.add(Due { time: t, tag });
    }
    let fired = q.take_due(&|e: &Due| !(e.time > 2.0));
    assert_eq!(fired.iter().map(|e| e.tag).collect::<Vec<_>>(), vec![3, 2, 4]);
    assert_eq!(q.vec.len(), 1);
    assert_eq!(q.vec[0].tag, 1);
    assert!(q.take_due(&|e: &Due| !(e.time > 2.5)).is_empty());
}

#[test]
fn events_fire_on_the_tick_that_reaches_them() {
    let mut q = SortedVec::new();
    q.add(Due { time: 1.5, tag: 1 });
    q.add(Due { time: 3.0, tag: 2 });
    let mut now = 0.0;
    let mut fired_per_tick = Vec::new();
    for _ in 0..4 {
        now += 1.0;
        let fired = q.take_due(&|e: &Due| !(e.time > now));
        fired_per_tick.push(fired.iter().map(|e| e.tag).collect::<Vec<_>>());
    }
    assert_eq!(fired_per_tick, vec![vec![], vec![1], vec![2], vec![]]);
}

#[test]
fn take_due_on_empty_queue() {
    let mut q: SortedVec<Due> = SortedVec::new();
    assert!(q.take_due(&|_e: &Due| true).is_empty());
}
