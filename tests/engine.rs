use fast_down_gui::progress::{fmt_progress, Event, ProgressTracker};
use fast_down_gui::range::{invert, ByteRange};
use fast_down_gui::schedule::Scheduler;

const SIZE: u64 = 10_485_760;

#[test]
fn four_workers_split_the_file_evenly() {
    let chunks = invert(&vec![], SIZE, 65_536);
    let mut s = Scheduler::new(chunks, 4, 65_536);
    let got: Vec<ByteRange> = (0..4).map(|w| s.assign(w).unwrap()).collect();
    assert_eq!(got[0], ByteRange::new(0, SIZE));
    assert_eq!(got[1], ByteRange::new(5_242_880, SIZE));
    assert_eq!(got[2], ByteRange::new(2_621_440, 5_242_880));
    assert_eq!(got[3], ByteRange::new(7_864_320, SIZE));

    let mut tracker = ProgressTracker::new(vec![], SIZE);
    while !s.all_done() {
        for w in 0..4 {
            if s.is_worker_idle(w) {
                let _ = s.assign(w);
            } else if s.is_finished(w) {
                let _ = s.release(w);
            } else {
                let r = s.advance(w, 1 << 20);
                tracker.apply(&Event::PushProgress(w, r));
            }
        }
    }
    assert_eq!(tracker.progress(), &vec![ByteRange::new(0, SIZE)]);
    assert_eq!(tracker.downloaded(), SIZE);
    assert_eq!(tracker.remaining(), 0);
}

#[test]
fn stalled_worker_requeues_unfetched_tail() {
    let mut s = Scheduler::new(vec![ByteRange::new(0, 2 << 20)], 1, 65_536);
    assert_eq!(s.assign(0), Some(ByteRange::new(0, 2 << 20)));
    assert_eq!(s.advance(0, 1 << 20), ByteRange::new(0, 1 << 20));
    assert_eq!(s.release(0), Some(ByteRange::new(1 << 20, 2 << 20)));
    assert_eq!(s.assign(0), Some(ByteRange::new(1 << 20, 2 << 20)));
    assert_eq!(s.advance(0, 5 << 20), ByteRange::new(1 << 20, 2 << 20));
    assert!(s.is_finished(0));
    assert_eq!(s.release(0), None);
    assert!(s.all_done());
}

#[test]
fn narrow_tail_is_not_split() {
    let mut s = Scheduler::new(vec![ByteRange::new(0, 100)], 2, 50);
    assert_eq!(s.assign(0), Some(ByteRange::new(0, 100)));
    assert_eq!(s.assign(1), None);
}

#[test]
fn restart_from_zero_clears_progress() {
    let mut t = ProgressTracker::new(vec![ByteRange::new(0, 500)], 1000);
    assert!(!t.apply(&Event::PushProgress(0, ByteRange::new(500, 600))));
    assert_eq!(t.progress(), &vec![ByteRange::new(0, 600)]);
    assert!(t.apply(&Event::PushProgress(0, ByteRange::new(0, 100))));
    assert_eq!(t.progress(), &vec![ByteRange::new(0, 100)]);
    assert!(!t.apply(&Event::PullProgress(0, ByteRange::new(100, 900))));
    assert!(!t.apply(&Event::Finished(0)));
    assert_eq!(t.downloaded(), 100);
    assert_eq!(t.remaining(), 900);
}

#[test]
fn per_worker_ranges_as_pairs() {
    let p = vec![vec![ByteRange::new(0, 5), ByteRange::new(9, 12)], vec![]];
    assert_eq!(fmt_progress(&p), vec![vec![(0, 5), (9, 12)], vec![]]);
}
