use fast_down_gui::range::{invert, merge, merge_all, total, ByteRange};

fn r(start: u64, end: u64) -> ByteRange {
    ByteRange::new(start, end)
}

fn pairs(v: &[ByteRange]) -> Vec<(u64, u64)> {
    v.iter().map(|x| (x.start, x.end)).collect()
}

#[test]
fn merge_into_empty_set() {
    let mut s = Vec::new();
    merge(&mut s, r(10, 20));
    assert_eq!(pairs(&s), vec![(10, 20)]);
}

#[test]
fn merge_keeps_disjoint_ranges_sorted() {
    let mut s = Vec::new();
    merge(&mut s, r(50, 60));
    merge(&mut s, r(10, 20));
    merge(&mut s, r(30, 40));
    assert_eq!(pairs(&s), vec![(10, 20), (30, 40), (50, 60)]);
}

#[test]
fn merge_fuses_adjacent_ranges() {
    let mut s = vec![r(0, 10), r(20, 30)];
    merge(&mut s, r(10, 20));
    assert_eq!(pairs(&s), vec![(0, 30)]);
}

#[test]
fn merge_fuses_overlapping_ranges() {
    let mut s = vec![r(0, 10), r(20, 30), r(40, 50)];
    merge(&mut s, r(5, 45));
    assert_eq!(pairs(&s), vec![(0, 50)]);
}

#[test]
fn merge_ignores_empty_range() {
    let mut s = vec![r(0, 10)];
    merge(&mut s, r(20, 20));
    assert_eq!(pairs(&s), vec![(0, 10)]);
}

#[test]
fn merge_of_duplicate_range_changes_nothing() {
    let mut s = vec![r(0, 10), r(20, 30)];
    merge(&mut s, r(20, 30));
    assert_eq!(pairs(&s), vec![(0, 10), (20, 30)]);
}

#[test]
fn merge_all_total_counts_union_once() {
    let xs = vec![r(0, 100), r(50, 150), r(300, 400), r(150, 160), r(0, 10)];
    let m = merge_all(&xs);
    assert_eq!(pairs(&m), vec![(0, 160), (300, 400)]);
    assert_eq!(total(&m), 260);
}

#[test]
fn total_of_ranges() {
    assert_eq!(total(&vec![]), 0);
    assert_eq!(total(&vec![r(0, 4_000_000), r(6_000_000, 10_485_760)]), 8_485_760);
    assert_eq!(r(3, 9).total(), 6);
}

#[test]
fn invert_of_resumed_task() {
    let progress = vec![r(0, 4_000_000), r(6_000_000, 10_485_760)];
    let out = invert(&progress, 10_485_760, 8 * 1024);
    assert_eq!(pairs(&out), vec![(4_000_000, 6_000_000)]);
}

#[test]
fn invert_of_nothing_done_is_whole_file() {
    let out = invert(&vec![], 10_485_760, 65_536);
    assert_eq!(pairs(&out), vec![(0, 10_485_760)]);
}

#[test]
fn invert_of_finished_file_is_empty() {
    let out = invert(&vec![r(0, 1000)], 1000, 10);
    assert!(out.is_empty());
}

#[test]
fn invert_of_empty_file_is_empty() {
    let out = invert(&vec![], 0, 10);
    assert!(out.is_empty());
}

#[test]
fn invert_extends_narrow_gap_to_next_gap() {
    let progress = vec![r(0, 10), r(12, 50), r(60, 70)];
    let out = invert(&progress, 100, 20);
    assert_eq!(pairs(&out), vec![(10, 60), (70, 100)]);
}

#[test]
fn invert_keeps_narrow_last_segment() {
    let progress = vec![r(0, 90), r(95, 98)];
    let out = invert(&progress, 100, 20);
    assert_eq!(pairs(&out), vec![(90, 100)]);
    let progress = vec![r(0, 50), r(80, 97)];
    let out = invert(&progress, 100, 20);
    assert_eq!(pairs(&out), vec![(50, 80), (97, 100)]);
}

#[test]
fn invert_with_progress_complements_to_whole_file() {
    let progress = vec![r(100, 200), r(500, 510), r(900, 1000)];
    let out = invert(&progress, 1000, 64);
    let mut all = progress.clone();
    for x in &out {
        merge(&mut all, *x);
    }
    assert_eq!(pairs(&all), vec![(0, 1000)]);
    for x in &out[..out.len() - 1] {
        assert!(x.total() >= 64);
    }
}

#[test]
fn canonical_check() {
    assert!(fast_down_gui::range::is_canonical(&vec![]));
    assert!(fast_down_gui::range::is_canonical(&vec![r(0, 5), r(6, 9)]));
    assert!(!fast_down_gui::range::is_canonical(&vec![r(0, 5), r(5, 9)]));
    assert!(!fast_down_gui::range::is_canonical(&vec![r(3, 3)]));
    assert!(!fast_down_gui::range::is_canonical(&vec![r(6, 9), r(0, 5)]));
}
