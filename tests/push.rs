use fast_down_gui::push::{write_at, SeqCursor};
use fast_down_gui::range::ByteRange;

#[test]
fn write_at_places_bytes() {
    let mut buf = vec![0u8; 8];
    write_at(&mut buf, 2, &[1, 2, 3]);
    assert_eq!(buf, vec![0, 0, 1, 2, 3, 0, 0, 0]);
}

#[test]
fn duplicate_push_gives_same_bytes() {
    let mut once = vec![9u8; 6];
    write_at(&mut once, 1, &[4, 5, 6]);
    let mut twice = vec![9u8; 6];
    write_at(&mut twice, 1, &[4, 5, 6]);
    write_at(&mut twice, 1, &[4, 5, 6]);
    assert_eq!(once, twice);
}

#[test]
fn disjoint_pushes_commute() {
    let mut a = vec![0u8; 6];
    write_at(&mut a, 0, &[1, 1]);
    write_at(&mut a, 4, &[2, 2]);
    let mut b = vec![0u8; 6];
    write_at(&mut b, 4, &[2, 2]);
    write_at(&mut b, 0, &[1, 1]);
    assert_eq!(a, b);
}

#[test]
fn sequential_sink_refuses_gaps() {
    let mut c = SeqCursor::new();
    assert!(c.accept(ByteRange::new(0, 10)));
    assert!(!c.accept(ByteRange::new(20, 30)));
    assert_eq!(c.written, 10);
    assert!(c.accept(ByteRange::new(10, 30)));
    assert_eq!(c.written, 30);
}
