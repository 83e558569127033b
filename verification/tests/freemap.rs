use mosalloc::freemap::{FreeMap, Span};

fn spans(m: &FreeMap) -> Vec<(usize, usize)> {
    let mut out = Vec::new();
    for i in 0..m.len() {
        let s: Span = m.get(i);
        out.push((s.start, s.end));
    }
    out
}

#[test]
fn take_anywhere_uses_lowest_range() {
    let mut m = FreeMap::new();
    m.give(0x1000, 0x1000);
    m.give(0x4000, 0x4000);
    assert_eq!(m.take(0, 0x2000), Some(0x4000));
    assert_eq!(spans(&m), vec![(0x1000, 0x2000), (0x6000, 0x8000)]);
    assert_eq!(m.take(0, 0x1000), Some(0x1000));
    assert_eq!(spans(&m), vec![(0x6000, 0x8000)]);
}

#[test]
fn take_at_hint_splits_range() {
    let mut m = FreeMap::new();
    m.give(0x1000, 0x9000);
    assert_eq!(m.take(0x3000, 0x2000), Some(0x3000));
    assert_eq!(spans(&m), vec![(0x1000, 0x3000), (0x5000, 0xa000)]);
    assert_eq!(m.take(0x4000, 0x1000), None);
    assert_eq!(m.take(0x9000, 0x2000), None);
    assert_eq!(m.take(0x9000, 0x1000), Some(0x9000));
    assert_eq!(spans(&m), vec![(0x1000, 0x3000), (0x5000, 0x9000)]);
}

#[test]
fn give_coalesces_both_sides() {
    let mut m = FreeMap::new();
    m.give(0x1000, 0x1000);
    m.give(0x3000, 0x1000);
    assert_eq!(spans(&m), vec![(0x1000, 0x2000), (0x3000, 0x4000)]);
    m.give(0x2000, 0x1000);
    assert_eq!(spans(&m), vec![(0x1000, 0x4000)]);
}

#[test]
fn take_then_give_restores() {
    let mut m = FreeMap::new();
    m.give(0x1000, 0x3000);
    m.give(0x8000, 0x2000);
    let before = spans(&m);
    let a = m.take(0x2000, 0x1000).unwrap();
    assert_ne!(spans(&m), before);
    m.give(a, 0x1000);
    assert_eq!(spans(&m), before);
    let b = m.take(0, 0x2000).unwrap();
    m.give(b, 0x2000);
    assert_eq!(spans(&m), before);
}
