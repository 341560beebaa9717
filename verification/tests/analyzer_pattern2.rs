use quintet::analyzer::pattern2::Pattern;

fn black_four() -> Pattern {
    Pattern { filter: 0b1111111, stones: 0b0011110, blanks: 0b0100000, eyes__: 0b0100000 }
}

#[test]
fn test_pattern2_matches() {
    let p = black_four();
    assert_eq!(p.size(), 7);
    let seg = p.matches(0b0011110, 0b1100001, 2).unwrap();
    assert_eq!((seg.start, seg.end, seg.eyes), (3, 7, vec![7]));
    let seg = p.matches(0b0011110, 0b0100000, -1).unwrap();
    assert_eq!((seg.start, seg.end, seg.eyes), (0, 4, vec![4]));
    assert!(p.matches(0b0011100, 0b0100000, 0).is_none());
}
