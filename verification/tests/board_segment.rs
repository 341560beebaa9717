use quintet::board::player::{Black, White};
use quintet::board::segment::Segment;
/// A segment written like `"-|oo-o-|x"`: the cell before, the five,
/// the cell after.
fn segment(s: &str) -> Segment {
    let cells: Vec<char> = s.chars().filter(|&c| c != '|').collect();
    assert_eq!(cells.len(), 7);
    let (mut blacks, mut whites) = (0, 0);
    for (k, c) in cells.into_iter().enumerate() {
        match c {
            'o' => blacks |= 1 << k,
            'x' => whites |= 1 << k,
            _ => {}
        }
    }
    Segment::new(blacks, whites)
}

#[test]
fn test_score_and_eyes() {
    let s = segment("-|o-o--|-");
    assert!(s.free(Black));
    assert!(s.alive(Black));
    assert_eq!(s.score(Black), 2);
    assert_eq!(s.stones(Black), [0, 2]);
    assert_eq!(s.eyes(Black), [1, 3, 4]);
    // Black's stones are in White's way.
    assert!(!s.free(White));
    assert!(!s.alive(White));
    assert_eq!(s.score(White), -1);
    assert_eq!(s.eyes(White), []);

    let s = segment("-|-----|-");
    assert_eq!(s.score(Black), 0);
    assert_eq!(s.score(White), 0);
    assert_eq!(s.eyes(White), [0, 1, 2, 3, 4]);

    let s = segment("-|ooooo|-");
    assert_eq!(s.score(Black), 5);
    assert_eq!(s.eyes(Black), []);
}

#[test]
fn test_margins() {
    // A black stone just outside the five would make filling them in an
    // overline, so the segment is dead for Black, but not for White.
    let s = segment("o|-ooo-|-");
    assert!(s.free(Black));
    assert!(!s.alive(Black));
    assert_eq!(s.score(Black), -1);
    assert_eq!(s.count(Black), 3);
    assert_eq!(s.stones(Black), [1, 2, 3]);
    assert_eq!(s.eyes(Black), []);

    let s = segment("x|-xxx-|x");
    assert!(s.alive(White));
    assert_eq!(s.score(White), 3);
    assert_eq!(s.eyes(White), [0, 4]);
    // White's own stones there are no business of Black's either.
    assert_eq!(segment("x|-----|x").score(Black), 0);
}

#[test]
fn test_display() {
    let s = segment("o|-ox--|x");
    assert_eq!(s.to_string(), "o|-ox--|x");
}
