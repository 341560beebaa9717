use quintet::board::pattern::{scan_eyes, Pattern};

fn black_two() -> Pattern {
    Pattern { filter: 0b11111111, stones: 0b00001100, blanks: 0b01110010, eyes__: 0b00110000 }
}

fn black_three() -> Pattern {
    Pattern { filter: 0b11111111, stones: 0b00011100, blanks: 0b01100010, eyes__: 0b00100000 }
}

#[test]
fn test_pattern_matches_and_size() {
    let p = black_two();
    assert_eq!(p.size(), 8);
    assert!(p.matches(0b00001100, 0b01110010));
    assert!(p.matches(0b00001100, 0b11111111));
    assert!(!p.matches(0b00011100, 0b01100010));
    let odd = Pattern { filter: 0b1011, stones: 0, blanks: 0, eyes__: 0 };
    assert_eq!(odd.size(), 0);
}

#[test]
fn test_scan_eyes() {
    // "-oo-----" with margins: the stones at cells 2 and 3 of the window.
    let stones = 0b0000001100;
    let blanks = 0b1111110011;
    let result = scan_eyes(&[black_two()], stones, blanks, 10);
    assert_eq!(result, 0b0000110000);
    // Nothing fits in a line too short for the window.
    assert_eq!(scan_eyes(&[black_two()], stones, blanks, 7), 0);
    // Eyes of two patterns are joined.
    let stones = 0b0000011100;
    let blanks = 0b1111100011;
    let result = scan_eyes(&[black_two(), black_three()], stones, blanks, 10);
    assert_eq!(result, 0b0000100000);
}
