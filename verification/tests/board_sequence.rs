use quintet::board::sequence::{Double, Open, Sequence, SequenceKind, Sequences, Single};
/// A line written like `"-o-ox"`, cell 0 first: `o` is an own stone, `x`
/// an opponent's. Returns `(size, my, op)`.
fn bits(line: &str) -> (u8, u16, u16) {
    let (mut my, mut op) = (0, 0);
    for (i, c) in line.chars().enumerate() {
        match c {
            'o' => my |= 1 << i,
            'x' => op |= 1 << i,
            _ => {}
        }
    }
    (line.len() as u8, my, op)
}

/// Each match as its window's start and the window's five cells, `o`
/// where the sequence has a bit.
fn show(found: Vec<(u8, Sequence)>) -> Vec<(u8, String)> {
    found
        .into_iter()
        .map(|(i, s)| {
            let cells = (0..5).map(|j| if s.0 & (1 << j) != 0 { 'o' } else { '-' });
            (i, cells.collect())
        })
        .collect()
}

fn sequences(line: &str, k: SequenceKind, n: u8, exact: bool) -> Vec<(u8, String)> {
    let (size, my, op) = bits(line);
    show(Sequences::new(size, my, op, k, n, exact).to_vec())
}

fn sequences_on(line: &str, i: u8, k: SequenceKind, n: u8, exact: bool) -> Vec<(u8, String)> {
    let (size, my, op) = bits(line);
    show(Sequences::new_on(i, size, my, op, k, n, exact).to_vec())
}

#[test]
fn test_single() {
    let line = "--o-o-xo---ooo-";

    // Every window with exactly two own stones and no opponent stone.
    let expected = [
        (0, "--o-o".to_string()),
        (1, "-o-o-".to_string()),
        (7, "o---o".to_string()),
        (8, "---oo".to_string()),
    ];
    assert_eq!(sequences(line, Single, 2, false), expected);

    // `exact` also drops the windows with an own stone just outside
    // them: filling those in would make six or more.
    assert_eq!(sequences(line, Single, 2, true), expected[..2]);

    // A shorter line has fewer windows.
    assert_eq!(sequences(&line[..11], Single, 2, false), expected[..2]);

    let expected = [(9, "--ooo".to_string()), (10, "-ooo-".to_string())];
    assert_eq!(sequences(line, Single, 3, false), expected);
}

#[test]
fn test_double() {
    // Two overlapping windows that both match: `n + 1` stones in six
    // cells, reported at the second window. Cells 0-5 here (window 1)
    // and 7-12 (window 8).
    let line = "-o-o--xoo---o--";
    assert_eq!(
        sequences(line, Double, 2, false),
        [(1, "o-o--".to_string()), (8, "o---o".to_string())]
    );
    // `exact` looks one cell beyond each window, and window 8 (cells
    // 8-12) has an own stone at cell 7.
    assert_eq!(sequences(line, Double, 2, true), [(1, "o-o--".to_string())]);

    // Four stones in six cells, the shape that becomes an overline.
    let line = "ooo-oo---o-oooo";
    assert_eq!(
        sequences(line, Double, 4, false),
        [(1, "oo-oo".to_string()), (10, "-oooo".to_string())]
    );
    assert_eq!(sequences(line, Double, 2, true), []);
}

#[test]
fn test_open() {
    // A `Double` whose two ends are both empty: the stones sit in the
    // middle four cells. The fifth cell is marked too, so that it is not
    // taken for an eye: it is the far open end, not a cell to play.
    let line = "-o-o--xoo---o--";
    let expected = [(1, "o-o-o".to_string())];
    assert_eq!(sequences(line, Open, 2, false), expected);
    assert_eq!(sequences(line, Open, 2, true), expected);

    // No six-cell span with both ends empty.
    let line = "ooo-oo---o-oooo";
    assert_eq!(sequences(line, Open, 4, false), []);
    assert_eq!(sequences(line, Open, 2, true), []);
}

#[test]
fn test_sequences_on() {
    // Only the windows through cell 7.
    let line = "o--o--o---o---o";
    assert_eq!(
        sequences_on(line, 7, Single, 2, true),
        [(3, "o--o-".to_string()), (6, "o---o".to_string())]
    );

    let line = "-----oo-o-o----";
    assert_eq!(
        sequences_on(line, 7, Single, 3, false),
        [
            (4, "-oo-o".to_string()),
            (5, "oo-o-".to_string()),
            (6, "o-o-o".to_string()),
        ]
    );
    // Windows 5 and 6 touch another stone just outside them.
    assert_eq!(
        sequences_on(line, 7, Single, 3, true),
        [(4, "-oo-o".to_string())]
    );
    // Cells 4-9: open three with an eye at 7.
    assert_eq!(
        sequences_on(line, 7, Open, 3, false),
        [(5, "oo-oo".to_string())]
    );
    // ... but it would become an overline with cell 10.
    assert_eq!(sequences_on(line, 7, Open, 3, true), []);

    // One group on each side of cell 7, both reaching it.
    let line = "---ooo---ooo---";
    let expected = [(3, "ooo--".to_string()), (7, "--ooo".to_string())];
    assert_eq!(sequences_on(line, 7, Single, 3, false), expected);
    assert_eq!(sequences_on(line, 7, Single, 3, true), expected);
    assert_eq!(sequences_on(line, 7, Open, 3, false), []);
}

#[test]
fn test_open_needs_both_ends_empty() {
    // Own stones at cells 0, 1, 2 and 4: window 0 holds four, so window 1
    // is no open three (its eye, cell 3, makes a five).
    let mut it = Sequences::new(15, 23, 0, Open, 3, false);
    assert_eq!(it.next(), None);
    // With cell 0 empty, cells 1, 2 and 4 are an open three at window 1.
    let mut it = Sequences::new(15, 22, 0, Open, 3, false);
    assert_eq!(it.next(), Some((1, Sequence(0b11011))));
    assert_eq!(it.next(), None);
}
