use quintet::bitboard::fundamentals::Player as BitPlayer;
use quintet::bitboard::line::Line as BitLine;
use quintet::board::line::{Line, Sequences};
use quintet::board::player::{Black, Player, White};
use quintet::board::row::{Five, Four, Overlined, Overlining, RowKind, Straight, Sword, Three, Two};
const KINDS: [RowKind; 8] = [
    Two, Three, Straight, Sword, Four, Five, Overlining, Overlined,
];

/// What `sequences` is defined as: the segments, one at a time, where
/// `SequenceKind::matches` holds.
fn sequence_starts_by_segments(line: &Line, r: Player, k: RowKind) -> u16 {
    let mut starts = 0;
    let mut prev = None;
    for (j, cur) in line.segments() {
        if k.matches(r, prev, cur) {
            starts |= 1 << j;
        }
        prev = Some(cur);
    }
    starts
}

/// Where `sequences` / `sequences_on` start, as a list.
fn starts(found: Sequences) -> Vec<u8> {
    found.to_vec().into_iter().map(|(j, _)| j).collect()
}

#[test]
fn test_sequence_starts_matches_segments() {
    let check = |size: u8, cells: &[u8]| {
        let mut line = Line::new(size);
        for (i, &c) in cells.iter().enumerate() {
            match c {
                1 => line.put_mut(Black, i as u8),
                2 => line.put_mut(White, i as u8),
                _ => {}
            }
        }
        for r in [Black, White] {
            for k in KINDS {
                let expected = sequence_starts_by_segments(&line, r, k);
                assert_eq!(line.sequence_starts(r, k), expected, "{r:?} {k:?} {}", line.to_string());
                // Through cell `i`: the segment, and for a pattern of
                // two its predecessor too, has `i` among its cells.
                for i in 0..size {
                    let first = i.saturating_sub(if k.spans_two() { 3 } else { 4 });
                    let on: Vec<_> = (first..=i).filter(|j| expected & 1 << j != 0).collect();
                    assert_eq!(
                        starts(line.sequences_on(i, r, k)),
                        on,
                        "{r:?} {k:?} {} on {i}", line.to_string()
                    );
                }
            }
        }
    };
    // Every line up to nine cells, which covers the short diagonals and
    // every pair of segments with their margins.
    for size in 5..=9u8 {
        for code in 0..3u32.pow(size as u32) {
            let cells: Vec<u8> = (0..size)
                .map(|i| (code / 3u32.pow(i as u32) % 3) as u8)
                .collect();
            check(size, &cells);
        }
    }
    // Full-length lines, pseudo-randomly.
    let mut x: u64 = 0x2545f4914f6cdd1d;
    for _ in 0..20_000 {
        x ^= x << 13;
        x ^= x >> 7;
        x ^= x << 17;
        let cells: Vec<u8> = (0..15).map(|i| ((x >> (2 * i)) % 3) as u8).collect();
        check(15, &cells);
    }
}

#[test]
fn test_segment() -> Result<(), String> {
    let line = Line::parse("o-ox---xo")?;
    // Cells off the line are empty.
    assert_eq!(line.segment(0).to_string(), "-|o-ox-|-");
    assert_eq!(line.segment(1).to_string(), "o|-ox--|-");
    assert_eq!(line.segment(4).to_string(), "x|---xo|-");
    assert_eq!(line.segments().len(), 5);
    Ok(())
}

#[test]
fn test_sequences() -> Result<(), String> {
    // Three stones in a segment free of the opponent. For Black, not
    // next to another black stone: segments 1 and 2 would make an
    // overline.
    let line = Line::parse("-o-oo-o--------")?;
    assert_eq!(starts(line.sequences(Black, Sword)), [0, 3]);
    let line = Line::parse("-x-xx-x--------")?;
    assert_eq!(starts(line.sequences(White, Sword)), [0, 1, 2, 3]);
    assert_eq!(starts(line.sequences_on(6, White, Sword)), [2, 3]);

    // A three: two segments both scoring 3, with the stones in the four
    // cells they share, reported at the later one. Here cells 4-9.
    let line = Line::parse("-----xx-x-x----")?;
    assert_eq!(starts(line.sequences(White, Three)), [5]);
    assert_eq!(starts(line.sequences_on(7, White, Three)), [5]);
    // ... which for Black would make an overline with cell 10.
    let line = Line::parse("-----oo-o-o----")?;
    assert_eq!(starts(line.sequences(Black, Three)), []);
    // Swords on each side of cell 7, but no three.
    let line = Line::parse("---ooo---ooo---")?;
    assert_eq!(starts(line.sequences_on(7, Black, Sword)), [3, 7]);
    assert_eq!(starts(line.sequences_on(7, Black, Three)), []);

    // Five stones in six cells: the eye makes an overline.
    let line = Line::parse("oo-ooo---------")?;
    assert_eq!(starts(line.sequences(Black, Overlining)), [1]);
    assert_eq!(starts(line.sequences(Black, Four)), []);
    // An open four has two such segments too, but not both through an
    // end, which is the only place left to play.
    let line = Line::parse("-oooo-----o----")?;
    assert_eq!(starts(line.sequences(Black, Overlining)), [1]);
    assert_eq!(starts(line.sequences_on(0, Black, Overlining)), []);
    assert_eq!(starts(line.sequences_on(5, Black, Overlining)), []);
    assert_eq!(starts(line.sequences(Black, Straight)), [1]);

    let line = Line::parse("-oooooo--------")?;
    assert_eq!(starts(line.sequences(Black, Overlined)), [2]);
    assert_eq!(starts(line.sequences(Black, Five)), []);
    let line = Line::parse("-xxxxxx--------")?;
    assert_eq!(starts(line.sequences(White, Five)), [1, 2]);
    Ok(())
}

#[test]
fn line_test_potentials() -> Result<(), String> {
    // A segment is worth its score + 1, nothing if it is dead. An empty
    // cell scores the best segment through it, times how many segments
    // through it reach that best; below `min` it is not reported.
    //
    // Cell 7 is in three segments holding both stones (3 each): 9. Cell
    // 5 is in one of them: 3. The same holds mirrored on the right.
    let line = Line::parse("--------oo-----")?;
    let expected = [(5, 3), (6, 6), (7, 9), (10, 9), (11, 6), (12, 3)];
    assert_eq!(line.potentials(Black, 3), expected);

    // Segments through White's stone at cell 6 are dead, so cell 5 only
    // sees segment 1 (two stones).
    let line = Line::parse("--x-x-ox---xxx-")?;
    assert_eq!(
        line.potentials(White, 3),
        [
            (0, 3),
            (1, 6),
            (3, 6),
            (5, 3),
            (8, 6),
            (9, 4),
            (10, 8),
            (14, 4)
        ]
    );
    // For Black, segments 7 (cells 7-11) and 8 (cells 8-12) have a
    // black stone just outside them, at 12 and at 7, and would make an
    // overline; that leaves cell 8 with nothing.
    let line = Line::parse("--o-o-xo---ooo-")?;
    assert_eq!(
        line.potentials(Black, 3),
        [(0, 3), (1, 6), (3, 6), (5, 3), (9, 4), (10, 8), (14, 4)]
    );
    Ok(())
}

#[test]
fn line_test_put_and_remove() -> Result<(), String> {
    let mut line = Line::parse("o-x----")?;
    line.put_mut(Black, 4);
    // Putting on an occupied cell replaces the stone.
    line.put_mut(White, 0);
    line.remove_mut(2);
    // Removing from an empty cell does nothing.
    line.remove_mut(3);
    assert_eq!(line, Line::parse("x---o--")?);
    Ok(())
}

#[test]
fn line_test_stones() -> Result<(), String> {
    let line = Line::parse("o-ox-")?;
    assert_eq!(line.stone(0), Some(Black));
    assert_eq!(line.stone(1), None);
    assert_eq!(line.stone(3), Some(White));
    assert_eq!(line.stones(Black), [0, 2]);
    assert_eq!(line.stones(White), [3]);
    assert_eq!(line.empties(), [1, 4]);
    // The same on the bit board.
    {
        let mut line = BitLine::new(5);
        line.put(BitPlayer::Black, 0);
        line.put(BitPlayer::Black, 2);
        line.put(BitPlayer::White, 3);
        let result = line.stones();
        let expected = vec![
            Some(BitPlayer::Black),
            None,
            Some(BitPlayer::Black),
            Some(BitPlayer::White),
            None,
        ];
        assert_eq!(result, expected);
    }
    Ok(())
}

/// `potential_cap` bounds every window's potential (own stones + 1), so
/// that lines with nothing to find can be skipped.
#[test]
fn test_potential_cap() -> Result<(), String> {
    let line = Line::parse("-----")?;
    assert_eq!(line.potential_cap(Black), 1);
    assert_eq!(line.potential_cap(White), 1);

    // No room for White's five beside Black's stone: nothing to find.
    let line = Line::parse("--o--")?;
    assert_eq!(line.potential_cap(Black), 2);
    assert_eq!(line.potential_cap(White), 0);

    let line = Line::parse("--o---")?;
    assert_eq!(line.potential_cap(Black), 2);
    assert_eq!(line.potential_cap(White), 1);

    let line = Line::parse("o----x")?;
    assert_eq!(line.potential_cap(Black), 2);
    assert_eq!(line.potential_cap(White), 2);

    Ok(())
}

#[test]
fn test_to_string_and_parse() -> Result<(), String> {
    let line = Line::parse("-o---x-")?;
    assert_eq!(line.to_string(), " . o . . . x .");
    // Spaces are ignored, so the output parses back.
    assert_eq!(Line::parse(&line.to_string())?, line);
    assert!(Line::parse(&"-".repeat(16)).is_err());
    Ok(())
}

#[test]
fn test_line_eyes_and_open_starts() {
    // Black's F and G, alone on the line: open twos start at D, E and F,
    // and their eyes are the empty cells among the first four of each.
    let line = Line::parse("-----oo--------").unwrap();
    assert_eq!(line.open_starts(Black, 2), 0b111000);
    assert_eq!(line.row_eyes(Black, RowKind::Two), 0b110011000);
    assert_eq!(line.eyes_of(0b1, 0b11111), 0b11111);
    assert_eq!(line.eyes_of(0b1000, 0b11111), 0b10011000);
    assert_eq!(line.open_starts(White, 1), 0);
    // Every segment holding one of them touches the other.
    assert_eq!(line.open_starts(Black, 1), 0);
    // One stone on H: the open stretches start at E to H, and their first
    // four cells but H are where a second stone makes a two.
    let line = Line::parse("-------o-------").unwrap();
    assert_eq!(line.open_starts(Black, 1), 0b11110000);
    assert_eq!(line.eyes_of(line.open_starts(Black, 1), 0b01111), 0b11101110000);
}

#[test]
fn test_line_parse_too_long() {
    assert!(matches!(Line::parse(&"-".repeat(16)), Err("Wrong length.")));
    assert!(matches!(BitLine::parse(&"-".repeat(16)), Err("Wrong length.")));
}

#[test]
fn test_put_and_remove_on_the_last_bit() {
    let mut line = Line::new(15);
    line.put_mut(Black, 15);
    assert_eq!(line.stone(15), Some(Black));
    assert_eq!(line.blacks, 1 << 15);
    line.put_mut(White, 15);
    assert_eq!((line.blacks, line.whites), (0, 1 << 15));
    line.remove_mut(15);
    assert_eq!((line.blacks, line.whites), (0, 0));
}
