use quintet::bitboard::point::{Index as BitIndex, Point as BitPoint, Points as BitPoints};
use quintet::board::point::{Ascending, Descending, Horizontal, Index, Point, Points, Vertical};
#[test]
fn point_test_to_index_and_to_point() {
    fn assert_eq_point_index(p: Point, iv: Index, ih: Index, ia: Index, id: Index) {
        assert_eq!(p.to_index(Vertical), iv);
        assert_eq!(p.to_index(Horizontal), ih);
        assert_eq!(p.to_index(Ascending), ia);
        assert_eq!(p.to_index(Descending), id);
        assert_eq!(iv.to_point(), p);
        assert_eq!(ih.to_point(), p);
        assert_eq!(ia.to_point(), p);
        assert_eq!(id.to_point(), p);
    }

    // lower-left quadrant
    let p = Point(3, 6);
    let iv = Index::new(Vertical, 3, 6);
    let ih = Index::new(Horizontal, 6, 3);
    let ia = Index::new(Ascending, 11, 3);
    let id = Index::new(Descending, 9, 3);
    assert_eq_point_index(p, iv, ih, ia, id);

    // lower-right quadrant
    let p = Point(9, 6);
    let iv = Index::new(Vertical, 9, 6);
    let ih = Index::new(Horizontal, 6, 9);
    let ia = Index::new(Ascending, 17, 6);
    let id = Index::new(Descending, 15, 8);
    assert_eq_point_index(p, iv, ih, ia, id);

    // upper-left quadrant
    let p = Point(3, 12);
    let iv = Index::new(Vertical, 3, 12);
    let ih = Index::new(Horizontal, 12, 3);
    let ia = Index::new(Ascending, 5, 3);
    let id = Index::new(Descending, 15, 2);
    assert_eq_point_index(p, iv, ih, ia, id);

    // upper-right quadrant
    let p = Point(9, 12);
    let iv = Index::new(Vertical, 9, 12);
    let ih = Index::new(Horizontal, 12, 9);
    let ia = Index::new(Ascending, 11, 9);
    let id = Index::new(Descending, 21, 2);
    assert_eq_point_index(p, iv, ih, ia, id);

    // The same on the bit board.
    {
        fn assert_eq_bit_point_index(p: BitPoint, iv: BitIndex, ih: BitIndex, ia: BitIndex, id: BitIndex) {
            assert_eq!(p.to_index(Vertical), iv);
            assert_eq!(p.to_index(Horizontal), ih);
            assert_eq!(p.to_index(Ascending), ia);
            assert_eq!(p.to_index(Descending), id);
            assert_eq!(iv.to_point(Vertical), p);
            assert_eq!(ih.to_point(Horizontal), p);
            assert_eq!(ia.to_point(Ascending), p);
            assert_eq!(id.to_point(Descending), p);
        }

        // lower-left quadrant
        let p = BitPoint(3, 6);
        let iv = BitIndex(3, 6);
        let ih = BitIndex(6, 3);
        let ia = BitIndex(11, 3);
        let id = BitIndex(9, 3);
        assert_eq_bit_point_index(p, iv, ih, ia, id);

        // lower-right quadrant
        let p = BitPoint(9, 6);
        let iv = BitIndex(9, 6);
        let ih = BitIndex(6, 9);
        let ia = BitIndex(17, 6);
        let id = BitIndex(15, 8);
        assert_eq_bit_point_index(p, iv, ih, ia, id);

        // upper-left quadrant
        let p = BitPoint(3, 12);
        let iv = BitIndex(3, 12);
        let ih = BitIndex(12, 3);
        let ia = BitIndex(5, 3);
        let id = BitIndex(15, 2);
        assert_eq_bit_point_index(p, iv, ih, ia, id);

        // upper-right quadrant
        let p = BitPoint(9, 12);
        let iv = BitIndex(9, 12);
        let ih = BitIndex(12, 9);
        let ia = BitIndex(11, 9);
        let id = BitIndex(21, 2);
        assert_eq_bit_point_index(p, iv, ih, ia, id);
    }
}

#[test]
fn point_test_to_string() {
    let result = Point(3, 5).to_string();
    assert_eq!(result, "D6");

    let result = Point(11, 10).to_string();
    assert_eq!(result, "L11");

    // The same on the bit board.
    {
        let result = BitPoint(3, 5).to_string();
        assert_eq!(result, "D6");

        let result = BitPoint(11, 10).to_string();
        assert_eq!(result, "L11");
    }
}

#[test]
fn point_test_parse() -> Result<(), String> {
    let result = Point::parse("E2")?;
    assert_eq!(result, Point(4, 1));

    let result = Point::parse("M15")?;
    assert_eq!(result, Point(12, 14));

    // The same on the bit board.
    {
        let result = BitPoint::parse("E2")?;
        assert_eq!(result, BitPoint(4, 1));

        let result = BitPoint::parse("M15")?;
        assert_eq!(result, BitPoint(12, 14));
    }
    Ok(())
}

#[test]
fn point_test_try_from_u8() -> Result<(), String> {
    let result = Point::from_code(72)?;
    assert_eq!(result, Point(4, 12));
    // The same on the bit board.
    {
        let result = BitPoint::from_code(72)?;
        assert_eq!(result, BitPoint(4, 12));
    }
    Ok(())
}

#[test]
fn point_test_into_u8() {
    let result = Point(4, 12).code();
    assert_eq!(result, 72);

    // The same on the bit board.
    {
        let result = BitPoint(4, 12).code();
        assert_eq!(result, 72);
    }
}

#[test]
fn point_test_points_to_string() {
    let ps = vec![Point(7, 7), Point(7, 8), Point(8, 8)];
    assert_eq!(Points(ps).to_string(), "H8,H9,I9");

    // The same on the bit board.
    {
        let ps = vec![BitPoint(7, 7), BitPoint(7, 8), BitPoint(8, 8)];
        assert_eq!(BitPoints(ps).to_string(), "H8,H9,I9");
    }
}

#[test]
fn test_points_text_roundtrip() {
    let ps = Points(vec![Point(0, 0), Point(14, 14), Point(7, 9)]);
    let s = ps.to_string();
    assert_eq!(s, "A1,O15,H10");
    assert_eq!(Points::parse(&s).unwrap().0, ps.0);
    // No points: the empty text reads as one empty part, which is no point.
    assert!(Points::parse(&Points(vec![]).to_string()).is_err());
}

#[test]
fn test_bit_points_text_roundtrip() {
    let ps = BitPoints(vec![BitPoint(3, 5), BitPoint(11, 10), BitPoint(0, 14)]);
    let s = ps.to_string();
    assert_eq!(s, "D6,L11,A15");
    assert_eq!(BitPoints::parse(&s).unwrap().0, ps.0);
    assert!(BitPoints::parse(&BitPoints(vec![]).to_string()).is_err());
}

#[test]
fn test_point_parse_errors() {
    assert_eq!(Point::parse("Z3"), Err("Failed to parse x part."));
    assert_eq!(Point::parse("  "), Err("Failed to parse x part."));
    assert_eq!(Point::parse("H0"), Err("Failed to parse y part."));
    assert_eq!(Point::parse("H16"), Err("Failed to parse y part."));
    assert_eq!(Point::parse("Hx"), Err("Failed to parse y part."));
    assert_eq!(Points::parse("H8,Q9").map(|p| p.0), Err("Failed to parse x part."));
    assert_eq!(BitPoint::parse("z3"), Err("Failed to parse x part."));
    assert_eq!(BitPoint::parse("A99"), Err("Failed to parse y part."));
    assert_eq!(BitPoints::parse("A1,B0,Z1").map(|p| p.0), Err("Failed to parse y part."));
    assert_eq!(Point::from_code(225), Err("Invalid code"));
    assert_eq!(BitPoints::from_codes(&[3, 250]).map(|p| p.0), Err("Invalid code"));
}

#[test]
fn test_point_to_string_off_the_board() {
    // Any point whose letter and row fit a byte is written out.
    assert_eq!(Point(20, 200).to_string(), "U201");
    assert_eq!(BitPoint(16, 99).to_string(), "Q100");
}

#[test]
fn test_whitespace_matches_std() {
    let mut c: u32 = 0;
    while c <= 0x10FFFF {
        if let Some(ch) = char::from_u32(c) {
            assert_eq!(quintet::board::notation::is_whitespace(ch), ch.is_whitespace(), "{:#x}", c);
        }
        c += 1;
    }
}
