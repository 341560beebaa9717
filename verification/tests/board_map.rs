use quintet::board::map::SwordMap;
use quintet::board::player::{Black, White};
use quintet::board::point::{Point, Points, RANGE};
use quintet::board::square::Square;
use quintet::board::structure::StructureKind::Sword;
/// The map has to say what a scan of the square says, point for point
/// and in the same order.
fn assert_matches_a_scan(map: &mut SwordMap, square: &Square) {
    map.sync(square);
    for r in [Black, White] {
        let scanned: Vec<_> = square.structures(r, Sword);
        assert_eq!(map.swords(square, r), scanned, "{r:?}");
        for x in 0..RANGE {
            for y in 0..RANGE {
                let p = Point(x, y);
                let scanned: Vec<_> = square.structures_on(p, r, Sword);
                assert_eq!(
                    map.swords_on(square, p, r),
                    scanned,
                    "{r:?} on {}", p.to_string()
                );
            }
        }
    }
}

#[test]
fn test_swords() -> Result<(), String> {
    // Swords in all four directions, some blocked, some along the edges
    // and the short diagonals, and Black's overline margin (A1-E5 is
    // next to F6).
    let mut square = Square::parse("A1,B2,D4,F6,H8,H9,H11,J8,K8,M8,N14,M13,L12,C12,C13,C15/O1,N2,L4,O14,O13,O11,D12,E8,F8,G8")?;
    let mut map = SwordMap::new();
    assert!(!map.is_synced());
    map.sync(&square);
    assert!(map.swords(&square, Black).len() >= 7);
    assert!(map.swords(&square, White).len() >= 4);
    assert_matches_a_scan(&mut map, &square);

    // Kept up to date as stones come and go, synced only every other
    // move so that several are stale at once.
    let moves = Points::parse("H10,G9,J10,H7,I8,E4,C14,A15")?.into_vec();
    let mut turn = Black;
    for (n, &p) in moves.iter().enumerate() {
        square.put_mut(turn, p);
        map.mark_stale(p);
        assert!(!map.is_synced());
        if n % 2 == 1 {
            assert_matches_a_scan(&mut map, &square);
        }
        turn = turn.opponent();
    }
    for (n, &p) in moves.iter().enumerate().rev() {
        square.remove_mut(p);
        map.mark_stale(p);
        if n % 3 == 0 {
            assert_matches_a_scan(&mut map, &square);
        }
    }
    assert_matches_a_scan(&mut map, &square);
    Ok(())
}
