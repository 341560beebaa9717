use quintet::analysis::sword::SwordField;
use quintet::board::board::Board;
use quintet::board::player::{Black, White};
use quintet::board::point::{Point, Points, RANGE};
use quintet::board::structure::Structure;
use quintet::board::structure::StructureKind::Sword;
/// What a full scan of the board says: the pairs `VCFState` built before
/// this field existed.
fn scanned(swords: Vec<Structure>) -> Vec<(Point, Point)> {
    let mut result = vec![];
    for s in swords {
        let eyes: Vec<_> = s.eyes();
        result.push((eyes[0], eyes[1]));
        result.push((eyes[1], eyes[0]));
    }
    result
}

fn assert_matches_scan(field: &SwordField, board: &Board) {
    let r = field.player();
    assert_eq!(field.move_pairs(), scanned(board.structures(r, Sword)));
    for p in (0..RANGE).flat_map(|x| (0..RANGE).map(move |y| Point(x, y))) {
        assert_eq!(
            field.move_pairs_on(p),
            scanned(board.structures_on(p, r, Sword)),
            "{r:?} on {}", p.to_string()
        );
    }
}

fn board() -> Board {
    // Swords in all four directions, some blocked, some along the edge
    // and the short diagonals, and Black's overline margin (A1-E5 is
    // next to F6).
    Board::parse("A1,B2,D4,F6,H8,H9,H11,J8,K8,M8,N14,M13,L12,C12,C13,C15/O1,N2,L4,O14,O13,O11,D12,E8,F8,G8").unwrap()
}

#[test]
fn test_init_matches_a_scan() {
    let board = board();
    for r in [Black, White] {
        assert_matches_scan(&SwordField::init(r, &board), &board);
    }
}

/// Only the lines through each move are recomputed, lazily; that has to
/// leave the field exactly as a full scan of the board sees it.
#[test]
fn test_sync_matches_a_scan() -> Result<(), String> {
    let moves = Points::parse("H10,G9,J10,H7,I8,E4,C14,A15")?.into_vec();
    for r in [Black, White] {
        let mut board = board();
        let mut field = SwordField::init(r, &board);
        let mut turn = Black;
        for (n, &p) in moves.iter().enumerate() {
            board.put_mut(turn, p);
            field.mark_stale(p);
            turn = turn.opponent();
            // Sync every other move, so that several moves are stale at
            // once.
            if n % 2 == 1 {
                assert!(!field.is_synced());
                field.sync(&board);
                assert_matches_scan(&field, &board);
            }
        }
        for &p in moves.iter().rev() {
            board.remove_mut(p);
            field.mark_stale(p);
        }
        field.sync(&board);
        assert_matches_scan(&field, &board);
    }
    Ok(())
}
