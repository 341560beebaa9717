use quintet::board::player::{Black, White};
use quintet::board::point::Point;
use quintet::board::zobrist::{apply, new};
#[test]
fn test_apply() {
    let mut code1 = new();
    code1 = apply(code1, Black, Point(7, 7));
    code1 = apply(code1, White, Point(8, 8));
    code1 = apply(code1, Black, Point(9, 8));
    // different order
    let mut code2 = new();
    code2 = apply(code2, Black, Point(7, 7));
    code2 = apply(code2, Black, Point(9, 8));
    code2 = apply(code2, White, Point(8, 8));
    assert_eq!(code1, code2)
}
