//! A compact text for positions: points like `H8` separated by commas, and
//! a board as its black points, a slash, and its white points.
use vstd::prelude::*;
use crate::bitboard::point::{all_digits, byte_of_text, decimal_value};
use crate::board::notation::{split_at, split_chars};
use crate::board::board::Board;
use crate::board::notation::{chars_of, column_of, push_char, trim, trimmed};
use crate::board::player::{Black, White};
use crate::board::point::{Point, RANGE};
use crate::board::square::stone_of_lists;

verus! {

/// The column a point's text starts with: `A`-`O` or `a`-`o`, and column
/// 0 for anything else or for no character at all.
pub open spec fn x_of_text(s: Seq<char>) -> u8 {
    if s.len() == 0 {
        0
    } else {
        match column_of(s[0]) {
            Some(x) => x,
            None => 0,
        }
    }
}

/// What follows a point's first character.
pub open spec fn y_text(s: Seq<char>) -> Seq<char> {
    if s.len() == 0 { s } else { s.drop_first() }
}

/// Whether the row part of a point's text is a number from 1 up: the row
/// is that number less one.
pub open spec fn decodable(s: Seq<char>) -> bool {
    byte_of_text(y_text(s)) matches Some(n) && n >= 1
}

/// [`decode_one`] as a spec function, for text that is [`decodable`].
pub open spec fn decode_one_spec(s: Seq<char>) -> Option<Point> {
    match byte_of_text(y_text(s)) {
        Some(n) => if n <= RANGE { Some(Point(x_of_text(s), (n - 1) as u8)) } else { None },
        None => None,
    }
}

/// The points written by `parts`, one each, or `None` at the first part
/// that writes none.
pub open spec fn decode_parts(parts: Seq<Seq<char>>) -> Option<Seq<Point>>
    decreases parts.len(),
{
    if parts.len() == 0 {
        Some(Seq::empty())
    } else {
        match (decode_parts(parts.drop_last()), decode_one_spec(parts.last())) {
            (Some(ps), Some(p)) => Some(ps.push(p)),
            _ => None,
        }
    }
}

/// Whether every part written by `s` between commas is [`decodable`].
pub open spec fn all_decodable(s: Seq<char>) -> bool {
    forall|k: int| 0 <= k < split_at(s, ',').len() ==> decodable(#[trigger] split_at(s, ',')[k])
}

/// A point's text: its column letter, then its row from 1.
pub open spec fn point_code_text(p: Point) -> Seq<char> {
    let y = p.1 + 1;
    seq![('A' as u32 + p.0) as char] + if y < 10 {
        seq![('0' as u32 + y) as char]
    } else {
        seq![('0' as u32 + y / 10) as char, ('0' as u32 + y % 10) as char]
    }
}

/// Points' texts joined by commas.
pub open spec fn points_code_text(ps: Seq<Point>) -> Seq<char>
    decreases ps.len(),
{
    if ps.len() == 0 {
        Seq::empty()
    } else if ps.len() == 1 {
        point_code_text(ps[0])
    } else {
        points_code_text(ps.drop_last()) + seq![','] + point_code_text(ps.last())
    }
}

/// Reads a point written like `H8` or `h8`: a missing or unknown column
/// letter reads as column `A`, and a row past 15 is refused.
pub fn decode_one(s: &str) -> (res: Result<Point, String>)
    requires
        decodable(s@),
    ensures
        res is Ok <==> decode_one_spec(s@) is Some,
        res matches Ok(p) ==> decode_one_spec(s@) == Some(p) && p.valid(),
        res matches Err(e) ==> e@ == "Invalid point"@,
{
    decode_one_chars(&chars_of(s))
}

/// [`decode_one`], from the characters.
fn decode_one_chars(cs: &Vec<char>) -> (res: Result<Point, String>)
    requires
        decodable(cs@),
    ensures
        res is Ok <==> decode_one_spec(cs@) is Some,
        res matches Ok(p) ==> decode_one_spec(cs@) == Some(p) && p.valid(),
        res matches Err(e) ==> e@ == "Invalid point"@,
{
    let x: u8 = if cs.len() == 0 {
        0
    } else {
        let c = cs[0];
        if 'A' <= c && c <= 'O' {
            (c as u32 - 'A' as u32) as u8
        } else if 'a' <= c && c <= 'o' {
            (c as u32 - 'a' as u32) as u8
        } else {
            0
        }
    };
    let start: usize = if cs.len() == 0 {
        0
    } else {
        1
    };
    assert(cs@.skip(start as int) =~= y_text(cs@));
    let n = match crate::bitboard::point::parse_byte(cs, start) {
        Some(n) => n,
        None => 0,
    };
    let y = n - 1;
    if !(x < RANGE) || !(y < RANGE) {
        Err("Invalid point".to_owned())
    } else {
        Ok(Point(x, y))
    }
}

/// Reads points written like `H8,I9`, each part as [`decode_one`] reads
/// it, or gives the first part's error.
pub fn decode(s: &str) -> (res: Result<Vec<Point>, String>)
    requires
        all_decodable(s@),
    ensures
        res is Ok <==> decode_parts(split_at(s@, ',')) is Some,
        res matches Ok(ps) ==> decode_parts(split_at(s@, ',')) == Some(ps@),
        res matches Ok(ps) ==> forall|k: int| 0 <= k < ps@.len() ==> (#[trigger] ps@[k]).valid(),
        res matches Err(e) ==> e@ == "Invalid point"@,
{
    decode_chars(&chars_of(s))
}

/// Points are read from every part or from none.
proof fn lemma_decode_parts(parts: Seq<Seq<char>>, j: int)
    requires
        0 <= j < parts.len(),
        decode_parts(parts) is Some,
    ensures
        decode_one_spec(parts[j]) is Some,
    decreases parts.len(),
{
    if j < parts.len() - 1 {
        lemma_decode_parts(parts.drop_last(), j);
    }
}

/// [`decode`], from the characters.
fn decode_chars(cs: &Vec<char>) -> (res: Result<Vec<Point>, String>)
    requires
        all_decodable(cs@),
    ensures
        res is Ok <==> decode_parts(split_at(cs@, ',')) is Some,
        res matches Ok(ps) ==> decode_parts(split_at(cs@, ',')) == Some(ps@),
        res matches Ok(ps) ==> forall|k: int| 0 <= k < ps@.len() ==> (#[trigger] ps@[k]).valid(),
        res matches Err(e) ==> e@ == "Invalid point"@,
{
    let parts = split_chars(cs, ',');
    let ghost whole = split_at(cs@, ',');
    let mut ps: Vec<Point> = Vec::new();
    let mut k: usize = 0;
    assert(whole.take(0) =~= Seq::<Seq<char>>::empty());
    while k < parts.len()
        invariant
            whole == split_at(cs@, ','),
            all_decodable(cs@),
            parts@.len() == whole.len(),
            forall|j: int| 0 <= j < parts@.len() ==> (#[trigger] parts@[j])@ == whole[j],
            k <= parts@.len(),
            decode_parts(whole.take(k as int)) == Some(ps@),
            forall|m: int| 0 <= m < ps@.len() ==> (#[trigger] ps@[m]).valid(),
        decreases parts@.len() - k,
    {
        assert(whole.take(k + 1).drop_last() =~= whole.take(k as int));
        assert(decodable(whole[k as int]));
        match decode_one_chars(&parts[k]) {
            Ok(p) => {
                ps.push(p);
            },
            Err(e) => {
                proof {
                    if decode_parts(whole) is Some {
                        lemma_decode_parts(whole, k as int);
                    }
                }
                return Err(e);
            },
        }
        k += 1;
    }
    assert(whole.take(k as int) =~= whole);
    Ok(ps)
}

/// Writes a point like `H8`, or refuses a point off the board.
pub fn encode_one(p: &Point) -> (res: Result<String, String>)
    ensures
        res is Ok <==> p.valid(),
        res matches Ok(s) ==> s@ == point_code_text(*p),
{
    if !(p.0 < RANGE) || !(p.1 < RANGE) {
        Err("Invalid point".to_owned())
    } else {
        let mut result = String::new();
        push_char(&mut result, ('A' as u8 + p.0) as char);
        let y = p.1 + 1;
        if y < 10 {
            push_char(&mut result, ('0' as u8 + y) as char);
        } else {
            push_char(&mut result, ('0' as u8 + y / 10) as char);
            push_char(&mut result, ('0' as u8 + y % 10) as char);
        }
        assert(result@ =~= point_code_text(*p));
        Ok(result)
    }
}

/// Writes points like `H8,I9`, or refuses at the first point off the
/// board.
pub fn encode(ps: &[Point]) -> (res: Result<String, String>)
    ensures
        res is Ok <==> forall|k: int| 0 <= k < ps@.len() ==> (#[trigger] ps@[k]).valid(),
        res matches Ok(s) ==> s@ == points_code_text(ps@),
{
    let mut result = String::new();
    let mut k: usize = 0;
    while k < ps.len()
        invariant
            k <= ps@.len(),
            forall|m: int| 0 <= m < k ==> (#[trigger] ps@[m]).valid(),
            result@ == points_code_text(ps@.take(k as int)),
        decreases ps@.len() - k,
    {
        let s = encode_one(&ps[k])?;
        if k > 0 {
            push_char(&mut result, ',');
        }
        let cs = chars_of(s.as_str());
        let ghost before = result@;
        let mut m: usize = 0;
        while m < cs.len()
            invariant
                m <= cs@.len(),
                result@ == before + cs@.take(m as int),
            decreases cs@.len() - m,
        {
            push_char(&mut result, cs[m]);
            assert(cs@.take(m + 1) =~= cs@.take(m as int).push(cs@[m as int]));
            m += 1;
        }
        assert(cs@.take(m as int) =~= cs@);
        assert(ps@.take(k + 1).drop_last() =~= ps@.take(k as int));
        k += 1;
    }
    assert(ps@.take(k as int) =~= ps@);
    Ok(result)
}

/// The black and white points of a board written like `H8,J9/I9`, if it
/// is so written.
pub open spec fn board_code_parts(code: Seq<char>) -> Option<(Seq<Point>, Seq<Point>)> {
    let parts = split_at(trimmed(code), '/');
    if parts.len() != 2 {
        None
    } else {
        match (decode_parts(split_at(parts[0], ',')), decode_parts(split_at(parts[1], ','))) {
            (Some(b), Some(w)) => Some((b, w)),
            _ => None,
        }
    }
}

/// Whether every point a board's code writes can be read: the code is
/// not in two parts, or each part's points are [`decodable`].
pub open spec fn board_decodable(code: Seq<char>) -> bool {
    let parts = split_at(trimmed(code), '/');
    parts.len() == 2 ==> all_decodable(parts[0]) && all_decodable(parts[1])
}

/// The black (or, if not `black`, the white) points a board's code
/// writes.
pub open spec fn board_code_stones(code: Seq<char>, black: bool) -> Seq<Point> {
    match board_code_parts(code) {
        Some((b, w)) => if black { b } else { w },
        None => Seq::empty(),
    }
}

/// Reads a board written like `H8,J9/I9`: the black points, a slash, the
/// white points; the black stones are put first, then the white ones.
pub fn decode_board(code: &str) -> (res: Result<Board, String>)
    requires
        board_decodable(code@),
    ensures
        res is Ok <==> board_code_parts(code@) is Some,
        res matches Err(e) ==> e@ == (if split_at(trimmed(code@), '/').len() != 2 {
            "Invalid"@
        } else {
            "Invalid point"@
        }),
        res matches Ok(board) ==> {
            &&& board@.wf()
            &&& board@.hashed()
            &&& forall|p: Point| p.valid() ==> #[trigger] board@.stone_at(p) == stone_of_lists(
                board_code_stones(code@, true),
                board_code_stones(code@, false),
                p,
            )
        },
{
    let cs = chars_of(code);
    let t = trim(&cs);
    let codes = split_chars(&t, '/');
    if codes.len() != 2 {
        return Err("Invalid".to_owned());
    }
    let blacks = match decode_chars(&codes[0]) {
        Ok(points) => points,
        Err(s) => return Err(s),
    };
    let whites = match decode_chars(&codes[1]) {
        Ok(points) => points,
        Err(s) => return Err(s),
    };
    let mut board = Board::new();
    let mut k: usize = 0;
    assert(blacks@.take(0) =~= Seq::<Point>::empty());
    while k < blacks.len()
        invariant
            board@.wf(),
            board@.hashed(),
            forall|m: int| 0 <= m < blacks@.len() ==> (#[trigger] blacks@[m]).valid(),
            k <= blacks@.len(),
            forall|q: Point| q.valid() ==> #[trigger] board@.stone_at(q) == stone_of_lists(blacks@.take(k as int), Seq::empty(), q),
        decreases blacks@.len() - k,
    {
        let p = blacks[k];
        board.put_mut(Black, p);
        proof {
            assert forall|q: Point| q.valid() implies #[trigger] board@.stone_at(q) == stone_of_lists(
                blacks@.take(k + 1),
                Seq::empty(),
                q,
            ) by {
                if q == p {
                    assert(blacks@.take(k + 1)[k as int] == q);
                } else {
                    assert(blacks@.take(k + 1).contains(q) <==> blacks@.take(k as int).contains(q)) by {
                        if blacks@.take(k + 1).contains(q) {
                            let m = choose|m: int| 0 <= m < k + 1 && #[trigger] blacks@.take(k + 1)[m] == q;
                            assert(blacks@.take(k as int)[m] == q);
                        }
                        if blacks@.take(k as int).contains(q) {
                            let m = choose|m: int| 0 <= m < k && #[trigger] blacks@.take(k as int)[m] == q;
                            assert(blacks@.take(k + 1)[m] == q);
                        }
                    }
                }
            }
        }
        k += 1;
    }
    assert(blacks@.take(k as int) =~= blacks@);
    let mut k: usize = 0;
    assert(whites@.take(0) =~= Seq::<Point>::empty());
    while k < whites.len()
        invariant
            board@.wf(),
            board@.hashed(),
            forall|m: int| 0 <= m < whites@.len() ==> (#[trigger] whites@[m]).valid(),
            k <= whites@.len(),
            forall|q: Point| q.valid() ==> #[trigger] board@.stone_at(q) == stone_of_lists(blacks@, whites@.take(k as int), q),
        decreases whites@.len() - k,
    {
        let p = whites[k];
        board.put_mut(White, p);
        proof {
            assert forall|q: Point| q.valid() implies #[trigger] board@.stone_at(q) == stone_of_lists(
                blacks@,
                whites@.take(k + 1),
                q,
            ) by {
                if q == p {
                    assert(whites@.take(k + 1)[k as int] == q);
                } else {
                    assert(whites@.take(k + 1).contains(q) <==> whites@.take(k as int).contains(q)) by {
                        if whites@.take(k + 1).contains(q) {
                            let m = choose|m: int| 0 <= m < k + 1 && #[trigger] whites@.take(k + 1)[m] == q;
                            assert(whites@.take(k as int)[m] == q);
                        }
                        if whites@.take(k as int).contains(q) {
                            let m = choose|m: int| 0 <= m < k && #[trigger] whites@.take(k as int)[m] == q;
                            assert(whites@.take(k + 1)[m] == q);
                        }
                    }
                }
            }
        }
        k += 1;
    }
    assert(whites@.take(k as int) =~= whites@);
    Ok(board)
}


/// The texts of the points, one each.
pub open spec fn texts_of(ps: Seq<Point>) -> Seq<Seq<char>> {
    ps.map_values(|p: Point| point_code_text(p))
}

/// Text without `sep` in it is one part.
proof fn lemma_split_whole(t: Seq<char>, sep: char)
    requires
        !t.contains(sep),
    ensures
        split_at(t, sep) == seq![t],
    decreases t.len(),
{
    if t.len() > 0 {
        assert(!t.drop_last().contains(sep)) by {
            if t.drop_last().contains(sep) {
                let k = choose|k: int| 0 <= k < t.drop_last().len() && t.drop_last()[k] == sep;
                assert(t[k] == sep);
            }
        }
        lemma_split_whole(t.drop_last(), sep);
        assert(t.last() != sep) by {
            assert(t[t.len() - 1] == t.last());
        }
        assert(t.drop_last().push(t.last()) =~= t);
    } else {
        assert(t =~= Seq::<char>::empty());
    }
}

/// Text, `sep`, then text without `sep` in it: the parts of the first,
/// then the last one.
proof fn lemma_split_after(s: Seq<char>, t: Seq<char>, sep: char)
    requires
        !t.contains(sep),
    ensures
        split_at(s + seq![sep] + t, sep) == split_at(s, sep).push(t),
    decreases t.len(),
{
    let whole = s + seq![sep] + t;
    if t.len() == 0 {
        assert(whole.drop_last() =~= s);
        assert(t =~= Seq::<char>::empty());
    } else {
        assert(!t.drop_last().contains(sep)) by {
            if t.drop_last().contains(sep) {
                let k = choose|k: int| 0 <= k < t.drop_last().len() && t.drop_last()[k] == sep;
                assert(t[k] == sep);
            }
        }
        lemma_split_after(s, t.drop_last(), sep);
        assert(whole.drop_last() =~= s + seq![sep] + t.drop_last());
        assert(whole.last() == t.last());
        assert(t.last() != sep) by {
            assert(t[t.len() - 1] == t.last());
        }
        assert(t.drop_last().push(t.last()) =~= t);
        assert(split_at(s, sep).push(t.drop_last()).update(
            split_at(s, sep).len() as int,
            t.drop_last().push(t.last()),
        ) =~= split_at(s, sep).push(t));
    }
}

/// A point's text is read back as the point.
proof fn lemma_point_code_text(p: Point)
    requires
        p.valid(),
    ensures
        !point_code_text(p).contains(','),
        decodable(point_code_text(p)),
        decode_one_spec(point_code_text(p)) == Some(p),
{
    let t = point_code_text(p);
    let y = p.1 + 1;
    let d = y_text(t);
    let c0 = ('A' as u32 + p.0) as char;
    assert(c0 as u32 == 'A' as u32 + p.0);
    assert(t[0] == c0);
    assert(column_of(c0) == Some(p.0));
    assert(x_of_text(t) == p.0);
    assert(d =~= t.drop_first());
    if y < 10 {
        let c = ('0' as u32 + y) as char;
        assert(c as u32 == '0' as u32 + y);
        assert(d =~= seq![c]);
        assert(d.drop_last() =~= Seq::<char>::empty());
        assert(decimal_value(d.drop_last()) == 0);
        assert(d.last() == c);
        assert(decimal_value(d) == y);
        assert(all_digits(d));
        assert(byte_of_text(d) == Some(y as u8));
    } else {
        let c1 = ('0' as u32 + y / 10) as char;
        let c2 = ('0' as u32 + y % 10) as char;
        assert(c1 as u32 == '0' as u32 + y / 10);
        assert(c2 as u32 == '0' as u32 + y % 10);
        assert(d =~= seq![c1, c2]);
        assert(d.drop_last() =~= seq![c1]);
        assert(d.drop_last().drop_last() =~= Seq::<char>::empty());
        assert(decimal_value(d.drop_last().drop_last()) == 0);
        assert(d.drop_last().last() == c1);
        assert(decimal_value(d.drop_last()) == y / 10);
        assert(d.last() == c2);
        assert(decimal_value(d) == y);
        assert(all_digits(d));
        assert(byte_of_text(d) == Some(y as u8));
    }
    assert(!t.contains(',')) by {
        if t.contains(',') {
            let k = choose|k: int| 0 <= k < t.len() && t[k] == ',';
        }
    }
}

/// Points written one after another, and read back part by part, are the
/// points again.
proof fn lemma_parts_of_points(ps: Seq<Point>)
    requires
        ps.len() > 0,
        forall|k: int| 0 <= k < ps.len() ==> (#[trigger] ps[k]).valid(),
    ensures
        split_at(points_code_text(ps), ',') == texts_of(ps),
    decreases ps.len(),
{
    lemma_point_code_text(ps.last());
    if ps.len() == 1 {
        lemma_split_whole(point_code_text(ps[0]), ',');
        assert(texts_of(ps) =~= seq![point_code_text(ps[0])]);
    } else {
        lemma_parts_of_points(ps.drop_last());
        lemma_split_after(points_code_text(ps.drop_last()), point_code_text(ps.last()), ',');
        assert(texts_of(ps) =~= texts_of(ps.drop_last()).push(point_code_text(ps.last())));
    }
}

/// Reading the texts of points gives the points.
proof fn lemma_decode_texts(ps: Seq<Point>)
    requires
        forall|k: int| 0 <= k < ps.len() ==> (#[trigger] ps[k]).valid(),
    ensures
        decode_parts(texts_of(ps)) == Some(ps),
        forall|k: int| 0 <= k < ps.len() ==> decodable(#[trigger] texts_of(ps)[k]),
    decreases ps.len(),
{
    let texts = texts_of(ps);
    if ps.len() > 0 {
        lemma_decode_texts(ps.drop_last());
        lemma_point_code_text(ps.last());
        assert(texts.drop_last() =~= texts_of(ps.drop_last()));
        assert(ps.drop_last().push(ps.last()) =~= ps);
        assert forall|k: int| 0 <= k < ps.len() implies decodable(#[trigger] texts[k]) by {
            lemma_point_code_text(ps[k]);
        }
    } else {
        assert(ps =~= Seq::<Point>::empty());
    }
}

/// What [`encode`] writes, [`decode`] reads back: for points on the board,
/// at least one of them, the text can be read and gives the same points.
pub proof fn lemma_decode_encode(ps: Seq<Point>)
    requires
        ps.len() > 0,
        forall|k: int| 0 <= k < ps.len() ==> (#[trigger] ps[k]).valid(),
    ensures
        all_decodable(points_code_text(ps)),
        decode_parts(split_at(points_code_text(ps), ',')) == Some(ps),
{
    lemma_parts_of_points(ps);
    lemma_decode_texts(ps);
}

} // verus!
