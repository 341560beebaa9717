//! Points of the bit board, where they sit along each direction, and how
//! they are written.
use vstd::prelude::*;
use super::fundamentals::BOARD_SIZE;
use crate::board::notation::{
    chars_of, column_char, column_of, decimal, lemma_split_sep, point_error, printable, push_char, push_point, split_at, split_chars, trim, trimmed, whitespace,
};
pub use crate::board::point::Direction;
use crate::board::point::{Ascending, Descending, Horizontal, Vertical};

verus! {

/// A point: column `0`, row `1`, both from 0 (`A1` is `Point(0, 0)`).
#[derive(Debug, PartialEq, Eq, Hash, Clone, Copy, PartialOrd, Ord, Structural)]
pub struct Point(pub u8, pub u8);

/// A point seen along a direction: cell `1` of the line numbered `0`.
///
/// Vertical line `i` is column `i`, horizontal line `i` is row `i`;
/// ascending line `i` holds the points with `x - y == i - 14`, descending
/// line `i` those with `x + y == i`, each counted from its left end.
#[derive(Debug, PartialEq, Eq, Clone, Copy, Structural)]
pub struct Index(pub u8, pub u8);

/// A list of points.
#[derive(Debug)]
pub struct Points(pub Vec<Point>);

/// The last cell of line `i` in direction `d`.
pub open spec fn last_cell(d: Direction, i: int) -> int {
    let n = BOARD_SIZE - 1;
    match d {
        Vertical | Horizontal => n as int,
        _ => if i < n { i } else { 2 * n - i },
    }
}

impl Point {
    /// Whether the point is on the board.
    pub open spec fn valid(self) -> bool {
        self.0 < BOARD_SIZE && self.1 < BOARD_SIZE
    }

    /// [`Self::to_index`] as a spec function.
    pub open spec fn index_spec(self, d: Direction) -> Index {
        let (x, y) = (self.0 as int, self.1 as int);
        let n = BOARD_SIZE - 1;
        match d {
            Vertical => Index(x as u8, y as u8),
            Horizontal => Index(y as u8, x as u8),
            Ascending => {
                let i = x + n - y;
                Index(i as u8, (if i < n { x } else { y }) as u8)
            },
            Descending => {
                let i = x + y;
                Index(i as u8, (if i < n { x } else { n - y }) as u8)
            },
        }
    }

    /// Where the point sits along `direction`.
    pub fn to_index(&self, direction: Direction) -> (res: Index)
        requires
            self.valid(),
        ensures
            res == self.index_spec(direction),
            res.valid_for(direction),
    {
        let (x, y) = (self.0, self.1);
        let n = BOARD_SIZE - 1;
        match direction {
            Vertical => Index(x, y),
            Horizontal => Index(y, x),
            Ascending => {
                let i = x + n - y;
                let j = if i < n {
                    x
                } else {
                    y
                };
                Index(i, j)
            },
            Descending => {
                let i = x + y;
                let j = if i < n {
                    x
                } else {
                    n - y
                };
                Index(i, j)
            },
        }
    }
}

impl Index {
    /// Whether the index names a point along direction `d`.
    pub open spec fn valid_for(self, d: Direction) -> bool {
        let n = BOARD_SIZE - 1;
        &&& match d {
            Vertical | Horizontal => self.0 <= n,
            _ => self.0 <= 2 * n,
        }
        &&& self.1 <= last_cell(d, self.0 as int)
    }

    /// [`Self::to_point`] as a spec function.
    pub open spec fn point_spec(self, d: Direction) -> Point {
        let n = BOARD_SIZE - 1;
        let (i, j) = (self.0 as int, self.1 as int);
        match d {
            Vertical => Point(i as u8, j as u8),
            Horizontal => Point(j as u8, i as u8),
            Ascending => Point(
                (if i < n { j } else { i + j - n }) as u8,
                (if i < n { n - i + j } else { j }) as u8,
            ),
            Descending => Point(
                (if i < n { j } else { i + j - n }) as u8,
                (if i < n { i - j } else { n - j }) as u8,
            ),
        }
    }

    /// The point this index names along `direction`.
    pub fn to_point(&self, direction: Direction) -> (res: Point)
        requires
            self.valid_for(direction),
        ensures
            res == self.point_spec(direction),
            res.valid(),
    {
        let (i, j) = (self.0, self.1);
        let n = BOARD_SIZE - 1;
        match direction {
            Vertical => Point(i, j),
            Horizontal => Point(j, i),
            Ascending => {
                let x = if i < n {
                    j
                } else {
                    i + j - n
                };
                let y = if i < n {
                    n - i + j
                } else {
                    j
                };
                Point(x, y)
            },
            Descending => {
                let x = if i < n {
                    j
                } else {
                    i + j - n
                };
                let y = if i < n {
                    i - j
                } else {
                    n - j
                };
                Point(x, y)
            },
        }
    }
}

/// A point's index along any direction names the point again.
pub proof fn lemma_point_roundtrip(p: Point, d: Direction)
    requires
        p.valid(),
    ensures
        p.index_spec(d).valid_for(d),
        p.index_spec(d).point_spec(d) == p,
{
}

/// An index along a direction names a point whose index is the index
/// again.
pub proof fn lemma_index_roundtrip(idx: Index, d: Direction)
    requires
        idx.valid_for(d),
    ensures
        idx.point_spec(d).valid(),
        idx.point_spec(d).index_spec(d) == idx,
{
}

/// A point written like `H8`.
pub open spec fn point_text(p: Point) -> Seq<char> {
    seq![column_char(p.0)] + decimal((p.1 + 1) as u8)
}

/// Points written one after another, separated by commas.
pub open spec fn points_text(ps: Seq<Point>) -> Seq<char>
    decreases ps.len(),
{
    if ps.len() == 0 {
        Seq::empty()
    } else if ps.len() == 1 {
        point_text(ps[0])
    } else {
        points_text(ps.drop_last()) + seq![','] + point_text(ps.last())
    }
}

/// Whether every character is a decimal digit.
pub open spec fn all_digits(cs: Seq<char>) -> bool {
    forall|k: int| 0 <= k < cs.len() ==> '0' <= #[trigger] cs[k] <= '9'
}

/// The number written with the decimal digits `cs`.
pub open spec fn decimal_value(cs: Seq<char>) -> nat
    decreases cs.len(),
{
    if cs.len() == 0 {
        0
    } else {
        10 * decimal_value(cs.drop_last()) + (cs.last() as u32 - '0' as u32) as nat
    }
}

/// What `u8::from_str` reads from `cs`: an optional `+`, then at least one
/// decimal digit, for a value of at most 255.
pub open spec fn byte_of_text(cs: Seq<char>) -> Option<u8> {
    let digits = if cs.len() > 0 && cs[0] == '+' { cs.drop_first() } else { cs };
    if digits.len() > 0 && all_digits(digits) && decimal_value(digits) <= 255 {
        Some(decimal_value(digits) as u8)
    } else {
        None
    }
}

/// The point written `cs`, trimmed: a column letter `A`-`O` (or `a`-`o`),
/// then the row number 1-15.
pub open spec fn point_of_text(cs: Seq<char>) -> Option<Point> {
    let t = trimmed(cs);
    if t.len() == 0 {
        None
    } else {
        match column_of(t[0]) {
            None => None,
            Some(x) => match byte_of_text(t.drop_first()) {
                Some(n) => if 1 <= n <= BOARD_SIZE { Some(Point(x, (n - 1) as u8)) } else { None },
                None => None,
            },
        }
    }
}

/// The points written by `parts`, if each part writes one.
pub open spec fn points_of_parts(parts: Seq<Seq<char>>) -> Option<Seq<Point>>
    decreases parts.len(),
{
    if parts.len() == 0 {
        Some(Seq::empty())
    } else {
        match (points_of_parts(parts.drop_last()), point_of_text(parts.last())) {
            (Some(ps), Some(p)) => Some(ps.push(p)),
            _ => None,
        }
    }
}

/// The points written `cs`, trimmed, separated by commas.
pub open spec fn points_of_text(cs: Seq<char>) -> Option<Seq<Point>> {
    points_of_parts(split_at(trimmed(cs), ','))
}

/// What reading `parts` as points fails with: the error of the first part
/// that is no point.
pub open spec fn points_error(parts: Seq<Seq<char>>) -> Seq<char>
    decreases parts.len(),
{
    if parts.len() == 0 {
        Seq::empty()
    } else if points_of_parts(parts.drop_last()) is None {
        points_error(parts.drop_last())
    } else {
        point_error(parts.last())
    }
}

/// What reading `cs` as points written like `H8,I9` fails with.
pub open spec fn points_text_error(cs: Seq<char>) -> Seq<char> {
    points_error(split_at(trimmed(cs), ','))
}

/// Once some first parts are no points, neither are all of them.
proof fn lemma_parts_fail_extend(parts: Seq<Seq<char>>, m: int)
    requires
        0 <= m <= parts.len(),
        points_of_parts(parts.take(m)) is None,
    ensures
        points_of_parts(parts) is None,
    decreases parts.len(),
{
    if m == parts.len() {
        assert(parts.take(m) =~= parts);
    } else {
        assert(parts.drop_last().take(m) =~= parts.take(m));
        lemma_parts_fail_extend(parts.drop_last(), m);
    }
}

/// The error of reading parts is that of the first prefix that fails.
proof fn lemma_points_error_prefix(parts: Seq<Seq<char>>, m: int)
    requires
        0 < m <= parts.len(),
        points_of_parts(parts.take(m)) is None,
    ensures
        points_error(parts) == points_error(parts.take(m)),
    decreases parts.len(),
{
    if m == parts.len() {
        assert(parts.take(m) =~= parts);
    } else {
        let init = parts.drop_last();
        assert(init.take(m) =~= parts.take(m));
        lemma_parts_fail_extend(init, m);
        lemma_points_error_prefix(init, m);
    }
}

/// Points are read from every part or from none.
proof fn lemma_points_of_parts(parts: Seq<Seq<char>>, j: int)
    requires
        0 <= j < parts.len(),
        points_of_parts(parts) is Some,
    ensures
        point_of_text(parts[j]) is Some,
    decreases parts.len(),
{
    if j < parts.len() - 1 {
        lemma_points_of_parts(parts.drop_last(), j);
    }
}

/// The value of a run of digits grows as digits are added.
proof fn lemma_decimal_grows(cs: Seq<char>, k: int)
    requires
        0 <= k <= cs.len(),
        all_digits(cs),
    ensures
        decimal_value(cs.take(k)) <= decimal_value(cs),
    decreases cs.len() - k,
{
    if k < cs.len() {
        lemma_decimal_grows(cs, k + 1);
        assert(cs.take(k + 1).drop_last() =~= cs.take(k));
    } else {
        assert(cs.take(k) =~= cs);
    }
}

/// Reads a byte written in decimal, from position `start` of `cs` on.
pub(crate) fn parse_byte(cs: &Vec<char>, start: usize) -> (res: Option<u8>)
    requires
        start <= cs@.len(),
    ensures
        res == byte_of_text(cs@.skip(start as int)),
{
    let ghost text = cs@.skip(start as int);
    let mut k = start;
    if k < cs.len() && cs[k] == '+' {
        k += 1;
    }
    let ghost digits = cs@.skip(k as int);
    assert(digits =~= (if text.len() > 0 && text[0] == '+' { text.drop_first() } else { text }));
    if k == cs.len() {
        return None;
    }
    let mut value: u32 = 0;
    let mut m = k;
    while m < cs.len()
        invariant
            k <= m <= cs@.len(),
            k < cs@.len(),
            digits == cs@.skip(k as int),
            text == cs@.skip(start as int),
            digits == (if text.len() > 0 && text[0] == '+' { text.drop_first() } else { text }),
            all_digits(digits.take(m - k)),
            value == decimal_value(digits.take(m - k)),
            value <= 255,
        decreases cs@.len() - m,
    {
        let c = cs[m];
        assert(digits.take(m - k + 1).drop_last() =~= digits.take(m - k));
        assert(digits.take(m - k + 1).last() == c);
        if c < '0' || c > '9' {
            assert(!all_digits(digits)) by {
                assert(digits[m - k] == c);
            }
            return None;
        }
        value = 10 * value + (c as u32 - '0' as u32);
        if value > 255 {
            assert(all_digits(digits) ==> decimal_value(digits) > 255) by {
                if all_digits(digits) {
                    lemma_decimal_grows(digits, m - k + 1);
                }
            }
            return None;
        }
        m += 1;
    }
    assert(digits.take(m - k) =~= digits);
    Some(value as u8)
}

/// Reads a point written like `H8`, from trimmed characters.
fn parse_point(cs: &Vec<char>) -> (res: Result<Point, &'static str>)
    ensures
        res is Ok <==> point_of_text(cs@) is Some,
        res matches Ok(p) ==> point_of_text(cs@) == Some(p) && p.valid(),
        res matches Err(e) ==> e@ == point_error(cs@),
{
    let t = trim(cs);
    if t.len() == 0 {
        return Err("Failed to parse x part.");
    }
    let c = t[0];
    let x = if 'A' <= c && c <= 'O' {
        (c as u32 - 'A' as u32) as u8
    } else if 'a' <= c && c <= 'o' {
        (c as u32 - 'a' as u32) as u8
    } else {
        return Err("Failed to parse x part.");
    };
    assert(t@.skip(1) =~= t@.drop_first());
    match parse_byte(&t, 1) {
        Some(n) => {
            if 1 <= n && n <= BOARD_SIZE {
                Ok(Point(x, n - 1))
            } else {
                Err("Failed to parse y part.")
            }
        },
        None => Err("Failed to parse y part."),
    }
}

/// The point with code `c`: `x` is `c / 15`, `y` is `c % 15`.
pub open spec fn point_of_code(c: u8) -> Point {
    Point(c / BOARD_SIZE, c % BOARD_SIZE)
}

impl Point {
    /// The point written like `H8`: its column letter, then its row from 1.
    pub fn to_string(&self) -> (res: String)
        requires
            printable(crate::board::point::Point(self.0, self.1)),
        ensures
            res@ == point_text(*self),
    {
        let mut res = String::new();
        push_point(&mut res, self.0, self.1);
        assert(res@ =~= point_text(*self));
        res
    }

    /// Reads a point written like `H8` or `h8`, with whitespace around it.
    pub fn parse(s: &str) -> (res: Result<Point, &'static str>)
        ensures
            res is Ok <==> point_of_text(s@) is Some,
            res matches Ok(p) ==> point_of_text(s@) == Some(p) && p.valid(),
            res matches Err(e) ==> e@ == point_error(s@),
    {
        parse_point(&chars_of(s))
    }

    /// The point's one-byte code, `x * 15 + y`.
    pub fn code(&self) -> (res: u8)
        requires
            self.valid(),
        ensures
            res == self.0 * BOARD_SIZE + self.1,
    {
        self.0 * BOARD_SIZE + self.1
    }

    /// The point with code `value`, if there is one.
    pub fn from_code(value: u8) -> (res: Result<Point, &'static str>)
        ensures
            res is Ok <==> value / BOARD_SIZE < BOARD_SIZE,
            res matches Ok(p) ==> p == point_of_code(value) && p.valid(),
            res matches Err(e) ==> e@ == "Invalid code"@,
    {
        let x = value / BOARD_SIZE;
        let y = value % BOARD_SIZE;
        if x < BOARD_SIZE && y < BOARD_SIZE {
            Ok(Point(x, y))
        } else {
            Err("Invalid code")
        }
    }
}

/// A point's code names the point again, and every code below 225 is
/// the code of a point of the board: [`Point::from_code`] undoes
/// [`Point::code`], and the other way round.
pub proof fn lemma_code_roundtrip(p: Point, c: u8)
    ensures
        p.valid() ==> (p.0 * BOARD_SIZE + p.1) < 225 && point_of_code((p.0 * BOARD_SIZE + p.1) as u8) == p,
        c < 225 ==> point_of_code(c).valid() && point_of_code(c).0 * BOARD_SIZE + point_of_code(c).1 == c,
{
    assert(p.valid() ==> (p.0 * 15 + p.1) < 225 && (p.0 * 15 + p.1) / 15 == p.0 && (p.0 * 15 + p.1) % 15
        == p.1) by (nonlinear_arith);
    assert(c < 225 ==> c / 15 < 15 && (c / 15) * 15 + c % 15 == c) by (nonlinear_arith);
}

impl Points {
    /// The points written like `H8,I9`.
    pub fn to_string(&self) -> (res: String)
        requires
            forall|k: int| 0 <= k < self.0@.len() ==> printable(
                crate::board::point::Point((#[trigger] self.0@[k]).0, self.0@[k].1),
            ),
        ensures
            res@ == points_text(self.0@),
    {
        let mut res = String::new();
        let mut k: usize = 0;
        while k < self.0.len()
            invariant
                k <= self.0@.len(),
                forall|m: int| 0 <= m < self.0@.len() ==> printable(crate::board::point::Point((#[trigger] self.0@[m]).0, self.0@[m].1)),
                res@ == points_text(self.0@.take(k as int)),
            decreases self.0@.len() - k,
        {
            if k > 0 {
                push_char(&mut res, ',');
            }
            let p = self.0[k];
            push_point(&mut res, p.0, p.1);
            assert(self.0@.take(k + 1).drop_last() =~= self.0@.take(k as int));
            k += 1;
        }
        assert(self.0@.take(k as int) =~= self.0@);
        res
    }

    /// Reads points written like `H8,I9`, each part read as a point.
    pub fn parse(s: &str) -> (res: Result<Points, &'static str>)
        ensures
            res is Ok <==> points_of_text(s@) is Some,
            res matches Ok(ps) ==> points_of_text(s@) == Some(ps.0@),
            res matches Ok(ps) ==> forall|k: int| 0 <= k < ps.0@.len() ==> (#[trigger] ps.0@[k]).valid(),
            res matches Err(e) ==> e@ == points_text_error(s@),
    {
        Self::parse_chars(&chars_of(s))
    }

    /// [`Self::parse`], from the characters.
    pub fn parse_chars(cs: &Vec<char>) -> (res: Result<Points, &'static str>)
        ensures
            res is Ok <==> points_of_text(cs@) is Some,
            res matches Ok(ps) ==> points_of_text(cs@) == Some(ps.0@),
            res matches Ok(ps) ==> forall|k: int| 0 <= k < ps.0@.len() ==> (#[trigger] ps.0@[k]).valid(),
            res matches Err(e) ==> e@ == points_text_error(cs@),
    {
        let t = trim(cs);
        let parts = split_chars(&t, ',');
        let ghost whole = split_at(t@, ',');
        let mut ps: Vec<Point> = Vec::new();
        let mut k: usize = 0;
        assert(whole.take(0) =~= Seq::<Seq<char>>::empty());
        while k < parts.len()
            invariant
                t@ == trimmed(cs@),
                whole == split_at(t@, ','),
                parts@.len() == whole.len(),
                forall|j: int| 0 <= j < parts@.len() ==> (#[trigger] parts@[j])@ == whole[j],
                k <= parts@.len(),
                points_of_parts(whole.take(k as int)) == Some(ps@),
                forall|m: int| 0 <= m < ps@.len() ==> (#[trigger] ps@[m]).valid(),
            decreases parts@.len() - k,
        {
            assert(whole.take(k + 1).drop_last() =~= whole.take(k as int));
            match parse_point(&parts[k]) {
                Ok(p) => {
                    ps.push(p);
                },
                Err(e) => {
                    proof {
                        if points_of_parts(whole) is Some {
                            lemma_points_of_parts(whole, k as int);
                        }
                        assert(points_of_parts(whole.take(k + 1)) is None);
                        assert(whole.take(k + 1).last() == whole[k as int]);
                        assert(points_error(whole.take(k + 1)) == point_error(whole[k as int]));
                        lemma_points_error_prefix(whole, k + 1);
                    }
                    return Err(e);
                },
            }
            k += 1;
        }
        assert(whole.take(k as int) =~= whole);
        Ok(Points(ps))
    }

    /// The points with the given codes, or an error at the first code that
    /// names no point.
    pub fn from_codes(value: &[u8]) -> (res: Result<Points, &'static str>)
        ensures
            res is Ok <==> forall|k: int| 0 <= k < value@.len() ==> #[trigger] value@[k] / BOARD_SIZE
                < BOARD_SIZE,
            res matches Ok(ps) ==> ps.0@ == value@.map_values(|c: u8| point_of_code(c)),
            res matches Err(e) ==> e@ == "Invalid code"@,
    {
        let mut ps: Vec<Point> = Vec::new();
        let mut k: usize = 0;
        while k < value.len()
            invariant
                k <= value@.len(),
                ps@ == value@.take(k as int).map_values(|c: u8| point_of_code(c)),
                forall|m: int| 0 <= m < k ==> #[trigger] value@[m] / BOARD_SIZE < BOARD_SIZE,
            decreases value@.len() - k,
        {
            let p = match Point::from_code(value[k]) {
                Ok(p) => p,
                Err(e) => {
                    return Err(e);
                },
            };
            ps.push(p);
            assert(value@.take(k + 1).map_values(|c: u8| point_of_code(c)) =~= value@.take(
                k as int,
            ).map_values(|c: u8| point_of_code(c)).push(point_of_code(value@[k as int])));
            k += 1;
        }
        assert(value@.take(k as int) =~= value@);
        Ok(Points(ps))
    }

    /// The codes of the points, in order.
    pub fn into_codes(self) -> (res: Vec<u8>)
        requires
            forall|k: int| 0 <= k < self.0@.len() ==> (#[trigger] self.0@[k]).valid(),
        ensures
            res@ == self.0@.map_values(|p: Point| (p.0 * BOARD_SIZE + p.1) as u8),
    {
        let mut res: Vec<u8> = Vec::new();
        let mut k: usize = 0;
        while k < self.0.len()
            invariant
                k <= self.0@.len(),
                forall|m: int| 0 <= m < self.0@.len() ==> (#[trigger] self.0@[m]).valid(),
                res@ == self.0@.take(k as int).map_values(|p: Point| (p.0 * BOARD_SIZE + p.1) as u8),
            decreases self.0@.len() - k,
        {
            let c = self.0[k].code();
            res.push(c);
            assert(self.0@.take(k + 1).map_values(|p: Point| (p.0 * BOARD_SIZE + p.1) as u8) =~= self.0@.take(
                k as int,
            ).map_values(|p: Point| (p.0 * BOARD_SIZE + p.1) as u8).push(c));
            k += 1;
        }
        assert(self.0@.take(k as int) =~= self.0@);
        res
    }
}

/// A point written out reads back as itself: the text is a column letter
/// and one or two digits, with no comma and no whitespace at either end.
pub proof fn lemma_point_text_roundtrip(p: Point)
    requires
        p.valid(),
    ensures
        point_of_text(point_text(p)) == Some(p),
        point_text(p).len() >= 2,
        !whitespace(point_text(p)[0]),
        !whitespace(point_text(p).last()),
        forall|k: int| 0 <= k < point_text(p).len() ==> #[trigger] point_text(p)[k] != ',',
{
    let t = point_text(p);
    let n = (p.1 + 1) as u8;
    let c = column_char(p.0);
    assert(c as u32 == 65 + p.0);
    assert(column_of(c) == Some(p.0));
    let rest = decimal(n);
    assert(t == seq![c] + rest);
    assert(t.drop_first() =~= rest);
    if n < 10 {
        let d = ('0' as u32 + n) as char;
        assert(d as u32 == 48 + n);
        assert(rest =~= seq![d]);
        assert(rest.drop_last() =~= Seq::<char>::empty());
        assert(decimal_value(rest.drop_last()) == 0);
        assert(rest.last() == d);
        assert(decimal_value(rest) == 10 * decimal_value(rest.drop_last()) + (rest.last() as u32 - '0' as u32) as nat);
        assert(decimal_value(rest) == n);
    } else {
        let d1 = ('0' as u32 + n / 10) as char;
        let d2 = ('0' as u32 + n % 10) as char;
        assert(d1 as u32 == 48 + n / 10);
        assert(d2 as u32 == 48 + n % 10);
        assert(rest =~= seq![d1, d2]);
        assert(rest.drop_last() =~= seq![d1]);
        assert(rest.drop_last().drop_last() =~= Seq::<char>::empty());
        let one = rest.drop_last();
        assert(decimal_value(one.drop_last()) == 0);
        assert(one.last() == d1);
        assert(decimal_value(one) == 10 * decimal_value(one.drop_last()) + (one.last() as u32 - '0' as u32) as nat);
        assert(decimal_value(one) == n / 10);
        assert(rest.last() == d2);
        assert(decimal_value(rest) == 10 * decimal_value(one) + (rest.last() as u32 - '0' as u32) as nat);
        assert(decimal_value(rest) == n);
    }
    assert(trimmed(t) == t);
}

/// Points written out, cut at the commas, are the points written one by
/// one; the text starts with a column letter and ends with a digit.
proof fn lemma_points_text_parts(ps: Seq<Point>)
    requires
        ps.len() > 0,
        forall|k: int| 0 <= k < ps.len() ==> (#[trigger] ps[k]).valid(),
    ensures
        split_at(points_text(ps), ',') == ps.map_values(|p: Point| point_text(p)),
        points_text(ps).len() > 0,
        points_text(ps)[0] == point_text(ps[0])[0],
        points_text(ps).last() == point_text(ps.last()).last(),
    decreases ps.len(),
{
    let last = ps.last();
    assert(ps[ps.len() - 1] == last);
    lemma_point_text_roundtrip(last);
    if ps.len() == 1 {
        lemma_split_sep(Seq::empty(), point_text(last), ',');
        assert(ps.map_values(|p: Point| point_text(p)) =~= seq![point_text(last)]);
    } else {
        let init = ps.drop_last();
        assert forall|k: int| 0 <= k < init.len() implies (#[trigger] init[k]).valid() by {
            assert(init[k] == ps[k]);
        }
        lemma_points_text_parts(init);
        lemma_split_sep(points_text(init), point_text(last), ',');
        assert(ps.map_values(|p: Point| point_text(p)) =~= init.map_values(|p: Point| point_text(p)).push(point_text(last)));
        let t = points_text(ps);
        assert(t == points_text(init) + seq![','] + point_text(last));
        assert(t[0] == points_text(init)[0]);
        assert(init[0] == ps[0]);
    }
}

/// The parts of points written out read back as the points.
proof fn lemma_points_of_texts(ps: Seq<Point>)
    requires
        forall|k: int| 0 <= k < ps.len() ==> (#[trigger] ps[k]).valid(),
    ensures
        points_of_parts(ps.map_values(|p: Point| point_text(p))) == Some(ps),
    decreases ps.len(),
{
    if ps.len() > 0 {
        let init = ps.drop_last();
        assert forall|k: int| 0 <= k < init.len() implies (#[trigger] init[k]).valid() by {
            assert(init[k] == ps[k]);
        }
        lemma_points_of_texts(init);
        assert(ps[ps.len() - 1] == ps.last());
        lemma_point_text_roundtrip(ps.last());
        let parts = ps.map_values(|p: Point| point_text(p));
        assert(parts.drop_last() =~= init.map_values(|p: Point| point_text(p)));
        assert(init.push(ps.last()) =~= ps);
    }
}

/// Points written out by [`Points::to_string`] read back by
/// [`Points::parse`] as the same points, when there is at least one.
pub proof fn lemma_points_text_roundtrip(ps: Seq<Point>)
    requires
        ps.len() > 0,
        forall|k: int| 0 <= k < ps.len() ==> (#[trigger] ps[k]).valid(),
    ensures
        points_of_text(points_text(ps)) == Some(ps),
{
    lemma_points_text_parts(ps);
    lemma_point_text_roundtrip(ps[0]);
    lemma_point_text_roundtrip(ps.last());
    assert(ps[ps.len() - 1] == ps.last());
    let t = points_text(ps);
    assert(trimmed(t) == t);
    lemma_points_of_texts(ps);
}

} // verus!
