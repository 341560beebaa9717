//! Writing points, lines and boards as text, and reading them back.
use vstd::prelude::*;
use super::line::{Line, MAX_SIZE};
use super::util::bit_of;
use super::player::{Black, Player, White};
use super::point::{Point, Points, RANGE};

verus! {

/// `std`'s `String::push`: appends one character.
#[verifier::external_body]
pub(crate) fn push_char(s: &mut String, c: char)
    ensures
        final(s)@ == old(s)@.push(c),
{
    s.push(c);
}

/// Whether `c` has the Unicode `White_Space` property, which is what
/// `char::is_whitespace` tests: tab to carriage return, space, next line,
/// no-break space, ogham space mark, the en quad to the hair space, the
/// line and paragraph separators, the narrow no-break space, the medium
/// mathematical space and the ideographic space.
pub open spec fn whitespace(c: char) -> bool {
    let u = c as u32;
    ||| 0x09 <= u <= 0x0D
    ||| u == 0x20
    ||| u == 0x85
    ||| u == 0xA0
    ||| u == 0x1680
    ||| 0x2000 <= u <= 0x200A
    ||| u == 0x2028
    ||| u == 0x2029
    ||| u == 0x202F
    ||| u == 0x205F
    ||| u == 0x3000
}

/// Whether `c` is whitespace, as `char::is_whitespace` tells it.
pub fn is_whitespace(c: char) -> (res: bool)
    ensures
        res == whitespace(c),
{
    let u = c as u32;
    (0x09 <= u && u <= 0x0D) || u == 0x20 || u == 0x85 || u == 0xA0 || u == 0x1680 || (0x2000 <= u
        && u <= 0x200A) || u == 0x2028 || u == 0x2029 || u == 0x202F || u == 0x205F || u == 0x3000
}

/// The characters of `s`, in order.
pub fn chars_of(s: &str) -> (res: Vec<char>)
    ensures
        res@ == s@,
{
    let mut res: Vec<char> = Vec::new();
    for c in it: s.chars()
        invariant
            res@ == it.seq().take(it.index() as int),
    {
        res.push(c);
    }
    res
}

/// `cs` without its leading and trailing whitespace, as `str::trim` cuts it.
pub open spec fn trimmed(cs: Seq<char>) -> Seq<char>
    decreases cs.len(),
{
    if cs.len() > 0 && whitespace(cs[0]) {
        trimmed(cs.drop_first())
    } else if cs.len() > 0 && whitespace(cs.last()) {
        trimmed(cs.drop_last())
    } else {
        cs
    }
}

/// `cs` without its leading and trailing whitespace.
pub fn trim(cs: &Vec<char>) -> (res: Vec<char>)
    ensures
        res@ == trimmed(cs@),
{
    let mut a: usize = 0;
    let mut b: usize = cs.len();
    assert(cs@ =~= cs@.subrange(0, b as int));
    while a < b && is_whitespace(cs[a])
        invariant
            a <= b == cs@.len(),
            trimmed(cs@) == trimmed(cs@.subrange(a as int, b as int)),
        decreases b - a,
    {
        assert(cs@.subrange(a as int, b as int).drop_first() =~= cs@.subrange(a + 1, b as int));
        a += 1;
    }
    while a < b && is_whitespace(cs[b - 1])
        invariant
            a <= b <= cs@.len(),
            trimmed(cs@) == trimmed(cs@.subrange(a as int, b as int)),
            a < b ==> !whitespace(cs@[a as int]),
        decreases b - a,
    {
        assert(cs@.subrange(a as int, b as int).drop_last() =~= cs@.subrange(a as int, b - 1));
        b -= 1;
    }
    let mut res: Vec<char> = Vec::new();
    let mut k = a;
    while k < b
        invariant
            a <= k <= b <= cs@.len(),
            res@ == cs@.subrange(a as int, k as int),
        decreases b - k,
    {
        res.push(cs[k]);
        k += 1;
    }
    res
}

/// `cs` cut at every `sep`.
pub open spec fn split_at(cs: Seq<char>, sep: char) -> Seq<Seq<char>>
    decreases cs.len(),
{
    if cs.len() == 0 {
        seq![Seq::empty()]
    } else {
        let rest = split_at(cs.drop_last(), sep);
        if cs.last() == sep {
            rest.push(Seq::empty())
        } else {
            rest.update(rest.len() - 1, rest.last().push(cs.last()))
        }
    }
}

/// There is always a part.
proof fn lemma_split_len(cs: Seq<char>, sep: char)
    ensures
        split_at(cs, sep).len() >= 1,
    decreases cs.len(),
{
    if cs.len() > 0 {
        lemma_split_len(cs.drop_last(), sep);
    }
}

/// `cs` cut at every `sep`.
pub fn split_chars(cs: &Vec<char>, sep: char) -> (res: Vec<Vec<char>>)
    ensures
        res@.len() == split_at(cs@, sep).len(),
        forall|j: int| 0 <= j < res@.len() ==> (#[trigger] res@[j])@ == split_at(cs@, sep)[j],
{
    let mut done: Vec<Vec<char>> = Vec::new();
    let mut part: Vec<char> = Vec::new();
    let mut k: usize = 0;
    assert(cs@.take(0) =~= Seq::<char>::empty());
    while k < cs.len()
        invariant
            k <= cs@.len(),
            split_at(cs@.take(k as int), sep).len() == done@.len() + 1,
            forall|j: int| 0 <= j < done@.len() ==> (#[trigger] done@[j])@ == split_at(cs@.take(k as int), sep)[j],
            part@ == split_at(cs@.take(k as int), sep)[done@.len() as int],
        decreases cs@.len() - k,
    {
        assert(cs@.take(k + 1).drop_last() =~= cs@.take(k as int));
        if cs[k] == sep {
            done.push(part);
            part = Vec::new();
        } else {
            part.push(cs[k]);
        }
        k += 1;
    }
    done.push(part);
    assert(cs@.take(k as int) =~= cs@);
    done
}

/// The column of `c` (`A`-`O` or `a`-`o`), if it is one.
pub open spec fn column_of(c: char) -> Option<u8> {
    if 'A' <= c <= 'O' {
        Some((c as u32 - 'A' as u32) as u8)
    } else if 'a' <= c <= 'o' {
        Some((c as u32 - 'a' as u32) as u8)
    } else {
        None
    }
}

/// The value of a decimal digit.
pub open spec fn digit_of(c: char) -> Option<u8> {
    if '0' <= c <= '9' { Some((c as u32 - '0' as u32) as u8) } else { None }
}

/// What `u8::from_str` gives for one or two characters: an optional `+`
/// and decimal digits.
pub open spec fn number_of(cs: Seq<char>) -> Option<u8> {
    if cs.len() == 1 {
        digit_of(cs[0])
    } else if cs.len() == 2 {
        if cs[0] == '+' {
            digit_of(cs[1])
        } else {
            match (digit_of(cs[0]), digit_of(cs[1])) {
                (Some(a), Some(b)) => Some((10 * a + b) as u8),
                _ => None,
            }
        }
    } else {
        None
    }
}

/// The point written `cs`, trimmed, like `H8`: a column letter, then the
/// row number 1-15 (only the two characters after the letter are read).
pub open spec fn point_of_chars(cs: Seq<char>) -> Option<Point> {
    let t = trimmed(cs);
    if t.len() == 0 {
        None
    } else {
        match column_of(t[0]) {
            None => None,
            Some(x) => {
                let rest = t.drop_first();
                let digits = if rest.len() > 2 { rest.take(2) } else { rest };
                match number_of(digits) {
                    Some(n) => if 1 <= n <= RANGE { Some(Point(x, (n - 1) as u8)) } else { None },
                    None => None,
                }
            },
        }
    }
}

fn column(c: char) -> (res: Option<u8>)
    ensures
        res == column_of(c),
{
    if 'A' <= c && c <= 'O' {
        Some((c as u32 - 'A' as u32) as u8)
    } else if 'a' <= c && c <= 'o' {
        Some((c as u32 - 'a' as u32) as u8)
    } else {
        None
    }
}

fn digit(c: char) -> (res: Option<u8>)
    ensures
        res == digit_of(c),
{
    if '0' <= c && c <= '9' {
        Some((c as u32 - '0' as u32) as u8)
    } else {
        None
    }
}

/// What reading `cs` as a point fails with: the x part when the trimmed
/// text does not start with a column letter, else the y part.
pub open spec fn point_error(cs: Seq<char>) -> Seq<char> {
    let t = trimmed(cs);
    if t.len() == 0 || column_of(t[0]) is None {
        "Failed to parse x part."@
    } else {
        "Failed to parse y part."@
    }
}

/// Reads a point written like `H8` or `h8`, with whitespace around it.
pub fn parse_point(cs: &Vec<char>) -> (res: Result<Point, &'static str>)
    ensures
        res is Ok <==> point_of_chars(cs@) is Some,
        res matches Ok(p) ==> point_of_chars(cs@) == Some(p) && p.valid(),
        res matches Err(e) ==> e@ == point_error(cs@),
{
    let t = trim(cs);
    if t.len() == 0 {
        return Err("Failed to parse x part.");
    }
    let x = match column(t[0]) {
        Some(x) => x,
        None => return Err("Failed to parse x part."),
    };
    let n = t.len() - 1;
    let ghost rest = t@.drop_first();
    let ghost digits = if rest.len() > 2 { rest.take(2) } else { rest };
    let number = if n == 1 {
        digit(t[1])
    } else if n >= 2 {
        if t[1] == '+' {
            digit(t[2])
        } else {
            match (digit(t[1]), digit(t[2])) {
                (Some(a), Some(b)) => Some(10 * a + b),
                _ => None,
            }
        }
    } else {
        None
    };
    assert(number == number_of(digits));
    match number {
        Some(n) => {
            if 1 <= n && n <= RANGE {
                Ok(Point(x, n - 1))
            } else {
                Err("Failed to parse y part.")
            }
        },
        None => Err("Failed to parse y part."),
    }
}

/// The column letter of `x` (`A` for 0).
pub open spec fn column_char(x: u8) -> char {
    ('A' as u32 + x) as char
}

/// The decimal digits of `n`.
pub open spec fn decimal(n: u8) -> Seq<char> {
    if n < 10 {
        seq![('0' as u32 + n) as char]
    } else if n < 100 {
        seq![('0' as u32 + n / 10) as char, ('0' as u32 + n % 10) as char]
    } else {
        seq![('0' as u32 + n / 100) as char, ('0' as u32 + (n / 10) % 10) as char, ('0' as u32 + n % 10) as char]
    }
}

/// Whether a point can be written: its column letter is a character after
/// `A` within a byte, and its row from 1 fits a byte.
pub open spec fn printable(p: Point) -> bool {
    p.0 <= 190 && p.1 < 255
}

/// A point written like `H8`.
pub open spec fn point_text(p: Point) -> Seq<char> {
    seq![column_char(p.0)] + decimal((p.1 + 1) as u8)
}

pub(crate) fn push_point(s: &mut String, x: u8, y: u8)
    requires
        printable(Point(x, y)),
    ensures
        final(s)@ == old(s)@ + seq![column_char(x)] + decimal((y + 1) as u8),
{
    let c = ('A' as u8 + x) as char;
    push_char(s, c);
    let y = y + 1;
    if y < 10 {
        push_char(s, ('0' as u8 + y) as char);
    } else if y < 100 {
        push_char(s, ('0' as u8 + y / 10) as char);
        push_char(s, ('0' as u8 + y % 10) as char);
    } else {
        push_char(s, ('0' as u8 + y / 100) as char);
        push_char(s, ('0' as u8 + (y / 10) % 10) as char);
        push_char(s, ('0' as u8 + y % 10) as char);
    }
    assert(final(s)@ =~= old(s)@ + seq![column_char(x)] + decimal(y));
}

/// Points written one after another, separated by commas.
pub open spec fn points_text(ps: Seq<Point>) -> Seq<char>
    decreases ps.len(),
{
    if ps.len() == 0 {
        Seq::empty()
    } else if ps.len() == 1 {
        point_text(ps[0])
    } else {
        points_text(ps.drop_last()) + seq![','] + point_text(ps.last())
    }
}

impl Point {
    /// The point written like `H8`: its column letter, then its row from 1.
    pub fn to_string(&self) -> (res: String)
        requires
            printable(*self),
        ensures
            res@ == point_text(*self),
    {
        let mut res = String::new();
        push_point(&mut res, self.0, self.1);
        assert(res@ =~= point_text(*self));
        res
    }

    /// Reads a point written like `H8` or `h8`.
    pub fn parse(s: &str) -> (res: Result<Point, &'static str>)
        ensures
            res is Ok <==> point_of_chars(s@) is Some,
            res matches Ok(p) ==> point_of_chars(s@) == Some(p) && p.valid(),
            res matches Err(e) ==> e@ == point_error(s@),
    {
        parse_point(&chars_of(s))
    }

    /// The point's one-byte code, `x * 15 + y`.
    pub fn code(&self) -> (res: u8)
        requires
            self.valid(),
        ensures
            res == self.0 * RANGE + self.1,
    {
        self.0 * RANGE + self.1
    }

    /// The point with code `value`, if there is one.
    pub fn from_code(value: u8) -> (res: Result<Point, &'static str>)
        ensures
            res is Ok <==> value / RANGE < RANGE,
            res matches Ok(p) ==> p == Point(value / RANGE, value % RANGE) && p.valid(),
            res matches Err(e) ==> e@ == "Invalid code"@,
    {
        let x = value / RANGE;
        let y = value % RANGE;
        if x < RANGE && y < RANGE {
            Ok(Point(x, y))
        } else {
            Err("Invalid code")
        }
    }
}

/// A point's code names the point again, and every code below 225 is
/// the code of a point of the board: [`Point::from_code`] undoes
/// [`Point::code`], and the other way round.
pub proof fn lemma_code_roundtrip(p: Point, c: u8)
    ensures
        p.valid() ==> (p.0 * RANGE + p.1) < 225 && (p.0 * RANGE + p.1) / (RANGE as int) == p.0 && (p.0
            * RANGE + p.1) % (RANGE as int) == p.1,
        c < 225 ==> c / RANGE < RANGE && (c / RANGE) * RANGE + c % RANGE == c,
{
    assert(p.valid() ==> (p.0 * 15 + p.1) < 225 && (p.0 * 15 + p.1) / 15 == p.0 && (p.0 * 15 + p.1) % 15
        == p.1) by (nonlinear_arith);
    assert(c < 225 ==> c / 15 < 15 && (c / 15) * 15 + c % 15 == c) by (nonlinear_arith);
}

impl Points {
    /// The points written like `H8,I9`.
    pub fn to_string(&self) -> (res: String)
        requires
            forall|k: int| 0 <= k < self.0@.len() ==> printable(#[trigger] self.0@[k]),
        ensures
            res@ == points_text(self.0@),
    {
        let mut res = String::new();
        let mut k: usize = 0;
        while k < self.0.len()
            invariant
                k <= self.0@.len(),
                forall|m: int| 0 <= m < self.0@.len() ==> printable(#[trigger] self.0@[m]),
                res@ == points_text(self.0@.take(k as int)),
            decreases self.0@.len() - k,
        {
            if k > 0 {
                push_char(&mut res, ',');
            }
            let p = self.0[k];
            push_point(&mut res, p.0, p.1);
            assert(self.0@.take(k + 1).drop_last() =~= self.0@.take(k as int));
            k += 1;
        }
        assert(self.0@.take(k as int) =~= self.0@);
        res
    }

    /// Reads points written like `H8,I9`, each part read as a point.
    pub fn parse(s: &str) -> (res: Result<Points, &'static str>)
        ensures
            res is Ok <==> points_written(s@) is Some,
            res matches Ok(ps) ==> points_written(s@) == Some(ps.0@),
            res matches Ok(ps) ==> forall|k: int| 0 <= k < ps.0@.len() ==> (#[trigger] ps.0@[k]).valid(),
            res matches Err(e) ==> e@ == points_text_error(s@),
    {
        Self::parse_chars(&chars_of(s))
    }

    /// [`Self::parse`], from the characters.
    pub fn parse_chars(cs: &Vec<char>) -> (res: Result<Points, &'static str>)
        ensures
            res is Ok <==> points_written(cs@) is Some,
            res matches Ok(ps) ==> points_written(cs@) == Some(ps.0@),
            res matches Ok(ps) ==> forall|k: int| 0 <= k < ps.0@.len() ==> (#[trigger] ps.0@[k]).valid(),
            res matches Err(e) ==> e@ == points_text_error(cs@),
    {
        let t = trim(cs);
        let parts = split_chars(&t, ',');
        let ghost whole = split_at(t@, ',');
        let mut ps: Vec<Point> = Vec::new();
        let mut k: usize = 0;
        assert(whole.take(0) =~= Seq::<Seq<char>>::empty());
        while k < parts.len()
            invariant
                t@ == trimmed(cs@),
                whole == split_at(t@, ','),
                parts@.len() == whole.len(),
                forall|j: int| 0 <= j < parts@.len() ==> (#[trigger] parts@[j])@ == whole[j],
                k <= parts@.len(),
                points_of_parts(whole.take(k as int)) == Some(ps@),
                forall|m: int| 0 <= m < ps@.len() ==> (#[trigger] ps@[m]).valid(),
            decreases parts@.len() - k,
        {
            assert(whole.take(k + 1).drop_last() =~= whole.take(k as int));
            match parse_point(&parts[k]) {
                Ok(p) => {
                    ps.push(p);
                },
                Err(e) => {
                    proof {
                        if points_of_parts(whole) is Some {
                            lemma_points_of_parts(whole, k as int);
                        }
                        assert(points_of_parts(whole.take(k + 1)) is None);
                        assert(whole.take(k + 1).last() == whole[k as int]);
                        assert(points_error(whole.take(k + 1)) == point_error(whole[k as int]));
                        lemma_points_error_prefix(whole, k + 1);
                    }
                    return Err(e);
                },
            }
            k += 1;
        }
        assert(whole.take(k as int) =~= whole);
        Ok(Points(ps))
    }
}

/// The points written by `parts`, one each, if each part writes one.
pub open spec fn points_of_parts(parts: Seq<Seq<char>>) -> Option<Seq<Point>>
    decreases parts.len(),
{
    if parts.len() == 0 {
        Some(Seq::empty())
    } else {
        match (points_of_parts(parts.drop_last()), point_of_chars(parts.last())) {
            (Some(ps), Some(p)) => Some(ps.push(p)),
            _ => None,
        }
    }
}

/// The points written `cs`, trimmed, separated by commas.
pub open spec fn points_written(cs: Seq<char>) -> Option<Seq<Point>> {
    points_of_parts(split_at(trimmed(cs), ','))
}

/// What reading `parts` as points fails with: the error of the first part
/// that is no point.
pub open spec fn points_error(parts: Seq<Seq<char>>) -> Seq<char>
    decreases parts.len(),
{
    if parts.len() == 0 {
        Seq::empty()
    } else if points_of_parts(parts.drop_last()) is None {
        points_error(parts.drop_last())
    } else {
        point_error(parts.last())
    }
}

/// What reading `cs` as points written like `H8,I9` fails with.
pub open spec fn points_text_error(cs: Seq<char>) -> Seq<char> {
    points_error(split_at(trimmed(cs), ','))
}

/// Once some first parts are no points, neither are all of them.
proof fn lemma_parts_fail_extend(parts: Seq<Seq<char>>, m: int)
    requires
        0 <= m <= parts.len(),
        points_of_parts(parts.take(m)) is None,
    ensures
        points_of_parts(parts) is None,
    decreases parts.len(),
{
    if m == parts.len() {
        assert(parts.take(m) =~= parts);
    } else {
        assert(parts.drop_last().take(m) =~= parts.take(m));
        lemma_parts_fail_extend(parts.drop_last(), m);
    }
}

/// The error of reading parts is that of the first prefix that fails.
proof fn lemma_points_error_prefix(parts: Seq<Seq<char>>, m: int)
    requires
        0 < m <= parts.len(),
        points_of_parts(parts.take(m)) is None,
    ensures
        points_error(parts) == points_error(parts.take(m)),
    decreases parts.len(),
{
    if m == parts.len() {
        assert(parts.take(m) =~= parts);
    } else {
        let init = parts.drop_last();
        assert(init.take(m) =~= parts.take(m));
        lemma_parts_fail_extend(init, m);
        lemma_points_error_prefix(init, m);
    }
}

/// Points are read from every part or from none.
proof fn lemma_points_of_parts(parts: Seq<Seq<char>>, j: int)
    requires
        0 <= j < parts.len(),
        points_of_parts(parts) is Some,
    ensures
        point_of_chars(parts[j]) is Some,
    decreases parts.len(),
{
    if j < parts.len() - 1 {
        lemma_points_of_parts(parts.drop_last(), j);
    }
}

/// The character for `cell` in a line written out: ` o`, ` x` or ` .`.
pub open spec fn cell_text(cell: Option<Player>) -> Seq<char> {
    match cell {
        Some(Black) => seq![' ', 'o'],
        Some(White) => seq![' ', 'x'],
        None => seq![' ', '.'],
    }
}

/// The first `n` cells of a line written out.
pub open spec fn line_text(line: Line, n: nat) -> Seq<char>
    decreases n,
{
    if n == 0 {
        Seq::empty()
    } else {
        line_text(line, (n - 1) as nat) + cell_text(line.cell(n - 1))
    }
}

/// The player a character of a written line stands for.
pub open spec fn player_of_char(c: char) -> Option<Player> {
    if c == 'o' { Some(Black) } else if c == 'x' { Some(White) } else { None }
}

/// `cs` without its whitespace.
pub open spec fn without_whitespace(cs: Seq<char>) -> Seq<char> {
    cs.filter(|c: char| !whitespace(c))
}

impl Line {
    /// The line written out, a cell at a time: ` o . x`.
    pub fn to_string(&self) -> (res: String)
        requires
            self.size <= 16,
        ensures
            res@ == line_text(*self, self.size as nat),
    {
        let mut res = String::new();
        let mut i: u8 = 0;
        while i < self.size
            invariant
                i <= self.size <= 16,
                res@ == line_text(*self, i as nat),
            decreases self.size - i,
        {
            push_char(&mut res, ' ');
            let c = match self.stone(i) {
                Some(r) => r.to_char(),
                None => '.',
            };
            push_char(&mut res, c);
            assert(res@ =~= line_text(*self, (i + 1) as nat));
            i += 1;
        }
        res
    }

    /// Reads a line written one character a cell, `o` for Black, `x` for
    /// White and anything else for an empty cell; whitespace is skipped.
    pub fn parse(s: &str) -> (res: Result<Line, &'static str>)
        ensures
            res is Ok <==> without_whitespace(s@).len() <= MAX_SIZE,
            res matches Err(e) ==> e@ == "Wrong length."@,
            res matches Ok(line) ==> line.wf() && line.size == without_whitespace(s@).len()
                && forall|i: int|
                0 <= i < line.size ==> #[trigger] line.cell(i) == player_of_char(
                    without_whitespace(s@)[i],
                ),
            res matches Ok(line) ==> forall|i: int| line.size <= i < 16 ==> #[trigger] line.cell(i) is None,
    {
        Self::parse_chars(&chars_of(s))
    }

    /// [`Self::parse`], from the characters.
    pub fn parse_chars(all: &Vec<char>) -> (res: Result<Line, &'static str>)
        ensures
            res is Ok <==> without_whitespace(all@).len() <= MAX_SIZE,
            res matches Err(e) ==> e@ == "Wrong length."@,
            res matches Ok(line) ==> line.wf() && line.size == without_whitespace(all@).len()
                && forall|i: int|
                0 <= i < line.size ==> #[trigger] line.cell(i) == player_of_char(
                    without_whitespace(all@)[i],
                ),
                res matches Ok(line) ==> forall|i: int| line.size <= i < 16 ==> #[trigger] line.cell(i) is None,
    {
        let mut chars: Vec<char> = Vec::new();
        let mut k: usize = 0;
        while k < all.len()
            invariant
                k <= all@.len(),
                chars@ == without_whitespace(all@.take(k as int)),
            decreases all@.len() - k,
        {
            let c = all[k];
            if !is_whitespace(c) {
                chars.push(c);
            }
            proof {
                reveal_with_fuel(Seq::<_>::filter, 1);
                assert(all@.take(k + 1).drop_last() =~= all@.take(k as int));
            }
            k += 1;
        }
        assert(all@.take(k as int) =~= all@);
        if chars.len() > MAX_SIZE as usize {
            return Err("Wrong length.");
        }
        let mut line = Line::new(chars.len() as u8);
        assert forall|m: int| 0 <= m < 16 implies #[trigger] line.cell(m) is None by {
            let mm = m as u16;
            assert((0u16 >> mm) & 1 == 0) by (bit_vector);
        }
        let mut i: usize = 0;
        while i < chars.len()
            invariant
                chars@.len() <= MAX_SIZE,
                i <= chars@.len(),
                line.wf(),
                line.size == chars@.len(),
                forall|m: int| 0 <= m < i ==> #[trigger] line.cell(m) == player_of_char(chars@[m]),
                forall|m: int| i <= m < 16 ==> #[trigger] line.cell(m) is None,
            decreases chars@.len() - i,
        {
            let c = chars[i];
            if c == 'o' {
                line.put_mut(Black, i as u8);
            } else if c == 'x' {
                line.put_mut(White, i as u8);
            }
            i += 1;
        }
        Ok(line)
    }
}

/// The character a cell is written with, without the space before it.
pub open spec fn cell_char(cell: Option<Player>) -> char {
    match cell {
        Some(Black) => 'o',
        Some(White) => 'x',
        None => '.',
    }
}

/// A line written out is, without its whitespace, one character a cell.
pub proof fn lemma_line_text_chars(line: Line, n: nat)
    ensures
        without_whitespace(line_text(line, n)) == Seq::new(n, |i: int| cell_char(line.cell(i))),
    decreases n,
{
    if n > 0 {
        lemma_line_text_chars(line, (n - 1) as nat);
        let pred = |c: char| !whitespace(c);
        let head = line_text(line, (n - 1) as nat);
        let tail = cell_text(line.cell(n - 1));
        Seq::filter_distributes_over_add(head, tail, pred);
        assert(tail =~= seq![' ', cell_char(line.cell(n - 1))]);
        reveal_with_fuel(Seq::<_>::filter, 3);
        assert(tail.drop_last() =~= seq![' ']);
        assert(tail.drop_last().drop_last() =~= Seq::<char>::empty());
        assert(tail.filter(pred) =~= seq![cell_char(line.cell(n - 1))]);
        assert(without_whitespace(line_text(line, n)) =~= Seq::new(n, |i: int| cell_char(line.cell(i))));
    }
}

/// Two masks with the same sixteen bits are the same.
pub proof fn lemma_same_bits(x: u16, y: u16)
    by (bit_vector)
    requires
        bit_of(x, 0u16) == bit_of(y, 0u16),
        bit_of(x, 1u16) == bit_of(y, 1u16),
        bit_of(x, 2u16) == bit_of(y, 2u16),
        bit_of(x, 3u16) == bit_of(y, 3u16),
        bit_of(x, 4u16) == bit_of(y, 4u16),
        bit_of(x, 5u16) == bit_of(y, 5u16),
        bit_of(x, 6u16) == bit_of(y, 6u16),
        bit_of(x, 7u16) == bit_of(y, 7u16),
        bit_of(x, 8u16) == bit_of(y, 8u16),
        bit_of(x, 9u16) == bit_of(y, 9u16),
        bit_of(x, 10u16) == bit_of(y, 10u16),
        bit_of(x, 11u16) == bit_of(y, 11u16),
        bit_of(x, 12u16) == bit_of(y, 12u16),
        bit_of(x, 13u16) == bit_of(y, 13u16),
        bit_of(x, 14u16) == bit_of(y, 14u16),
        bit_of(x, 15u16) == bit_of(y, 15u16),
    ensures
        x == y,
{
}

/// Two lines as the board keeps them with the same size and the same
/// stone on every cell are the same line.
pub proof fn lemma_same_cells(a: Line, b: Line)
    requires
        a.wf(),
        b.wf(),
        a.size == b.size,
        forall|i: int| 0 <= i < 16 ==> #[trigger] a.cell(i) == b.cell(i),
    ensures
        a == b,
{
    assert forall|k: u16| k < 16 implies bit_of(a.blacks, k) == bit_of(b.blacks, k) && bit_of(a.whites, k) == bit_of(
        b.whites,
        k,
    ) by {
        super::util::lemma_u16_bits(a.blacks, a.whites, 0, k, 0);
        super::util::lemma_u16_bits(b.blacks, b.whites, 0, k, 0);
        assert(a.cell(k as int) == b.cell(k as int));
    }
    lemma_same_bits(a.blacks, b.blacks);
    lemma_same_bits(a.whites, b.whites);
}

/// A line written out by [`Line::to_string`] and read back by
/// [`Line::parse`] is the line again, when no stone of it lies past its
/// last cell: the text holds one cell a character, and whatever line the
/// reading gives (`read`) is this one.
pub proof fn lemma_line_text_roundtrip(line: Line, read: Line)
    requires
        line.wf(),
        forall|i: int| line.size <= i < 16 ==> #[trigger] line.cell(i) is None,
        read.wf(),
        read.size == without_whitespace(line_text(line, line.size as nat)).len(),
        forall|i: int|
            0 <= i < read.size ==> #[trigger] read.cell(i) == player_of_char(
                without_whitespace(line_text(line, line.size as nat))[i],
            ),
        forall|i: int| read.size <= i < 16 ==> #[trigger] read.cell(i) is None,
    ensures
        without_whitespace(line_text(line, line.size as nat)).len() == line.size,
        read == line,
{
    lemma_line_text_chars(line, line.size as nat);
    assert forall|i: int| 0 <= i < 16 implies #[trigger] read.cell(i) == line.cell(i) by {
        if i < line.size {
            assert(read.cell(i) == player_of_char(cell_char(line.cell(i))));
        }
    }
    lemma_same_cells(read, line);
}

/// Trimming takes off whitespace only: what is left without whitespace
/// is the same.
pub proof fn lemma_trimmed_text(cs: Seq<char>)
    ensures
        without_whitespace(trimmed(cs)) == without_whitespace(cs),
    decreases cs.len(),
{
    let pred = |c: char| !whitespace(c);
    if cs.len() > 0 && whitespace(cs[0]) {
        lemma_trimmed_text(cs.drop_first());
        Seq::filter_distributes_over_add(seq![cs[0]], cs.drop_first(), pred);
        assert(seq![cs[0]] + cs.drop_first() =~= cs);
        reveal_with_fuel(Seq::<_>::filter, 2);
        assert(seq![cs[0]].drop_last() =~= Seq::<char>::empty());
        assert(seq![cs[0]].filter(pred) =~= Seq::<char>::empty());
    } else if cs.len() > 0 && whitespace(cs.last()) {
        lemma_trimmed_text(cs.drop_last());
        reveal_with_fuel(Seq::<_>::filter, 1);
    }
}

/// Cutting text that ends in a run free of `sep` adds that run to the
/// last part.
pub proof fn lemma_split_tail(x: Seq<char>, b: Seq<char>, sep: char)
    requires
        forall|k: int| 0 <= k < b.len() ==> b[k] != sep,
    ensures
        split_at(x + b, sep) == split_at(x, sep).update(
            split_at(x, sep).len() - 1,
            split_at(x, sep).last() + b,
        ),
    decreases b.len(),
{
    lemma_split_len(x, sep);
    if b.len() == 0 {
        assert(x + b =~= x);
        assert(split_at(x, sep).last() + b =~= split_at(x, sep).last());
        assert(split_at(x, sep).update(split_at(x, sep).len() - 1, split_at(x, sep).last()) =~= split_at(x, sep));
    } else {
        lemma_split_tail(x, b.drop_last(), sep);
        assert((x + b).drop_last() =~= x + b.drop_last());
        assert((split_at(x, sep).last() + b.drop_last()).push(b.last()) =~= split_at(x, sep).last() + b);
        assert(split_at(x + b, sep) =~= split_at(x, sep).update(split_at(x, sep).len() - 1, split_at(x, sep).last() + b));
    }
}

/// Cutting `x`, a `sep` and a run free of `sep` gives the parts of `x` and
/// then the run.
pub proof fn lemma_split_sep(x: Seq<char>, b: Seq<char>, sep: char)
    requires
        forall|k: int| 0 <= k < b.len() ==> b[k] != sep,
    ensures
        split_at(x + seq![sep] + b, sep) == split_at(x, sep).push(b),
        split_at(b, sep) == seq![b],
{
    lemma_split_tail(x + seq![sep], b, sep);
    assert((x + seq![sep]).drop_last() =~= x);
    assert(Seq::<char>::empty() + b =~= b);
    assert(split_at(x + seq![sep], sep) == split_at(x, sep).push(Seq::empty()));
    assert(split_at(x, sep).push(Seq::empty()).update(split_at(x, sep).len() as int, b) =~= split_at(x, sep).push(b));
    lemma_split_tail(Seq::empty(), b, sep);
    assert(Seq::<char>::empty() + b =~= b);
    assert(seq![Seq::<char>::empty()].update(0, b) =~= seq![b]);
}

/// A point written out reads back as itself: the text is a column letter
/// and one or two digits, with no comma and no whitespace at either end.
pub proof fn lemma_point_text_roundtrip(p: Point)
    requires
        p.valid(),
    ensures
        point_of_chars(point_text(p)) == Some(p),
        point_text(p).len() >= 2,
        !whitespace(point_text(p)[0]),
        !whitespace(point_text(p).last()),
        forall|k: int| 0 <= k < point_text(p).len() ==> #[trigger] point_text(p)[k] != ',',
{
    let t = point_text(p);
    let n = (p.1 + 1) as u8;
    let c = column_char(p.0);
    assert(c as u32 == 65 + p.0);
    assert(column_of(c) == Some(p.0));
    let rest = decimal(n);
    assert(t == seq![c] + rest);
    assert(t.drop_first() =~= rest);
    if n < 10 {
        let d = ('0' as u32 + n) as char;
        assert(d as u32 == 48 + n);
        assert(rest =~= seq![d]);
        assert(digit_of(d) == Some(n));
    } else {
        let d1 = ('0' as u32 + n / 10) as char;
        let d2 = ('0' as u32 + n % 10) as char;
        assert(d1 as u32 == 48 + n / 10);
        assert(d2 as u32 == 48 + n % 10);
        assert(rest =~= seq![d1, d2]);
        assert(digit_of(d1) == Some(n / 10));
        assert(digit_of(d2) == Some(n % 10));
        assert(d1 != '+');
    }
    assert(trimmed(t) == t);
}

/// Points written out, cut at the commas, are the points written one by
/// one; the text starts with a column letter and ends with a digit.
proof fn lemma_points_text_parts(ps: Seq<Point>)
    requires
        ps.len() > 0,
        forall|k: int| 0 <= k < ps.len() ==> (#[trigger] ps[k]).valid(),
    ensures
        split_at(points_text(ps), ',') == ps.map_values(|p: Point| point_text(p)),
        points_text(ps).len() > 0,
        points_text(ps)[0] == point_text(ps[0])[0],
        points_text(ps).last() == point_text(ps.last()).last(),
    decreases ps.len(),
{
    let last = ps.last();
    assert(ps[ps.len() - 1] == last);
    lemma_point_text_roundtrip(last);
    if ps.len() == 1 {
        lemma_split_sep(Seq::empty(), point_text(last), ',');
        assert(ps.map_values(|p: Point| point_text(p)) =~= seq![point_text(last)]);
    } else {
        let init = ps.drop_last();
        assert forall|k: int| 0 <= k < init.len() implies (#[trigger] init[k]).valid() by {
            assert(init[k] == ps[k]);
        }
        lemma_points_text_parts(init);
        lemma_split_sep(points_text(init), point_text(last), ',');
        assert(ps.map_values(|p: Point| point_text(p)) =~= init.map_values(|p: Point| point_text(p)).push(point_text(last)));
        let t = points_text(ps);
        assert(t == points_text(init) + seq![','] + point_text(last));
        assert(t[0] == points_text(init)[0]);
        assert(init[0] == ps[0]);
    }
}

/// The parts of points written out read back as the points.
proof fn lemma_points_of_texts(ps: Seq<Point>)
    requires
        forall|k: int| 0 <= k < ps.len() ==> (#[trigger] ps[k]).valid(),
    ensures
        points_of_parts(ps.map_values(|p: Point| point_text(p))) == Some(ps),
    decreases ps.len(),
{
    if ps.len() > 0 {
        let init = ps.drop_last();
        assert forall|k: int| 0 <= k < init.len() implies (#[trigger] init[k]).valid() by {
            assert(init[k] == ps[k]);
        }
        lemma_points_of_texts(init);
        assert(ps[ps.len() - 1] == ps.last());
        lemma_point_text_roundtrip(ps.last());
        let parts = ps.map_values(|p: Point| point_text(p));
        assert(parts.drop_last() =~= init.map_values(|p: Point| point_text(p)));
        assert(init.push(ps.last()) =~= ps);
    }
}

/// Points written out by [`Points::to_string`] read back by
/// [`Points::parse`] as the same points, when there is at least one.
pub proof fn lemma_points_text_roundtrip(ps: Seq<Point>)
    requires
        ps.len() > 0,
        forall|k: int| 0 <= k < ps.len() ==> (#[trigger] ps[k]).valid(),
    ensures
        points_written(points_text(ps)) == Some(ps),
{
    lemma_points_text_parts(ps);
    lemma_point_text_roundtrip(ps[0]);
    lemma_point_text_roundtrip(ps.last());
    assert(ps[ps.len() - 1] == ps.last());
    let t = points_text(ps);
    assert(trimmed(t) == t);
    lemma_points_of_texts(ps);
}

} // verus!
