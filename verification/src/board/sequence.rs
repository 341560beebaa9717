use vstd::prelude::*;
use super::segment::VICTORY;
use super::util::{ones5, positions, positions_of};

verus! {

/// The five cells of a window, bits 1-5 of the shifted stones.
pub const TARGET_MASK: u8 = 0b00111110;
/// The cells just outside the window.
pub const MARGIN_MASK: u8 = 0b01000001;
/// The first four cells of the window.
pub const HEAD_MASK: u8 = 0b00011110;
/// The last cell of the window.
pub const LAST_MASK: u8 = 0b00100000;

/// How [`Sequences`] matches a 5-cell window `i` holding exactly `n` own
/// stones.
///
/// - `Single`: window `i` alone.
/// - `Double`: windows `i-1` and `i` both match, i.e. a 6-cell span.
/// - `Open`: the `Double` case whose ends `i-1` and `i+4` are both empty,
///   so the `n` stones lie in the middle 4 cells with open ends on both
///   sides.
#[derive(Debug, PartialEq, Eq, Clone, Copy, Structural)]
pub enum SequenceKind {
    Single,
    Double,
    Open,
}

pub use SequenceKind::{Double, Open, Single};

/// The stones of one window, bit `k` for cell `k` of it.
#[derive(Debug, PartialEq, Eq, Clone, Copy, Structural)]
pub struct Sequence(pub u8);

impl Sequence {
    /// The cells (0-4) of the window holding a stone.
    pub fn stones(&self) -> (res: Vec<u8>)
        requires
            self.0 < 32,
        ensures
            res@ == positions(self.0 as u16, 5),
    {
        positions_of(self.0 as u16, 5)
    }

    /// The empty cells (0-4) of the window: where the player still has to
    /// play.
    pub fn eyes(&self) -> (res: Vec<u8>)
        requires
            self.0 < 32,
        ensures
            res@ == positions((!self.0 & 0b11111) as u16, 5),
    {
        positions_of((!self.0 & 0b11111) as u16, 5)
    }
}

/// The windows of a line where one player has a sequence of one kind, as
/// `(i, sequence)`, `i` being where the window starts.
pub struct Sequences {
    pub my: u16,
    pub op: u16,
    pub k: SequenceKind,
    pub n: u8,
    pub exact: bool,
    pub limit: u8,
    pub i: u8,
    pub prev_ok: bool,
}

/// Whether window `j` matches on its own: what a `Single` walk emits there.
pub open spec fn single_hit(s: Sequences, j: int) -> bool {
    window_step(s, j as u8, false).0 is Some
}

/// The stones of window `j`: bits 1-5 of the shifted stones.
pub open spec fn window_bits(s: Sequences, j: int) -> u8 {
    (s.my >> (j as u8)) as u8 & TARGET_MASK
}

/// A `Single` walk lists the windows from `i` to the limit that match, in
/// increasing order, each with its stones; a match holds `n` stones.
pub proof fn lemma_emits_single(s: Sequences, i: int, prev_ok: bool)
    requires
        s.k == Single,
        s.limit < 16,
        0 <= i,
    ensures
        forall|m: int|
            0 <= m < emits(s, i, prev_ok).len() ==> {
                let e = #[trigger] emits(s, i, prev_ok)[m];
                &&& i <= e.0 <= s.limit
                &&& single_hit(s, e.0 as int)
                &&& e.1 == Sequence(window_bits(s, e.0 as int) >> 1)
                &&& ones8(window_bits(s, e.0 as int)) == s.n
            },
        forall|a: int, b: int|
            0 <= a < b < emits(s, i, prev_ok).len() ==> #[trigger] emits(s, i, prev_ok)[a].0
                < #[trigger] emits(s, i, prev_ok)[b].0,
        forall|j: int|
            i <= j <= s.limit && single_hit(s, j) ==> exists|m: int|
                0 <= m < emits(s, i, prev_ok).len() && #[trigger] emits(s, i, prev_ok)[m].0 == j,
    decreases s.limit + 1 - i,
{
    if i <= s.limit {
        let (out, next_ok) = window_step(s, i as u8, prev_ok);
        lemma_emits_single(s, i + 1, next_ok);
        let rest = emits(s, i + 1, next_ok);
        let all = emits(s, i, prev_ok);
        assert(window_step(s, i as u8, prev_ok).0 == window_step(s, i as u8, false).0);
        match out {
            Some(x) => {
                assert(all == seq![x] + rest);
                assert forall|m: int| 0 <= m < all.len() implies {
                    let e = #[trigger] all[m];
                    &&& i <= e.0 <= s.limit
                    &&& single_hit(s, e.0 as int)
                    &&& e.1 == Sequence(window_bits(s, e.0 as int) >> 1)
                    &&& ones8(window_bits(s, e.0 as int)) == s.n
                } by {
                    if m > 0 {
                        assert(all[m] == rest[m - 1]);
                    }
                }
                assert forall|a: int, b: int| 0 <= a < b < all.len() implies #[trigger] all[a].0 < #[trigger] all[b].0 by {
                    assert(all[b] == rest[b - 1]);
                    if a > 0 {
                        assert(all[a] == rest[a - 1]);
                    }
                }
                assert forall|j: int| i <= j <= s.limit && single_hit(s, j) implies exists|m: int|
                    0 <= m < all.len() && #[trigger] all[m].0 == j by {
                    if j == i {
                        assert(all[0].0 == j);
                    } else {
                        let m = choose|m: int| 0 <= m < rest.len() && #[trigger] rest[m].0 == j;
                        assert(all[m + 1] == rest[m]);
                    }
                }
            },
            None => {
                assert(all == rest);
            },
        }
    } else {
        assert(emits(s, i, prev_ok).len() == 0);
    }
}

/// Whether window `j` is a match on its own: free of the opponent (and,
/// if `exact`, with no own stone just outside it) and holding `n` own
/// stones.
pub open spec fn window_match(s: Sequences, j: int) -> bool {
    let op_ = (s.op >> (j as u8)) as u8;
    let my_ = (s.my >> (j as u8)) as u8;
    &&& !(op_ & TARGET_MASK != 0 || (s.exact && my_ & MARGIN_MASK != 0))
    &&& ones8(window_bits(s, j)) == s.n
}

/// Whether a `Double` or `Open` walk that started at window `first` has a
/// match at window `j`: windows `j - 1` and `j` both match (a six-cell
/// span), and for `Open` the last cell of window `j` holds no own stone,
/// so the `n` stones lie in the four middle cells and both ends are empty.
pub open spec fn double_hit(s: Sequences, j: int, first: int) -> bool {
    &&& first < j
    &&& window_match(s, j - 1)
    &&& window_match(s, j)
    &&& (s.k == Open ==> ones8(window_bits(s, j) & HEAD_MASK) == s.n)
}

/// What a `Double` or `Open` walk gives at a match: the window's stones,
/// and for `Open` the four middle stones with the open last cell marked.
pub open spec fn double_value(s: Sequences, j: int) -> Sequence {
    if s.k == Open {
        Sequence((window_bits(s, j) & HEAD_MASK | LAST_MASK) >> 1)
    } else {
        Sequence(window_bits(s, j) >> 1)
    }
}

/// A `Double` or `Open` walk started at window `first` lists exactly the
/// windows from `i` to the limit with a [`double_hit`], in increasing
/// order, each with its [`double_value`].
pub proof fn lemma_emits_double(s: Sequences, i: int, prev_ok: bool, first: int)
    requires
        s.k != Single,
        s.limit < 16,
        0 <= first <= i,
        prev_ok == (first < i && window_match(s, i - 1)),
    ensures
        forall|m: int|
            0 <= m < emits(s, i, prev_ok).len() ==> {
                let e = #[trigger] emits(s, i, prev_ok)[m];
                &&& i <= e.0 <= s.limit
                &&& double_hit(s, e.0 as int, first)
                &&& e.1 == double_value(s, e.0 as int)
            },
        forall|a: int, b: int|
            0 <= a < b < emits(s, i, prev_ok).len() ==> #[trigger] emits(s, i, prev_ok)[a].0
                < #[trigger] emits(s, i, prev_ok)[b].0,
        forall|j: int|
            i <= j <= s.limit && double_hit(s, j, first) ==> exists|m: int|
                0 <= m < emits(s, i, prev_ok).len() && #[trigger] emits(s, i, prev_ok)[m].0 == j,
    decreases s.limit + 1 - i,
{
    if i <= s.limit {
        let (out, next_ok) = window_step(s, i as u8, prev_ok);
        assert(next_ok == window_match(s, i));
        assert(((i + 1) - 1) as u8 == i as u8);
        lemma_emits_double(s, i + 1, next_ok, first);
        let rest = emits(s, i + 1, next_ok);
        let all = emits(s, i, prev_ok);
        assert(out is Some <==> double_hit(s, i, first));
        match out {
            Some(x) => {
                assert(x == (i as u8, double_value(s, i)));
                assert(all == seq![x] + rest);
                assert forall|m: int| 0 <= m < all.len() implies {
                    let e = #[trigger] all[m];
                    &&& i <= e.0 <= s.limit
                    &&& double_hit(s, e.0 as int, first)
                    &&& e.1 == double_value(s, e.0 as int)
                } by {
                    if m > 0 {
                        assert(all[m] == rest[m - 1]);
                    }
                }
                assert forall|a: int, b: int| 0 <= a < b < all.len() implies #[trigger] all[a].0 < #[trigger] all[b].0 by {
                    assert(all[b] == rest[b - 1]);
                    if a > 0 {
                        assert(all[a] == rest[a - 1]);
                    }
                }
                assert forall|j: int| i <= j <= s.limit && double_hit(s, j, first) implies exists|m: int|
                    0 <= m < all.len() && #[trigger] all[m].0 == j by {
                    if j == i {
                        assert(all[0].0 == j);
                    } else {
                        let m = choose|m: int| 0 <= m < rest.len() && #[trigger] rest[m].0 == j;
                        assert(all[m + 1] == rest[m]);
                    }
                }
            },
            None => {
                assert(all == rest);
            },
        }
    } else {
        assert(emits(s, i, prev_ok).len() == 0);
    }
}

/// The first window whose matches all hold cell `i`: four cells back for
/// a single window, three for two neighbouring ones, none before 0.
pub open spec fn first_through(i: u8, k: SequenceKind) -> int {
    let back: int = if k == Single { 4 } else { 3 };
    if i >= back { i - back } else { 0 }
}

/// The walk through cell `i` ([`Sequences::new_on`]) lists, in increasing
/// order, exactly the matches of the whole-line walk ([`Sequences::new`])
/// whose windows all hold cell `i`.
pub proof fn lemma_new_on_within_new(i: u8, size: u8, my: u16, op: u16, k: SequenceKind, n: u8, exact: bool)
    requires
        VICTORY <= size <= 20,
    ensures
        forall|m: int|
            0 <= m < sequences_on_spec(i, size, my, op, k, n, exact).remaining().len() ==> {
                let e = #[trigger] sequences_on_spec(i, size, my, op, k, n, exact).remaining()[m];
                &&& sequences_spec(size, my, op, k, n, exact).remaining().contains(e)
                &&& first_through(i, k) <= e.0 <= i
            },
        forall|m: int|
            0 <= m < sequences_spec(size, my, op, k, n, exact).remaining().len() && first_through(i, k)
                <= #[trigger] sequences_spec(size, my, op, k, n, exact).remaining()[m].0 <= i
                ==> sequences_on_spec(i, size, my, op, k, n, exact).remaining().contains(
                sequences_spec(size, my, op, k, n, exact).remaining()[m],
            ),
        forall|a: int, b: int|
            0 <= a < b < sequences_on_spec(i, size, my, op, k, n, exact).remaining().len()
                ==> #[trigger] sequences_on_spec(i, size, my, op, k, n, exact).remaining()[a].0
                < #[trigger] sequences_on_spec(i, size, my, op, k, n, exact).remaining()[b].0,
{
    let w = sequences_spec(size, my, op, k, n, exact);
    let p = sequences_on_spec(i, size, my, op, k, n, exact);
    let sw = w.frame();
    let sp = p.frame();
    let whole = w.remaining();
    let part = p.remaining();
    let start = p.i as int;
    assert(whole == emits(sw, 0, false));
    assert(part == emits(sp, start, false));
    if k == Single {
        lemma_emits_single(sw, 0, false);
        lemma_emits_single(sp, start, false);
        assert forall|m: int| 0 <= m < part.len() implies {
            let e = #[trigger] part[m];
            &&& whole.contains(e)
            &&& first_through(i, k) <= e.0 <= i
        } by {
            let e = part[m];
            assert(single_hit(sw, e.0 as int) == single_hit(sp, e.0 as int));
            let q = choose|q: int| 0 <= q < whole.len() && #[trigger] whole[q].0 == e.0;
            assert(whole[q] == e);
        }
        assert forall|m: int| 0 <= m < whole.len() && first_through(i, k) <= #[trigger] whole[m].0 <= i implies part.contains(
            whole[m],
        ) by {
            let e = whole[m];
            assert(single_hit(sw, e.0 as int) == single_hit(sp, e.0 as int));
            let q = choose|q: int| 0 <= q < part.len() && #[trigger] part[q].0 == e.0;
            assert(part[q] == e);
        }
    } else {
        lemma_emits_double(sw, 0, false, 0);
        lemma_emits_double(sp, start, false, start);
        assert forall|j: int| #[trigger] window_match(sw, j) == window_match(sp, j) by {}
        assert forall|m: int| 0 <= m < part.len() implies {
            let e = #[trigger] part[m];
            &&& whole.contains(e)
            &&& first_through(i, k) <= e.0 <= i
        } by {
            let e = part[m];
            assert(window_match(sw, e.0 - 1) == window_match(sp, e.0 - 1));
            assert(window_match(sw, e.0 as int) == window_match(sp, e.0 as int));
            assert(double_hit(sw, e.0 as int, 0));
            let q = choose|q: int| 0 <= q < whole.len() && #[trigger] whole[q].0 == e.0;
            assert(whole[q] == e);
        }
        assert forall|m: int| 0 <= m < whole.len() && first_through(i, k) <= #[trigger] whole[m].0 <= i implies part.contains(
            whole[m],
        ) by {
            let e = whole[m];
            assert(window_match(sw, e.0 - 1) == window_match(sp, e.0 - 1));
            assert(window_match(sw, e.0 as int) == window_match(sp, e.0 as int));
            assert(double_hit(sp, e.0 as int, start));
            let q = choose|q: int| 0 <= q < part.len() && #[trigger] part[q].0 == e.0;
            assert(part[q] == e);
        }
    }
}

/// How many of the stones in `b` are set (all eight bits).
pub open spec fn ones8(b: u8) -> int {
    ones5(b) + ((b >> 5) & 1) as int + ((b >> 6) & 1) as int + ((b >> 7) & 1) as int
}

/// What window `i` gives, and whether it leaves the next window a good
/// predecessor.
pub open spec fn window_step(s: Sequences, i: u8, prev_ok: bool) -> (Option<(u8, Sequence)>, bool) {
    let op_ = (s.op >> i) as u8;
    let my_ = (s.my >> i) as u8;
    if op_ & TARGET_MASK != 0 || (s.exact && my_ & MARGIN_MASK != 0) {
        (None, if s.k != Single { false } else { prev_ok })
    } else {
        let my = my_ & TARGET_MASK;
        let ok = ones8(my) == s.n;
        match s.k {
            Single => (if ok { Some((i, Sequence(my >> 1))) } else { None }, prev_ok),
            Double => (if prev_ok && ok { Some((i, Sequence(my >> 1))) } else { None }, ok),
            Open => (
                if ok && prev_ok && ones8(my & HEAD_MASK) == s.n {
                    Some((i, Sequence((my & HEAD_MASK | LAST_MASK) >> 1)))
                } else {
                    None
                },
                ok,
            ),
        }
    }
}

/// Everything the windows from `i` to `limit` give, in order.
pub open spec fn emits(s: Sequences, i: int, prev_ok: bool) -> Seq<(u8, Sequence)>
    decreases s.limit + 1 - i,
{
    if i > s.limit || i < 0 {
        Seq::empty()
    } else {
        let (out, next_ok) = window_step(s, i as u8, prev_ok);
        let rest = emits(s, i + 1, next_ok);
        match out {
            Some(x) => seq![x] + rest,
            None => rest,
        }
    }
}

/// How many of the eight bits of `b` are set.
fn count_ones8(b: u8) -> (res: u8)
    ensures
        res == ones8(b),
{
    assert((b & 1) <= 1 && ((b >> 1) & 1) <= 1 && ((b >> 2) & 1) <= 1 && ((b >> 3) & 1) <= 1 && ((b
        >> 4) & 1) <= 1 && ((b >> 5) & 1) <= 1 && ((b >> 6) & 1) <= 1 && ((b >> 7) & 1) <= 1)
        by (bit_vector);
    (b & 1) + ((b >> 1) & 1) + ((b >> 2) & 1) + ((b >> 3) & 1) + ((b >> 4) & 1) + ((b >> 5) & 1) + ((b
        >> 6) & 1) + ((b >> 7) & 1)
}

/// [`Sequences::new`] as a spec function.
pub open spec fn sequences_spec(size: u8, my: u16, op: u16, k: SequenceKind, n: u8, exact: bool) -> Sequences {
    Sequences {
        my: (my << 1u16) as u16,
        op: (op << 1u16) as u16,
        k,
        n,
        exact,
        limit: (size - VICTORY) as u8,
        i: 0,
        prev_ok: false,
    }
}

/// [`Sequences::new_on`] as a spec function.
pub open spec fn sequences_on_spec(i: u8, size: u8, my: u16, op: u16, k: SequenceKind, n: u8, exact: bool) -> Sequences {
    Sequences {
        my: (my << 1u16) as u16,
        op: (op << 1u16) as u16,
        k,
        n,
        exact,
        limit: (if i < size - VICTORY { i } else { (size - VICTORY) as u8 }),
        i: ((if i > VICTORY - 1 { i } else { (VICTORY - 1) as u8 }) - (VICTORY - 1)) as u8,
        prev_ok: false,
    }
}

impl Sequences {
    /// What is still to come.
    pub open spec fn remaining(self) -> Seq<(u8, Sequence)> {
        emits(self.frame(), self.i as int, self.prev_ok)
    }

    /// The fields that stay as they are while the windows are walked.
    pub open spec fn frame(self) -> Sequences {
        Sequences { i: 0, prev_ok: false, ..self }
    }

    /// The windows of a line of `size` cells, `my` and `op` being the
    /// player's stones and the opponent's.
    pub fn new(size: u8, my: u16, op: u16, k: SequenceKind, n: u8, exact: bool) -> (res: Self)
        requires
            VICTORY <= size,
        ensures
            res == sequences_spec(size, my, op, k, n, exact),
    {
        Self {
            my: my << 1u16,
            op: op << 1u16,
            k,
            n,
            exact,
            limit: size - VICTORY,
            i: 0,
            prev_ok: false,
        }
    }

    /// [`Self::new`], only the windows through cell `i`.
    pub fn new_on(i: u8, size: u8, my: u16, op: u16, k: SequenceKind, n: u8, exact: bool) -> (res: Self)
        requires
            VICTORY <= size,
        ensures
            res == sequences_on_spec(i, size, my, op, k, n, exact),
    {
        let limit = if i < size - VICTORY {
            i
        } else {
            size - VICTORY
        };
        let start = if i > VICTORY - 1 {
            i
        } else {
            VICTORY - 1
        };
        Self { my: my << 1u16, op: op << 1u16, k, n, exact, limit, i: start - (VICTORY - 1), prev_ok: false }
    }

    /// The next match, if there is one.
    pub fn next(&mut self) -> (res: Option<(u8, Sequence)>)
        requires
            old(self).limit < 16,
        ensures
            final(self).limit == old(self).limit,
            old(self).remaining().len() == 0 ==> res is None && final(self).remaining().len() == 0,
            old(self).remaining().len() > 0 ==> res == Some(old(self).remaining()[0])
                && final(self).remaining() == old(self).remaining().drop_first(),
    {
        while self.i <= self.limit
            invariant
                self.limit < 16,
                self.limit == old(self).limit,
                self.my == old(self).my && self.op == old(self).op && self.k == old(self).k
                    && self.n == old(self).n && self.exact == old(self).exact,
                self.remaining() == old(self).remaining(),
            decreases self.limit + 1 - self.i,
        {
            assert(self.frame() == old(self).frame());
            let i = self.i;
            self.i += 1;
            let op_ = (self.op >> i) as u8;
            let my_ = (self.my >> i) as u8;
            if op_ & TARGET_MASK != 0 || self.exact && my_ & MARGIN_MASK != 0 {
                if self.k != Single {
                    self.prev_ok = false;
                }
                continue ;
            }
            let my = my_ & TARGET_MASK;
            let ok = count_ones8(my) == self.n;
            match self.k {
                Single => {
                    if ok {
                        return Some((i, Sequence(my >> 1)));
                    }
                },
                Double => {
                    let prev_ok = self.prev_ok;
                    self.prev_ok = ok;
                    if prev_ok && ok {
                        return Some((i, Sequence(my >> 1)));
                    }
                },
                Open => {
                    let prev_ok = self.prev_ok;
                    self.prev_ok = ok;
                    if ok && prev_ok && count_ones8(my & HEAD_MASK) == self.n {
                        return Some((i, Sequence((my & HEAD_MASK | LAST_MASK) >> 1)));
                    }
                },
            }
        }
        None
    }

    /// Everything still to come, in order.
    pub fn to_vec(&mut self) -> (res: Vec<(u8, Sequence)>)
        requires
            old(self).limit < 16,
        ensures
            res@ == old(self).remaining(),
            final(self).remaining().len() == 0,
    {
        let mut res: Vec<(u8, Sequence)> = Vec::new();
        loop
            invariant
                self.limit < 16,
                res@ + self.remaining() == old(self).remaining(),
            decreases self.remaining().len(),
        {
            match self.next() {
                Some(x) => {
                    res.push(x);
                },
                None => {
                    assert(res@ =~= old(self).remaining());
                    return res;
                },
            }
        }
    }
}

} // verus!
