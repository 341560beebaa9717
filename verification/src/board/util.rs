use vstd::prelude::*;

verus! {

/// Whether bit `k` of `x` is set.
pub open spec fn bit_of(x: u16, k: u16) -> bool {
    (x >> k) & 1 == 1
}

/// Single-bit facts about 16-bit masks.
pub proof fn lemma_u16_bits(x: u16, y: u16, j: u16, b: u16, n: u8)
    by (bit_vector)
    ensures
        bit_of(x & y, b) <==> bit_of(x, b) && bit_of(y, b),
        !bit_of(0u16, b),
        j < 16 && b < 16 ==> (bit_of(x | (1u16 << j), b) <==> bit_of(x, b) || b == j),
        0u16 & 0u16 == 0,
        0u16 >> j & 1 == 0,
        n <= 7 ==> n & 7 == n,
{
}

/// How many of the five low bits of `b` are set.
pub open spec fn ones5(b: u8) -> int {
    ((b & 1) + ((b >> 1) & 1) + ((b >> 2) & 1) + ((b >> 3) & 1) + ((b >> 4) & 1)) as int
}

/// The positions below `n` of the set bits of `x`, lowest first.
pub open spec fn positions(x: u16, n: nat) -> Seq<u8>
    decreases n,
{
    if n == 0 {
        Seq::empty()
    } else {
        let rest = positions(x, (n - 1) as nat);
        if bit_of(x, (n - 1) as u16) {
            rest.push((n - 1) as u8)
        } else {
            rest
        }
    }
}

/// Every position listed is below `n` and has its bit set, and every such
/// bit is listed.
pub proof fn lemma_positions(x: u16, n: nat)
    requires
        n <= 16,
    ensures
        forall|k: int| 0 <= k < positions(x, n).len() ==> #[trigger] positions(x, n)[k] < n
            && bit_of(x, positions(x, n)[k] as u16),
        forall|k: int, m: int|
            0 <= k < m < positions(x, n).len() ==> #[trigger] positions(x, n)[k] < #[trigger] positions(x, n)[m],
        forall|b: u8| b < n && bit_of(x, b as u16) ==> #[trigger] positions(x, n).contains(b),
    decreases n,
{
    if n > 0 {
        lemma_positions(x, (n - 1) as nat);
        let rest = positions(x, (n - 1) as nat);
        assert forall|b: u8| b < n && bit_of(x, b as u16) implies #[trigger] positions(x, n).contains(b) by {
            if b == n - 1 {
                assert(positions(x, n)[rest.len() as int] == b);
            } else {
                assert(rest.contains(b));
                let k = choose|k: int| 0 <= k < rest.len() && rest[k] == b;
                assert(positions(x, n)[k] == b);
            }
        }
    }
}

/// A strictly increasing list of the positions below `n` of exactly the
/// set bits of `x` is what [`positions`] gives.
pub proof fn lemma_positions_eq(x: u16, n: nat, l: Seq<u8>)
    requires
        n <= 16,
        forall|a: int, b: int| 0 <= a < b < l.len() ==> #[trigger] l[a] < #[trigger] l[b],
        forall|m: int| 0 <= m < l.len() ==> #[trigger] l[m] < n,
        forall|b: u8| b < n ==> (bit_of(x, b as u16) <==> #[trigger] l.contains(b)),
    ensures
        positions(x, n) == l,
    decreases n,
{
    if n == 0 {
        if l.len() > 0 {
            assert(l[0] < n);
        }
        assert(l =~= Seq::<u8>::empty());
    } else {
        let top = (n - 1) as u8;
        if bit_of(x, top as u16) {
            assert(l.contains(top));
            let m = choose|m: int| 0 <= m < l.len() && l[m] == top;
            if m < l.len() - 1 {
                assert(l[m] < l[l.len() - 1]);
                assert(l[l.len() - 1] < n);
            }
            let rest = l.drop_last();
            assert forall|b: u8| b < n - 1 implies (bit_of(x, b as u16) <==> #[trigger] rest.contains(b)) by {
                if rest.contains(b) {
                    let q = choose|q: int| 0 <= q < rest.len() && rest[q] == b;
                    assert(l[q] == b);
                }
                if l.contains(b) {
                    let q = choose|q: int| 0 <= q < l.len() && l[q] == b;
                    if q == l.len() - 1 {
                        assert(b == top);
                    }
                    assert(rest[q] == b);
                }
            }
            assert forall|q: int| 0 <= q < rest.len() implies #[trigger] rest[q] < n - 1 by {
                assert(l[q] < l[l.len() - 1]);
            }
            lemma_positions_eq(x, (n - 1) as nat, rest);
            assert(l =~= rest.push(top));
        } else {
            assert forall|q: int| 0 <= q < l.len() implies #[trigger] l[q] < n - 1 by {
                if l[q] == top {
                    assert(l.contains(top));
                }
            }
            lemma_positions_eq(x, (n - 1) as nat, l);
        }
    }
}

/// How many of the bits of `x` below `n` are set.
pub open spec fn ones_below16(x: u16, n: nat) -> nat
    decreases n,
{
    if n == 0 {
        0
    } else {
        ones_below16(x, (n - 1) as nat) + if bit_of(x, (n - 1) as u16) {
            1nat
        } else {
            0nat
        }
    }
}

/// [`positions`] lists one position per set bit.
pub proof fn lemma_positions_len(x: u16, n: nat)
    ensures
        positions(x, n).len() == ones_below16(x, n),
    decreases n,
{
    if n > 0 {
        lemma_positions_len(x, (n - 1) as nat);
    }
}

/// A window holding three stones has two empty cells.
pub proof fn lemma_two_eyes(b: u8)
    requires
        b < 32,
        ones5(b) == 3,
    ensures
        positions((!b & 0b11111) as u16, 5).len() == 2,
{
    let e = (!b & 0b11111) as u16;
    lemma_positions_len(e, 5);
    reveal_with_fuel(ones_below16, 6);
    lemma_five_bits(b, 0);
}

/// The five low bits of a byte `b`, of their complement, and of a small
/// nonzero `x`.
proof fn lemma_five_bits(b: u8, x: u16)
    by (bit_vector)
    ensures
        (b & 1) <= 1 && ((b >> 1) & 1) <= 1 && ((b >> 2) & 1) <= 1 && ((b >> 3) & 1) <= 1 && ((b >> 4)
            & 1) <= 1,
        bit_of((!b & 0b11111) as u16, 0) == ((b & 1) == 0) && bit_of((!b & 0b11111) as u16, 1) == (((b
            >> 1) & 1) == 0) && bit_of((!b & 0b11111) as u16, 2) == (((b >> 2) & 1) == 0) && bit_of(
            (!b & 0b11111) as u16,
            3,
        ) == (((b >> 3) & 1) == 0) && bit_of((!b & 0b11111) as u16, 4) == (((b >> 4) & 1) == 0),
        0 < x < 32 ==> ((x >> 0u16) & 1 == 1) || ((x >> 1u16) & 1 == 1) || ((x >> 2u16) & 1 == 1) || ((x
            >> 3u16) & 1 == 1) || ((x >> 4u16) & 1 == 1),
{
}

/// The numbers below `n` for which `pred` holds, lowest first.
pub open spec fn select(pred: spec_fn(int) -> bool, n: nat) -> Seq<u8>
    decreases n,
{
    if n == 0 {
        Seq::empty()
    } else {
        let rest = select(pred, (n - 1) as nat);
        if pred(n - 1) {
            rest.push((n - 1) as u8)
        } else {
            rest
        }
    }
}

/// The set bits of a mask whose bits are given by `pred` are what `pred`
/// selects.
pub proof fn lemma_positions_select(x: u16, pred: spec_fn(int) -> bool, n: nat)
    requires
        n <= 16,
        forall|j: u16| j < 16 ==> #[trigger] bit_of(x, j) == pred(j as int),
    ensures
        positions(x, n) == select(pred, n),
    decreases n,
{
    if n > 0 {
        lemma_positions_select(x, pred, (n - 1) as nat);
        assert(bit_of(x, (n - 1) as u16) == pred(n - 1));
    }
}

/// What `select` lists satisfies `pred` and is below `n`.
pub proof fn lemma_select(pred: spec_fn(int) -> bool, n: nat)
    requires
        n <= 256,
    ensures
        forall|k: int| 0 <= k < select(pred, n).len() ==> pred(#[trigger] select(pred, n)[k] as int)
            && select(pred, n)[k] < n,
    decreases n,
{
    if n > 0 {
        lemma_select(pred, (n - 1) as nat);
        let rest = select(pred, (n - 1) as nat);
        assert forall|k: int| 0 <= k < select(pred, n).len() implies pred(#[trigger] select(pred, n)[k] as int)
            && select(pred, n)[k] < n by {
            if k < rest.len() {
                assert(select(pred, n)[k] == rest[k]);
            } else {
                assert(pred(n - 1));
                assert(select(pred, n)[k] == (n - 1) as u8);
            }
        }
    }
}

/// A nonzero five-bit mask has a set bit to list.
pub proof fn lemma_positions_nonempty(x: u16)
    requires
        0 < x < 32,
    ensures
        positions(x, 5).len() > 0,
{
    lemma_positions(x, 5);
    assert(bit_of(x, 0) || bit_of(x, 1) || bit_of(x, 2) || bit_of(x, 3) || bit_of(x, 4)) by {
        lemma_five_bits(0, x);
    }
    if bit_of(x, 0) {
        assert(positions(x, 5).contains(0));
    } else if bit_of(x, 1) {
        assert(positions(x, 5).contains(1));
    } else if bit_of(x, 2) {
        assert(positions(x, 5).contains(2));
    } else if bit_of(x, 3) {
        assert(positions(x, 5).contains(3));
    } else {
        assert(positions(x, 5).contains(4));
    }
}

/// The positions below `n` of the set bits of `x`, lowest first.
pub fn positions_of(x: u16, n: u8) -> (res: Vec<u8>)
    requires
        n <= 16,
    ensures
        res@ == positions(x, n as nat),
{
    let mut res: Vec<u8> = Vec::new();
    let mut k: u8 = 0;
    while k < n
        invariant
            k <= n <= 16,
            res@ == positions(x, k as nat),
        decreases n - k,
    {
        if (x >> k) & 1 == 1 {
            res.push(k);
        }
        k += 1;
    }
    res
}

/// How many of the five low bits of `bits` are set.
pub fn count_ones(bits: u8) -> (res: u8)
    ensures
        res == ones5(bits),
        res <= 5,
{
    proof {
        lemma_five_bits(bits, 0);
    }
    (bits & 1) + ((bits >> 1) & 1) + ((bits >> 2) & 1) + ((bits >> 3) & 1) + ((bits >> 4) & 1)
}

/// The positions (0-4) of the clear bits among the five low bits of
/// `bits`: the cells of a five still to be played.
pub fn eyes(bits: u8) -> (res: Vec<u8>)
    ensures
        res@ == positions((!bits & 0b11111) as u16, 5),
{
    positions_of((!bits & 0b11111) as u16, 5)
}

} // verus!
