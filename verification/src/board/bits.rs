use vstd::prelude::*;
use super::map::{bit128, lemma_bit128_set};

verus! {

/// The positions of the set bits of a bitmask, lowest first.
///
/// Each step takes the lowest set bit and clears it, so it costs one
/// step per set bit, and the length is known up front.
#[derive(Debug, Clone, Copy)]
pub struct Bits<T>(pub T);

/// The positions below `n` of the set bits of `x`, lowest first.
pub open spec fn bit_positions(x: u128, n: nat) -> Seq<u8>
    decreases n,
{
    if n == 0 {
        Seq::empty()
    } else {
        let rest = bit_positions(x, (n - 1) as nat);
        if bit128(x, n - 1) {
            rest.push((n - 1) as u8)
        } else {
            rest
        }
    }
}

/// The positions listed are increasing, below `n` and set in `x`, and
/// every set bit below `n` is listed.
pub proof fn lemma_bit_positions(x: u128, n: nat)
    requires
        n <= 128,
    ensures
        forall|m: int|
            0 <= m < bit_positions(x, n).len() ==> #[trigger] bit_positions(x, n)[m] < n && bit128(
                x,
                bit_positions(x, n)[m] as int,
            ),
        forall|a: int, b: int|
            0 <= a < b < bit_positions(x, n).len() ==> #[trigger] bit_positions(x, n)[a]
                < #[trigger] bit_positions(x, n)[b],
        forall|b: int| 0 <= b < n && bit128(x, b) ==> #[trigger] bit_positions(x, n).contains(b as u8),
    decreases n,
{
    if n > 0 {
        lemma_bit_positions(x, (n - 1) as nat);
        let rest = bit_positions(x, (n - 1) as nat);
        assert forall|b: int| 0 <= b < n && bit128(x, b) implies #[trigger] bit_positions(x, n).contains(b as u8) by {
            if b == n - 1 {
                assert(bit_positions(x, n)[rest.len() as int] == b as u8);
            } else {
                assert(rest.contains(b as u8));
                let k = choose|k: int| 0 <= k < rest.len() && rest[k] == b as u8;
                assert(bit_positions(x, n)[k] == b as u8);
            }
        }
    }
}

/// With no set bit below `k`, bit `k` set, clearing bit `k` takes the
/// first position off the list.
proof fn lemma_clear_lowest(x: u128, k: u128, n: nat)
    requires
        k < 128,
        n <= 128,
        bit128(x, k as int),
        forall|b: int| 0 <= b < k ==> !#[trigger] bit128(x, b),
    ensures
        n <= k ==> bit_positions(x, n).len() == 0 && bit_positions(x & !(1u128 << k), n).len() == 0,
        n > k ==> bit_positions(x, n).len() > 0 && bit_positions(x, n)[0] == k as u8
            && bit_positions(x & !(1u128 << k), n) == bit_positions(x, n).drop_first(),
    decreases n,
{
    lemma_bit128_set(x, k);
    let y = x & !(1u128 << k);
    if n > 0 {
        lemma_clear_lowest(x, k, (n - 1) as nat);
        assert(bit128(y, n - 1) == (bit128(x, ((n - 1) as u128) as int) && (n - 1) as u128 != k));
        if n - 1 == k {
            assert(bit_positions(x, n) =~= seq![k as u8]);
        } else if n - 1 > k {
            let rest = bit_positions(x, (n - 1) as nat);
            if bit128(x, n - 1) {
                assert(bit_positions(y, n) =~= bit_positions(x, n).drop_first());
            }
        }
    }
}

/// Facts about the bits at and above `k` of a mask.
proof fn lemma_high_bits(x: u128, k: u128, y: u128)
    by (bit_vector)
    requires
        k < 128,
    ensures
        (x >> k) != 0 && (x >> k) & 1 != 1 && k < 127 ==> (x >> (k + 1) as u128) != 0,
        (x >> k) != 0 && k == 127 ==> (x >> k) & 1 == 1,
        x & !(1u128 << k) <= x,
        x & !(1u128 << k) < x || (x >> k) & 1 != 1,
{
}

/// The lowest set bit of a nonzero mask.
fn lowest_bit(x: u128) -> (k: u128)
    requires
        x != 0,
    ensures
        k < 128,
        bit128(x, k as int),
        forall|b: int| 0 <= b < k ==> !#[trigger] bit128(x, b),
{
    let mut k: u128 = 0;
    assert(x >> 0u128 == x) by {
        lemma_shift_zero(x);
    }
    while (x >> k) & 1 != 1
        invariant
            x != 0,
            k < 128,
            (x >> k) != 0,
            forall|b: int| 0 <= b < k ==> !#[trigger] bit128(x, b),
        decreases 128 - k,
    {
        proof {
            lemma_high_bits(x, k, 0);
        }
        assert(!bit128(x, k as int));
        k += 1;
    }
    k
}

/// Shifting by nothing.
proof fn lemma_shift_zero(x: u128)
    by (bit_vector)
    ensures
        x >> 0u128 == x,
{
}

/// The next position of `x`, and `x` with it cleared.
fn next_bit(x: u128) -> (res: (Option<u8>, u128))
    ensures
        bit_positions(x, 128).len() == 0 ==> res.0 is None && res.1 == x,
        bit_positions(x, 128).len() > 0 ==> res.0 == Some(bit_positions(x, 128)[0])
            && bit_positions(res.1, 128) == bit_positions(x, 128).drop_first(),
        res.1 <= x,
{
    if x == 0 {
        proof {
            assert forall|b: int| 0 <= b < 128 implies !#[trigger] bit128(x, b) by {
                super::map::lemma_bit128_zero(b as u128);
            }
            lemma_no_bits(x, 128);
        }
        return (None, x);
    }
    let k = lowest_bit(x);
    proof {
        lemma_clear_lowest(x, k, 128);
        lemma_high_bits(x, k, 0);
    }
    (Some(k as u8), x & !(1u128 << k))
}

/// How many set bits `x` has.
fn count_bits(x: u128) -> (res: usize)
    ensures
        res == bit_positions(x, 128).len(),
{
    let mut n: usize = 0;
    let mut k: u128 = 0;
    while k < 128
        invariant
            k <= 128,
            n == bit_positions(x, k as nat).len(),
            n <= k,
        decreases 128 - k,
    {
        if (x >> k) & 1 == 1 {
            n += 1;
        }
        k += 1;
    }
    n
}

/// The positions of the set bits of `x`, lowest first.
fn all_bits(x: u128) -> (res: Vec<u8>)
    ensures
        res@ == bit_positions(x, 128),
{
    let mut res: Vec<u8> = Vec::new();
    let mut k: u128 = 0;
    while k < 128
        invariant
            k <= 128,
            res@ == bit_positions(x, k as nat),
        decreases 128 - k,
    {
        if (x >> k) & 1 == 1 {
            res.push(k as u8);
        }
        k += 1;
    }
    res
}

impl Bits<u8> {
    /// The positions still to come, lowest first.
    pub open spec fn remaining(self) -> Seq<u8> {
        bit_positions(self.0 as u128, 128)
    }

    /// The next position, lowest first.
    pub fn next(&mut self) -> (res: Option<u8>)
        ensures
            old(self).remaining().len() == 0 ==> res is None && final(self).remaining().len() == 0,
            old(self).remaining().len() > 0 ==> res == Some(old(self).remaining()[0])
                && final(self).remaining() == old(self).remaining().drop_first(),
    {
        let (res, rest) = next_bit(self.0 as u128);
        self.0 = rest as u8;
        assert(self.0 as u128 == rest);
        res
    }

    /// How many positions are still to come.
    pub fn len(&self) -> (res: usize)
        ensures
            res == self.remaining().len(),
    {
        count_bits(self.0 as u128)
    }

    /// All the positions still to come, lowest first.
    pub fn to_vec(&self) -> (res: Vec<u8>)
        ensures
            res@ == self.remaining(),
    {
        all_bits(self.0 as u128)
    }
}

impl Bits<u16> {
    /// The positions still to come, lowest first.
    pub open spec fn remaining(self) -> Seq<u8> {
        bit_positions(self.0 as u128, 128)
    }

    /// The next position, lowest first.
    pub fn next(&mut self) -> (res: Option<u8>)
        ensures
            old(self).remaining().len() == 0 ==> res is None && final(self).remaining().len() == 0,
            old(self).remaining().len() > 0 ==> res == Some(old(self).remaining()[0])
                && final(self).remaining() == old(self).remaining().drop_first(),
    {
        let (res, rest) = next_bit(self.0 as u128);
        self.0 = rest as u16;
        assert(self.0 as u128 == rest);
        res
    }

    /// How many positions are still to come.
    pub fn len(&self) -> (res: usize)
        ensures
            res == self.remaining().len(),
    {
        count_bits(self.0 as u128)
    }

    /// All the positions still to come, lowest first.
    pub fn to_vec(&self) -> (res: Vec<u8>)
        ensures
            res@ == self.remaining(),
    {
        all_bits(self.0 as u128)
    }
}

impl Bits<u32> {
    /// The positions still to come, lowest first.
    pub open spec fn remaining(self) -> Seq<u8> {
        bit_positions(self.0 as u128, 128)
    }

    /// The next position, lowest first.
    pub fn next(&mut self) -> (res: Option<u8>)
        ensures
            old(self).remaining().len() == 0 ==> res is None && final(self).remaining().len() == 0,
            old(self).remaining().len() > 0 ==> res == Some(old(self).remaining()[0])
                && final(self).remaining() == old(self).remaining().drop_first(),
    {
        let (res, rest) = next_bit(self.0 as u128);
        self.0 = rest as u32;
        assert(self.0 as u128 == rest);
        res
    }

    /// How many positions are still to come.
    pub fn len(&self) -> (res: usize)
        ensures
            res == self.remaining().len(),
    {
        count_bits(self.0 as u128)
    }

    /// All the positions still to come, lowest first.
    pub fn to_vec(&self) -> (res: Vec<u8>)
        ensures
            res@ == self.remaining(),
    {
        all_bits(self.0 as u128)
    }
}

impl Bits<u64> {
    /// The positions still to come, lowest first.
    pub open spec fn remaining(self) -> Seq<u8> {
        bit_positions(self.0 as u128, 128)
    }

    /// The next position, lowest first.
    pub fn next(&mut self) -> (res: Option<u8>)
        ensures
            old(self).remaining().len() == 0 ==> res is None && final(self).remaining().len() == 0,
            old(self).remaining().len() > 0 ==> res == Some(old(self).remaining()[0])
                && final(self).remaining() == old(self).remaining().drop_first(),
    {
        let (res, rest) = next_bit(self.0 as u128);
        self.0 = rest as u64;
        assert(self.0 as u128 == rest);
        res
    }

    /// How many positions are still to come.
    pub fn len(&self) -> (res: usize)
        ensures
            res == self.remaining().len(),
    {
        count_bits(self.0 as u128)
    }

    /// All the positions still to come, lowest first.
    pub fn to_vec(&self) -> (res: Vec<u8>)
        ensures
            res@ == self.remaining(),
    {
        all_bits(self.0 as u128)
    }
}

impl Bits<u128> {
    /// The positions still to come, lowest first.
    pub open spec fn remaining(self) -> Seq<u8> {
        bit_positions(self.0 as u128, 128)
    }

    /// The next position, lowest first.
    pub fn next(&mut self) -> (res: Option<u8>)
        ensures
            old(self).remaining().len() == 0 ==> res is None && final(self).remaining().len() == 0,
            old(self).remaining().len() > 0 ==> res == Some(old(self).remaining()[0])
                && final(self).remaining() == old(self).remaining().drop_first(),
    {
        let (res, rest) = next_bit(self.0 as u128);
        self.0 = rest;
        assert(self.0 as u128 == rest);
        res
    }

    /// How many positions are still to come.
    pub fn len(&self) -> (res: usize)
        ensures
            res == self.remaining().len(),
    {
        count_bits(self.0 as u128)
    }

    /// All the positions still to come, lowest first.
    pub fn to_vec(&self) -> (res: Vec<u8>)
        ensures
            res@ == self.remaining(),
    {
        all_bits(self.0 as u128)
    }
}

/// A mask with no set bit lists nothing.
proof fn lemma_no_bits(x: u128, n: nat)
    requires
        n <= 128,
        forall|b: int| 0 <= b < 128 ==> !#[trigger] bit128(x, b),
    ensures
        bit_positions(x, n).len() == 0,
    decreases n,
{
    if n > 0 {
        lemma_no_bits(x, (n - 1) as nat);
        assert(!bit128(x, n - 1));
    }
}

} // verus!
