//! Monochrome images packed eight pixels to a byte.
//!
//! Bit `k` of a byte string lives in byte `k / 8` at position `k % 8`,
//! counted from the least significant bit.

use vstd::prelude::*;

verus! {

/// The value of bit `k` of `bytes`.
pub open spec fn bit_at(bytes: Seq<u8>, k: int) -> bool {
    (bytes[k / 8] >> ((k % 8) as u32)) & 1u8 == 1u8
}

/// All bits of `bytes`, in order.
pub open spec fn bit_seq(bytes: Seq<u8>) -> Seq<bool> {
    Seq::new(8 * bytes.len(), |k: int| bit_at(bytes, k))
}

/// How many entries of `bs` equal `v`.
pub open spec fn count_of(bs: Seq<bool>, v: bool) -> nat
    decreases bs.len(),
{
    if bs.len() == 0 {
        0
    } else {
        count_of(bs.drop_last(), v) + if bs.last() == v { 1nat } else { 0nat }
    }
}

/// Counting over a prefix one entry longer adds that entry.
pub proof fn lemma_count_of_take_step(bs: Seq<bool>, v: bool, k: int)
    requires
        0 <= k < bs.len(),
    ensures
        count_of(bs.take(k + 1), v) == count_of(bs.take(k), v) + if bs[k] == v { 1nat } else { 0nat },
{
    assert(bs.take(k + 1).drop_last() =~= bs.take(k));
}

/// Counting over a longer prefix never gives less.
pub proof fn lemma_count_of_take_mono(bs: Seq<bool>, v: bool, a: int, b: int)
    requires
        0 <= a <= b <= bs.len(),
    ensures
        count_of(bs.take(a), v) <= count_of(bs.take(b), v),
    decreases b - a,
{
    if a < b {
        lemma_count_of_take_step(bs, v, b - 1);
        lemma_count_of_take_mono(bs, v, a, b - 1);
    }
}

/// Turning one entry equal to `v` into `!v` leaves one fewer such entry.
pub proof fn lemma_count_of_update(bs: Seq<bool>, v: bool, k: int)
    requires
        0 <= k < bs.len(),
        bs[k] == v,
    ensures
        count_of(bs.update(k, !v), v) + 1 == count_of(bs, v),
    decreases bs.len(),
{
    let nbs = bs.update(k, !v);
    if k == bs.len() - 1 {
        assert(nbs.drop_last() =~= bs.drop_last());
    } else {
        assert(nbs.drop_last() =~= bs.drop_last().update(k, !v));
        lemma_count_of_update(bs.drop_last(), v, k);
    }
}

proof fn lemma_bit_position(i: int, b: int)
    requires
        0 <= i,
        0 <= b < 8,
    ensures
        (8 * i + b) / 8 == i,
        (8 * i + b) % 8 == b,
{
    assert((8 * i + b) / 8 == i) by (nonlinear_arith)
        requires 0 <= i, 0 <= b < 8;
    assert((8 * i + b) % 8 == b) by (nonlinear_arith)
        requires 0 <= i, 0 <= b < 8;
}

proof fn lemma_flip_byte_bit(c: u8, b: u32, t: u32, v: bool)
    requires
        b < 8,
        t < 8,
        (((c >> b) & 1u8) == 1u8) == v,
    ensures
        (((if v { c & !(1u8 << b) } else { c | (1u8 << b) }) >> t) & 1u8 == 1u8)
            == if t == b { !v } else { ((c >> t) & 1u8) == 1u8 },
{
    if v {
        assert((((c & !(1u8 << b)) >> t) & 1u8 == 1u8) == if t == b { false } else { ((c >> t) & 1u8) == 1u8 })
            by (bit_vector)
            requires b < 8, t < 8;
    } else {
        assert((((c | (1u8 << b)) >> t) & 1u8 == 1u8) == if t == b { true } else { ((c >> t) & 1u8) == 1u8 })
            by (bit_vector)
            requires b < 8, t < 8;
    }
}

/// `after` is `before` with its `n`-th bit of value `v` (counting from zero,
/// in bit order) flipped; when fewer such bits exist, `after` is `before`.
pub open spec fn flips_nth(before: Seq<u8>, v: bool, n: int, after: Seq<u8>) -> bool {
    &&& after.len() == before.len()
    &&& n < count_of(bit_seq(before), v) ==> exists|k: int|
        0 <= k < bit_seq(before).len() && #[trigger] bit_seq(before)[k] == v && count_of(
            bit_seq(before).take(k),
            v,
        ) == n && bit_seq(after) == bit_seq(before).update(k, !v)
    &&& n >= count_of(bit_seq(before), v) ==> after == before
}

/// Two positions holding `v` with equally many `v`s before them are the
/// same position.
pub proof fn lemma_nth_position_unique(bs: Seq<bool>, v: bool, k1: int, k2: int)
    requires
        0 <= k1 < bs.len(),
        0 <= k2 < bs.len(),
        bs[k1] == v,
        bs[k2] == v,
        count_of(bs.take(k1), v) == count_of(bs.take(k2), v),
    ensures
        k1 == k2,
{
    if k1 < k2 {
        lemma_count_of_take_step(bs, v, k1);
        lemma_count_of_take_mono(bs, v, k1 + 1, k2);
    } else if k2 < k1 {
        lemma_count_of_take_step(bs, v, k2);
        lemma_count_of_take_mono(bs, v, k2 + 1, k1);
    }
}

proof fn lemma_byte_from_lsb_bits(x: u8, y: u8)
    requires
        forall|t: u32| t < 8 ==> #[trigger] ((x >> t) & 1u8) == ((y >> t) & 1u8),
    ensures
        x == y,
{
    assert(((x >> 0u32) & 1u8) == ((y >> 0u32) & 1u8));
    assert(((x >> 1u32) & 1u8) == ((y >> 1u32) & 1u8));
    assert(((x >> 2u32) & 1u8) == ((y >> 2u32) & 1u8));
    assert(((x >> 3u32) & 1u8) == ((y >> 3u32) & 1u8));
    assert(((x >> 4u32) & 1u8) == ((y >> 4u32) & 1u8));
    assert(((x >> 5u32) & 1u8) == ((y >> 5u32) & 1u8));
    assert(((x >> 6u32) & 1u8) == ((y >> 6u32) & 1u8));
    assert(((x >> 7u32) & 1u8) == ((y >> 7u32) & 1u8));
    assert(x == y) by (bit_vector)
        requires
            ((x >> 0u32) & 1u8) == ((y >> 0u32) & 1u8),
            ((x >> 1u32) & 1u8) == ((y >> 1u32) & 1u8),
            ((x >> 2u32) & 1u8) == ((y >> 2u32) & 1u8),
            ((x >> 3u32) & 1u8) == ((y >> 3u32) & 1u8),
            ((x >> 4u32) & 1u8) == ((y >> 4u32) & 1u8),
            ((x >> 5u32) & 1u8) == ((y >> 5u32) & 1u8),
            ((x >> 6u32) & 1u8) == ((y >> 6u32) & 1u8),
            ((x >> 7u32) & 1u8) == ((y >> 7u32) & 1u8);
}

/// Byte strings with the same bits are equal.
pub proof fn lemma_bits_determine_bytes(a: Seq<u8>, b: Seq<u8>)
    requires
        a.len() == b.len(),
        bit_seq(a) == bit_seq(b),
    ensures
        a == b,
{
    assert forall|i: int| 0 <= i < a.len() implies a[i] == b[i] by {
        assert forall|t: u32| t < 8 implies #[trigger] ((a[i] >> t) & 1u8) == ((b[i] >> t) & 1u8) by {
            let k = 8 * i + t;
            lemma_bit_position(i, t as int);
            assert(k < 8 * a.len()) by (nonlinear_arith)
                requires k == 8 * i + t, t < 8, 0 <= i < a.len();
            assert(bit_seq(a)[k] == bit_seq(b)[k]);
            assert(k / 8 == i);
            assert(((k % 8) as u32) == t);
            assert(bit_seq(a)[k] == bit_at(a, k));
            assert(bit_seq(b)[k] == bit_at(b, k));
            let x = a[i];
            let y = b[i];
            assert((((x >> t) & 1u8) == 1u8) == (((y >> t) & 1u8) == 1u8));
            assert(((x >> t) & 1u8) == ((y >> t) & 1u8)) by (bit_vector)
                requires (((x >> t) & 1u8) == 1u8) == (((y >> t) & 1u8) == 1u8);
        }
        lemma_byte_from_lsb_bits(a[i], b[i]);
    }
    assert(a =~= b);
}

/// Flipping the `n`-th bit of a value has one outcome only.
pub proof fn lemma_flips_nth_unique(before: Seq<u8>, v: bool, n: int, a1: Seq<u8>, a2: Seq<u8>)
    requires
        flips_nth(before, v, n, a1),
        flips_nth(before, v, n, a2),
    ensures
        a1 == a2,
{
    let bs = bit_seq(before);
    if n < count_of(bs, v) {
        let k1 = choose|k: int|
            0 <= k < bs.len() && #[trigger] bs[k] == v && count_of(bs.take(k), v) == n && bit_seq(a1)
                == bs.update(k, !v);
        let k2 = choose|k: int|
            0 <= k < bs.len() && #[trigger] bs[k] == v && count_of(bs.take(k), v) == n && bit_seq(a2)
                == bs.update(k, !v);
        lemma_nth_position_unique(bs, v, k1, k2);
        lemma_bits_determine_bytes(a1, a2);
    }
}

/// Setting the `n`-th 0 bit and then clearing the 1 bit at the same place
/// (the one with as many 1 bits before it as that 0 bit had) gives the bytes
/// back.
pub proof fn lemma_flip_roundtrip(a0: Seq<u8>, a1: Seq<u8>, a2: Seq<u8>, n: int, k0: int)
    requires
        0 <= k0 < bit_seq(a0).len(),
        bit_seq(a0)[k0] == false,
        count_of(bit_seq(a0).take(k0), false) == n,
        flips_nth(a0, false, n, a1),
        flips_nth(a1, true, count_of(bit_seq(a0).take(k0), true) as int, a2),
    ensures
        a2 == a0,
{
    let bs0 = bit_seq(a0);
    let m = count_of(bs0.take(k0), true);
    lemma_count_of_take_step(bs0, false, k0);
    lemma_count_of_take_mono(bs0, false, k0 + 1, bs0.len() as int);
    assert(bs0.take(bs0.len() as int) =~= bs0);
    assert(n < count_of(bs0, false));
    let k = choose|k: int|
        0 <= k < bs0.len() && #[trigger] bs0[k] == false && count_of(bs0.take(k), false) == n
            && bit_seq(a1) == bs0.update(k, true);
    lemma_nth_position_unique(bs0, false, k, k0);
    let bs1 = bit_seq(a1);
    assert(bs1 == bs0.update(k0, true));
    assert(bs1.take(k0) =~= bs0.take(k0));
    lemma_count_of_take_step(bs1, true, k0);
    lemma_count_of_take_mono(bs1, true, k0 + 1, bs1.len() as int);
    assert(bs1.take(bs1.len() as int) =~= bs1);
    assert(m < count_of(bs1, true));
    let j = choose|j: int|
        0 <= j < bs1.len() && #[trigger] bs1[j] == true && count_of(bs1.take(j), true) == m
            && bit_seq(a2) == bs1.update(j, false);
    lemma_nth_position_unique(bs1, true, j, k0);
    assert(bit_seq(a2) =~= bs0);
    lemma_bits_determine_bytes(a2, a0);
}

/// Flips the `n`-th bit (counting from zero) whose value is `toggle_one`,
/// scanning bytes in order and each byte from its least significant bit.
/// When fewer such bits exist, nothing changes.
pub fn flip_nth_bit(toggle_one: bool, n: usize, array: &mut [u8])
    ensures
        flips_nth(old(array)@, toggle_one, n as int, final(array)@),
{
    let ghost bytes = array@;
    let ghost bs = bit_seq(bytes);
    let mut count: usize = 0;
    let mut i: usize = 0;
    assert(bs.take(0) =~= Seq::<bool>::empty());
    while i < array.len()
        invariant
            array@ == bytes,
            bytes == old(array)@,
            bs == bit_seq(bytes),
            i <= array@.len(),
            count == count_of(bs.take(8 * i), toggle_one),
            count <= n,
        decreases array@.len() - i,
    {
        let mut b: u32 = 0;
        while b < 8
            invariant
                array@ == bytes,
                bytes == old(array)@,
                bs == bit_seq(bytes),
                i < array@.len(),
                b <= 8,
                count == count_of(bs.take(8 * i + b), toggle_one),
                count <= n,
            decreases 8 - b,
        {
            let c = array[i];
            let ghost k: int = 8 * i + b;
            proof {
                lemma_bit_position(i as int, b as int);
                assert(bs[k] == (((c >> b) & 1u8) == 1u8));
                lemma_count_of_take_step(bs, toggle_one, k);
            }
            if (((c >> b) & 1u8) == 1u8) == toggle_one {
                if count == n {
                    let new_c = if toggle_one { c & !(1u8 << b) } else { c | (1u8 << b) };
                    array[i] = new_c;
                    proof {
                        let nbs = bit_seq(array@);
                        assert forall|j: int| 0 <= j < bs.len() implies nbs[j] == bs.update(k, !toggle_one)[j] by {
                            let q = j / 8;
                            let t = j % 8;
                            assert(j == 8 * q + t);
                            if q == i {
                                lemma_flip_byte_bit(c, b, t as u32, toggle_one);
                            }
                        }
                        assert(nbs =~= bs.update(k, !toggle_one));
                        lemma_count_of_take_mono(bs, toggle_one, k + 1, bs.len() as int);
                        assert(bs.take(bs.len() as int) =~= bs);
                    }
                    return;
                }
                count += 1;
            }
            b += 1;
        }
        i += 1;
    }
    assert(bs.take(8 * array@.len() as int) =~= bs);
}


/// Where a bit of `over` is 0, the same bit of `under` becomes 1; where it
/// is 1, `under` shows through. Bytes of `under` past the end of `over`
/// stay as they are.
pub fn overlay_binary(under: &mut [u8], over: &[u8])
    ensures
        final(under)@.len() == old(under)@.len(),
        forall|i: int|
            0 <= i < old(under)@.len() ==> #[trigger] final(under)@[i] == if i < over@.len() {
                old(under)@[i] | !over@[i]
            } else {
                old(under)@[i]
            },
{
    let mut i: usize = 0;
    while i < under.len() && i < over.len()
        invariant
            under@.len() == old(under)@.len(),
            i <= under@.len(),
            i <= over@.len(),
            forall|j: int| 0 <= j < i ==> #[trigger] under@[j] == old(under)@[j] | !over@[j],
            forall|j: int| i <= j < under@.len() ==> #[trigger] under@[j] == old(under)@[j],
        decreases under@.len() - i,
    {
        let u = under[i];
        under[i] = u | !over[i];
        i += 1;
    }
}

/// The number of 0 bits in `bytes`, or `None` when that number does not fit
/// in a `u32`.
pub fn count_zero_bits(bytes: &[u8]) -> (count: Option<u32>)
    ensures
        count == if count_of(bit_seq(bytes@), false) <= u32::MAX {
            Some(count_of(bit_seq(bytes@), false) as u32)
        } else {
            None::<u32>
        },
{
    let ghost bs = bit_seq(bytes@);
    let mut count: u32 = 0;
    let mut i: usize = 0;
    assert(bs.take(0) =~= Seq::<bool>::empty());
    while i < bytes.len()
        invariant
            bs == bit_seq(bytes@),
            i <= bytes@.len(),
            count == count_of(bs.take(8 * i), false),
        decreases bytes@.len() - i,
    {
        let c = bytes[i];
        let mut b: u32 = 0;
        while b < 8
            invariant
                bs == bit_seq(bytes@),
                i < bytes@.len(),
                c == bytes@[i as int],
                b <= 8,
                count == count_of(bs.take(8 * i + b), false),
            decreases 8 - b,
        {
            let ghost k: int = 8 * i + b;
            proof {
                lemma_bit_position(i as int, b as int);
                assert(bs[k] == (((c >> b) & 1u8) == 1u8));
                lemma_count_of_take_step(bs, false, k);
            }
            if (c >> b) & 1u8 != 1u8 {
                match count.checked_add(1) {
                    Some(next) => count = next,
                    None => {
                        proof {
                            lemma_count_of_take_mono(bs, false, k + 1, bs.len() as int);
                            assert(bs.take(bs.len() as int) =~= bs);
                        }
                        return None;
                    },
                }
            }
            b += 1;
        }
        i += 1;
    }
    assert(bs.take(8 * bytes@.len() as int) =~= bs);
    Some(count)
}

} // verus!
