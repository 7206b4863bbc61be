//! Variable-width integers used by KF8 indexes and text-record trailers.

use vstd::prelude::*;

verus! {

/// The 7-bit groups of `v`, most significant first (at least one group).
pub open spec fn vwi_groups(v: nat) -> Seq<u8>
    decreases v,
{
    if v < 128 { seq![v as u8] } else { vwi_groups(v / 128).push((v % 128) as u8) }
}

/// Forward VWI: the 7-bit groups of `v` with the high bit set on the last byte.
pub open spec fn vwi(v: nat) -> Seq<u8> {
    let g = vwi_groups(v);
    g.update(g.len() - 1, (g.last() + 128) as u8)
}

/// Backward VWI: the 7-bit groups of `v` with the high bit set on the first byte.
pub open spec fn backward_vwi(v: nat) -> Seq<u8> {
    let g = vwi_groups(v);
    g.update(0, (g[0] + 128) as u8)
}

/// Every group is a 7-bit value and there is at least one group.
pub proof fn lemma_vwi_groups(v: nat)
    ensures
        vwi_groups(v).len() >= 1,
        forall|i: int| 0 <= i < vwi_groups(v).len() ==> #[trigger] vwi_groups(v)[i] < 128,
        v < 128 ==> vwi_groups(v).len() == 1,
        v >= 128 ==> vwi_groups(v).len() == vwi_groups(v / 128).len() + 1,
    decreases v,
{
    if v >= 128 {
        lemma_vwi_groups(v / 128);
    }
}

/// The groups of a value below `2^(7k)` number at most `k`.
pub proof fn lemma_vwi_groups_len(v: nat, k: nat)
    requires
        k >= 1,
        v < pow128(k),
    ensures
        vwi_groups(v).len() <= k,
    decreases v,
{
    lemma_vwi_groups(v);
    if v >= 128 {
        assert(k >= 2) by {
            if k == 1 {
                assert(pow128(1) == 128 * pow128(0));
            }
        }
        assert(v / 128 < pow128((k - 1) as nat)) by {
            assert(pow128(k) == 128 * pow128((k - 1) as nat));
        }
        lemma_vwi_groups_len(v / 128, (k - 1) as nat);
    }
}

/// `128^k`.
pub open spec fn pow128(k: nat) -> nat
    decreases k,
{
    if k == 0 { 1 } else { 128 * pow128((k - 1) as nat) }
}

/// The 7-bit groups of `value`, most significant first.
fn groups(value: u64) -> (g: Vec<u8>)
    ensures
        g@ == vwi_groups(value as nat),
{
    let mut rev: Vec<u8> = Vec::new();
    let mut v = value;
    rev.push((v % 128) as u8);
    v = v / 128;
    proof {
        lemma_vwi_groups(value as nat);
    }
    assert(vwi_groups(value as nat) == (if value < 128 { seq![] } else { vwi_groups(v as nat) })
        + rev@.reverse());
    while v != 0
        invariant
            vwi_groups(value as nat) == vwi_groups(v as nat) + rev@.reverse() || v == 0,
            v == 0 ==> vwi_groups(value as nat) == rev@.reverse(),
        decreases v,
    {
        let ghost before = rev@;
        rev.push((v % 128) as u8);
        assert(rev@.reverse() =~= seq![(v % 128) as u8] + before.reverse());
        if v < 128 {
            assert(vwi_groups(v as nat) =~= seq![(v % 128) as u8]);
            assert(vwi_groups(value as nat) =~= rev@.reverse());
        } else {
            assert(vwi_groups(v as nat) == vwi_groups((v / 128) as nat).push((v % 128) as u8));
            assert(vwi_groups(value as nat) =~= vwi_groups((v / 128) as nat) + rev@.reverse());
        }
        v = v / 128;
    }
    let mut g: Vec<u8> = Vec::new();
    let mut i = rev.len();
    while i > 0
        invariant
            i <= rev@.len(),
            g@ == rev@.reverse().subrange(0, (rev@.len() - i) as int),
        decreases i,
    {
        i = i - 1;
        g.push(rev[i]);
        assert(g@ =~= rev@.reverse().subrange(0, (rev@.len() - i) as int));
    }
    assert(rev@.reverse().subrange(0, rev@.len() as int) =~= rev@.reverse());
    g
}

/// Encode `value` as a forward VWI.
pub fn encode_vwi(value: u32) -> (r: Vec<u8>)
    ensures
        r@ == vwi(value as nat),
        1 <= r@.len() <= 5,
{
    let mut g = groups(value as u64);
    proof {
        lemma_vwi_groups(value as nat);
        reveal_with_fuel(pow128, 6);
        lemma_vwi_groups_len(value as nat, 5);
    }
    let last = g.len() - 1;
    let b = g[last];
    assert(b < 128);
    g.set(last, b + 128);
    g
}

/// The number of bytes in the VWI encoding of `value`.
pub fn backward_vwi_length(value: usize) -> (r: usize)
    ensures
        r == vwi_groups(value as nat).len(),
        1 <= r <= 10,
{
    let mut length: usize = 1;
    let mut remaining = value / 128;
    proof {
        lemma_vwi_groups(value as nat);
        reveal_with_fuel(pow128, 11);
        lemma_vwi_groups_len(value as nat, 10);
    }
    while remaining != 0
        invariant
            1 <= length <= 10,
            remaining == 0 ==> vwi_groups(value as nat).len() == length,
            remaining != 0 ==> vwi_groups(value as nat).len() == vwi_groups(remaining as nat).len() + length,
            vwi_groups(value as nat).len() <= 10,
        decreases remaining,
    {
        proof {
            lemma_vwi_groups(remaining as nat);
        }
        length = length + 1;
        remaining = remaining / 128;
    }
    length
}

/// Encode `value` as a backward VWI (high bit on the first byte).
pub fn encode_backward_vwi(value: usize) -> (r: Vec<u8>)
    ensures
        r@ == backward_vwi(value as nat),
{
    let mut g = groups(value as u64);
    proof {
        lemma_vwi_groups(value as nat);
    }
    let b = g[0];
    g.set(0, b + 128);
    g
}

// ---------------------------------------------------------------------------
// Reading a VWI back.

/// The value of 7-bit groups, most significant first.
pub open spec fn groups_value(g: Seq<u8>) -> nat
    decreases g.len(),
{
    if g.len() == 0 {
        0
    } else {
        groups_value(g.drop_last()) * 128 + g.last() as nat
    }
}

/// The low seven bits of every byte.
pub open spec fn low7(s: Seq<u8>) -> Seq<u8> {
    s.map_values(|b: u8| (b % 128) as u8)
}

proof fn lemma_groups_value(v: nat)
    ensures
        groups_value(vwi_groups(v)) == v,
    decreases v,
{
    lemma_vwi_groups(v);
    if v >= 128 {
        lemma_groups_value(v / 128);
        assert(vwi_groups(v).drop_last() =~= vwi_groups(v / 128));
        assert(vwi_groups(v).last() as nat == v % 128);
        assert((v / 128) * 128 + v % 128 == v);
        assert(groups_value(vwi_groups(v)) == groups_value(vwi_groups(v).drop_last()) * 128
            + vwi_groups(v).last() as nat);
        assert(groups_value(vwi_groups(v)) == (v / 128) * 128 + v % 128);
    } else {
        assert(vwi_groups(v).drop_last() =~= Seq::<u8>::empty());
        assert(vwi_groups(v).last() as nat == v);
        assert(groups_value(Seq::<u8>::empty()) == 0);
        assert(groups_value(vwi_groups(v)) == groups_value(vwi_groups(v).drop_last()) * 128
            + vwi_groups(v).last() as nat);
    }
}

/// A forward VWI marks only its last byte with the high bit, and the low
/// seven bits of its bytes give the value back.
pub proof fn lemma_vwi_roundtrip(v: nat)
    ensures
        vwi(v).len() >= 1,
        forall|i: int| 0 <= i < vwi(v).len() - 1 ==> #[trigger] vwi(v)[i] < 128,
        vwi(v).last() >= 128,
        groups_value(low7(vwi(v))) == v,
{
    lemma_vwi_groups(v);
    lemma_groups_value(v);
    assert(low7(vwi(v)) =~= vwi_groups(v));
}

/// A backward VWI marks only its first byte with the high bit, and the low
/// seven bits of its bytes give the value back.
pub proof fn lemma_backward_vwi_roundtrip(v: nat)
    ensures
        backward_vwi(v).len() >= 1,
        backward_vwi(v)[0] >= 128,
        forall|i: int| 1 <= i < backward_vwi(v).len() ==> #[trigger] backward_vwi(v)[i] < 128,
        groups_value(low7(backward_vwi(v))) == v,
{
    lemma_vwi_groups(v);
    lemma_groups_value(v);
    assert(low7(backward_vwi(v)) =~= vwi_groups(v));
}

} // verus!
