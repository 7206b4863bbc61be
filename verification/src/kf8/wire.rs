//! Big-endian field writers shared by the KF8 record encoders.

use vstd::prelude::*;

verus! {

/// The two big-endian bytes of `v`.
pub open spec fn be16(v: u16) -> Seq<u8> {
    seq![(v / 256) as u8, (v % 256) as u8]
}

/// The four big-endian bytes of `v`.
pub open spec fn be32(v: u32) -> Seq<u8> {
    seq![(v / 0x100_0000) as u8, ((v / 0x1_0000) % 256) as u8, ((v / 256) % 256) as u8, (v % 256) as u8]
}

/// Append `bytes` to `out`.
pub fn push_bytes(out: &mut Vec<u8>, bytes: &[u8])
    ensures
        final(out)@ == old(out)@ + bytes@,
{
    let ghost start = out@;
    let mut i: usize = 0;
    while i < bytes.len()
        invariant
            i <= bytes@.len(),
            out@ == start + bytes@.subrange(0, i as int),
        decreases bytes@.len() - i,
    {
        out.push(bytes[i]);
        i = i + 1;
        assert(out@ =~= start + bytes@.subrange(0, i as int));
    }
    assert(bytes@.subrange(0, i as int) =~= bytes@);
}

/// Append the big-endian encoding of `v` to `out`.
pub fn push_u16_be(out: &mut Vec<u8>, v: u16)
    ensures
        final(out)@ == old(out)@ + be16(v),
{
    out.push((v / 256) as u8);
    out.push((v % 256) as u8);
    assert(final(out)@ =~= old(out)@ + be16(v));
}

/// Append the big-endian encoding of `v` to `out`.
pub fn push_u32_be(out: &mut Vec<u8>, v: u32)
    ensures
        final(out)@ == old(out)@ + be32(v),
{
    out.push((v / 0x100_0000) as u8);
    out.push(((v / 0x1_0000) % 256) as u8);
    out.push(((v / 256) % 256) as u8);
    out.push((v % 256) as u8);
    assert(final(out)@ =~= old(out)@ + be32(v));
}

/// Append the four ASCII bytes of a record tag such as `EXTH`.
pub fn push_tag(out: &mut Vec<u8>, a: u8, b: u8, c: u8, d: u8)
    ensures
        final(out)@ == old(out)@ + seq![a, b, c, d],
{
    out.push(a);
    out.push(b);
    out.push(c);
    out.push(d);
    assert(final(out)@ =~= old(out)@ + seq![a, b, c, d]);
}

/// Copy of a byte slice as an owned vector.
pub fn bytes_to_vec(bytes: &[u8]) -> (v: Vec<u8>)
    ensures
        v@ == bytes@,
{
    let mut v: Vec<u8> = Vec::new();
    push_bytes(&mut v, bytes);
    assert(v@ =~= bytes@);
    v
}

/// The concatenation of `parts`, in order.
pub open spec fn concat(parts: Seq<Seq<u8>>) -> Seq<u8>
    decreases parts.len(),
{
    if parts.len() == 0 { seq![] } else { concat(parts.drop_last()) + parts.last() }
}

/// Taking one more part appends it to the concatenation.
pub proof fn lemma_concat_take_step(parts: Seq<Seq<u8>>, i: int)
    requires
        0 <= i < parts.len(),
    ensures
        concat(parts.take(i + 1)) == concat(parts.take(i)) + parts[i],
{
    assert(parts.take(i + 1).drop_last() =~= parts.take(i));
}

/// A prefix of the parts concatenates to no more bytes than all of them.
pub proof fn lemma_concat_take_len(parts: Seq<Seq<u8>>, i: int)
    requires
        0 <= i <= parts.len(),
    ensures
        concat(parts.take(i)).len() <= concat(parts).len(),
    decreases parts.len() - i,
{
    if i == parts.len() {
        assert(parts.take(i) =~= parts);
    } else {
        lemma_concat_take_step(parts, i);
        lemma_concat_take_len(parts, i + 1);
    }
}

/// `n` zero bytes.
pub open spec fn zeros(n: nat) -> Seq<u8> {
    Seq::new(n, |i: int| 0u8)
}

/// `s` followed by zero bytes up to the next multiple of four.
pub open spec fn pad4(s: Seq<u8>) -> Seq<u8> {
    s + zeros(((4 - s.len() % 4) % 4) as nat)
}

/// `s` with the four bytes at `at` replaced by the big-endian `w`.
pub open spec fn set_word(s: Seq<u8>, at: int, w: u32) -> Seq<u8> {
    s.subrange(0, at) + be32(w) + s.subrange(at + 4, s.len() as int)
}

/// Append zero bytes to `out` until it is `n` bytes long.
pub fn grow_zero(out: &mut Vec<u8>, n: usize)
    requires
        old(out)@.len() <= n,
    ensures
        final(out)@ == old(out)@ + zeros((n - old(out)@.len()) as nat),
{
    let ghost start = out@;
    while out.len() < n
        invariant
            start.len() <= out@.len() <= n,
            out@ == start + zeros((out@.len() - start.len()) as nat),
        decreases n - out@.len(),
    {
        out.push(0u8);
        assert(out@ =~= start + zeros((out@.len() - start.len()) as nat));
    }
}

/// Append zero bytes to `out` until its length is a multiple of four.
pub fn align_zero(out: &mut Vec<u8>)
    requires
        old(out)@.len() + 3 <= usize::MAX,
    ensures
        final(out)@ == pad4(old(out)@),
{
    let ghost start = out@;
    let pad = (4 - out.len() % 4) % 4;
    let mut k: usize = 0;
    while k < pad
        invariant
            k <= pad,
            pad == (4 - start.len() % 4) % 4,
            out@ == start + zeros(k as nat),
        decreases pad - k,
    {
        out.push(0u8);
        k = k + 1;
        assert(out@ =~= start + zeros(k as nat));
    }
}

/// Overwrite the four bytes at `at` with the big-endian `w`.
pub fn set_u32_be_at(out: &mut Vec<u8>, at: usize, w: u32)
    requires
        at + 4 <= old(out)@.len(),
    ensures
        final(out)@ == set_word(old(out)@, at as int, w),
{
    let _n = out.len();
    let a1 = at + 1;
    let a2 = at + 2;
    let a3 = at + 3;
    out.set(at, (w / 0x100_0000) as u8);
    out.set(a1, ((w / 0x1_0000) % 256) as u8);
    out.set(a2, ((w / 256) % 256) as u8);
    out.set(a3, (w % 256) as u8);
    assert(final(out)@ =~= set_word(old(out)@, at as int, w));
}

/// `EXTH`
pub open spec fn tag_exth() -> Seq<u8> { seq![69u8, 88u8, 84u8, 72u8] }
/// `FDST`
pub open spec fn tag_fdst() -> Seq<u8> { seq![70u8, 68u8, 83u8, 84u8] }
/// `FCIS`
pub open spec fn tag_fcis() -> Seq<u8> { seq![70u8, 67u8, 73u8, 83u8] }
/// `INDX`
pub open spec fn tag_indx() -> Seq<u8> { seq![73u8, 78u8, 68u8, 88u8] }
/// `TAGX`
pub open spec fn tag_tagx() -> Seq<u8> { seq![84u8, 65u8, 71u8, 88u8] }
/// `IDXT`
pub open spec fn tag_idxt() -> Seq<u8> { seq![73u8, 68u8, 88u8, 84u8] }

} // verus!
