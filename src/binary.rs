//! Big-endian 16-bit fields: their byte form and how they are read back.
use vstd::prelude::*;

verus! {

/// Why a subtable could not be read.
#[derive(Debug, Clone, Copy, PartialEq, Eq, Structural)]
pub enum DecodeError {
    /// The data ends before a field that the layout places there.
    Truncated,
    /// A format tag that no layout of this kind of table carries.
    BadFormat,
    /// A format tag that is legal but that this library cannot read.
    Unsupported,
    /// Glyphs that the layout keeps strictly ascending are not.
    Unsorted,
}

/// Why a subtable could not be written.
#[derive(Debug, Clone, Copy, PartialEq, Eq, Structural)]
pub enum EncodeError {
    /// A count or an offset does not fit in 16 bits.
    TooLarge,
    /// A layout that this library does not write.
    Unsupported,
}

/// High byte of a 16-bit value.
pub open spec fn hi(v: u16) -> u8 {
    (v / 256) as u8
}

/// Low byte of a 16-bit value.
pub open spec fn lo(v: u16) -> u8 {
    (v % 256) as u8
}

/// The two bytes of `v`, most significant first.
pub open spec fn u16_be(v: u16) -> Seq<u8> {
    seq![hi(v), lo(v)]
}

/// The big-endian bytes of every value of `s`, in order.
pub open spec fn u16s_be(s: Seq<u16>) -> Seq<u8>
    decreases s.len(),
{
    if s.len() == 0 {
        Seq::empty()
    } else {
        u16s_be(s.drop_last()) + u16_be(s.last())
    }
}

/// The 16-bit big-endian value stored at `off` in `d`.
pub open spec fn be16_at(d: Seq<u8>, off: int) -> u16 {
    (d[off] as int * 256 + d[off + 1] as int) as u16
}

/// `n` consecutive big-endian values starting at `off`.
pub open spec fn be16s_at(d: Seq<u8>, off: int, n: int) -> Seq<u16> {
    Seq::new(n as nat, |i: int| be16_at(d, off + 2 * i))
}

/// The two bytes of a value recombine to it.
pub proof fn lemma_hi_lo(v: u16)
    ensures
        hi(v) as int * 256 + lo(v) as int == v as int,
{
}

/// Value `i` of a list lies at bytes `2 * i` and `2 * i + 1`.
pub proof fn lemma_u16s_be(s: Seq<u16>)
    ensures
        u16s_be(s).len() == 2 * s.len(),
        forall|i: int| 0 <= i < s.len() ==> #[trigger] u16s_be(s)[2 * i] == hi(s[i])
            && u16s_be(s)[2 * i + 1] == lo(s[i]),
    decreases s.len(),
{
    if s.len() > 0 {
        lemma_u16s_be(s.drop_last());
    }
}

/// Reading back values that were written with `u16s_be` gives them again.
pub proof fn lemma_read_u16s(pre: Seq<u8>, s: Seq<u16>, post: Seq<u8>)
    ensures
        be16s_at(pre + u16s_be(s) + post, pre.len() as int, s.len() as int) == s,
{
    lemma_u16s_be(s);
    let d = pre + u16s_be(s) + post;
    assert forall|i: int| 0 <= i < s.len() implies be16_at(d, pre.len() + 2 * i) == s[i] by {
        assert(d[pre.len() + 2 * i] == u16s_be(s)[2 * i]);
        assert(d[pre.len() + 2 * i + 1] == u16s_be(s)[2 * i + 1]);
        lemma_hi_lo(s[i]);
    }
    assert(be16s_at(d, pre.len() as int, s.len() as int) =~= s);
}

/// Regrouping a concatenation of six byte strings.
pub proof fn lemma_regroup(p: Seq<u8>, q: Seq<u8>, a: Seq<u8>, x: Seq<u8>, c: Seq<u8>, r: Seq<u8>)
    ensures
        p + (q + (a + x + c)) + r == (p + q + a) + x + (c + r),
{
    assert(p + (q + (a + x + c)) + r =~= (p + q + a) + x + (c + r));
}

/// Regrouping a concatenation of four byte strings.
pub proof fn lemma_regroup3(p: Seq<u8>, a: Seq<u8>, x: Seq<u8>, c: Seq<u8>)
    ensures
        p + (a + x + c) == (p + a) + x + c,
{
    assert(p + (a + x + c) =~= (p + a) + x + c);
}

/// Appends the two bytes of `v`.
pub fn push_u16(out: &mut Vec<u8>, v: u16)
    ensures
        final(out)@ == old(out)@ + u16_be(v),
{
    out.push((v / 256) as u8);
    out.push((v % 256) as u8);
    assert(final(out)@ =~= old(out)@ + u16_be(v));
}

/// Reads the big-endian value at `off`, if two bytes stand there.
pub fn read_u16(d: &[u8], off: usize) -> (r: Option<u16>)
    ensures
        r == (if off + 2 <= d@.len() { Some(be16_at(d@, off as int)) } else { None::<u16> }),
{
    if off <= d.len() && d.len() - off >= 2 {
        Some((d[off] as u16) * 256 + d[off + 1] as u16)
    } else {
        None
    }
}

} // verus!
