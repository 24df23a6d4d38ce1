//! Single substitution subtables: one output glyph for each input glyph,
//! written either as one uniform delta or as an explicit list.
use vstd::prelude::*;
use crate::binary::{
    be16_at, be16s_at, lemma_hi_lo, lemma_read_u16s, lemma_u16s_be, push_u16, read_u16,
    u16_be, u16s_be, DecodeError, EncodeError,
};
use crate::coverage::{
    coverage_at, coverage_bytes, lemma_coverage_round_trip, strictly_ascending, Coverage,
};

verus! {

/// The input glyphs of a mapping, in its order.
pub open spec fn keys_of(m: Seq<(u16, u16)>) -> Seq<u16> {
    m.map_values(|p: (u16, u16)| p.0)
}

/// The output glyphs of a mapping, in its order.
pub open spec fn outputs_of(m: Seq<(u16, u16)>) -> Seq<u16> {
    m.map_values(|p: (u16, u16)| p.1)
}

/// `a + d` modulo 65536.
pub open spec fn wrap_add(a: u16, d: u16) -> u16 {
    ((a as int + d as int) % 65536) as u16
}

/// `a - b` modulo 65536.
pub open spec fn wrap_sub(a: u16, b: u16) -> u16 {
    ((a as int - b as int + 65536) % 65536) as u16
}

/// The delta from the first input glyph to its output.
pub open spec fn first_delta(m: Seq<(u16, u16)>) -> u16 {
    wrap_sub(m[0].1, m[0].0)
}

/// Every input glyph maps to itself plus one common delta.
pub open spec fn has_uniform_delta(m: Seq<(u16, u16)>) -> bool {
    m.len() > 0 && forall|i: int| 0 <= i < m.len() ==> #[trigger] m[i].1 == wrap_add(m[i].0, first_delta(m))
}

/// The bytes of a uniform-delta subtable.
pub open spec fn format1_bytes(cov: Seq<u16>, delta: u16) -> Seq<u8> {
    u16_be(1) + u16_be(6) + u16_be(delta) + coverage_bytes(cov)
}

/// The bytes of an explicit-list subtable.
pub open spec fn format2_bytes(cov: Seq<u16>, subs: Seq<u16>) -> Seq<u8> {
    u16_be(2) + u16_be((6 + 2 * subs.len()) as u16) + u16_be(subs.len() as u16) + u16s_be(subs)
        + coverage_bytes(cov)
}

/// The encoding chosen for a mapping: a uniform delta where one relates
/// every pair, an explicit list otherwise.
pub open spec fn subst_encode(m: Seq<(u16, u16)>) -> Seq<u8> {
    if has_uniform_delta(m) {
        format1_bytes(keys_of(m), first_delta(m))
    } else {
        format2_bytes(keys_of(m), outputs_of(m))
    }
}

/// The counts and offsets of the chosen encoding fit in 16 bits.
pub open spec fn subst_encodable(m: Seq<(u16, u16)>) -> bool {
    if has_uniform_delta(m) {
        m.len() <= 0xffff
    } else {
        6 + 2 * m.len() <= 0xffff
    }
}

/// The mapping that a subtable's bytes hold.
pub open spec fn subst_decode(d: Seq<u8>) -> Result<Seq<(u16, u16)>, DecodeError> {
    if d.len() < 2 {
        Err(DecodeError::Truncated)
    } else if be16_at(d, 0) != 1 && be16_at(d, 0) != 2 {
        Err(DecodeError::BadFormat)
    } else if d.len() < 6 {
        Err(DecodeError::Truncated)
    } else if be16_at(d, 0) == 1 {
        match coverage_at(d, be16_at(d, 2) as int) {
            Ok(g) => Ok(Seq::new(g.len(), |i: int| (g[i], wrap_add(g[i], be16_at(d, 4))))),
            Err(e) => Err(e),
        }
    } else if 6 + 2 * be16_at(d, 4) > d.len() {
        Err(DecodeError::Truncated)
    } else {
        match coverage_at(d, be16_at(d, 2) as int) {
            Ok(g) => {
                let subs = be16s_at(d, 6, be16_at(d, 4) as int);
                let n = if g.len() <= subs.len() { g.len() } else { subs.len() };
                Ok(Seq::new(n, |i: int| (g[i], subs[i])))
            },
            Err(e) => Err(e),
        }
    }
}

/// Uniform-delta layout: every covered glyph maps to itself plus the delta.
#[derive(Debug, Clone, PartialEq, Eq)]
pub struct SingleSubstFormat1 {
    pub coverage: Coverage,
    pub delta_glyph_id: i16,
}

/// Explicit-list layout: the i-th covered glyph maps to the i-th substitute.
#[derive(Debug, Clone, PartialEq, Eq)]
pub struct SingleSubstFormat2 {
    pub coverage: Coverage,
    pub substitute_glyph_ids: Vec<u16>,
}

/// A single substitution subtable in one of its wire layouts.
#[derive(Debug, Clone, PartialEq, Eq)]
pub enum SingleSubstInternal {
    Format1(SingleSubstFormat1),
    Format2(SingleSubstFormat2),
}

/// A single substitution subtable.
#[derive(Debug, Clone, PartialEq, Eq, Default)]
pub struct SingleSubst {
    /// Input glyph and replacement glyph, in strictly ascending input order.
    pub mapping: Vec<(u16, u16)>,
}

proof fn lemma_format1_decode(keys: Seq<u16>, delta: u16)
    requires
        strictly_ascending(keys),
        keys.len() <= 0xffff,
    ensures
        subst_decode(format1_bytes(keys, delta)) == Ok::<Seq<(u16, u16)>, DecodeError>(
            Seq::new(keys.len(), |i: int| (keys[i], wrap_add(keys[i], delta))),
        ),
{
    let d = format1_bytes(keys, delta);
    let pre = u16_be(1) + u16_be(6) + u16_be(delta);
    assert(d =~= pre + coverage_bytes(keys) + Seq::<u8>::empty());
    lemma_coverage_round_trip(pre, keys, Seq::<u8>::empty());
    lemma_hi_lo(6);
    lemma_hi_lo(delta);
    assert(be16_at(d, 0) == 1);
    assert(be16_at(d, 2) == 6);
    assert(be16_at(d, 4) == delta);
}

proof fn lemma_format2_decode(keys: Seq<u16>, outs: Seq<u16>)
    requires
        strictly_ascending(keys),
        keys.len() == outs.len(),
        6 + 2 * outs.len() <= 0xffff,
    ensures
        subst_decode(format2_bytes(keys, outs)) == Ok::<Seq<(u16, u16)>, DecodeError>(
            Seq::new(keys.len(), |i: int| (keys[i], outs[i])),
        ),
{
    let d = format2_bytes(keys, outs);
    let n = outs.len();
    let off = (6 + 2 * n) as u16;
    let head = u16_be(2) + u16_be(off) + u16_be(n as u16);
    let pre = head + u16s_be(outs);
    lemma_u16s_be(outs);
    assert(d =~= pre + coverage_bytes(keys) + Seq::<u8>::empty());
    assert(d =~= head + u16s_be(outs) + coverage_bytes(keys));
    lemma_coverage_round_trip(pre, keys, Seq::<u8>::empty());
    lemma_read_u16s(head, outs, coverage_bytes(keys));
    lemma_hi_lo(off);
    lemma_hi_lo(n as u16);
    assert(be16_at(d, 0) == 2);
    assert(be16_at(d, 2) == off);
    assert(be16_at(d, 4) == n);
    assert(pre.len() == off);
    let subs = be16s_at(d, 6, n as int);
    assert(subs == outs);
    assert(Seq::new(n, |i: int| (keys[i], subs[i])) =~= Seq::new(keys.len(), |i: int| (keys[i], outs[i])));
}

/// Decoding what a mapping encodes to gives the mapping back.
pub proof fn lemma_subst_round_trip(m: Seq<(u16, u16)>)
    requires
        strictly_ascending(keys_of(m)),
        subst_encodable(m),
    ensures
        subst_decode(subst_encode(m)) == Ok::<Seq<(u16, u16)>, DecodeError>(m),
{
    let keys = keys_of(m);
    if has_uniform_delta(m) {
        let delta = first_delta(m);
        lemma_format1_decode(keys, delta);
        assert forall|i: int| 0 <= i < m.len() implies m[i] == (keys[i], wrap_add(keys[i], delta)) by {
            assert(m[i].1 == wrap_add(m[i].0, delta));
        }
        assert(Seq::new(keys.len(), |i: int| (keys[i], wrap_add(keys[i], delta))) =~= m);
    } else {
        let outs = outputs_of(m);
        lemma_format2_decode(keys, outs);
        assert(Seq::new(keys.len(), |i: int| (keys[i], outs[i])) =~= m);
    }
}

/// Once a mapping has been written, reading and writing it again gives the
/// same bytes.
pub proof fn lemma_subst_reencode_stable(m: Seq<(u16, u16)>)
    requires
        strictly_ascending(keys_of(m)),
        subst_encodable(m),
    ensures
        subst_decode(subst_encode(m)) is Ok,
        subst_encodable(subst_decode(subst_encode(m))->Ok_0),
        subst_encode(subst_decode(subst_encode(m))->Ok_0) == subst_encode(m),
{
    lemma_subst_round_trip(m);
}

impl SingleSubstInternal {
    /// The bytes that this layout is written as.
    pub open spec fn spec_bytes(&self) -> Seq<u8> {
        match self {
            SingleSubstInternal::Format1(f) => format1_bytes(f.coverage.glyphs@, f.delta_glyph_id as u16),
            SingleSubstInternal::Format2(f) => format2_bytes(f.coverage.glyphs@, f.substitute_glyph_ids@),
        }
    }

    /// Its counts and offsets fit in 16 bits.
    pub open spec fn fits(&self) -> bool {
        match self {
            SingleSubstInternal::Format1(f) => f.coverage.glyphs@.len() <= 0xffff,
            SingleSubstInternal::Format2(f) => f.coverage.glyphs@.len() <= 0xffff
                && 6 + 2 * f.substitute_glyph_ids@.len() <= 0xffff,
        }
    }

    /// Writes the subtable, or reports that a count or offset overflows.
    pub fn to_bytes(&self) -> (r: Result<Vec<u8>, EncodeError>)
        ensures
            match r {
                Ok(b) => self.fits() && b@ == self.spec_bytes(),
                Err(e) => !self.fits() && e == EncodeError::TooLarge,
            },
    {
        let mut out: Vec<u8> = Vec::new();
        match self {
            SingleSubstInternal::Format1(f) => {
                if f.coverage.glyphs.len() > 0xffff {
                    return Err(EncodeError::TooLarge);
                }
                push_u16(&mut out, 1);
                push_u16(&mut out, 6);
                push_u16(&mut out, f.delta_glyph_id as u16);
                f.coverage.to_bytes(&mut out);
            },
            SingleSubstInternal::Format2(f) => {
                let n = f.substitute_glyph_ids.len();
                if f.coverage.glyphs.len() > 0xffff || n > 32764 {
                    return Err(EncodeError::TooLarge);
                }
                push_u16(&mut out, 2);
                push_u16(&mut out, (6 + 2 * n) as u16);
                push_u16(&mut out, n as u16);
                let ghost start = out@;
                let mut i: usize = 0;
                while i < n
                    invariant
                        n == f.substitute_glyph_ids@.len(),
                        i <= n,
                        out@ == start + u16s_be(f.substitute_glyph_ids@.take(i as int)),
                    decreases n - i,
                {
                    push_u16(&mut out, f.substitute_glyph_ids[i]);
                    assert(f.substitute_glyph_ids@.take(i + 1).drop_last()
                        =~= f.substitute_glyph_ids@.take(i as int));
                    i = i + 1;
                }
                assert(f.substitute_glyph_ids@.take(i as int) =~= f.substitute_glyph_ids@);
                f.coverage.to_bytes(&mut out);
            },
        }
        Ok(out)
    }
}

impl SingleSubstInternal {
    /// Builds the preferred layout of a mapping: the uniform delta where one
    /// relates every pair, the explicit list of outputs in input order
    /// otherwise; the coverage lists the input glyphs.
    pub fn from(val: &SingleSubst) -> (r: SingleSubstInternal)
        ensures
            r.spec_bytes() == subst_encode(val.mapping@),
            r.fits() == subst_encodable(val.mapping@),
            match r {
                SingleSubstInternal::Format1(f) => has_uniform_delta(val.mapping@)
                    && f.coverage.glyphs@ == keys_of(val.mapping@)
                    && f.delta_glyph_id as u16 == first_delta(val.mapping@),
                SingleSubstInternal::Format2(f) => !has_uniform_delta(val.mapping@)
                    && f.coverage.glyphs@ == keys_of(val.mapping@)
                    && f.substitute_glyph_ids@ == outputs_of(val.mapping@),
            },
    {
        let n = val.mapping.len();
        let mut glyphs: Vec<u16> = Vec::new();
        let mut outputs: Vec<u16> = Vec::new();
        let mut i: usize = 0;
        while i < n
            invariant
                n == val.mapping@.len(),
                i <= n,
                glyphs@ == keys_of(val.mapping@).take(i as int),
                outputs@ == outputs_of(val.mapping@).take(i as int),
            decreases n - i,
        {
            glyphs.push(val.mapping[i].0);
            outputs.push(val.mapping[i].1);
            assert(glyphs@ =~= keys_of(val.mapping@).take(i + 1));
            assert(outputs@ =~= outputs_of(val.mapping@).take(i + 1));
            i = i + 1;
        }
        assert(glyphs@ =~= keys_of(val.mapping@));
        assert(outputs@ =~= outputs_of(val.mapping@));
        let coverage = Coverage { glyphs };
        let (format, delta) = val.best_format();
        if format == 1 {
            SingleSubstInternal::Format1(SingleSubstFormat1 { coverage, delta_glyph_id: delta })
        } else {
            SingleSubstInternal::Format2(
                SingleSubstFormat2 { coverage, substitute_glyph_ids: outputs },
            )
        }
    }
}

impl SingleSubst {
    /// Input glyphs are strictly ascending, hence unique.
    pub open spec fn wf(&self) -> bool {
        strictly_ascending(keys_of(self.mapping@))
    }

    /// Whether the input glyphs are strictly ascending.
    pub fn is_well_formed(&self) -> (r: bool)
        ensures
            r == self.wf(),
    {
        let n = self.mapping.len();
        if n == 0 {
            return true;
        }
        let mut i: usize = 1;
        while i < n
            invariant
                n == self.mapping@.len(),
                1 <= i <= n,
                strictly_ascending(keys_of(self.mapping@).take(i as int)),
            decreases n - i,
        {
            if self.mapping[i - 1].0 >= self.mapping[i].0 {
                assert(keys_of(self.mapping@)[i - 1] >= keys_of(self.mapping@)[i as int]);
                return false;
            }
            let ghost t = keys_of(self.mapping@).take(i + 1);
            assert forall|x: int, y: int| 0 <= x < y < t.len() implies #[trigger] t[x] < #[trigger] t[y] by {
                if y == i && x < i - 1 {
                    assert(keys_of(self.mapping@).take(i as int)[x] < keys_of(self.mapping@).take(i as int)[i - 1]);
                }
                if y < i {
                    assert(keys_of(self.mapping@).take(i as int)[x] < keys_of(self.mapping@).take(i as int)[y]);
                }
            }
            i = i + 1;
        }
        assert(keys_of(self.mapping@).take(i as int) =~= keys_of(self.mapping@));
        true
    }

    /// Chooses the layout: `(1, delta)` where one delta relates every input
    /// glyph to its output, `(2, delta)` otherwise; the delta is that of the
    /// first pair, or 0 for an empty mapping.
    pub fn best_format(&self) -> (r: (u16, i16))
        ensures
            r.0 == (if has_uniform_delta(self.mapping@) { 1u16 } else { 2u16 }),
            self.mapping@.len() > 0 ==> r.1 as u16 == first_delta(self.mapping@),
            self.mapping@.len() == 0 ==> r.1 == 0,
    {
        let n = self.mapping.len();
        if n == 0 {
            return (2, 0);
        }
        let (first_left, first_right) = self.mapping[0];
        let delta: u16 = ((first_right as u32 + 65536 - first_left as u32) % 65536) as u16;
        assert((delta as i16) as u16 == delta) by (bit_vector);
        let mut i: usize = 1;
        while i < n
            invariant
                n == self.mapping@.len(),
                1 <= i <= n,
                delta == first_delta(self.mapping@),
                (delta as i16) as u16 == delta,
                forall|j: int| 0 <= j < i ==> #[trigger] self.mapping@[j].1 == wrap_add(
                    self.mapping@[j].0,
                    delta,
                ),
            decreases n - i,
        {
            let (left, right) = self.mapping[i];
            if ((left as u32 + delta as u32) % 65536) as u16 != right {
                return (2, delta as i16);
            }
            i = i + 1;
        }
        (1, delta as i16)
    }

    /// Writes the subtable in its preferred layout.
    pub fn to_bytes(&self) -> (r: Result<Vec<u8>, EncodeError>)
        ensures
            match r {
                Ok(b) => subst_encodable(self.mapping@) && b@ == subst_encode(self.mapping@)
                    && (self.wf() ==> subst_decode(b@) == Ok::<Seq<(u16, u16)>, DecodeError>(self.mapping@)),
                Err(e) => !subst_encodable(self.mapping@) && e == EncodeError::TooLarge,
            },
    {
        let ssi = SingleSubstInternal::from(self);
        let r = ssi.to_bytes();
        proof {
            if r is Ok && self.wf() {
                lemma_subst_round_trip(self.mapping@);
            }
        }
        r
    }

    /// Reads a single substitution subtable whose first byte is `d[0]`.
    pub fn from_bytes(d: &[u8]) -> (r: Result<SingleSubst, DecodeError>)
        ensures
            match r {
                Ok(s) => subst_decode(d@) == Ok::<Seq<(u16, u16)>, DecodeError>(s.mapping@) && s.wf(),
                Err(e) => subst_decode(d@) == Err::<Seq<(u16, u16)>, DecodeError>(e),
            },
    {
        let format = match read_u16(d, 0) {
            Some(f) => f,
            None => return Err(DecodeError::Truncated),
        };
        if format != 1 && format != 2 {
            return Err(DecodeError::BadFormat);
        }
        if d.len() < 6 {
            return Err(DecodeError::Truncated);
        }
        let cov_off = read_u16(d, 2).unwrap();
        let value = read_u16(d, 4).unwrap();
        let mut mapping: Vec<(u16, u16)> = Vec::new();
        if format == 1 {
            let cov = Coverage::from_bytes(d, cov_off as usize)?;
            let g = &cov.glyphs;
            let ghost want = Seq::new(g@.len(), |i: int| (g@[i], wrap_add(g@[i], value)));
            let mut i: usize = 0;
            while i < g.len()
                invariant
                    i <= g@.len(),
                    want == Seq::new(g@.len(), |i: int| (g@[i], wrap_add(g@[i], value))),
                    mapping@ == want.take(i as int),
                decreases g@.len() - i,
            {
                let k = g[i];
                mapping.push((k, ((k as u32 + value as u32) % 65536) as u16));
                assert(mapping@ =~= want.take(i + 1));
                i = i + 1;
            }
            assert(mapping@ =~= want);
            assert(keys_of(mapping@) =~= g@);
        } else {
            if (d.len() - 6) / 2 < value as usize {
                return Err(DecodeError::Truncated);
            }
            let cov = Coverage::from_bytes(d, cov_off as usize)?;
            let g = &cov.glyphs;
            let ghost subs = be16s_at(d@, 6, value as int);
            let n: usize = if g.len() <= value as usize { g.len() } else { value as usize };
            let ghost want = Seq::new(n as nat, |i: int| (g@[i], subs[i]));
            let mut i: usize = 0;
            while i < n
                invariant
                    i <= n,
                    n <= g@.len(),
                    n <= value,
                    6 + 2 * value <= d@.len(),
                    subs == be16s_at(d@, 6, value as int),
                    want == Seq::new(n as nat, |i: int| (g@[i], subs[i])),
                    mapping@ == want.take(i as int),
                decreases n - i,
            {
                let v = read_u16(d, 6 + 2 * i).unwrap();
                mapping.push((g[i], v));
                assert(mapping@ =~= want.take(i + 1));
                i = i + 1;
            }
            assert(mapping@ =~= want);
            assert(keys_of(mapping@) =~= g@.take(n as int));
        }
        Ok(SingleSubst { mapping })
    }
}

} // verus!
