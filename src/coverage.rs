//! Coverage tables: the ascending glyph list whose positions index the
//! parallel arrays of a subtable.
use vstd::prelude::*;
use crate::binary::{
    be16_at, be16s_at, hi, lemma_hi_lo, lemma_read_u16s, lemma_u16s_be, lo, push_u16, read_u16,
    u16_be, u16s_be, DecodeError,
};

verus! {

/// Every glyph is smaller than the ones after it.
pub open spec fn strictly_ascending(s: Seq<u16>) -> bool {
    forall|i: int, j: int| 0 <= i < j < s.len() ==> s[i] < s[j]
}

/// The bytes of a coverage table listing `g` (glyph list layout).
pub open spec fn coverage_bytes(g: Seq<u16>) -> Seq<u8> {
    u16_be(1) + u16_be(g.len() as u16) + u16s_be(g)
}

/// Size in bytes of the coverage table of `n` glyphs.
pub open spec fn coverage_size(n: int) -> int {
    4 + 2 * n
}

/// The glyphs `start` to `end`, both included; none where `end < start`.
pub open spec fn range_glyphs(start: u16, end: u16) -> Seq<u16> {
    Seq::new(if end >= start { (end - start + 1) as nat } else { 0 }, |i: int| (start + i) as u16)
}

/// The glyphs of the first `n` range records stored from `pos` on, each
/// record being first glyph, last glyph and coverage index.
pub open spec fn ranges_at(d: Seq<u8>, pos: int, n: nat) -> Seq<u16>
    decreases n,
{
    if n == 0 {
        Seq::empty()
    } else {
        ranges_at(d, pos, (n - 1) as nat) + range_glyphs(
            be16_at(d, pos + 6 * (n - 1)),
            be16_at(d, pos + 6 * (n - 1) + 2),
        )
    }
}

/// The glyphs of the coverage table that starts at `base` in `d`: a glyph
/// list, or glyph ranges.
pub open spec fn coverage_at(d: Seq<u8>, base: int) -> Result<Seq<u16>, DecodeError> {
    if base + 4 > d.len() {
        Err(DecodeError::Truncated)
    } else if be16_at(d, base) != 1 && be16_at(d, base) != 2 {
        Err(DecodeError::BadFormat)
    } else if be16_at(d, base) == 2 {
        if base + 4 + 6 * be16_at(d, base + 2) > d.len() {
            Err(DecodeError::Truncated)
        } else if !strictly_ascending(ranges_at(d, base + 4, be16_at(d, base + 2) as nat)) {
            Err(DecodeError::Unsorted)
        } else {
            Ok(ranges_at(d, base + 4, be16_at(d, base + 2) as nat))
        }
    } else if base + 4 + 2 * be16_at(d, base + 2) > d.len() {
        Err(DecodeError::Truncated)
    } else if !strictly_ascending(be16s_at(d, base + 4, be16_at(d, base + 2) as int)) {
        Err(DecodeError::Unsorted)
    } else {
        Ok(be16s_at(d, base + 4, be16_at(d, base + 2) as int))
    }
}

/// A coverage table written at `base` reads back as the glyphs written.
pub proof fn lemma_coverage_round_trip(pre: Seq<u8>, g: Seq<u16>, post: Seq<u8>)
    requires
        strictly_ascending(g),
        g.len() <= 0xffff,
    ensures
        coverage_at(pre + coverage_bytes(g) + post, pre.len() as int) == Ok::<Seq<u16>, DecodeError>(g),
        coverage_bytes(g).len() == coverage_size(g.len() as int),
{
    lemma_u16s_be(g);
    let d = pre + coverage_bytes(g) + post;
    let b = pre.len() as int;
    assert(d[b] == 0u8 && d[b + 1] == 1u8);
    assert(d[b + 2] == hi(g.len() as u16) && d[b + 3] == lo(g.len() as u16));
    lemma_hi_lo(g.len() as u16);
    assert(be16_at(d, b + 2) == g.len());
    assert(d =~= (pre + u16_be(1) + u16_be(g.len() as u16)) + u16s_be(g) + post);
    lemma_read_u16s(pre + u16_be(1) + u16_be(g.len() as u16), g, post);
}

/// The glyphs read so far, followed by a glyph not above the last of
/// them, make the whole run of ranges not ascending.
proof fn lemma_not_ascending_grows(
    cur: Seq<u16>,
    rest: Seq<u16>,
    all: Seq<u16>,
    before: Seq<u16>,
    rg: Seq<u16>,
    r: nat,
    n: nat,
    d: Seq<u8>,
    pos: int,
)
    requires
        r < n,
        cur.len() > 0,
        rest.len() > 0,
        cur.last() >= rest[0],
        cur + rest == before + rg,
        before == ranges_at(d, pos, r),
        rg == range_glyphs(be16_at(d, pos + 6 * r), be16_at(d, pos + 6 * r + 2)),
        all == ranges_at(d, pos, n),
    ensures
        !strictly_ascending(all),
{
    lemma_ranges_prefix(d, pos, (r + 1) as nat, n);
    let p = ranges_at(d, pos, (r + 1) as nat);
    assert(p == before + rg);
    assert(p[cur.len() - 1] == cur.last());
    assert(p[cur.len() as int] == rest[0]);
    assert(all[cur.len() - 1] >= all[cur.len() as int]);
}

/// The glyphs of fewer ranges begin the glyphs of more.
proof fn lemma_ranges_prefix(d: Seq<u8>, pos: int, r: nat, n: nat)
    requires
        r <= n,
    ensures
        ranges_at(d, pos, r).len() <= ranges_at(d, pos, n).len(),
        forall|i: int| 0 <= i < ranges_at(d, pos, r).len() ==> #[trigger] ranges_at(d, pos, r)[i] == ranges_at(d, pos, n)[i],
    decreases n - r,
{
    if r < n {
        lemma_ranges_prefix(d, pos, r, (n - 1) as nat);
    }
}

/// An ascending, duplicate-free list of glyph IDs.
#[derive(Debug, Clone, PartialEq, Eq)]
pub struct Coverage {
    pub glyphs: Vec<u16>,
}

impl Coverage {
    /// Appends the coverage table of these glyphs.
    pub fn to_bytes(&self, out: &mut Vec<u8>)
        requires
            self.glyphs@.len() <= 0xffff,
        ensures
            final(out)@ == old(out)@ + coverage_bytes(self.glyphs@),
    {
        push_u16(out, 1);
        push_u16(out, self.glyphs.len() as u16);
        let ghost start = out@;
        let mut i: usize = 0;
        while i < self.glyphs.len()
            invariant
                i <= self.glyphs@.len(),
                out@ == start + u16s_be(self.glyphs@.take(i as int)),
            decreases self.glyphs@.len() - i,
        {
            push_u16(out, self.glyphs[i]);
            assert(self.glyphs@.take(i + 1).drop_last() =~= self.glyphs@.take(i as int));
            i = i + 1;
        }
        assert(self.glyphs@.take(i as int) =~= self.glyphs@);
        assert(out@ =~= old(out)@ + coverage_bytes(self.glyphs@));
    }

    /// Reads a coverage table of glyph ranges that starts at `base`.
    fn ranges_from_bytes(d: &[u8], base: usize) -> (r: Result<Coverage, DecodeError>)
        requires
            base + 4 <= d@.len(),
            be16_at(d@, base as int) == 2,
        ensures
            match r {
                Ok(c) => coverage_at(d@, base as int) == Ok::<Seq<u16>, DecodeError>(c.glyphs@),
                Err(e) => coverage_at(d@, base as int) == Err::<Seq<u16>, DecodeError>(e),
            },
    {
        let len = d.len();
        let n = read_u16(d, base + 2).unwrap();
        if (len - base - 4) / 6 < n as usize {
            return Err(DecodeError::Truncated);
        }
        let ghost all = ranges_at(d@, base + 4, n as nat);
        let mut glyphs: Vec<u16> = Vec::new();
        let mut r: usize = 0;
        assert(glyphs@ =~= ranges_at(d@, base + 4, 0));
        while r < n as usize
            invariant
                len == d@.len(),
                r <= n,
                base + 4 + 6 * n <= len,
                be16_at(d@, base as int) == 2,
                be16_at(d@, base + 2) == n,
                all == ranges_at(d@, base + 4, n as nat),
                glyphs@ == ranges_at(d@, base + 4, r as nat),
                strictly_ascending(glyphs@),
            decreases n - r,
        {
            let start = read_u16(d, base + 4 + 6 * r).unwrap();
            let end = read_u16(d, base + 4 + 6 * r + 2).unwrap();
            let ghost before = glyphs@;
            let ghost rg = range_glyphs(start, end);
            let mut g: u32 = start as u32;
            while g <= end as u32
                invariant
                    r < n,
                    base + 4 + 6 * n <= len,
                    len == d@.len(),
                    be16_at(d@, base as int) == 2,
                    be16_at(d@, base + 2) == n,
                    start <= g <= end as u32 + 1 || (g == start && end < start),
                    start == be16_at(d@, base + 4 + 6 * r),
                    end == be16_at(d@, base + 4 + 6 * r + 2),
                    before == ranges_at(d@, base + 4, r as nat),
                    all == ranges_at(d@, base + 4, n as nat),
                    rg == range_glyphs(start, end),
                    glyphs@ == before + rg.take(g - start),
                    strictly_ascending(glyphs@),
                decreases end as u32 + 1 - g,
            {
                if glyphs.len() > 0 && glyphs[glyphs.len() - 1] as u32 >= g {
                    proof {
                        assert(glyphs@ + rg.skip(g - start) =~= before + rg);
                        lemma_not_ascending_grows(glyphs@, rg.skip(g - start), all, before, rg, r as nat, n as nat, d@, base + 4);
                    }
                    return Err(DecodeError::Unsorted);
                }
                glyphs.push(g as u16);
                assert(glyphs@ =~= before + rg.take(g - start + 1));
                g = g + 1;
            }
            if start <= end {
                assert(rg.take(g - start) =~= rg);
            } else {
                assert(rg =~= Seq::<u16>::empty());
                assert(glyphs@ =~= before + rg);
            }
            assert(ranges_at(d@, base + 4, (r + 1) as nat) == before + rg);
            r = r + 1;
        }
        Ok(Coverage { glyphs })
    }

    /// Reads the coverage table that starts at `base`.
    pub fn from_bytes(d: &[u8], base: usize) -> (r: Result<Coverage, DecodeError>)
        ensures
            match r {
                Ok(c) => coverage_at(d@, base as int) == Ok::<Seq<u16>, DecodeError>(c.glyphs@),
                Err(e) => coverage_at(d@, base as int) == Err::<Seq<u16>, DecodeError>(e),
            },
    {
        if base > d.len() || d.len() - base < 4 {
            return Err(DecodeError::Truncated);
        }
        let format = read_u16(d, base).unwrap();
        if format != 1 && format != 2 {
            return Err(DecodeError::BadFormat);
        }
        if format == 2 {
            return Coverage::ranges_from_bytes(d, base);
        }
        let n = read_u16(d, base + 2).unwrap();
        if d.len() - base - 4 < 2 * (n as usize) {
            return Err(DecodeError::Truncated);
        }
        let len = d.len();
        let ghost all = be16s_at(d@, base + 4, n as int);
        let mut glyphs: Vec<u16> = Vec::new();
        let mut i: usize = 0;
        while i < n as usize
            invariant
                i <= n,
                base + 4 + 2 * n <= d@.len(),
                len == d@.len(),
                all == be16s_at(d@, base + 4, n as int),
                glyphs@ == all.take(i as int),
                be16_at(d@, base as int) == 1,
                be16_at(d@, base + 2) == n,
                strictly_ascending(glyphs@),
            decreases n - i,
        {
            assert(base + 4 + 2 * i + 2 <= d@.len());
            let g = read_u16(d, base + 4 + 2 * i).unwrap();
            assert(g == all[i as int]);
            if i > 0 && g <= glyphs[i - 1] {
                assert(all[i - 1] >= all[i as int]);
                assert(!strictly_ascending(all));
                assert(be16_at(d@, base as int) == 1);
                assert(be16_at(d@, base + 2) == n);
                return Err(DecodeError::Unsorted);
            }
            glyphs.push(g);
            assert(glyphs@ =~= all.take(i + 1));
            i = i + 1;
        }
        assert(glyphs@ =~= all);
        Ok(Coverage { glyphs })
    }
}

} // verus!
