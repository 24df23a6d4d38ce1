//! Pair positioning subtables: adjustments for pairs of glyphs, written as
//! one list of pairs for each covered first glyph.
use vstd::prelude::*;
use crate::binary::{
    be16_at, be16s_at, hi, lemma_hi_lo, lemma_read_u16s, lemma_u16s_be, lo, push_u16, read_u16,
    u16_be, u16s_be, DecodeError, EncodeError,
};
use crate::coverage::{coverage_at, coverage_bytes, coverage_size, strictly_ascending, Coverage};
use crate::valuerecord::{
    highest_format, highest_format_of, read_record, record_at, record_bytes, record_size,
    record_len, simplified, write_record, ValueRecord,
};

verus! {

/// One entry of a pair mapping: first glyph, second glyph, and the
/// adjustments of the first and of the second glyph.
pub type PairEntry = (u16, u16, ValueRecord, ValueRecord);

/// `a` comes before `b` in ascending order of glyph pairs.
pub open spec fn pair_lt(a: PairEntry, b: PairEntry) -> bool {
    a.0 < b.0 || (a.0 == b.0 && a.1 < b.1)
}

/// The glyph pairs are strictly ascending, hence unique.
pub open spec fn pairs_ascending(m: Seq<PairEntry>) -> bool {
    forall|i: int, j: int| 0 <= i < j < m.len() ==> pair_lt(m[i], m[j])
}

/// The entry with both records stripped of zero fields.
pub open spec fn simplified_entry(e: PairEntry) -> PairEntry {
    (e.0, e.1, simplified(e.2), simplified(e.3))
}

/// Every record of the mapping stripped of zero fields.
pub open spec fn simplified_entries(m: Seq<PairEntry>) -> Seq<PairEntry> {
    m.map_values(|e: PairEntry| simplified_entry(e))
}

/// The first-glyph records of a mapping.
pub open spec fn first_records(m: Seq<PairEntry>) -> Seq<ValueRecord> {
    m.map_values(|e: PairEntry| e.2)
}

/// The second-glyph records of a mapping.
pub open spec fn second_records(m: Seq<PairEntry>) -> Seq<ValueRecord> {
    m.map_values(|e: PairEntry| e.3)
}

/// A second glyph with its two records, as a pair set holds it.
#[derive(Debug, Clone, Copy, PartialEq, Eq, Structural)]
pub struct PairValueRecord {
    pub second_glyph: u16,
    pub value_record1: ValueRecord,
    pub value_record2: ValueRecord,
}

/// The pairs that start with one covered glyph.
#[derive(Debug, Clone, PartialEq, Eq)]
pub struct PairSet {
    pub pair_value_records: Vec<PairValueRecord>,
}

/// Pair-list layout: a pair set for each covered first glyph.
#[derive(Debug, Clone, PartialEq, Eq)]
pub struct PairPosFormat1 {
    pub coverage: Coverage,
    pub value_format1: u16,
    pub value_format2: u16,
    pub pair_sets: Vec<PairSet>,
}

/// The records of one pair of glyph classes.
#[derive(Debug, Clone, Copy, PartialEq, Eq, Structural)]
pub struct Class2Record {
    pub value_record1: ValueRecord,
    pub value_record2: ValueRecord,
}

/// The records of one first-glyph class, one for each second-glyph class.
#[derive(Debug, Clone, PartialEq, Eq)]
pub struct Class1Record {
    pub class2_records: Vec<Class2Record>,
}

/// Class-matrix layout. This library neither reads nor writes it.
#[derive(Debug, Clone, PartialEq, Eq)]
pub struct PairPosFormat2 {
    pub coverage: Coverage,
    pub value_format1: u16,
    pub value_format2: u16,
    /// Glyph and class of each first glyph that has a class.
    pub class_def1: Vec<(u16, u16)>,
    /// Glyph and class of each second glyph that has a class.
    pub class_def2: Vec<(u16, u16)>,
    pub class_count1: u16,
    pub class_count2: u16,
    pub class1_records: Vec<Class1Record>,
}

/// A pair positioning subtable in one of its wire layouts.
#[derive(Debug, Clone, PartialEq, Eq)]
pub enum PairPosInternal {
    Format1(PairPosFormat1),
    Format2(PairPosFormat2),
}

/// A pair positioning subtable.
#[derive(Debug, Clone, PartialEq, Eq)]
pub struct PairPos {
    /// First glyph, second glyph and their records, in strictly ascending
    /// order of glyph pairs.
    pub mapping: Vec<PairEntry>,
}

/// The entries of one pair set, with the first glyph put back.
pub open spec fn set_entries(left: u16, ps: Seq<PairValueRecord>) -> Seq<PairEntry> {
    ps.map_values(|p: PairValueRecord| (left, p.second_glyph, p.value_record1, p.value_record2))
}

/// The entries of all pair sets, set by set in coverage order.
pub open spec fn flatten(cov: Seq<u16>, sets: Seq<Seq<PairValueRecord>>) -> Seq<PairEntry>
    decreases sets.len(),
{
    if sets.len() == 0 {
        Seq::empty()
    } else {
        flatten(cov, sets.drop_last()) + set_entries(cov[sets.len() - 1], sets.last())
    }
}

/// The contents of the pair sets of a layout.
pub open spec fn sets_view(sets: Seq<PairSet>) -> Seq<Seq<PairValueRecord>> {
    sets.map_values(|s: PairSet| s.pair_value_records@)
}

/// The parts one after another.
pub open spec fn concat(parts: Seq<Seq<u8>>) -> Seq<u8>
    decreases parts.len(),
{
    if parts.len() == 0 {
        Seq::empty()
    } else {
        concat(parts.drop_last()) + parts.last()
    }
}

/// The bytes of one pair under the two flag sets.
pub open spec fn pair_record_bytes(p: PairValueRecord, vf1: u16, vf2: u16) -> Seq<u8> {
    u16_be(p.second_glyph) + record_bytes(p.value_record1, vf1) + record_bytes(p.value_record2, vf2)
}

/// The bytes of one pair set: its count, then its pairs.
pub open spec fn pair_set_bytes(ps: Seq<PairValueRecord>, vf1: u16, vf2: u16) -> Seq<u8> {
    u16_be(ps.len() as u16) + concat(ps.map_values(|p: PairValueRecord| pair_record_bytes(p, vf1, vf2)))
}

/// The bytes of all pair sets, one after another.
pub open spec fn sets_bytes(sets: Seq<Seq<PairValueRecord>>, vf1: u16, vf2: u16) -> Seq<u8> {
    concat(sets.map_values(|s: Seq<PairValueRecord>| pair_set_bytes(s, vf1, vf2)))
}

/// Where the pair sets start: the first at `start`, each next one after
/// the sets before it.
pub open spec fn set_offsets(sets: Seq<Seq<PairValueRecord>>, start: int, vf1: u16, vf2: u16) -> Seq<u16> {
    Seq::new(sets.len(), |i: int| (start + sets_bytes(sets.take(i), vf1, vf2).len()) as u16)
}

/// Where the pair sets of a layout with `c` covered glyphs and `k` pair sets
/// start: after the header and the coverage table.
pub open spec fn sets_start(c: int, k: int) -> int {
    10 + 2 * k + coverage_size(c)
}

/// The bytes of a pair-list layout.
pub open spec fn format1_bytes(
    cov: Seq<u16>,
    vf1: u16,
    vf2: u16,
    sets: Seq<Seq<PairValueRecord>>,
) -> Seq<u8> {
    u16_be(1) + u16_be((10 + 2 * sets.len()) as u16) + u16_be(vf1) + u16_be(vf2) + u16_be(
        sets.len() as u16,
    ) + u16s_be(set_offsets(sets, sets_start(cov.len() as int, sets.len() as int), vf1, vf2))
        + coverage_bytes(cov) + sets_bytes(sets, vf1, vf2)
}

/// The whole pair-list layout lies within reach of 16-bit offsets, hence
/// every count fits in 16 bits too.
pub open spec fn format1_fits(cov: Seq<u16>, sets: Seq<Seq<PairValueRecord>>, vf1: u16, vf2: u16) -> bool {
    sets_start(cov.len() as int, sets.len() as int) + sets_bytes(sets, vf1, vf2).len() <= 0xffff
}

/// The layout of a mapping: its first glyphs, strictly ascending, each with
/// a nonempty set of the pairs that start with it, records stripped of zero
/// fields.
pub open spec fn grouped(m: Seq<PairEntry>, cov: Seq<u16>, sets: Seq<Seq<PairValueRecord>>) -> bool {
    cov.len() == sets.len() && strictly_ascending(cov) && sets_nonempty(sets) && flatten(cov, sets)
        == simplified_entries(m)
}

/// The flag set of the first-glyph records of a mapping.
pub open spec fn value_format1_of(m: Seq<PairEntry>) -> u16 {
    highest_format_of(first_records(simplified_entries(m)))
}

/// The flag set of the second-glyph records of a mapping.
pub open spec fn value_format2_of(m: Seq<PairEntry>) -> u16 {
    highest_format_of(second_records(simplified_entries(m)))
}

/// The pair stored at `pos`, records stripped of zero fields.
pub open spec fn pair_record_at(d: Seq<u8>, pos: int, vf1: u16, vf2: u16) -> PairValueRecord {
    PairValueRecord {
        second_glyph: be16_at(d, pos),
        value_record1: simplified(record_at(d, pos + 2, vf1)),
        value_record2: simplified(record_at(d, pos + 2 + record_size(vf1), vf2)),
    }
}

/// The pair set stored at `base`.
pub open spec fn pair_set_at(d: Seq<u8>, base: int, vf1: u16, vf2: u16) -> Result<Seq<PairValueRecord>, DecodeError> {
    if base + 2 > d.len() {
        Err(DecodeError::Truncated)
    } else if base + 2 + be16_at(d, base) * pair_record_size(vf1, vf2) > d.len() {
        Err(DecodeError::Truncated)
    } else {
        Ok(Seq::new(
            be16_at(d, base) as nat,
            |j: int| pair_record_at(d, base + 2 + j * pair_record_size(vf1, vf2), vf1, vf2),
        ))
    }
}

/// The entries of the first `n` pair sets, whose offsets follow the header;
/// the first error met, set by set, where one fails.
pub open spec fn pair_sets_at(d: Seq<u8>, cov: Seq<u16>, n: nat, vf1: u16, vf2: u16) -> Result<Seq<PairEntry>, DecodeError>
    decreases n,
{
    if n == 0 {
        Ok(Seq::empty())
    } else {
        match pair_sets_at(d, cov, (n - 1) as nat, vf1, vf2) {
            Err(e) => Err(e),
            Ok(prev) => match pair_set_at(d, be16_at(d, 10 + 2 * (n - 1)) as int, vf1, vf2) {
                Err(e) => Err(e),
                Ok(ps) => Ok(prev + set_entries(cov[n - 1], ps)),
            },
        }
    }
}

/// Once a pair set fails, every longer run of sets fails the same way.
proof fn lemma_pair_sets_err(d: Seq<u8>, cov: Seq<u16>, i: nat, n: nat, vf1: u16, vf2: u16)
    requires
        i <= n,
        pair_sets_at(d, cov, i, vf1, vf2) is Err,
    ensures
        pair_sets_at(d, cov, n, vf1, vf2) == pair_sets_at(d, cov, i, vf1, vf2),
    decreases n - i,
{
    if i < n {
        lemma_pair_sets_err(d, cov, i, (n - 1) as nat, vf1, vf2);
    }
}

/// The mapping that a pair positioning subtable's bytes hold.
pub open spec fn pairpos_decode(d: Seq<u8>) -> Result<Seq<PairEntry>, DecodeError> {
    if d.len() < 2 {
        Err(DecodeError::Truncated)
    } else if be16_at(d, 0) != 1 && be16_at(d, 0) != 2 {
        Err(DecodeError::BadFormat)
    } else if be16_at(d, 0) == 2 {
        Err(DecodeError::Unsupported)
    } else if d.len() < 10 {
        Err(DecodeError::Truncated)
    } else if 10 + 2 * be16_at(d, 8) > d.len() {
        Err(DecodeError::Truncated)
    } else {
        match coverage_at(d, be16_at(d, 2) as int) {
            Err(e) => Err(e),
            Ok(cov) => {
                let n = if cov.len() <= be16_at(d, 8) { cov.len() } else { be16_at(d, 8) as nat };
                match pair_sets_at(d, cov, n, be16_at(d, 4), be16_at(d, 6)) {
                    Err(e) => Err(e),
                    Ok(m) => if pairs_ascending(m) { Ok(m) } else { Err(DecodeError::Unsorted) },
                }
            },
        }
    }
}

/// Size in bytes of one pair under the two flag sets.
pub open spec fn pair_record_size(vf1: u16, vf2: u16) -> int {
    2 + record_size(vf1) + record_size(vf2)
}

/// Adding a part adds its bytes at the end.
proof fn lemma_concat_push(parts: Seq<Seq<u8>>, p: Seq<u8>)
    ensures
        concat(parts.push(p)) == concat(parts) + p,
{
    assert(parts.push(p).drop_last() =~= parts);
}

/// Parts of one common length `l` concatenate to `n * l` bytes.
proof fn lemma_concat_uniform_len(parts: Seq<Seq<u8>>, l: int)
    requires
        forall|i: int| 0 <= i < parts.len() ==> #[trigger] parts[i].len() == l,
    ensures
        concat(parts).len() == parts.len() * l,
    decreases parts.len(),
{
    if parts.len() > 0 {
        lemma_concat_uniform_len(parts.drop_last(), l);
        assert(concat(parts).len() == (parts.len() - 1) * l + l);
        assert((parts.len() - 1) * l + l == parts.len() * l) by (nonlinear_arith);
    }
}

/// Every pair takes the same number of bytes under given flag sets.
proof fn lemma_pair_record_len(p: PairValueRecord, vf1: u16, vf2: u16)
    ensures
        pair_record_bytes(p, vf1, vf2).len() == pair_record_size(vf1, vf2),
{
    crate::valuerecord::lemma_record_len(p.value_record1, vf1);
    crate::valuerecord::lemma_record_len(p.value_record2, vf2);
}

/// A pair set takes its count field and one fixed size for each pair.
proof fn lemma_pair_set_len(ps: Seq<PairValueRecord>, vf1: u16, vf2: u16)
    ensures
        pair_set_bytes(ps, vf1, vf2).len() == 2 + ps.len() * pair_record_size(vf1, vf2),
        pair_set_bytes(ps, vf1, vf2).len() >= 2 + 2 * ps.len(),
{
    let parts = ps.map_values(|p: PairValueRecord| pair_record_bytes(p, vf1, vf2));
    assert forall|i: int| 0 <= i < parts.len() implies #[trigger] parts[i].len() == pair_record_size(vf1, vf2) by {
        lemma_pair_record_len(ps[i], vf1, vf2);
    }
    lemma_concat_uniform_len(parts, pair_record_size(vf1, vf2));
    let l = pair_record_size(vf1, vf2);
    crate::valuerecord::lemma_record_size_bounds(vf1);
    crate::valuerecord::lemma_record_size_bounds(vf2);
    assert(l >= 2);
    assert(ps.len() * l >= ps.len() * 2) by (nonlinear_arith) requires l >= 2;
}

/// Appends one pair set: its count, then each pair.
fn write_pair_set(out: &mut Vec<u8>, ps: &PairSet, vf1: u16, vf2: u16)
    requires
        ps.pair_value_records@.len() <= 0xffff,
    ensures
        final(out)@ == old(out)@ + pair_set_bytes(ps.pair_value_records@, vf1, vf2),
{
    let recs = &ps.pair_value_records;
    let ghost parts = recs@.map_values(|p: PairValueRecord| pair_record_bytes(p, vf1, vf2));
    push_u16(out, recs.len() as u16);
    let ghost start = out@;
    let mut i: usize = 0;
    while i < recs.len()
        invariant
            i <= recs@.len(),
            parts == recs@.map_values(|p: PairValueRecord| pair_record_bytes(p, vf1, vf2)),
            out@ == start + concat(parts.take(i as int)),
        decreases recs@.len() - i,
    {
        let p = recs[i];
        push_u16(out, p.second_glyph);
        write_record(out, &p.value_record1, vf1);
        write_record(out, &p.value_record2, vf2);
        proof {
            assert(parts.take(i + 1) =~= parts.take(i as int).push(parts[i as int]));
            lemma_concat_push(parts.take(i as int), parts[i as int]);
        }
        i = i + 1;
    }
    assert(parts.take(i as int) =~= parts);
    assert(final(out)@ =~= old(out)@ + pair_set_bytes(ps.pair_value_records@, vf1, vf2));
}

/// Each pair set holds at least one pair.
pub open spec fn sets_nonempty(sets: Seq<Seq<PairValueRecord>>) -> bool {
    forall|i: int| 0 <= i < sets.len() ==> #[trigger] sets[i].len() > 0
}

/// Flattening reads only the covered glyphs that have a set.
proof fn lemma_flatten_prefix(c1: Seq<u16>, c2: Seq<u16>, sets: Seq<Seq<PairValueRecord>>)
    requires
        c1.len() >= sets.len(),
        c2.len() >= sets.len(),
        forall|i: int| 0 <= i < sets.len() ==> c1[i] == c2[i],
    ensures
        flatten(c1, sets) == flatten(c2, sets),
    decreases sets.len(),
{
    if sets.len() > 0 {
        lemma_flatten_prefix(c1, c2, sets.drop_last());
    }
}

/// Adding a set adds its entries at the end.
proof fn lemma_flatten_push(cov: Seq<u16>, sets: Seq<Seq<PairValueRecord>>, left: u16, ps: Seq<PairValueRecord>)
    requires
        cov.len() == sets.len(),
    ensures
        flatten(cov.push(left), sets.push(ps)) == flatten(cov, sets) + set_entries(left, ps),
{
    assert(sets.push(ps).drop_last() =~= sets);
    lemma_flatten_prefix(cov.push(left), cov, sets);
}

/// The bytes of the first `i + 1` sets are those of the first `i` and
/// then set `i`.
proof fn lemma_sets_bytes_step(sets: Seq<Seq<PairValueRecord>>, i: int, vf1: u16, vf2: u16)
    requires
        0 <= i < sets.len(),
    ensures
        sets_bytes(sets.take(i + 1), vf1, vf2) == sets_bytes(sets.take(i), vf1, vf2)
            + pair_set_bytes(sets[i], vf1, vf2),
{
    let a = sets.take(i + 1).map_values(|s: Seq<PairValueRecord>| pair_set_bytes(s, vf1, vf2));
    let b = sets.take(i).map_values(|s: Seq<PairValueRecord>| pair_set_bytes(s, vf1, vf2));
    assert(a =~= b.push(pair_set_bytes(sets[i], vf1, vf2)));
    lemma_concat_push(b, pair_set_bytes(sets[i], vf1, vf2));
}

/// Writes the pair sets one after another, and where each starts when the
/// first starts at `start`; `None` where they reach past 16-bit offsets.
fn write_pair_sets(ps: &Vec<PairSet>, start: usize, vf1: u16, vf2: u16) -> (r: Option<(Vec<u8>, Vec<u16>)>)
    requires
        start <= 0xffff,
    ensures
        match r {
            Some(w) => start + sets_bytes(sets_view(ps@), vf1, vf2).len() <= 0xffff
                && w.0@ == sets_bytes(sets_view(ps@), vf1, vf2)
                && w.1@ == set_offsets(sets_view(ps@), start as int, vf1, vf2),
            None => start + sets_bytes(sets_view(ps@), vf1, vf2).len() > 0xffff,
        },
{
    let ghost sets = sets_view(ps@);
    let k = ps.len();
    let mut body: Vec<u8> = Vec::new();
    let mut offsets: Vec<u16> = Vec::new();
    let mut i: usize = 0;
    while i < k
        invariant
            k == ps@.len(),
            i <= k,
            start <= 0xffff,
            sets == sets_view(ps@),
            body@ == sets_bytes(sets.take(i as int), vf1, vf2),
            start + body@.len() <= 0xffff,
            offsets@ == set_offsets(sets, start as int, vf1, vf2).take(i as int),
        decreases k - i,
    {
        let p = &ps[i];
        proof {
            lemma_sets_bytes_step(sets, i as int, vf1, vf2);
            lemma_pair_set_len(sets[i as int], vf1, vf2);
            lemma_sets_len_grows(sets, i as int + 1, vf1, vf2);
            assert(sets[i as int] == p.pair_value_records@);
        }
        if p.pair_value_records.len() > 0xffff {
            return None;
        }
        offsets.push((start + body.len()) as u16);
        write_pair_set(&mut body, p, vf1, vf2);
        assert(offsets@ =~= set_offsets(sets, start as int, vf1, vf2).take(i + 1));
        if body.len() > 0xffff - start {
            return None;
        }
        i = i + 1;
    }
    assert(sets.take(i as int) =~= sets);
    assert(offsets@ =~= set_offsets(sets, start as int, vf1, vf2));
    Some((body, offsets))
}

/// Always the pair-list layout: the class-matrix layout is never chosen.
fn best_format(_mapping: &Vec<PairEntry>) -> (r: u16)
    ensures
        r == 1,
{
    1
}

/// A copy of the mapping with zero fields removed from every record.
fn simplify_entries(m: &Vec<PairEntry>) -> (r: Vec<PairEntry>)
    ensures
        r@ == simplified_entries(m@),
{
    let mut out: Vec<PairEntry> = Vec::new();
    let mut i: usize = 0;
    while i < m.len()
        invariant
            i <= m@.len(),
            out@ == simplified_entries(m@).take(i as int),
        decreases m@.len() - i,
    {
        let (l, r, v1, v2) = m[i];
        let mut a = v1;
        a.simplify();
        let mut b = v2;
        b.simplify();
        let ghost sm = simplified_entries(m@);
        assert(sm[i as int] == (l, r, a, b));
        assert(sm.take(i + 1) =~= sm.take(i as int).push(sm[i as int]));
        out.push((l, r, a, b));
        i = i + 1;
    }
    assert(out@ =~= simplified_entries(m@));
    out
}

/// Removing zero fields keeps the glyph pairs, hence their order.
proof fn lemma_simplified_ascending(m: Seq<PairEntry>)
    requires
        pairs_ascending(m),
    ensures
        pairs_ascending(simplified_entries(m)),
{
    let sm = simplified_entries(m);
    assert forall|i: int, j: int| 0 <= i < j < sm.len() implies pair_lt(sm[i], sm[j]) by {
        assert(pair_lt(m[i], m[j]));
    }
}

/// Groups the pairs by first glyph, keeping each record as it is, and
/// collects the records of each slot.
fn split_into_two_layer(m: &Vec<PairEntry>) -> (r: (Vec<u16>, Vec<PairSet>, Vec<ValueRecord>, Vec<ValueRecord>))
    requires
        pairs_ascending(m@),
    ensures
        r.0@.len() == r.1@.len(),
        strictly_ascending(r.0@),
        sets_nonempty(sets_view(r.1@)),
        flatten(r.0@, sets_view(r.1@)) == m@,
        r.2@ == first_records(m@),
        r.3@ == second_records(m@),
{
    let ghost sm = m@;
    let n = m.len();
    let mut cov: Vec<u16> = Vec::new();
    let mut sets: Vec<PairSet> = Vec::new();
    let mut cur: Vec<PairValueRecord> = Vec::new();
    let mut cur_left: u16 = 0;
    let mut firsts: Vec<ValueRecord> = Vec::new();
    let mut seconds: Vec<ValueRecord> = Vec::new();
    let mut i: usize = 0;
    while i < n
        invariant
            n == m@.len(),
            i <= n,
            pairs_ascending(m@),
            sm == m@,
            cov@.len() == sets@.len(),
            sets_nonempty(sets_view(sets@)),
            firsts@ == first_records(sm).take(i as int),
            seconds@ == second_records(sm).take(i as int),
            i == 0 ==> cov@.len() == 0 && cur@.len() == 0,
            i > 0 ==> cur@.len() > 0 && cur_left == m@[i - 1].0 && strictly_ascending(cov@.push(cur_left)),
            flatten(cov@, sets_view(sets@)) + set_entries(cur_left, cur@) == sm.take(i as int),
        decreases n - i,
    {
        let (l, r, v1, v2) = m[i];
        let a = v1;
        let b = v2;
        let p = PairValueRecord { second_glyph: r, value_record1: a, value_record2: b };
        assert(sm[i as int] == (l, r, a, b));
        if i == 0 || l != cur_left {
            if i > 0 {
                proof {
                    lemma_flatten_push(cov@, sets_view(sets@), cur_left, cur@);
                    assert(sets_view(sets@.push(PairSet { pair_value_records: cur })) =~= sets_view(sets@).push(cur@));
                    assert(pair_lt(m@[i - 1], m@[i as int]));
                    let c2 = cov@.push(cur_left).push(l);
                    assert forall|x: int, y: int| 0 <= x < y < c2.len() implies c2[x] < c2[y] by {
                        if y == c2.len() - 1 && x < c2.len() - 2 {
                            assert(cov@.push(cur_left)[x] < cov@.push(cur_left)[c2.len() - 2]);
                        }
                    }
                }
                cov.push(cur_left);
                sets.push(PairSet { pair_value_records: cur });
            } else {
                assert(flatten(cov@, sets_view(sets@)) == Seq::<PairEntry>::empty());
            }
            cur = Vec::new();
            cur_left = l;
        }
        let ghost before = cur@;
        cur.push(p);
        assert(set_entries(cur_left, cur@) =~= set_entries(cur_left, before).push((l, r, a, b)));
        assert(sm.take(i + 1) =~= sm.take(i as int).push(sm[i as int]));
        firsts.push(a);
        seconds.push(b);
        assert(firsts@ =~= first_records(sm).take(i + 1));
        assert(seconds@ =~= second_records(sm).take(i + 1));
        i = i + 1;
    }
    if n > 0 {
        proof {
            lemma_flatten_push(cov@, sets_view(sets@), cur_left, cur@);
            assert(sets_view(sets@.push(PairSet { pair_value_records: cur })) =~= sets_view(sets@).push(cur@));
        }
        cov.push(cur_left);
        sets.push(PairSet { pair_value_records: cur });
    } else {
        assert(flatten(cov@, sets_view(sets@)) == Seq::<PairEntry>::empty());
    }
    assert(sm.take(n as int) =~= sm);
    assert(firsts@ =~= first_records(sm));
    assert(seconds@ =~= second_records(sm));
    (cov, sets, firsts, seconds)
}

impl PairPosInternal {
    /// The bytes that this layout is written as.
    pub open spec fn spec_bytes(&self) -> Seq<u8> {
        match self {
            PairPosInternal::Format1(f) => format1_bytes(f.coverage.glyphs@, f.value_format1, f.value_format2, sets_view(f.pair_sets@)),
            PairPosInternal::Format2(_) => Seq::empty(),
        }
    }

    /// Writes the subtable. The class-matrix layout is not written; the
    /// pair-list layout is written where it lies within 16-bit offsets.
    pub fn to_bytes(&self) -> (r: Result<Vec<u8>, EncodeError>)
        ensures
            match self {
                PairPosInternal::Format1(f) => match r {
                    Ok(b) => format1_fits(f.coverage.glyphs@, sets_view(f.pair_sets@), f.value_format1, f.value_format2)
                        && b@ == self.spec_bytes(),
                    Err(e) => !format1_fits(f.coverage.glyphs@, sets_view(f.pair_sets@), f.value_format1, f.value_format2)
                        && e == EncodeError::TooLarge,
                },
                PairPosInternal::Format2(_) => r == Err::<Vec<u8>, EncodeError>(EncodeError::Unsupported),
            },
    {
        match self {
            PairPosInternal::Format1(f) => {
                let c = f.coverage.glyphs.len();
                let k = f.pair_sets.len();
                let vf1 = f.value_format1;
                let vf2 = f.value_format2;
                let ghost sets = sets_view(f.pair_sets@);
                if c > 0xffff || k > 0xffff {
                    return Err(EncodeError::TooLarge);
                }
                let start: usize = 10 + 2 * k + 4 + 2 * c;
                if start > 0xffff {
                    return Err(EncodeError::TooLarge);
                }
                let (mut body, offsets) = match write_pair_sets(&f.pair_sets, start, vf1, vf2) {
                    Some(w) => w,
                    None => return Err(EncodeError::TooLarge),
                };
                let mut out: Vec<u8> = Vec::new();
                push_u16(&mut out, 1);
                push_u16(&mut out, (10 + 2 * k) as u16);
                push_u16(&mut out, vf1);
                push_u16(&mut out, vf2);
                push_u16(&mut out, k as u16);
                let ghost head = out@;
                let mut j: usize = 0;
                while j < k
                    invariant
                        j <= k,
                        offsets@.len() == k,
                        out@ == head + u16s_be(offsets@.take(j as int)),
                    decreases k - j,
                {
                    push_u16(&mut out, offsets[j]);
                    assert(offsets@.take(j + 1).drop_last() =~= offsets@.take(j as int));
                    j = j + 1;
                }
                assert(offsets@.take(j as int) =~= offsets@);
                f.coverage.to_bytes(&mut out);
                out.append(&mut body);
                Ok(out)
            },
            PairPosInternal::Format2(_) => Err(EncodeError::Unsupported),
        }
    }
}

/// The bytes of the sets up to `n` never outnumber those of all of them.
proof fn lemma_sets_len_grows(sets: Seq<Seq<PairValueRecord>>, n: int, vf1: u16, vf2: u16)
    requires
        0 <= n <= sets.len(),
    ensures
        sets_bytes(sets.take(n), vf1, vf2).len() <= sets_bytes(sets, vf1, vf2).len(),
        n > 0 ==> sets_bytes(sets.take(n), vf1, vf2).len() >= 2 + 2 * sets[n - 1].len(),
    decreases sets.len() - n,
{
    if n < sets.len() {
        lemma_sets_len_grows(sets, n + 1, vf1, vf2);
        let a = sets.take(n + 1).map_values(|s: Seq<PairValueRecord>| pair_set_bytes(s, vf1, vf2));
        assert(sets.take(n + 1).drop_last() =~= sets.take(n));
        assert(a.drop_last() =~= sets.take(n).map_values(|s: Seq<PairValueRecord>| pair_set_bytes(s, vf1, vf2)));
    } else {
        assert(sets.take(n) =~= sets);
    }
    if n > 0 {
        let a = sets.take(n).map_values(|s: Seq<PairValueRecord>| pair_set_bytes(s, vf1, vf2));
        lemma_pair_set_len(sets[n - 1], vf1, vf2);
        assert(a.last() == pair_set_bytes(sets[n - 1], vf1, vf2));
    }
}

/// Concatenation distributes over joining the lists of parts.
proof fn lemma_concat_append(a: Seq<Seq<u8>>, b: Seq<Seq<u8>>)
    ensures
        concat(a + b) == concat(a) + concat(b),
    decreases b.len(),
{
    if b.len() == 0 {
        assert(a + b =~= a);
        assert(concat(a) + concat(b) =~= concat(a));
    } else {
        lemma_concat_append(a, b.drop_last());
        assert((a + b).drop_last() =~= a + b.drop_last());
        assert(concat(a + b) =~= concat(a) + concat(b));
    }
}

/// The parts before part `i`, part `i`, and the parts after it.
proof fn lemma_concat_split(parts: Seq<Seq<u8>>, i: int)
    requires
        0 <= i < parts.len(),
    ensures
        concat(parts) == concat(parts.take(i)) + parts[i] + concat(parts.skip(i + 1)),
{
    assert(parts =~= parts.take(i) + seq![parts[i]] + parts.skip(i + 1));
    lemma_concat_append(parts.take(i) + seq![parts[i]], parts.skip(i + 1));
    lemma_concat_append(parts.take(i), seq![parts[i]]);
    let one = seq![parts[i]];
    assert(one.drop_last() =~= Seq::<Seq<u8>>::empty());
    assert(one.last() == parts[i]);
    assert(concat(one.drop_last()) =~= Seq::<u8>::empty());
    assert(concat(one) =~= parts[i]);
}

/// Every record of the entries is free of zero fields and fits the flag
/// set of its slot.
pub open spec fn entries_fit(es: Seq<PairEntry>, vf1: u16, vf2: u16) -> bool {
    forall|x: int| 0 <= x < es.len() ==> {
        &&& simplified(#[trigger] es[x].2) == es[x].2
        &&& simplified(es[x].3) == es[x].3
        &&& crate::valuerecord::fits_flags(es[x].2, vf1)
        &&& crate::valuerecord::fits_flags(es[x].3, vf2)
    }
}

proof fn lemma_pair_record_round_trip(pre: Seq<u8>, p: PairValueRecord, post: Seq<u8>, vf1: u16, vf2: u16)
    requires
        simplified(p.value_record1) == p.value_record1,
        simplified(p.value_record2) == p.value_record2,
        crate::valuerecord::fits_flags(p.value_record1, vf1),
        crate::valuerecord::fits_flags(p.value_record2, vf2),
    ensures
        pair_record_at(pre + pair_record_bytes(p, vf1, vf2) + post, pre.len() as int, vf1, vf2) == p,
{
    let d = pre + pair_record_bytes(p, vf1, vf2) + post;
    let r1 = record_bytes(p.value_record1, vf1);
    let r2 = record_bytes(p.value_record2, vf2);
    crate::valuerecord::lemma_record_len(p.value_record1, vf1);
    assert(d =~= (pre + u16_be(p.second_glyph)) + r1 + (r2 + post));
    assert(d =~= (pre + u16_be(p.second_glyph) + r1) + r2 + post);
    crate::valuerecord::lemma_record_round_trip(p.value_record1, vf1, pre + u16_be(p.second_glyph), r2 + post);
    crate::valuerecord::lemma_record_round_trip(p.value_record2, vf2, pre + u16_be(p.second_glyph) + r1, post);
    lemma_hi_lo(p.second_glyph);
    assert(d[pre.len() as int] == hi(p.second_glyph));
    assert(d[pre.len() as int + 1] == lo(p.second_glyph));
}

#[verifier::spinoff_prover]
proof fn lemma_pair_set_entry(pre: Seq<u8>, ps: Seq<PairValueRecord>, post: Seq<u8>, vf1: u16, vf2: u16, j: int)
    requires
        0 <= j < ps.len(),
        simplified(ps[j].value_record1) == ps[j].value_record1,
        simplified(ps[j].value_record2) == ps[j].value_record2,
        crate::valuerecord::fits_flags(ps[j].value_record1, vf1),
        crate::valuerecord::fits_flags(ps[j].value_record2, vf2),
    ensures
        pair_record_at(pre + pair_set_bytes(ps, vf1, vf2) + post, pre.len() + 2 + j * pair_record_size(vf1, vf2), vf1, vf2) == ps[j],
{
    let rs = pair_record_size(vf1, vf2);
    let parts = ps.map_values(|p: PairValueRecord| pair_record_bytes(p, vf1, vf2));
    let count = u16_be(ps.len() as u16);
    let d = pre + pair_set_bytes(ps, vf1, vf2) + post;
    lemma_concat_split(parts, j);
    let a = concat(parts.take(j));
    let x = parts[j];
    let c = concat(parts.skip(j + 1));
    assert forall|i: int| 0 <= i < parts.take(j).len() implies #[trigger] parts.take(j)[i].len() == rs by {
        lemma_pair_record_len(ps[i], vf1, vf2);
    }
    lemma_concat_uniform_len(parts.take(j), rs);
    assert(a.len() == j * rs);
    let pre2 = pre + count + a;
    let post2 = c + post;
    assert(pre2.len() == pre.len() + 2 + j * rs);
    crate::binary::lemma_regroup(pre, count, a, x, c, post);
    assert(d == pre2 + x + post2);
    lemma_pair_record_round_trip(pre2, ps[j], post2, vf1, vf2);
}

/// A pair set written at `pre.len()` reads back as itself.
pub proof fn lemma_pair_set_round_trip(pre: Seq<u8>, ps: Seq<PairValueRecord>, post: Seq<u8>, left: u16, vf1: u16, vf2: u16)
    requires
        ps.len() <= 0xffff,
        entries_fit(set_entries(left, ps), vf1, vf2),
    ensures
        pair_set_at(pre + pair_set_bytes(ps, vf1, vf2) + post, pre.len() as int, vf1, vf2)
            == Ok::<Seq<PairValueRecord>, DecodeError>(ps),
{
    let d = pre + pair_set_bytes(ps, vf1, vf2) + post;
    let b = pre.len() as int;
    let rs = pair_record_size(vf1, vf2);
    lemma_pair_set_len(ps, vf1, vf2);
    lemma_hi_lo(ps.len() as u16);
    assert(d[b] == hi(ps.len() as u16));
    assert(d[b + 1] == lo(ps.len() as u16));
    assert(be16_at(d, b) == ps.len());
    assert forall|j: int| 0 <= j < ps.len() implies #[trigger] pair_record_at(d, b + 2 + j * rs, vf1, vf2) == ps[j] by {
        let es = set_entries(left, ps);
        assert(es[j] == (left, ps[j].second_glyph, ps[j].value_record1, ps[j].value_record2));
        assert(simplified(es[j].2) == es[j].2);
        lemma_pair_set_entry(pre, ps, post, vf1, vf2, j);
    }
    assert(Seq::new(ps.len(), |j: int| pair_record_at(d, b + 2 + j * rs, vf1, vf2)) =~= ps);
}

/// The header fields before the offsets of a pair-list layout.
pub open spec fn format1_head(c: int, k: int, vf1: u16, vf2: u16) -> Seq<u8> {
    u16_be(1) + u16_be((10 + 2 * k) as u16) + u16_be(vf1) + u16_be(vf2) + u16_be(k as u16)
}

proof fn lemma_flatten_step(cov: Seq<u16>, sets: Seq<Seq<PairValueRecord>>, n: int)
    requires
        0 < n <= sets.len(),
    ensures
        flatten(cov, sets.take(n)) == flatten(cov, sets.take(n - 1)) + set_entries(cov[n - 1], sets[n - 1]),
{
    assert(sets.take(n).drop_last() =~= sets.take(n - 1));
}

proof fn lemma_entries_fit_split(a: Seq<PairEntry>, b: Seq<PairEntry>, vf1: u16, vf2: u16)
    requires
        entries_fit(a + b, vf1, vf2),
    ensures
        entries_fit(a, vf1, vf2),
        entries_fit(b, vf1, vf2),
{
    assert forall|x: int| 0 <= x < a.len() implies #[trigger] a[x] == (a + b)[x] by {}
    assert forall|x: int| 0 <= x < b.len() implies #[trigger] b[x] == (a + b)[x + a.len()] by {}
    assert forall|x: int| 0 <= x < b.len() implies simplified(#[trigger] b[x].2) == b[x].2 by {
        assert((a + b)[x + a.len()].2 == b[x].2);
    }
}

/// The stored offset of set `i` is where it starts.
proof fn lemma_offset_read(cov: Seq<u16>, sets: Seq<Seq<PairValueRecord>>, vf1: u16, vf2: u16, i: int)
    requires
        0 <= i < sets.len(),
        format1_fits(cov, sets, vf1, vf2),
    ensures
        be16_at(format1_bytes(cov, vf1, vf2, sets), 10 + 2 * i) == sets_start(cov.len() as int, sets.len() as int)
            + sets_bytes(sets.take(i), vf1, vf2).len(),
{
    let k = sets.len() as int;
    let d = format1_bytes(cov, vf1, vf2, sets);
    let h = format1_head(cov.len() as int, k, vf1, vf2);
    let offs = set_offsets(sets, sets_start(cov.len() as int, k), vf1, vf2);
    let rest = coverage_bytes(cov) + sets_bytes(sets, vf1, vf2);
    assert(d =~= h + u16s_be(offs) + rest);
    lemma_read_u16s(h, offs, rest);
    lemma_sets_len_grows(sets, i, vf1, vf2);
    assert(be16s_at(d, 10, k)[i] == offs[i]);
}

/// Set `i` of a written layout reads back as itself.
#[verifier::spinoff_prover]
proof fn lemma_set_read(cov: Seq<u16>, sets: Seq<Seq<PairValueRecord>>, vf1: u16, vf2: u16, i: int)
    requires
        0 <= i < sets.len(),
        cov.len() == sets.len(),
        format1_fits(cov, sets, vf1, vf2),
        entries_fit(set_entries(cov[i], sets[i]), vf1, vf2),
    ensures
        pair_set_at(format1_bytes(cov, vf1, vf2, sets), sets_start(cov.len() as int, sets.len() as int)
            + sets_bytes(sets.take(i), vf1, vf2).len(), vf1, vf2) == Ok::<Seq<PairValueRecord>, DecodeError>(sets[i]),
{
    let k = sets.len() as int;
    let d = format1_bytes(cov, vf1, vf2, sets);
    let h = format1_head(cov.len() as int, k, vf1, vf2);
    let offs = set_offsets(sets, sets_start(cov.len() as int, k), vf1, vf2);
    let c = coverage_bytes(cov);
    let parts = sets.map_values(|s: Seq<PairValueRecord>| pair_set_bytes(s, vf1, vf2));
    lemma_u16s_be(offs);
    lemma_u16s_be(cov);
    lemma_concat_split(parts, i);
    assert(parts.take(i) =~= sets.take(i).map_values(|s: Seq<PairValueRecord>| pair_set_bytes(s, vf1, vf2)));
    let hoc = h + u16s_be(offs) + c;
    let pre = hoc + concat(parts.take(i));
    let post = concat(parts.skip(i + 1));
    assert(d == hoc + concat(parts));
    assert(parts[i] == pair_set_bytes(sets[i], vf1, vf2));
    crate::binary::lemma_regroup3(hoc, concat(parts.take(i)), parts[i], post);
    assert(d == pre + pair_set_bytes(sets[i], vf1, vf2) + post);
    assert(h.len() == 10);
    assert(u16s_be(offs).len() == 2 * k);
    assert(c.len() == 4 + 2 * cov.len());
    assert(concat(parts.take(i)) == sets_bytes(sets.take(i), vf1, vf2));
    assert(pre.len() == sets_start(cov.len() as int, k) + sets_bytes(sets.take(i), vf1, vf2).len());
    lemma_sets_len_grows(sets, i + 1, vf1, vf2);
    lemma_pair_set_round_trip(pre, sets[i], post, cov[i], vf1, vf2);
}

/// The first `n` pair sets of a written layout read back as their entries.
proof fn lemma_sets_decode(cov: Seq<u16>, sets: Seq<Seq<PairValueRecord>>, vf1: u16, vf2: u16, n: nat)
    requires
        n <= sets.len(),
        cov.len() == sets.len(),
        format1_fits(cov, sets, vf1, vf2),
        entries_fit(flatten(cov, sets.take(n as int)), vf1, vf2),
    ensures
        pair_sets_at(format1_bytes(cov, vf1, vf2, sets), cov, n, vf1, vf2)
            == Ok::<Seq<PairEntry>, DecodeError>(flatten(cov, sets.take(n as int))),
    decreases n,
{
    if n == 0 {
        assert(sets.take(0) =~= Seq::<Seq<PairValueRecord>>::empty());
    } else {
        let i = n - 1;
        lemma_flatten_step(cov, sets, n as int);
        lemma_entries_fit_split(flatten(cov, sets.take(i)), set_entries(cov[i], sets[i]), vf1, vf2);
        lemma_sets_decode(cov, sets, vf1, vf2, i as nat);
        lemma_offset_read(cov, sets, vf1, vf2, i);
        lemma_set_read(cov, sets, vf1, vf2, i);
    }
}

/// The header and coverage of a written layout read back as written.
proof fn lemma_header_read(cov: Seq<u16>, sets: Seq<Seq<PairValueRecord>>, vf1: u16, vf2: u16)
    requires
        cov.len() == sets.len(),
        strictly_ascending(cov),
        format1_fits(cov, sets, vf1, vf2),
    ensures
        format1_bytes(cov, vf1, vf2, sets).len() >= 10 + 2 * sets.len(),
        be16_at(format1_bytes(cov, vf1, vf2, sets), 0) == 1,
        be16_at(format1_bytes(cov, vf1, vf2, sets), 2) == 10 + 2 * sets.len(),
        be16_at(format1_bytes(cov, vf1, vf2, sets), 4) == vf1,
        be16_at(format1_bytes(cov, vf1, vf2, sets), 6) == vf2,
        be16_at(format1_bytes(cov, vf1, vf2, sets), 8) == sets.len(),
        coverage_at(format1_bytes(cov, vf1, vf2, sets), 10 + 2 * sets.len() as int)
            == Ok::<Seq<u16>, DecodeError>(cov),
{
    let k = sets.len() as int;
    let d = format1_bytes(cov, vf1, vf2, sets);
    let h = format1_head(cov.len() as int, k, vf1, vf2);
    let offs = set_offsets(sets, sets_start(cov.len() as int, k), vf1, vf2);
    lemma_u16s_be(offs);
    assert(d == h + u16s_be(offs) + coverage_bytes(cov) + sets_bytes(sets, vf1, vf2));
    lemma_hi_lo((10 + 2 * k) as u16);
    lemma_hi_lo(vf1);
    lemma_hi_lo(vf2);
    lemma_hi_lo(k as u16);
    assert(d[0] == 0 && d[1] == 1);
    assert(d[2] == hi((10 + 2 * k) as u16) && d[3] == lo((10 + 2 * k) as u16));
    assert(d[4] == hi(vf1) && d[5] == lo(vf1));
    assert(d[6] == hi(vf2) && d[7] == lo(vf2));
    assert(d[8] == hi(k as u16) && d[9] == lo(k as u16));
    crate::coverage::lemma_coverage_round_trip(h + u16s_be(offs), cov, sets_bytes(sets, vf1, vf2));
}

/// The records of a mapping, once stripped of zero fields, fit the flag
/// sets that the layout chooses for it.
proof fn lemma_simplified_fit(m: Seq<PairEntry>)
    ensures
        entries_fit(simplified_entries(m), value_format1_of(m), value_format2_of(m)),
        pairs_ascending(m) ==> pairs_ascending(simplified_entries(m)),
{
    let sm = simplified_entries(m);
    let vf1 = value_format1_of(m);
    let vf2 = value_format2_of(m);
    assert forall|x: int| 0 <= x < sm.len() implies {
        &&& simplified(#[trigger] sm[x].2) == sm[x].2
        &&& simplified(sm[x].3) == sm[x].3
        &&& crate::valuerecord::fits_flags(sm[x].2, vf1)
        &&& crate::valuerecord::fits_flags(sm[x].3, vf2)
    } by {
        crate::valuerecord::lemma_simplify_idempotent(m[x].2);
        crate::valuerecord::lemma_simplify_idempotent(m[x].3);
        crate::valuerecord::lemma_highest_format_covers(first_records(sm), x);
        crate::valuerecord::lemma_highest_format_covers(second_records(sm), x);
    }
    if pairs_ascending(m) {
        assert forall|i: int, j: int| 0 <= i < j < sm.len() implies pair_lt(#[trigger] sm[i], #[trigger] sm[j]) by {
            assert(pair_lt(m[i], m[j]));
        }
    }
}

/// Decoding what a pair mapping encodes to gives the mapping back, with
/// zero fields removed: the coverage is exactly the distinct first glyphs,
/// and each keeps all of its pairs.
pub proof fn lemma_pairpos_round_trip(m: Seq<PairEntry>, cov: Seq<u16>, sets: Seq<Seq<PairValueRecord>>)
    requires
        pairs_ascending(m),
        grouped(m, cov, sets),
        format1_fits(cov, sets, value_format1_of(m), value_format2_of(m)),
    ensures
        pairpos_decode(format1_bytes(cov, value_format1_of(m), value_format2_of(m), sets))
            == Ok::<Seq<PairEntry>, DecodeError>(simplified_entries(m)),
{
    let vf1 = value_format1_of(m);
    let vf2 = value_format2_of(m);
    let k = sets.len() as int;
    lemma_header_read(cov, sets, vf1, vf2);
    lemma_simplified_fit(m);
    assert(sets.take(k) =~= sets);
    lemma_sets_decode(cov, sets, vf1, vf2, k as nat);
}

/// Data that has been written once is written the same way again: the
/// decoded mapping has the same grouping and the same flag sets.
pub proof fn lemma_pairpos_reencode_stable(m: Seq<PairEntry>, cov: Seq<u16>, sets: Seq<Seq<PairValueRecord>>)
    requires
        pairs_ascending(m),
        grouped(m, cov, sets),
    ensures
        pairs_ascending(simplified_entries(m)),
        grouped(simplified_entries(m), cov, sets),
        value_format1_of(simplified_entries(m)) == value_format1_of(m),
        value_format2_of(simplified_entries(m)) == value_format2_of(m),
{
    let sm = simplified_entries(m);
    lemma_simplified_fit(m);
    assert forall|x: int| 0 <= x < sm.len() implies #[trigger] simplified_entries(sm)[x] == sm[x] by {
        crate::valuerecord::lemma_simplify_idempotent(m[x].2);
        crate::valuerecord::lemma_simplify_idempotent(m[x].3);
    }
    assert(simplified_entries(sm) =~= sm);
}

/// Every entry of the flattened sets starts with a covered glyph, and
/// there are at least as many entries as sets.
proof fn lemma_flatten_lefts(c: Seq<u16>, s: Seq<Seq<PairValueRecord>>)
    requires
        c.len() == s.len(),
        sets_nonempty(s),
    ensures
        flatten(c, s).len() >= s.len(),
        forall|x: int| 0 <= x < flatten(c, s).len() ==> exists|i: int| 0 <= i < s.len() && #[trigger] flatten(c, s)[x].0 == c[i],
    decreases s.len(),
{
    if s.len() > 0 {
        let n = s.len() - 1;
        assert(sets_nonempty(s.drop_last())) by {
            assert forall|i: int| 0 <= i < s.drop_last().len() implies #[trigger] s.drop_last()[i].len() > 0 by {
                assert(s[i].len() > 0);
            }
        }
        assert(s[n].len() > 0);
        lemma_flatten_lefts(c.drop_last(), s.drop_last());
        lemma_flatten_prefix(c, c.drop_last(), s.drop_last());
        let p = flatten(c, s.drop_last());
        let t = set_entries(c[n], s.last());
        assert forall|x: int| 0 <= x < flatten(c, s).len() implies exists|i: int| 0 <= i < s.len() && #[trigger] flatten(c, s)[x].0 == c[i] by {
            if x < p.len() {
                let i = choose|i: int| 0 <= i < s.drop_last().len() && #[trigger] p[x].0 == c.drop_last()[i];
                assert(flatten(c, s)[x] == p[x]);
                assert(c.drop_last()[i] == c[i]);
            } else {
                assert(flatten(c, s)[x] == t[x - p.len()]);
                assert(flatten(c, s)[x].0 == c[n]);
            }
        }
    }
}

/// A mapping has one grouping only.
pub proof fn lemma_grouping_unique(c1: Seq<u16>, s1: Seq<Seq<PairValueRecord>>, c2: Seq<u16>, s2: Seq<Seq<PairValueRecord>>)
    requires
        c1.len() == s1.len(),
        c2.len() == s2.len(),
        strictly_ascending(c1),
        strictly_ascending(c2),
        sets_nonempty(s1),
        sets_nonempty(s2),
        flatten(c1, s1) == flatten(c2, s2),
    ensures
        c1 == c2,
        s1 == s2,
    decreases s1.len() + s2.len(),
{
    lemma_flatten_lefts(c1, s1);
    lemma_flatten_lefts(c2, s2);
    if s1.len() == 0 || s2.len() == 0 {
        assert(c1 =~= c2);
        assert(s1 =~= s2);
    } else {
        let e = flatten(c1, s1);
        let n1 = s1.len() - 1;
        let n2 = s2.len() - 1;
        let p1 = flatten(c1, s1.drop_last());
        let p2 = flatten(c2, s2.drop_last());
        let t1 = set_entries(c1[n1], s1.last());
        let t2 = set_entries(c2[n2], s2.last());
        assert(s1[n1].len() > 0 && s2[n2].len() > 0);
        assert(e.last() == t1.last() && e.last() == t2.last());
        let l = c1[n1];
        assert(c2[n2] == l);
        let d1 = c1.drop_last();
        let d2 = c2.drop_last();
        let r1 = s1.drop_last();
        let r2 = s2.drop_last();
        lemma_flatten_prefix(c1, d1, r1);
        lemma_flatten_prefix(c2, d2, r2);
        assert(sets_nonempty(r1)) by {
            assert forall|i: int| 0 <= i < r1.len() implies #[trigger] r1[i].len() > 0 by { assert(s1[i].len() > 0); }
        }
        assert(sets_nonempty(r2)) by {
            assert forall|i: int| 0 <= i < r2.len() implies #[trigger] r2[i].len() > 0 by { assert(s2[i].len() > 0); }
        }
        assert(strictly_ascending(d1) && strictly_ascending(d2));
        lemma_flatten_lefts(d1, r1);
        lemma_flatten_lefts(d2, r2);
        // entries before the last set start with a glyph below `l`
        assert forall|x: int| 0 <= x < p1.len() implies #[trigger] p1[x].0 < l by {
            let i = choose|i: int| 0 <= i < r1.len() && #[trigger] flatten(d1, r1)[x].0 == d1[i];
            assert(c1[i] < c1[n1]);
        }
        assert forall|x: int| 0 <= x < p2.len() implies #[trigger] p2[x].0 < l by {
            let i = choose|i: int| 0 <= i < r2.len() && #[trigger] flatten(d2, r2)[x].0 == d2[i];
            assert(c2[i] < c2[n2]);
        }
        if t1.len() < t2.len() {
            let x = p1.len() - 1;
            assert(e[x] == p1[x]);
            assert(e[x] == t2[x - p2.len()]);
            assert(false);
        }
        if t2.len() < t1.len() {
            let x = p2.len() - 1;
            assert(e[x] == p2[x]);
            assert(e[x] == t1[x - p1.len()]);
            assert(false);
        }
        assert(p1 =~= p2) by {
            assert forall|x: int| 0 <= x < p1.len() implies p1[x] == p2[x] by {
                assert(e[x] == p1[x] && e[x] == p2[x]);
            }
        }
        assert(s1.last() =~= s2.last()) by {
            assert forall|j: int| 0 <= j < t1.len() implies s1.last()[j] == s2.last()[j] by {
                assert(e[p1.len() + j] == t1[j] && e[p2.len() + j] == t2[j]);
            }
        }
        lemma_grouping_unique(d1, r1, d2, r2);
        assert(c1 =~= d1.push(l));
        assert(c2 =~= d2.push(l));
        assert(s1 =~= r1.push(s1.last()));
        assert(s2 =~= r2.push(s2.last()));
    }
}

/// Ascending entries can be grouped by first glyph.
proof fn lemma_group(e: Seq<PairEntry>) -> (g: (Seq<u16>, Seq<Seq<PairValueRecord>>))
    requires
        pairs_ascending(e),
    ensures
        g.0.len() == g.1.len(),
        strictly_ascending(g.0),
        sets_nonempty(g.1),
        flatten(g.0, g.1) == e,
        e.len() > 0 ==> g.0.len() > 0 && g.0.last() == e.last().0,
    decreases e.len(),
{
    if e.len() == 0 {
        (Seq::empty(), Seq::empty())
    } else {
        let d = e.drop_last();
        assert(pairs_ascending(d)) by {
            assert forall|i: int, j: int| 0 <= i < j < d.len() implies pair_lt(d[i], d[j]) by {
                assert(pair_lt(e[i], e[j]));
            }
        }
        let h = lemma_group(d);
        let x = e.last();
        let pv = PairValueRecord { second_glyph: x.1, value_record1: x.2, value_record2: x.3 };
        let c = h.0;
        let s = h.1;
        if d.len() > 0 && d.last().0 == x.0 {
            let n = s.len() - 1;
            let last2 = s[n].push(pv);
            let s2 = s.drop_last().push(last2);
            assert(set_entries(x.0, last2) =~= set_entries(x.0, s[n]).push(x));
            assert(s2.drop_last() =~= s.drop_last());
            assert(flatten(c, s2) == flatten(c, s.drop_last()) + set_entries(c[n], last2));
            assert(flatten(c, s) == flatten(c, s.drop_last()) + set_entries(c[n], s[n]));
            assert(c[n] == x.0);
            assert(e =~= d.push(x));
            assert(s2.last() == last2);
            assert(flatten(c, s2) =~= e);
            assert(sets_nonempty(s2)) by {
                assert forall|i: int| 0 <= i < s2.len() implies #[trigger] s2[i].len() > 0 by {
                    if i < n { assert(s[i].len() > 0); }
                }
            }
            (c, s2)
        } else {
            let c2 = c.push(x.0);
            let s2 = s.push(seq![pv]);
            lemma_flatten_push(c, s, x.0, seq![pv]);
            assert(set_entries(x.0, seq![pv]) =~= seq![x]);
            assert(flatten(c2, s2) =~= e);
            if d.len() > 0 {
                assert(pair_lt(e[d.len() - 1], x));
            }
            assert(strictly_ascending(c2)) by {
                assert forall|i: int, j: int| 0 <= i < j < c2.len() implies c2[i] < c2[j] by {
                    if j == c.len() && i < c.len() - 1 {
                        assert(c[i] < c[c.len() - 1]);
                    }
                }
            }
            assert(sets_nonempty(s2)) by {
                assert forall|i: int| 0 <= i < s2.len() implies #[trigger] s2[i].len() > 0 by {
                    if i < s.len() { assert(s[i].len() > 0); }
                }
            }
            (c2, s2)
        }
    }
}

/// An ascending mapping has a grouping.
pub proof fn lemma_grouping_exists(m: Seq<PairEntry>)
    requires
        pairs_ascending(m),
    ensures
        grouped(m, grouping_of(m).0, grouping_of(m).1),
{
    lemma_simplified_ascending(m);
    let g = lemma_group(simplified_entries(m));
    assert(grouped(m, g.0, g.1));
}

/// The grouping of a mapping: its coverage and pair sets.
pub open spec fn grouping_of(m: Seq<PairEntry>) -> (Seq<u16>, Seq<Seq<PairValueRecord>>) {
    choose|g: (Seq<u16>, Seq<Seq<PairValueRecord>>)| grouped(m, g.0, g.1)
}

/// The bytes that a mapping encodes to: the pair-list layout of its
/// grouping.
pub open spec fn pairpos_encode(m: Seq<PairEntry>) -> Seq<u8> {
    format1_bytes(grouping_of(m).0, value_format1_of(m), value_format2_of(m), grouping_of(m).1)
}

/// The pair-list layout of a mapping lies within reach of 16-bit offsets.
pub open spec fn pairpos_encodable(m: Seq<PairEntry>) -> bool {
    format1_fits(grouping_of(m).0, grouping_of(m).1, value_format1_of(m), value_format2_of(m))
}

/// Any grouping of a mapping is the one that its encoding uses.
pub proof fn lemma_grouping_of(m: Seq<PairEntry>, cov: Seq<u16>, sets: Seq<Seq<PairValueRecord>>)
    requires
        grouped(m, cov, sets),
    ensures
        grouping_of(m) == (cov, sets),
        pairpos_encode(m) == format1_bytes(cov, value_format1_of(m), value_format2_of(m), sets),
        pairpos_encodable(m) == format1_fits(cov, sets, value_format1_of(m), value_format2_of(m)),
{
    let g = grouping_of(m);
    assert(grouped(m, (cov, sets).0, (cov, sets).1));
    assert(grouped(m, g.0, g.1));
    lemma_grouping_unique(g.0, g.1, cov, sets);
}

/// Once pair data has been written, reading it and writing it again gives
/// the same bytes.
pub proof fn lemma_pairpos_reencode_bytes(m: Seq<PairEntry>)
    requires
        pairs_ascending(m),
        pairpos_encodable(m),
    ensures
        pairpos_decode(pairpos_encode(m)) == Ok::<Seq<PairEntry>, DecodeError>(simplified_entries(m)),
        pairs_ascending(simplified_entries(m)),
        pairpos_encodable(simplified_entries(m)),
        pairpos_encode(simplified_entries(m)) == pairpos_encode(m),
{
    lemma_grouping_exists(m);
    let cov = grouping_of(m).0;
    let sets = grouping_of(m).1;
    lemma_grouping_of(m, cov, sets);
    lemma_pairpos_round_trip(m, cov, sets);
    lemma_pairpos_reencode_stable(m, cov, sets);
    lemma_grouping_of(simplified_entries(m), cov, sets);
}

impl PairPosInternal {
    /// Builds the pair-list layout of a mapping: its first glyphs as the
    /// coverage, a set of pairs for each, and for each record slot the
    /// union of the flags of all records in that slot.
    pub fn from(val: &PairPos) -> (r: PairPosInternal)
        requires
            pairs_ascending(val.mapping@),
        ensures
            match r {
                PairPosInternal::Format1(f) => grouped(val.mapping@, f.coverage.glyphs@, sets_view(f.pair_sets@))
                    && f.value_format1 == value_format1_of(val.mapping@)
                    && f.value_format2 == value_format2_of(val.mapping@),
                PairPosInternal::Format2(_) => false,
            },
    {
        let mapping = simplify_entries(&val.mapping);
        proof {
            lemma_simplified_ascending(val.mapping@);
        }
        let _fmt = best_format(&mapping);
        let (glyphs, pair_sets, firsts, seconds) = split_into_two_layer(&mapping);
        let value_format1 = highest_format(&firsts);
        let value_format2 = highest_format(&seconds);
        PairPosInternal::Format1(PairPosFormat1 {
            coverage: Coverage { glyphs },
            value_format1,
            value_format2,
            pair_sets,
        })
    }
}

/// Reads the pair set at `base`.
fn read_pair_set(d: &[u8], base: usize, vf1: u16, vf2: u16) -> (r: Result<Vec<PairValueRecord>, DecodeError>)
    ensures
        match r {
            Ok(v) => pair_set_at(d@, base as int, vf1, vf2) == Ok::<Seq<PairValueRecord>, DecodeError>(v@),
            Err(e) => pair_set_at(d@, base as int, vf1, vf2) == Err::<Seq<PairValueRecord>, DecodeError>(e),
        },
{
    let len = d.len();
    let count = match read_u16(d, base) {
        Some(c) => c,
        None => return Err(DecodeError::Truncated),
    };
    let n1: usize = record_len(vf1);
    let n2: usize = record_len(vf2);
    let rs: usize = 2 + n1 + n2;
    if (len - base - 2) / rs < count as usize {
        proof {
            let x = len - base - 2;
            assert(count * rs > x) by (nonlinear_arith)
                requires x / (rs as int) < count, rs > 0, x >= 0;
        }
        return Err(DecodeError::Truncated);
    }
    proof {
        assert(count * rs <= len - base - 2) by (nonlinear_arith)
            requires (len - base - 2) / (rs as int) >= count, rs > 0;
    }
    let ghost want = Seq::new(count as nat, |j: int| pair_record_at(d@, base + 2 + j * rs, vf1, vf2));
    let mut out: Vec<PairValueRecord> = Vec::new();
    let mut pos: usize = base + 2;
    let mut j: usize = 0;
    while j < count as usize
        invariant
            len == d@.len(),
            rs == pair_record_size(vf1, vf2),
            n1 == record_size(vf1),
            n2 == record_size(vf2),
            rs > 0,
            j <= count,
            base + 2 + count * rs <= len,
            pos == base + 2 + j * rs,
            want == Seq::new(count as nat, |j: int| pair_record_at(d@, base + 2 + j * rs, vf1, vf2)),
            out@ == want.take(j as int),
        decreases count - j,
    {
        proof {
            assert(j * rs + rs <= count * rs) by (nonlinear_arith) requires j < count, rs > 0;
            assert((j + 1) * rs == j * rs + rs) by (nonlinear_arith);
        }
        let second = read_u16(d, pos).unwrap();
        let mut a = read_record(d, pos + 2, vf1).unwrap();
        a.simplify();
        let mut b = read_record(d, pos + 2 + n1, vf2).unwrap();
        b.simplify();
        out.push(PairValueRecord { second_glyph: second, value_record1: a, value_record2: b });
        assert(out@ =~= want.take(j + 1));
        pos = pos + rs;
        j = j + 1;
    }
    assert(out@ =~= want);
    Ok(out)
}

/// Checks that the glyph pairs are strictly ascending.
fn check_ascending(m: &Vec<PairEntry>) -> (r: bool)
    ensures
        r == pairs_ascending(m@),
{
    let mut x: usize = 1;
    if m.len() == 0 {
        return true;
    }
    while x < m.len()
        invariant
            1 <= x <= m@.len(),
            pairs_ascending(m@.take(x as int)),
        decreases m@.len() - x,
    {
        let (a0, a1, _, _) = m[x - 1];
        let (b0, b1, _, _) = m[x];
        if !(a0 < b0 || (a0 == b0 && a1 < b1)) {
            assert(!pair_lt(m@[x - 1], m@[x as int]));
            return false;
        }
        let ghost t = m@.take(x + 1);
        assert forall|i: int, j: int| 0 <= i < j < t.len() implies pair_lt(#[trigger] t[i], #[trigger] t[j]) by {
            if j == x && i < x - 1 {
                assert(pair_lt(m@.take(x as int)[i], m@.take(x as int)[x - 1]));
            }
            if j < x {
                assert(pair_lt(m@.take(x as int)[i], m@.take(x as int)[j]));
            }
        }
        x = x + 1;
    }
    assert(m@.take(x as int) =~= m@);
    true
}

impl PairPos {
    /// Whether the glyph pairs are strictly ascending, as writing needs.
    pub fn is_well_formed(&self) -> (r: bool)
        ensures
            r == pairs_ascending(self.mapping@),
    {
        check_ascending(&self.mapping)
    }

    /// Reads a pair positioning subtable whose first byte is `d[0]`.
    pub fn from_bytes(d: &[u8]) -> (r: Result<PairPos, DecodeError>)
        ensures
            match r {
                Ok(p) => pairpos_decode(d@) == Ok::<Seq<PairEntry>, DecodeError>(p.mapping@)
                    && pairs_ascending(p.mapping@),
                Err(e) => pairpos_decode(d@) == Err::<Seq<PairEntry>, DecodeError>(e),
            },
    {
        let format = match read_u16(d, 0) {
            Some(f) => f,
            None => return Err(DecodeError::Truncated),
        };
        if format != 1 && format != 2 {
            return Err(DecodeError::BadFormat);
        }
        if format == 2 {
            return Err(DecodeError::Unsupported);
        }
        if d.len() < 10 {
            return Err(DecodeError::Truncated);
        }
        let cov_off = read_u16(d, 2).unwrap();
        let vf1 = read_u16(d, 4).unwrap();
        let vf2 = read_u16(d, 6).unwrap();
        let k = read_u16(d, 8).unwrap();
        if (d.len() - 10) / 2 < k as usize {
            return Err(DecodeError::Truncated);
        }
        let cov = Coverage::from_bytes(d, cov_off as usize)?;
        let g = &cov.glyphs;
        let n: usize = if g.len() <= k as usize { g.len() } else { k as usize };
        let mut mapping: Vec<PairEntry> = Vec::new();
        let mut i: usize = 0;
        while i < n
            invariant
                n <= g@.len(),
                n <= k,
                i <= n,
                10 + 2 * k <= d@.len(),
                vf1 == be16_at(d@, 4),
                vf2 == be16_at(d@, 6),
                be16_at(d@, 0) == 1,
                k == be16_at(d@, 8),
                cov_off == be16_at(d@, 2),
                coverage_at(d@, cov_off as int) == Ok::<Seq<u16>, DecodeError>(g@),
                n == (if g@.len() <= k { g@.len() } else { k as nat }),
                pair_sets_at(d@, g@, i as nat, vf1, vf2) == Ok::<Seq<PairEntry>, DecodeError>(mapping@),
            decreases n - i,
        {
            let off = read_u16(d, 10 + 2 * i).unwrap();
            let ps = match read_pair_set(d, off as usize, vf1, vf2) {
                Ok(ps) => ps,
                Err(e) => {
                    proof {
                        lemma_pair_sets_err(d@, g@, (i + 1) as nat, n as nat, vf1, vf2);
                    }
                    return Err(e);
                },
            };
            let left = g[i];
            let ghost before = mapping@;
            let mut j: usize = 0;
            while j < ps.len()
                invariant
                    j <= ps@.len(),
                    mapping@ == before + set_entries(left, ps@.take(j as int)),
                decreases ps@.len() - j,
            {
                let p = ps[j];
                mapping.push((left, p.second_glyph, p.value_record1, p.value_record2));
                assert(mapping@ =~= before + set_entries(left, ps@.take(j + 1)));
                j = j + 1;
            }
            assert(ps@.take(j as int) =~= ps@);
            i = i + 1;
        }
        if !check_ascending(&mapping) {
            return Err(DecodeError::Unsorted);
        }
        Ok(PairPos { mapping })
    }

    /// Writes the subtable in the pair-list layout.
    pub fn to_bytes(&self) -> (r: Result<Vec<u8>, EncodeError>)
        requires
            pairs_ascending(self.mapping@),
        ensures
            match r {
                Ok(b) => pairpos_encodable(self.mapping@) && b@ == pairpos_encode(self.mapping@)
                    && pairpos_decode(b@) == Ok::<Seq<PairEntry>, DecodeError>(simplified_entries(self.mapping@)),
                Err(e) => e == EncodeError::TooLarge && !pairpos_encodable(self.mapping@),
            },
    {
        let ppi = PairPosInternal::from(self);
        let r = ppi.to_bytes();
        match ppi {
            PairPosInternal::Format1(f) => {
                assert(grouped(self.mapping@, f.coverage.glyphs@, sets_view(f.pair_sets@)));
                proof {
                    lemma_grouping_of(self.mapping@, f.coverage.glyphs@, sets_view(f.pair_sets@));
                    if r is Ok {
                        lemma_pairpos_round_trip(self.mapping@, f.coverage.glyphs@, sets_view(f.pair_sets@));
                    }
                }
            },
            PairPosInternal::Format2(_) => {},
        }
        r
    }
}

} // verus!
