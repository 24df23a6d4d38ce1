//! Positioning value records: sparse adjustments whose present fields are
//! described by a flag set.
use vstd::prelude::*;
use crate::binary::{be16_at, u16_be, push_u16, read_u16};

verus! {

/// Flag of the horizontal placement field.
pub const X_PLACEMENT: u16 = 0x0001;
/// Flag of the vertical placement field.
pub const Y_PLACEMENT: u16 = 0x0002;
/// Flag of the horizontal advance field.
pub const X_ADVANCE: u16 = 0x0004;
/// Flag of the vertical advance field.
pub const Y_ADVANCE: u16 = 0x0008;
/// Flag of the horizontal placement device offset.
pub const X_PLA_DEVICE: u16 = 0x0010;
/// Flag of the vertical placement device offset.
pub const Y_PLA_DEVICE: u16 = 0x0020;
/// Flag of the horizontal advance device offset.
pub const X_ADV_DEVICE: u16 = 0x0040;
/// Flag of the vertical advance device offset.
pub const Y_ADV_DEVICE: u16 = 0x0080;

/// A set of positioning adjustments; an absent field adjusts nothing.
#[derive(Debug, Clone, Copy, PartialEq, Eq, Structural, Default)]
pub struct ValueRecord {
    pub x_placement: Option<i16>,
    pub y_placement: Option<i16>,
    pub x_advance: Option<i16>,
    pub y_advance: Option<i16>,
    /// Offsets to device tables, kept as stored; zero means no table.
    pub x_pla_device: Option<u16>,
    pub y_pla_device: Option<u16>,
    pub x_adv_device: Option<u16>,
    pub y_adv_device: Option<u16>,
}

/// A field with the neutral value zero becomes absent.
pub open spec fn drop_zero(v: Option<i16>) -> Option<i16> {
    match v {
        Some(x) => if x == 0 { None } else { Some(x) },
        None => None,
    }
}

/// An offset of zero, which points nowhere, becomes absent.
pub open spec fn drop_zero_u(v: Option<u16>) -> Option<u16> {
    match v {
        Some(x) => if x == 0 { None } else { Some(x) },
        None => None,
    }
}

/// The record with every zero field removed.
pub open spec fn simplified(r: ValueRecord) -> ValueRecord {
    ValueRecord {
        x_placement: drop_zero(r.x_placement),
        y_placement: drop_zero(r.y_placement),
        x_advance: drop_zero(r.x_advance),
        y_advance: drop_zero(r.y_advance),
        x_pla_device: drop_zero_u(r.x_pla_device),
        y_pla_device: drop_zero_u(r.y_pla_device),
        x_adv_device: drop_zero_u(r.x_adv_device),
        y_adv_device: drop_zero_u(r.y_adv_device),
    }
}

/// `bit` when the field is present, 0 otherwise.
pub open spec fn flag_if(v: Option<i16>, bit: u16) -> u16 {
    if v is Some { bit } else { 0 }
}

/// `bit` when the offset is present, 0 otherwise.
pub open spec fn flag_if_u(v: Option<u16>, bit: u16) -> u16 {
    if v is Some { bit } else { 0 }
}

/// The flags of the fields that the record holds.
pub open spec fn record_flags(r: ValueRecord) -> u16 {
    flag_if(r.x_placement, X_PLACEMENT) | flag_if(r.y_placement, Y_PLACEMENT)
        | flag_if(r.x_advance, X_ADVANCE) | flag_if(r.y_advance, Y_ADVANCE)
        | flag_if_u(r.x_pla_device, X_PLA_DEVICE) | flag_if_u(r.y_pla_device, Y_PLA_DEVICE)
        | flag_if_u(r.x_adv_device, X_ADV_DEVICE) | flag_if_u(r.y_adv_device, Y_ADV_DEVICE)
}

/// The union of the flags of every record in `s`.
pub open spec fn highest_format_of(s: Seq<ValueRecord>) -> u16
    decreases s.len(),
{
    if s.len() == 0 {
        0
    } else {
        highest_format_of(s.drop_last()) | record_flags(s.last())
    }
}

/// Every field that `r` holds has its flag in `f`.
pub open spec fn fits_flags(r: ValueRecord, f: u16) -> bool {
    record_flags(r) & f == record_flags(r)
}

/// The value that the layout writes for a field: zero when absent.
pub open spec fn field_value(v: Option<i16>) -> u16 {
    match v {
        Some(x) => x as u16,
        None => 0,
    }
}

/// The bytes of one field under flag set `f`: two bytes where `bit` is set.
pub open spec fn field_bytes(v: Option<i16>, f: u16, bit: u16) -> Seq<u8> {
    if f & bit != 0 { u16_be(field_value(v)) } else { Seq::empty() }
}

/// The bytes of one offset under flag set `f`: two bytes where `bit` is set.
pub open spec fn field_bytes_u(v: Option<u16>, f: u16, bit: u16) -> Seq<u8> {
    if f & bit != 0 { u16_be(v.unwrap_or(0)) } else { Seq::empty() }
}

/// The bytes of a record under flag set `f`, fields in flag order.
#[verifier::opaque]
pub open spec fn record_bytes(r: ValueRecord, f: u16) -> Seq<u8> {
    field_bytes(r.x_placement, f, X_PLACEMENT) + field_bytes(r.y_placement, f, Y_PLACEMENT)
        + field_bytes(r.x_advance, f, X_ADVANCE) + field_bytes(r.y_advance, f, Y_ADVANCE)
        + field_bytes_u(r.x_pla_device, f, X_PLA_DEVICE) + field_bytes_u(r.y_pla_device, f, Y_PLA_DEVICE)
        + field_bytes_u(r.x_adv_device, f, X_ADV_DEVICE) + field_bytes_u(r.y_adv_device, f, Y_ADV_DEVICE)
}

/// 1 where `bit` is in `f`, 0 otherwise.
pub open spec fn bit_count(f: u16, bit: u16) -> int {
    if f & bit != 0 { 1 } else { 0 }
}

/// Size in bytes of a record written under flag set `f`.
#[verifier::opaque]
pub open spec fn record_size(f: u16) -> int {
    2 * (bit_count(f, X_PLACEMENT) + bit_count(f, Y_PLACEMENT) + bit_count(f, X_ADVANCE)
        + bit_count(f, Y_ADVANCE) + bit_count(f, X_PLA_DEVICE) + bit_count(f, Y_PLA_DEVICE)
        + bit_count(f, X_ADV_DEVICE) + bit_count(f, Y_ADV_DEVICE))
}

/// A field read from `pos` where `bit` is in `f`.
pub open spec fn field_at(d: Seq<u8>, pos: int, f: u16, bit: u16) -> Option<i16> {
    if f & bit != 0 { Some(be16_at(d, pos) as i16) } else { None }
}

/// An offset read from `pos` where `bit` is in `f`.
pub open spec fn field_at_u(d: Seq<u8>, pos: int, f: u16, bit: u16) -> Option<u16> {
    if f & bit != 0 { Some(be16_at(d, pos)) } else { None }
}

/// The record stored at `pos` under flag set `f`, as read (zero fields kept).
#[verifier::opaque]
pub open spec fn record_at(d: Seq<u8>, pos: int, f: u16) -> ValueRecord {
    let p1 = pos + 2 * bit_count(f, X_PLACEMENT);
    let p2 = p1 + 2 * bit_count(f, Y_PLACEMENT);
    let p3 = p2 + 2 * bit_count(f, X_ADVANCE);
    let p4 = p3 + 2 * bit_count(f, Y_ADVANCE);
    let p5 = p4 + 2 * bit_count(f, X_PLA_DEVICE);
    let p6 = p5 + 2 * bit_count(f, Y_PLA_DEVICE);
    let p7 = p6 + 2 * bit_count(f, X_ADV_DEVICE);
    ValueRecord {
        x_placement: field_at(d, pos, f, X_PLACEMENT),
        y_placement: field_at(d, p1, f, Y_PLACEMENT),
        x_advance: field_at(d, p2, f, X_ADVANCE),
        y_advance: field_at(d, p3, f, Y_ADVANCE),
        x_pla_device: field_at_u(d, p4, f, X_PLA_DEVICE),
        y_pla_device: field_at_u(d, p5, f, Y_PLA_DEVICE),
        x_adv_device: field_at_u(d, p6, f, X_ADV_DEVICE),
        y_adv_device: field_at_u(d, p7, f, Y_ADV_DEVICE),
    }
}

/// A record takes between 0 and 16 bytes.
pub proof fn lemma_record_size_bounds(f: u16)
    ensures
        0 <= record_size(f) <= 16,
{
    reveal(record_size);
}

/// A record takes two bytes for each flag of its flag set.
pub proof fn lemma_record_len(r: ValueRecord, f: u16)
    ensures
        record_bytes(r, f).len() == record_size(f),
        record_size(f) >= 0,
{
    reveal(record_bytes);
    reveal(record_size);
}

/// Removing zero fields a second time changes nothing.
pub proof fn lemma_simplify_idempotent(r: ValueRecord)
    ensures
        simplified(simplified(r)) == simplified(r),
{
}

/// The union of the flags of a collection includes every field that any
/// record in it uses.
pub proof fn lemma_highest_format_covers(s: Seq<ValueRecord>, i: int)
    requires
        0 <= i < s.len(),
    ensures
        fits_flags(s[i], highest_format_of(s)),
    decreases s.len(),
{
    let h = highest_format_of(s.drop_last());
    let b = record_flags(s.last());
    if i < s.len() - 1 {
        lemma_highest_format_covers(s.drop_last(), i);
        let a = record_flags(s[i]);
        assert(a & h == a ==> a & (h | b) == a) by (bit_vector);
    } else {
        assert(b & (h | b) == b) by (bit_vector);
    }
}

/// Each field that a record holds has its flag in any flag set it fits.
pub proof fn lemma_fits_flags(r: ValueRecord, f: u16)
    requires
        fits_flags(r, f),
    ensures
        r.x_placement is Some ==> f & X_PLACEMENT != 0,
        r.y_placement is Some ==> f & Y_PLACEMENT != 0,
        r.x_advance is Some ==> f & X_ADVANCE != 0,
        r.y_advance is Some ==> f & Y_ADVANCE != 0,
        r.x_pla_device is Some ==> f & X_PLA_DEVICE != 0,
        r.y_pla_device is Some ==> f & Y_PLA_DEVICE != 0,
        r.x_adv_device is Some ==> f & X_ADV_DEVICE != 0,
        r.y_adv_device is Some ==> f & Y_ADV_DEVICE != 0,
{
    let a = flag_if(r.x_placement, X_PLACEMENT);
    let b = flag_if(r.y_placement, Y_PLACEMENT);
    let c = flag_if(r.x_advance, X_ADVANCE);
    let d = flag_if(r.y_advance, Y_ADVANCE);
    let e = flag_if_u(r.x_pla_device, X_PLA_DEVICE);
    let g = flag_if_u(r.y_pla_device, Y_PLA_DEVICE);
    let h = flag_if_u(r.x_adv_device, X_ADV_DEVICE);
    let k = flag_if_u(r.y_adv_device, Y_ADV_DEVICE);
    assert((a == 0 || a == 1) && (b == 0 || b == 2) && (c == 0 || c == 4) && (d == 0 || d == 8)
        && (e == 0 || e == 16) && (g == 0 || g == 32) && (h == 0 || h == 64) && (k == 0 || k == 128)
        && (a | b | c | d | e | g | h | k) & f == (a | b | c | d | e | g | h | k)
        ==> (a == 1 ==> f & 1 != 0) && (b == 2 ==> f & 2 != 0) && (c == 4 ==> f & 4 != 0)
        && (d == 8 ==> f & 8 != 0) && (e == 16 ==> f & 16 != 0) && (g == 32 ==> f & 32 != 0)
        && (h == 64 ==> f & 64 != 0) && (k == 128 ==> f & 128 != 0)) by (bit_vector);
}

proof fn lemma_field_round_trip_u(v: Option<u16>, f: u16, bit: u16, d: Seq<u8>, pos: int)
    requires
        v is Some ==> f & bit != 0,
        drop_zero_u(v) == v,
        f & bit != 0 ==> 0 <= pos && pos + 2 <= d.len() && d.subrange(pos, pos + 2) == u16_be(
            v.unwrap_or(0),
        ),
    ensures
        drop_zero_u(field_at_u(d, pos, f, bit)) == v,
        field_bytes_u(v, f, bit).len() == 2 * bit_count(f, bit),
{
    if f & bit != 0 {
        let w = v.unwrap_or(0);
        assert(d[pos] == d.subrange(pos, pos + 2)[0]);
        assert(d[pos + 1] == d.subrange(pos, pos + 2)[1]);
        crate::binary::lemma_hi_lo(w);
        assert(be16_at(d, pos) == w);
    }
}

proof fn lemma_field_round_trip(v: Option<i16>, f: u16, bit: u16, d: Seq<u8>, pos: int)
    requires
        v is Some ==> f & bit != 0,
        drop_zero(v) == v,
        f & bit != 0 ==> 0 <= pos && pos + 2 <= d.len() && d.subrange(pos, pos + 2) == u16_be(
            field_value(v),
        ),
    ensures
        drop_zero(field_at(d, pos, f, bit)) == v,
        field_bytes(v, f, bit).len() == 2 * bit_count(f, bit),
{
    if f & bit != 0 {
        let w = field_value(v);
        assert(d[pos] == d.subrange(pos, pos + 2)[0]);
        assert(d[pos + 1] == d.subrange(pos, pos + 2)[1]);
        crate::binary::lemma_hi_lo(w);
        assert(be16_at(d, pos) == w);
        match v {
            Some(x) => {
                assert((x as u16) as i16 == x) by (bit_vector);
            },
            None => {
                assert(w == 0);
            },
        }
    }
}

/// A record written under a flag set that it fits reads back as itself,
/// once zero fields are removed.
#[verifier::rlimit(60)]
pub proof fn lemma_record_round_trip(r: ValueRecord, f: u16, pre: Seq<u8>, post: Seq<u8>)
    requires
        simplified(r) == r,
        fits_flags(r, f),
    ensures
        record_bytes(r, f).len() == record_size(f),
        simplified(record_at(pre + record_bytes(r, f) + post, pre.len() as int, f)) == r,
{
    reveal(record_bytes);
    reveal(record_size);
    reveal(record_at);
    lemma_fits_flags(r, f);
    let d = pre + record_bytes(r, f) + post;
    let b0 = field_bytes(r.x_placement, f, X_PLACEMENT);
    let b1 = field_bytes(r.y_placement, f, Y_PLACEMENT);
    let b2 = field_bytes(r.x_advance, f, X_ADVANCE);
    let b3 = field_bytes(r.y_advance, f, Y_ADVANCE);
    let b4 = field_bytes_u(r.x_pla_device, f, X_PLA_DEVICE);
    let b5 = field_bytes_u(r.y_pla_device, f, Y_PLA_DEVICE);
    let b6 = field_bytes_u(r.x_adv_device, f, X_ADV_DEVICE);
    let b7 = field_bytes_u(r.y_adv_device, f, Y_ADV_DEVICE);
    let p0 = pre.len() as int;
    let p1 = p0 + b0.len();
    let p2 = p1 + b1.len();
    let p3 = p2 + b2.len();
    let p4 = p3 + b3.len();
    let p5 = p4 + b4.len();
    let p6 = p5 + b5.len();
    let p7 = p6 + b6.len();
    assert(d.subrange(p0, p0 + b0.len() as int) =~= b0);
    assert(d.subrange(p1, p1 + b1.len() as int) =~= b1);
    assert(d.subrange(p2, p2 + b2.len() as int) =~= b2);
    assert(d.subrange(p3, p3 + b3.len() as int) =~= b3);
    assert(d.subrange(p4, p4 + b4.len() as int) =~= b4);
    assert(d.subrange(p5, p5 + b5.len() as int) =~= b5);
    assert(d.subrange(p6, p6 + b6.len() as int) =~= b6);
    assert(d.subrange(p7, p7 + b7.len() as int) =~= b7);
    lemma_field_round_trip(r.x_placement, f, X_PLACEMENT, d, p0);
    lemma_field_round_trip(r.y_placement, f, Y_PLACEMENT, d, p1);
    lemma_field_round_trip(r.x_advance, f, X_ADVANCE, d, p2);
    lemma_field_round_trip(r.y_advance, f, Y_ADVANCE, d, p3);
    lemma_field_round_trip_u(r.x_pla_device, f, X_PLA_DEVICE, d, p4);
    lemma_field_round_trip_u(r.y_pla_device, f, Y_PLA_DEVICE, d, p5);
    lemma_field_round_trip_u(r.x_adv_device, f, X_ADV_DEVICE, d, p6);
    lemma_field_round_trip_u(r.y_adv_device, f, Y_ADV_DEVICE, d, p7);
}

/// Appends the bytes of one field under flag set `f`.
fn write_field(out: &mut Vec<u8>, v: Option<i16>, f: u16, bit: u16)
    ensures
        final(out)@ == old(out)@ + field_bytes(v, f, bit),
{
    if f & bit != 0 {
        let w: u16 = match v {
            Some(x) => x as u16,
            None => 0,
        };
        push_u16(out, w);
    } else {
        assert(old(out)@ + field_bytes(v, f, bit) =~= old(out)@);
    }
}

/// Appends the bytes of one offset under flag set `f`.
fn write_field_u(out: &mut Vec<u8>, v: Option<u16>, f: u16, bit: u16)
    ensures
        final(out)@ == old(out)@ + field_bytes_u(v, f, bit),
{
    if f & bit != 0 {
        let w: u16 = match v {
            Some(x) => x,
            None => 0,
        };
        push_u16(out, w);
    } else {
        assert(old(out)@ + field_bytes_u(v, f, bit) =~= old(out)@);
    }
}

/// Appends the bytes of a record under flag set `f`.
pub fn write_record(out: &mut Vec<u8>, r: &ValueRecord, f: u16)
    ensures
        final(out)@ == old(out)@ + record_bytes(*r, f),
{
    write_field(out, r.x_placement, f, X_PLACEMENT);
    write_field(out, r.y_placement, f, Y_PLACEMENT);
    write_field(out, r.x_advance, f, X_ADVANCE);
    write_field(out, r.y_advance, f, Y_ADVANCE);
    write_field_u(out, r.x_pla_device, f, X_PLA_DEVICE);
    write_field_u(out, r.y_pla_device, f, Y_PLA_DEVICE);
    write_field_u(out, r.x_adv_device, f, X_ADV_DEVICE);
    write_field_u(out, r.y_adv_device, f, Y_ADV_DEVICE);
    reveal(record_bytes);
    assert(final(out)@ =~= old(out)@ + record_bytes(*r, f));
}

/// Reads one field at `pos` where `bit` is in `f`; `pos` moves past it.
fn read_field(d: &[u8], pos: usize, f: u16, bit: u16) -> (r: (Option<i16>, usize))
    requires
        pos + 2 * bit_count(f, bit) <= d@.len(),
    ensures
        r.0 == field_at(d@, pos as int, f, bit),
        r.1 == pos + 2 * bit_count(f, bit),
{
    let len = d.len();
    if f & bit != 0 {
        assert(pos + 2 <= len);
        let w = read_u16(d, pos).unwrap();
        (Some(w as i16), pos + 2)
    } else {
        (None, pos)
    }
}

/// Reads one offset at `pos` where `bit` is in `f`; `pos` moves past it.
fn read_field_u(d: &[u8], pos: usize, f: u16, bit: u16) -> (r: (Option<u16>, usize))
    requires
        pos + 2 * bit_count(f, bit) <= d@.len(),
    ensures
        r.0 == field_at_u(d@, pos as int, f, bit),
        r.1 == pos + 2 * bit_count(f, bit),
{
    let len = d.len();
    if f & bit != 0 {
        assert(pos + 2 <= len);
        let w = read_u16(d, pos).unwrap();
        (Some(w), pos + 2)
    } else {
        (None, pos)
    }
}

/// Size in bytes of a record written under flag set `f`.
pub fn record_len(f: u16) -> (r: usize)
    ensures
        r == record_size(f),
        r <= 16,
{
    reveal(record_size);
    (if f & X_PLACEMENT != 0 { 2usize } else { 0 }) + (if f & Y_PLACEMENT != 0 { 2usize } else { 0 })
        + (if f & X_ADVANCE != 0 { 2usize } else { 0 }) + (if f & Y_ADVANCE != 0 { 2usize } else { 0 })
        + (if f & X_PLA_DEVICE != 0 { 2usize } else { 0 }) + (if f & Y_PLA_DEVICE != 0 { 2usize } else { 0 })
        + (if f & X_ADV_DEVICE != 0 { 2usize } else { 0 }) + (if f & Y_ADV_DEVICE != 0 { 2usize } else { 0 })
}

/// Reads the record at `pos` under flag set `f`, if it lies within `d`.
pub fn read_record(d: &[u8], pos: usize, f: u16) -> (r: Option<ValueRecord>)
    ensures
        r == (if pos + record_size(f) <= d@.len() { Some(record_at(d@, pos as int, f)) } else { None::<ValueRecord> }),
{
    reveal(record_size);
    reveal(record_at);
    let n = record_len(f);
    if pos > d.len() || d.len() - pos < n {
        return None;
    }
    let (a, p1) = read_field(d, pos, f, X_PLACEMENT);
    let (b, p2) = read_field(d, p1, f, Y_PLACEMENT);
    let (c, p3) = read_field(d, p2, f, X_ADVANCE);
    let (e, p4) = read_field(d, p3, f, Y_ADVANCE);
    let (g, p5) = read_field_u(d, p4, f, X_PLA_DEVICE);
    let (h, p6) = read_field_u(d, p5, f, Y_PLA_DEVICE);
    let (k, p7) = read_field_u(d, p6, f, X_ADV_DEVICE);
    let (l, _p8) = read_field_u(d, p7, f, Y_ADV_DEVICE);
    Some(ValueRecord {
        x_placement: a,
        y_placement: b,
        x_advance: c,
        y_advance: e,
        x_pla_device: g,
        y_pla_device: h,
        x_adv_device: k,
        y_adv_device: l,
    })
}

impl ValueRecord {
    /// Removes every field whose value is zero.
    pub fn simplify(&mut self)
        ensures
            *final(self) == simplified(*old(self)),
    {
        if self.x_placement == Some(0i16) {
            self.x_placement = None;
        }
        if self.y_placement == Some(0i16) {
            self.y_placement = None;
        }
        if self.x_advance == Some(0i16) {
            self.x_advance = None;
        }
        if self.y_advance == Some(0i16) {
            self.y_advance = None;
        }
        if self.x_pla_device == Some(0u16) {
            self.x_pla_device = None;
        }
        if self.y_pla_device == Some(0u16) {
            self.y_pla_device = None;
        }
        if self.x_adv_device == Some(0u16) {
            self.x_adv_device = None;
        }
        if self.y_adv_device == Some(0u16) {
            self.y_adv_device = None;
        }
    }

    /// The flags of the fields that this record holds.
    pub fn flags(&self) -> (r: u16)
        ensures
            r == record_flags(*self),
    {
        let a: u16 = if self.x_placement.is_some() { X_PLACEMENT } else { 0 };
        let b: u16 = if self.y_placement.is_some() { Y_PLACEMENT } else { 0 };
        let c: u16 = if self.x_advance.is_some() { X_ADVANCE } else { 0 };
        let d: u16 = if self.y_advance.is_some() { Y_ADVANCE } else { 0 };
        let e: u16 = if self.x_pla_device.is_some() { X_PLA_DEVICE } else { 0 };
        let g: u16 = if self.y_pla_device.is_some() { Y_PLA_DEVICE } else { 0 };
        let h: u16 = if self.x_adv_device.is_some() { X_ADV_DEVICE } else { 0 };
        let k: u16 = if self.y_adv_device.is_some() { Y_ADV_DEVICE } else { 0 };
        a | b | c | d | e | g | h | k
    }
}

/// The union of the flags of every record in `records`.
pub fn highest_format(records: &Vec<ValueRecord>) -> (r: u16)
    ensures
        r == highest_format_of(records@),
{
    let mut acc: u16 = 0;
    let mut i: usize = 0;
    while i < records.len()
        invariant
            i <= records@.len(),
            acc == highest_format_of(records@.take(i as int)),
        decreases records@.len() - i,
    {
        acc = acc | records[i].flags();
        assert(records@.take(i + 1).drop_last() =~= records@.take(i as int));
        i = i + 1;
    }
    assert(records@.take(i as int) =~= records@);
    acc
}

} // verus!
