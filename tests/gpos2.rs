use fonttools::binary::{DecodeError, EncodeError};
use fonttools::gpos2::{PairPos, PairPosFormat2, PairPosInternal};
use fonttools::coverage::Coverage;
use fonttools::valuerecord::ValueRecord;

fn adv(x: i16) -> ValueRecord {
    ValueRecord { x_advance: Some(x), ..ValueRecord::default() }
}

fn none() -> ValueRecord {
    ValueRecord::default()
}

fn kerns() -> PairPos {
    PairPos {
        mapping: vec![
            (0, 289, adv(-90), none()),
            (0, 332, adv(-150), none()),
            (332, 833, adv(100), none()),
        ],
    }
}

const KERNS: [u8; 38] = [
    0x00, 0x01, 0x00, 0x0e, 0x00, 0x04, 0x00, 0x00, 0x00, 0x02, 0x00, 0x16, 0x00, 0x20, 0x00,
    0x01, 0x00, 0x02, 0x00, 0x00, 0x01, 0x4c, 0x00, 0x02, 0x01, 0x21, 0xff, 0xa6, 0x01, 0x4c,
    0xff, 0x6a, 0x00, 0x01, 0x03, 0x41, 0x00, 0x64,
];

#[test]
fn some_kerns_de() {
    let de = PairPos::from_bytes(&KERNS).unwrap();
    assert_eq!(de, kerns());
}

#[test]
fn some_kerns_ser() {
    let serialized = kerns().to_bytes().unwrap();
    assert_eq!(serialized, KERNS.to_vec());
}

#[test]
fn zero_fields_are_dropped_on_encode() {
    let mut with_zeros = kerns();
    with_zeros.mapping[0].3 = ValueRecord { y_placement: Some(0), ..none() };
    with_zeros.mapping[1].2.x_placement = Some(0);
    assert_eq!(with_zeros.to_bytes().unwrap(), KERNS.to_vec());
}

#[test]
fn grouping_by_first_glyph() {
    let p = PairPos {
        mapping: vec![
            (5, 1, adv(1), none()),
            (5, 2, adv(2), none()),
            (5, 9, none(), adv(3)),
            (7, 0, adv(4), none()),
            (9, 3, ValueRecord { y_placement: Some(6), ..none() }, none()),
        ],
    };
    match PairPosInternal::from(&p) {
        PairPosInternal::Format1(f) => {
            assert_eq!(f.coverage.glyphs, vec![5, 7, 9]);
            assert_eq!(f.pair_sets.len(), 3);
            assert_eq!(f.pair_sets[0].pair_value_records.len(), 3);
            assert_eq!(f.pair_sets[1].pair_value_records.len(), 1);
            assert_eq!(f.pair_sets[2].pair_value_records[0].second_glyph, 3);
            assert_eq!(f.value_format1, 0x0006);
            assert_eq!(f.value_format2, 0x0004);
        }
        PairPosInternal::Format2(_) => panic!("expected the pair list"),
    }
    let b = p.to_bytes().unwrap();
    let back = PairPos::from_bytes(&b).unwrap();
    assert_eq!(back, p);
    assert_eq!(back.to_bytes().unwrap(), b);
}

#[test]
fn empty_pair_pos() {
    let p = PairPos { mapping: vec![] };
    let b = p.to_bytes().unwrap();
    assert_eq!(b, vec![0, 1, 0, 10, 0, 0, 0, 0, 0, 0, 0, 1, 0, 0]);
    assert_eq!(PairPos::from_bytes(&b).unwrap(), p);
}

#[test]
fn pair_pos_bad_format_tag() {
    let mut b = KERNS.to_vec();
    for tag in [0u8, 3, 9] {
        b[1] = tag;
        assert_eq!(PairPos::from_bytes(&b), Err(DecodeError::BadFormat));
    }
}

#[test]
fn pair_pos_class_layout_is_unsupported() {
    let mut b = KERNS.to_vec();
    b[1] = 2;
    assert_eq!(PairPos::from_bytes(&b), Err(DecodeError::Unsupported));
    let f2 = PairPosInternal::Format2(PairPosFormat2 {
        coverage: Coverage { glyphs: vec![] },
        value_format1: 0,
        value_format2: 0,
        class_def1: vec![],
        class_def2: vec![],
        class_count1: 0,
        class_count2: 0,
        class1_records: vec![],
    });
    assert_eq!(f2.to_bytes(), Err(EncodeError::Unsupported));
}

/// One pair (5, 7) whose first record holds `x_advance = -10`, written
/// under the flag sets `vf1` and `vf2` with the given record bytes.
fn one_pair(vf1: u8, vf2: u8, records: &[u8]) -> Vec<u8> {
    let mut d = vec![0, 1, 0, 12, 0, vf1, 0, vf2, 0, 1, 0, 18, 0, 1, 0, 1, 0, 5, 0, 1, 0, 7];
    d.extend_from_slice(records);
    d
}

#[test]
fn pair_pos_device_offsets_are_read() {
    let d = one_pair(0x14, 0, &[0xff, 0xf6, 0x00, 0x2a]);
    let p = PairPos::from_bytes(&d).unwrap();
    let first = ValueRecord { x_advance: Some(-10), x_pla_device: Some(42), ..none() };
    assert_eq!(p.mapping, vec![(5, 7, first, none())]);
    assert_eq!(p.to_bytes().unwrap(), d);
}

#[test]
fn wider_flags_with_zeros_decode_the_same() {
    let narrow = PairPos::from_bytes(&one_pair(0x04, 0, &[0xff, 0xf6])).unwrap();
    let wide = PairPos::from_bytes(&one_pair(0x14, 0x81, &[0xff, 0xf6, 0, 0, 0, 0, 0, 0])).unwrap();
    assert_eq!(narrow, wide);
    assert_eq!(narrow.mapping, vec![(5, 7, adv(-10), none())]);
}

#[test]
fn pair_pos_truncated() {
    assert_eq!(PairPos::from_bytes(&KERNS[..8]), Err(DecodeError::Truncated));
    assert_eq!(PairPos::from_bytes(&KERNS[..37]), Err(DecodeError::Truncated));
}

#[test]
fn pair_pos_unsorted_pairs() {
    let mut b = KERNS.to_vec();
    // second glyph of the second pair of the first set: 0x014c -> 0x0100
    b[29] = 0x00;
    assert_eq!(PairPos::from_bytes(&b), Err(DecodeError::Unsorted));
}

#[test]
fn pair_pos_too_large() {
    let mapping: Vec<_> = (0..6000u16).map(|g| (g, 1, adv(1), adv(2))).collect();
    let p = PairPos { mapping };
    assert_eq!(p.to_bytes(), Err(EncodeError::TooLarge));
}
