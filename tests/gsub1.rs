use fonttools::binary::{DecodeError, EncodeError};
use fonttools::gsub1::{SingleSubst, SingleSubstInternal};

fn subst(pairs: &[(u16, u16)]) -> SingleSubst {
    SingleSubst { mapping: pairs.to_vec() }
}

#[test]
fn test_single_subst_1_serde() {
    let subst = subst(&[(66, 67), (68, 69)]);
    let binary_subst = vec![
        0x00, 0x01, 0x00, 0x06, 0x00, 0x01, 0x00, 0x01, 0x00, 0x02, 0x00, 66, 0x00, 68,
    ];
    let serialized = subst.to_bytes().unwrap();
    assert_eq!(serialized, binary_subst);
    let de = SingleSubst::from_bytes(&binary_subst).unwrap();
    assert_eq!(de, subst);
}

#[test]
fn test_single_subst_2_ser() {
    let subst = subst(&[(34, 66), (35, 66), (36, 66)]);
    let binary_subst = vec![
        0x00, 0x02, 0x00, 0x0C, 0x00, 0x03, 0x00, 0x42, 0x00, 0x42, 0x00, 0x42, 0x00, 0x01,
        0x00, 0x03, 0x00, 0x22, 0x00, 0x23, 0x00, 0x24,
    ];
    let serialized = subst.to_bytes().unwrap();
    assert_eq!(serialized, binary_subst);
    assert_eq!(SingleSubst::from_bytes(&binary_subst).unwrap(), subst);
}

#[test]
fn test_single_subst_internal_ser() {
    let subst = subst(&[(34, 66), (35, 66), (36, 66)]);
    let subst = SingleSubstInternal::from(&subst);
    let binary_subst = vec![
        0x00, 0x02, 0x00, 0x0C, 0x00, 0x03, 0x00, 0x42, 0x00, 0x42, 0x00, 0x42, 0x00, 0x01,
        0x00, 0x03, 0x00, 0x22, 0x00, 0x23, 0x00, 0x24,
    ];
    let serialized = subst.to_bytes().unwrap();
    assert_eq!(serialized, binary_subst);
}

/// A parent table holding one offset to the subtable, which follows it.
fn behind_offset(child: Vec<u8>) -> Vec<u8> {
    let mut out = vec![0x00, 0x02];
    out.extend(child);
    out
}

#[test]
fn test_single_subst_internal_ser2() {
    let subst = subst(&[(34, 66), (35, 66), (36, 66)]);
    let subst = SingleSubstInternal::from(&subst);
    let binary_subst = vec![
        0x00, 0x02, 0x00, 0x02, 0x00, 0x0C, 0x00, 0x03, 0x00, 0x42, 0x00, 0x42, 0x00, 0x42,
        0x00, 0x01, 0x00, 0x03, 0x00, 0x22, 0x00, 0x23, 0x00, 0x24,
    ];
    let serialized = behind_offset(subst.to_bytes().unwrap());
    assert_eq!(serialized, binary_subst);
}

#[test]
fn test_single_subst_internal_ser3() {
    let subst = subst(&[(34, 66), (35, 66), (36, 66)]);
    let subst = SingleSubstInternal::from(&subst);
    if let SingleSubstInternal::Format2(s) = subst {
        let binary_subst = vec![
            0x00, 0x02, 0x00, 0x02, 0x00, 0x0C, 0x00, 0x03, 0x00, 0x42, 0x00, 0x42, 0x00, 0x42,
            0x00, 0x01, 0x00, 0x03, 0x00, 0x22, 0x00, 0x23, 0x00, 0x24,
        ];
        let serialized =
            behind_offset(SingleSubstInternal::Format2(s).to_bytes().unwrap());
        assert_eq!(serialized, binary_subst);
    } else {
        panic!("Wrong format!");
    }
}

#[test]
fn empty_mapping_uses_explicit_list() {
    let s = subst(&[]);
    assert_eq!(s.best_format(), (2, 0));
    let b = s.to_bytes().unwrap();
    assert_eq!(b, vec![0, 2, 0, 6, 0, 0, 0, 1, 0, 0]);
    assert_eq!(SingleSubst::from_bytes(&b).unwrap(), s);
}

#[test]
fn uniform_delta_wraps_around() {
    let s = subst(&[(0xfffe, 1), (0xffff, 2)]);
    assert_eq!(s.best_format(), (1, 3));
    let b = s.to_bytes().unwrap();
    assert_eq!(&b[..6], &[0, 1, 0, 6, 0, 3]);
    assert_eq!(SingleSubst::from_bytes(&b).unwrap(), s);
}

#[test]
fn negative_delta_is_chosen() {
    let s = subst(&[(10, 5), (20, 15), (30, 25)]);
    assert_eq!(s.best_format(), (1, -5));
    match SingleSubstInternal::from(&s) {
        SingleSubstInternal::Format1(f) => {
            assert_eq!(f.delta_glyph_id, -5);
            assert_eq!(f.coverage.glyphs, vec![10, 20, 30]);
        }
        SingleSubstInternal::Format2(_) => panic!("expected a delta"),
    }
}

#[test]
fn one_exception_selects_list() {
    let s = subst(&[(1, 2), (2, 3), (3, 5)]);
    assert_eq!(s.best_format(), (2, 1));
    match SingleSubstInternal::from(&s) {
        SingleSubstInternal::Format2(f) => assert_eq!(f.substitute_glyph_ids, vec![2, 3, 5]),
        SingleSubstInternal::Format1(_) => panic!("expected a list"),
    }
}

#[test]
fn round_trip_and_stable_reencode() {
    let s = subst(&[(3, 100), (7, 7), (900, 12), (65535, 0)]);
    let b = s.to_bytes().unwrap();
    let back = SingleSubst::from_bytes(&b).unwrap();
    assert_eq!(back, s);
    assert_eq!(back.to_bytes().unwrap(), b);
}

#[test]
fn subst_bad_format_tag() {
    for tag in [0u8, 3, 0xff] {
        let b = vec![0, tag, 0, 6, 0, 1, 0, 1, 0, 0];
        assert_eq!(SingleSubst::from_bytes(&b), Err(DecodeError::BadFormat));
    }
    assert_eq!(SingleSubst::from_bytes(&[1, 1, 0, 6, 0, 1]), Err(DecodeError::BadFormat));
}

#[test]
fn subst_truncated() {
    assert_eq!(SingleSubst::from_bytes(&[0]), Err(DecodeError::Truncated));
    assert_eq!(SingleSubst::from_bytes(&[0, 1, 0, 6]), Err(DecodeError::Truncated));
    assert_eq!(SingleSubst::from_bytes(&[0, 1, 0, 6, 0, 1, 0, 1, 0, 2, 0, 5]), Err(DecodeError::Truncated));
}

#[test]
fn subst_unsorted_coverage() {
    let b = vec![0, 1, 0, 6, 0, 1, 0, 1, 0, 2, 0, 9, 0, 5];
    assert_eq!(SingleSubst::from_bytes(&b), Err(DecodeError::Unsorted));
}

#[test]
fn subst_list_shorter_than_coverage_is_cut() {
    let b = vec![0, 2, 0, 8, 0, 1, 0, 42, 0, 1, 0, 2, 0, 5, 0, 9];
    let s = SingleSubst::from_bytes(&b).unwrap();
    assert_eq!(s.mapping, vec![(5, 42)]);
}

#[test]
fn subst_too_large() {
    let pairs: Vec<(u16, u16)> = (0..32765u16).map(|g| (g, 0)).collect();
    let s = SingleSubst { mapping: pairs };
    assert_eq!(s.to_bytes(), Err(EncodeError::TooLarge));
    let pairs: Vec<(u16, u16)> = (0..32764u16).map(|g| (g, 0)).collect();
    let s = SingleSubst { mapping: pairs };
    assert_eq!(s.to_bytes().unwrap().len(), 6 + 2 * 32764 + 4 + 2 * 32764);
}
