use fonttools::binary::DecodeError;
use fonttools::coverage::Coverage;
use fonttools::gsub1::SingleSubst;

#[test]
fn glyph_list_round_trip() {
    let c = Coverage { glyphs: vec![3, 9, 400] };
    let mut out = vec![0xaa];
    c.to_bytes(&mut out);
    assert_eq!(out, vec![0xaa, 0, 1, 0, 3, 0, 3, 0, 9, 1, 0x90]);
    assert_eq!(Coverage::from_bytes(&out, 1).unwrap(), c);
}

#[test]
fn glyph_ranges_are_read() {
    let d = vec![0, 2, 0, 2, 0, 5, 0, 7, 0, 0, 0, 10, 0, 10, 0, 3];
    assert_eq!(Coverage::from_bytes(&d, 0).unwrap().glyphs, vec![5, 6, 7, 10]);
}

#[test]
fn overlapping_ranges_are_unsorted() {
    let d = vec![0, 2, 0, 2, 0, 5, 0, 7, 0, 0, 0, 7, 0, 9, 0, 3];
    assert_eq!(Coverage::from_bytes(&d, 0), Err(DecodeError::Unsorted));
}

#[test]
fn unknown_coverage_format() {
    let d = vec![0, 3, 0, 0];
    assert_eq!(Coverage::from_bytes(&d, 0), Err(DecodeError::BadFormat));
    assert_eq!(Coverage::from_bytes(&d[..3], 0), Err(DecodeError::Truncated));
}

#[test]
fn delta_subtable_with_range_coverage() {
    let d = vec![0, 1, 0, 6, 0, 1, 0, 2, 0, 1, 0, 0x22, 0, 0x24, 0, 0];
    let s = SingleSubst::from_bytes(&d).unwrap();
    assert_eq!(s.mapping, vec![(34, 35), (35, 36), (36, 37)]);
}
