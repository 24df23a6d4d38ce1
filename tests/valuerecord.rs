use fonttools::valuerecord::{highest_format, ValueRecord};

#[test]
fn simplify_drops_zero_fields_and_is_idempotent() {
    let mut r = ValueRecord {
        x_placement: Some(0),
        y_placement: Some(3),
        x_advance: None,
        y_advance: Some(0),
        x_adv_device: Some(0),
        ..ValueRecord::default()
    };
    r.simplify();
    let once = r;
    assert_eq!(once, ValueRecord { y_placement: Some(3), ..ValueRecord::default() });
    r.simplify();
    assert_eq!(r, once);
}

#[test]
fn highest_format_is_union() {
    let a = ValueRecord { x_advance: Some(-5), ..ValueRecord::default() };
    let b = ValueRecord { x_placement: Some(1), y_advance: Some(2), ..ValueRecord::default() };
    assert_eq!(a.flags(), 0x0004);
    assert_eq!(b.flags(), 0x0009);
    assert_eq!(highest_format(&vec![a, b]), 0x000d);
    assert_eq!(highest_format(&vec![]), 0);
    assert_eq!(highest_format(&vec![a, b]) & b.flags(), b.flags());
}

#[test]
fn device_offsets_have_their_flags() {
    let r = ValueRecord { x_advance: Some(3), y_adv_device: Some(12), ..ValueRecord::default() };
    assert_eq!(r.flags(), 0x0084);
    let mut z = ValueRecord { x_pla_device: Some(0), ..ValueRecord::default() };
    z.simplify();
    assert_eq!(z, ValueRecord::default());
}
