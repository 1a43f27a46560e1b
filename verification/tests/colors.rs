use fatty::colors::{construct_rgb, deconstruct_rgb};

#[test]
fn deconstruct_splits_channels() {
    assert_eq!(deconstruct_rgb(0x12ab34), (0x12, 0xab, 0x34));
    assert_eq!(deconstruct_rgb(0xff000000), (0, 0, 0));
}

#[test]
fn construct_joins_channels() {
    assert_eq!(construct_rgb(0x12, 0xab, 0x34), 0x12ab34);
    assert_eq!(construct_rgb(255, 255, 255), 0xffffff);
}

#[test]
fn construct_after_deconstruct_keeps_low_bytes() {
    let x = 0x7f_c0_ff_ee;
    let (r, g, b) = deconstruct_rgb(x);
    assert_eq!(construct_rgb(r, g, b), x & 0xffffff);
}
