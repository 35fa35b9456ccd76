use pcg_mwc::sideways::flip_sideways;

#[test]
fn test_flip_perspective() {
    let input: [u8; 8] = [0x00, 0x01, 0x02, 0x03, 0x04, 0x05, 0x06, 0x7];
    let output = flip_sideways(input);
    assert_eq!(output, [0xAA, 0xCC, 0xF0, 0x00, 0x00, 0x00, 0x00, 0x00]);
    let input: [u8; 8] = [0x00, 0x10, 0x20, 0x30, 0x40, 0x50, 0x60, 0x70];
    let output = flip_sideways(input);
    assert_eq!(output, [0x00, 0x00, 0x00, 0x00, 0xAA, 0xCC, 0xF0, 0x00]);
}

#[test]
fn flip_twice_is_identity() {
    let input: [u8; 8] = [0x12, 0x34, 0x56, 0x78, 0x9a, 0xbc, 0xde, 0xf0];
    assert_eq!(flip_sideways(flip_sideways(input)), input);
}
