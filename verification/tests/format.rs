use rbom::format_hex;

#[test]
fn formatting_hex() {
    let car = vec![
        0, 1, 2, 3, 4, 5, 6, 7,
        0, 0, 0, 1,
        0, 0, 0, 2,
        3,
    ];
    let s = format_hex(&car);
    assert_eq!(s, "0x0001020304050607000000010000000203");
}

#[test]
fn formatting_hex_empty() {
    let s = format_hex(&[]);
    assert_eq!(s, "0x");
}

#[test]
fn formatting_hex_all_nibbles() {
    let s = format_hex(&[0x01, 0x23, 0x45, 0x67, 0x89, 0xab, 0xcd, 0xef]);
    assert_eq!(s, "0x0123456789abcdef");
}
