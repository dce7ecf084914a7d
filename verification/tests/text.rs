use libpt::text::{dec_digit, hex_digit, push_dec, push_hex, push_padded, push_repeated};

#[test]
fn the_digits() {
    let hex: String = (0..16u8).map(hex_digit).collect();
    assert_eq!(hex, "0123456789ABCDEF");
    let dec: String = (0..10u8).map(dec_digit).collect();
    assert_eq!(dec, "0123456789");
}

#[test]
fn hexadecimal_with_leading_zeros() {
    let mut s = String::from(">");
    push_hex(&mut s, 0, 8);
    assert_eq!(s, ">00000000");
    let mut s = String::new();
    push_hex(&mut s, 0xbeef, 8);
    assert_eq!(s, "0000BEEF");
    let mut s = String::new();
    push_hex(&mut s, 0xbeef, 2);
    assert_eq!(s, "BEEF");
    let mut s = String::new();
    push_hex(&mut s, 0, 0);
    assert_eq!(s, "0");
    let mut s = String::new();
    push_hex(&mut s, u64::MAX, 1);
    assert_eq!(s, "FFFFFFFFFFFFFFFF");
}

#[test]
fn decimal_with_leading_zeros() {
    let mut s = String::from("n=");
    push_dec(&mut s, 0, 1);
    assert_eq!(s, "n=0");
    let mut s = String::new();
    push_dec(&mut s, 1717, 1);
    assert_eq!(s, "1717");
    let mut s = String::new();
    push_dec(&mut s, 1717, 7);
    assert_eq!(s, "0001717");
    let mut s = String::new();
    push_dec(&mut s, u128::MAX, 0);
    assert_eq!(s, "340282366920938463463374607431768211455");
}

#[test]
fn repeated_characters() {
    let mut s = String::from("a");
    push_repeated(&mut s, '─', 3);
    push_repeated(&mut s, 'x', 0);
    assert_eq!(s, "a───");
}

#[test]
fn padding_counts_characters_not_bytes() {
    let mut s = String::from("[");
    push_padded(&mut s, "│é", 4);
    s.push(']');
    assert_eq!(s, "[│é  ]");
    let mut s = String::new();
    push_padded(&mut s, "longer", 3);
    assert_eq!(s, "longer");
}
