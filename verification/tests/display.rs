use libpt::display::{
    byte_bit_display, bytes_to_bin, humanbytes, EXBI, GIBI, KIBI, MEBI, PEBI, TEBI, YOBI, ZEBI,
};

#[test]
fn one_byte_in_binary() {
    assert_eq!(bytes_to_bin(&[0b0000_0110]), "0b00000110");
    assert_eq!(bytes_to_bin(&[0xff]), "0b11111111");
    assert_eq!(bytes_to_bin(&[0]), "0b00000000");
    assert_eq!(bytes_to_bin(&[0b1000_0001]), "0b10000001");
}

#[test]
fn bytes_are_joined_by_underscores() {
    assert_eq!(bytes_to_bin(&[0b0000_0110, 0b1011_0101]), "0b00000110_10110101");
}

#[test]
fn a_line_break_follows_every_eighth_byte_behind_the_first() {
    let data = [1u8, 2, 3, 4, 5, 6, 7, 8, 9, 10];
    assert_eq!(
        bytes_to_bin(&data),
        "0b00000001_00000010_00000011_00000100_00000101_00000110_00000111_00001000_00001001\n_00001010"
    );
}

#[test]
fn bytes_beside_bits() {
    assert_eq!(byte_bit_display(0), "0000000 B = 00000000 bit");
    assert_eq!(byte_bit_display(4), "0000004 B = 00000032 bit");
    assert_eq!(byte_bit_display(1234567), "1234567 B = 09876536 bit");
    assert_eq!(byte_bit_display(123456789), "123456789 B = 987654312 bit");
}

#[test]
fn the_binary_units() {
    assert_eq!(KIBI, 1u128 << 10);
    assert_eq!(MEBI, 1u128 << 20);
    assert_eq!(GIBI, 1u128 << 30);
    assert_eq!(TEBI, 1u128 << 40);
    assert_eq!(PEBI, 1u128 << 50);
    assert_eq!(EXBI, 1u128 << 60);
    assert_eq!(ZEBI, 1u128 << 70);
    assert_eq!(YOBI, 1u128 << 80);
}

#[test]
fn sizes_for_a_reader() {
    assert_eq!(humanbytes(0), "0 B");
    assert_eq!(humanbytes(33), "33 B");
    assert_eq!(humanbytes(1023), "1023 B");
    assert_eq!(humanbytes(1024), "1 KiB");
    assert_eq!(humanbytes(1536), "1 KiB");
    assert_eq!(humanbytes(2047), "1 KiB");
    assert_eq!(humanbytes(2048), "2 KiB");
    assert_eq!(humanbytes(MEBI - 1), "1023 KiB");
    assert_eq!(humanbytes(MEBI), "1 MiB");
    assert_eq!(humanbytes(5 * GIBI + 3), "5 GiB");
    assert_eq!(humanbytes(TEBI), "1 TiB");
    assert_eq!(humanbytes(PEBI), "1 PiB");
    assert_eq!(humanbytes(u64::MAX as u128), "15 EiB");
    assert_eq!(humanbytes(ZEBI), "1 ZiB");
    assert_eq!(humanbytes(YOBI), "1 YiB");
    assert_eq!(humanbytes(u128::MAX), "281474976710655 YiB");
}
