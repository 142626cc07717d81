use qmk_oled_api::bits::{get_bit_at_index, set_bit_at_index};

#[test]
fn test_set_bit_at_index() {
    let input = 0b00000000;
    let actual = set_bit_at_index(input, 3, true);

    assert_eq!(actual, 0b00010000)
}

#[test]
fn test_get_bit_at_index() {
    let input = 0b00010000;
    let bit_state = get_bit_at_index(input, 3);

    assert!(bit_state)
}

#[test]
fn test_set_bit_clears() {
    let input = 0b11111111;
    let actual = set_bit_at_index(input, 0, false);

    assert_eq!(actual, 0b01111111);
}

#[test]
fn test_set_bit_keeps_other_bits() {
    let input = 0b10100101;
    let actual = set_bit_at_index(input, 4, true);

    assert_eq!(actual, 0b10101101);
    let back = set_bit_at_index(actual, 4, false);
    assert_eq!(back, input);
}

#[test]
fn test_get_bit_each_position() {
    for i in 0..8u8 {
        let byte = 0b10000000u8 >> i;
        for j in 0..8u8 {
            assert_eq!(get_bit_at_index(byte, j), i == j);
        }
    }
}
