use torrent_leech::message_handlers::{bit_is_set, parse_bitfield};

#[test]
fn test_parse_bitfield() {
    let bitfield: Vec<u8> = vec![127];
    let piece_indexes = parse_bitfield(bitfield);
    assert_eq!(piece_indexes, vec![1, 2, 3, 4, 5, 6, 7]);

    let bitfield: Vec<u8> = vec![255];
    let piece_indexes = parse_bitfield(bitfield);
    assert_eq!(piece_indexes, vec![0, 1, 2, 3, 4, 5, 6, 7]);
}

#[test]
fn parse_bitfield_lists_in_ascending_order() {
    assert_eq!(parse_bitfield(vec![0x80, 0x01, 0x00, 0x41]), vec![0, 15, 25, 31]);
    assert_eq!(parse_bitfield(vec![]), Vec::<u64>::new());
}

#[test]
fn high_bit_is_the_first_piece() {
    let bits: Vec<u8> = vec![0x80, 0x01];
    assert!(bit_is_set(&bits, 0));
    assert!(!bit_is_set(&bits, 1));
    assert!(!bit_is_set(&bits, 8));
    assert!(bit_is_set(&bits, 15));
    assert!(!bit_is_set(&bits, 16));
    assert!(!bit_is_set(&bits, u32::MAX));
}
