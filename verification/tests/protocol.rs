use actionkv::parity::parity_bit;
use actionkv::protocol::PageReaderProtocol;

#[test]
fn protocol_names_are_lower_case_words() {
    assert_eq!(PageReaderProtocol::from_str("http"), Ok(PageReaderProtocol::HTTP));
    assert_eq!(PageReaderProtocol::from_str("tcp"), Ok(PageReaderProtocol::TCP));
    assert_eq!(PageReaderProtocol::from_str("HTTP"), Err(()));
    assert_eq!(PageReaderProtocol::from_str(""), Err(()));
    assert_eq!(PageReaderProtocol::from_str("https"), Err(()));
    assert_eq!(PageReaderProtocol::from_str("tcp "), Err(()));
}

#[test]
fn parity_bit_is_one_for_an_even_number_of_ones() {
    assert_eq!(parity_bit(&[]), 1);
    assert_eq!(parity_bit(&[0]), 1);
    assert_eq!(parity_bit(&[1]), 0);
    assert_eq!(parity_bit(&[3]), 1);
    assert_eq!(parity_bit(&[255]), 1);
    assert_eq!(parity_bit(&[255, 1]), 0);
    assert_eq!(parity_bit(&[1, 0, 0, 0, 2]), 1);
    assert_eq!(parity_bit(&[1, 0, 0, 0, 2, 0, 0, 0, 0, 0, 0, 0, 8]), 0);
    assert_eq!(parity_bit(&[0x80, 0x7F]), 1);
}
