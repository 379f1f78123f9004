use jp_holidays::client::Client;
use jp_holidays::error::Error;
use jp_holidays::util::to_utf8;

#[test]
fn test_to_utf8_valid_shift_jis() {
    let shift_jis_bytes = vec![0x82, 0xa0, 0x82, 0xa2, 0x82, 0xa4];
    let result = to_utf8(&shift_jis_bytes);
    assert!(result.is_ok());
    assert_eq!(result.unwrap(), "あいう");
}

#[test]
fn test_to_utf8_invalid_shift_jis() {
    // Strict decode policy: a malformed byte sequence is an error, not a
    // replacement character.
    let invalid_shift_jis_bytes = vec![0x82, 0xa0, 0xff, 0x82, 0xa4];
    let result = to_utf8(&invalid_shift_jis_bytes);
    assert!(result.is_err());
    assert!(matches!(result, Err(Error::Decode(_))));
}

#[test]
fn test_to_utf8_empty_input() {
    let empty_bytes: Vec<u8> = vec![];
    let result = to_utf8(&empty_bytes);
    assert!(result.is_ok());
    assert_eq!(result.unwrap(), "");
}

#[test]
fn test_build_rejects_undecodable_feed() {
    // The builder propagates the strict decode failure as a Decode error.
    let mut bytes = vec![0xffu8, 0xff];
    bytes.extend_from_slice(b"header\n1955/1/1,x\n");
    let result = Client::from_csv_bytes(&bytes);
    assert!(matches!(result, Err(Error::Decode(_))));
}

#[test]
fn test_ascii_passes_through_decode() {
    let bytes = b"header\n1955/1/1,New Year\n".to_vec();
    let decoded = to_utf8(&bytes).unwrap();
    assert_eq!(decoded, "header\n1955/1/1,New Year\n");
}
