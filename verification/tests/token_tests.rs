use hitbtc::token::Token;
use hitbtc::token::TokenError;

#[test]
fn pack_pads_with_zeros() {
    let t = Token::try_from("XMRBTC").unwrap();
    assert_eq!(t.to_bytes(), [b'X', b'M', b'R', b'B', b'T', b'C', 0, 0]);
}

#[test]
fn pack_rejects_over_eight_bytes() {
    assert_eq!(Token::try_from("ABCDEFGHI"), Err(TokenError::TokenTooLong(9)));
    assert!(Token::try_from("ABCDEFGH").is_ok());
}

#[test]
fn text_trims_trailing_padding() {
    let t = Token::try_from("XMRBTC").unwrap();
    assert_eq!(t.text_bytes(), b"XMRBTC".to_vec());
    let full = Token::try_from("ABCDEFGH").unwrap();
    assert_eq!(full.text_bytes(), b"ABCDEFGH".to_vec());
}

#[test]
fn empty_symbol_is_all_padding() {
    let t = Token::try_from("").unwrap();
    assert_eq!(t.to_bytes(), [0u8; 8]);
    assert_eq!(t.text_bytes(), vec![]);
    assert_eq!(t.prefix_bytes(), vec![]);
}

#[test]
fn prefix_stops_at_first_interior_zero() {
    // an interior zero byte ends the owned-string form but not the text
    let t = Token::try_from("AB\0C").unwrap();
    assert_eq!(t.prefix_bytes(), b"AB".to_vec());
    assert_eq!(t.text_bytes(), b"AB\0C".to_vec());
}

#[test]
fn tokens_compare_by_content() {
    let a = Token::try_from("BTC").unwrap();
    let b = Token::try_from("BTC").unwrap();
    let c = Token::try_from("ETH").unwrap();
    assert_eq!(a, b);
    assert_ne!(a, c);
}
