use utxo_crypto::arithmetic256::u256;

#[test]
fn hex_display_is_zero_padded_lowercase() {
    assert_eq!(
        u256::new(&[0, 0xab]).to_hex(),
        "00000000000000000000000000000000000000000000000000000000000000ab"
    );
    assert_eq!(u256::new(&[u128::MAX, u128::MAX]).to_hex(), "f".repeat(64));
}

#[test]
fn hex_round_trip() {
    let samples = [
        u256::zero(),
        u256::new(&[0, 1]),
        u256::new(&[u128::MAX, u128::MAX]),
        u256::new(&[0x0123_4567_89ab_cdef_fedc_ba98_7654_3210, 0xdead_beef]),
        u256::new(&[1, 0]),
    ];
    for v in samples.iter() {
        assert_eq!(u256::from_hex(&v.to_hex()), Some(*v));
    }
}

#[test]
fn from_hex_accepts_upper_case() {
    let s = "00000000000000000000000000000000000000000000000000000000000000AB";
    assert_eq!(u256::from_hex(s), Some(u256::new(&[0, 0xab])));
}

#[test]
fn from_hex_rejects_bad_text() {
    assert_eq!(u256::from_hex("abc"), None);
    assert_eq!(u256::from_hex(&"0".repeat(65)), None);
    let mut bad = "0".repeat(63);
    bad.push('g');
    assert_eq!(u256::from_hex(&bad), None);
    let mut wide = "0".repeat(62);
    wide.push('é');
    assert_eq!(u256::from_hex(&wide), None);
}
