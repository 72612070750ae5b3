use utxo_crypto::sha256::sha256;

fn hex(bytes: &[u8]) -> String {
    bytes.iter().map(|b| format!("{:02x}", b)).collect()
}

#[test]
fn sha256_empty() {
    let d = sha256(b"").unwrap();
    assert_eq!(hex(&d), "e3b0c44298fc1c149afbf4c8996fb92427ae41e4649b934ca495991b7852b855");
}

#[test]
fn sha256_abc() {
    let d = sha256(b"abc").unwrap();
    assert_eq!(hex(&d), "ba7816bf8f01cfea414140de5dae2223b00361a396177a9cb410ff61f20015ad");
}

#[test]
fn sha256_two_blocks() {
    let d = sha256(b"abcdbcdecdefdefgefghfghighijhijkijkljklmklmnlmnomnopnopq").unwrap();
    assert_eq!(hex(&d), "248d6a61d20638b8e5c026930c3e6039a33ce45964ff2167f6ecedd419db06c1");
}

#[test]
fn sha256_padding_boundaries() {
    let cases = [
        (55usize, "9f4390f8d30c2dd92ec9f095b65e2b9ae9b0a925a5258e241c9f1e910f734318"),
        (56, "b35439a4ac6f0948b6d6f9e3c6af0f5f590ce20f1bde7090ef7970686ec6738a"),
        (64, "ffe054fe7ae0cb6dc65c3af9b61d5209f439851db43d0ba5997337df154668eb"),
        (119, "31eba51c313a5c08226adf18d4a359cfdfd8d2e816b13f4af952f7ea6584dcfb"),
    ];
    for (n, want) in cases.iter() {
        let msg = vec![b'a'; *n];
        assert_eq!(hex(&sha256(&msg).unwrap()), *want);
    }
}

#[test]
fn sha256_is_deterministic() {
    let msg = b"the same input twice";
    let a = sha256(msg).unwrap();
    let b = sha256(msg).unwrap();
    assert_eq!(a, b);
    assert_eq!(a.len(), 32);
}
