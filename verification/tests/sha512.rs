use bitkit::sha512::{sha512_digest, sha512_hex};

#[test]
fn sha512_of_abc() {
    assert_eq!(
        sha512_hex(b"abc"),
        "ddaf35a193617abacc417349ae20413112e6fa4e89a97ea20a9eeee64b55d39a2192992a274fc1a836ba3c23a3feebbd454d4423643ce80e2a9ac94fa54ca49f"
    );
}

#[test]
fn sha512_of_empty_message() {
    assert_eq!(
        sha512_hex(b""),
        "cf83e1357eefb8bdf1542850d66d8007d620e4050b5715dc83f4a921d36ce9ce47d0d13c5d85f2b0ff8318d2877eec2f63b931bd47417a81a538327af927da3e"
    );
}

#[test]
fn sha512_of_multi_block_message() {
    let msg = vec![b'a'; 200];
    assert_eq!(
        sha512_hex(&msg),
        "4b11459c33f52a22ee8236782714c150a3b2c60994e9acee17fe68947a3e6789f31e7668394592da7bef827cddca88c4e6f86e4df7ed1ae6cba71f3e98faee9f"
    );
}

#[test]
fn sha512_digest_words() {
    let h = sha512_digest(b"abc");
    assert_eq!(h.len(), 8);
    assert_eq!(h[0], 0xddaf35a193617aba);
    assert_eq!(h[7], 0x2a9ac94fa54ca49f);
}
