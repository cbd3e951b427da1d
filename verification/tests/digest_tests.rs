use timelock_chain::{hmac, sha3};

fn hex(s: &str) -> Vec<u8> {
    let digits: Vec<u8> = s
        .bytes()
        .map(|b| match b {
            b'0'..=b'9' => b - b'0',
            b'a'..=b'f' => b - b'a' + 10,
            _ => panic!("not a hex digit"),
        })
        .collect();
    digits.chunks(2).map(|pair| pair[0] * 16 + pair[1]).collect()
}

#[test]
fn sha3_of_the_empty_string() {
    let digest = sha3(&[]).unwrap();
    assert_eq!(
        digest,
        hex("a7ffc6f8bf1ed76651c14756a061d662f580ff4de43b49fa82d80a4b80f8434a")
    );
}

#[test]
fn sha3_of_abc() {
    let digest = sha3(b"abc").unwrap();
    assert_eq!(
        digest,
        hex("3a985da74fe225b2045c172d6bd390bd855f086e3e9d525b46bfe24511431532")
    );
}

#[test]
fn sha3_digest_has_32_bytes() {
    assert_eq!(sha3(&[0u8; 1000]).unwrap().len(), 32);
    assert_eq!(sha3(&[]).unwrap().len(), 32);
}

#[test]
fn hmac_is_the_digest_of_key_then_message() {
    let keyed = hmac(b"key", b"message").unwrap();
    assert_eq!(keyed, sha3(b"keymessage").unwrap());
    assert_eq!(
        keyed,
        hex("5983a133a91f49bb863af4dd10016339494430c2a9f1210c2d8f1f10806c712c")
    );
}

#[test]
fn hmac_depends_on_where_the_key_ends_only_through_the_concatenation() {
    assert_eq!(hmac(b"ab", b"c").unwrap(), hmac(b"a", b"bc").unwrap());
    assert_ne!(hmac(b"ab", b"c").unwrap(), hmac(b"c", b"ab").unwrap());
}

#[test]
fn hmac_with_empty_key_is_the_plain_digest() {
    assert_eq!(hmac(&[], b"abc").unwrap(), sha3(b"abc").unwrap());
    assert_eq!(hmac(b"abc", &[]).unwrap(), sha3(b"abc").unwrap());
}
