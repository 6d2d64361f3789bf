use blit::signing::{
    build_signed_message, consumer_url, passphrase_of, derive_share_key, derive_signing_key, hex_encode, normalize_hub, public_key, public_key_hex,
    sign_payload,
};

#[test]
fn hex_encode_lowercase_pairs() {
    assert_eq!(hex_encode(&[]), "");
    assert_eq!(hex_encode(&[0x00, 0x0f, 0xa5, 0xff]), "000fa5ff");
}

#[test]
fn pbkdf2_key_derivation() {
    let k = derive_signing_key("correct horse");
    assert_eq!(
        hex_encode(&k),
        "6cfc5c3cd95dbdcf6901158197e4d6bf97c2b6e869e557aa076d336ba7618f1b"
    );
    let e = derive_signing_key("");
    assert_eq!(
        hex_encode(&e),
        "da9c4f8ad9324ce2d1606f0f5e2edcf7bad72a0dc9e9fdf30d1cd58857f2dd59"
    );
}

#[test]
fn sha256_share_key() {
    let k = derive_share_key("correct horse");
    assert_eq!(
        hex_encode(&k),
        "4104d36f8da2c254349f85836793ebe029e0c957063a34c91c2e9203187b5631"
    );
}

#[test]
fn public_key_of_known_secret() {
    let k = derive_share_key("correct horse");
    assert_eq!(
        public_key_hex(&k),
        "9948edbb75bf6d319864a81b7c61ada570fcdae8c601eef23a4608c43de81f90"
    );
    let mut seed = [0u8; 32];
    for (i, b) in seed.iter_mut().enumerate() {
        *b = i as u8;
    }
    assert_eq!(
        hex_encode(&public_key(&seed)),
        "03a107bff3ce10be1d70dd18e74bc09967e4d6309ba50d5f1ddc8664125531b8"
    );
}

#[test]
fn signed_envelope_is_base64_of_signature_and_payload() {
    let k = derive_share_key("correct horse");
    assert_eq!(
        sign_payload(&k, b"hello"),
        "Ill/IDO0NLkwC7PGETv+0Jrvwe8lBShlJCcFd/SVJkBAuDSvgvCe0q8+xT7EyjPJoWWZ1p8MQWHJSB+FHZKKAmhlbGxv"
    );
    let mut seed = [0u8; 32];
    for (i, b) in seed.iter_mut().enumerate() {
        *b = i as u8;
    }
    assert_eq!(
        sign_payload(&seed, b""),
        "nKU1eVMGVNXD33cInvRe2mE+L+32cOlr7axGOVBOWEXvS5XVeTB3Iz3RaBeyUy6cVSWHKnOkrXS3WTaangXBAg=="
    );
}

#[test]
fn hub_addresses() {
    assert_eq!(normalize_hub("hub.blit.sh"), "wss://hub.blit.sh");
    assert_eq!(normalize_hub("hub.blit.sh///"), "wss://hub.blit.sh");
    assert_eq!(normalize_hub("wss://hub.blit.sh/"), "wss://hub.blit.sh");
    assert_eq!(normalize_hub("ws://example.org"), "ws://example.org");
    assert_eq!(normalize_hub("https://example.org/"), "wss://example.org");
    assert_eq!(normalize_hub("http://example.org"), "ws://example.org");
    assert_eq!(normalize_hub("localhost:8080"), "ws://localhost:8080");
    assert_eq!(normalize_hub("127.0.0.1:9"), "ws://127.0.0.1:9");
    assert_eq!(normalize_hub("[::1]:9/"), "ws://[::1]:9");
}

#[test]
fn consumer_urls_drop_trailing_slashes() {
    assert_eq!(consumer_url("wss://hub.blit.sh//", "ab12"), "wss://hub.blit.sh/channel/ab12/consumer");
    assert_eq!(consumer_url("ws://localhost:8080", "ff"), "ws://localhost:8080/channel/ff/consumer");
}

#[test]
fn signed_messages_in_json() {
    let key = derive_signing_key("pw");
    let signed = sign_payload(&key, b"{}");
    let msg = build_signed_message(&key, "peer \"1\"\n\u{1}\\", b"{}");
    assert_eq!(msg, format!("{{\"signed\":\"{}\",\"target\":\"peer \\\"1\\\"\\n\\u0001\\\\\"}}", signed));
}

#[test]
fn passphrase_letters() {
    assert_eq!(passphrase_of(&[0, 25, 26, 31, 32, 255]), "az27a7");
    assert_eq!(passphrase_of(&[]), "");
}

#[test]
fn hub_addresses_settle() {
    for raw in ["hub.blit.sh", "https://hub.blit.sh/", "http://x/", "localhost:3000", "ws://a//", "wss://b"] {
        let h = normalize_hub(raw);
        assert!(h.starts_with("ws://") || h.starts_with("wss://"));
        assert!(!h.ends_with('/'));
        assert_eq!(normalize_hub(&h), h);
    }
}
