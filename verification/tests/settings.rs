use artemis::settings::{
    hex_decode, hex_encode, key_of_unprotected, load_api_key, save_api_key, ApiKeyLookup, Config,
    SettingsError,
};

#[test]
fn hex_roundtrip() {
    let data = [0u8, 1, 15, 16, 127, 128, 255];
    let hex = hex_encode(&data);
    assert_eq!(hex, "00010f10 7f80ff".replace(' ', ""));
    assert_eq!(hex_decode(&hex).unwrap(), data);
}

#[test]
fn hex_decode_rejects_invalid() {
    assert!(hex_decode("0").is_none());
    assert!(hex_decode("zz").is_none());
    assert_eq!(hex_decode("").unwrap(), Vec::<u8>::new());
}

#[test]
fn hex_decode_reads_as_from_str_radix() {
    assert_eq!(hex_decode("FFa0").unwrap(), vec![255u8, 160]);
    assert_eq!(hex_decode("+f").unwrap(), vec![15u8]);
    assert!(hex_decode("-f").is_none());
    assert!(hex_decode("f+").is_none());
    assert!(hex_decode("é").is_none());
    assert!(hex_decode("0é").is_none());
}

#[test]
fn saved_key_loads_back() {
    let mut c = Config::default();
    c.vault_path = Some("C:/vault".to_string());
    c.api_key = Some("antiga".to_string());
    let blob = [1u8, 2, 0xfe];
    let saved = save_api_key(c, "sk-ção-42", &blob, "sk-ção-42".as_bytes()).unwrap();
    assert_eq!(saved.vault_path.as_deref(), Some("C:/vault"));
    assert!(saved.api_key.is_none());
    assert_eq!(saved.api_key_enc.as_deref(), Some("0102fe"));
    match load_api_key(&saved) {
        ApiKeyLookup::Protected(b) => assert_eq!(b, blob),
        other => panic!("unexpected {:?}", other),
    }
    assert_eq!(key_of_unprotected("sk-ção-42".as_bytes().to_vec()).as_deref(), Some("sk-ção-42"));
}

#[test]
fn save_api_key_refuses_a_failed_roundtrip() {
    let r = save_api_key(Config::default(), "sk-1", &[9u8], b"sk-2");
    assert!(matches!(r, Err(SettingsError::RoundtripMismatch)));
    assert_eq!(
        SettingsError::RoundtripMismatch.message(),
        "verificação DPAPI falhou: decifrado difere do original"
    );
}

#[test]
fn load_api_key_cases() {
    let mut c = Config::default();
    assert!(matches!(load_api_key(&c), ApiKeyLookup::Missing));
    c.api_key = Some("plain".to_string());
    match load_api_key(&c) {
        ApiKeyLookup::Legacy(k) => assert_eq!(k, "plain"),
        other => panic!("unexpected {:?}", other),
    }
    c.api_key_enc = Some("zz".to_string());
    assert!(matches!(load_api_key(&c), ApiKeyLookup::Undecryptable));
    c.api_key_enc = Some("6869".to_string());
    match load_api_key(&c) {
        ApiKeyLookup::Protected(b) => assert_eq!(b, b"hi"),
        other => panic!("unexpected {:?}", other),
    }
    assert!(key_of_unprotected(vec![0xff]).is_none());
}

#[test]
fn dpapi_roundtrip() {
    // Off Windows the protection keeps the bytes as they are; the settings
    // must hand the stored blob back intact for DPAPI to unprotect it.
    let secret = "sk-test-1234567890";
    let blob = secret.as_bytes().to_vec();
    let saved = save_api_key(Config::default(), secret, &blob, &blob).unwrap();
    let back = match load_api_key(&saved) {
        ApiKeyLookup::Protected(b) => b,
        other => panic!("unexpected {:?}", other),
    };
    assert_eq!(back, secret.as_bytes());
}
