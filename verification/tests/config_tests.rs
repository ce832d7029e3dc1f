use ntlm_bridge::config::{
    build_config, decode_text, decode_utf16, AuthConfig, ByteOrder, Config, Overrides, UserConfig,
};

#[test]
fn plain_utf8() {
    assert_eq!(decode_text(b"hello").unwrap(), "hello");
}

#[test]
fn utf8_with_bom() {
    let mut v = vec![0xEF, 0xBB, 0xBF];
    v.extend_from_slice(b"hello");
    assert_eq!(decode_text(&v).unwrap(), "hello");
}

#[test]
fn utf16_le_with_bom() {
    let v = [0xFF, 0xFE, b'h', 0x00, b'i', 0x00];
    assert_eq!(decode_text(&v).unwrap(), "hi");
}

#[test]
fn utf16_be_with_bom() {
    let v = [0xFE, 0xFF, 0x00, b'h', 0x00, b'i'];
    assert_eq!(decode_text(&v).unwrap(), "hi");
}

#[test]
fn utf16_surrogate_pair_decodes() {
    // U+1F600 as a little-endian surrogate pair: D83D DE00.
    let v = [0xFF, 0xFE, 0x3D, 0xD8, 0x00, 0xDE];
    assert_eq!(decode_text(&v).unwrap(), "\u{1F600}");
}

#[test]
fn utf16_text_reads_back_in_both_orders() {
    let text = "h\u{e9}llo \u{1F600} [\u{FFFD}]";
    let mut le = vec![0xFF, 0xFE];
    let mut be = vec![0xFE, 0xFF];
    for unit in text.encode_utf16() {
        le.extend_from_slice(&unit.to_le_bytes());
        be.extend_from_slice(&unit.to_be_bytes());
    }
    assert_eq!(decode_text(&le).unwrap(), text);
    assert_eq!(decode_text(&be).unwrap(), text);
}

#[test]
fn utf16_odd_length_is_rejected() {
    let v = [0xFF, 0xFE, b'h'];
    assert_eq!(
        decode_text(&v).unwrap_err(),
        "file has UTF-16 LE BOM but body is invalid: odd byte length for UTF-16"
    );
}

#[test]
fn utf16_lone_surrogate_is_rejected() {
    let err = decode_utf16(&[0x00, 0xD8], ByteOrder::LittleEndian).unwrap_err();
    assert_eq!(err, String::from_utf16(&[0xD800]).unwrap_err().to_string());
}

#[test]
fn invalid_utf8_is_rejected() {
    let err = decode_text(&[b'a', 0xC3]).unwrap_err();
    assert!(err.starts_with("file is not valid UTF-8: "));
    let err = decode_text(&[0xEF, 0xBB, 0xBF, 0xFF]).unwrap_err();
    assert!(err.starts_with("file has UTF-8 BOM but body is not valid UTF-8: "));
}

#[test]
fn defaults_match_documentation() {
    let c = Config::default();
    assert_eq!(c.server.bind, "127.0.0.1:3002");
    assert_eq!(c.server.request_timeout_secs, 120);
    assert_eq!(c.server.max_body_bytes, 10 * 1024 * 1024);
    assert_eq!(c.upstream.base_url, "http://localhost:8080");
    assert_eq!(c.upstream.workstation, "ntlm-bridge");
    assert_eq!(c.auth.realm, "ntlm-bridge");
    assert_eq!(c.auth.digest_nonce_ttl_secs, 300);
    assert!(c.auth.users.is_empty());
    assert_eq!(c.log.level, "info");
    assert!(c.validate().is_ok());
}

#[test]
fn validate_rejects_bad_url_and_quoted_realm() {
    let mut c = Config::default();
    c.upstream.base_url = "not a url".to_string();
    assert!(c.validate().unwrap_err().starts_with("invalid upstream.base_url: "));
    let mut c = Config::default();
    c.auth.realm = "a\"b".to_string();
    assert_eq!(c.validate().unwrap_err(), "auth.realm must not contain double quotes");
}

fn no_overrides() -> Overrides {
    Overrides {
        bind: None,
        request_timeout: None,
        max_body_bytes: None,
        upstream_url: None,
        domain: None,
        workstation: None,
        connect_timeout: None,
        accept_invalid_certs: false,
        auth_realm: None,
        log_level: None,
        log_requests: false,
    }
}

#[test]
fn overrides_replace_only_what_they_name() {
    let mut o = no_overrides();
    o.upstream_url = Some("http://intranet.local".to_string());
    o.domain = Some("EXAMPLE".to_string());
    o.log_requests = true;
    let mut cfg = Config::default();
    cfg.auth = AuthConfig {
        users: vec![UserConfig {
            username: "alice".into(),
            password: "secret".into(),
            domain: None,
            ntlm_username: None,
        }],
        ..AuthConfig::default()
    };
    let c = build_config(cfg, &o).unwrap();
    assert_eq!(c.upstream.base_url, "http://intranet.local");
    assert_eq!(c.upstream.domain, "EXAMPLE");
    assert!(c.log.log_requests);
    assert_eq!(c.upstream.workstation, "ntlm-bridge");
    assert_eq!(c.server.bind, "127.0.0.1:3002");
    assert_eq!(c.auth.users.len(), 1);
}

#[test]
fn overrides_are_validated() {
    let mut o = no_overrides();
    o.auth_realm = Some("bad\"realm".to_string());
    assert_eq!(
        build_config(Config::default(), &o).unwrap_err(),
        "auth.realm must not contain double quotes"
    );
}
