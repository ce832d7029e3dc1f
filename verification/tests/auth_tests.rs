use base64::engine::general_purpose::{STANDARD, URL_SAFE_NO_PAD};
use base64::Engine;
use ntlm_bridge::auth::{
    authenticate, authenticate_at, authenticate_basic, challenge_headers, challenge_headers_at,
    credentials_from_user, make_nonce, md5_hex, nonce_at, parse_digest_fields, split_ntlm_user,
    strip_ascii_prefix, verify_nonce_at, NtlmCredentials,
};
use ntlm_bridge::config::{AuthConfig, UserConfig};
use ntlm_bridge::error::BridgeError;

#[test]
fn basic_parses_domain_user() {
    let value = STANDARD.encode(r"EXAMPLE\alice:secret");
    let creds = authenticate_basic(&value, "").unwrap();
    assert_eq!(
        creds,
        NtlmCredentials {
            username: "alice".into(),
            password: "secret".into(),
            domain: "EXAMPLE".into(),
        }
    );
}

fn alice_auth() -> AuthConfig {
    AuthConfig {
        users: vec![UserConfig {
            username: "alice".into(),
            password: "secret".into(),
            domain: Some("EXAMPLE".into()),
            ntlm_username: None,
        }],
        ..AuthConfig::default()
    }
}

#[test]
fn digest_round_trip() {
    let auth = alice_auth();
    let nonce = make_nonce(&auth);
    let uri = "/docs";
    let method = "GET";
    let ha1 = md5_hex("alice:ntlm-bridge:secret");
    let ha2 = md5_hex("GET:/docs");
    let response = md5_hex(&format!("{ha1}:{nonce}:00000001:abc:auth:{ha2}"));
    let header = format!(
        r#"Digest username="alice", realm="ntlm-bridge", nonce="{nonce}", uri="{uri}", qop=auth, nc=00000001, cnonce="abc", response="{response}""#
    );

    let creds = authenticate(Some(header.as_bytes()), method, Some(uri), &auth, "").unwrap();
    assert_eq!(creds.username, "alice");
    assert_eq!(creds.password, "secret");
    assert_eq!(creds.domain, "EXAMPLE");
}

#[test]
fn md5_hex_matches_rfc_1321_vectors() {
    assert_eq!(md5_hex(""), "d41d8cd98f00b204e9800998ecf8427e");
    assert_eq!(md5_hex("abc"), "900150983cd24fb0d6963f7d28e17f72");
}

#[test]
fn digest_without_qop_is_accepted() {
    let auth = alice_auth();
    let nonce = nonce_at(&auth, 1_000);
    let ha1 = md5_hex("alice:ntlm-bridge:secret");
    let ha2 = md5_hex("POST:/x?y=1");
    let response = md5_hex(&format!("{ha1}:{nonce}:{ha2}"));
    let header = format!(
        r#"Digest username="alice", realm="ntlm-bridge", nonce="{nonce}", uri="/x?y=1", response="{response}""#
    );
    let creds = authenticate_at(Some(header.as_bytes()), "POST", Some("/x?y=1"), &auth, "", 1_010).unwrap();
    assert_eq!(creds.username, "alice");
}

#[test]
fn digest_wrong_password_is_refused() {
    let auth = alice_auth();
    let nonce = nonce_at(&auth, 1_000);
    let ha1 = md5_hex("alice:ntlm-bridge:wrong");
    let ha2 = md5_hex("GET:/");
    let response = md5_hex(&format!("{ha1}:{nonce}:{ha2}"));
    let header = format!(
        r#"Digest username="alice", realm="ntlm-bridge", nonce="{nonce}", uri="/", response="{response}""#
    );
    match authenticate_at(Some(header.as_bytes()), "GET", None, &auth, "", 1_000) {
        Err(BridgeError::Unauthorized { message, challenges }) => {
            assert_eq!(message, "invalid Digest response");
            assert_eq!(challenges.len(), 2);
        }
        _ => panic!("expected a refusal"),
    }
}

fn refusal(r: Result<NtlmCredentials, BridgeError>) -> String {
    match r {
        Err(BridgeError::Unauthorized { message, .. }) => message,
        _ => panic!("expected a refusal"),
    }
}

#[test]
fn nonce_lifetime_is_enforced() {
    let auth = alice_auth();
    let nonce = nonce_at(&auth, 5_000);
    assert!(verify_nonce_at(&nonce, &auth, 5_000).is_ok());
    assert!(verify_nonce_at(&nonce, &auth, 5_300).is_ok());
    assert_eq!(verify_nonce_at(&nonce, &auth, 5_301).unwrap_err(), "stale Digest nonce");
    assert_eq!(verify_nonce_at(&nonce, &auth, 4_999).unwrap_err(), "stale Digest nonce");
    assert_eq!(nonce.len(), 32);
    assert_eq!(URL_SAFE_NO_PAD.decode(&nonce).unwrap()[..8], 5_000u64.to_be_bytes());
}

#[test]
fn forged_nonce_is_rejected() {
    let auth = alice_auth();
    let mut raw = URL_SAFE_NO_PAD.decode(nonce_at(&auth, 5_000)).unwrap();
    raw[20] ^= 1;
    let forged = URL_SAFE_NO_PAD.encode(&raw);
    assert_eq!(verify_nonce_at(&forged, &auth, 5_000).unwrap_err(), "invalid Digest nonce");
    assert_eq!(verify_nonce_at("!!", &auth, 5_000).unwrap_err(), "invalid Digest nonce");
    assert_eq!(verify_nonce_at("AAAA", &auth, 5_000).unwrap_err(), "invalid Digest nonce");
    let mut other = alice_auth();
    other.digest_nonce_secret = "another".into();
    assert_eq!(
        verify_nonce_at(&nonce_at(&other, 5_000), &auth, 5_000).unwrap_err(),
        "invalid Digest nonce"
    );
}

#[test]
fn challenges_offer_digest_only_with_users() {
    let auth = AuthConfig::default();
    let c = challenge_headers(&auth);
    assert_eq!(c, vec![r#"Basic realm="ntlm-bridge""#.to_string()]);
    let auth = alice_auth();
    let c = challenge_headers_at(&auth, 7);
    assert_eq!(c.len(), 2);
    assert_eq!(c[0], r#"Basic realm="ntlm-bridge""#);
    let nonce = nonce_at(&auth, 7);
    assert_eq!(
        c[1],
        format!(r#"Digest realm="ntlm-bridge", nonce="{nonce}", algorithm=MD5, qop="auth""#)
    );
}

#[test]
fn challenge_realm_is_escaped() {
    let auth = AuthConfig { realm: r#"a\b"c"#.into(), ..AuthConfig::default() };
    assert_eq!(challenge_headers(&auth), vec![r#"Basic realm="a\\b\"c""#.to_string()]);
}

#[test]
fn missing_and_unknown_schemes_are_refused() {
    let auth = AuthConfig::default();
    assert_eq!(refusal(authenticate(None, "GET", None, &auth, "")), "missing Authorization header");
    assert_eq!(
        refusal(authenticate(Some(&b"Bearer abc"[..]), "GET", None, &auth, "")),
        "invalid Authorization header: expected Basic or Digest scheme"
    );
    assert_eq!(
        refusal(authenticate(Some(&b"Basic \xff"[..]), "GET", None, &auth, "")),
        "invalid Authorization header: non-ascii header"
    );
    assert_eq!(
        refusal(authenticate(Some(&b"Digest username=\"a\""[..]), "GET", None, &auth, "")),
        "Digest authentication is not configured"
    );
}

#[test]
fn basic_errors_are_reported() {
    assert_eq!(authenticate_basic("%%%", "").unwrap_err(), "invalid Authorization header: invalid base64");
    assert_eq!(
        authenticate_basic(&STANDARD.encode([0xff, b':']), "").unwrap_err(),
        "invalid Authorization header: invalid utf-8"
    );
    assert_eq!(
        authenticate_basic(&STANDARD.encode("nocolon"), "").unwrap_err(),
        "invalid Authorization header: missing colon"
    );
    assert_eq!(
        authenticate_basic(&STANDARD.encode(":pw"), "").unwrap_err(),
        "invalid Authorization header: empty user"
    );
}

#[test]
fn basic_scheme_is_case_insensitive_and_keeps_default_domain() {
    let auth = AuthConfig::default();
    let header = format!("bAsIc  {} ", STANDARD.encode("bob:pa:ss"));
    let creds = authenticate(Some(header.as_bytes()), "GET", None, &auth, "CORP").unwrap();
    assert_eq!(creds.username, "bob");
    assert_eq!(creds.password, "pa:ss");
    assert_eq!(creds.domain, "CORP");
}

#[test]
fn digest_field_errors() {
    let auth = alice_auth();
    assert_eq!(
        refusal(authenticate_at(Some(&b"Digest username"[..]), "GET", None, &auth, "", 0)),
        "invalid Digest field"
    );
    assert_eq!(
        refusal(authenticate_at(Some(&b"Digest username=alice"[..]), "GET", None, &auth, "", 0)),
        "Digest field missing: realm"
    );
    assert_eq!(
        refusal(authenticate_at(
            Some(&b"Digest username=alice, realm=other, nonce=x, uri=/, response=r"[..]),
            "GET",
            None,
            &auth,
            "",
            0
        )),
        "invalid Digest realm"
    );
    let nonce = nonce_at(&auth, 0);
    let header = format!(r#"Digest username=bob, realm=ntlm-bridge, nonce="{nonce}", uri=/, response=r"#);
    assert_eq!(
        refusal(authenticate_at(Some(header.as_bytes()), "GET", None, &auth, "", 0)),
        "unknown Digest user"
    );
    let header = format!(r#"Digest username=alice, realm=ntlm-bridge, nonce="{nonce}", uri=/other, response=r"#);
    assert_eq!(
        refusal(authenticate_at(Some(header.as_bytes()), "GET", None, &auth, "", 0)),
        "Digest uri does not match request target"
    );
    let header = format!(r#"Digest username=alice, realm=ntlm-bridge, nonce="{nonce}", uri=/, qop=auth-int, response=r"#);
    assert_eq!(
        refusal(authenticate_at(Some(header.as_bytes()), "GET", None, &auth, "", 0)),
        "unsupported Digest qop"
    );
    let header = format!(r#"Digest username=alice, realm=ntlm-bridge, nonce="{nonce}", uri=/, qop=auth, response=r"#);
    assert_eq!(
        refusal(authenticate_at(Some(header.as_bytes()), "GET", None, &auth, "", 0)),
        "Digest qop requires nc and cnonce"
    );
}

#[test]
fn digest_fields_are_parsed() {
    let f = parse_digest_fields(r#" Username = "al\"ice" , realm=plain value ,, uri="/a,b", username=again"#).unwrap();
    assert_eq!(f.get("username").unwrap(), "again");
    assert_eq!(f.get("realm").unwrap(), "plain value");
    assert_eq!(f.get("uri").unwrap(), "/a,b");
    assert!(f.get("nonce").is_none());
    assert_eq!(parse_digest_fields("a=1, b").err().unwrap(), "invalid Digest field");
    let f = parse_digest_fields(r#"k="unterminated"#).unwrap();
    assert_eq!(f.get("k").unwrap(), "unterminated");
}

#[test]
fn ntlm_identity_of_users() {
    assert_eq!(split_ntlm_user(r"DOM\u\v", "D"), ("DOM".to_string(), r"u\v".to_string()));
    assert_eq!(split_ntlm_user("u", "D"), ("D".to_string(), "u".to_string()));
    let u = UserConfig {
        username: "alice".into(),
        password: "pw".into(),
        domain: None,
        ntlm_username: Some(r"CORP\a.smith".into()),
    };
    let c = credentials_from_user(&u, "DEF");
    assert_eq!(c.username, "a.smith");
    assert_eq!(c.domain, "CORP");
    assert_eq!(c.password, "pw");
}

#[test]
fn ascii_prefix_is_case_insensitive() {
    assert_eq!(strip_ascii_prefix("DIGEST abc", "Digest "), Some("abc"));
    assert_eq!(strip_ascii_prefix("Dig", "Digest "), None);
    assert_eq!(strip_ascii_prefix("Digestabc", "Digest "), None);
}

#[test]
fn advertised_realm_reads_back_from_a_quoted_echo() {
    let auth = AuthConfig { realm: r"corp\sales".into(), ..alice_auth() };
    let basic = &challenge_headers_at(&auth, 0)[0];
    let quoted = basic.strip_prefix("Basic ").unwrap();
    let fields = parse_digest_fields(quoted).unwrap();
    assert_eq!(fields.get("realm").unwrap(), r"corp\sales");
}

#[test]
fn written_fields_parse_back_in_order() {
    let header = r#"username="al\"ice", qop=auth, uri="/a, b\\c", nc=00000001, cnonce="""#;
    let f = parse_digest_fields(header).unwrap();
    let expected: Vec<(String, String)> = vec![
        ("username".into(), "al\"ice".into()),
        ("qop".into(), "auth".into()),
        ("uri".into(), r"/a, b\c".into()),
        ("nc".into(), "00000001".into()),
        ("cnonce".into(), "".into()),
    ];
    assert_eq!(f.entries, expected);
}
