use base64::engine::general_purpose::STANDARD;
use base64::Engine;
use ntlm_bridge::auth::NtlmCredentials;
use ntlm_bridge::error::BridgeError;
use ntlm_bridge::ntlm::{authenticate_header_checked, extract_ntlm_payload, negotiate_header, read_challenge};

#[test]
fn extracts_ntlm_payload_from_combined_header() {
    assert_eq!(
        extract_ntlm_payload("Negotiate, NTLM TlRMTVNTUAACAAA="),
        Some("TlRMTVNTUAACAAA=")
    );
}

#[test]
fn ntlm_payload_edge_cases() {
    assert_eq!(extract_ntlm_payload("ntlm  abc "), Some("abc"));
    assert_eq!(extract_ntlm_payload("Negotiate"), None);
    assert_eq!(extract_ntlm_payload("NTLM , NTLM abc"), Some("abc"));
    assert_eq!(extract_ntlm_payload("NTLMabc, NTLM def"), Some("def"));
}

#[test]
fn negotiate_header_is_an_ntlm_type_1_message() {
    let h = negotiate_header("WS", "DOM").unwrap();
    assert!(h.starts_with("NTLM "));
    let bytes = STANDARD.decode(&h[5..]).unwrap();
    assert_eq!(&bytes[..8], b"NTLMSSP\0");
    assert_eq!(u32::from_le_bytes([bytes[8], bytes[9], bytes[10], bytes[11]]), 1);
    assert_eq!(u32::from_le_bytes([bytes[12], bytes[13], bytes[14], bytes[15]]), 0x0008_3205);
    let h = negotiate_header("WS", "").unwrap();
    let bytes = STANDARD.decode(&h[5..]).unwrap();
    assert_eq!(u32::from_le_bytes([bytes[12], bytes[13], bytes[14], bytes[15]]), 0x0008_2205);
}

fn challenge_message() -> Vec<u8> {
    let mut m = Vec::new();
    m.extend_from_slice(b"NTLMSSP\0");
    m.extend_from_slice(&2u32.to_le_bytes());
    // target name: empty
    m.extend_from_slice(&[0, 0, 0, 0, 0, 0, 0, 0]);
    m.extend_from_slice(&0x0008_0201u32.to_le_bytes());
    m.extend_from_slice(&[1, 2, 3, 4, 5, 6, 7, 8]);
    m.extend_from_slice(&[0; 8]);
    // target info: one terminator entry at offset 56
    m.extend_from_slice(&4u16.to_le_bytes());
    m.extend_from_slice(&4u16.to_le_bytes());
    m.extend_from_slice(&56u32.to_le_bytes());
    m.extend_from_slice(&[0; 8]);
    m.extend_from_slice(&[0, 0, 0, 0]);
    m
}

#[test]
fn challenge_is_read_and_answered() {
    let header = format!("NTLM {}", STANDARD.encode(challenge_message()));
    let (c, t) = read_challenge(&header).unwrap();
    assert_eq!(c, vec![1, 2, 3, 4, 5, 6, 7, 8]);
    assert_eq!(t, vec![0, 0, 0, 0]);
    let creds = NtlmCredentials { username: "u".into(), password: "p".into(), domain: "D".into() };
    let answer = authenticate_header_checked(&header, &creds, "WS").unwrap().unwrap();
    let bytes = STANDARD.decode(&answer[5..]).unwrap();
    assert_eq!(&bytes[..8], b"NTLMSSP\0");
    assert_eq!(u32::from_le_bytes([bytes[8], bytes[9], bytes[10], bytes[11]]), 3);
    let field = |at: usize| {
        let len = u16::from_le_bytes([bytes[at], bytes[at + 1]]) as usize;
        let off = u32::from_le_bytes([bytes[at + 4], bytes[at + 5], bytes[at + 6], bytes[at + 7]]) as usize;
        bytes[off..off + len].to_vec()
    };
    let lm = field(12);
    let nt = field(20);
    assert_eq!(lm.len(), 24);
    assert_eq!(nt.len(), 4 + 48);
    assert_eq!(&nt[16..24], &[1, 1, 0, 0, 0, 0, 0, 0]);
    assert_eq!(&nt[32..40], &lm[16..24]);
    assert_eq!(&nt[40..52], &[0; 12]);
    assert_eq!(field(52).len(), 16);
    assert_eq!(&bytes[16..20], &72u32.to_le_bytes());
    assert_eq!(field(28), vec![b'D', 0]);
    assert_eq!(field(36), vec![b'u', 0]);
    assert_eq!(field(44), vec![b'W', 0, b'S', 0]);
    assert_eq!(&bytes[60..64], &0x0008_0201u32.to_le_bytes());
    assert_eq!(&bytes[64..72], &[0; 8]);
    assert_eq!(bytes.len(), 72 + 24 + 52 + 2 + 2 + 4 + 16);
}

#[test]
fn challenge_errors() {
    assert!(matches!(read_challenge("Negotiate"), Err(BridgeError::MissingNtlmChallenge)));
    match read_challenge("NTLM %%%") {
        Err(BridgeError::Ntlm(m)) => assert!(m.starts_with("decoding NTLM challenge: ")),
        _ => panic!("expected an NTLM error"),
    }
    let neg = negotiate_header("WS", "").unwrap();
    match read_challenge(&neg) {
        Err(BridgeError::Ntlm(m)) => assert_eq!(m, "expected challenge message, got 1"),
        _ => panic!("expected an NTLM error"),
    }
    match read_challenge(&format!("NTLM {}", STANDARD.encode(b"NTLMSSP\0"))) {
        Err(BridgeError::Ntlm(m)) => assert!(m.starts_with("parsing NTLM challenge: ")),
        _ => panic!("expected an NTLM error"),
    }
}

#[test]
fn missing_or_bad_challenge_is_reported_whatever_the_credentials() {
    let long = "u".repeat(40_000);
    let creds = NtlmCredentials { username: long.clone(), password: "p".into(), domain: long.clone() };
    match authenticate_header_checked("Negotiate", &creds, &long) {
        Some(Err(BridgeError::MissingNtlmChallenge)) => {}
        _ => panic!("expected the missing-challenge error"),
    }
    match authenticate_header_checked("NTLM %%%", &creds, &long) {
        Some(Err(BridgeError::Ntlm(m))) => assert!(m.starts_with("decoding NTLM challenge: ")),
        _ => panic!("expected a decoding error"),
    }
    let header = format!("NTLM {}", STANDARD.encode(challenge_message()));
    assert!(authenticate_header_checked(&header, &creds, "WS").is_none());
}

#[test]
fn negotiate_payload_reads_back() {
    let h = negotiate_header("WS", "DOM").unwrap();
    assert_eq!(extract_ntlm_payload(&h), Some(&h[5..]));
}

#[test]
fn negotiate_message_has_the_documented_layout() {
    let h = negotiate_header("WS", "DOM").unwrap();
    let bytes = STANDARD.decode(&h[5..]).unwrap();
    let mut expected = b"NTLMSSP\0".to_vec();
    expected.extend_from_slice(&1u32.to_le_bytes());
    expected.extend_from_slice(&0x0008_3205u32.to_le_bytes());
    expected.extend_from_slice(&[6, 0, 6, 0, 40, 0, 0, 0]);
    expected.extend_from_slice(&[4, 0, 4, 0, 46, 0, 0, 0]);
    expected.extend_from_slice(&[0; 8]);
    expected.extend_from_slice(&[b'D', 0, b'O', 0, b'M', 0, b'W', 0, b'S', 0]);
    assert_eq!(bytes, expected);
}

fn unicode_challenge(target_info: &[u8]) -> Vec<u8> {
    let name = [b'D', 0, b'O', 0, b'M', 0];
    let mut m = Vec::new();
    m.extend_from_slice(b"NTLMSSP\0");
    m.extend_from_slice(&2u32.to_le_bytes());
    m.extend_from_slice(&(name.len() as u16).to_le_bytes());
    m.extend_from_slice(&(name.len() as u16).to_le_bytes());
    m.extend_from_slice(&56u32.to_le_bytes());
    m.extend_from_slice(&0x0082_0201u32.to_le_bytes());
    m.extend_from_slice(&[9, 8, 7, 6, 5, 4, 3, 2]);
    m.extend_from_slice(&[0; 8]);
    m.extend_from_slice(&(target_info.len() as u16).to_le_bytes());
    m.extend_from_slice(&(target_info.len() as u16).to_le_bytes());
    m.extend_from_slice(&(56 + name.len() as u32).to_le_bytes());
    m.extend_from_slice(&[0; 8]);
    m.extend_from_slice(&name);
    m.extend_from_slice(target_info);
    m
}

#[test]
fn unicode_challenge_gives_its_fields() {
    let ti = [2, 0, 6, 0, b'D', 0, b'O', 0, b'M', 0, 0, 0, 0, 0];
    let header = format!("NTLM {}", STANDARD.encode(unicode_challenge(&ti)));
    let (c, t) = read_challenge(&header).unwrap();
    assert_eq!(c, vec![9, 8, 7, 6, 5, 4, 3, 2]);
    assert_eq!(t, ti.to_vec());
    let bad = [2, 0, 3, 0, b'D', 0, b'O'];
    let header = format!("NTLM {}", STANDARD.encode(unicode_challenge(&bad)));
    match read_challenge(&header) {
        Err(BridgeError::Ntlm(m)) => assert!(m.starts_with("parsing NTLM challenge: ")),
        _ => panic!("expected a parsing error"),
    }
}
